//! A rate limiter: limits registered per namespace, and for each request the
//! question whether one of the limits that apply to it is used up.
//!
//! A request is a map of labels with a `namespace` among them. The limits of that
//! namespace whose conditions the labels satisfy apply to the request; each of them,
//! taken with the labels, is a counter. `is_rate_limited` asks the store whether any
//! of these counters cannot take one more; `update_counters` consumes one from each.
//! The two are separate calls, and nothing ties a check to the update that follows
//! it: two requests may both pass the check before either is counted.

use vstd::prelude::*;
use crate::counter::{Counter, CounterView};
use crate::errors::LimitadorError;
use crate::labels::Labels;
use crate::limit::{well_formed, Limit, LimitView};
use crate::storage::in_memory::InMemoryStorage;
use crate::storage::{is_listing, limit_views, may_see, next_record, others_kept, Record, Storage, StorageErr};
use crate::text::lex_less;

pub mod counter;
pub mod descriptor;
pub mod errors;
pub mod labels;
pub mod limit;
pub mod sorted;
pub mod storage;
pub mod string_set;
pub mod text;

verus! {

/// The label that names the namespace of a request.
pub open spec fn namespace_label() -> Seq<char> {
    "namespace"@
}

/// The counters as mathematical values, in the same order.
pub open spec fn counter_views(counters: Seq<Counter>) -> Seq<CounterView> {
    counters.map_values(|counter: Counter| counter@)
}

/// A request with the labels `labels` in `namespace` consumes from `counter`: the
/// counter is a registered limit of the namespace that applies to the labels, taken
/// with the labels.
pub open spec fn concerns(
    limits: Set<LimitView>,
    namespace: Seq<char>,
    labels: Map<Seq<char>, Seq<char>>,
    counter: CounterView,
) -> bool {
    &&& counter.labels == labels
    &&& limits.contains(counter.limit)
    &&& counter.limit.namespace == namespace
    &&& counter.limit.applies(labels)
}

/// `counters` lists, each once, the counters that a request with the labels
/// `labels` in `namespace` consumes from.
pub open spec fn is_selection(
    counters: Seq<Counter>,
    limits: Set<LimitView>,
    namespace: Seq<char>,
    labels: Map<Seq<char>, Seq<char>>,
) -> bool {
    &&& counter_views(counters).no_duplicates()
    &&& forall|counter: CounterView| #[trigger]
        counter_views(counters).contains(counter) <==> concerns(limits, namespace, labels, counter)
}

/// The record of `counter` shows that the counter cannot take one more.
pub open spec fn used_up(records: Map<CounterView, Record>, counter: CounterView) -> bool {
    records.contains_key(counter) && records[counter].remaining - 1 < 0
}

/// `after` is what is left of `before` once one was consumed from each counter in
/// `done` and from no other: a record of a counter in `done` is what consuming one
/// makes of what was seen of the counter, and any other record is as it was.
/// Records may have left the store.
pub open spec fn consumed_from(
    before: Map<CounterView, Record>,
    after: Map<CounterView, Record>,
    done: Set<CounterView>,
) -> bool {
    forall|c: CounterView| #[trigger]
        after.contains_key(c) ==> if done.contains(c) {
            exists|seen: Option<Record>| #[trigger]
                may_see(before, c, seen) && after[c] == next_record(seen, c.limit, 1)
        } else {
            before.contains_key(c) && after[c] == before[c]
        }
}

/// The counters that a request with the labels `labels` in `namespace` consumes
/// from.
pub open spec fn concerned(
    limits: Set<LimitView>,
    namespace: Seq<char>,
    labels: Map<Seq<char>, Seq<char>>,
) -> Set<CounterView> {
    Set::new(|counter: CounterView| concerns(limits, namespace, labels, counter))
}

/// `after` is what counting a request makes of `before`, where the request
/// consumes from the counters in `concerned`: one was consumed from some of these
/// counters and from no other counter; from all of them, if the counting was
/// `complete`. After a complete counting the record of at least one of them is
/// there.
pub open spec fn counted(
    before: Map<CounterView, Record>,
    after: Map<CounterView, Record>,
    concerned: Set<CounterView>,
    complete: bool,
) -> bool {
    exists|done: Set<CounterView>|
        {
            &&& #[trigger] consumed_from(before, after, done)
            &&& done.subset_of(concerned)
            &&& complete ==> done == concerned
            &&& complete && !done.is_empty() ==> exists|c: CounterView|
                done.contains(c) && #[trigger] after.contains_key(c)
        }
}

/// What the store's answer about one counter settles: nothing yet where the
/// counter can take one more, rejection where it cannot, and the store's failure
/// where the store failed.
pub open spec fn settled_by(answer: Result<bool, StorageErr>) -> Option<Result<bool, LimitadorError>> {
    match answer {
        Ok(true) => None,
        Ok(false) => Some(Ok(true)),
        Err(err) => Some(Err(LimitadorError::Storage(err.message()))),
    }
}

/// Takes the store's answer about one of the counters of a request: `None` where
/// the next counter has to be asked about, and otherwise what is answered for the
/// request.
pub fn settle(answer: Result<bool, StorageErr>) -> (r: Option<Result<bool, LimitadorError>>)
    ensures
        r == settled_by(answer),
{
    match answer {
        Ok(within) => if within {
            None
        } else {
            Some(Ok(true))
        },
        Err(err) => Some(Err(LimitadorError::from(err))),
    }
}

/// The rate limiter: a store, and the rules by which requests are checked and
/// counted against it.
pub struct RateLimiter {
    storage: Box<dyn Storage>,
}

impl RateLimiter {
    /// The registered limits.
    pub closed spec fn limits(&self) -> Set<LimitView> {
        self.storage.limits()
    }

    /// The records of remaining quota, by counter.
    pub closed spec fn records(&self) -> Map<CounterView, Record> {
        self.storage.records()
    }

    /// The store behind the rate limiter never fails.
    pub closed spec fn never_fails(&self) -> bool {
        self.storage.never_fails()
    }

    /// A rate limiter over an empty in-memory store.
    pub fn new() -> (limiter: RateLimiter)
        ensures
            limiter.limits() == Set::<LimitView>::empty(),
            limiter.records() == Map::<CounterView, Record>::empty(),
            limiter.never_fails(),
    {
        RateLimiter { storage: Box::new(InMemoryStorage::new()) }
    }

    /// Registers `limit`, unless one of its conditions does not have the form
    /// `left == right`: then nothing is registered and the first such condition,
    /// in increasing order, is reported. Registering a limit again changes nothing.
    pub fn add_limit(&mut self, limit: Limit) -> (r: Result<(), LimitadorError>)
        ensures
            final(self).records() == old(self).records(),
            final(self).never_fails() == old(self).never_fails(),
            r is Ok ==> final(self).limits() == old(self).limits().insert(limit@),
            r is Err ==> final(self).limits() == old(self).limits(),
            r matches Err(LimitadorError::MalformedCondition(_)) <==> !limit@.well_formed(),
            r matches Err(LimitadorError::MalformedCondition(c)) ==> {
                &&& limit@.conditions.contains(c@)
                &&& !well_formed(c@)
                &&& forall|d: Seq<char>|
                    limit@.conditions.contains(d) && !well_formed(d) && d != c@ ==> lex_less(c@, d)
            },
            r matches Err(e) ==> e is MalformedCondition || (e is Storage && !old(self).never_fails()),
    {
        match limit.malformed_condition() {
            Some(condition) => Err(LimitadorError::MalformedCondition(condition)),
            None => match self.storage.add_limit(limit) {
                Ok(()) => Ok(()),
                Err(err) => Err(LimitadorError::from(err)),
            },
        }
    }

    /// The registered limits of `namespace`, each once; none for a namespace that
    /// nothing was registered under. The limits are copies: what is done to them
    /// does not reach the store.
    pub fn get_limits(&self, namespace: &str) -> (r: Result<Vec<Limit>, LimitadorError>)
        ensures
            r matches Ok(found) ==> is_listing(found@, self.limits(), namespace@),
            r matches Err(e) ==> e is Storage && !self.never_fails(),
    {
        match self.storage.get_limits(namespace) {
            Ok(found) => Ok(found),
            Err(err) => Err(LimitadorError::from(err)),
        }
    }

    /// The counters that a request with the labels `values` in `namespace`
    /// consumes from.
    pub fn counters_that_apply(&self, namespace: &str, values: &Labels) -> (r: Result<
        Vec<Counter>,
        LimitadorError,
    >)
        ensures
            r matches Ok(counters) ==> is_selection(counters@, self.limits(), namespace@, values@),
            r matches Err(e) ==> e is Storage && !self.never_fails(),
    {
        let limits = match self.get_limits(namespace) {
            Ok(limits) => limits,
            Err(err) => {
                return Err(err);
            },
        };
        let ghost views = limit_views(limits@);
        let ghost mut from: Seq<int> = Seq::empty();
        let mut counters: Vec<Counter> = Vec::new();
        let mut i: usize = 0;
        while i < limits.len()
            invariant
                i <= limits.len(),
                views == limit_views(limits@),
                counters@.len() == from.len(),
                forall|k: int|
                    0 <= k < from.len() ==> 0 <= #[trigger] from[k] < i && counter_views(counters@)[k]
                        == (CounterView { limit: views[from[k]], labels: values@ }) && views[from[k]].applies(
                        values@,
                    ),
                forall|a: int, b: int| 0 <= a < b < from.len() ==> from[a] < from[b],
                forall|j: int|
                    0 <= j < i && (#[trigger] views[j]).applies(values@) ==> from.contains(j),
            decreases limits.len() - i,
        {
            if limits[i].applies(values) {
                let ghost before = counters@;
                let ghost before_from = from;
                let counter = Counter::new(limits[i].clone(), values.clone());
                counters.push(counter);
                proof {
                    from = from.push(i as int);
                    assert(counter_views(counters@) =~= counter_views(before).push(counter@));
                    assert forall|j: int|
                        0 <= j < i + 1 && (#[trigger] views[j]).applies(values@) implies from.contains(
                        j,
                    ) by {
                        if j < i {
                            assert(before_from.contains(j));
                            let k = choose|k: int| 0 <= k < before_from.len() && before_from[k] == j;
                            assert(from[k] == j);
                        } else {
                            assert(from[from.len() - 1] == j);
                        }
                    }
                }
            }
            i += 1;
        }
        proof {
            let listed = counter_views(counters@);
            assert forall|a: int, b: int|
                0 <= a < listed.len() && 0 <= b < listed.len() && a != b implies listed[a]
                != listed[b] by {
                assert(from[a] != from[b]) by {
                    if a < b {
                        assert(from[a] < from[b]);
                    } else {
                        assert(from[b] < from[a]);
                    }
                }
                assert(views[from[a]] != views[from[b]]);
            }
            assert forall|counter: CounterView| #[trigger]
                listed.contains(counter) <==> concerns(
                    self.limits(),
                    namespace@,
                    values@,
                    counter,
                ) by {
                if listed.contains(counter) {
                    let k = choose|k: int| 0 <= k < listed.len() && listed[k] == counter;
                    assert(views[from[k]] == counter.limit);
                    assert(views.contains(counter.limit));
                }
                if concerns(self.limits(), namespace@, values@, counter) {
                    assert(views.contains(counter.limit));
                    let j = choose|j: int| 0 <= j < views.len() && views[j] == counter.limit;
                    assert(from.contains(j));
                    let k = choose|k: int| 0 <= k < from.len() && from[k] == j;
                    assert(listed[k] =~= counter);
                }
            }
        }
        Ok(counters)
    }

    /// Whether a request with the labels `values` is to be rejected: whether one
    /// of the counters that it consumes from cannot take one more. Changes nothing.
    ///
    /// A counter without a record can always take one more, and the store may
    /// report no record for a counter whose window has passed. So `true` is
    /// answered only where the record of such a counter shows it used up.
    pub fn is_rate_limited(&self, values: &Labels) -> (r: Result<bool, LimitadorError>)
        ensures
            r matches Err(LimitadorError::MissingNamespace) <==> !values@.contains_key(
                namespace_label(),
            ),
            r matches Err(e) ==> e is MissingNamespace || (e is Storage && !self.never_fails()),
            r matches Ok(limited) ==> (limited ==> exists|counter: CounterView|
                concerns(self.limits(), values@[namespace_label()], values@, counter) && #[trigger] used_up(
                    self.records(),
                    counter,
                )),
    {
        match values.get("namespace") {
            Some(namespace) => {
                let counters = match self.counters_that_apply(namespace.as_str(), values) {
                    Ok(counters) => counters,
                    Err(err) => {
                        return Err(err);
                    },
                };
                let mut i: usize = 0;
                while i < counters.len()
                    invariant
                        i <= counters.len(),
                        values@.contains_key(namespace_label()),
                        namespace@ == values@[namespace_label()],
                        is_selection(counters@, self.limits(), namespace@, values@),
                    decreases counters.len() - i,
                {
                    let answer = self.storage.is_within_limits(&counters[i], 1);
                    match settle(answer) {
                        Some(verdict) => {
                            proof {
                                let counter = counters@[i as int]@;
                                assert(counter_views(counters@)[i as int] == counter);
                                assert(counter_views(counters@).contains(counter));
                                if answer is Ok {
                                    assert(used_up(self.records(), counter));
                                }
                            }
                            return verdict;
                        },
                        None => {},
                    }
                    i += 1;
                }
                Ok(false)
            },
            None => Err(LimitadorError::MissingNamespace),
        }
    }

    /// Counts a request with the labels `values`: consumes one from each of the
    /// counters that the request consumes from, and from no other.
    ///
    /// The counters are taken one after the other. If the store fails on one of
    /// them, the error is returned at once: the counters taken before it have been
    /// consumed from, the others have not.
    pub fn update_counters(&mut self, values: &Labels) -> (r: Result<(), LimitadorError>)
        ensures
            final(self).limits() == old(self).limits(),
            final(self).never_fails() == old(self).never_fails(),
            r matches Err(LimitadorError::MissingNamespace) <==> !values@.contains_key(
                namespace_label(),
            ),
            r matches Err(LimitadorError::MissingNamespace) ==> final(self).records() == old(
                self,
            ).records(),
            r matches Err(e) ==> e is MissingNamespace || (e is Storage && !old(self).never_fails()),
            values@.contains_key(namespace_label()) ==> counted(
                old(self).records(),
                final(self).records(),
                concerned(old(self).limits(), values@[namespace_label()], values@),
                r is Ok,
            ),
    {
        match values.get("namespace") {
            Some(namespace) => {
                let counters = match self.counters_that_apply(namespace.as_str(), values) {
                    Ok(counters) => counters,
                    Err(err) => {
                        proof {
                            assert(consumed_from(
                                old(self).records(),
                                self.records(),
                                Set::<CounterView>::empty(),
                            ));
                        }
                        return Err(err);
                    },
                };
                let ghost before = self.records();
                let ghost all = counter_views(counters@);
                let mut i: usize = 0;
                while i < counters.len()
                    invariant
                        i <= counters.len(),
                        values@.contains_key(namespace_label()),
                        namespace@ == values@[namespace_label()],
                        before == old(self).records(),
                        all == counter_views(counters@),
                        is_selection(counters@, self.limits(), namespace@, values@),
                        self.limits() == old(self).limits(),
                        self.never_fails() == old(self).never_fails(),
                        consumed_from(before, self.records(), all.take(i as int).to_set()),
                        i > 0 ==> self.records().contains_key(all[i - 1]),
                    decreases counters.len() - i,
                {
                    let ghost now = self.records();
                    let ghost done = all.take(i as int).to_set();
                    let ghost current = counters@[i as int]@;
                    match self.storage.update_counter(&counters[i], 1) {
                        Ok(()) => {
                            proof {
                                lemma_step(before, now, self.records(), all, i as int);
                            }
                        },
                        Err(err) => {
                            proof {
                                assert forall|c: CounterView| done.contains(c) implies concerns(
                                    old(self).limits(),
                                    namespace@,
                                    values@,
                                    c,
                                ) by {
                                    let part = all.take(i as int);
                                    let k = choose|k: int| 0 <= k < part.len() && part[k] == c;
                                    assert(all[k] == c);
                                    assert(all.contains(c));
                                }
                                assert(consumed_from(before, self.records(), done));
                            }
                            return Err(LimitadorError::from(err));
                        },
                    }
                    i += 1;
                }
                proof {
                    assert(all.take(counters.len() as int) =~= all);
                    let done = all.to_set();
                    let target = concerned(old(self).limits(), namespace@, values@);
                    assert forall|c: CounterView| done.contains(c) == target.contains(c) by {
                        assert(done.contains(c) == all.contains(c));
                    }
                    assert(done =~= target);
                    if !done.is_empty() {
                        let c = choose|c: CounterView| done.contains(c);
                        assert(all.contains(c));
                        let last = all[all.len() - 1];
                        assert(all.contains(last));
                        assert(self.records().contains_key(last));
                    }
                    assert(consumed_from(before, self.records(), done));
                }
                Ok(())
            },
            None => Err(LimitadorError::MissingNamespace),
        }
    }
}

/// One more counter consumed from: the step of `update_counters`.
proof fn lemma_step(
    before: Map<CounterView, Record>,
    now: Map<CounterView, Record>,
    next: Map<CounterView, Record>,
    all: Seq<CounterView>,
    i: int,
)
    requires
        0 <= i < all.len(),
        all.no_duplicates(),
        consumed_from(before, now, all.take(i).to_set()),
        others_kept(now, next, all[i]),
        next.contains_key(all[i]),
        exists|seen: Option<Record>| #[trigger]
            may_see(now, all[i], seen) && next[all[i]] == next_record(seen, all[i].limit, 1),
    ensures
        consumed_from(before, next, all.take(i + 1).to_set()),
{
    let part = all.take(i);
    let grown = all.take(i + 1);
    let done = part.to_set();
    let more = grown.to_set();
    let current = all[i];
    assert(grown =~= part.push(current));
    assert(!done.contains(current)) by {
        if part.contains(current) {
            let k = choose|k: int| 0 <= k < part.len() && part[k] == current;
            assert(all[k] == current);
        }
    }
    assert forall|c: CounterView| more.contains(c) == (done.contains(c) || c == current) by {
        if grown.contains(c) {
            let k = choose|k: int| 0 <= k < grown.len() && grown[k] == c;
            if k < i {
                assert(part[k] == c);
                assert(part.contains(c));
            }
        }
        if part.contains(c) {
            let k = choose|k: int| 0 <= k < part.len() && part[k] == c;
            assert(grown[k] == c);
        }
        if c == current {
            assert(grown[i] == c);
        }
    }
    assert forall|c: CounterView| #[trigger] next.contains_key(c) implies if more.contains(c) {
        exists|seen: Option<Record>| #[trigger]
            may_see(before, c, seen) && next[c] == next_record(seen, c.limit, 1)
    } else {
        before.contains_key(c) && next[c] == before[c]
    } by {
        if c == current {
            let seen = choose|seen: Option<Record>| #[trigger]
                may_see(now, current, seen) && next[current] == next_record(seen, current.limit, 1);
            assert(may_see(before, current, seen));
        } else {
            assert(now.contains_key(c));
        }
    }
}

impl Default for RateLimiter {
    fn default() -> (limiter: RateLimiter)
        ensures
            limiter.limits() == Set::<LimitView>::empty(),
            limiter.records() == Map::<CounterView, Record>::empty(),
            limiter.never_fails(),
    {
        RateLimiter::new()
    }
}

} // verus!
