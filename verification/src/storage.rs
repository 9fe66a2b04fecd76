//! Where limits are registered and remaining quota is recorded.
//!
//! A store keeps two things: the set of registered limits, and for each counter
//! that has been consumed from, a record of what remains in its window. A record
//! is good for the length of the limit's window, counted from the moment it was
//! written; after that a store no longer reports it. This module does not model the
//! clock: a lookup may always report nothing, and a contract says what follows from
//! whatever the lookup reported.

use vstd::prelude::*;
use crate::counter::{Counter, CounterView};
use crate::limit::{Limit, LimitView};
use crate::storage::ttl::MAX_WINDOW_SECONDS;

pub mod in_memory;
pub mod ttl;

verus! {

/// A failure of a store.
#[derive(Debug, PartialEq, Eq)]
pub struct StorageErr {
    msg: String,
}

impl StorageErr {
    /// What the failure's message says.
    pub closed spec fn text(&self) -> Seq<char> {
        self.msg@
    }

    /// The failure described by `msg`.
    pub fn new(msg: &str) -> (err: StorageErr)
        ensures
            err.text() == msg@,
    {
        StorageErr { msg: msg.to_owned() }
    }

    /// The failure's message.
    pub fn msg(&self) -> (msg: &str)
        ensures
            msg@ == self.text(),
    {
        self.msg.as_str()
    }

    /// The string that holds the message.
    pub closed spec fn message(self) -> String {
        self.msg
    }

    /// Gives up the failure for its message.
    pub fn into_message(self) -> (msg: String)
        ensures
            msg == self.message(),
            msg@ == self.text(),
    {
        self.msg
    }
}

/// What a store has on record for one counter.
pub struct Record {
    /// The quota that remains; below zero once more was consumed than the limit
    /// admits.
    pub remaining: i64,
    /// The time in seconds for which the record was good when it was written.
    pub window: u64,
}

/// `value` brought into the range of `i64`.
pub open spec fn clamped(value: int) -> i64 {
    if value < i64::MIN {
        i64::MIN
    } else if value > i64::MAX {
        i64::MAX
    } else {
        value as i64
    }
}

/// What remains of `remaining` after `delta` was consumed. The difference
/// stops at the ends of `i64`'s range.
pub open spec fn spent(remaining: int, delta: int) -> i64 {
    clamped(remaining - delta)
}

/// The time in seconds for which a record of a limit with a window of `seconds`
/// is written: the window's length, and `MAX_WINDOW_SECONDS` for a longer one.
pub open spec fn window_of(seconds: nat) -> u64 {
    if seconds > MAX_WINDOW_SECONDS {
        MAX_WINDOW_SECONDS
    } else {
        seconds as u64
    }
}

/// Whether a counter for which a lookup reported `seen` can take `delta` more: a
/// counter with nothing on record can, and otherwise what remains must cover
/// `delta`.
pub open spec fn within_budget(seen: Option<i64>, delta: i64) -> bool {
    match seen {
        Some(remaining) => remaining - delta >= 0,
        None => true,
    }
}

/// What a lookup of `counter` may report: nothing, or what is on record.
pub open spec fn may_see(
    records: Map<CounterView, Record>,
    counter: CounterView,
    seen: Option<Record>,
) -> bool {
    match seen {
        Some(record) => records.contains_key(counter) && records[counter] == record,
        None => true,
    }
}

/// What `seen` holds of remaining quota.
pub open spec fn remaining_of(seen: Option<Record>) -> Option<i64> {
    match seen {
        Some(record) => Some(record.remaining),
        None => None,
    }
}

/// The record that consuming `delta` leaves for a counter of `limit`, where the
/// lookup reported `seen`. A record that was seen loses `delta` and keeps its
/// window: the window is not started anew. Where nothing was seen a new record is
/// written, with what the limit's maximum leaves after `delta`.
pub open spec fn next_record(seen: Option<Record>, limit: LimitView, delta: i64) -> Record {
    match seen {
        Some(record) => Record {
            remaining: spent(record.remaining as int, delta as int),
            window: record.window,
        },
        None => Record {
            remaining: spent(limit.max_value, delta as int),
            window: window_of(limit.seconds),
        },
    }
}

/// Every record in `after` but the one of `counter` was in `before`, unchanged.
pub open spec fn others_kept(
    before: Map<CounterView, Record>,
    after: Map<CounterView, Record>,
    counter: CounterView,
) -> bool {
    forall|c: CounterView|
        c != counter && #[trigger] after.contains_key(c) ==> before.contains_key(c) && after[c]
            == before[c]
}

/// The limits as mathematical values, in the same order.
pub open spec fn limit_views(limits: Seq<Limit>) -> Seq<LimitView> {
    limits.map_values(|limit: Limit| limit@)
}

/// `found` lists, each once, the registered limits of `namespace`.
pub open spec fn is_listing(found: Seq<Limit>, registered: Set<LimitView>, namespace: Seq<char>) -> bool {
    &&& limit_views(found).no_duplicates()
    &&& forall|limit: LimitView| #[trigger]
        limit_views(found).contains(limit) <==> registered.contains(limit) && limit.namespace
            == namespace
}

/// Registering a limit twice is registering it once: where no other limit of
/// its namespace is registered, a listing of the namespace then holds the limit
/// and nothing else.
pub proof fn lemma_registered_once(registered: Set<LimitView>, limit: LimitView, found: Seq<Limit>)
    requires
        forall|other: LimitView| registered.contains(other) ==> other.namespace != limit.namespace,
        is_listing(found, registered.insert(limit).insert(limit), limit.namespace),
    ensures
        registered.insert(limit).insert(limit) == registered.insert(limit),
        found.len() == 1,
        found[0]@ == limit,
{
    let views = limit_views(found);
    assert(registered.insert(limit).insert(limit) =~= registered.insert(limit));
    assert(views.contains(limit));
    assert forall|i: int| 0 <= i < views.len() implies views[i] == limit by {
        assert(views.contains(views[i]));
    }
    if views.len() > 1 {
        assert(views[0] == views[1]);
    }
}

/// What is left of a record after one was consumed from it `times` times, each
/// time with the record seen.
pub open spec fn consumed(record: Record, limit: LimitView, times: nat) -> Record
    decreases times,
{
    if times == 0 {
        record
    } else {
        next_record(Some(consumed(record, limit, (times - 1) as nat)), limit, 1)
    }
}

/// No update is lost: consuming one from a record `times` times takes exactly
/// `times` from what remains, down to the least value that can be recorded, and
/// leaves the window as it was.
pub proof fn lemma_consumed(record: Record, limit: LimitView, times: nat)
    ensures
        consumed(record, limit, times).remaining == clamped(record.remaining - times),
        consumed(record, limit, times).window == record.window,
    decreases times,
{
    if times > 0 {
        lemma_consumed(record, limit, (times - 1) as nat);
    }
}

/// A counter of which nothing is seen starts afresh: it is within budget
/// whatever is asked of it, and consuming from it writes a record with the limit's
/// whole maximum less what was consumed, good for the limit's window.
pub proof fn lemma_unseen_is_fresh(limit: LimitView, delta: i64)
    ensures
        within_budget(remaining_of(None), delta),
        next_record(None, limit, delta).remaining == clamped(limit.max_value - delta),
        next_record(None, limit, delta).window == window_of(limit.seconds),
{
}

/// The fixed window: a counter whose record was written by the first request of
/// a window and consumed from by each later one can take one more, after `hits`
/// requests in all, exactly as long as `hits` is below the limit's maximum.
pub proof fn lemma_fixed_window(limit: LimitView, hits: nat)
    requires
        hits >= 1,
        i64::MIN <= limit.max_value <= i64::MAX,
    ensures
        consumed(next_record(None, limit, 1), limit, (hits - 1) as nat).remaining == clamped(
            limit.max_value - hits,
        ),
        within_budget(
            Some(consumed(next_record(None, limit, 1), limit, (hits - 1) as nat).remaining),
            1,
        ) <==> hits < limit.max_value,
{
    lemma_consumed(next_record(None, limit, 1), limit, (hits - 1) as nat);
}

/// Subtracts `delta` from `remaining`, stopping at the ends of `i64`'s range.
pub fn spend(remaining: i64, delta: i64) -> (left: i64)
    ensures
        left == spent(remaining as int, delta as int),
{
    match remaining.checked_sub(delta) {
        Some(left) => left,
        None => if delta > 0 {
            i64::MIN
        } else {
            i64::MAX
        },
    }
}

/// Decides whether a counter can take `delta` more, from what a lookup reported.
pub fn is_within_budget(seen: Option<i64>, delta: i64) -> (within: bool)
    ensures
        within == within_budget(seen, delta),
{
    match seen {
        Some(remaining) => remaining >= delta,
        None => true,
    }
}

/// The time in seconds for which a record of a limit with a window of `seconds`
/// is written.
pub fn window_for(seconds: u64) -> (window: u64)
    ensures
        window == window_of(seconds as nat),
        window <= MAX_WINDOW_SECONDS,
{
    if seconds > MAX_WINDOW_SECONDS {
        MAX_WINDOW_SECONDS
    } else {
        seconds
    }
}

/// A store of limits and of remaining quota.
///
/// `limits` and `records` say what a store holds. Every method states how it
/// changes them; a store that cannot do its work returns an error and leaves both
/// as they were.
pub trait Storage: Sync + Send {
    /// The registered limits.
    spec fn limits(&self) -> Set<LimitView>;

    /// The records, by counter.
    spec fn records(&self) -> Map<CounterView, Record>;

    /// The store always does what it is asked: none of its methods returns an
    /// error.
    spec fn never_fails(&self) -> bool;

    /// Registers `limit`. A limit that is registered already changes nothing.
    fn add_limit(&mut self, limit: Limit) -> (r: Result<(), StorageErr>)
        ensures
            final(self).never_fails() == old(self).never_fails(),
            old(self).never_fails() ==> r is Ok,
            final(self).records() == old(self).records(),
            r is Ok ==> final(self).limits() == old(self).limits().insert(limit@),
            r is Err ==> final(self).limits() == old(self).limits(),
    ;

    /// The registered limits of `namespace`, each once: copies, which the store
    /// does not look at again.
    fn get_limits(&self, namespace: &str) -> (r: Result<Vec<Limit>, StorageErr>)
        ensures
            self.never_fails() ==> r is Ok,
            r matches Ok(found) ==> is_listing(found@, self.limits(), namespace@),
    ;

    /// Whether `counter` can take `delta` more. Changes nothing.
    fn is_within_limits(&self, counter: &Counter, delta: i64) -> (r: Result<bool, StorageErr>)
        ensures
            self.never_fails() ==> r is Ok,
            r matches Ok(within) ==> exists|seen: Option<Record>|
                #[trigger] may_see(self.records(), counter@, seen) && within == within_budget(
                    remaining_of(seen),
                    delta,
                ),
    ;

    /// Consumes `delta` from `counter`.
    fn update_counter(&mut self, counter: &Counter, delta: i64) -> (r: Result<(), StorageErr>)
        ensures
            final(self).never_fails() == old(self).never_fails(),
            old(self).never_fails() ==> r is Ok,
            final(self).limits() == old(self).limits(),
            others_kept(old(self).records(), final(self).records(), counter@),
            r is Ok ==> final(self).records().contains_key(counter@) && exists|seen: Option<Record>|
                #[trigger] may_see(old(self).records(), counter@, seen) && final(self).records()[counter@]
                    == next_record(seen, counter@.limit, delta),
            r is Err ==> final(self).records() == old(self).records(),
    ;
}

} // verus!
