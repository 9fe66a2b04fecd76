//! The store that keeps everything in this process's memory.

use vstd::prelude::*;
use std::collections::hash_map::RandomState;
use ttl_cache::TtlCache;
use crate::counter::{canonical_id, id_view, key_id, lemma_id_view_injective, Counter, CounterId, CounterKey, CounterView};
use crate::limit::{Limit, LimitView};
use crate::storage::ttl::{cache_capacity, cache_entries, cache_get, cache_get_mut, cache_insert, cache_new, holds_at, not_under, revalued, without, written, Slot};
use crate::storage::{is_within_budget, limit_views, may_see, next_record, others_kept, remaining_of, spend, spent, window_for, Record, Storage, StorageErr};

verus! {

/// The number of records that a store made by `InMemoryStorage::new` holds.
pub const DEFAULT_CAPACITY: usize = 1000;

/// The record that a slot of the table holds.
spec fn slot_record(slot: Slot) -> Record {
    Record { remaining: slot.1, window: slot.2 }
}

/// The counters that the slots stand for, in the slots' order.
spec fn slot_counters(slots: Seq<Slot>) -> Seq<CounterView> {
    slots.map_values(|slot: Slot| id_view(slot.0))
}

/// Every slot's identity is canonical, and no two slots have the same one.
spec fn well_kept(slots: Seq<Slot>) -> bool {
    &&& forall|i: int| 0 <= i < slots.len() ==> canonical_id((#[trigger] slots[i]).0)
    &&& forall|i: int, j: int|
        0 <= i < slots.len() && 0 <= j < slots.len() && i != j ==> (#[trigger] slots[i]).0
            != (#[trigger] slots[j]).0
}

/// Some slot stands for `counter`.
spec fn holds(slots: Seq<Slot>, counter: CounterView) -> bool {
    exists|i: int| 0 <= i < slots.len() && id_view((#[trigger] slots[i]).0) == counter
}

/// The place of the slot that stands for `counter`.
spec fn slot_of(slots: Seq<Slot>, counter: CounterView) -> int {
    choose|i: int| 0 <= i < slots.len() && id_view((#[trigger] slots[i]).0) == counter
}

/// The records that the slots hold, by counter.
spec fn records_of(slots: Seq<Slot>) -> Map<CounterView, Record> {
    Map::new(
        |counter: CounterView| holds(slots, counter),
        |counter: CounterView| slot_record(slots[slot_of(slots, counter)]),
    )
}

/// The test that a counter passes unless it is `counter`.
pub open spec fn other_than(counter: CounterView) -> spec_fn(CounterView) -> bool {
    |c: CounterView| c != counter
}

/// The order of the records after `counter`'s has been written anew: it moves to
/// the end, and where that makes more than `capacity` records the oldest one
/// leaves.
pub open spec fn order_after_write(
    order: Seq<CounterView>,
    capacity: nat,
    counter: CounterView,
) -> Seq<CounterView> {
    let pushed = order.filter(other_than(counter)).push(counter);
    if pushed.len() > capacity {
        pushed.drop_first()
    } else {
        pushed
    }
}

/// The order after a write, case by case. The counter written stands last. A
/// counter that had a record only moves: no record leaves. A counter without a
/// record is added, and if the store was full the oldest record leaves for it.
pub proof fn lemma_order_after_write(order: Seq<CounterView>, capacity: nat, counter: CounterView)
    requires
        order.no_duplicates(),
        order.len() <= capacity,
        capacity >= 1,
    ensures
        order_after_write(order, capacity, counter).len() >= 1,
        order_after_write(order, capacity, counter).last() == counter,
        order_after_write(order, capacity, counter).len() <= capacity,
        order.contains(counter) ==> order_after_write(order, capacity, counter) == order.remove(
            order.index_of(counter),
        ).push(counter),
        !order.contains(counter) && order.len() < capacity ==> order_after_write(
            order,
            capacity,
            counter,
        ) == order.push(counter),
        !order.contains(counter) && order.len() == capacity ==> order_after_write(
            order,
            capacity,
            counter,
        ) == order.drop_first().push(counter),
{
    if order.contains(counter) {
        let i = order.index_of(counter);
        assert forall|j: int| 0 <= j < order.len() && j != i implies other_than(counter)(
            #[trigger] order[j],
        ) by {}
        lemma_filter_drops_one(order, other_than(counter), i);
    } else {
        assert forall|j: int| 0 <= j < order.len() implies other_than(counter)(
            #[trigger] order[j],
        ) by {
            assert(order.contains(order[j]));
        }
        lemma_filter_keeps_all(order, other_than(counter));
        if order.len() == capacity {
            assert(order.push(counter).drop_first() =~= order.drop_first().push(counter));
        }
    }
}

/// In well-kept slots, the slot at a place is the one that stands for its counter.
proof fn lemma_record_at(slots: Seq<Slot>, i: int)
    requires
        well_kept(slots),
        0 <= i < slots.len(),
    ensures
        holds(slots, id_view(slots[i].0)),
        slot_of(slots, id_view(slots[i].0)) == i,
        records_of(slots).contains_key(id_view(slots[i].0)),
        records_of(slots)[id_view(slots[i].0)] == slot_record(slots[i]),
{
    let counter = id_view(slots[i].0);
    let j = slot_of(slots, counter);
    lemma_id_view_injective(slots[j].0, slots[i].0);
}

/// Well-kept slots stand for pairwise different counters.
proof fn lemma_counters_distinct(slots: Seq<Slot>)
    requires
        well_kept(slots),
    ensures
        slot_counters(slots).no_duplicates(),
        records_of(slots).dom() == slot_counters(slots).to_set(),
{
    let counters = slot_counters(slots);
    assert forall|i: int, j: int|
        0 <= i < counters.len() && 0 <= j < counters.len() && i != j implies counters[i]
        != counters[j] by {
        if counters[i] == counters[j] {
            lemma_id_view_injective(slots[i].0, slots[j].0);
        }
    }
    assert forall|c: CounterView| records_of(slots).dom().contains(c) == counters.to_set().contains(
        c,
    ) by {
        if holds(slots, c) {
            let i = slot_of(slots, c);
            assert(counters[i] == c);
            assert(counters.contains(c));
        }
        if counters.contains(c) {
            let i = choose|i: int| 0 <= i < counters.len() && counters[i] == c;
            assert(id_view(slots[i].0) == c);
        }
    }
    assert(records_of(slots).dom() =~= counters.to_set());
}

/// Writing a value into a slot changes that slot's record and nothing else.
proof fn lemma_update(slots: Seq<Slot>, i: int, value: i64)
    requires
        well_kept(slots),
        0 <= i < slots.len(),
    ensures
        well_kept(slots.update(i, (slots[i].0, value, slots[i].2))),
        slot_counters(slots.update(i, (slots[i].0, value, slots[i].2))) == slot_counters(slots),
        records_of(slots.update(i, (slots[i].0, value, slots[i].2))) == records_of(slots).insert(
            id_view(slots[i].0),
            Record { remaining: value, window: slots[i].2 },
        ),
{
    let after = slots.update(i, (slots[i].0, value, slots[i].2));
    let target = id_view(slots[i].0);
    assert forall|k: int| 0 <= k < after.len() implies (#[trigger] after[k]).0 == slots[k].0 by {}
    assert(well_kept(after));
    assert(slot_counters(after) =~= slot_counters(slots));
    let expected = records_of(slots).insert(target, Record { remaining: value, window: slots[i].2 });
    assert forall|c: CounterView| records_of(after).contains_key(c) == expected.contains_key(c) by {
        if holds(after, c) {
            let k = slot_of(after, c);
            assert(id_view(slots[k].0) == c);
        }
        if holds(slots, c) {
            let k = slot_of(slots, c);
            assert(id_view(after[k].0) == c);
        }
        lemma_record_at(slots, i);
        lemma_record_at(after, i);
    }
    assert forall|c: CounterView| #[trigger] records_of(after).contains_key(c) implies records_of(
        after,
    )[c] == expected[c] by {
        assert(holds(after, c));
        let k = slot_of(after, c);
        lemma_record_at(after, k);
        lemma_record_at(slots, k);
        lemma_record_at(slots, i);
    }
    assert(records_of(after) =~= expected);
}

/// A filter that every member passes changes nothing.
proof fn lemma_filter_keeps_all<A>(s: Seq<A>, pred: spec_fn(A) -> bool)
    requires
        forall|i: int| 0 <= i < s.len() ==> pred(#[trigger] s[i]),
    ensures
        s.filter(pred) == s,
    decreases s.len(),
{
    reveal(Seq::filter);
    if s.len() > 0 {
        lemma_filter_keeps_all(s.drop_last(), pred);
        assert(s.drop_last().push(s.last()) =~= s);
    }
}

/// A filter that every member but one passes removes that one.
proof fn lemma_filter_drops_one<A>(s: Seq<A>, pred: spec_fn(A) -> bool, at: int)
    requires
        0 <= at < s.len(),
        !pred(s[at]),
        forall|i: int| 0 <= i < s.len() && i != at ==> pred(#[trigger] s[i]),
    ensures
        s.filter(pred) == s.remove(at),
    decreases s.len(),
{
    reveal(Seq::filter);
    let rest = s.drop_last();
    if at == s.len() - 1 {
        lemma_filter_keeps_all(rest, pred);
        assert(s.remove(at) =~= rest);
    } else {
        lemma_filter_drops_one(rest, pred, at);
        assert(rest.remove(at).push(s.last()) =~= s.remove(at));
    }
}

/// Taking the slot under an identity away leaves well-kept slots, which stand
/// for the other counters in their old order.
proof fn lemma_without(slots: Seq<Slot>, key: CounterId)
    requires
        well_kept(slots),
        canonical_id(key),
    ensures
        well_kept(without(slots, key)),
        without(slots, key).len() <= slots.len(),
        forall|j: int|
            0 <= j < without(slots, key).len() ==> (#[trigger] without(slots, key)[j]).0 != key
                && slots.contains(without(slots, key)[j]),
        slot_counters(without(slots, key)) == slot_counters(slots).filter(
            other_than(id_view(key)),
        ),
{
    let counters = slot_counters(slots);
    let target = id_view(key);
    let rest = without(slots, key);
    if exists|i: int| 0 <= i < slots.len() && (#[trigger] slots[i]).0 == key {
        let i = choose|i: int| 0 <= i < slots.len() && (#[trigger] slots[i]).0 == key;
        lemma_filter_drops_one(slots, not_under(key), i);
        assert(rest == slots.remove(i));
        assert forall|j: int| 0 <= j < counters.len() && j != i implies other_than(target)(
            #[trigger] counters[j],
        ) by {
            if counters[j] == target {
                lemma_id_view_injective(slots[j].0, key);
            }
        }
        lemma_filter_drops_one(counters, other_than(target), i);
        assert(slot_counters(rest) =~= counters.remove(i));
        assert forall|j: int| 0 <= j < rest.len() implies (#[trigger] rest[j]).0 != key
            && slots.contains(rest[j]) by {
            if j < i {
                assert(rest[j] == slots[j]);
            } else {
                assert(rest[j] == slots[j + 1]);
            }
        }
        assert forall|a: int, b: int|
            0 <= a < rest.len() && 0 <= b < rest.len() && a != b implies (#[trigger] rest[a]).0
            != (#[trigger] rest[b]).0 by {
            let sa = if a < i { a } else { a + 1 };
            let sb = if b < i { b } else { b + 1 };
            assert(rest[a] == slots[sa] && rest[b] == slots[sb]);
        }
        assert forall|a: int| 0 <= a < rest.len() implies canonical_id((#[trigger] rest[a]).0) by {
            let sa = if a < i { a } else { a + 1 };
            assert(rest[a] == slots[sa]);
        }
    } else {
        lemma_filter_keeps_all(slots, not_under(key));
        assert forall|j: int| 0 <= j < counters.len() implies other_than(target)(
            #[trigger] counters[j],
        ) by {
            if counters[j] == target {
                lemma_id_view_injective(slots[j].0, key);
            }
        }
        lemma_filter_keeps_all(counters, other_than(target));
        assert forall|j: int| 0 <= j < rest.len() implies (#[trigger] rest[j]).0 != key
            && slots.contains(rest[j]) by {
            assert(rest[j] == slots[j]);
        }
    }
}

/// What writing a record does: the record stands under its counter, the other
/// records that are still there are as they were, and the order is the one that
/// `order_after_write` names.
proof fn lemma_written(slots: Seq<Slot>, capacity: nat, key: CounterId, value: i64, window: u64)
    requires
        well_kept(slots),
        canonical_id(key),
        slots.len() <= capacity,
        capacity >= 1,
    ensures
        well_kept(written(slots, capacity, key, value, window)),
        written(slots, capacity, key, value, window).len() <= capacity,
        slot_counters(written(slots, capacity, key, value, window)) == order_after_write(
            slot_counters(slots),
            capacity,
            id_view(key),
        ),
        records_of(written(slots, capacity, key, value, window)).contains_key(id_view(key)),
        records_of(written(slots, capacity, key, value, window))[id_view(key)] == (Record {
            remaining: value,
            window,
        }),
        others_kept(
            records_of(slots),
            records_of(written(slots, capacity, key, value, window)),
            id_view(key),
        ),
{
    let target = id_view(key);
    let rest = without(slots, key);
    let pushed = rest.push((key, value, window));
    let after = written(slots, capacity, key, value, window);
    lemma_without(slots, key);
    assert(well_kept(pushed)) by {
        assert forall|a: int, b: int|
            0 <= a < pushed.len() && 0 <= b < pushed.len() && a != b implies (#[trigger] pushed[a]).0
            != (#[trigger] pushed[b]).0 by {
            if a < rest.len() {
                assert(pushed[a] == rest[a]);
            }
            if b < rest.len() {
                assert(pushed[b] == rest[b]);
            }
        }
        assert forall|a: int| 0 <= a < pushed.len() implies canonical_id((#[trigger] pushed[a]).0) by {
            if a < rest.len() {
                assert(pushed[a] == rest[a]);
            }
        }
    }
    let shift: int = if pushed.len() > capacity { 1 } else { 0 };
    assert forall|a: int| 0 <= a < after.len() implies #[trigger] after[a] == pushed[a + shift] by {}
    assert(well_kept(after));
    assert(slot_counters(pushed) =~= slot_counters(rest).push(target));
    assert(slot_counters(after) =~= order_after_write(slot_counters(slots), capacity, target));
    let last = after.len() - 1;
    assert(after[last] == (key, value, window));
    lemma_record_at(after, last);
    assert forall|c: CounterView| c != target && #[trigger] records_of(after).contains_key(
        c,
    ) implies records_of(slots).contains_key(c) && records_of(after)[c] == records_of(slots)[c] by {
        assert(holds(after, c));
        let a = slot_of(after, c);
        lemma_record_at(after, a);
        assert(after[a] == pushed[a + shift]);
        assert(a + shift < rest.len());
        let slot = rest[a + shift];
        assert(slots.contains(slot));
        let k = choose|k: int| 0 <= k < slots.len() && slots[k] == slot;
        lemma_record_at(slots, k);
    }
}

/// Adding a limit that is not among the limits adds it to their set.
proof fn lemma_registry_push(limits: Seq<Limit>, limit: Limit)
    ensures
        limit_views(limits.push(limit)) == limit_views(limits).push(limit@),
        limit_views(limits.push(limit)).to_set() == limit_views(limits).to_set().insert(limit@),
        !limit_views(limits).contains(limit@) && limit_views(limits).no_duplicates() ==> limit_views(
            limits.push(limit),
        ).no_duplicates(),
{
    let before = limit_views(limits);
    let after = limit_views(limits.push(limit));
    assert(after =~= before.push(limit@));
    assert forall|v: LimitView| after.to_set().contains(v) == before.to_set().insert(
        limit@,
    ).contains(v) by {
        if after.contains(v) {
            let k = choose|k: int| 0 <= k < after.len() && after[k] == v;
            if k < before.len() {
                assert(before[k] == v);
                assert(before.contains(v));
            }
        }
        if before.contains(v) {
            let k = choose|k: int| 0 <= k < before.len() && before[k] == v;
            assert(after[k] == v);
        }
        if v == limit@ {
            assert(after[before.len() as int] == v);
        }
    }
    assert(after.to_set() =~= before.to_set().insert(limit@));
}

/// Whether `limit` is among `limits`.
fn is_registered(limits: &Vec<Limit>, limit: &Limit) -> (registered: bool)
    ensures
        registered == limit_views(limits@).contains(limit@),
{
    let mut i: usize = 0;
    while i < limits.len()
        invariant
            i <= limits.len(),
            forall|k: int| 0 <= k < i ==> limit_views(limits@)[k] != limit@,
        decreases limits.len() - i,
    {
        if limits[i] == *limit {
            assert(limit_views(limits@)[i as int] == limit@);
            return true;
        }
        i += 1;
    }
    false
}

/// A store that keeps the limits in a vector and the records in a table whose
/// entries expire.
///
/// The table holds a fixed number of records. A record is written when a counter
/// is consumed from and the table reports none for it; the record then stands
/// last. When a record is written and the table already holds as many records of
/// other counters as it can, the record that was written longest ago leaves,
/// whether or not its window has passed. Consuming from a counter whose record the
/// table reports changes the record's remaining quota only: the record keeps its
/// place and its window.
pub struct InMemoryStorage {
    limits: Vec<Limit>,
    counters: TtlCache<CounterKey, i64, RandomState>,
}

impl InMemoryStorage {
    /// No limit is registered twice; the table was made for at least one record,
    /// holds no more than it was made for, and holds each counter once.
    #[verifier::type_invariant]
    pub closed spec fn valid(&self) -> bool {
        &&& limit_views(self.limits@).no_duplicates()
        &&& cache_capacity(self.counters) >= 1
        &&& cache_entries(self.counters).len() <= cache_capacity(self.counters)
        &&& well_kept(cache_entries(self.counters))
    }

    /// The number of records that the store can hold.
    pub closed spec fn capacity(&self) -> nat {
        cache_capacity(self.counters)
    }

    /// The counters on record, from the one whose record was written longest ago
    /// to the one whose record was written last.
    pub closed spec fn order(&self) -> Seq<CounterView> {
        slot_counters(cache_entries(self.counters))
    }

    /// The records are those of the counters in `order`, each of which stands
    /// there once, and there are no more of them than the store can hold.
    pub proof fn lemma_order(self)
        requires
            self.valid(),
        ensures
            self.order().no_duplicates(),
            self.records().dom() == self.order().to_set(),
            self.order().len() <= self.capacity(),
            self.capacity() >= 1,
    {
        lemma_counters_distinct(cache_entries(self.counters));
    }

    /// An empty store for `DEFAULT_CAPACITY` records.
    pub fn new() -> (store: InMemoryStorage)
        ensures
            store.limits() == Set::<LimitView>::empty(),
            store.records() == Map::<CounterView, Record>::empty(),
            store.order() == Seq::<CounterView>::empty(),
            store.capacity() == DEFAULT_CAPACITY,
    {
        let store = InMemoryStorage { limits: Vec::new(), counters: cache_new(DEFAULT_CAPACITY) };
        assert(store.limits() =~= Set::<LimitView>::empty());
        assert(store.records() =~= Map::<CounterView, Record>::empty());
        assert(store.order() =~= Seq::<CounterView>::empty());
        store
    }

    /// An empty store for `capacity` records. A store for no record at all could
    /// not keep what it is given to write, and is refused.
    pub fn with_capacity(capacity: usize) -> (r: Result<InMemoryStorage, StorageErr>)
        ensures
            r is Ok <==> capacity >= 1,
            r matches Err(err) ==> err.text() == "a store must hold at least one record"@,
            r matches Ok(store) ==> {
                &&& store.limits() == Set::<LimitView>::empty()
                &&& store.records() == Map::<CounterView, Record>::empty()
                &&& store.order() == Seq::<CounterView>::empty()
                &&& store.capacity() == capacity
            },
    {
        if capacity == 0 {
            return Err(StorageErr::new("a store must hold at least one record"));
        }
        let store = InMemoryStorage { limits: Vec::new(), counters: cache_new(capacity) };
        assert(store.limits() =~= Set::<LimitView>::empty());
        assert(store.records() =~= Map::<CounterView, Record>::empty());
        assert(store.order() =~= Seq::<CounterView>::empty());
        Ok(store)
    }
}

impl Storage for InMemoryStorage {
    closed spec fn limits(&self) -> Set<LimitView> {
        limit_views(self.limits@).to_set()
    }

    closed spec fn records(&self) -> Map<CounterView, Record> {
        records_of(cache_entries(self.counters))
    }

    open spec fn never_fails(&self) -> bool {
        true
    }

    fn add_limit(&mut self, limit: Limit) -> (r: Result<(), StorageErr>)
        ensures
            final(self).order() == old(self).order(),
            final(self).capacity() == old(self).capacity(),
    {
        proof {
            use_type_invariant(&*self);
            lemma_registry_push(self.limits@, limit);
        }
        if is_registered(&self.limits, &limit) {
            assert(self.limits().insert(limit@) =~= self.limits());
        } else {
            let mut limits: Vec<Limit> = Vec::new();
            core::mem::swap(&mut self.limits, &mut limits);
            limits.push(limit);
            self.limits = limits;
        }
        Ok(())
    }

    fn get_limits(&self, namespace: &str) -> (r: Result<Vec<Limit>, StorageErr>) {
        proof {
            use_type_invariant(self);
        }
        let ghost views = limit_views(self.limits@);
        let ghost mut from: Seq<int> = Seq::empty();
        let mut found: Vec<Limit> = Vec::new();
        let mut i: usize = 0;
        while i < self.limits.len()
            invariant
                i <= self.limits.len(),
                views == limit_views(self.limits@),
                found@.len() == from.len(),
                forall|k: int|
                    0 <= k < from.len() ==> 0 <= #[trigger] from[k] < i && limit_views(found@)[k]
                        == views[from[k]] && views[from[k]].namespace == namespace@,
                forall|a: int, b: int| 0 <= a < b < from.len() ==> from[a] < from[b],
                forall|j: int|
                    0 <= j < i && (#[trigger] views[j]).namespace == namespace@ ==> from.contains(j),
            decreases self.limits.len() - i,
        {
            if self.limits[i].in_namespace(namespace) {
                let ghost before = found@;
                let ghost before_from = from;
                found.push(self.limits[i].clone());
                proof {
                    from = from.push(i as int);
                    assert(limit_views(found@) =~= limit_views(before).push(views[i as int]));
                    assert forall|j: int|
                        0 <= j < i + 1 && (#[trigger] views[j]).namespace
                            == namespace@ implies from.contains(j) by {
                        if j < i {
                            assert(before_from.contains(j));
                            let k = choose|k: int| 0 <= k < before_from.len() && before_from[k] == j;
                            assert(from[k] == j);
                        } else {
                            assert(from[from.len() - 1] == j);
                        }
                    }
                }
            }
            i += 1;
        }
        proof {
            let listed = limit_views(found@);
            assert forall|a: int, b: int|
                0 <= a < listed.len() && 0 <= b < listed.len() && a != b implies listed[a]
                != listed[b] by {
                assert(from[a] != from[b]) by {
                    if a < b {
                        assert(from[a] < from[b]);
                    } else {
                        assert(from[b] < from[a]);
                    }
                }
            }
            assert forall|limit: LimitView| #[trigger]
                listed.contains(limit) <==> self.limits().contains(limit) && limit.namespace
                    == namespace@ by {
                if listed.contains(limit) {
                    let k = choose|k: int| 0 <= k < listed.len() && listed[k] == limit;
                    assert(views[from[k]] == limit);
                    assert(views.contains(limit));
                }
                if views.contains(limit) && limit.namespace == namespace@ {
                    let j = choose|j: int| 0 <= j < views.len() && views[j] == limit;
                    assert(from.contains(j));
                    let k = choose|k: int| 0 <= k < from.len() && from[k] == j;
                    assert(listed[k] == limit);
                }
            }
        }
        Ok(found)
    }

    fn is_within_limits(&self, counter: &Counter, delta: i64) -> (r: Result<bool, StorageErr>) {
        proof {
            use_type_invariant(self);
        }
        let key = counter.key();
        let seen = cache_get(&self.counters, &key);
        proof {
            let slots = cache_entries(self.counters);
            match seen {
                Some(remaining) => {
                    let i = choose|i: int| #[trigger] holds_at(slots, i, key_id(key), remaining);
                    lemma_record_at(slots, i);
                    let record = Some(slot_record(slots[i]));
                    assert(may_see(self.records(), counter@, record));
                    assert(remaining_of(record) == seen);
                },
                None => {
                    assert(may_see(self.records(), counter@, None));
                    assert(remaining_of(None) == seen);
                },
            }
        }
        Ok(is_within_budget(seen, delta))
    }

    fn update_counter(&mut self, counter: &Counter, delta: i64) -> (r: Result<(), StorageErr>)
        ensures
            final(self).capacity() == old(self).capacity(),
            exists|seen: Option<Record>| #[trigger]
                may_see(old(self).records(), counter@, seen) && final(self).records()[counter@]
                    == next_record(seen, counter@.limit, delta) && final(self).order() == (match seen {
                    Some(_) => old(self).order(),
                    None => order_after_write(old(self).order(), old(self).capacity(), counter@),
                }),
    {
        proof {
            use_type_invariant(&*self);
        }
        let key = counter.key();
        let ghost slots = cache_entries(self.counters);
        let ghost capacity = cache_capacity(self.counters);
        match cache_get_mut(&mut self.counters, &key) {
            Some(slot) => {
                let ghost i = choose|i: int| #[trigger] holds_at(slots, i, key_id(key), *slot);
                proof {
                    lemma_record_at(slots, i);
                    lemma_update(slots, i, spent(*slot as int, delta as int));
                }
                *slot = spend(*slot, delta);
                proof {
                    let seen = Some(slot_record(slots[i]));
                    assert(may_see(old(self).records(), counter@, seen));
                }
            },
            None => {
                let value = spend(counter.max_value(), delta);
                let window = window_for(counter.seconds());
                proof {
                    lemma_written(slots, capacity, key_id(key), value, window);
                }
                cache_insert(&mut self.counters, key, value, window);
                proof {
                    assert(may_see(old(self).records(), counter@, None));
                }
            },
        }
        Ok(())
    }
}

} // verus!
