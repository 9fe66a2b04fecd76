//! The expiring table that holds the in-memory records: `ttl_cache::TtlCache`,
//! and what this library takes on trust about it.

use vstd::prelude::*;
use std::collections::hash_map::RandomState;
use std::hash::BuildHasher;
use std::hash::Hash;
use std::time::Duration;
use ttl_cache::TtlCache;
use crate::counter::{key_id, CounterId, CounterKey};

verus! {

/// The longest time to live, in seconds, that a record is written with: about
/// 136 years.
pub const MAX_WINDOW_SECONDS: u64 = 4_294_967_295;

/// One entry of the table: the key, the value, and the time to live in seconds
/// that the entry was written with.
pub type Slot = (CounterId, i64, u64);

/// `ttl_cache::TtlCache`, made known so that it can stand in signatures and
/// fields. Nothing inside a table is visible; what it holds is named by
/// `cache_entries` and `cache_capacity`.
#[verifier::external_type_specification]
#[verifier::external_body]
#[verifier::reject_recursive_types(K)]
#[verifier::reject_recursive_types(V)]
#[verifier::reject_recursive_types(S)]
pub struct ExTtlCache<K: Eq + Hash, V, S: BuildHasher>(TtlCache<K, V, S>);

/// The entries that the table holds, from the one written longest ago to the one
/// written last. An entry whose time to live has passed is still held, until it is
/// overwritten or pushed out.
pub uninterp spec fn cache_entries(cache: TtlCache<CounterKey, i64, RandomState>) -> Seq<Slot>;

/// The number of entries that the table was made to hold.
pub uninterp spec fn cache_capacity(cache: TtlCache<CounterKey, i64, RandomState>) -> nat;

/// The entry at place `i` stands under `key` and holds `value`.
pub open spec fn holds_at(entries: Seq<Slot>, i: int, key: CounterId, value: i64) -> bool {
    &&& 0 <= i < entries.len()
    &&& entries[i].0 == key
    &&& entries[i].1 == value
}

/// The entries with `value` in place of the value at place `i`: the entry keeps
/// its key, its place and its time to live.
pub open spec fn revalued(entries: Seq<Slot>, i: int, value: i64) -> Seq<Slot> {
    entries.update(i, (entries[i].0, value, entries[i].2))
}

/// The test that an entry passes unless it stands under `key`.
pub open spec fn not_under(key: CounterId) -> spec_fn(Slot) -> bool {
    |slot: Slot| slot.0 != key
}

/// The entries without the one under `key`.
pub open spec fn without(entries: Seq<Slot>, key: CounterId) -> Seq<Slot> {
    entries.filter(not_under(key))
}

/// The entries after `key` has been written with `value` and `window`: the entry
/// under `key`, if there was one, is gone from its place; the new entry stands last;
/// and where that makes more entries than `capacity`, the first entry is dropped.
pub open spec fn written(
    entries: Seq<Slot>,
    capacity: nat,
    key: CounterId,
    value: i64,
    window: u64,
) -> Seq<Slot> {
    let pushed = without(entries, key).push((key, value, window));
    if pushed.len() > capacity {
        pushed.drop_first()
    } else {
        pushed
    }
}

/// `TtlCache::new`: a table without entries, made to hold `capacity` of them.
#[verifier::external_body]
pub(crate) fn cache_new(capacity: usize) -> (cache: TtlCache<CounterKey, i64, RandomState>)
    ensures
        cache_entries(cache) == Seq::<Slot>::empty(),
        cache_capacity(cache) == capacity,
{
    TtlCache::new(capacity)
}

/// `TtlCache::get`: the value of the entry under `key`, if the table holds one
/// whose time to live has not passed. Whether it has passed depends on the clock,
/// so nothing is claimed of `None`: the table may well hold an entry under `key`.
#[verifier::external_body]
pub(crate) fn cache_get(cache: &TtlCache<CounterKey, i64, RandomState>, key: &CounterKey) -> (value:
    Option<i64>)
    ensures
        value matches Some(v) ==> exists|i: int|
            #[trigger] holds_at(cache_entries(*cache), i, key_id(*key), v),
{
    cache.get(key).copied()
}

/// `TtlCache::get_mut`: a reference to the value of the entry under `key`, if the
/// table holds one whose time to live has not passed. What is written through the
/// reference becomes the entry's value; the entry keeps its place and its time to
/// live, and no other entry changes. The call does not panic.
#[verifier::external_body]
pub(crate) fn cache_get_mut<'a>(
    cache: &'a mut TtlCache<CounterKey, i64, RandomState>,
    key: &CounterKey,
) -> (value: Option<&'a mut i64>)
    ensures
        cache_capacity(*final(cache)) == cache_capacity(*old(cache)),
        match value {
            Some(slot) => exists|i: int|
                #[trigger] holds_at(cache_entries(*old(cache)), i, key_id(*key), *slot)
                    && cache_entries(*final(cache)) == revalued(
                    cache_entries(*old(cache)),
                    i,
                    *final(slot),
                ),
            None => cache_entries(*final(cache)) == cache_entries(*old(cache)),
        },
    no_unwind
{
    cache.get_mut(key)
}

/// `TtlCache::insert`: writes `value` under `key` with a time to live of
/// `window` seconds, counted from now. An entry already under `key` is replaced
/// and moves to the last place; if the table then holds more entries than it was
/// made for, the first one is dropped.
///
/// The table adds the time to live to the current instant, which panics where the
/// sum cannot be represented; `requires` keeps the time to live short enough, and
/// with that the call does not panic.
#[verifier::external_body]
pub(crate) fn cache_insert(
    cache: &mut TtlCache<CounterKey, i64, RandomState>,
    key: CounterKey,
    value: i64,
    window: u64,
)
    requires
        window <= MAX_WINDOW_SECONDS,
    ensures
        cache_capacity(*final(cache)) == cache_capacity(*old(cache)),
        cache_entries(*final(cache)) == written(
            cache_entries(*old(cache)),
            cache_capacity(*old(cache)),
            key_id(key),
            value,
            window,
        ),
    no_unwind
{
    cache.insert(key, value, Duration::from_secs(window));
}

} // verus!
