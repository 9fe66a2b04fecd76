//! Quota-check requests as a service receives them: a domain and descriptors made
//! of key-value entries. Here they become the labels that the rate limiter works
//! on, and the rate limiter's answer becomes a response code.

use vstd::prelude::*;
use crate::labels::Labels;
use crate::namespace_label;
use crate::text::same_text;

verus! {

/// The response code for a request that is admitted.
pub const CODE_OK: i32 = 1;

/// The response code for a request that is over a limit.
pub const CODE_OVER_LIMIT: i32 = 2;

/// One key-value pair of a descriptor.
#[derive(Debug)]
pub struct Entry {
    pub key: String,
    pub value: String,
}

/// A list of entries that together describe one aspect of a request.
#[derive(Debug)]
pub struct RateLimitDescriptor {
    pub entries: Vec<Entry>,
}

/// A quota-check request.
#[derive(Debug)]
pub struct RateLimitRequest {
    pub domain: String,
    pub descriptors: Vec<RateLimitDescriptor>,
}

/// The entry at `i` is the first one with the key `key`.
pub open spec fn is_first_with_key(entries: Seq<Entry>, key: Seq<char>, i: int) -> bool {
    &&& 0 <= i < entries.len()
    &&& entries[i].key@ == key
    &&& forall|j: int| 0 <= j < i ==> (#[trigger] entries[j]).key@ != key
}

/// Some entry has the key `key`.
pub open spec fn has_key(entries: Seq<Entry>, key: Seq<char>) -> bool {
    exists|i: int| 0 <= i < entries.len() && (#[trigger] entries[i]).key@ == key
}

/// The labels once each of `entries` has been bound in turn on top of `base`: a
/// later entry overrides an earlier one with the same key.
pub open spec fn bound_in_turn(base: Map<Seq<char>, Seq<char>>, entries: Seq<Entry>) -> Map<
    Seq<char>,
    Seq<char>,
>
    decreases entries.len(),
{
    if entries.len() == 0 {
        base
    } else {
        bound_in_turn(base, entries.drop_last()).insert(entries.last().key@, entries.last().value@)
    }
}

/// The first entry of `descriptor` with the key `key`.
pub fn find_descriptor_entry<'a>(descriptor: &'a RateLimitDescriptor, key: &str) -> (r: Option<
    &'a Entry,
>)
    ensures
        match r {
            Some(entry) => exists|i: int|
                is_first_with_key(descriptor.entries@, key@, i) && *entry
                    == #[trigger] descriptor.entries@[i],
            None => !has_key(descriptor.entries@, key@),
        },
{
    let mut i: usize = 0;
    while i < descriptor.entries.len()
        invariant
            i <= descriptor.entries.len(),
            forall|j: int| 0 <= j < i ==> (#[trigger] descriptor.entries@[j]).key@ != key@,
        decreases descriptor.entries.len() - i,
    {
        if same_text(descriptor.entries[i].key.as_str(), key) {
            assert(is_first_with_key(descriptor.entries@, key@, i as int));
            return Some(&descriptor.entries[i]);
        }
        i += 1;
    }
    None
}

/// The first entry with the key `key` in the first descriptor of `request` that
/// has one.
pub fn find_descriptors_entry<'a>(request: &'a RateLimitRequest, key: &str) -> (r: Option<
    &'a Entry,
>)
    ensures
        match r {
            Some(entry) => exists|d: int, i: int|
                {
                    &&& 0 <= d < request.descriptors@.len()
                    &&& forall|c: int|
                        0 <= c < d ==> !has_key((#[trigger] request.descriptors@[c]).entries@, key@)
                    &&& is_first_with_key(request.descriptors@[d].entries@, key@, i)
                    &&& *entry == #[trigger] request.descriptors@[d].entries@[i]
                },
            None => forall|c: int|
                0 <= c < request.descriptors@.len() ==> !has_key(
                    (#[trigger] request.descriptors@[c]).entries@,
                    key@,
                ),
        },
{
    let mut d: usize = 0;
    while d < request.descriptors.len()
        invariant
            d <= request.descriptors.len(),
            forall|c: int|
                0 <= c < d ==> !has_key((#[trigger] request.descriptors@[c]).entries@, key@),
        decreases request.descriptors.len() - d,
    {
        match find_descriptor_entry(&request.descriptors[d], key) {
            Some(entry) => {
                return Some(entry);
            },
            None => {},
        }
        d += 1;
    }
    None
}

/// The labels of a request: its domain as the namespace, and on top of that each
/// entry of its first descriptor in turn. A request without descriptors has no
/// labels to give.
pub fn request_values(request: &RateLimitRequest) -> (r: Option<Labels>)
    ensures
        match r {
            Some(values) => request.descriptors@.len() > 0 && values@ == bound_in_turn(
                Map::<Seq<char>, Seq<char>>::empty().insert(namespace_label(), request.domain@),
                request.descriptors@[0].entries@,
            ),
            None => request.descriptors@.len() == 0,
        },
{
    if request.descriptors.len() == 0 {
        return None;
    }
    let entries = &request.descriptors[0].entries;
    let mut values = Labels::new();
    values.insert("namespace".to_owned(), request.domain.clone());
    let ghost base = values@;
    for i in 0..entries.len()
        invariant
            values@ == bound_in_turn(base, entries@.take(i as int)),
    {
        values.insert(entries[i].key.clone(), entries[i].value.clone());
        proof {
            let upto = entries@.take(i + 1);
            assert(upto.drop_last() =~= entries@.take(i as int));
            assert(upto.last() == entries@[i as int]);
        }
    }
    assert(entries@.take(entries.len() as int) =~= entries@);
    Some(values)
}

/// The response code that tells the caller whether the request was rejected.
pub fn response_code(rate_limited: bool) -> (code: i32)
    ensures
        code == if rate_limited {
            CODE_OVER_LIMIT
        } else {
            CODE_OK
        },
{
    if rate_limited {
        CODE_OVER_LIMIT
    } else {
        CODE_OK
    }
}

} // verus!
