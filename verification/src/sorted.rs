//! Strictly increasing sequences of strings.
//!
//! A set of strings kept as a strictly increasing vector has exactly one
//! representation, whatever the order in which its members arrived. The library's
//! sets and label maps are kept that way, so that two values which mean the same
//! are the same, field by field.

use vstd::prelude::*;
use crate::text::{lemma_lex_asymmetric, lemma_lex_irreflexive, lemma_lex_transitive, lex_less, str_order, Order};

verus! {

/// The character sequences of a sequence of strings, in the same order.
pub open spec fn texts(items: Seq<String>) -> Seq<Seq<char>> {
    items.map_values(|s: String| s@)
}

/// Each member is below every later one.
pub open spec fn increasing(s: Seq<Seq<char>>) -> bool {
    forall|i: int, j: int| 0 <= i < j < s.len() ==> lex_less(#[trigger] s[i], #[trigger] s[j])
}

/// An increasing sequence holds nothing twice.
pub proof fn lemma_increasing_distinct(s: Seq<Seq<char>>)
    requires
        increasing(s),
    ensures
        s.no_duplicates(),
{
    assert forall|i: int, j: int| 0 <= i < s.len() && 0 <= j < s.len() && i != j implies s[i]
        != s[j] by {
        lemma_lex_irreflexive(s[i]);
        if i < j {
            assert(lex_less(s[i], s[j]));
        } else {
            assert(lex_less(s[j], s[i]));
        }
    }
}

/// The last member of a non-empty increasing sequence is its greatest.
proof fn lemma_last_is_greatest(s: Seq<Seq<char>>, x: Seq<char>)
    requires
        increasing(s),
        s.len() > 0,
        s.contains(x),
    ensures
        x == s.last() || lex_less(x, s.last()),
{
    let i = choose|i: int| 0 <= i < s.len() && s[i] == x;
    if i < s.len() - 1 {
        assert(lex_less(s[i], s[s.len() - 1]));
    }
}

/// Two increasing sequences with the same members are the same sequence.
pub proof fn lemma_increasing_unique(a: Seq<Seq<char>>, b: Seq<Seq<char>>)
    requires
        increasing(a),
        increasing(b),
        a.to_set() == b.to_set(),
    ensures
        a == b,
    decreases a.len(),
{
    if a.len() == 0 {
        if b.len() > 0 {
            assert(b.contains(b[0]));
            assert(b.to_set().contains(b[0]));
            assert(a.to_set().contains(b[0]));
        }
        assert(a =~= b);
    } else {
        assert(a.contains(a.last()));
        assert(a.to_set().contains(a.last()));
        assert(b.contains(a.last()));
        assert(b.len() > 0);
        assert(b.contains(b.last()));
        assert(b.to_set().contains(b.last()));
        assert(a.contains(b.last()));
        lemma_last_is_greatest(b, a.last());
        lemma_last_is_greatest(a, b.last());
        if a.last() != b.last() {
            lemma_lex_asymmetric(a.last(), b.last());
        }
        let ra = a.drop_last();
        let rb = b.drop_last();
        lemma_increasing_distinct(a);
        lemma_increasing_distinct(b);
        assert forall|x: Seq<char>| ra.to_set().contains(x) == rb.to_set().contains(x) by {
            if ra.contains(x) {
                let i = choose|i: int| 0 <= i < ra.len() && ra[i] == x;
                assert(a[i] == x);
                assert(a.contains(x));
                assert(b.to_set().contains(x));
                let j = choose|j: int| 0 <= j < b.len() && b[j] == x;
                assert(j < b.len() - 1);
                assert(rb[j] == x);
            }
            if rb.contains(x) {
                let j = choose|j: int| 0 <= j < rb.len() && rb[j] == x;
                assert(b[j] == x);
                assert(b.contains(x));
                assert(a.to_set().contains(x));
                let i = choose|i: int| 0 <= i < a.len() && a[i] == x;
                assert(i < a.len() - 1);
                assert(ra[i] == x);
            }
        }
        assert(ra.to_set() =~= rb.to_set());
        lemma_increasing_unique(ra, rb);
        assert(a =~= ra.push(a.last()));
        assert(b =~= rb.push(b.last()));
    }
}

/// Putting `x` between the members below it and the members above it keeps
/// the sequence increasing, and adds `x` to its members.
pub proof fn lemma_insert_increasing(s: Seq<Seq<char>>, pos: int, x: Seq<char>)
    requires
        increasing(s),
        0 <= pos <= s.len(),
        forall|i: int| 0 <= i < pos ==> lex_less(#[trigger] s[i], x),
        forall|i: int| pos <= i < s.len() ==> lex_less(x, #[trigger] s[i]),
    ensures
        increasing(s.insert(pos, x)),
        s.insert(pos, x).to_set() == s.to_set().insert(x),
{
    let t = s.insert(pos, x);
    assert forall|i: int, j: int| 0 <= i < j < t.len() implies lex_less(
        #[trigger] t[i],
        #[trigger] t[j],
    ) by {
        if j < pos {
            assert(t[i] == s[i] && t[j] == s[j]);
        } else if j == pos {
            assert(t[i] == s[i]);
        } else if i < pos {
            assert(t[i] == s[i] && t[j] == s[j - 1]);
        } else if i == pos {
            assert(t[j] == s[j - 1]);
        } else {
            assert(t[i] == s[i - 1] && t[j] == s[j - 1]);
        }
    }
    assert forall|y: Seq<char>| t.to_set().contains(y) == s.to_set().insert(x).contains(y) by {
        if t.contains(y) {
            let i = choose|i: int| 0 <= i < t.len() && t[i] == y;
            if i < pos {
                assert(s[i] == y);
                assert(s.contains(y));
            } else if i > pos {
                assert(s[i - 1] == y);
                assert(s.contains(y));
            }
        }
        if s.contains(y) {
            let i = choose|i: int| 0 <= i < s.len() && s[i] == y;
            if i < pos {
                assert(t[i] == y);
            } else {
                assert(t[i + 1] == y);
            }
            assert(t.contains(y));
        }
        if y == x {
            assert(t[pos] == x);
            assert(t.contains(y));
        }
    }
    assert(t.to_set() =~= s.to_set().insert(x));
}

/// The map that sends each key to the value at the key's position.
pub open spec fn table(keys: Seq<Seq<char>>, values: Seq<Seq<char>>) -> Map<
    Seq<char>,
    Seq<char>,
> {
    Map::new(|k: Seq<char>| keys.contains(k), |k: Seq<char>| values[keys.index_of(k)])
}

/// In a table with increasing keys, the key at a position is sent to the value
/// at that position.
pub proof fn lemma_table_at(keys: Seq<Seq<char>>, values: Seq<Seq<char>>, i: int)
    requires
        increasing(keys),
        0 <= i < keys.len(),
    ensures
        table(keys, values).contains_key(keys[i]),
        table(keys, values)[keys[i]] == values[i],
        keys.index_of(keys[i]) == i,
{
    lemma_increasing_distinct(keys);
    assert(keys.contains(keys[i]));
}

/// Putting a new key and its value at the key's place adds the pair to the table.
pub proof fn lemma_table_insert(
    keys: Seq<Seq<char>>,
    values: Seq<Seq<char>>,
    pos: int,
    k: Seq<char>,
    v: Seq<char>,
)
    requires
        increasing(keys),
        keys.len() == values.len(),
        0 <= pos <= keys.len(),
        forall|i: int| 0 <= i < pos ==> lex_less(#[trigger] keys[i], k),
        forall|i: int| pos <= i < keys.len() ==> lex_less(k, #[trigger] keys[i]),
    ensures
        increasing(keys.insert(pos, k)),
        table(keys.insert(pos, k), values.insert(pos, v)) == table(keys, values).insert(k, v),
{
    let nk = keys.insert(pos, k);
    let nv = values.insert(pos, v);
    lemma_insert_increasing(keys, pos, k);
    assert forall|x: Seq<char>| table(nk, nv).contains_key(x) == table(keys, values).insert(
        k,
        v,
    ).contains_key(x) by {
        assert(nk.to_set().contains(x) == keys.to_set().insert(k).contains(x));
    }
    assert forall|x: Seq<char>| #[trigger] table(nk, nv).contains_key(x) implies table(nk, nv)[x]
        == table(keys, values).insert(k, v)[x] by {
        let j = nk.index_of(x);
        lemma_table_at(nk, nv, j);
        if j < pos {
            assert(keys[j] == x);
            lemma_table_at(keys, values, j);
        } else if j > pos {
            assert(keys[j - 1] == x);
            lemma_table_at(keys, values, j - 1);
            lemma_lex_irreflexive(k);
        }
    }
    assert(table(nk, nv) =~= table(keys, values).insert(k, v));
}

/// Replacing the value at a position binds that position's key anew.
pub proof fn lemma_table_update(
    keys: Seq<Seq<char>>,
    values: Seq<Seq<char>>,
    pos: int,
    v: Seq<char>,
)
    requires
        increasing(keys),
        keys.len() == values.len(),
        0 <= pos < keys.len(),
    ensures
        table(keys, values.update(pos, v)) == table(keys, values).insert(keys[pos], v),
{
    let nv = values.update(pos, v);
    assert forall|x: Seq<char>| #[trigger] table(keys, nv).contains_key(x) implies table(
        keys,
        nv,
    )[x] == table(keys, values).insert(keys[pos], v)[x] by {
        let j = keys.index_of(x);
        lemma_table_at(keys, nv, j);
        lemma_table_at(keys, values, j);
        lemma_table_at(keys, values, pos);
    }
    assert(keys.contains(keys[pos]));
    assert(table(keys, nv) =~= table(keys, values).insert(keys[pos], v));
}

/// Two tables with increasing keys that are the same map have the same keys
/// and the same values, position by position.
pub proof fn lemma_table_unique(
    k1: Seq<Seq<char>>,
    v1: Seq<Seq<char>>,
    k2: Seq<Seq<char>>,
    v2: Seq<Seq<char>>,
)
    requires
        increasing(k1),
        increasing(k2),
        k1.len() == v1.len(),
        k2.len() == v2.len(),
        table(k1, v1) == table(k2, v2),
    ensures
        k1 == k2,
        v1 == v2,
{
    assert forall|x: Seq<char>| k1.to_set().contains(x) == k2.to_set().contains(x) by {
        assert(table(k1, v1).contains_key(x) == k1.contains(x));
        assert(table(k2, v2).contains_key(x) == k2.contains(x));
    }
    assert(k1.to_set() =~= k2.to_set());
    lemma_increasing_unique(k1, k2);
    assert forall|i: int| 0 <= i < v1.len() implies v1[i] == v2[i] by {
        lemma_table_at(k1, v1, i);
        lemma_table_at(k2, v2, i);
    }
    assert(v1 =~= v2);
}

/// Where `target` stands in an increasing vector, or where it would have to be
/// put: the position, and whether `target` is there.
pub fn locate(items: &Vec<String>, target: &str) -> (r: (usize, bool))
    requires
        increasing(texts(items@)),
    ensures
        r.0 <= items.len(),
        r.1 == texts(items@).contains(target@),
        r.1 ==> r.0 < items.len() && texts(items@)[r.0 as int] == target@,
        forall|i: int| 0 <= i < r.0 ==> lex_less(#[trigger] texts(items@)[i], target@),
        !r.1 ==> forall|i: int|
            r.0 <= i < items.len() ==> lex_less(target@, #[trigger] texts(items@)[i]),
{
    let ghost all = texts(items@);
    let mut i: usize = 0;
    while i < items.len()
        invariant
            i <= items.len(),
            all == texts(items@),
            increasing(all),
            forall|k: int| 0 <= k < i ==> lex_less(#[trigger] all[k], target@),
        decreases items.len() - i,
    {
        let o = str_order(target, items[i].as_str());
        assert(all[i as int] == items@[i as int]@);
        match o {
            Order::Same => {
                return (i, true);
            },
            Order::Before => {
                proof {
                    assert forall|k: int| i <= k < items.len() implies lex_less(
                        target@,
                        #[trigger] all[k],
                    ) by {
                        if k > i {
                            assert(lex_less(all[i as int], all[k]));
                            lemma_lex_transitive(target@, all[i as int], all[k]);
                        }
                    }
                    assert(!all.contains(target@)) by {
                        if all.contains(target@) {
                            let k = choose|k: int| 0 <= k < all.len() && all[k] == target@;
                            lemma_lex_irreflexive(target@);
                            if k < i {
                                assert(lex_less(all[k], target@));
                            } else {
                                assert(lex_less(target@, all[k]));
                            }
                        }
                    }
                }
                return (i, false);
            },
            Order::After => {},
        }
        i += 1;
    }
    proof {
        assert(!all.contains(target@)) by {
            if all.contains(target@) {
                let k = choose|k: int| 0 <= k < all.len() && all[k] == target@;
                lemma_lex_irreflexive(target@);
                assert(lex_less(all[k], target@));
            }
        }
    }
    (i, false)
}

/// Copies a vector of strings.
pub fn copy_strings(items: &Vec<String>) -> (v: Vec<String>)
    ensures
        texts(v@) == texts(items@),
{
    let mut v: Vec<String> = Vec::new();
    for i in 0..items.len()
        invariant
            texts(v@) == texts(items@).take(i as int),
    {
        let ghost before = v@;
        v.push(items[i].clone());
        assert(texts(v@) =~= texts(before).push(items@[i as int]@));
        assert(texts(items@).take(i + 1) =~= texts(items@).take(i as int).push(
            items@[i as int]@,
        ));
    }
    assert(texts(items@).take(items.len() as int) =~= texts(items@));
    v
}

/// Whether two vectors hold the same strings in the same order.
pub fn same_strings(a: &Vec<String>, b: &Vec<String>) -> (same: bool)
    ensures
        same == (texts(a@) == texts(b@)),
{
    if a.len() != b.len() {
        assert(texts(a@).len() != texts(b@).len());
        return false;
    }
    let mut i: usize = 0;
    while i < a.len()
        invariant
            i <= a.len(),
            a.len() == b.len(),
            forall|k: int| 0 <= k < i ==> texts(a@)[k] == texts(b@)[k],
        decreases a.len() - i,
    {
        if a[i] != b[i] {
            assert(texts(a@)[i as int] != texts(b@)[i as int]);
            return false;
        }
        i += 1;
    }
    assert(texts(a@) =~= texts(b@));
    true
}

} // verus!
