//! Character sequences: a total order on them and substring search.
//!
//! Every string the library stores is compared and searched through these
//! functions, so that the order which makes a representation canonical is one the
//! verifier has read.

use vstd::prelude::*;

verus! {

/// How one character sequence stands to another in the lexicographic order.
#[derive(Clone, Copy, Debug, PartialEq, Eq, Structural)]
pub enum Order {
    Before,
    Same,
    After,
}

/// `a` and `b` agree on their first `k` characters.
pub open spec fn agree_upto(a: Seq<char>, b: Seq<char>, k: int) -> bool {
    &&& 0 <= k <= a.len()
    &&& k <= b.len()
    &&& forall|i: int| 0 <= i < k ==> a[i] == b[i]
}

/// `k` is where `a` falls below `b`: they agree before `k`, and there `a` has
/// ended while `b` goes on, or `a` holds the smaller character.
pub open spec fn falls_below_at(a: Seq<char>, b: Seq<char>, k: int) -> bool {
    &&& agree_upto(a, b, k)
    &&& k < b.len()
    &&& k < a.len() ==> a[k] < b[k]
}

/// The strict lexicographic order on character sequences, by code point.
pub open spec fn lex_less(a: Seq<char>, b: Seq<char>) -> bool {
    exists|k: int| #[trigger] falls_below_at(a, b, k)
}

/// No sequence is below itself.
pub proof fn lemma_lex_irreflexive(a: Seq<char>)
    ensures
        !lex_less(a, a),
{
}

/// The order is transitive.
pub proof fn lemma_lex_transitive(a: Seq<char>, b: Seq<char>, c: Seq<char>)
    requires
        lex_less(a, b),
        lex_less(b, c),
    ensures
        lex_less(a, c),
{
    let k1 = choose|k: int| #[trigger] falls_below_at(a, b, k);
    let k2 = choose|k: int| #[trigger] falls_below_at(b, c, k);
    let k = if k1 <= k2 { k1 } else { k2 };
    assert(falls_below_at(a, c, k));
}

/// Of two sequences at most one is below the other.
pub proof fn lemma_lex_asymmetric(a: Seq<char>, b: Seq<char>)
    requires
        lex_less(a, b),
    ensures
        !lex_less(b, a),
{
    if lex_less(b, a) {
        lemma_lex_transitive(a, b, a);
        lemma_lex_irreflexive(a);
    }
}

/// Any two sequences are equal or ordered one way.
pub proof fn lemma_lex_total(a: Seq<char>, b: Seq<char>)
    ensures
        lex_less(a, b) || a == b || lex_less(b, a),
    decreases a.len(),
{
    if a.len() == 0 {
        if b.len() == 0 {
            assert(a =~= b);
        } else {
            assert(falls_below_at(a, b, 0));
        }
    } else if b.len() == 0 {
        assert(falls_below_at(b, a, 0));
    } else if a[0] != b[0] {
        if a[0] < b[0] {
            assert(falls_below_at(a, b, 0));
        } else {
            assert(falls_below_at(b, a, 0));
        }
    } else {
        let ta = a.drop_first();
        let tb = b.drop_first();
        lemma_lex_total(ta, tb);
        if lex_less(ta, tb) {
            let k = choose|k: int| #[trigger] falls_below_at(ta, tb, k);
            assert forall|i: int| 0 <= i < k + 1 implies a[i] == b[i] by {
                if i > 0 {
                    assert(ta[i - 1] == tb[i - 1]);
                }
            }
            assert(k < ta.len() ==> ta[k] == a[k + 1] && tb[k] == b[k + 1]);
            assert(falls_below_at(a, b, k + 1));
        } else if lex_less(tb, ta) {
            let k = choose|k: int| #[trigger] falls_below_at(tb, ta, k);
            assert forall|i: int| 0 <= i < k + 1 implies b[i] == a[i] by {
                if i > 0 {
                    assert(tb[i - 1] == ta[i - 1]);
                }
            }
            assert(k < tb.len() ==> tb[k] == b[k + 1] && ta[k] == a[k + 1]);
            assert(falls_below_at(b, a, k + 1));
        } else {
            assert(ta == tb);
            assert(a =~= seq![a[0]] + ta);
            assert(b =~= seq![b[0]] + tb);
        }
    }
}

/// Copies the characters of `s` into a vector, where they can be indexed.
pub fn to_chars(s: &str) -> (v: Vec<char>)
    ensures
        v@ == s@,
{
    let mut v: Vec<char> = Vec::new();
    for c in it: s.chars()
        invariant
            v@ == it.seq().take(it.index()),
            it.seq() == s@,
    {
        v.push(c);
    }
    v
}

/// Compares two character sequences in the lexicographic order.
pub fn lex_order(a: &Vec<char>, b: &Vec<char>) -> (o: Order)
    ensures
        o == Order::Before <==> lex_less(a@, b@),
        o == Order::Same <==> a@ == b@,
        o == Order::After <==> lex_less(b@, a@),
{
    let mut i: usize = 0;
    while i < a.len() && i < b.len()
        invariant
            agree_upto(a@, b@, i as int),
        decreases a.len() - i,
    {
        if a[i] != b[i] {
            proof {
                if a[i as int] < b[i as int] {
                    assert(falls_below_at(a@, b@, i as int));
                    lemma_lex_asymmetric(a@, b@);
                } else {
                    assert(falls_below_at(b@, a@, i as int));
                    lemma_lex_asymmetric(b@, a@);
                }
                lemma_lex_irreflexive(a@);
            }
            if a[i] < b[i] {
                return Order::Before;
            } else {
                return Order::After;
            }
        }
        i += 1;
    }
    proof {
        lemma_lex_irreflexive(a@);
        if a.len() < b.len() {
            assert(falls_below_at(a@, b@, i as int));
            lemma_lex_asymmetric(a@, b@);
        } else if b.len() < a.len() {
            assert(falls_below_at(b@, a@, i as int));
            lemma_lex_asymmetric(b@, a@);
        } else {
            assert(a@ =~= b@);
        }
    }
    if a.len() < b.len() {
        Order::Before
    } else if b.len() < a.len() {
        Order::After
    } else {
        Order::Same
    }
}

/// Compares two strings in the lexicographic order of their characters.
pub fn str_order(a: &str, b: &str) -> (o: Order)
    ensures
        o == Order::Before <==> lex_less(a@, b@),
        o == Order::Same <==> a@ == b@,
        o == Order::After <==> lex_less(b@, a@),
{
    let ca = to_chars(a);
    let cb = to_chars(b);
    lex_order(&ca, &cb)
}

/// Whether two strings hold the same characters.
pub fn same_text(a: &str, b: &str) -> (same: bool)
    ensures
        same == (a@ == b@),
{
    let x = a.as_bytes();
    let y = b.as_bytes();
    proof {
        vstd::utf8::encode_utf8_decode_utf8(a@);
        vstd::utf8::encode_utf8_decode_utf8(b@);
    }
    if x.len() != y.len() {
        return false;
    }
    let mut i: usize = 0;
    while i < x.len()
        invariant
            i <= x.len(),
            x.len() == y.len(),
            x@ == vstd::utf8::encode_utf8(a@),
            y@ == vstd::utf8::encode_utf8(b@),
            forall|k: int| 0 <= k < i ==> x@[k] == y@[k],
        decreases x.len() - i,
    {
        if x[i] != y[i] {
            return false;
        }
        i += 1;
    }
    assert(x@ =~= y@);
    true
}

/// `needle` stands in `hay` at position `i`.
pub open spec fn occurs_at(hay: Seq<char>, needle: Seq<char>, i: int) -> bool {
    &&& 0 <= i
    &&& i + needle.len() <= hay.len()
    &&& hay.subrange(i, i + needle.len()) == needle
}

/// The first position at or after `from` where `needle` stands in `hay`.
pub open spec fn first_occurrence(hay: Seq<char>, needle: Seq<char>, from: int) -> Option<int>
    decreases hay.len() - from,
{
    if from < 0 || from + needle.len() > hay.len() {
        None
    } else if occurs_at(hay, needle, from) {
        Some(from)
    } else if from + needle.len() == hay.len() {
        None
    } else {
        first_occurrence(hay, needle, from + 1)
    }
}

/// What `first_occurrence` finds is an occurrence, and the earliest from `from` on;
/// where it finds none, there is none.
pub proof fn lemma_first_occurrence(hay: Seq<char>, needle: Seq<char>, from: int)
    requires
        0 <= from,
    ensures
        match first_occurrence(hay, needle, from) {
            Some(i) => from <= i && occurs_at(hay, needle, i) && forall|j: int|
                from <= j < i ==> !occurs_at(hay, needle, j),
            None => forall|j: int| from <= j ==> !occurs_at(hay, needle, j),
        },
    decreases hay.len() - from,
{
    if from + needle.len() > hay.len() {
    } else if occurs_at(hay, needle, from) {
    } else if from + needle.len() == hay.len() {
    } else {
        lemma_first_occurrence(hay, needle, from + 1);
    }
}

/// Tests whether `needle` stands in `hay` at position `at`.
fn matches_at(hay: &Vec<char>, needle: &Vec<char>, at: usize) -> (b: bool)
    requires
        at + needle.len() <= hay.len(),
    ensures
        b == occurs_at(hay@, needle@, at as int),
{
    let mut j: usize = 0;
    while j < needle.len()
        invariant
            j <= needle.len(),
            at + needle.len() <= hay.len(),
            forall|t: int| 0 <= t < j ==> hay@[at + t] == needle@[t],
        decreases needle.len() - j,
    {
        if hay[at + j] != needle[j] {
            proof {
                let window = hay@.subrange(at as int, at + needle.len());
                assert(window[j as int] == hay@[at + j]);
            }
            return false;
        }
        j += 1;
    }
    assert(hay@.subrange(at as int, at + needle.len()) =~= needle@);
    true
}

/// Finds the first position at or after `from` where `needle` stands in `hay`.
pub fn find_from(hay: &Vec<char>, needle: &Vec<char>, from: usize) -> (r: Option<usize>)
    ensures
        match r {
            Some(i) => first_occurrence(hay@, needle@, from as int) == Some(i as int),
            None => first_occurrence(hay@, needle@, from as int) is None,
        },
{
    if needle.len() > hay.len() {
        return None;
    }
    let last: usize = hay.len() - needle.len();
    let mut i: usize = from;
    while i <= last
        invariant
            from <= i,
            last == hay.len() - needle.len(),
            first_occurrence(hay@, needle@, from as int) == first_occurrence(
                hay@,
                needle@,
                i as int,
            ),
        decreases last + 1 - i,
    {
        if matches_at(hay, needle, i) {
            return Some(i);
        }
        if i == last {
            return None;
        }
        i += 1;
    }
    None
}

} // verus!
