//! A set of strings with a single representation.

use vstd::prelude::*;
use crate::sorted::{copy_strings, same_strings, increasing, lemma_increasing_distinct, lemma_increasing_unique, lemma_insert_increasing, locate, texts};

verus! {

/// A finite set of strings.
///
/// The members are kept in strictly increasing order, so that two sets with the
/// same members are equal field by field, hash alike, and list their members in
/// the same order, in whatever order they were filled.
#[derive(Debug, Hash)]
pub struct StringSet {
    items: Vec<String>,
}

impl View for StringSet {
    type V = Set<Seq<char>>;

    closed spec fn view(&self) -> Set<Seq<char>> {
        self.members().to_set()
    }
}

impl StringSet {
    /// The members in increasing order.
    pub closed spec fn members(&self) -> Seq<Seq<char>> {
        texts(self.items@)
    }

    /// The representation is the canonical one. Every set that the library
    /// hands out is valid.
    #[verifier::type_invariant]
    pub closed spec fn valid(&self) -> bool {
        increasing(texts(self.items@))
    }

    /// A valid set lists each member once, in increasing order.
    pub proof fn lemma_members(self)
        requires
            self.valid(),
        ensures
            increasing(self.members()),
            self.members().no_duplicates(),
            self.members().to_set() == self@,
            self@.finite(),
            self@.len() == self.members().len(),
    {
        lemma_increasing_distinct(self.members());
        self.members().unique_seq_to_set();
    }

    /// Valid sets with the same members have the same representation.
    pub proof fn lemma_canonical(self, other: StringSet)
        requires
            self.valid(),
            other.valid(),
            self@ == other@,
        ensures
            self.members() == other.members(),
    {
        lemma_increasing_unique(self.members(), other.members());
    }

    /// The empty set.
    pub fn new() -> (s: StringSet)
        ensures
            s@ == Set::<Seq<char>>::empty(),
            s.members() == Seq::<Seq<char>>::empty(),
    {
        let s = StringSet { items: Vec::new() };
        assert(s.members() =~= Seq::<Seq<char>>::empty());
        assert(s@ =~= Set::<Seq<char>>::empty());
        s
    }

    /// The number of members.
    pub fn len(&self) -> (n: usize)
        ensures
            n == self@.len(),
            n == self.members().len(),
    {
        proof {
            use_type_invariant(self);
            self.lemma_members();
        }
        self.items.len()
    }

    /// The member at position `i` of the increasing order.
    pub fn get(&self, i: usize) -> (s: &str)
        requires
            i < self.members().len(),
        ensures
            s@ == self.members()[i as int],
    {
        self.items[i].as_str()
    }

    /// Whether `s` is a member.
    pub fn contains(&self, s: &str) -> (b: bool)
        ensures
            b == self@.contains(s@),
    {
        proof {
            use_type_invariant(self);
        }
        let (_, found) = locate(&self.items, s);
        found
    }

    /// Adds `s`; returns whether it was new.
    pub fn insert(&mut self, s: &str) -> (added: bool)
        ensures
            final(self)@ == old(self)@.insert(s@),
            added == !old(self)@.contains(s@),
    {
        proof {
            use_type_invariant(&*self);
        }
        let (pos, found) = locate(&self.items, s);
        if found {
            assert(old(self)@.insert(s@) =~= old(self)@);
            false
        } else {
            let owned = s.to_owned();
            proof {
                let before = texts(self.items@);
                lemma_insert_increasing(before, pos as int, s@);
                assert(texts(self.items@.insert(pos as int, owned)) =~= before.insert(
                    pos as int,
                    s@,
                ));
            }
            let mut items: Vec<String> = Vec::new();
            core::mem::swap(&mut self.items, &mut items);
            items.insert(pos, owned);
            self.items = items;
            true
        }
    }

    /// The set of the strings in `items`.
    pub fn from_strs(items: &Vec<&str>) -> (s: StringSet)
        ensures
            s@ == items@.map_values(|t: &str| t@).to_set(),
    {
        let mut s = StringSet::new();
        let ghost all = items@.map_values(|t: &str| t@);
        for i in 0..items.len()
            invariant
                all == items@.map_values(|t: &str| t@),
                s@ == all.take(i as int).to_set(),
        {
            s.insert(items[i]);
            proof {
                assert(all.take(i + 1) =~= all.take(i as int).push(all[i as int]));
                assert(all.take(i as int).push(all[i as int]).to_set() =~= all.take(
                    i as int,
                ).to_set().insert(all[i as int])) by {
                    let p = all.take(i as int);
                    let x = all[i as int];
                    assert forall|y: Seq<char>| p.push(x).to_set().contains(y) == p.to_set().insert(
                        x,
                    ).contains(y) by {
                        if p.push(x).contains(y) {
                            let k = choose|k: int| 0 <= k < p.push(x).len() && p.push(x)[k] == y;
                            if k < p.len() {
                                assert(p[k] == y);
                                assert(p.contains(y));
                            }
                        }
                        if p.contains(y) {
                            let k = choose|k: int| 0 <= k < p.len() && p[k] == y;
                            assert(p.push(x)[k] == y);
                        }
                        if y == x {
                            assert(p.push(x)[p.len() as int] == y);
                        }
                    }
                }
            }
        }
        assert(all.take(items.len() as int) =~= all);
        s
    }

    /// The members in increasing order, each copied.
    pub fn to_vec(&self) -> (v: Vec<String>)
        ensures
            texts(v@) == self.members(),
    {
        copy_strings(&self.items)
    }
}

impl Clone for StringSet {
    fn clone(&self) -> (s: StringSet)
        ensures
            s@ == self@,
            s.members() == self.members(),
    {
        proof {
            use_type_invariant(self);
        }
        let items = self.to_vec();
        StringSet { items }
    }
}

impl PartialEq for StringSet {
    fn eq(&self, other: &StringSet) -> (b: bool) {
        proof {
            use_type_invariant(self);
            use_type_invariant(other);
            if self@ == other@ {
                self.lemma_canonical(*other);
            }
        }
        same_strings(&self.items, &other.items)
    }
}

impl vstd::std_specs::cmp::PartialEqSpecImpl for StringSet {
    open spec fn obeys_eq_spec() -> bool {
        true
    }

    open spec fn eq_spec(&self, other: &StringSet) -> bool {
        self@ == other@
    }
}

impl Eq for StringSet {

}

} // verus!
