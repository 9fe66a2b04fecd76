//! The label map of a request.

use vstd::prelude::*;
use crate::sorted::{copy_strings, increasing, lemma_increasing_distinct, lemma_table_at, lemma_table_insert, lemma_table_unique, lemma_table_update, locate, same_strings, table, texts};

verus! {

/// A map from label names to label values, such as `req.method` to `GET`.
///
/// The pairs are kept in strictly increasing order of their keys, so that two
/// maps with the same pairs are equal field by field and hash alike, in
/// whatever order the pairs were inserted.
#[derive(Debug, Hash)]
pub struct Labels {
    keys: Vec<String>,
    values: Vec<String>,
}

impl View for Labels {
    type V = Map<Seq<char>, Seq<char>>;

    closed spec fn view(&self) -> Map<Seq<char>, Seq<char>> {
        table(texts(self.keys@), texts(self.values@))
    }
}

impl Labels {
    /// The keys in increasing order.
    pub closed spec fn key_seq(&self) -> Seq<Seq<char>> {
        texts(self.keys@)
    }

    /// The values, each at the position of its key.
    pub closed spec fn value_seq(&self) -> Seq<Seq<char>> {
        texts(self.values@)
    }

    /// The representation is the canonical one. Every map that the library
    /// hands out is valid.
    #[verifier::type_invariant]
    pub closed spec fn valid(&self) -> bool {
        &&& increasing(texts(self.keys@))
        &&& self.keys@.len() == self.values@.len()
    }

    /// A valid map lists each of its pairs once, in increasing order of the keys.
    pub proof fn lemma_pairs(self)
        requires
            self.valid(),
        ensures
            increasing(self.key_seq()),
            self.key_seq().no_duplicates(),
            self.key_seq().len() == self.value_seq().len(),
            self@ == table(self.key_seq(), self.value_seq()),
            self@.dom() == self.key_seq().to_set(),
            self@.dom().finite(),
            self@.dom().len() == self.key_seq().len(),
            forall|i: int|
                0 <= i < self.key_seq().len() ==> self@.contains_key(#[trigger] self.key_seq()[i])
                    && self@[self.key_seq()[i]] == self.value_seq()[i],
    {
        lemma_increasing_distinct(self.key_seq());
        self.key_seq().unique_seq_to_set();
        assert(self@.dom() =~= self.key_seq().to_set());
        assert forall|i: int| 0 <= i < self.key_seq().len() implies self@.contains_key(
            #[trigger] self.key_seq()[i],
        ) && self@[self.key_seq()[i]] == self.value_seq()[i] by {
            lemma_table_at(self.key_seq(), self.value_seq(), i);
        }
    }

    /// Valid maps with the same pairs have the same representation.
    pub proof fn lemma_canonical(self, other: Labels)
        requires
            self.valid(),
            other.valid(),
            self@ == other@,
        ensures
            self.key_seq() == other.key_seq(),
            self.value_seq() == other.value_seq(),
    {
        lemma_table_unique(self.key_seq(), self.value_seq(), other.key_seq(), other.value_seq());
    }

    /// The empty map.
    pub fn new() -> (m: Labels)
        ensures
            m@ == Map::<Seq<char>, Seq<char>>::empty(),
            m.key_seq() == Seq::<Seq<char>>::empty(),
            m.value_seq() == Seq::<Seq<char>>::empty(),
    {
        let m = Labels { keys: Vec::new(), values: Vec::new() };
        assert(m.key_seq() =~= Seq::<Seq<char>>::empty());
        assert(m.value_seq() =~= Seq::<Seq<char>>::empty());
        assert(m@ =~= Map::<Seq<char>, Seq<char>>::empty());
        m
    }

    /// The number of pairs.
    pub fn len(&self) -> (n: usize)
        ensures
            n == self@.dom().len(),
            n == self.key_seq().len(),
    {
        proof {
            use_type_invariant(self);
            self.lemma_pairs();
        }
        self.keys.len()
    }

    /// The value bound to `key`, if there is one.
    pub fn get(&self, key: &str) -> (r: Option<&String>)
        ensures
            match r {
                Some(v) => self@.contains_key(key@) && v@ == self@[key@],
                None => !self@.contains_key(key@),
            },
    {
        proof {
            use_type_invariant(self);
        }
        let (pos, found) = locate(&self.keys, key);
        if found {
            proof {
                lemma_table_at(texts(self.keys@), texts(self.values@), pos as int);
            }
            Some(&self.values[pos])
        } else {
            None
        }
    }

    /// Binds `key` to `value`; returns the value that `key` was bound to before,
    /// if it was bound.
    pub fn insert(&mut self, key: String, value: String) -> (prior: Option<String>)
        ensures
            final(self)@ == old(self)@.insert(key@, value@),
            match prior {
                Some(v) => old(self)@.contains_key(key@) && v@ == old(self)@[key@],
                None => !old(self)@.contains_key(key@),
            },
    {
        proof {
            use_type_invariant(&*self);
        }
        let (pos, found) = locate(&self.keys, key.as_str());
        let mut taken = Labels { keys: Vec::new(), values: Vec::new() };
        core::mem::swap(self, &mut taken);
        let Labels { keys: mut keys, values: mut values } = taken;
        let ghost ks = texts(keys@);
        let ghost vs = texts(values@);
        if found {
            proof {
                lemma_table_at(ks, vs, pos as int);
                lemma_table_update(ks, vs, pos as int, value@);
                assert(texts(values@.update(pos as int, value)) =~= vs.update(pos as int, value@));
                assert(values@.push(value).update(pos as int, value).drop_last()
                    =~= values@.update(pos as int, value));
            }
            values.push(value);
            let prior = values.swap_remove(pos);
            *self = Labels { keys, values };
            Some(prior)
        } else {
            proof {
                lemma_table_insert(ks, vs, pos as int, key@, value@);
                assert(texts(keys@.insert(pos as int, key)) =~= ks.insert(pos as int, key@));
                assert(texts(values@.insert(pos as int, value)) =~= vs.insert(pos as int, value@));
                assert(!table(ks, vs).contains_key(key@));
            }
            keys.insert(pos, key);
            values.insert(pos, value);
            *self = Labels { keys, values };
            None
        }
    }

    /// The keys in increasing order, each copied.
    pub fn key_vec(&self) -> (v: Vec<String>)
        ensures
            texts(v@) == self.key_seq(),
    {
        copy_strings(&self.keys)
    }

    /// The values in the order of their keys, each copied.
    pub fn value_vec(&self) -> (v: Vec<String>)
        ensures
            texts(v@) == self.value_seq(),
    {
        copy_strings(&self.values)
    }
}

impl Clone for Labels {
    fn clone(&self) -> (m: Labels)
        ensures
            m@ == self@,
            m.key_seq() == self.key_seq(),
            m.value_seq() == self.value_seq(),
    {
        proof {
            use_type_invariant(self);
        }
        let keys = copy_strings(&self.keys);
        let values = copy_strings(&self.values);
        assert(keys@.len() == texts(keys@).len());
        assert(values@.len() == texts(values@).len());
        Labels { keys, values }
    }
}

impl PartialEq for Labels {
    fn eq(&self, other: &Labels) -> (b: bool) {
        proof {
            use_type_invariant(self);
            use_type_invariant(other);
            if self@ == other@ {
                self.lemma_canonical(*other);
            }
        }
        same_strings(&self.keys, &other.keys) && same_strings(&self.values, &other.values)
    }
}

impl vstd::std_specs::cmp::PartialEqSpecImpl for Labels {
    open spec fn obeys_eq_spec() -> bool {
        true
    }

    open spec fn eq_spec(&self, other: &Labels) -> bool {
        self@ == other@
    }
}

impl Eq for Labels {

}

} // verus!
