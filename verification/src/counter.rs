//! Counters: one limit taken with the labels of one request.

use vstd::prelude::*;
use crate::labels::Labels;
use crate::limit::{Limit, LimitView};
use crate::sorted::{increasing, lemma_increasing_unique, lemma_table_unique, table, texts};

verus! {

/// A counter as a mathematical value.
#[verifier::ext_equal]
pub struct CounterView {
    pub limit: LimitView,
    pub labels: Map<Seq<char>, Seq<char>>,
}

/// A counter's identity written out in plain values: the limit's namespace,
/// maximum and window, its conditions and its variables in increasing order, and
/// the labels' keys in increasing order with the values in the order of the keys.
pub type CounterKey = (String, i64, u64, Vec<String>, Vec<String>, Vec<String>, Vec<String>);

/// What a `CounterKey` holds.
pub type CounterId = (
    Seq<char>,
    i64,
    u64,
    Seq<Seq<char>>,
    Seq<Seq<char>>,
    Seq<Seq<char>>,
    Seq<Seq<char>>,
);

/// What `key` holds.
pub open spec fn key_id(key: CounterKey) -> CounterId {
    (key.0@, key.1, key.2, texts(key.3@), texts(key.4@), texts(key.5@), texts(key.6@))
}

/// The identity is written in the one way in which a counter writes it: the
/// sequences increase, and there are as many label values as label keys.
pub open spec fn canonical_id(id: CounterId) -> bool {
    &&& increasing(id.3)
    &&& increasing(id.4)
    &&& increasing(id.5)
    &&& id.5.len() == id.6.len()
}

/// The counter that an identity stands for.
pub open spec fn id_view(id: CounterId) -> CounterView {
    CounterView {
        limit: LimitView {
            namespace: id.0,
            max_value: id.1 as int,
            seconds: id.2 as nat,
            conditions: id.3.to_set(),
            variables: id.4.to_set(),
        },
        labels: table(id.5, id.6),
    }
}

/// Identities that stand for the same counter are the same.
pub proof fn lemma_id_view_injective(a: CounterId, b: CounterId)
    requires
        canonical_id(a),
        canonical_id(b),
        id_view(a) == id_view(b),
    ensures
        a == b,
{
    lemma_increasing_unique(a.3, b.3);
    lemma_increasing_unique(a.4, b.4);
    lemma_table_unique(a.5, a.6, b.5, b.6);
}

/// The consumption of one limit by the requests that carry one set of label
/// values. Remaining quota is tracked under the counter's identity.
#[derive(Debug, Hash)]
pub struct Counter {
    limit: Limit,
    set_variables: Labels,
}

impl View for Counter {
    type V = CounterView;

    closed spec fn view(&self) -> CounterView {
        CounterView { limit: self.limit@, labels: self.set_variables@ }
    }
}

impl Counter {
    /// The representation is the canonical one. Every counter that the library
    /// hands out is valid.
    #[verifier::type_invariant]
    pub closed spec fn valid(&self) -> bool {
        self.limit.valid() && self.set_variables.valid()
    }

    /// The identity under which the counter's remaining quota is tracked.
    pub closed spec fn id(&self) -> CounterId {
        (
            self.limit@.namespace,
            self.limit@.max_value as i64,
            self.limit@.seconds as u64,
            self.limit.condition_seq(),
            self.limit.variable_seq(),
            self.set_variables.key_seq(),
            self.set_variables.value_seq(),
        )
    }

    /// A valid counter's identity is canonical and stands for the counter.
    pub proof fn lemma_id(self)
        requires
            self.valid(),
        ensures
            canonical_id(self.id()),
            id_view(self.id()) == self@,
    {
        self.limit.lemma_sequences();
        self.limit.lemma_bounds();
        self.limit.lemma_increasing();
        self.set_variables.lemma_pairs();
        assert(id_view(self.id()).limit =~= self.limit@);
        assert(id_view(self.id()) =~= self@);
    }

    /// Identity is stable and free of collisions: two valid counters have the same
    /// identity exactly if they are the same limit taken with the same labels.
    /// Neither the order in which the labels were inserted nor the order in which
    /// the limit's conditions and variables were given plays a part.
    pub proof fn lemma_identity(self, other: Counter)
        requires
            self.valid(),
            other.valid(),
        ensures
            (self.id() == other.id()) <==> (self@ == other@),
    {
        self.lemma_id();
        other.lemma_id();
        if self@ == other@ {
            lemma_id_view_injective(self.id(), other.id());
        }
    }

    /// The order in which labels are inserted does not enter a counter's identity:
    /// two valid counters of the same limit, whose labels came about by binding
    /// the same two distinct keys on top of the same map in either order, have the
    /// same identity.
    pub proof fn lemma_insertion_order(
        self,
        other: Counter,
        base: Map<Seq<char>, Seq<char>>,
        first: (Seq<char>, Seq<char>),
        second: (Seq<char>, Seq<char>),
    )
        requires
            self.valid(),
            other.valid(),
            self@.limit == other@.limit,
            first.0 != second.0,
            self@.labels == base.insert(first.0, first.1).insert(second.0, second.1),
            other@.labels == base.insert(second.0, second.1).insert(first.0, first.1),
        ensures
            self@ == other@,
            self.id() == other.id(),
    {
        assert(self@.labels =~= other@.labels);
        assert(self@ =~= other@);
        self.lemma_identity(other);
    }

    /// The counter of `limit` for a request with the labels `set_variables`.
    pub fn new(limit: Limit, set_variables: Labels) -> (counter: Counter)
        ensures
            counter@ == (CounterView { limit: limit@, labels: set_variables@ }),
    {
        proof {
            use_type_invariant(&limit);
            use_type_invariant(&set_variables);
        }
        Counter { limit, set_variables }
    }

    /// The limit.
    pub fn limit(&self) -> (limit: &Limit)
        ensures
            limit@ == self@.limit,
    {
        &self.limit
    }

    /// The labels.
    pub fn set_variables(&self) -> (labels: &Labels)
        ensures
            labels@ == self@.labels,
    {
        &self.set_variables
    }

    /// The number of requests that the limit admits in one window.
    pub fn max_value(&self) -> (max_value: i64)
        ensures
            max_value == self@.limit.max_value,
    {
        self.limit.max_value()
    }

    /// The length of the limit's window in seconds.
    pub fn seconds(&self) -> (seconds: u64)
        ensures
            seconds == self@.limit.seconds,
    {
        self.limit.seconds()
    }

    /// The counter's identity in plain values.
    pub fn key(&self) -> (key: CounterKey)
        ensures
            key_id(key) == self.id(),
            canonical_id(self.id()),
            id_view(self.id()) == self@,
    {
        proof {
            use_type_invariant(self);
            self.lemma_id();
        }
        (
            self.limit.namespace().to_owned(),
            self.limit.max_value(),
            self.limit.seconds(),
            self.limit.conditions().to_vec(),
            self.limit.variables().to_vec(),
            self.set_variables.key_vec(),
            self.set_variables.value_vec(),
        )
    }
}

impl Clone for Counter {
    fn clone(&self) -> (counter: Counter)
        ensures
            counter@ == self@,
            counter.id() == self.id(),
    {
        let limit = self.limit.clone();
        let set_variables = self.set_variables.clone();
        proof {
            use_type_invariant(&limit);
            use_type_invariant(&set_variables);
        }
        Counter { limit, set_variables }
    }
}

impl PartialEq for Counter {
    fn eq(&self, other: &Counter) -> (b: bool) {
        self.limit == other.limit && self.set_variables == other.set_variables
    }
}

impl vstd::std_specs::cmp::PartialEqSpecImpl for Counter {
    open spec fn obeys_eq_spec() -> bool {
        true
    }

    open spec fn eq_spec(&self, other: &Counter) -> bool {
        self@ == other@
    }
}

impl Eq for Counter {

}

} // verus!
