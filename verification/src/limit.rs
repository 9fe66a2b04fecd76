//! Limits: quota policies, and the conditions under which one applies.

use vstd::prelude::*;
use vstd::string::StrSliceExecFns;
use crate::labels::Labels;
use crate::string_set::StringSet;
use crate::text::{find_from, first_occurrence, lemma_first_occurrence, lex_less, same_text, to_chars};

verus! {

/// What stands between the two operands of a condition: `" == "`.
pub open spec fn separator() -> Seq<char> {
    seq![' ', '=', '=', ' ']
}

/// The two operands of a condition.
///
/// The left operand is what stands before the first separator. The right operand
/// is what stands between the first separator and the next one that begins after
/// it, or the end of the text where there is no next one. A text without a
/// separator has no operands.
pub open spec fn operands(condition: Seq<char>) -> Option<(Seq<char>, Seq<char>)> {
    match first_occurrence(condition, separator(), 0) {
        None => None,
        Some(first) => {
            let start = first + separator().len();
            let end = match first_occurrence(condition, separator(), start) {
                Some(next) => next,
                None => condition.len() as int,
            };
            Some((condition.subrange(0, first), condition.subrange(start, end)))
        },
    }
}

/// The condition has the form `left == right`.
pub open spec fn well_formed(condition: Seq<char>) -> bool {
    operands(condition) is Some
}

/// The condition is satisfied by the labels: it is well formed, its left operand
/// is a label of the request, and that label's value is its right operand.
///
/// A condition on a label that the request does not carry is not satisfied, and
/// neither is a text that is no condition.
pub open spec fn condition_holds(condition: Seq<char>, labels: Map<Seq<char>, Seq<char>>) -> bool {
    match operands(condition) {
        Some((left, right)) => labels.contains_key(left) && labels[left] == right,
        None => false,
    }
}

/// A limit as a mathematical value.
#[verifier::ext_equal]
pub struct LimitView {
    pub namespace: Seq<char>,
    pub max_value: int,
    pub seconds: nat,
    pub conditions: Set<Seq<char>>,
    pub variables: Set<Seq<char>>,
}

impl LimitView {
    /// The limit applies to a request with these labels: all its conditions are
    /// satisfied. A limit without conditions applies to every request.
    pub open spec fn applies(self, labels: Map<Seq<char>, Seq<char>>) -> bool {
        forall|c: Seq<char>| self.conditions.contains(c) ==> condition_holds(c, labels)
    }

    /// Every condition has the form `left == right`.
    pub open spec fn well_formed(self) -> bool {
        forall|c: Seq<char>| self.conditions.contains(c) ==> well_formed(c)
    }
}

/// A limit without conditions applies to every request.
pub proof fn lemma_unconditional(limit: LimitView, labels: Map<Seq<char>, Seq<char>>)
    requires
        limit.conditions == Set::<Seq<char>>::empty(),
    ensures
        limit.applies(labels),
{
}

/// A limit with the one condition `left == right` applies to exactly the
/// requests that carry the label `left` with the value `right`.
pub proof fn lemma_single_condition(
    limit: LimitView,
    condition: Seq<char>,
    left: Seq<char>,
    right: Seq<char>,
    labels: Map<Seq<char>, Seq<char>>,
)
    requires
        limit.conditions == Set::<Seq<char>>::empty().insert(condition),
        operands(condition) == Some((left, right)),
    ensures
        limit.applies(labels) <==> labels.contains_key(left) && labels[left] == right,
{
    assert(limit.conditions.contains(condition));
    if limit.applies(labels) {
        assert(condition_holds(condition, labels));
    }
    if labels.contains_key(left) && labels[left] == right {
        assert forall|c: Seq<char>| limit.conditions.contains(c) implies condition_holds(
            c,
            labels,
        ) by {
            assert(c == condition);
        }
    }
}

/// A quota policy: within `namespace`, at most `max_value` requests every
/// `seconds` seconds among those that satisfy all of `conditions`.
///
/// `variables` names the labels by which the policy is meant to be counted; it is
/// part of the policy's identity and is not consulted otherwise.
#[derive(Debug, Hash)]
pub struct Limit {
    namespace: String,
    max_value: i64,
    seconds: u64,
    conditions: StringSet,
    variables: StringSet,
}

impl View for Limit {
    type V = LimitView;

    closed spec fn view(&self) -> LimitView {
        LimitView {
            namespace: self.namespace@,
            max_value: self.max_value as int,
            seconds: self.seconds as nat,
            conditions: self.conditions@,
            variables: self.variables@,
        }
    }
}

/// Splits a condition into its operands.
pub fn parse_condition(condition: &str) -> (r: Option<(&str, &str)>)
    ensures
        match r {
            Some((left, right)) => operands(condition@) == Some((left@, right@)),
            None => operands(condition@) is None,
        },
{
    let chars = to_chars(condition);
    let mut sep: Vec<char> = Vec::new();
    sep.push(' ');
    sep.push('=');
    sep.push('=');
    sep.push(' ');
    assert(sep@ =~= separator());
    let len = chars.len();
    match find_from(&chars, &sep, 0) {
        None => None,
        Some(first) => {
            proof {
                lemma_first_occurrence(chars@, sep@, 0);
                assert(sep@.len() == 4);
            }
            let start: usize = first + 4;
            let end: usize = match find_from(&chars, &sep, start) {
                Some(next) => {
                    proof {
                        lemma_first_occurrence(chars@, sep@, start as int);
                    }
                    next
                },
                None => len,
            };
            Some((condition.substring_char(0, first), condition.substring_char(start, end)))
        },
    }
}

impl Limit {
    /// The conditions in increasing order.
    pub closed spec fn condition_seq(&self) -> Seq<Seq<char>> {
        self.conditions.members()
    }

    /// The variables in increasing order.
    pub closed spec fn variable_seq(&self) -> Seq<Seq<char>> {
        self.variables.members()
    }

    /// The representation is the canonical one. Every limit that the library
    /// hands out is valid.
    #[verifier::type_invariant]
    pub closed spec fn valid(&self) -> bool {
        self.conditions.valid() && self.variables.valid()
    }

    /// Valid limits that are the same policy have the same representation.
    pub proof fn lemma_canonical(self, other: Limit)
        requires
            self.valid(),
            other.valid(),
            self@ == other@,
        ensures
            self.condition_seq() == other.condition_seq(),
            self.variable_seq() == other.variable_seq(),
    {
        self.conditions.lemma_canonical(other.conditions);
        self.variables.lemma_canonical(other.variables);
    }

    /// The sequences of a valid limit list its conditions and its variables.
    pub proof fn lemma_sequences(self)
        requires
            self.valid(),
        ensures
            self.condition_seq().to_set() == self@.conditions,
            self.variable_seq().to_set() == self@.variables,
    {
        self.conditions.lemma_members();
        self.variables.lemma_members();
    }

    /// The sequences of a valid limit increase.
    pub proof fn lemma_increasing(self)
        requires
            self.valid(),
        ensures
            crate::sorted::increasing(self.condition_seq()),
            crate::sorted::increasing(self.variable_seq()),
    {
        self.conditions.lemma_members();
        self.variables.lemma_members();
    }

    /// The maximum and the window of a limit are machine integers.
    pub proof fn lemma_bounds(self)
        ensures
            i64::MIN <= self@.max_value <= i64::MAX,
            self@.seconds <= u64::MAX,
    {
    }

    /// The policy with these attributes. The conditions and the variables are
    /// taken as sets: order and repetition in the vectors mean nothing.
    pub fn new(
        namespace: &str,
        max_value: i64,
        seconds: u64,
        conditions: Vec<&str>,
        variables: Vec<&str>,
    ) -> (limit: Limit)
        ensures
            limit@ == (LimitView {
                namespace: namespace@,
                max_value: max_value as int,
                seconds: seconds as nat,
                conditions: conditions@.map_values(|t: &str| t@).to_set(),
                variables: variables@.map_values(|t: &str| t@).to_set(),
            }),
    {
        let conditions = StringSet::from_strs(&conditions);
        let variables = StringSet::from_strs(&variables);
        proof {
            use_type_invariant(&conditions);
            use_type_invariant(&variables);
        }
        Limit { namespace: namespace.to_owned(), max_value, seconds, conditions, variables }
    }

    /// The namespace that the limit belongs to.
    pub fn namespace(&self) -> (ns: &str)
        ensures
            ns@ == self@.namespace,
    {
        self.namespace.as_str()
    }

    /// Whether the limit belongs to `namespace`.
    pub fn in_namespace(&self, namespace: &str) -> (within: bool)
        ensures
            within == (self@.namespace == namespace@),
    {
        same_text(self.namespace.as_str(), namespace)
    }

    /// The number of requests admitted in one window.
    pub fn max_value(&self) -> (max_value: i64)
        ensures
            max_value == self@.max_value,
    {
        self.max_value
    }

    /// The length of the window in seconds.
    pub fn seconds(&self) -> (seconds: u64)
        ensures
            seconds == self@.seconds,
    {
        self.seconds
    }

    /// The conditions.
    pub fn conditions(&self) -> (set: &StringSet)
        ensures
            set@ == self@.conditions,
            set.members() == self.condition_seq(),
    {
        &self.conditions
    }

    /// The variables.
    pub fn variables(&self) -> (set: &StringSet)
        ensures
            set@ == self@.variables,
            set.members() == self.variable_seq(),
    {
        &self.variables
    }

    /// Whether `condition` is satisfied by `values`.
    pub fn condition_applies(condition: &str, values: &Labels) -> (holds: bool)
        ensures
            holds == condition_holds(condition@, values@),
    {
        match parse_condition(condition) {
            Some((left, right)) => {
                match values.get(left) {
                    Some(value) => same_text(value.as_str(), right),
                    None => false,
                }
            },
            None => false,
        }
    }

    /// Whether the limit applies to a request with the labels `values`.
    pub fn applies(&self, values: &Labels) -> (applies: bool)
        ensures
            applies == self@.applies(values@),
    {
        proof {
            use_type_invariant(&self.conditions);
            self.conditions.lemma_members();
        }
        let n = self.conditions.len();
        let mut i: usize = 0;
        while i < n
            invariant
                i <= n,
                n == self.conditions.members().len(),
                self.conditions.members().to_set() == self.conditions@,
                forall|k: int|
                    0 <= k < i ==> condition_holds(#[trigger] self.conditions.members()[k], values@),
            decreases n - i,
        {
            if !Limit::condition_applies(self.conditions.get(i), values) {
                proof {
                    let c = self.conditions.members()[i as int];
                    assert(self.conditions.members().contains(c));
                    assert(self.conditions@.contains(c));
                }
                return false;
            }
            i += 1;
        }
        proof {
            assert forall|c: Seq<char>| self.conditions@.contains(c) implies condition_holds(
                c,
                values@,
            ) by {
                assert(self.conditions.members().contains(c));
                let k = choose|k: int|
                    0 <= k < self.conditions.members().len() && self.conditions.members()[k] == c;
                assert(condition_holds(self.conditions.members()[k], values@));
            }
        }
        true
    }

    /// The first, in increasing order, of the conditions that do not have the
    /// form `left == right`; `None` where all of them do.
    pub fn malformed_condition(&self) -> (r: Option<String>)
        ensures
            match r {
                Some(c) => {
                    &&& self@.conditions.contains(c@)
                    &&& !well_formed(c@)
                    &&& forall|d: Seq<char>|
                        self@.conditions.contains(d) && !well_formed(d) && d != c@ ==> lex_less(
                            c@,
                            d,
                        )
                },
                None => self@.well_formed(),
            },
    {
        proof {
            use_type_invariant(&self.conditions);
            self.conditions.lemma_members();
        }
        let n = self.conditions.len();
        let mut i: usize = 0;
        while i < n
            invariant
                i <= n,
                n == self.conditions.members().len(),
                self.conditions.members().to_set() == self.conditions@,
                crate::sorted::increasing(self.conditions.members()),
                forall|k: int| 0 <= k < i ==> well_formed(#[trigger] self.conditions.members()[k]),
            decreases n - i,
        {
            let condition = self.conditions.get(i);
            if parse_condition(condition).is_none() {
                proof {
                    let all = self.conditions.members();
                    let c = all[i as int];
                    assert(all.contains(c));
                    assert forall|d: Seq<char>|
                        self@.conditions.contains(d) && !well_formed(d) && d != c implies lex_less(
                        c,
                        d,
                    ) by {
                        assert(all.contains(d));
                        let k = choose|k: int| 0 <= k < all.len() && all[k] == d;
                        assert(k > i);
                        assert(lex_less(all[i as int], all[k]));
                    }
                }
                return Some(condition.to_owned());
            }
            i += 1;
        }
        proof {
            assert forall|c: Seq<char>| self@.conditions.contains(c) implies well_formed(c) by {
                let all = self.conditions.members();
                assert(all.contains(c));
                let k = choose|k: int| 0 <= k < all.len() && all[k] == c;
                assert(well_formed(all[k]));
            }
        }
        None
    }
}

impl Clone for Limit {
    fn clone(&self) -> (limit: Limit)
        ensures
            limit@ == self@,
            limit.condition_seq() == self.condition_seq(),
            limit.variable_seq() == self.variable_seq(),
    {
        let conditions = self.conditions.clone();
        let variables = self.variables.clone();
        proof {
            use_type_invariant(&conditions);
            use_type_invariant(&variables);
        }
        Limit {
            namespace: self.namespace.clone(),
            max_value: self.max_value,
            seconds: self.seconds,
            conditions,
            variables,
        }
    }
}

impl PartialEq for Limit {
    fn eq(&self, other: &Limit) -> (b: bool) {
        self.namespace == other.namespace && self.max_value == other.max_value && self.seconds
            == other.seconds && self.conditions == other.conditions && self.variables
            == other.variables
    }
}

impl vstd::std_specs::cmp::PartialEqSpecImpl for Limit {
    open spec fn obeys_eq_spec() -> bool {
        true
    }

    open spec fn eq_spec(&self, other: &Limit) -> bool {
        self@ == other@
    }
}

impl Eq for Limit {

}

} // verus!
