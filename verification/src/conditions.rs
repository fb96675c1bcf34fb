//! The conditions type of access levels which carry no conditions.
use std::cmp::Ordering;

use vstd::prelude::*;
use vstd::std_specs::cmp::{PartialEqSpecImpl, PartialOrdSpec, PartialOrdSpecImpl};

use crate::group::access::{access_lt, conditions_order_laws, Access};
use crate::group::crdt::clones_exact;
use crate::group::operation_graph::{conditions_eq_identity, exact_access_order};
use crate::group::state::{
    conditions_ordered, lemma_merge_associative, lemma_merge_commutative, lemma_merge_idempotent, merge_spec,
    ties_comparable, MemberState,
};

verus! {

/// Conditions of an access level where there are none to state: all values are equal, so access
/// values are ordered by their levels alone.
#[derive(Clone, Copy, Debug, Eq, Hash, Default)]
pub struct NoConditions;

impl PartialEq for NoConditions {
    fn eq(&self, other: &Self) -> (r: bool) {
        true
    }
}

impl PartialEqSpecImpl for NoConditions {
    open spec fn obeys_eq_spec() -> bool {
        true
    }

    open spec fn eq_spec(&self, other: &Self) -> bool {
        true
    }
}

impl PartialOrd for NoConditions {
    fn partial_cmp(&self, other: &Self) -> (r: Option<Ordering>) {
        Some(Ordering::Equal)
    }
}

impl PartialOrdSpecImpl for NoConditions {
    open spec fn obeys_partial_cmp_spec() -> bool {
        true
    }

    open spec fn partial_cmp_spec(&self, other: &Self) -> Option<Ordering> {
        Some(Ordering::Equal)
    }
}

/// Conditions without content follow every law that the contracts of this library ask of a
/// conditions type: equality and order by their specifications, the order laws, and exact clones.
pub proof fn lemma_no_conditions_laws()
    ensures
        exact_access_order::<NoConditions>(),
        conditions_ordered::<NoConditions>(),
        conditions_order_laws::<NoConditions>(),
        clones_exact::<NoConditions>(),
        conditions_eq_identity::<NoConditions>(),
{
    reveal(vstd::laws_cmp::obeys_partial_cmp_spec_properties);
    reveal(vstd::laws_eq::obeys_eq_spec_properties);
}


/// Access levels without conditions are totally ordered: any two are equal, or one is lower.
pub proof fn lemma_no_conditions_total(a: Access<NoConditions>, b: Access<NoConditions>)
    ensures
        a == b || access_lt(a, b) || access_lt(b, a),
{
    lemma_no_conditions_laws();
    match (a, b) {
        (Access::Write { conditions: Some(x) }, Access::Write { conditions: Some(y) }) => {
            assert(x == y);
        },
        _ => {},
    }
}

/// Without conditions the merge of group member states is a join: commutative, associative and
/// idempotent for all states, so peers merging the same states in any order and grouping agree.
pub proof fn lemma_merge_laws_without_conditions<ID>(
    s1: Map<ID, MemberState<NoConditions>>,
    s2: Map<ID, MemberState<NoConditions>>,
    s3: Map<ID, MemberState<NoConditions>>,
)
    ensures
        merge_spec(s1, s2) == merge_spec(s2, s1),
        merge_spec(merge_spec(s1, s2), s3) == merge_spec(s1, merge_spec(s2, s3)),
        merge_spec(s1, s1) == s1,
{
    lemma_no_conditions_laws();
    assert forall|a: Access<NoConditions>, b: Access<NoConditions>| a == b || #[trigger] access_lt(a, b) || access_lt(
        b,
        a,
    ) by {
        lemma_no_conditions_total(a, b);
    }
    assert(ties_comparable(s1, s2));
    assert(ties_comparable(s2, s3));
    assert(ties_comparable(s1, s3));
    lemma_merge_commutative(s1, s2);
    lemma_merge_associative(s1, s2, s3);
    lemma_merge_idempotent(s1);
}

} // verus!
