//! Access levels of group members.
use std::cmp::Ordering;

use vstd::prelude::*;
use vstd::std_specs::cmp::PartialEqSpec;
use vstd::std_specs::cmp::PartialOrdSpec;

verus! {

/// Access level of a group member, ordered `Pull < Read < Write < Manage`.
#[derive(Clone, Debug, PartialEq, PartialOrd, Eq, Ord)]
pub enum Access<C> {
    Pull,
    Read,
    Write { conditions: Option<C> },
    Manage,
}

/// Position of an access level in the order `Pull < Read < Write < Manage`.
pub open spec fn access_rank<C>(a: Access<C>) -> int {
    match a {
        Access::Pull => 0,
        Access::Read => 1,
        Access::Write { .. } => 2,
        Access::Manage => 3,
    }
}

/// Equality of access levels, where conditions are compared with their own equality.
pub open spec fn access_eq<C: PartialEq>(a: Access<C>, b: Access<C>) -> bool {
    match (a, b) {
        (Access::Write { conditions: x }, Access::Write { conditions: y }) => match (x, y) {
            (None, None) => true,
            (Some(p), Some(q)) => p.eq_spec(&q),
            _ => false,
        },
        _ => access_rank(a) == access_rank(b),
    }
}

/// Strict order of access levels: by rank, and for two `Write` levels by their conditions, where
/// absent conditions are lower than present ones and present ones compare with their own order.
pub open spec fn access_lt<C: PartialOrd>(a: Access<C>, b: Access<C>) -> bool {
    if access_rank(a) != access_rank(b) {
        access_rank(a) < access_rank(b)
    } else {
        match (a, b) {
            (Access::Write { conditions: x }, Access::Write { conditions: y }) => match (x, y) {
                (None, Some(_)) => true,
                (Some(p), Some(q)) => p.partial_cmp_spec(&q) == Some(Ordering::Less),
                _ => false,
            },
            _ => false,
        }
    }
}

/// `b` is a copy of `a` made with `Clone`: same level, and cloned conditions.
pub open spec fn access_cloned<C: Clone>(a: Access<C>, b: Access<C>) -> bool {
    match (a, b) {
        (Access::Write { conditions: x }, Access::Write { conditions: y }) => match (x, y) {
            (None, None) => true,
            (Some(p), Some(q)) => cloned(p, q),
            _ => false,
        },
        _ => access_rank(a) == access_rank(b),
    }
}

/// Rank of an access level.
fn rank_of<C>(a: &Access<C>) -> (r: u8)
    ensures
        r == access_rank(*a),
{
    match a {
        Access::Pull => 0,
        Access::Read => 1,
        Access::Write { .. } => 2,
        Access::Manage => 3,
    }
}

/// Returns `true` if both access levels are equal.
pub fn access_equals<C: PartialEq>(a: &Access<C>, b: &Access<C>) -> (r: bool)
    ensures
        C::obeys_eq_spec() ==> r == access_eq(*a, *b),
        (access_rank(*a) != access_rank(*b)) ==> !r,
{
    match (a, b) {
        (Access::Write { conditions: x }, Access::Write { conditions: y }) => match (x, y) {
            (None, None) => true,
            (Some(p), Some(q)) => p.eq(q),
            _ => false,
        },
        _ => rank_of(a) == rank_of(b),
    }
}

/// Returns `true` if access level `a` is strictly lower than `b`.
pub fn access_less_than<C: PartialOrd>(a: &Access<C>, b: &Access<C>) -> (r: bool)
    ensures
        C::obeys_partial_cmp_spec() ==> r == access_lt(*a, *b),
        (access_rank(*a) != access_rank(*b)) ==> r == (access_rank(*a) < access_rank(*b)),
{
    let ra = rank_of(a);
    let rb = rank_of(b);
    if ra != rb {
        ra < rb
    } else {
        match (a, b) {
            (Access::Write { conditions: x }, Access::Write { conditions: y }) => match (x, y) {
                (None, Some(_)) => true,
                (Some(p), Some(q)) => match p.partial_cmp(q) {
                    Some(Ordering::Less) => true,
                    _ => false,
                },
                _ => false,
            },
            _ => false,
        }
    }
}

/// Make a copy of an access level, cloning its conditions.
pub fn copy_access<C: Clone>(a: &Access<C>) -> (r: Access<C>)
    ensures
        access_cloned(*a, r),
{
    match a {
        Access::Pull => Access::Pull,
        Access::Read => Access::Read,
        Access::Write { conditions } => {
            let c = match conditions {
                Some(c) => Some(c.clone()),
                None => None,
            };
            Access::Write { conditions: c }
        },
        Access::Manage => Access::Manage,
    }
}

/// The conditions are ordered by a strict partial order which agrees with their equality, as
/// stated by `vstd::laws_cmp::obeys_partial_cmp_spec_properties`.
pub open spec fn conditions_order_laws<C: PartialOrd>() -> bool {
    vstd::laws_cmp::obeys_partial_cmp_spec_properties::<C>()
}

/// The order of access levels is a strict partial order when the conditions' order is one.
pub proof fn lemma_access_lt_strict_order<C: PartialOrd>()
    requires
        conditions_order_laws::<C>(),
    ensures
        forall|a: Access<C>| !#[trigger] access_lt(a, a),
        forall|a: Access<C>, b: Access<C>| #[trigger] access_lt(a, b) ==> !access_lt(b, a),
        forall|a: Access<C>, b: Access<C>, c: Access<C>|
            #[trigger] access_lt(a, b) && #[trigger] access_lt(b, c) ==> access_lt(a, c),
{
    reveal(vstd::laws_cmp::obeys_partial_cmp_spec_properties);
    assert forall|a: Access<C>| !#[trigger] access_lt(a, a) by {
        if let Access::Write { conditions: Some(p) } = a {
            if p.partial_cmp_spec(&p) == Some(Ordering::Less) {
                assert(p.partial_cmp_spec(&p) == Some(Ordering::Greater));
            }
        }
    }
    assert forall|a: Access<C>, b: Access<C>| #[trigger] access_lt(a, b) implies !access_lt(
        b,
        a,
    ) by {
        if let (Access::Write { conditions: Some(p) }, Access::Write { conditions: Some(q) }) = (
            a,
            b,
        ) {
            if p.partial_cmp_spec(&q) == Some(Ordering::Less) {
                assert(q.partial_cmp_spec(&p) == Some(Ordering::Greater));
            }
        }
    }
    assert forall|a: Access<C>, b: Access<C>, c: Access<C>|
        #[trigger] access_lt(a, b) && #[trigger] access_lt(b, c) implies access_lt(a, c) by {
        if let (
            Access::Write { conditions: Some(p) },
            Access::Write { conditions: Some(q) },
            Access::Write { conditions: Some(r) },
        ) = (a, b, c) {
            if access_rank(a) == access_rank(b) && access_rank(b) == access_rank(c) {
                assert(p.partial_cmp_spec(&q) == Some(Ordering::Less));
                assert(q.partial_cmp_spec(&r) == Some(Ordering::Less));
                assert(p.partial_cmp_spec(&r) == Some(Ordering::Less));
            }
        }
    }
}


impl<C> Access<C> {
    /// Textual name of the access level ("pull", "read", "write" or "manage").
    pub fn level_name(&self) -> (r: &'static str)
        ensures
            r@ == level_name_spec(*self),
    {
        proof {
            reveal_strlit("pull");
            reveal_strlit("read");
            reveal_strlit("write");
            reveal_strlit("manage");
        }
        match self {
            Access::Pull => "pull",
            Access::Read => "read",
            Access::Write { .. } => "write",
            Access::Manage => "manage",
        }
    }
}

/// Textual name of an access level.
pub open spec fn level_name_spec<C>(a: Access<C>) -> Seq<char> {
    match a {
        Access::Pull => seq!['p', 'u', 'l', 'l'],
        Access::Read => seq!['r', 'e', 'a', 'd'],
        Access::Write { .. } => seq!['w', 'r', 'i', 't', 'e'],
        Access::Manage => seq!['m', 'a', 'n', 'a', 'g', 'e'],
    }
}

} // verus!
