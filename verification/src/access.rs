//! Access levels with optional conditions which can be assigned to an actor.
use std::cmp::Ordering;

use crate::conditions::NoConditions;
use vstd::prelude::*;
use vstd::std_specs::cmp::PartialOrdSpec;

verus! {

/// The four basic access levels which can be assigned to an actor. Greater access levels are
/// assumed to also contain all lower ones.
#[derive(Clone, Copy, Debug, PartialEq, Eq, Structural, PartialOrd, Ord)]
pub enum AccessLevel {
    /// Permission to sync a data set.
    Pull,
    /// Permission to read a data set.
    Read,
    /// Permission to write to a data set.
    Write,
    /// Permission to apply membership changes to a group.
    Manage,
}

impl AccessLevel {
    /// Position of the level in the order `Pull < Read < Write < Manage`.
    pub open spec fn rank(self) -> int {
        match self {
            AccessLevel::Pull => 0,
            AccessLevel::Read => 1,
            AccessLevel::Write => 2,
            AccessLevel::Manage => 3,
        }
    }

    /// Executable position of the level in the order `Pull < Read < Write < Manage`.
    pub fn level_rank(&self) -> (r: u8)
        ensures
            r == self.rank(),
    {
        match self {
            AccessLevel::Pull => 0,
            AccessLevel::Read => 1,
            AccessLevel::Write => 2,
            AccessLevel::Manage => 3,
        }
    }

    /// Returns `true` if this level is strictly lower than `other`.
    pub fn is_lower_than(&self, other: &AccessLevel) -> (r: bool)
        ensures
            r == (self.rank() < other.rank()),
    {
        self.level_rank() < other.level_rank()
    }
}

/// The total order of access levels, as a comparison result.
pub open spec fn level_order(a: AccessLevel, b: AccessLevel) -> Ordering {
    if a.rank() < b.rank() {
        Ordering::Less
    } else if a.rank() == b.rank() {
        Ordering::Equal
    } else {
        Ordering::Greater
    }
}

/// `Less` when `a` is a strictly lower level than `b`, `Greater` otherwise.
pub open spec fn less_or_greater(a: AccessLevel, b: AccessLevel) -> Option<Ordering> {
    if a.rank() < b.rank() {
        Some(Ordering::Less)
    } else {
        Some(Ordering::Greater)
    }
}

/// How two access values compare, given their levels, which of them carry conditions, and (when
/// both carry conditions) how those conditions compare.
///
/// When both sides carry conditions, incomparable conditions make the access values
/// incomparable, lesser conditions make the access lesser, and otherwise the levels decide, where
/// equal levels count as greater. When only the other side carries conditions the levels decide
/// in the same way. In every other case the levels alone are compared.
pub open spec fn access_order(
    self_level: AccessLevel,
    other_level: AccessLevel,
    self_has_conditions: bool,
    other_has_conditions: bool,
    conditions_order: Option<Ordering>,
) -> Option<Ordering> {
    if self_has_conditions && other_has_conditions {
        match conditions_order {
            Some(Ordering::Less) => Some(Ordering::Less),
            None => None,
            _ => less_or_greater(self_level, other_level),
        }
    } else if !self_has_conditions && other_has_conditions {
        less_or_greater(self_level, other_level)
    } else {
        Some(level_order(self_level, other_level))
    }
}

/// Decide how two access values compare from their levels, the presence of conditions and the
/// result of comparing the conditions themselves (only consulted when both sides carry
/// conditions).
pub fn compare_access(
    self_level: &AccessLevel,
    other_level: &AccessLevel,
    self_has_conditions: bool,
    other_has_conditions: bool,
    conditions_order: Option<Ordering>,
) -> (r: Option<Ordering>)
    ensures
        r == access_order(
            *self_level,
            *other_level,
            self_has_conditions,
            other_has_conditions,
            conditions_order,
        ),
{
    let self_rank = self_level.level_rank();
    let other_rank = other_level.level_rank();
    if self_has_conditions && other_has_conditions {
        match conditions_order {
            Some(Ordering::Less) => Some(Ordering::Less),
            None => None,
            _ => {
                if self_rank < other_rank {
                    Some(Ordering::Less)
                } else {
                    Some(Ordering::Greater)
                }
            },
        }
    } else if !self_has_conditions && other_has_conditions {
        if self_rank < other_rank {
            Some(Ordering::Less)
        } else {
            Some(Ordering::Greater)
        }
    } else if self_rank < other_rank {
        Some(Ordering::Less)
    } else if self_rank == other_rank {
        Some(Ordering::Equal)
    } else {
        Some(Ordering::Greater)
    }
}

/// A level of access with optional conditions which can be assigned to an actor.
///
/// Access can be used to understand the rights of an actor to perform actions (request data,
/// write data, etc..) within a certain data set. Custom conditions can be defined by the user in
/// order to introduce domain specific access boundaries or integrate with another access token.
///
/// For example, a condition to model access boundaries using paths could be introduced where
/// having access to "/public" gives you access to "/public/stuff" and "/public/other/stuff" but
/// not "/private" or "/private/stuff".
#[derive(Clone, Debug, PartialEq, Eq)]
pub struct Access<C = NoConditions> {
    pub conditions: Option<C>,
    pub level: AccessLevel,
}

impl<C> Access<C> {
    /// Pull access level.
    pub fn pull() -> (r: Self)
        ensures
            r.level == AccessLevel::Pull,
            r.conditions is None,
    {
        Access { level: AccessLevel::Pull, conditions: None }
    }

    /// Read access level.
    pub fn read() -> (r: Self)
        ensures
            r.level == AccessLevel::Read,
            r.conditions is None,
    {
        Access { level: AccessLevel::Read, conditions: None }
    }

    /// Write access level.
    pub fn write() -> (r: Self)
        ensures
            r.level == AccessLevel::Write,
            r.conditions is None,
    {
        Access { level: AccessLevel::Write, conditions: None }
    }

    /// Manage access level.
    pub fn manage() -> (r: Self)
        ensures
            r.level == AccessLevel::Manage,
            r.conditions is None,
    {
        Access { level: AccessLevel::Manage, conditions: None }
    }

    /// Attach conditions to an access level.
    pub fn with_conditions(self, conditions: C) -> (r: Self)
        ensures
            r.level == self.level,
            r.conditions == Some(conditions),
    {
        let mut this = self;
        this.conditions = Some(conditions);
        this
    }

    /// Access level is Pull.
    pub fn is_pull(&self) -> (r: bool)
        ensures
            r == (self.level == AccessLevel::Pull),
    {
        match self.level {
            AccessLevel::Pull => true,
            _ => false,
        }
    }

    /// Access level is Read.
    pub fn is_read(&self) -> (r: bool)
        ensures
            r == (self.level == AccessLevel::Read),
    {
        match self.level {
            AccessLevel::Read => true,
            _ => false,
        }
    }

    /// Access level is Write.
    pub fn is_write(&self) -> (r: bool)
        ensures
            r == (self.level == AccessLevel::Write),
    {
        match self.level {
            AccessLevel::Write => true,
            _ => false,
        }
    }

    /// Access level is Manage.
    pub fn is_manage(&self) -> (r: bool)
        ensures
            r == (self.level == AccessLevel::Manage),
    {
        match self.level {
            AccessLevel::Manage => true,
            _ => false,
        }
    }

    /// Textual name of the access level ("pull", "read", "write" or "manage").
    pub fn level_name(&self) -> (r: &'static str)
        ensures
            r@ == level_name_spec(self.level),
    {
        proof {
            reveal_strlit("pull");
            reveal_strlit("read");
            reveal_strlit("write");
            reveal_strlit("manage");
        }
        match self.level {
            AccessLevel::Pull => "pull",
            AccessLevel::Read => "read",
            AccessLevel::Write => "write",
            AccessLevel::Manage => "manage",
        }
    }
}

/// Textual name of an access level.
pub open spec fn level_name_spec(level: AccessLevel) -> Seq<char> {
    match level {
        AccessLevel::Pull => seq!['p', 'u', 'l', 'l'],
        AccessLevel::Read => seq!['r', 'e', 'a', 'd'],
        AccessLevel::Write => seq!['w', 'r', 'i', 't', 'e'],
        AccessLevel::Manage => seq!['m', 'a', 'n', 'a', 'g', 'e'],
    }
}

/// How the conditions of two access values compare, when both carry conditions.
pub open spec fn conditions_order<C: PartialOrd>(a: Access<C>, b: Access<C>) -> Option<Ordering> {
    match (a.conditions, b.conditions) {
        (Some(x), Some(y)) => x.partial_cmp_spec(&y),
        _ => None,
    }
}

impl<C: PartialOrd> PartialOrd for Access<C> {
    fn partial_cmp(&self, other: &Self) -> (r: Option<Ordering>) {
        let cond = match (&self.conditions, &other.conditions) {
            (Some(a), Some(b)) => a.partial_cmp(b),
            _ => None,
        };
        compare_access(
            &self.level,
            &other.level,
            self.conditions.is_some(),
            other.conditions.is_some(),
            cond,
        )
    }
}

impl<C: PartialOrd> vstd::std_specs::cmp::PartialOrdSpecImpl for Access<C> {
    open spec fn obeys_partial_cmp_spec() -> bool {
        C::obeys_partial_cmp_spec()
    }

    open spec fn partial_cmp_spec(&self, other: &Self) -> Option<Ordering> {
        access_order(
            self.level,
            other.level,
            self.conditions is Some,
            other.conditions is Some,
            conditions_order(*self, *other),
        )
    }
}

impl<C: PartialOrd> Access<C> {
    /// Total order of access values: as `partial_cmp`, where values which cannot be compared are
    /// ordered as less.
    pub fn cmp(&self, other: &Self) -> (r: Ordering)
        ensures
            C::obeys_partial_cmp_spec() ==> r == match self.partial_cmp_spec(other) {
                Some(o) => o,
                None => Ordering::Less,
            },
    {
        match self.partial_cmp(other) {
            Some(o) => o,
            None => Ordering::Less,
        }
    }
}


/// How access values compare, in terms of their levels and conditions. Where at most one side
/// carries conditions the levels decide: the first is lower exactly when its level ranks strictly
/// lower, and greater when its level ranks strictly higher; at equal levels, values without
/// conditions are equal, a value without conditions is greater than one with them, and a value
/// with conditions equals one without. Where both carry conditions, lower conditions make the
/// first lower, incomparable conditions make the values incomparable, and otherwise the levels
/// decide, equal levels counting as greater.
pub proof fn lemma_access_order_by_levels<C: PartialOrd>(a: Access<C>, b: Access<C>)
    ensures
        a.conditions is None || b.conditions is None ==> (a.partial_cmp_spec(&b) == Some(Ordering::Less)
            <==> a.level.rank() < b.level.rank()),
        (a.conditions is None || b.conditions is None) && a.level.rank() > b.level.rank() ==> a.partial_cmp_spec(&b)
            == Some(Ordering::Greater),
        a.conditions is None && b.conditions is None ==> (a.partial_cmp_spec(&b) == Some(Ordering::Equal) <==> a.level
            == b.level),
        a.conditions is None && b.conditions is Some && a.level == b.level ==> a.partial_cmp_spec(&b) == Some(
            Ordering::Greater,
        ),
        a.conditions is Some && b.conditions is None && a.level == b.level ==> a.partial_cmp_spec(&b) == Some(
            Ordering::Equal,
        ),
        a.conditions is Some && b.conditions is Some ==> {
            let c = a.conditions->0.partial_cmp_spec(&b.conditions->0);
            &&& c == Some(Ordering::Less) ==> a.partial_cmp_spec(&b) == Some(Ordering::Less)
            &&& c is None ==> a.partial_cmp_spec(&b) is None
            &&& c is Some && c != Some(Ordering::Less) ==> (a.partial_cmp_spec(&b) == Some(Ordering::Less)
                <==> a.level.rank() < b.level.rank())
            &&& c is Some && c != Some(Ordering::Less) && a.level.rank() >= b.level.rank() ==> a.partial_cmp_spec(&b)
                == Some(Ordering::Greater)
        },
        a.partial_cmp_spec(&b) is None ==> a.conditions is Some && b.conditions is Some,
{
    assert(a.level.rank() == b.level.rank() ==> a.level == b.level);
}

/// Where at most one side carries conditions, two access values are never each greater than the
/// other, nor each lower than the other.
pub proof fn lemma_access_order_antisymmetric<C: PartialOrd>(a: Access<C>, b: Access<C>)
    requires
        a.conditions is None || b.conditions is None,
    ensures
        !(a.partial_cmp_spec(&b) == Some(Ordering::Greater) && b.partial_cmp_spec(&a) == Some(Ordering::Greater)),
        !(a.partial_cmp_spec(&b) == Some(Ordering::Less) && b.partial_cmp_spec(&a) == Some(Ordering::Less)),
{
    lemma_access_order_by_levels(a, b);
    lemma_access_order_by_levels(b, a);
}

} // verus!
