//! Group membership CRDT.
//!
//! The state of a group maps every actor who was ever a member to two grow-only counters and an
//! access level. The member counter is odd while the actor is an active member and even after
//! removal; the access counter counts access changes since the actor was last added.
use vstd::prelude::*;

use crate::traits::IdentityHandle;
use vstd::std_specs::cmp::PartialEqSpec;
use vstd::std_specs::cmp::PartialOrdSpec;

pub use crate::group::access::{
    access_cloned, access_eq, access_equals, access_less_than, access_lt, access_rank,
    conditions_order_laws, copy_access, lemma_access_lt_strict_order, Access,
};

verus! {

/// Errors which can occur when applying a membership change to a group.
#[derive(Debug, PartialEq)]
pub enum GroupMembershipError<ID> {
    /// Attempted to add a member who is already active in the group.
    AlreadyAdded(ID),
    /// Attempted to remove a member who is already inactive in the group.
    AlreadyRemoved(ID),
    /// Actor lacks sufficient access to update the group.
    InsufficientAccess(ID),
    /// Actor is not an active member of the group.
    InactiveActor(ID),
    /// Member is not an active member of the group.
    InactiveMember(ID),
    /// Actor is not known to the group.
    UnrecognisedActor(ID),
    /// Member is not known to the group.
    UnrecognisedMember(ID),
}

/// Membership state of a single actor in a group.
#[derive(Clone, Debug)]
pub struct MemberState<C> {
    pub member_counter: usize,
    pub access: Access<C>,
    pub access_counter: usize,
}

/// Whether an actor with this state is an active member (odd member counter).
pub open spec fn is_member_spec<C>(m: MemberState<C>) -> bool {
    m.member_counter % 2 != 0
}

/// Whether an actor with this state holds `Manage` access.
pub open spec fn is_manager_spec<C>(m: MemberState<C>) -> bool {
    m.access is Manage
}

impl<C> MemberState<C> {
    /// Current access level of the actor.
    pub fn access(&self) -> (r: Access<C>)
        where
            C: Clone,
        ensures
            access_cloned(self.access, r),
    {
        copy_access(&self.access)
    }

    /// Returns `true` if the actor is an active member.
    pub fn is_member(&self) -> (r: bool)
        ensures
            r == is_member_spec(*self),
    {
        self.member_counter % 2 != 0
    }

    /// Returns `true` if the actor holds `Pull` access.
    pub fn is_puller(&self) -> (r: bool)
        ensures
            r == (self.access is Pull),
    {
        match self.access {
            Access::Pull => true,
            _ => false,
        }
    }

    /// Returns `true` if the actor holds `Read` access.
    pub fn is_reader(&self) -> (r: bool)
        ensures
            r == (self.access is Read),
    {
        match self.access {
            Access::Read => true,
            _ => false,
        }
    }

    /// Returns `true` if the actor holds `Write` access.
    pub fn is_writer(&self) -> (r: bool)
        ensures
            r == (self.access is Write),
    {
        match self.access {
            Access::Write { .. } => true,
            _ => false,
        }
    }

    /// Returns `true` if the actor holds `Manage` access.
    pub fn is_manager(&self) -> (r: bool)
        ensures
            r == is_manager_spec(*self),
    {
        match self.access {
            Access::Manage => true,
            _ => false,
        }
    }
}

// ------------------------------------------------------------------------------------------------
// Entry lists and their map view
// ------------------------------------------------------------------------------------------------

/// No two entries share an identifier.
pub open spec fn keys_distinct<ID, V>(s: Seq<(ID, V)>) -> bool {
    forall|i: int, j: int| 0 <= i < s.len() && 0 <= j < s.len() && i != j ==> s[i].0 != s[j].0
}

/// Some entry has identifier `k`.
pub open spec fn has_key<ID, V>(s: Seq<(ID, V)>, k: ID) -> bool {
    exists|i: int| 0 <= i < s.len() && s[i].0 == k
}

/// The map from identifiers to values held by a list of entries.
pub open spec fn entries_map<ID, V>(s: Seq<(ID, V)>) -> Map<ID, V> {
    Map::new(
        |k: ID| has_key(s, k),
        |k: ID| s[choose|i: int| 0 <= i < s.len() && s[i].0 == k].1,
    )
}

pub(crate) proof fn lemma_entries_map_index<ID, V>(s: Seq<(ID, V)>, i: int)
    requires
        keys_distinct(s),
        0 <= i < s.len(),
    ensures
        entries_map(s).contains_key(s[i].0),
        entries_map(s)[s[i].0] == s[i].1,
{
    assert(has_key(s, s[i].0));
    let j = choose|j: int| 0 <= j < s.len() && s[j].0 == s[i].0;
    assert(j == i);
}

pub(crate) proof fn lemma_entries_map_update<ID, V>(s: Seq<(ID, V)>, i: int, v: V)
    requires
        keys_distinct(s),
        0 <= i < s.len(),
    ensures
        keys_distinct(s.update(i, (s[i].0, v))),
        entries_map(s.update(i, (s[i].0, v))) == entries_map(s).insert(s[i].0, v),
{
    let t = s.update(i, (s[i].0, v));
    let k = s[i].0;
    assert forall|a: int, b: int| 0 <= a < t.len() && 0 <= b < t.len() && a != b implies t[a].0
        != t[b].0 by {}
    assert forall|x: ID| #[trigger] entries_map(t).contains_key(x) == entries_map(s).insert(
        k,
        v,
    ).contains_key(x) by {
        if has_key(t, x) {
            let j = choose|j: int| 0 <= j < t.len() && t[j].0 == x;
            assert(s[j].0 == x);
        }
        if has_key(s, x) {
            let j = choose|j: int| 0 <= j < s.len() && s[j].0 == x;
            assert(t[j].0 == x);
        }
    }
    assert forall|x: ID| #[trigger] entries_map(t).contains_key(x) implies entries_map(t)[x]
        == entries_map(s).insert(k, v)[x] by {
        let j = choose|j: int| 0 <= j < t.len() && t[j].0 == x;
        lemma_entries_map_index(t, j);
        if x != k {
            lemma_entries_map_index(s, j);
        }
    }
    assert(entries_map(t) =~= entries_map(s).insert(k, v));
}

pub(crate) proof fn lemma_entries_map_push<ID, V>(s: Seq<(ID, V)>, k: ID, v: V)
    requires
        keys_distinct(s),
        !has_key(s, k),
    ensures
        keys_distinct(s.push((k, v))),
        entries_map(s.push((k, v))) == entries_map(s).insert(k, v),
{
    let t = s.push((k, v));
    assert forall|a: int, b: int| 0 <= a < t.len() && 0 <= b < t.len() && a != b implies t[a].0
        != t[b].0 by {
        if a == s.len() {
            assert(s[b].0 == t[b].0);
        }
        if b == s.len() {
            assert(s[a].0 == t[a].0);
        }
    }
    assert forall|x: ID| #[trigger] entries_map(t).contains_key(x) == entries_map(s).insert(
        k,
        v,
    ).contains_key(x) by {
        if has_key(t, x) {
            let j = choose|j: int| 0 <= j < t.len() && t[j].0 == x;
            if j < s.len() {
                assert(s[j].0 == x);
            }
        }
        if has_key(s, x) {
            let j = choose|j: int| 0 <= j < s.len() && s[j].0 == x;
            assert(t[j].0 == x);
        }
        if x == k {
            assert(t[s.len() as int].0 == k);
        }
    }
    assert forall|x: ID| #[trigger] entries_map(t).contains_key(x) implies entries_map(t)[x]
        == entries_map(s).insert(k, v)[x] by {
        let j = choose|j: int| 0 <= j < t.len() && t[j].0 == x;
        lemma_entries_map_index(t, j);
        if j < s.len() {
            lemma_entries_map_index(s, j);
        }
    }
    assert(entries_map(t) =~= entries_map(s).insert(k, v));
}

pub(crate) proof fn lemma_entries_map_remove<ID, V>(s: Seq<(ID, V)>, i: int)
    requires
        keys_distinct(s),
        0 <= i < s.len(),
    ensures
        keys_distinct(s.remove(i)),
        entries_map(s.remove(i)) == entries_map(s).remove(s[i].0),
{
    let t = s.remove(i);
    let k = s[i].0;
    assert forall|a: int, b: int| 0 <= a < t.len() && 0 <= b < t.len() && a != b implies t[a].0
        != t[b].0 by {
        let sa = if a < i { a } else { a + 1 };
        let sb = if b < i { b } else { b + 1 };
        assert(t[a] == s[sa]);
        assert(t[b] == s[sb]);
    }
    assert forall|x: ID| #[trigger] entries_map(t).contains_key(x) == entries_map(s).remove(
        k,
    ).contains_key(x) by {
        if has_key(t, x) {
            let j = choose|j: int| 0 <= j < t.len() && t[j].0 == x;
            let sj = if j < i { j } else { j + 1 };
            assert(t[j] == s[sj]);
        }
        if has_key(s, x) && x != k {
            let j = choose|j: int| 0 <= j < s.len() && s[j].0 == x;
            assert(j != i);
            let tj = if j < i { j } else { j - 1 };
            assert(t[tj] == s[j]);
        }
    }
    assert forall|x: ID| #[trigger] entries_map(t).contains_key(x) implies entries_map(t)[x]
        == entries_map(s).remove(k)[x] by {
        let j = choose|j: int| 0 <= j < t.len() && t[j].0 == x;
        let sj = if j < i { j } else { j + 1 };
        assert(t[j] == s[sj]);
        lemma_entries_map_index(t, j);
        lemma_entries_map_index(s, sj);
    }
    assert(entries_map(t) =~= entries_map(s).remove(k));
}

/// Position of the entry with identifier `id`, if any.
pub(crate) fn find_entry<ID: IdentityHandle, V>(entries: &Vec<(ID, V)>, id: ID) -> (r: Option<usize>)
    ensures
        match r {
            Some(i) => i < entries@.len() && entries@[i as int].0 == id,
            None => !has_key(entries@, id),
        },
{
    let mut i: usize = 0;
    while i < entries.len()
        invariant
            i <= entries@.len(),
            forall|j: int| 0 <= j < i ==> entries@[j].0 != id,
        decreases entries@.len() - i,
    {
        if entries[i].0.is_same(&id) {
            return Some(i);
        }
        i = i + 1;
    }
    None
}

/// Membership state of all actors known to a group.
#[derive(Debug)]
pub struct GroupMembersState<ID, C> {
    pub(crate) members: Vec<(ID, MemberState<C>)>,
}

impl<ID, C> GroupMembersState<ID, C> {
    #[verifier::type_invariant]
    spec fn members_distinct(self) -> bool {
        keys_distinct(self.members@)
    }
}

impl<ID, C> View for GroupMembersState<ID, C> {
    type V = Map<ID, MemberState<C>>;

    closed spec fn view(&self) -> Map<ID, MemberState<C>> {
        entries_map(self.members@)
    }
}

/// No counter of any actor has reached `usize::MAX`: every counter can still be increased.
pub open spec fn counters_below_limit<ID, C>(s: Map<ID, MemberState<C>>) -> bool {
    forall|k: ID| #[trigger] s.contains_key(k) ==> s[k].member_counter < usize::MAX && s[k].access_counter < usize::MAX
}

impl<ID: IdentityHandle, C> GroupMembersState<ID, C> {
    /// A group state which knows no actors.
    pub fn new() -> (r: Self)
        ensures
            r@ == Map::<ID, MemberState<C>>::empty(),
    {
        let r = GroupMembersState { members: Vec::new() };
        assert(r@ =~= Map::<ID, MemberState<C>>::empty());
        r
    }

    /// Returns `true` if every counter of every actor can still be increased.
    pub(crate) fn counters_fit(&self) -> (r: bool)
        ensures
            r == counters_below_limit(self@),
    {
        proof {
            use_type_invariant(self);
        }
        let ghost s = self.members@;
        let mut i: usize = 0;
        while i < self.members.len()
            invariant
                i <= s.len(),
                s == self.members@,
                keys_distinct(s),
                forall|j: int|
                    0 <= j < i ==> (#[trigger] s[j]).1.member_counter < usize::MAX && s[j].1.access_counter
                        < usize::MAX,
            decreases s.len() - i,
        {
            if self.members[i].1.member_counter == usize::MAX || self.members[i].1.access_counter == usize::MAX {
                proof {
                    lemma_entries_map_index(s, i as int);
                }
                return false;
            }
            i = i + 1;
        }
        proof {
            assert forall|k: ID| #[trigger] self@.contains_key(k) implies self@[k].member_counter < usize::MAX
                && self@[k].access_counter < usize::MAX by {
                let j = choose|j: int| 0 <= j < s.len() && s[j].0 == k;
                lemma_entries_map_index(s, j);
            }
        }
        true
    }

    /// State of the given actor, if the actor is known to the group.
    pub fn get(&self, id: &ID) -> (r: Option<&MemberState<C>>)
        ensures
            match r {
                Some(m) => self@.contains_key(*id) && *m == self@[*id],
                None => !self@.contains_key(*id),
            },
    {
        proof {
            use_type_invariant(self);
        }
        match find_entry(&self.members, *id) {
            Some(i) => {
                proof {
                    lemma_entries_map_index(self.members@, i as int);
                }
                Some(&self.members[i].1)
            },
            None => None,
        }
    }

    /// Return all active group members.
    pub fn members(&self) -> (r: Vec<ID>)
        ensures
            r@.no_duplicates(),
            forall|k: ID|
                r@.contains(k) <==> (self@.contains_key(k) && is_member_spec(self@[k])),
    {
        proof {
            use_type_invariant(self);
        }
        self.collect_ids(false)
    }

    /// Return all active group members with manager access.
    pub fn managers(&self) -> (r: Vec<ID>)
        ensures
            r@.no_duplicates(),
            forall|k: ID|
                r@.contains(k) <==> (self@.contains_key(k) && is_member_spec(self@[k])
                    && is_manager_spec(self@[k])),
    {
        proof {
            use_type_invariant(self);
        }
        self.collect_ids(true)
    }

    /// Identifiers of active members, restricted to managers when `managers_only` is set.
    fn collect_ids(&self, managers_only: bool) -> (r: Vec<ID>)
        requires
            keys_distinct(self.members@),
        ensures
            r@.no_duplicates(),
            forall|k: ID|
                r@.contains(k) <==> (self@.contains_key(k) && is_member_spec(self@[k]) && (
                managers_only ==> is_manager_spec(self@[k]))),
    {
        let ghost s = self.members@;
        let mut out: Vec<ID> = Vec::new();
        let mut i: usize = 0;
        while i < self.members.len()
            invariant
                i <= s.len(),
                s == self.members@,
                keys_distinct(s),
                out@.no_duplicates(),
                forall|j: int| #![trigger out@[j]] 0 <= j < out@.len() ==> exists|a: int| #![trigger s[a]] 0 <= a < i && s[a].0 == out@[j],
                forall|k: ID|
                    out@.contains(k) <==> (exists|a: int|
                        0 <= a < i && s[a].0 == k && is_member_spec(s[a].1) && (managers_only
                            ==> is_manager_spec(s[a].1))),
            decreases s.len() - i,
        {
            let entry = &self.members[i];
            if entry.1.is_member() && (!managers_only || entry.1.is_manager()) {
                proof {
                    assert(!out@.contains(entry.0)) by {
                        if out@.contains(entry.0) {
                            let j = choose|j: int| 0 <= j < out@.len() && out@[j] == entry.0;
                            let a = choose|a: int| 0 <= a < i && s[a].0 == out@[j];
                            assert(s[a].0 == s[i as int].0);
                        }
                    }
                }
                let ghost old_out = out@;
                out.push(entry.0);
                proof {
                    assert forall|j: int| #![trigger out@[j]] 0 <= j < out@.len() implies exists|a: int| #![trigger s[a]]
                        0 <= a < i + 1 && s[a].0 == out@[j] by {
                        if j < old_out.len() {
                            assert(old_out[j] == out@[j]);
                        } else {
                            assert(s[i as int].0 == out@[j]);
                        }
                    }
                    assert forall|k: ID| out@.contains(k) <==> (exists|a: int|
                        0 <= a < i + 1 && s[a].0 == k && is_member_spec(s[a].1) && (managers_only
                            ==> is_manager_spec(s[a].1))) by {
                        if out@.contains(k) && !old_out.contains(k) {
                            assert(k == s[i as int].0);
                        }
                        if old_out.contains(k) {
                            let j = choose|j: int| 0 <= j < old_out.len() && old_out[j] == k;
                            assert(out@[j] == k);
                        }
                        if k == s[i as int].0 {
                            assert(out@[out@.len() - 1] == k);
                        }
                    }
                }
            }
            i = i + 1;
        }
        proof {
            assert forall|k: ID| out@.contains(k) <==> (self@.contains_key(k) && is_member_spec(
                self@[k],
            ) && (managers_only ==> is_manager_spec(self@[k]))) by {
                if out@.contains(k) {
                    let a = choose|a: int|
                        0 <= a < s.len() && s[a].0 == k && is_member_spec(s[a].1) && (managers_only
                            ==> is_manager_spec(s[a].1));
                    lemma_entries_map_index(s, a);
                }
                if self@.contains_key(k) {
                    let a = choose|a: int| 0 <= a < s.len() && s[a].0 == k;
                    lemma_entries_map_index(s, a);
                }
            }
        }
        out
    }
}

/// `b` is a copy of `a` made with `Clone`: same counters, cloned access level.
pub open spec fn member_cloned<C: Clone>(a: MemberState<C>, b: MemberState<C>) -> bool {
    &&& a.member_counter == b.member_counter
    &&& a.access_counter == b.access_counter
    &&& access_cloned(a.access, b.access)
}

impl<ID: IdentityHandle, C: Clone> Clone for GroupMembersState<ID, C> {
    fn clone(&self) -> (r: Self)
        ensures
            r@.dom() == self@.dom(),
            forall|k: ID| #[trigger] r@.contains_key(k) ==> member_cloned(self@[k], r@[k]),
    {
        proof {
            use_type_invariant(self);
        }
        let ghost s = self.members@;
        let mut out: Vec<(ID, MemberState<C>)> = Vec::new();
        let mut i: usize = 0;
        while i < self.members.len()
            invariant
                i <= s.len(),
                s == self.members@,
                keys_distinct(s),
                out@.len() == i,
                forall|j: int| 0 <= j < i ==> #[trigger] out@[j].0 == s[j].0,
                forall|j: int| 0 <= j < i ==> member_cloned(s[j].1, #[trigger] out@[j].1),
            decreases s.len() - i,
        {
            let entry = &self.members[i];
            let m = MemberState {
                member_counter: entry.1.member_counter,
                access: copy_access(&entry.1.access),
                access_counter: entry.1.access_counter,
            };
            out.push((entry.0, m));
            i = i + 1;
        }
        proof {
            assert(keys_distinct(out@)) by {
                assert forall|a: int, b: int|
                    0 <= a < out@.len() && 0 <= b < out@.len() && a != b implies out@[a].0
                    != out@[b].0 by {
                    assert(out@[a].0 == s[a].0);
                    assert(out@[b].0 == s[b].0);
                }
            }
            assert forall|k: ID| #[trigger] entries_map(out@).contains_key(k) == entries_map(s).contains_key(k) by {
                if has_key(out@, k) {
                    let j = choose|j: int| 0 <= j < out@.len() && out@[j].0 == k;
                    assert(s[j].0 == k);
                }
                if has_key(s, k) {
                    let j = choose|j: int| 0 <= j < s.len() && s[j].0 == k;
                    assert(out@[j].0 == k);
                }
            }
            assert(entries_map(out@).dom() =~= entries_map(s).dom());
            assert forall|k: ID| #[trigger] entries_map(out@).contains_key(k) implies member_cloned(
                entries_map(s)[k],
                entries_map(out@)[k],
            ) by {
                let j = choose|j: int| 0 <= j < out@.len() && out@[j].0 == k;
                lemma_entries_map_index(out@, j);
                lemma_entries_map_index(s, j);
            }
        }
        GroupMembersState { members: out }
    }
}

impl<ID: IdentityHandle, C> Default for GroupMembersState<ID, C> {
    fn default() -> (r: Self)
        ensures
            r@ == Map::<ID, MemberState<C>>::empty(),
    {
        GroupMembersState::new()
    }
}


// ------------------------------------------------------------------------------------------------
// Membership changes
// ------------------------------------------------------------------------------------------------

/// A group state, or the error which prevented a change, seen as a map.
pub open spec fn state_result<ID, C>(
    r: Result<GroupMembersState<ID, C>, GroupMembershipError<ID>>,
) -> Result<Map<ID, MemberState<C>>, GroupMembershipError<ID>> {
    match r {
        Ok(s) => Ok(s@),
        Err(e) => Err(e),
    }
}

/// The actor must be known, active and hold `Manage` access.
pub open spec fn actor_check<ID, C>(s: Map<ID, MemberState<C>>, actor: ID) -> Result<
    (),
    GroupMembershipError<ID>,
> {
    if !s.contains_key(actor) {
        Err(GroupMembershipError::UnrecognisedActor(actor))
    } else if !is_member_spec(s[actor]) {
        Err(GroupMembershipError::InactiveActor(actor))
    } else if !is_manager_spec(s[actor]) {
        Err(GroupMembershipError::InsufficientAccess(actor))
    } else {
        Ok(())
    }
}

/// Outcome of `add` on a group state.
pub open spec fn add_spec<ID, C>(
    s: Map<ID, MemberState<C>>,
    adder: ID,
    added: ID,
    access: Access<C>,
) -> Result<Map<ID, MemberState<C>>, GroupMembershipError<ID>> {
    match actor_check(s, adder) {
        Err(e) => Err(e),
        Ok(_) => if s.contains_key(added) && is_member_spec(s[added]) {
            Err(GroupMembershipError::AlreadyAdded(added))
        } else if s.contains_key(added) {
            Ok(
                s.insert(
                    added,
                    MemberState {
                        member_counter: (s[added].member_counter + 1) as usize,
                        access,
                        access_counter: 0,
                    },
                ),
            )
        } else {
            Ok(s.insert(added, MemberState { member_counter: 1, access, access_counter: 0 }))
        },
    }
}

/// Outcome of `remove` on a group state.
pub open spec fn remove_spec<ID, C>(s: Map<ID, MemberState<C>>, remover: ID, removed: ID) -> Result<
    Map<ID, MemberState<C>>,
    GroupMembershipError<ID>,
> {
    match actor_check(s, remover) {
        Err(e) => Err(e),
        Ok(_) => if !s.contains_key(removed) {
            Err(GroupMembershipError::UnrecognisedMember(removed))
        } else if !is_member_spec(s[removed]) {
            Err(GroupMembershipError::AlreadyRemoved(removed))
        } else {
            Ok(
                s.insert(
                    removed,
                    MemberState {
                        member_counter: (s[removed].member_counter + 1) as usize,
                        access: s[removed].access,
                        access_counter: 0,
                    },
                ),
            )
        },
    }
}

/// A removal would be applied (its counter is then incremented).
pub open spec fn remove_applies<ID, C>(s: Map<ID, MemberState<C>>, remover: ID, removed: ID) -> bool {
    &&& actor_check(s, remover) is Ok
    &&& s.contains_key(removed)
    &&& is_member_spec(s[removed])
}

/// Error of `modify`, if any: the modifier must be an active manager and the modified actor an
/// active member.
pub open spec fn modify_check<ID, C>(s: Map<ID, MemberState<C>>, modifier: ID, modified: ID) -> Result<
    (),
    GroupMembershipError<ID>,
> {
    match actor_check(s, modifier) {
        Err(e) => Err(e),
        Ok(_) => if !s.contains_key(modified) {
            Err(GroupMembershipError::UnrecognisedMember(modified))
        } else if !is_member_spec(s[modified]) {
            Err(GroupMembershipError::InactiveMember(modified))
        } else {
            Ok(())
        },
    }
}

/// State of `modified` after its access level was changed to `access`.
pub open spec fn modified_entry<ID, C>(s: Map<ID, MemberState<C>>, modified: ID, access: Access<C>) -> MemberState<C> {
    MemberState {
        member_counter: s[modified].member_counter,
        access,
        access_counter: (s[modified].access_counter + 1) as usize,
    }
}

/// Outcome of `modify` on a group state: nothing changes when the access level is already the
/// requested one.
pub open spec fn modify_spec<ID, C: PartialEq>(
    s: Map<ID, MemberState<C>>,
    modifier: ID,
    modified: ID,
    access: Access<C>,
) -> Result<Map<ID, MemberState<C>>, GroupMembershipError<ID>> {
    match modify_check(s, modifier, modified) {
        Err(e) => Err(e),
        Ok(_) => if access_eq(s[modified].access, access) {
            Ok(s)
        } else {
            Ok(s.insert(modified, modified_entry(s, modified, access)))
        },
    }
}

/// What a call of `modify` returns: the exact outcome when the conditions' equality follows its
/// specification, and otherwise the same errors and, on success, either the unchanged state or
/// the state with the new access level.
pub open spec fn modify_outcome<ID, C: PartialEq>(
    s: Map<ID, MemberState<C>>,
    modifier: ID,
    modified: ID,
    access: Access<C>,
    r: Result<Map<ID, MemberState<C>>, GroupMembershipError<ID>>,
) -> bool {
    &&& C::obeys_eq_spec() ==> r == modify_spec(s, modifier, modified, access)
    &&& match modify_check(s, modifier, modified) {
        Err(e) => r == Err::<Map<ID, MemberState<C>>, GroupMembershipError<ID>>(e),
        Ok(_) => r == Ok::<Map<ID, MemberState<C>>, GroupMembershipError<ID>>(s) || r == Ok::<
            Map<ID, MemberState<C>>,
            GroupMembershipError<ID>,
        >(s.insert(modified, modified_entry(s, modified, access))),
    }
}

/// A modification would be applied and change the access level, so its counter is incremented.
pub open spec fn modify_changes<ID, C: PartialEq>(
    s: Map<ID, MemberState<C>>,
    modifier: ID,
    modified: ID,
    access: Access<C>,
) -> bool {
    &&& modify_check(s, modifier, modified) is Ok
    &&& !(C::obeys_eq_spec() && access_eq(s[modified].access, access))
}

/// The actor performing a change must be known, active and a manager.
pub(crate) fn check_actor<ID: IdentityHandle, C>(state: &GroupMembersState<ID, C>, actor: ID) -> (r: Result<
    (),
    GroupMembershipError<ID>,
>)
    ensures
        r == actor_check(state@, actor),
{
    match state.get(&actor) {
        None => Err(GroupMembershipError::UnrecognisedActor(actor)),
        Some(m) => {
            if !m.is_member() {
                Err(GroupMembershipError::InactiveActor(actor))
            } else if !m.is_manager() {
                Err(GroupMembershipError::InsufficientAccess(actor))
            } else {
                Ok(())
            }
        },
    }
}

/// Replace the value of the entry at position `i`, returning the previous value.
pub(crate) fn replace_value<ID, V>(entries: &mut Vec<(ID, V)>, i: usize, v: V) -> (old_v: V)
    requires
        i < old(entries)@.len(),
        keys_distinct(old(entries)@),
    ensures
        old_v == old(entries)@[i as int].1,
        final(entries)@ == old(entries)@.update(i as int, (old(entries)@[i as int].0, v)),
        keys_distinct(final(entries)@),
        entries_map(final(entries)@) == entries_map(old(entries)@).insert(old(entries)@[i as int].0, v),
{
    let ghost s = entries@;
    let (id, old_v) = entries.remove(i);
    entries.insert(i, (id, v));
    proof {
        assert(entries@ =~= s.update(i as int, (s[i as int].0, v)));
        lemma_entries_map_update(s, i as int, v);
    }
    old_v
}

/// Create a new group and add the given set of initial members.
///
/// When an actor appears more than once, its last entry decides its access level.
pub fn create<ID: IdentityHandle, C: Clone>(initial_members: &[(ID, Access<C>)]) -> (r:
    GroupMembersState<ID, C>)
    ensures
        forall|k: ID| #[trigger] r@.contains_key(k) <==> has_key(initial_members@, k),
        forall|k: ID|
            #[trigger] r@.contains_key(k) ==> {
                &&& r@[k].member_counter == 1
                &&& r@[k].access_counter == 0
                &&& exists|i: int|
                    last_index_of(initial_members@, k, i) && access_cloned(
                        #[trigger] initial_members@[i].1,
                        r@[k].access,
                    )
            },
{
    let ghost input = initial_members@;
    let mut members: Vec<(ID, MemberState<C>)> = Vec::new();
    let mut i: usize = 0;
    while i < initial_members.len()
        invariant
            i <= input.len(),
            input == initial_members@,
            keys_distinct(members@),
            forall|k: ID| #[trigger] has_key(members@, k) <==> has_key(input.take(i as int), k),
            forall|k: ID|
                #[trigger] entries_map(members@).contains_key(k) ==> {
                    &&& entries_map(members@)[k].member_counter == 1
                    &&& entries_map(members@)[k].access_counter == 0
                    &&& exists|a: int|
                        last_index_of(input.take(i as int), k, a) && access_cloned(
                            #[trigger] input[a].1,
                            entries_map(members@)[k].access,
                        )
                },
        decreases input.len() - i,
    {
        let id = initial_members[i].0;
        let m = MemberState {
            member_counter: 1,
            access: copy_access(&initial_members[i].1),
            access_counter: 0,
        };
        let ghost prev = members@;
        let ghost m_ghost = m;
        match find_entry(&members, id) {
            Some(j) => {
                replace_value(&mut members, j, m);
            },
            None => {
                members.push((id, m));
                proof {
                    lemma_entries_map_push(prev, id, m_ghost);
                }
            },
        }
        proof {
            let t = input.take(i + 1);
            assert(t =~= input.take(i as int).push(input[i as int]));
            assert forall|k: ID| #[trigger] has_key(members@, k) <==> has_key(t, k) by {
                assert(has_key(members@, k) == entries_map(members@).contains_key(k));
                assert(has_key(prev, k) == entries_map(prev).contains_key(k));
                if has_key(t, k) && k != id {
                    let a = choose|a: int| 0 <= a < t.len() && t[a].0 == k;
                    assert(input.take(i as int)[a].0 == k);
                }
                if has_key(input.take(i as int), k) {
                    let a = choose|a: int| 0 <= a < i && input.take(i as int)[a].0 == k;
                    assert(t[a].0 == k);
                }
                if k == id {
                    assert(t[i as int].0 == k);
                }
            }
            assert forall|k: ID| #[trigger] entries_map(members@).contains_key(k) implies {
                &&& entries_map(members@)[k].member_counter == 1
                &&& entries_map(members@)[k].access_counter == 0
                &&& exists|a: int|
                    last_index_of(t, k, a) && access_cloned(
                        #[trigger] input[a].1,
                        entries_map(members@)[k].access,
                    )
            } by {
                if k == id {
                    assert(last_index_of(t, k, i as int));
                } else {
                    let a = choose|a: int|
                        last_index_of(input.take(i as int), k, a) && access_cloned(
                            #[trigger] input[a].1,
                            entries_map(prev)[k].access,
                        );
                    assert(last_index_of(t, k, a));
                }
            }
        }
        i = i + 1;
    }
    proof {
        assert(input.take(input.len() as int) =~= input);
    }
    GroupMembersState { members }
}

/// Group state holding the given initial members, taking their access levels as they are.
///
/// When an actor appears more than once, its last entry decides its access level.
pub(crate) fn create_from<ID: IdentityHandle, C>(initial_members: Vec<(ID, Access<C>)>) -> (r:
    GroupMembersState<ID, C>)
    ensures
        forall|k: ID| #[trigger] r@.contains_key(k) <==> has_key(initial_members@, k),
        forall|k: ID|
            #[trigger] r@.contains_key(k) ==> {
                &&& r@[k].member_counter == 1
                &&& r@[k].access_counter == 0
                &&& exists|i: int|
                    last_index_of(initial_members@, k, i) && #[trigger] initial_members@[i].1
                        == r@[k].access
            },
{
    let ghost input = initial_members@;
    let mut rest = initial_members;
    let mut members: Vec<(ID, MemberState<C>)> = Vec::new();
    while rest.len() > 0
        invariant
            rest@.len() <= input.len(),
            rest@ == input.take(rest@.len() as int),
            keys_distinct(members@),
            forall|k: ID|
                #[trigger] has_key(members@, k) <==> has_key(input.skip(rest@.len() as int), k),
            forall|k: ID|
                #[trigger] entries_map(members@).contains_key(k) ==> {
                    &&& entries_map(members@)[k].member_counter == 1
                    &&& entries_map(members@)[k].access_counter == 0
                    &&& exists|i: int|
                        rest@.len() <= i && last_index_of(input, k, i) && #[trigger] input[i].1
                            == entries_map(members@)[k].access
                },
        decreases rest@.len(),
    {
        let ghost n = rest@.len() as int;
        let (id, access) = rest.pop().unwrap();
        proof {
            assert(input.take(n)[n - 1] == input[n - 1]);
            assert(rest@ =~= input.take(n - 1));
        }
        let ghost prev = members@;
        let ghost suffix = input.skip(n);
        let ghost next_suffix = input.skip(n - 1);
        proof {
            assert(next_suffix =~= seq![input[n - 1]] + suffix);
            assert forall|k: ID| has_key(next_suffix, k) <==> (has_key(suffix, k) || k == id) by {
                if has_key(next_suffix, k) {
                    let a = choose|a: int| 0 <= a < next_suffix.len() && next_suffix[a].0 == k;
                    if a > 0 {
                        assert(suffix[a - 1].0 == k);
                    }
                }
                if has_key(suffix, k) {
                    let a = choose|a: int| 0 <= a < suffix.len() && suffix[a].0 == k;
                    assert(next_suffix[a + 1].0 == k);
                }
                if k == id {
                    assert(next_suffix[0].0 == k);
                }
            }
        }
        match find_entry(&members, id) {
            Some(_) => {},
            None => {
                let m = MemberState { member_counter: 1, access, access_counter: 0 };
                proof {
                    lemma_entries_map_push(prev, id, m);
                    assert(!has_key(suffix, id));
                    assert(last_index_of(input, id, n - 1)) by {
                        assert forall|j: int| n - 1 < j < input.len() implies input[j].0 != id by {
                            if input[j].0 == id {
                                assert(suffix[j - n].0 == id);
                            }
                        }
                    }
                }
                members.push((id, m));
            },
        }
        proof {
            assert forall|k: ID| #[trigger] has_key(members@, k) <==> has_key(next_suffix, k) by {
                assert(has_key(members@, k) == entries_map(members@).contains_key(k));
                assert(has_key(prev, k) == entries_map(prev).contains_key(k));
            }
            assert forall|k: ID| #[trigger] entries_map(members@).contains_key(k) implies {
                &&& entries_map(members@)[k].member_counter == 1
                &&& entries_map(members@)[k].access_counter == 0
                &&& exists|i: int|
                    n - 1 <= i && last_index_of(input, k, i) && #[trigger] input[i].1
                        == entries_map(members@)[k].access
            } by {
                if entries_map(prev).contains_key(k) {
                    let i = choose|i: int|
                        n <= i && last_index_of(input, k, i) && #[trigger] input[i].1
                            == entries_map(prev)[k].access;
                    assert(n - 1 <= i);
                } else {
                    assert(k == id);
                    assert(input[n - 1].1 == access);
                }
            }
        }
    }
    proof {
        assert(input.skip(0) =~= input);
    }
    GroupMembersState { members }
}

/// Position `i` holds the last entry of `s` with identifier `k`.
pub open spec fn last_index_of<ID, V>(s: Seq<(ID, V)>, k: ID, i: int) -> bool {
    &&& 0 <= i < s.len()
    &&& s[i].0 == k
    &&& forall|j: int| i < j < s.len() ==> s[j].0 != k
}

/// Add a member to the group with the given access level.
///
/// The actor performing the action must be an active member of the group with manager access.
/// Re-adding a previously removed member is supported.
pub fn add<ID: IdentityHandle, C>(
    state: GroupMembersState<ID, C>,
    adder: ID,
    added: ID,
    access: Access<C>,
) -> (r: Result<GroupMembersState<ID, C>, GroupMembershipError<ID>>)
    ensures
        state_result(r) == add_spec(state@, adder, added, access),
{
    proof {
        use_type_invariant(&state);
    }
    match check_actor(&state, adder) {
        Err(e) => {
            return Err(e);
        },
        Ok(_) => {},
    }
    let ghost s = state.members@;
    let mut members = state.members;
    match find_entry(&members, added) {
        Some(i) => {
            proof {
                lemma_entries_map_index(s, i as int);
            }
            if members[i].1.is_member() {
                return Err(GroupMembershipError::AlreadyAdded(added));
            }
            let counter = members[i].1.member_counter;
            assert(counter < usize::MAX) by {
                assert(counter % 2 == 0);
                assert(usize::MAX == 0xffff_ffff || usize::MAX == 0xffff_ffff_ffff_ffff);
            }
            let m = MemberState { member_counter: counter + 1, access, access_counter: 0 };
            replace_value(&mut members, i, m);
        },
        None => {
            let m = MemberState { member_counter: 1, access, access_counter: 0 };
            proof {
                lemma_entries_map_push(s, added, m);
            }
            members.push((added, m));
        },
    }
    Ok(GroupMembersState { members })
}

/// Remove a member from the group.
///
/// The actor performing the action must be an active member of the group with manager access.
pub fn remove<ID: IdentityHandle, C>(state: GroupMembersState<ID, C>, remover: ID, removed: ID) -> (r:
    Result<GroupMembersState<ID, C>, GroupMembershipError<ID>>)
    requires
        remove_applies(state@, remover, removed) ==> state@[removed].member_counter < usize::MAX,
    ensures
        state_result(r) == remove_spec(state@, remover, removed),
{
    proof {
        use_type_invariant(&state);
    }
    match check_actor(&state, remover) {
        Err(e) => {
            return Err(e);
        },
        Ok(_) => {},
    }
    let ghost s = state.members@;
    let mut members = state.members;
    match find_entry(&members, removed) {
        None => Err(GroupMembershipError::UnrecognisedMember(removed)),
        Some(i) => {
            proof {
                lemma_entries_map_index(s, i as int);
            }
            if !members[i].1.is_member() {
                return Err(GroupMembershipError::AlreadyRemoved(removed));
            }
            let (id, old_m) = members.remove(i);
            let m = MemberState {
                member_counter: old_m.member_counter + 1,
                access: old_m.access,
                access_counter: 0,
            };
            members.insert(i, (id, m));
            proof {
                assert(members@ =~= s.update(i as int, (s[i as int].0, m)));
                lemma_entries_map_update(s, i as int, m);
            }
            Ok(GroupMembersState { members })
        },
    }
}

/// Modify the access level of a group member.
///
/// The actor performing the action must be an active member of the group with manager access.
pub fn modify<ID: IdentityHandle, C: PartialEq>(
    state: GroupMembersState<ID, C>,
    modifier: ID,
    modified: ID,
    access: Access<C>,
) -> (r: Result<GroupMembersState<ID, C>, GroupMembershipError<ID>>)
    requires
        modify_changes(state@, modifier, modified, access) ==> state@[modified].access_counter
            < usize::MAX,
    ensures
        modify_outcome(state@, modifier, modified, access, state_result(r)),
{
    proof {
        use_type_invariant(&state);
    }
    match check_actor(&state, modifier) {
        Err(e) => {
            return Err(e);
        },
        Ok(_) => {},
    }
    let ghost s = state.members@;
    let ghost sm = state@;
    let mut members = state.members;
    match find_entry(&members, modified) {
        None => Err(GroupMembershipError::UnrecognisedMember(modified)),
        Some(i) => {
            proof {
                lemma_entries_map_index(s, i as int);
            }
            if !members[i].1.is_member() {
                return Err(GroupMembershipError::InactiveMember(modified));
            }
            if access_equals(&members[i].1.access, &access) {
                let r = GroupMembersState { members };
                assert(r@ == sm);
                return Ok(r);
            }
            let (id, old_m) = members.remove(i);
            let m = MemberState {
                member_counter: old_m.member_counter,
                access,
                access_counter: old_m.access_counter + 1,
            };
            members.insert(i, (id, m));
            proof {
                assert(members@ =~= s.update(i as int, (s[i as int].0, m)));
                lemma_entries_map_update(s, i as int, m);
            }
            Ok(GroupMembersState { members })
        },
    }
}

/// Mark an active actor as removed by incrementing its member counter, leaving its access level
/// and access counter as they are; nothing changes for an unknown or inactive actor.
pub(crate) fn mark_removed<ID: IdentityHandle, C>(state: GroupMembersState<ID, C>, id: ID) -> (r:
    GroupMembersState<ID, C>)
    requires
        state@.contains_key(id) && is_member_spec(state@[id]) ==> state@[id].member_counter
            < usize::MAX,
    ensures
        r@ == (if state@.contains_key(id) && is_member_spec(state@[id]) {
            state@.insert(
                id,
                MemberState {
                    member_counter: (state@[id].member_counter + 1) as usize,
                    access: state@[id].access,
                    access_counter: state@[id].access_counter,
                },
            )
        } else {
            state@
        }),
{
    proof {
        use_type_invariant(&state);
    }
    let ghost s = state.members@;
    let mut members = state.members;
    match find_entry(&members, id) {
        Some(i) => {
            proof {
                lemma_entries_map_index(s, i as int);
            }
            if !members[i].1.is_member() {
                return GroupMembersState { members };
            }
            let (eid, old_m) = members.remove(i);
            let m = MemberState {
                member_counter: old_m.member_counter + 1,
                access: old_m.access,
                access_counter: old_m.access_counter,
            };
            members.insert(i, (eid, m));
            proof {
                assert(members@ =~= s.update(i as int, (s[i as int].0, m)));
                lemma_entries_map_update(s, i as int, m);
            }
            GroupMembersState { members }
        },
        None => GroupMembersState { members },
    }
}

/// Replace the access level of a known actor and count the change.
pub(crate) fn change_access<ID: IdentityHandle, C>(
    state: GroupMembersState<ID, C>,
    id: ID,
    access: Access<C>,
) -> (r: GroupMembersState<ID, C>)
    requires
        state@.contains_key(id),
        state@[id].access_counter < usize::MAX,
    ensures
        r@ == state@.insert(id, modified_entry(state@, id, access)),
{
    proof {
        use_type_invariant(&state);
    }
    let ghost s = state.members@;
    let mut members = state.members;
    match find_entry(&members, id) {
        Some(i) => {
            proof {
                lemma_entries_map_index(s, i as int);
            }
            let (eid, old_m) = members.remove(i);
            let m = MemberState {
                member_counter: old_m.member_counter,
                access,
                access_counter: old_m.access_counter + 1,
            };
            members.insert(i, (eid, m));
            proof {
                assert(members@ =~= s.update(i as int, (s[i as int].0, m)));
                lemma_entries_map_update(s, i as int, m);
            }
            GroupMembersState { members }
        },
        None => {
            proof {
                assert(has_key(s, id));
            }
            GroupMembersState { members }
        },
    }
}

/// Outcome of `promote`: no change when the member already holds `Manage` access.
pub open spec fn promote_spec<ID, C: PartialEq>(
    s: Map<ID, MemberState<C>>,
    promoter: ID,
    promoted: ID,
    access: Access<C>,
) -> Result<Map<ID, MemberState<C>>, GroupMembershipError<ID>> {
    if !s.contains_key(promoted) {
        Err(GroupMembershipError::UnrecognisedMember(promoted))
    } else if is_manager_spec(s[promoted]) {
        Ok(s)
    } else {
        modify_spec(s, promoter, promoted, access)
    }
}

/// Outcome of `demote`: no change when the member already holds `Pull` access.
pub open spec fn demote_spec<ID, C: PartialEq>(
    s: Map<ID, MemberState<C>>,
    demoter: ID,
    demoted: ID,
    access: Access<C>,
) -> Result<Map<ID, MemberState<C>>, GroupMembershipError<ID>> {
    if !s.contains_key(demoted) {
        Err(GroupMembershipError::UnrecognisedMember(demoted))
    } else if s[demoted].access is Pull {
        Ok(s)
    } else {
        modify_spec(s, demoter, demoted, access)
    }
}

/// Promote a group member to the given access level.
///
/// No modification will occur if the promoted member already has `Manage` access. In that case,
/// the given state is returned unchanged.
///
/// The actor performing the action must be an active member of the group with manager access.
pub fn promote<ID: IdentityHandle, C: PartialEq>(
    state: GroupMembersState<ID, C>,
    promoter: ID,
    promoted: ID,
    access: Access<C>,
) -> (r: Result<GroupMembersState<ID, C>, GroupMembershipError<ID>>)
    requires
        (state@.contains_key(promoted) && !is_manager_spec(state@[promoted])) ==> (modify_changes(
            state@,
            promoter,
            promoted,
            access,
        ) ==> state@[promoted].access_counter < usize::MAX),
    ensures
        !state@.contains_key(promoted) ==> r == Err::<GroupMembersState<ID, C>, _>(
            GroupMembershipError::UnrecognisedMember(promoted),
        ),
        state@.contains_key(promoted) && is_manager_spec(state@[promoted]) ==> state_result(r)
            == Ok::<_, GroupMembershipError<ID>>(state@),
        state@.contains_key(promoted) && !is_manager_spec(state@[promoted]) ==> modify_outcome(
            state@,
            promoter,
            promoted,
            access,
            state_result(r),
        ),
        C::obeys_eq_spec() ==> state_result(r) == promote_spec(state@, promoter, promoted, access),
{
    match state.get(&promoted) {
        None => Err(GroupMembershipError::UnrecognisedMember(promoted)),
        Some(m) => {
            if m.is_manager() {
                Ok(state)
            } else {
                modify(state, promoter, promoted, access)
            }
        },
    }
}

/// Demote a group member to the given access level.
///
/// No modification will occur if the demoted member already has `Pull` access. In that case, the
/// given state is returned unchanged.
///
/// The actor performing the action must be an active member of the group with manager access.
pub fn demote<ID: IdentityHandle, C: PartialEq>(
    state: GroupMembersState<ID, C>,
    demoter: ID,
    demoted: ID,
    access: Access<C>,
) -> (r: Result<GroupMembersState<ID, C>, GroupMembershipError<ID>>)
    requires
        (state@.contains_key(demoted) && !(state@[demoted].access is Pull)) ==> (modify_changes(
            state@,
            demoter,
            demoted,
            access,
        ) ==> state@[demoted].access_counter < usize::MAX),
    ensures
        !state@.contains_key(demoted) ==> r == Err::<GroupMembersState<ID, C>, _>(
            GroupMembershipError::UnrecognisedMember(demoted),
        ),
        state@.contains_key(demoted) && state@[demoted].access is Pull ==> state_result(r) == Ok::<
            _,
            GroupMembershipError<ID>,
        >(state@),
        state@.contains_key(demoted) && !(state@[demoted].access is Pull) ==> modify_outcome(
            state@,
            demoter,
            demoted,
            access,
            state_result(r),
        ),
        C::obeys_eq_spec() ==> state_result(r) == demote_spec(state@, demoter, demoted, access),
{
    match state.get(&demoted) {
        None => Err(GroupMembershipError::UnrecognisedMember(demoted)),
        Some(m) => {
            if m.is_puller() {
                Ok(state)
            } else {
                modify(state, demoter, demoted, access)
            }
        },
    }
}


// ------------------------------------------------------------------------------------------------
// Merging states
// ------------------------------------------------------------------------------------------------

/// Merged state of one actor: the state with the higher member counter wins; with equal member
/// counters the state with the higher access counter wins; with both counters equal the lower of
/// the two access levels is taken.
pub open spec fn merge_member<C: PartialOrd>(m1: MemberState<C>, m2: MemberState<C>) -> MemberState<C> {
    if m1.member_counter > m2.member_counter {
        m1
    } else if m1.member_counter < m2.member_counter {
        m2
    } else if m1.access_counter > m2.access_counter {
        m1
    } else if m1.access_counter < m2.access_counter {
        m2
    } else if access_lt(m1.access, m2.access) {
        m1
    } else {
        m2
    }
}

/// Both counters of the two states are equal, so the access levels decide.
pub open spec fn counters_tie<C>(m1: MemberState<C>, m2: MemberState<C>) -> bool {
    m1.member_counter == m2.member_counter && m1.access_counter == m2.access_counter
}

/// What merging the states of one actor yields: exactly `merge_member` when the conditions'
/// order follows its specification or the counters differ; otherwise one of the two states.
pub open spec fn merge_member_outcome<C: PartialOrd>(
    m1: MemberState<C>,
    m2: MemberState<C>,
    r: MemberState<C>,
) -> bool {
    &&& (C::obeys_partial_cmp_spec() || !counters_tie(m1, m2)) ==> r == merge_member(m1, m2)
    &&& r == m1 || r == m2
}

/// Merge of two group states: actors known to one state only keep their state, actors known to
/// both are merged with `merge_member`.
pub open spec fn merge_spec<ID, C: PartialOrd>(
    s1: Map<ID, MemberState<C>>,
    s2: Map<ID, MemberState<C>>,
) -> Map<ID, MemberState<C>> {
    Map::new(
        |k: ID| s1.contains_key(k) || s2.contains_key(k),
        |k: ID|
            if s1.contains_key(k) && s2.contains_key(k) {
                merge_member(s1[k], s2[k])
            } else if s1.contains_key(k) {
                s1[k]
            } else {
                s2[k]
            },
    )
}

/// What merging two group states yields, actor by actor.
pub open spec fn merge_outcome<ID, C: PartialOrd>(
    s1: Map<ID, MemberState<C>>,
    s2: Map<ID, MemberState<C>>,
    r: Map<ID, MemberState<C>>,
) -> bool {
    &&& forall|k: ID| #[trigger] r.contains_key(k) <==> (s1.contains_key(k) || s2.contains_key(k))
    &&& forall|k: ID|
        #[trigger] r.contains_key(k) ==> if s1.contains_key(k) && s2.contains_key(k) {
            merge_member_outcome(s1[k], s2[k], r[k])
        } else if s1.contains_key(k) {
            r[k] == s1[k]
        } else {
            r[k] == s2[k]
        }
}

proof fn lemma_merge_outcome_exact<ID, C: PartialOrd>(
    s1: Map<ID, MemberState<C>>,
    s2: Map<ID, MemberState<C>>,
    r: Map<ID, MemberState<C>>,
)
    requires
        merge_outcome(s1, s2, r),
        C::obeys_partial_cmp_spec(),
    ensures
        r == merge_spec(s1, s2),
{
    assert(r =~= merge_spec(s1, s2));
}

/// Merge the states of one actor.
fn merge_member_exec<C: PartialOrd>(m1: MemberState<C>, m2: MemberState<C>) -> (r: MemberState<C>)
    ensures
        merge_member_outcome(m1, m2, r),
{
    if m1.member_counter > m2.member_counter {
        m1
    } else if m1.member_counter < m2.member_counter {
        m2
    } else if m1.access_counter > m2.access_counter {
        m1
    } else if m1.access_counter < m2.access_counter {
        m2
    } else if access_less_than(&m1.access, &m2.access) {
        m1
    } else {
        m2
    }
}

/// The order of the conditions follows its specification.
pub open spec fn conditions_ordered<C: PartialOrd>() -> bool {
    C::obeys_partial_cmp_spec()
}

pub(crate) proof fn lemma_skip_distinct<ID, V>(s: Seq<(ID, V)>, n: int)
    requires
        keys_distinct(s),
        0 <= n <= s.len(),
    ensures
        keys_distinct(s.skip(n)),
{
    assert forall|a: int, b: int|
        0 <= a < s.skip(n).len() && 0 <= b < s.skip(n).len() && a != b implies s.skip(n)[a].0
        != s.skip(n)[b].0 by {
        assert(s.skip(n)[a] == s[n + a]);
        assert(s.skip(n)[b] == s[n + b]);
    }
}

/// Extending a processed suffix by the entry just before it.
pub(crate) proof fn lemma_suffix_extend<ID, V>(s: Seq<(ID, V)>, n: int)
    requires
        keys_distinct(s),
        1 <= n <= s.len(),
    ensures
        !entries_map(s.skip(n)).contains_key(s[n - 1].0),
        entries_map(s.skip(n - 1)) == entries_map(s.skip(n)).insert(s[n - 1].0, s[n - 1].1),
{
    let id = s[n - 1].0;
    let t = s.skip(n);
    let u = s.skip(n - 1);
    lemma_skip_distinct(s, n);
    lemma_skip_distinct(s, n - 1);
    assert(!has_key(t, id)) by {
        if has_key(t, id) {
            let j = choose|j: int| 0 <= j < t.len() && t[j].0 == id;
            assert(s[n + j].0 == s[n - 1].0);
        }
    }
    assert forall|k: ID| #[trigger] has_key(u, k) == (has_key(t, k) || k == id) by {
        if has_key(u, k) {
            let j = choose|j: int| 0 <= j < u.len() && u[j].0 == k;
            if j > 0 {
                assert(t[j - 1] == u[j]);
            }
        }
        if has_key(t, k) {
            let j = choose|j: int| 0 <= j < t.len() && t[j].0 == k;
            assert(u[j + 1] == t[j]);
        }
        if k == id {
            assert(u[0].0 == id);
        }
    }
    assert forall|k: ID| #[trigger] entries_map(u).contains_key(k) implies entries_map(u)[k]
        == entries_map(t).insert(id, s[n - 1].1)[k] by {
        let j = choose|j: int| 0 <= j < u.len() && u[j].0 == k;
        lemma_entries_map_index(u, j);
        if j > 0 {
            assert(t[j - 1] == u[j]);
            lemma_entries_map_index(t, j - 1);
        }
    }
    assert(entries_map(u) =~= entries_map(t).insert(id, s[n - 1].1));
}

/// Fold the state `m1` of actor `id`, new to the merged part `done` of the first state, into the
/// merge result held by `next`.
fn merge_entry<ID: IdentityHandle, C: PartialOrd>(
    next: &mut Vec<(ID, MemberState<C>)>,
    id: ID,
    m1: MemberState<C>,
    Ghost(done): Ghost<Map<ID, MemberState<C>>>,
    Ghost(s2): Ghost<Map<ID, MemberState<C>>>,
)
    requires
        keys_distinct(old(next)@),
        merge_outcome(done, s2, entries_map(old(next)@)),
        !done.contains_key(id),
    ensures
        keys_distinct(final(next)@),
        merge_outcome(done.insert(id, m1), s2, entries_map(final(next)@)),
{
    let ghost cur = entries_map(next@);
    let ghost s = next@;
    match find_entry(next, id) {
        Some(j) => {
            proof {
                lemma_entries_map_index(s, j as int);
            }
            let (jid, m2) = next.remove(j);
            let merged = merge_member_exec(m1, m2);
            next.insert(j, (jid, merged));
            proof {
                assert(next@ =~= s.update(j as int, (s[j as int].0, merged)));
                lemma_entries_map_update(s, j as int, merged);
                let r = entries_map(next@);
                let d = done.insert(id, m1);
                assert forall|k: ID| #[trigger] r.contains_key(k) <==> (d.contains_key(k)
                    || s2.contains_key(k)) by {
                    if k != id {
                        assert(r.contains_key(k) == cur.contains_key(k));
                    }
                }
                assert forall|k: ID| #[trigger] r.contains_key(k) implies if d.contains_key(k)
                    && s2.contains_key(k) {
                    merge_member_outcome(d[k], s2[k], r[k])
                } else if d.contains_key(k) {
                    r[k] == d[k]
                } else {
                    r[k] == s2[k]
                } by {
                    if k != id {
                        assert(cur.contains_key(k));
                    } else {
                        assert(cur.contains_key(id));
                    }
                }
            }
        },
        None => {
            proof {
                assert(!cur.contains_key(id));
                lemma_entries_map_push(s, id, m1);
            }
            next.push((id, m1));
            proof {
                let r = entries_map(next@);
                let d = done.insert(id, m1);
                assert forall|k: ID| #[trigger] r.contains_key(k) <==> (d.contains_key(k)
                    || s2.contains_key(k)) by {
                    if k != id {
                        assert(r.contains_key(k) == cur.contains_key(k));
                    }
                }
                assert forall|k: ID| #[trigger] r.contains_key(k) implies if d.contains_key(k)
                    && s2.contains_key(k) {
                    merge_member_outcome(d[k], s2[k], r[k])
                } else if d.contains_key(k) {
                    r[k] == d[k]
                } else {
                    r[k] == s2[k]
                } by {
                    if k != id {
                        assert(cur.contains_key(k));
                    }
                }
            }
        },
    }
}

/// Merge two group states into one using a deterministic, conflict-free approach.
///
/// Grow-only counters are used internally to track state changes; one counter for add / remove
/// actions and one for access modification action. These values are used to determine which
/// membership and access states should be included in the merged group state. A state with a
/// higher counter indicates that it has undergone more actions; this state will be included in
/// the merge.
///
/// If a member exists with different access levels in each state and has undergone the same
/// number of access modifications, the lower of the two access levels will be chosen.
pub fn merge<ID: IdentityHandle, C: PartialOrd>(
    state_1: GroupMembersState<ID, C>,
    state_2: GroupMembersState<ID, C>,
) -> (r: GroupMembersState<ID, C>)
    ensures
        merge_outcome(state_1@, state_2@, r@),
        conditions_ordered::<C>() ==> r@ == merge_spec(state_1@, state_2@),
{
    proof {
        use_type_invariant(&state_1);
        use_type_invariant(&state_2);
    }
    let ghost s1 = state_1.members@;
    let ghost m2 = state_2@;
    let mut rest = state_1.members;
    let mut next = state_2.members;
    proof {
        assert(s1.skip(s1.len() as int) =~= Seq::<(ID, MemberState<C>)>::empty());
        assert(entries_map(Seq::<(ID, MemberState<C>)>::empty()) =~= Map::empty());
        assert(rest@ =~= s1.take(s1.len() as int));
        assert(merge_outcome(entries_map(s1.skip(s1.len() as int)), m2, entries_map(next@)));
    }
    while rest.len() > 0
        invariant
            keys_distinct(s1),
            keys_distinct(next@),
            rest@.len() <= s1.len(),
            rest@ == s1.take(rest@.len() as int),
            merge_outcome(entries_map(s1.skip(rest@.len() as int)), m2, entries_map(next@)),
        decreases rest@.len(),
    {
        let ghost n = rest@.len() as int;
        let (id, ms1) = rest.pop().unwrap();
        proof {
            assert(s1.take(n)[n - 1] == s1[n - 1]);
            assert(rest@ =~= s1.take(n - 1));
            lemma_suffix_extend(s1, n);
        }
        merge_entry(&mut next, id, ms1, Ghost(entries_map(s1.skip(n))), Ghost(m2));
    }
    proof {
        assert(s1.skip(0) =~= s1);
        if conditions_ordered::<C>() {
            lemma_merge_outcome_exact(entries_map(s1), m2, entries_map(next@));
        }
    }
    GroupMembersState { members: next }
}


// ------------------------------------------------------------------------------------------------
// Laws of the membership CRDT
// ------------------------------------------------------------------------------------------------

/// Wherever both states know an actor with equal counters, the two access levels are equal or
/// one is strictly lower than the other.
pub open spec fn ties_comparable<ID, C: PartialOrd>(
    s1: Map<ID, MemberState<C>>,
    s2: Map<ID, MemberState<C>>,
) -> bool {
    forall|k: ID|
        #![trigger s1[k], s2[k]]
        s1.contains_key(k) && s2.contains_key(k) && counters_tie(s1[k], s2[k]) ==> {
            ||| s1[k].access == s2[k].access
            ||| access_lt(s1[k].access, s2[k].access)
            ||| access_lt(s2[k].access, s1[k].access)
        }
}

/// Merging an actor's state with itself yields that state.
pub proof fn lemma_merge_member_idempotent<C: PartialOrd>(m: MemberState<C>)
    ensures
        merge_member(m, m) == m,
{
}

/// The merge of two states of an actor does not depend on their order, when their access levels
/// are comparable in case of a tie.
pub proof fn lemma_merge_member_commutative<C: PartialOrd>(m1: MemberState<C>, m2: MemberState<C>)
    requires
        conditions_order_laws::<C>(),
        counters_tie(m1, m2) ==> (m1.access == m2.access || access_lt(m1.access, m2.access)
            || access_lt(m2.access, m1.access)),
    ensures
        merge_member(m1, m2) == merge_member(m2, m1),
{
    lemma_access_lt_strict_order::<C>();
}

/// Grouping of three merges of an actor's states does not matter, when their access levels are
/// pairwise comparable in case of ties.
pub proof fn lemma_merge_member_associative<C: PartialOrd>(
    m1: MemberState<C>,
    m2: MemberState<C>,
    m3: MemberState<C>,
)
    requires
        conditions_order_laws::<C>(),
        counters_tie(m1, m2) ==> (m1.access == m2.access || access_lt(m1.access, m2.access)
            || access_lt(m2.access, m1.access)),
        counters_tie(m2, m3) ==> (m2.access == m3.access || access_lt(m2.access, m3.access)
            || access_lt(m3.access, m2.access)),
        counters_tie(m1, m3) ==> (m1.access == m3.access || access_lt(m1.access, m3.access)
            || access_lt(m3.access, m1.access)),
    ensures
        merge_member(merge_member(m1, m2), m3) == merge_member(m1, merge_member(m2, m3)),
{
    lemma_access_lt_strict_order::<C>();
}

/// Merging a group state with itself yields that state.
pub proof fn lemma_merge_idempotent<ID, C: PartialOrd>(s: Map<ID, MemberState<C>>)
    ensures
        merge_spec(s, s) == s,
{
    assert(merge_spec(s, s) =~= s);
}

/// Merging group states is commutative: peers that merge the same two states, in either order,
/// arrive at the same state (given comparable access levels wherever counters tie).
pub proof fn lemma_merge_commutative<ID, C: PartialOrd>(
    s1: Map<ID, MemberState<C>>,
    s2: Map<ID, MemberState<C>>,
)
    requires
        conditions_order_laws::<C>(),
        ties_comparable(s1, s2),
    ensures
        merge_spec(s1, s2) == merge_spec(s2, s1),
{
    assert forall|k: ID| s1.contains_key(k) && s2.contains_key(k) implies merge_member(
        #[trigger] s1[k],
        s2[k],
    ) == merge_member(s2[k], s1[k]) by {
        lemma_merge_member_commutative(s1[k], s2[k]);
    }
    assert(merge_spec(s1, s2) =~= merge_spec(s2, s1));
}

/// Merging group states is associative: the grouping in which peers merge three states does not
/// matter (given comparable access levels wherever counters tie).
pub proof fn lemma_merge_associative<ID, C: PartialOrd>(
    s1: Map<ID, MemberState<C>>,
    s2: Map<ID, MemberState<C>>,
    s3: Map<ID, MemberState<C>>,
)
    requires
        conditions_order_laws::<C>(),
        ties_comparable(s1, s2),
        ties_comparable(s2, s3),
        ties_comparable(s1, s3),
    ensures
        merge_spec(merge_spec(s1, s2), s3) == merge_spec(s1, merge_spec(s2, s3)),
{
    let l = merge_spec(merge_spec(s1, s2), s3);
    let r = merge_spec(s1, merge_spec(s2, s3));
    assert forall|k: ID| #[trigger] l.contains_key(k) implies l[k] == r[k] by {
        if s1.contains_key(k) && s2.contains_key(k) && s3.contains_key(k) {
            lemma_merge_member_associative(s1[k], s2[k], s3[k]);
        }
    }
    assert(l =~= r);
}

/// Every actor state of `older` is replaced in `newer` by an equal state or one with larger
/// counters (member counter first, then access counter).
pub open spec fn dominates<ID, C>(newer: Map<ID, MemberState<C>>, older: Map<ID, MemberState<C>>) -> bool {
    forall|k: ID|
        #[trigger] older.contains_key(k) ==> newer.contains_key(k) && {
            ||| newer[k] == older[k]
            ||| newer[k].member_counter > older[k].member_counter
            ||| (newer[k].member_counter == older[k].member_counter && newer[k].access_counter
                > older[k].access_counter)
        }
}

/// Merging a state with one that dominates it yields the dominating state, in either order: no
/// later change is lost when it meets an earlier state.
pub proof fn lemma_merge_dominated<ID, C: PartialOrd>(
    older: Map<ID, MemberState<C>>,
    newer: Map<ID, MemberState<C>>,
)
    requires
        dominates(newer, older),
    ensures
        merge_spec(older, newer) == newer,
        merge_spec(newer, older) == newer,
{
    assert(merge_spec(older, newer) =~= newer);
    assert(merge_spec(newer, older) =~= newer);
}

/// A successful `add` yields a state which dominates the previous one, so merging it with the
/// previous state keeps the addition.
pub proof fn lemma_add_dominates<ID, C: PartialOrd>(
    s: Map<ID, MemberState<C>>,
    adder: ID,
    added: ID,
    access: Access<C>,
)
    requires
        add_spec(s, adder, added, access) is Ok,
    ensures
        dominates(add_spec(s, adder, added, access)->Ok_0, s),
        merge_spec(s, add_spec(s, adder, added, access)->Ok_0) == add_spec(
            s,
            adder,
            added,
            access,
        )->Ok_0,
{
    if s.contains_key(added) {
        assert(s[added].member_counter % 2 == 0);
        assert(usize::MAX == 0xffff_ffff || usize::MAX == 0xffff_ffff_ffff_ffff);
    }
    lemma_merge_dominated(s, add_spec(s, adder, added, access)->Ok_0);
}

/// A successful `remove` yields a state which dominates the previous one, so merging it with
/// the previous state keeps the removal.
pub proof fn lemma_remove_dominates<ID, C: PartialOrd>(
    s: Map<ID, MemberState<C>>,
    remover: ID,
    removed: ID,
)
    requires
        remove_spec(s, remover, removed) is Ok,
        s[removed].member_counter < usize::MAX,
    ensures
        dominates(remove_spec(s, remover, removed)->Ok_0, s),
        merge_spec(s, remove_spec(s, remover, removed)->Ok_0) == remove_spec(
            s,
            remover,
            removed,
        )->Ok_0,
{
    lemma_merge_dominated(s, remove_spec(s, remover, removed)->Ok_0);
}

/// A successful `modify` yields a state which dominates the previous one, so merging it with
/// the previous state keeps the new access level.
pub proof fn lemma_modify_dominates<ID, C: PartialOrd>(
    s: Map<ID, MemberState<C>>,
    modifier: ID,
    modified: ID,
    access: Access<C>,
)
    requires
        modify_spec(s, modifier, modified, access) is Ok,
        s[modified].access_counter < usize::MAX,
    ensures
        dominates(modify_spec(s, modifier, modified, access)->Ok_0, s),
        merge_spec(s, modify_spec(s, modifier, modified, access)->Ok_0) == modify_spec(
            s,
            modifier,
            modified,
            access,
        )->Ok_0,
{
    lemma_merge_dominated(s, modify_spec(s, modifier, modified, access)->Ok_0);
}

} // verus!
