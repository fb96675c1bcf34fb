use p2panda_auth::group::access::Access;
use p2panda_auth::group::group_state::{
    add_member, create_group, demote, merge, promote, remove_member, GroupMembersState,
};

type State = GroupMembersState<u32>;

fn sorted(mut v: Vec<u32>) -> Vec<u32> {
    v.sort();
    v
}

#[test]
fn create_add_remove_members() {
    let alice = 0;
    let bob = 1;
    let charlie = 2;

    let y: State = create_group(&[(alice, Access::Manage), (bob, Access::Read)]).unwrap();
    assert_eq!(sorted(y.members()), vec![alice, bob]);
    assert_eq!(y.admins(), vec![alice]);

    let y = add_member(y, alice, charlie, Access::Write { conditions: None }).unwrap();
    assert_eq!(sorted(y.members()), vec![alice, bob, charlie]);
    let charlie_state = y.get(&charlie).unwrap();
    assert_eq!(charlie_state.member, charlie);
    assert_eq!(charlie_state.member_counter, 1);
    assert!(charlie_state.is_member());
    assert!(!charlie_state.is_admin());

    // Adding an active member changes nothing.
    let y = add_member(y, alice, charlie, Access::Manage).unwrap();
    assert!(!y.get(&charlie).unwrap().is_admin());

    let y = remove_member(y, alice, bob).unwrap();
    assert_eq!(sorted(y.members()), vec![alice, charlie]);
    let bob_state = y.get(&bob).unwrap();
    assert_eq!(bob_state.member_counter, 2);
    assert!(!bob_state.is_member());

    // Removing an inactive member changes nothing.
    let y = remove_member(y, alice, bob).unwrap();
    assert_eq!(y.get(&bob).unwrap().member_counter, 2);

    // A removal by an unknown actor changes nothing.
    let y = remove_member(y, 42, charlie).unwrap();
    assert!(y.get(&charlie).unwrap().is_member());

    // Re-adding a removed member sets the new access level.
    let y = add_member(y, alice, bob, Access::Manage).unwrap();
    let bob_state = y.get(&bob).unwrap();
    assert_eq!(bob_state.member_counter, 3);
    assert!(bob_state.is_admin());
    assert_eq!(sorted(y.admins()), vec![alice, bob]);
}

#[test]
fn create_group_keeps_last_access_level() {
    let y: State = create_group(&[(1, Access::Read), (1, Access::Manage)]).unwrap();
    assert_eq!(y.members(), vec![1]);
    assert!(y.get(&1).unwrap().is_admin());
}

#[test]
fn promote_and_demote_members() {
    let alice = 0;
    let bob = 1;
    let y: State = create_group(&[(alice, Access::Manage), (bob, Access::Read)]).unwrap();

    let y = promote(y, alice, bob, Access::Write { conditions: None }).unwrap();
    let bob_state = y.get(&bob).unwrap();
    assert_eq!(bob_state.access, Access::Write { conditions: None });
    assert_eq!(bob_state.access_counter, 1);

    // Promoting to a lower level changes nothing.
    let y = promote(y, alice, bob, Access::Pull).unwrap();
    assert_eq!(y.get(&bob).unwrap().access_counter, 1);

    let y = demote(y, alice, bob, Access::Pull).unwrap();
    let bob_state = y.get(&bob).unwrap();
    assert_eq!(bob_state.access, Access::Pull);
    assert_eq!(bob_state.access_counter, 2);

    // Demoting to a higher level changes nothing.
    let y = demote(y, alice, bob, Access::Manage).unwrap();
    assert_eq!(y.get(&bob).unwrap().access, Access::Pull);
}

#[test]
fn merge_takes_newer_states() {
    let alice = 0;
    let bob = 1;
    let y: State = create_group(&[(alice, Access::Manage), (bob, Access::Read)]).unwrap();
    let y_1 = remove_member(y, alice, bob).unwrap();
    let y_2: State = create_group(&[(alice, Access::Manage), (bob, Access::Read)]).unwrap();
    let y_2 = promote(y_2, alice, bob, Access::Manage).unwrap();

    // Bob's removal has the higher member counter and wins.
    let merged = merge(y_1, y_2).unwrap();
    assert_eq!(merged.members(), vec![alice]);
    assert!(!merged.get(&bob).unwrap().is_member());
}

#[test]
fn changes_by_non_managers_leave_the_state_unchanged() {
    let alice = 0;
    let bob = 1;
    let charlie = 2;
    let y: State = create_group(&[(alice, Access::Manage), (bob, Access::Read), (charlie, Access::Read)]).unwrap();

    // Bob is active but no manager: his add, remove, promote and demote change nothing.
    let y = add_member(y, bob, 3, Access::Read).unwrap();
    assert_eq!(sorted(y.members()), vec![alice, bob, charlie]);
    let y = remove_member(y, bob, charlie).unwrap();
    assert_eq!(sorted(y.members()), vec![alice, bob, charlie]);
    assert_eq!(y.get(&charlie).unwrap().member_counter, 1);
    let y = promote(y, bob, charlie, Access::Manage).unwrap();
    assert_eq!(y.get(&charlie).unwrap().access, Access::Read);
    assert_eq!(y.get(&charlie).unwrap().access_counter, 0);
    let y = demote(y, bob, alice, Access::Pull).unwrap();
    assert_eq!(y.get(&alice).unwrap().access, Access::Manage);
    assert_eq!(sorted(y.admins()), vec![alice]);
}

#[test]
fn changes_by_removed_managers_leave_the_state_unchanged() {
    let alice = 0;
    let bob = 1;
    let charlie = 2;
    let y: State = create_group(&[(alice, Access::Manage), (bob, Access::Manage), (charlie, Access::Read)]).unwrap();
    let y = remove_member(y, alice, bob).unwrap();
    assert!(!y.get(&bob).unwrap().is_member());

    // Bob was removed: nothing he does takes effect any more.
    let y = add_member(y, bob, 3, Access::Read).unwrap();
    assert_eq!(sorted(y.members()), vec![alice, charlie]);
    let y = remove_member(y, bob, alice).unwrap();
    assert!(y.get(&alice).unwrap().is_member());
    let y = promote(y, bob, charlie, Access::Write { conditions: None }).unwrap();
    assert_eq!(y.get(&charlie).unwrap().access, Access::Read);
    let y = demote(y, bob, alice, Access::Read).unwrap();
    assert!(y.get(&alice).unwrap().is_admin());

    // A removal of an unknown member by an unknown actor changes nothing either.
    let y = remove_member(y, 42, 43).unwrap();
    assert_eq!(sorted(y.members()), vec![alice, charlie]);
}
