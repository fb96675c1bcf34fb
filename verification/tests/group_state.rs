use p2panda_auth::group::state::{
    create, demote, merge, modify, promote, remove, add, Access, GroupMembershipError,
};

#[test]
fn state_create_add_remove() {
    // "Happy path" test for create, add and remove functions.
    type AccessLevel = Access<String>;

    let alice = 0;
    let bob = 1;
    let charlie = 2;

    let initial_members = [(alice, AccessLevel::Manage), (bob, AccessLevel::Read)];

    // Alice creates a group with Alice and Bob as members.
    let group_y = create(&initial_members);

    assert!(group_y.members().contains(&alice));
    assert!(group_y.members().contains(&bob));

    assert!(group_y.managers().contains(&alice));
    assert!(!group_y.managers().contains(&bob));

    // Alice adds Charlie.
    let group_y = add(
        group_y,
        alice,
        charlie,
        AccessLevel::Write {
            conditions: Some("requirement".to_string()),
        },
    )
    .unwrap();

    assert!(group_y.members().contains(&charlie));

    // Alice removes Bob.
    let group_y = remove(group_y, alice, bob).unwrap();

    assert!(!group_y.members().contains(&bob));
}

#[test]
fn promote_demote_modify() {
    type AccessLevel = Access<String>;

    let alice = 0;
    let bob = 1;

    let initial_members = [(alice, AccessLevel::Manage), (bob, AccessLevel::Read)];

    // Alice creates a group with Alice and Bob as members.
    let group_y = create(&initial_members);

    // Alice promotes Bob to Write access.
    let group_y = promote(
        group_y,
        alice,
        bob,
        AccessLevel::Write {
            conditions: Some("requirement".to_string()),
        },
    )
    .unwrap();

    let group_y_clone = group_y.clone();

    let bob_state = group_y_clone.get(&bob).unwrap();
    assert!(bob_state.is_writer());

    // Alice demotes Bob to Read access.
    let group_y = demote(group_y.clone(), alice, bob, Access::Read).unwrap();

    // Alice promotes Bob to Manage access.
    let group_y = modify(group_y, alice, bob, AccessLevel::Manage).unwrap();

    let bob_state = group_y.get(&bob).unwrap();
    assert!(bob_state.is_manager());
}

#[test]
fn state_add_errors() {
    type AccessLevel = Access<String>;

    let alice = 0;
    let bob = 1;
    let charlie = 2;
    let daphne = 3;

    let initial_members = [(alice, AccessLevel::Manage), (bob, AccessLevel::Read)];

    let group_y = create(&initial_members);

    // Charlie adds Daphne, but Charlie isn't known to the group.
    let result = add(group_y.clone(), charlie, daphne, AccessLevel::Read);
    assert!(matches!(
        result,
        Err(GroupMembershipError::UnrecognisedActor(_bob))
    ));

    // Bob adds Daphne, but Bob isn't a manager.
    let result = add(group_y.clone(), bob, daphne, AccessLevel::Read);
    assert!(matches!(
        result,
        Err(GroupMembershipError::InsufficientAccess(_bob))
    ));

    // Alice adds Bob, but Bob is already an active member.
    let result = add(group_y.clone(), alice, bob, AccessLevel::Read);
    assert!(matches!(
        result,
        Err(GroupMembershipError::AlreadyAdded(_bob))
    ));

    // Alice removes Bob.
    let group_y = remove(group_y, alice, bob).unwrap();

    // Bob adds Daphne, but Bob isn't an active member.
    let result = add(group_y, bob, daphne, AccessLevel::Read);
    assert!(matches!(
        result,
        Err(GroupMembershipError::InactiveActor(_bob))
    ));
}

#[test]
fn state_remove_errors() {
    type AccessLevel = Access<String>;

    let alice = 0;
    let bob = 1;
    let charlie = 2;
    let daphne = 3;

    let initial_members = [
        (alice, AccessLevel::Manage),
        (bob, AccessLevel::Read),
        (charlie, AccessLevel::Read),
    ];

    let group_y = create(&initial_members);

    // Daphne removes Charlie, but Daphne isn't known to the group.
    let result = remove(group_y.clone(), daphne, charlie);
    assert!(matches!(
        result,
        Err(GroupMembershipError::UnrecognisedActor(_daphne))
    ));

    // Bob removes Charlie, but Bob isn't a manager.
    let result = remove(group_y.clone(), bob, charlie);
    assert!(matches!(
        result,
        Err(GroupMembershipError::InsufficientAccess(_bob))
    ));

    // Alice removes Daphne, but Daphne isn't a member.
    let result = remove(group_y.clone(), alice, daphne);
    assert!(matches!(
        result,
        Err(GroupMembershipError::UnrecognisedMember(_daphne))
    ));

    // Alice removes Charlie.
    let group_y = remove(group_y, alice, charlie).unwrap();

    // Alice removes Charlie, but Charlie has already been removed.
    let result = remove(group_y, alice, charlie);
    assert!(matches!(
        result,
        Err(GroupMembershipError::AlreadyRemoved(_charlie))
    ));
}

#[test]
fn state_promote_errors() {
    type AccessLevel = Access<String>;

    let alice = 0;
    let bob = 1;
    let charlie = 2;
    let daphne = 3;

    let initial_members = [
        (alice, AccessLevel::Manage),
        (bob, AccessLevel::Read),
        (charlie, AccessLevel::Read),
    ];

    let group_y = create(&initial_members);

    // Daphne promotes Charlie, but Daphne isn't known to the group.
    let result = promote(group_y.clone(), daphne, charlie, Access::Manage);
    assert!(matches!(
        result,
        Err(GroupMembershipError::UnrecognisedActor(_daphne))
    ));

    // Bob promotes Charlie, but Bob isn't a manager.
    let result = promote(
        group_y.clone(),
        bob,
        charlie,
        AccessLevel::Write {
            conditions: Some("paw".to_string()),
        },
    );
    assert!(matches!(
        result,
        Err(GroupMembershipError::InsufficientAccess(_bob))
    ));

    // Alice promotes Daphne, but Daphne isn't a member.
    let result = promote(group_y.clone(), alice, daphne, AccessLevel::Read);
    assert!(matches!(
        result,
        Err(GroupMembershipError::UnrecognisedMember(_daphne))
    ));

    // Alice removes Charlie.
    let group_y = remove(group_y, alice, charlie).unwrap();

    // Alice promotes Charlie, but Charlie isn't a member.
    let result = promote(group_y.clone(), alice, charlie, Access::Pull);
    assert!(matches!(
        result,
        Err(GroupMembershipError::InactiveMember(_charlie))
    ));

    // Charlie promotes Bob, but Charlie isn't a member.
    let result = promote(group_y, charlie, bob, Access::Manage);
    assert!(matches!(
        result,
        Err(GroupMembershipError::InactiveActor(_charlie))
    ));
}

#[test]
fn state_demote_errors() {
    type AccessLevel = Access<String>;

    let alice = 0;
    let bob = 1;
    let charlie = 2;
    let daphne = 3;

    let initial_members = [
        (alice, AccessLevel::Manage),
        (bob, AccessLevel::Read),
        (charlie, AccessLevel::Read),
    ];

    let group_y = create(&initial_members);

    // Daphne demotes Charlie, but Daphne isn't known to the group.
    let result = demote(group_y.clone(), daphne, charlie, Access::Pull);
    assert!(matches!(
        result,
        Err(GroupMembershipError::UnrecognisedActor(_daphne))
    ));

    // Bob demotes Charlie, but Bob isn't a manager.
    let result = demote(group_y.clone(), bob, charlie, Access::Pull);
    assert!(matches!(
        result,
        Err(GroupMembershipError::InsufficientAccess(_bob))
    ));

    // Alice demotes Daphne, but Daphne isn't a member.
    let result = demote(group_y.clone(), alice, daphne, Access::Read);
    assert!(matches!(
        result,
        Err(GroupMembershipError::UnrecognisedMember(_daphne))
    ));

    // Alice removes Charlie.
    let group_y = remove(group_y, alice, charlie).unwrap();

    // Alice demotes Charlie, but Charlie isn't a member.
    let result = demote(group_y.clone(), alice, charlie, Access::Pull);
    assert!(matches!(
        result,
        Err(GroupMembershipError::InactiveMember(_charlie))
    ));

    // Charlie demotes Bob, but Charlie isn't a member.
    let result = demote(group_y, charlie, bob, Access::Pull);
    assert!(matches!(
        result,
        Err(GroupMembershipError::InactiveActor(_charlie))
    ));
}

#[test]
fn merge_state_member() {
    // A member is added in one group state but not the other.
    type AccessLevel = Access<String>;

    let alice = 0;
    let bob = 1;
    let charlie = 2;
    let daphne = 3;

    let initial_members = [
        (alice, AccessLevel::Manage),
        (bob, AccessLevel::Read),
        (charlie, AccessLevel::Pull),
    ];

    let group_y_i = create(&initial_members);

    // Alice adds Daphne.
    let group_y_ii = add(group_y_i.clone(), alice, daphne, AccessLevel::Read).unwrap();

    // Merge the states.
    let group_y = merge(group_y_i, group_y_ii);

    assert!(group_y.members().contains(&daphne));
}

#[test]
fn merge_state_counter() {
    // A member exists in both group states but with different counters.
    type AccessLevel = Access<String>;

    let alice = 0;
    let bob = 1;
    let charlie = 2;

    let initial_members = [
        (alice, AccessLevel::Manage),
        (bob, AccessLevel::Read),
        (charlie, AccessLevel::Pull),
    ];

    let group_y_i = create(&initial_members);

    // Alice removes Bob.
    let group_y_ii = remove(group_y_i.clone(), alice, bob).unwrap();

    // Alice adds Bob.
    let group_y_ii = add(group_y_ii, alice, bob, AccessLevel::Read).unwrap();

    // Merge the states.
    let group_y = merge(group_y_i, group_y_ii);

    assert!(group_y.members().contains(&alice));
    assert!(group_y.members().contains(&bob));
    assert!(group_y.members().contains(&charlie));

    let bob_state = group_y.get(&bob).unwrap();

    // We expect the merge to choose the higher counter value for Bob.
    assert!(bob_state.member_counter == 3);
}

#[test]
fn merge_state_access_counter() {
    // A member exists in both group states with equal counters but different access counters.
    type AccessLevel = Access<String>;

    let alice = 0;
    let bob = 1;
    let charlie = 2;

    let initial_members = [
        (alice, AccessLevel::Manage),
        (bob, AccessLevel::Read),
        (charlie, AccessLevel::Pull),
    ];

    let group_y_i = create(&initial_members);

    // Alice promotes Charlie.
    let group_y_ii = promote(group_y_i.clone(), alice, charlie, Access::Read).unwrap();

    // Alice demotes Charlie.
    let group_y_ii = demote(group_y_ii.clone(), alice, charlie, Access::Pull).unwrap();

    // Merge the states.
    let group_y = merge(group_y_i, group_y_ii);

    let charlie_state = group_y.get(&charlie).unwrap();

    // We expect the merge to choose the higher access counter value for Charlie.
    assert!(charlie_state.access_counter == 2);

    // We expect the access level to be Pull for Charlie.
    assert!(charlie_state.access == Access::Pull);
}

#[test]
fn merge_state_access() {
    // Equal counters and equal access counters but different access levels: the lower wins.
    type AccessLevel = Access<String>;

    let alice = 0;
    let bob = 1;
    let charlie = 2;

    let initial_members = [
        (alice, AccessLevel::Manage),
        (bob, AccessLevel::Read),
        (charlie, AccessLevel::Pull),
    ];

    let group_y = create(&initial_members);

    // Alice promotes Charlie.
    let group_y_i = promote(group_y.clone(), alice, charlie, Access::Read).unwrap();

    // Alice demotes Charlie.
    let group_y_i = demote(group_y_i.clone(), alice, charlie, Access::Pull).unwrap();

    // Alice promotes Charlie.
    let group_y_ii = modify(group_y.clone(), alice, charlie, AccessLevel::Manage).unwrap();

    // Alice demotes Charlie.
    let group_y_ii = demote(group_y_ii.clone(), alice, charlie, Access::Read).unwrap();

    // Merge the states.
    let group_y = merge(group_y_i.clone(), group_y_ii.clone());

    let charlie_state = group_y.get(&charlie).unwrap();

    // We expect the access level to be Pull for Charlie.
    assert!(charlie_state.access == Access::Pull);
}
