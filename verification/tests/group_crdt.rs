use p2panda_auth::group_crdt::{
    add, create, demote, promote, remove, Access, GroupMembershipError,
};

#[test]
fn group_crdt_create_add_remove() {
    // "Happy path" test for create, add and remove functions.

    // Avoid having to annotate the conditions `C`.
    type AccessLevel = Access<String>;

    let alice = 0;
    let bob = 1;
    let charlie = 2;

    let initial_members = [(alice, AccessLevel::Manage), (bob, AccessLevel::Read)];

    // Alice creates a group with Alice and Bob as members.
    let group_y = create(&initial_members).unwrap();

    assert!(group_y.members().contains(&alice));
    assert!(group_y.members().contains(&bob));

    assert!(group_y.managers().contains(&alice));
    assert!(!group_y.managers().contains(&bob));

    // Alice adds Charlie.
    let group_y = add(
        group_y,
        alice,
        charlie,
        AccessLevel::Write {
            conditions: Some("requirement".to_string()),
        },
    )
    .unwrap();

    assert!(group_y.members().contains(&charlie));

    // Alice removes Bob.
    let group_y = remove(group_y, alice, bob).unwrap();

    assert!(!group_y.members().contains(&bob));
}

#[test]
fn promote_demote() {
    type AccessLevel = Access<String>;

    let alice = 0;
    let bob = 1;

    let initial_members = [(alice, AccessLevel::Manage), (bob, AccessLevel::Read)];

    // Alice creates a group with Alice and Bob as members.
    let group_y = create(&initial_members).unwrap();

    // Alice promotes Bob to Write access.
    let group_y = promote(
        group_y,
        alice,
        bob,
        AccessLevel::Write {
            conditions: Some("requirement".to_string()),
        },
    )
    .unwrap();

    let group_y_clone = group_y.clone();

    let bob_state = group_y_clone.get(&bob).unwrap();
    assert!(bob_state.is_writer());

    // Alice demotes Bob to Pull access.
    let group_y = demote(group_y, alice, bob, AccessLevel::Pull).unwrap();

    let bob_state = group_y.get(&bob).unwrap();
    assert!(bob_state.is_puller());
}

#[test]
fn group_crdt_add_errors() {
    // "Unhappy path" test for add functions.

    type AccessLevel = Access<String>;

    let alice = 0;
    let bob = 1;
    let charlie = 2;
    let daphne = 3;

    let initial_members = [(alice, AccessLevel::Manage), (bob, AccessLevel::Read)];

    // Alice creates a group with Alice and Bob as members.
    let group_y = create(&initial_members).unwrap();

    // Charlie adds Daphne...
    let result = add(group_y.clone(), charlie, daphne, AccessLevel::Read);

    // ...but Charlie isn't known to the group (has never been a member).
    assert!(matches!(
        result,
        Err(GroupMembershipError::UnrecognisedActor)
    ));

    // Bob adds Daphne...
    let result = add(group_y.clone(), bob, daphne, AccessLevel::Read);

    // ...but Bob isn't a manager.
    assert!(matches!(
        result,
        Err(GroupMembershipError::InsufficientAccess)
    ));

    // Alice adds Bob...
    let result = add(group_y.clone(), alice, bob, AccessLevel::Read);

    // ...but Bob is already an active member.
    assert!(matches!(result, Err(GroupMembershipError::AlreadyAdded)));

    // Alice removes Bob.
    let group_y = remove(group_y, alice, bob).unwrap();

    // Bob adds Daphne...
    let result = add(group_y, bob, daphne, AccessLevel::Read);

    // ...but Bob isn't an active member.
    assert!(matches!(result, Err(GroupMembershipError::InactiveActor)));
}

#[test]
fn group_crdt_remove_errors() {
    // "Unhappy path" test for remove functions.

    type AccessLevel = Access<String>;

    let alice = 0;
    let bob = 1;
    let charlie = 2;
    let daphne = 3;

    let initial_members = [
        (alice, AccessLevel::Manage),
        (bob, AccessLevel::Read),
        (charlie, AccessLevel::Read),
    ];

    // Alice creates a group with Alice, Bob and Charlie as members.
    let group_y = create(&initial_members).unwrap();

    // Daphne removes Charlie...
    let result = remove(group_y.clone(), daphne, charlie);

    // ...but Daphne isn't known to the group (has never been a member).
    assert!(matches!(
        result,
        Err(GroupMembershipError::UnrecognisedActor)
    ));

    // Bob removes Charlie...
    let result = remove(group_y.clone(), bob, charlie);

    // ...but Bob isn't a manager.
    assert!(matches!(
        result,
        Err(GroupMembershipError::InsufficientAccess)
    ));

    // Alice removes Daphne...
    let result = remove(group_y.clone(), alice, daphne);

    // ...but Daphne isn't a member.
    assert!(matches!(
        result,
        Err(GroupMembershipError::UnrecognisedMember)
    ));

    // Alice removes Charlie.
    let group_y = remove(group_y, alice, charlie).unwrap();

    // Alice removes Charlie...
    let result = remove(group_y, alice, charlie);

    // ...but Charlie has already been removed.
    assert!(matches!(result, Err(GroupMembershipError::AlreadyRemoved)));
}

#[test]
fn group_crdt_promote_errors() {
    // "Unhappy path" test for promote functions.

    type AccessLevel = Access<String>;

    let alice = 0;
    let bob = 1;
    let charlie = 2;
    let daphne = 3;

    let initial_members = [
        (alice, AccessLevel::Manage),
        (bob, AccessLevel::Read),
        (charlie, AccessLevel::Read),
    ];

    // Alice creates a group with Alice, Bob and Charlie as members.
    let group_y = create(&initial_members).unwrap();

    // Daphne promotes Charlie...
    let result = promote(group_y.clone(), daphne, charlie, AccessLevel::Manage);

    // ...but Daphne isn't known to the group (has never been a member).
    assert!(matches!(
        result,
        Err(GroupMembershipError::UnrecognisedActor)
    ));

    // Bob promotes Charlie...
    let result = promote(
        group_y.clone(),
        bob,
        charlie,
        AccessLevel::Write {
            conditions: Some("requirement".to_string()),
        },
    );

    // ...but Bob isn't a manager.
    assert!(matches!(
        result,
        Err(GroupMembershipError::InsufficientAccess)
    ));

    // Alice promotes Daphne...
    let result = promote(group_y.clone(), alice, daphne, AccessLevel::Read);

    // ...but Daphne isn't a member.
    assert!(matches!(
        result,
        Err(GroupMembershipError::UnrecognisedMember)
    ));

    // Alice removes Charlie.
    let group_y = remove(group_y, alice, charlie).unwrap();

    // Alice promotes Charlie...
    let result = promote(group_y.clone(), alice, charlie, AccessLevel::Manage);

    // ...but Charlie isn't a member.
    assert!(matches!(result, Err(GroupMembershipError::InactiveMember)));

    // Charlie promotes Bob...
    let result = promote(group_y, charlie, bob, AccessLevel::Read);

    // ...but Charlie isn't a member.
    assert!(matches!(result, Err(GroupMembershipError::InactiveActor)));
}

#[test]
fn group_crdt_demote_errors() {
    // "Unhappy path" test for demote functions.

    type AccessLevel = Access<String>;

    let alice = 0;
    let bob = 1;
    let charlie = 2;
    let daphne = 3;

    let initial_members = [
        (alice, AccessLevel::Manage),
        (bob, AccessLevel::Read),
        (charlie, AccessLevel::Read),
    ];

    // Alice creates a group with Alice, Bob and Charlie as members.
    let group_y = create(&initial_members).unwrap();

    // Daphne demotes Charlie...
    let result = demote(group_y.clone(), daphne, charlie, AccessLevel::Manage);

    // ...but Daphne isn't known to the group (has never been a member).
    assert!(matches!(
        result,
        Err(GroupMembershipError::UnrecognisedActor)
    ));

    // Bob demotes Charlie...
    let result = demote(group_y.clone(), bob, charlie, AccessLevel::Pull);

    // ...but Bob isn't a manager.
    assert!(matches!(
        result,
        Err(GroupMembershipError::InsufficientAccess)
    ));

    // Alice demotes Daphne...
    let result = demote(group_y.clone(), alice, daphne, AccessLevel::Read);

    // ...but Daphne isn't a member.
    assert!(matches!(
        result,
        Err(GroupMembershipError::UnrecognisedMember)
    ));

    // Alice removes Charlie.
    let group_y = remove(group_y, alice, charlie).unwrap();

    // Alice demotes Charlie...
    let result = demote(group_y.clone(), alice, charlie, AccessLevel::Pull);

    // ...but Charlie isn't a member.
    assert!(matches!(result, Err(GroupMembershipError::InactiveMember)));

    // Charlie demotes Bob...
    let result = demote(group_y, charlie, bob, AccessLevel::Read);

    // ...but Charlie isn't a member.
    assert!(matches!(result, Err(GroupMembershipError::InactiveActor)));
}
