use p2panda_auth::group::crdt::{
    apply_action, apply_remove_unsafe, GroupCrdtInnerError, GroupStates, OperationStates,
    StateChangeResult,
};
use p2panda_auth::group::{GroupAction, GroupMember, GroupMembershipError};
use p2panda_auth::Access;

type Groups = GroupStates<char>;

const GROUP: char = 'G';
const ALICE: char = 'a';
const BOB: char = 'b';
const CLAIRE: char = 'c';

fn created() -> Groups {
    let action = GroupAction::Create {
        initial_members: vec![
            (GroupMember::Individual(ALICE), Access::manage()),
            (GroupMember::Individual(BOB), Access::read()),
        ],
    };
    match apply_action(Groups::new(), GROUP, 1u32, ALICE, &action, &[]) {
        StateChangeResult::Applied { state } => state,
        _ => panic!("create is always applied"),
    }
}

fn members(groups: &Groups) -> Vec<GroupMember<char>> {
    let mut m = groups.get(&GROUP).unwrap().members();
    m.sort();
    m
}

#[test]
fn create_and_add() {
    let groups = created();
    assert_eq!(
        members(&groups),
        vec![GroupMember::Individual(ALICE), GroupMember::Individual(BOB)]
    );

    let action = GroupAction::Add {
        member: GroupMember::Individual(CLAIRE),
        access: Access::write(),
    };
    let result = apply_action(groups, GROUP, 2u32, ALICE, &action, &[]);
    assert!(matches!(result, StateChangeResult::Applied { .. }));
    let groups = match result {
        StateChangeResult::Applied { state } => state,
        _ => unreachable!(),
    };
    assert_eq!(members(&groups).len(), 3);
    let claire = groups
        .get(&GROUP)
        .unwrap()
        .get(&GroupMember::Individual(CLAIRE))
        .unwrap();
    assert!(claire.is_writer());
}

#[test]
fn refused_action_reports_error_and_keeps_state() {
    let groups = created();
    // Bob only has read access and cannot add members.
    let action = GroupAction::Add {
        member: GroupMember::Individual(CLAIRE),
        access: Access::read(),
    };
    let result = apply_action(groups, GROUP, 2u32, BOB, &action, &[]);
    match &result {
        StateChangeResult::Error { error, .. } => assert_eq!(
            *error,
            GroupMembershipError::InsufficientAccess(GroupMember::Individual(BOB))
        ),
        _ => panic!("expected an error"),
    }
    assert_eq!(members(result.state()).len(), 2);

    // Removing someone who is not a member.
    let groups = created();
    let action = GroupAction::Remove {
        member: GroupMember::Individual(CLAIRE),
    };
    let result = apply_action(groups, GROUP, 3u32, ALICE, &action, &[]);
    match result {
        StateChangeResult::Error { error, .. } => assert_eq!(
            error,
            GroupMembershipError::UnrecognisedMember(GroupMember::Individual(CLAIRE))
        ),
        _ => panic!("expected an error"),
    }
}

#[test]
fn filtered_action_is_not_applied() {
    let groups = created();
    let action = GroupAction::Remove {
        member: GroupMember::Individual(BOB),
    };
    let result = apply_action(groups, GROUP, 5u32, ALICE, &action, &[4u32, 5u32]);
    assert!(matches!(result, StateChangeResult::Filtered { .. }));
    assert_eq!(members(result.state()).len(), 2);
}

#[test]
fn promote_and_demote_through_actions() {
    let groups = created();
    let action = GroupAction::Promote {
        member: GroupMember::Individual(BOB),
        access: Access::manage(),
    };
    let groups = match apply_action(groups, GROUP, 2u32, ALICE, &action, &[]) {
        StateChangeResult::Applied { state } => state,
        _ => panic!("promotion is applied"),
    };
    let bob = groups.get(&GROUP).unwrap().get(&GroupMember::Individual(BOB)).unwrap();
    assert!(bob.is_manager());
    assert_eq!(bob.access_counter, 1);

    let action = GroupAction::Demote {
        member: GroupMember::Individual(BOB),
        access: Access::pull(),
    };
    let groups = match apply_action(groups, GROUP, 3u32, ALICE, &action, &[]) {
        StateChangeResult::Applied { state } => state,
        _ => panic!("demotion is applied"),
    };
    let bob = groups.get(&GROUP).unwrap().get(&GroupMember::Individual(BOB)).unwrap();
    assert!(bob.is_puller());
    assert_eq!(bob.access_counter, 2);
}

#[test]
fn remove_without_validation() {
    let groups = created();
    let groups = apply_remove_unsafe(groups, GROUP, GroupMember::Individual(ALICE));
    let alice = groups
        .get(&GROUP)
        .unwrap()
        .get(&GroupMember::Individual(ALICE))
        .unwrap();
    assert_eq!(alice.member_counter, 2);
    assert!(alice.is_manager());
    assert_eq!(members(&groups), vec![GroupMember::Individual(BOB)]);

    // Removing again changes nothing.
    let groups = apply_remove_unsafe(groups, GROUP, GroupMember::Individual(ALICE));
    let alice = groups
        .get(&GROUP)
        .unwrap()
        .get(&GroupMember::Individual(ALICE))
        .unwrap();
    assert_eq!(alice.member_counter, 2);
}

fn with_subgroup(groups: Groups, parent: char, child: char, op: u32) -> Groups {
    let action = GroupAction::Add {
        member: GroupMember::Group(child),
        access: Access::read(),
    };
    match apply_action(groups, parent, op, ALICE, &action, &[]) {
        StateChangeResult::Applied { state } => state,
        _ => panic!("adding a sub-group is applied"),
    }
}

fn create(groups: Groups, group_id: char, op: u32) -> Groups {
    let action = GroupAction::Create {
        initial_members: vec![(GroupMember::Individual(ALICE), Access::manage())],
    };
    match apply_action(groups, group_id, op, ALICE, &action, &[]) {
        StateChangeResult::Applied { state } => state,
        _ => panic!("create is always applied"),
    }
}

#[test]
fn nested_group_cycles_are_detected() {
    // Groups A ⊃ B ⊃ C.
    let groups = create(create(create(Groups::new(), 'A', 1), 'B', 2), 'C', 3);
    let groups = with_subgroup(groups, 'A', 'B', 4);
    let groups = with_subgroup(groups, 'B', 'C', 5);

    assert_eq!(groups.subgroups(&'A'), vec!['B']);
    assert!(groups.subgroups(&'C').is_empty());

    let add = |child: char| GroupAction::Add {
        member: GroupMember::Group(child),
        access: Access::read(),
    };

    // Adding A to C closes the cycle A ⊃ B ⊃ C ⊃ A.
    assert!(groups.would_create_cycle('C', &add('A')));
    // Adding a group to itself is a cycle.
    assert!(groups.would_create_cycle('C', &add('C')));
    // Adding C to A again is no cycle.
    assert!(!groups.would_create_cycle('A', &add('C')));
    // Adding an individual never is.
    let add_individual = GroupAction::Add {
        member: GroupMember::Individual('A'),
        access: Access::read(),
    };
    assert!(!groups.would_create_cycle('C', &add_individual));

    // Once B is removed from A, adding A to C is fine.
    let remove = GroupAction::Remove {
        member: GroupMember::Group('B'),
    };
    let groups = match apply_action(groups, 'A', 6u32, ALICE, &remove, &[]) {
        StateChangeResult::Applied { state } => state,
        _ => panic!("removal is applied"),
    };
    assert!(!groups.would_create_cycle('C', &add('A')));
}

#[test]
fn states_at_operations_are_merged() {
    let base = created();
    let states = OperationStates::new().insert(1, base.clone());

    // Two concurrent operations after 1: one adds Claire, one removes Bob.
    let add = GroupAction::Add {
        member: GroupMember::Individual(CLAIRE),
        access: Access::read(),
    };
    let after_add = match apply_action(base.clone(), GROUP, 2u32, ALICE, &add, &[]) {
        StateChangeResult::Applied { state } => state,
        _ => panic!("add is applied"),
    };
    let remove = GroupAction::Remove {
        member: GroupMember::Individual(BOB),
    };
    let after_remove = match apply_action(base, GROUP, 3u32, ALICE, &remove, &[]) {
        StateChangeResult::Applied { state } => state,
        _ => panic!("remove is applied"),
    };
    let states = states.insert(2, after_add).insert(3, after_remove);

    // The state at both tips holds both changes.
    let merged = states.state_at(&[2, 3]).unwrap();
    assert_eq!(
        members(&merged),
        vec![GroupMember::Individual(ALICE), GroupMember::Individual(CLAIRE)]
    );

    // The state at a single operation is its own state.
    let at_one = states.state_at(&[1]).unwrap();
    assert_eq!(members(&at_one).len(), 2);

    // No operations, no groups.
    assert!(states.state_at(&[]).unwrap().get(&GROUP).is_none());

    // Unknown operations are reported.
    assert_eq!(
        states.state_at(&[2, 9]).unwrap_err(),
        GroupCrdtInnerError::StatesNotFound(vec![2, 9])
    );
}
