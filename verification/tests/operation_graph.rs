use p2panda_auth::group::operation_graph::{GroupCrdt, GroupCrdtError, GroupCrdtState};
use p2panda_auth::group::resolver::StrongRemove;
use p2panda_auth::group::test_utils::orderer::TestOperation;
use p2panda_auth::group::{GroupAction, GroupControlMessage, GroupMember, GroupMembershipError};
use p2panda_auth::group::crdt::GroupCrdtInnerError;
use p2panda_auth::traits::{Orderer, Resolver};
use p2panda_auth::Access;

/// Operations of these tests are created by hand, so the orderer creates none.
struct NoOrderer;

impl Orderer<char, u32, GroupControlMessage<char, ()>> for NoOrderer {
    type State = ();
    type Operation = TestOperation<char, u32, ()>;
    type Error = ();

    fn next_message(
        _y: (),
        _payload: &GroupControlMessage<char, ()>,
    ) -> Result<((), TestOperation<char, u32, ()>), ()> {
        Err(())
    }

    fn queue(_y: (), _message: &TestOperation<char, u32, ()>) -> Result<(), ()> {
        Err(())
    }

    fn next_ready_message(_y: ()) -> Result<((), Option<TestOperation<char, u32, ()>>), ()> {
        Err(())
    }
}

type Op = TestOperation<char, u32, ()>;
type TestResolver = StrongRemove<char, (), Op>;
type TestGroup = GroupCrdt<char, (), TestResolver, NoOrderer>;
type TestGroupState = GroupCrdtState<char, (), NoOrderer>;

fn make_group_op(
    actor_id: char,
    operation_id: u32,
    group_id: char,
    action: GroupAction<char, ()>,
    dependencies: Vec<u32>,
) -> Op {
    TestOperation {
        id: operation_id,
        sender: actor_id,
        dependencies: dependencies.clone(),
        previous: dependencies,
        payload: GroupControlMessage { group_id, action },
    }
}

fn create_group(
    actor_id: char,
    operation_id: u32,
    group_id: char,
    initial_members: Vec<(GroupMember<char>, Access<()>)>,
    dependencies: Vec<u32>,
) -> Op {
    make_group_op(actor_id, operation_id, group_id, GroupAction::Create { initial_members }, dependencies)
}

fn add_member(
    actor_id: char,
    operation_id: u32,
    group_id: char,
    member: GroupMember<char>,
    access: Access<()>,
    dependencies: Vec<u32>,
) -> Op {
    make_group_op(actor_id, operation_id, group_id, GroupAction::Add { member, access }, dependencies)
}

fn remove_member(
    actor_id: char,
    operation_id: u32,
    group_id: char,
    member: GroupMember<char>,
    dependencies: Vec<u32>,
) -> Op {
    make_group_op(actor_id, operation_id, group_id, GroupAction::Remove { member }, dependencies)
}

fn promote_member(
    actor_id: char,
    operation_id: u32,
    group_id: char,
    member: GroupMember<char>,
    access: Access<()>,
    dependencies: Vec<u32>,
) -> Op {
    make_group_op(actor_id, operation_id, group_id, GroupAction::Promote { member, access }, dependencies)
}

fn demote_member(
    actor_id: char,
    operation_id: u32,
    group_id: char,
    member: GroupMember<char>,
    access: Access<()>,
    dependencies: Vec<u32>,
) -> Op {
    make_group_op(actor_id, operation_id, group_id, GroupAction::Demote { member, access }, dependencies)
}

/// Transitive members of a group, ordered by identifier.
fn sorted_members(y: &TestGroupState, group_id: char) -> Vec<(char, Access<()>)> {
    let mut members = y.members(group_id);
    members.sort_by(|a, b| a.0.cmp(&b.0));
    members
}

const G1: char = '1';
const G2: char = '2';
const G3: char = '3';
const G4: char = '4';

const ALICE: char = 'A';
const BOB: char = 'B';
const CLAIRE: char = 'C';
const DAN: char = 'D';
const EVE: char = 'E';

#[test]
fn group_operations() {
    let y = TestGroupState::new(());

    let op1 = create_group(
        ALICE,
        0,
        G1,
        vec![(GroupMember::Individual(ALICE), Access::manage())],
        vec![],
    );

    let y_i = TestGroup::process(y, op1.clone()).unwrap();
    let members = sorted_members(&y_i, G1);
    assert_eq!(members, vec![(ALICE, Access::manage())]);

    let op2 = add_member(
        ALICE,
        1,
        G1,
        GroupMember::Individual(BOB),
        Access::read(),
        vec![op1.id()],
    );

    let y_ii = TestGroup::process(y_i, op2.clone()).unwrap();
    let members = sorted_members(&y_ii, G1);
    assert_eq!(
        members,
        vec![(ALICE, Access::manage()), (BOB, Access::read())]
    );

    let op3 = add_member(
        ALICE,
        2,
        G1,
        GroupMember::Individual(CLAIRE),
        Access::write(),
        vec![op2.id()],
    );

    let y_iii = TestGroup::process(y_ii, op3.clone()).unwrap();
    let members = sorted_members(&y_iii, G1);
    assert_eq!(
        members,
        vec![
            (ALICE, Access::manage()),
            (BOB, Access::read()),
            (CLAIRE, Access::write())
        ]
    );

    let op4 = remove_member(ALICE, 3, G1, GroupMember::Individual(BOB), vec![op3.id()]);

    let y_iv = TestGroup::process(y_iii, op4.clone()).unwrap();
    let members = sorted_members(&y_iv, G1);
    assert_eq!(
        members,
        vec![(ALICE, Access::manage()), (CLAIRE, Access::write())]
    );
}

#[test]
fn concurrent_removal() {
    let y = TestGroupState::new(());

    let op1 = create_group(
        ALICE,
        0,
        G1,
        vec![(GroupMember::Individual(ALICE), Access::manage())],
        vec![],
    );

    let y_i = TestGroup::process(y, op1.clone()).unwrap();
    let members = sorted_members(&y_i, G1);
    assert_eq!(members, vec![(ALICE, Access::manage())]);

    let op2 = add_member(
        ALICE,
        1,
        G1,
        GroupMember::Individual(BOB),
        Access::manage(),
        vec![op1.id()],
    );

    let y_ii = TestGroup::process(y_i, op2.clone()).unwrap();
    let members = sorted_members(&y_ii, G1);
    assert_eq!(
        members,
        vec![(ALICE, Access::manage()), (BOB, Access::manage())]
    );

    let op3 = add_member(
        BOB,
        2,
        G1,
        GroupMember::Individual(CLAIRE),
        Access::write(),
        vec![op2.id()],
    );

    let y_iii = TestGroup::process(y_ii, op3.clone()).unwrap();
    let members = sorted_members(&y_iii, G1);
    assert_eq!(
        members,
        vec![
            (ALICE, Access::manage()),
            (BOB, Access::manage()),
            (CLAIRE, Access::write())
        ]
    );

    let op4 = remove_member(ALICE, 3, G1, GroupMember::Individual(BOB), vec![op2.id()]);

    let y_iv = TestGroup::process(y_iii, op4.clone()).unwrap();
    let members = sorted_members(&y_iv, G1);
    assert_eq!(members, vec![(ALICE, Access::manage())]);
}

#[test]
fn mutual_concurrent_removal() {
    let y = TestGroupState::new(());

    let op1 = create_group(
        ALICE,
        0,
        G1,
        vec![(GroupMember::Individual(ALICE), Access::manage())],
        vec![],
    );

    let y_i = TestGroup::process(y, op1.clone()).unwrap();
    let members = sorted_members(&y_i, G1);
    assert_eq!(members, vec![(ALICE, Access::manage())]);

    let op2 = add_member(
        ALICE,
        1,
        G1,
        GroupMember::Individual(BOB),
        Access::manage(),
        vec![op1.id()],
    );

    let y_ii = TestGroup::process(y_i, op2.clone()).unwrap();
    let members = sorted_members(&y_ii, G1);
    assert_eq!(
        members,
        vec![(ALICE, Access::manage()), (BOB, Access::manage())]
    );

    let op3 = add_member(
        BOB,
        2,
        G1,
        GroupMember::Individual(CLAIRE),
        Access::manage(),
        vec![op2.id()],
    );

    let y_iii = TestGroup::process(y_ii, op3.clone()).unwrap();
    let members = sorted_members(&y_iii, G1);
    assert_eq!(
        members,
        vec![
            (ALICE, Access::manage()),
            (BOB, Access::manage()),
            (CLAIRE, Access::manage())
        ]
    );

    let op4 = remove_member(BOB, 3, G1, GroupMember::Individual(CLAIRE), vec![op3.id()]);

    let y_iv = TestGroup::process(y_iii, op4.clone()).unwrap();
    let members = sorted_members(&y_iv, G1);
    assert_eq!(
        members,
        vec![(ALICE, Access::manage()), (BOB, Access::manage())]
    );

    let op5 = remove_member(CLAIRE, 4, G1, GroupMember::Individual(BOB), vec![op3.id()]);

    let y_v = TestGroup::process(y_iv, op5.clone()).unwrap();
    let members = sorted_members(&y_v, G1);
    assert_eq!(members, vec![(ALICE, Access::manage())]);
}

#[test]
fn mod_nested_groups() {
    let y = TestGroupState::new(());

    let op1 = create_group(
        ALICE,
        0,
        G1,
        vec![(GroupMember::Individual(ALICE), Access::manage())],
        vec![],
    );

    let y_i = TestGroup::process(y, op1.clone()).unwrap();
    let members = sorted_members(&y_i, G1);
    assert_eq!(members, vec![(ALICE, Access::manage())]);

    let op2 = create_group(
        BOB,
        1,
        G2,
        vec![(GroupMember::Individual(BOB), Access::manage())],
        vec![op1.id()],
    );

    let y_ii = TestGroup::process(y_i, op2.clone()).unwrap();
    let members = sorted_members(&y_ii, G2);
    assert_eq!(members, vec![(BOB, Access::manage())]);

    let op3 = add_member(
        ALICE,
        2,
        G1,
        GroupMember::Group(G2),
        Access::read(),
        vec![op2.id()],
    );

    let y_iii = TestGroup::process(y_ii, op3.clone()).unwrap();
    let members = sorted_members(&y_iii, G1);
    assert_eq!(
        members,
        vec![(ALICE, Access::manage()), (BOB, Access::read())]
    );
}

#[test]
fn error_on_unauthorized_add() {
    let y = TestGroupState::new(());

    let op1 = create_group(
        ALICE,
        0,
        G1,
        vec![(GroupMember::Individual(ALICE), Access::manage())],
        vec![],
    );

    let y_i = TestGroup::process(y, op1.clone()).unwrap();

    let op2 = add_member(
        ALICE,
        1,
        G1,
        GroupMember::Individual(BOB),
        Access::read(),
        vec![op1.id()],
    );

    let y_ii = TestGroup::process(y_i, op2.clone()).unwrap();

    let op3 = add_member(
        BOB,
        2,
        G1,
        GroupMember::Individual(CLAIRE),
        Access::read(),
        vec![op2.id()],
    );

    assert!(TestGroup::process(y_ii, op3.clone()).is_err());
}

#[test]
fn error_on_remove_non_member() {
    let y = TestGroupState::new(());

    let op1 = create_group(
        ALICE,
        0,
        G1,
        vec![(GroupMember::Individual(ALICE), Access::manage())],
        vec![],
    );

    let y_i = TestGroup::process(y, op1.clone()).unwrap();

    let op2 = remove_member(ALICE, 1, G1, GroupMember::Individual(BOB), vec![op1.id()]);

    assert!(TestGroup::process(y_i, op2.clone()).is_err());
}

#[test]
fn error_on_promote_non_member() {
    let y = TestGroupState::new(());

    let op1 = create_group(
        ALICE,
        0,
        G1,
        vec![(GroupMember::Individual(ALICE), Access::manage())],
        vec![],
    );

    let y_i = TestGroup::process(y, op1.clone()).unwrap();

    let op2 = promote_member(
        ALICE,
        1,
        G1,
        GroupMember::Individual(BOB),
        Access::manage(),
        vec![op1.id()],
    );

    assert!(TestGroup::process(y_i, op2.clone()).is_err());
}

#[test]
fn error_on_add_manager_group() {
    let y = TestGroupState::new(());

    let op1 = create_group(
        ALICE,
        0,
        G1,
        vec![(GroupMember::Individual(ALICE), Access::manage())],
        vec![],
    );

    let y_i = TestGroup::process(y, op1.clone()).unwrap();

    let op2 = add_member(
        ALICE,
        1,
        G1,
        GroupMember::Group(BOB),
        Access::manage(),
        vec![op1.id()],
    );

    assert!(TestGroup::process(y_i, op2.clone()).is_err());
}

#[test]
fn error_on_demote_non_member() {
    let y = TestGroupState::new(());

    let op1 = create_group(
        ALICE,
        0,
        G1,
        vec![(GroupMember::Individual(ALICE), Access::manage())],
        vec![],
    );

    let y_i = TestGroup::process(y, op1.clone()).unwrap();

    let op2 = demote_member(
        ALICE,
        1,
        G1,
        GroupMember::Individual(BOB),
        Access::read(),
        vec![op1.id()],
    );

    assert!(TestGroup::process(y_i, op2.clone()).is_err());
}

#[test]
fn error_on_add_existing_member() {
    let y = TestGroupState::new(());

    let op1 = create_group(
        ALICE,
        0,
        G1,
        vec![(GroupMember::Individual(ALICE), Access::manage())],
        vec![],
    );

    let y_i = TestGroup::process(y, op1.clone()).unwrap();

    let op2 = add_member(
        ALICE,
        1,
        G1,
        GroupMember::Individual(ALICE),
        Access::manage(),
        vec![op1.id()],
    );

    assert!(TestGroup::process(y_i, op2.clone()).is_err());
}

#[test]
fn error_on_remove_nonexistent_subgroup() {
    let y = TestGroupState::new(());

    let op1 = create_group(
        ALICE,
        0,
        G1,
        vec![(GroupMember::Individual(ALICE), Access::manage())],
        vec![],
    );
    let y_i = TestGroup::process(y, op1.clone()).unwrap();

    // Attempt to remove a subgroup that was never added
    let op2 = remove_member(ALICE, 1, G1, GroupMember::Group(G2), vec![op1.id()]);

    assert!(TestGroup::process(y_i, op2.clone()).is_err());
}

#[test]
fn deeply_nested_groups_with_removals() {
    let y = TestGroupState::new(());

    // Create G1
    let op1 = create_group(
        ALICE,
        0,
        G1,
        vec![(GroupMember::Individual(ALICE), Access::manage())],
        vec![],
    );
    let y_i = TestGroup::process(y, op1.clone()).unwrap();

    // Create G2
    let op2 = create_group(
        BOB,
        1,
        G2,
        vec![(GroupMember::Individual(BOB), Access::manage())],
        vec![op1.id()],
    );
    let y_ii = TestGroup::process(y_i, op2.clone()).unwrap();

    // Create G3
    let op3 = create_group(
        CLAIRE,
        2,
        G3,
        vec![(GroupMember::Individual(CLAIRE), Access::manage())],
        vec![op2.id()],
    );
    let y_iii = TestGroup::process(y_ii, op3.clone()).unwrap();

    // Create G4
    let op4 = create_group(
        DAN,
        3,
        G4,
        vec![(GroupMember::Individual(DAN), Access::write())],
        vec![op3.id()],
    );
    let y_iv = TestGroup::process(y_iii, op4.clone()).unwrap();

    // Nest G4 into G3
    let op5 = add_member(
        CLAIRE,
        4,
        G3,
        GroupMember::Group(G4),
        Access::read(),
        vec![op4.id()],
    );
    let y_v = TestGroup::process(y_iv, op5.clone()).unwrap();

    // Nest G3 into G2
    let op6 = add_member(
        BOB,
        5,
        G2,
        GroupMember::Group(G3),
        Access::write(),
        vec![op5.id()],
    );
    let y_vi = TestGroup::process(y_v, op6.clone()).unwrap();

    // Nest G2 into G1
    let op7 = add_member(
        ALICE,
        6,
        G1,
        GroupMember::Group(G2),
        Access::read(),
        vec![op6.id()],
    );
    let y_vii = TestGroup::process(y_vi, op7.clone()).unwrap();

    let members = sorted_members(&y_vii, G1);
    assert_eq!(
        members,
        vec![
            (ALICE, Access::manage()),
            (BOB, Access::read()),
            (CLAIRE, Access::read()),
            (DAN, Access::read()),
        ]
    );

    // Remove G3 from G2
    let op8 = remove_member(BOB, 7, G2, GroupMember::Group(G3), vec![op7.id()]);
    let y_viii = TestGroup::process(y_vii, op8.clone()).unwrap();

    let members_after_removal = sorted_members(&y_viii, G1);
    assert_eq!(
        members_after_removal,
        vec![(ALICE, Access::manage()), (BOB, Access::read()),]
    );
}

#[test]
fn nested_groups_with_concurrent_removal_and_promotion() {
    let y = TestGroupState::new(());

    // Create G1
    let op1 = create_group(
        ALICE,
        0,
        G1,
        vec![(GroupMember::Individual(ALICE), Access::manage())],
        vec![],
    );
    let y_i = TestGroup::process(y, op1.clone()).unwrap();

    // Create G2
    let op2 = create_group(
        BOB,
        1,
        G2,
        vec![(GroupMember::Individual(BOB), Access::manage())],
        vec![op1.id()],
    );
    let y_ii = TestGroup::process(y_i, op2.clone()).unwrap();

    // Create G3
    let op3 = create_group(
        CLAIRE,
        2,
        G3,
        vec![(GroupMember::Individual(CLAIRE), Access::manage())],
        vec![op2.id()],
    );
    let y_iii = TestGroup::process(y_ii, op3.clone()).unwrap();

    // G3 includes Dan
    let op4 = add_member(
        CLAIRE,
        3,
        G3,
        GroupMember::Individual(DAN),
        Access::write(),
        vec![op3.id()],
    );
    let y_iv = TestGroup::process(y_iii, op4.clone()).unwrap();

    // G2 includes G3
    let op5 = add_member(
        BOB,
        4,
        G2,
        GroupMember::Group(G3),
        Access::write(),
        vec![op4.id()],
    );
    let y_v = TestGroup::process(y_iv, op5.clone()).unwrap();

    // G2 includes Claire
    let op6 = add_member(
        BOB,
        5,
        G2,
        GroupMember::Individual(CLAIRE),
        Access::read(),
        vec![op5.id()],
    );
    let y_vi = TestGroup::process(y_v, op6.clone()).unwrap();

    // G1 includes G2
    let op7 = add_member(
        ALICE,
        6,
        G1,
        GroupMember::Group(G2),
        Access::read(),
        vec![op6.id()],
    );
    let y_vii = TestGroup::process(y_vi, op7.clone()).unwrap();

    let members = sorted_members(&y_vii, G1);
    assert_eq!(
        members,
        vec![
            (ALICE, Access::manage()),
            (BOB, Access::read()),
            (CLAIRE, Access::read()),
            (DAN, Access::read()),
        ]
    );

    // Concurrent ops from same parent state
    let op8_remove_g2 = remove_member(ALICE, 7, G1, GroupMember::Group(G2), vec![op7.id()]);
    let op9_promote_claire = promote_member(
        BOB,
        8,
        G2,
        GroupMember::Individual(CLAIRE),
        Access::manage(),
        vec![op7.id()],
    );

    // Remove first
    let y_after_remove = TestGroup::process(y_vii.clone(), op8_remove_g2.clone()).unwrap();
    let members = sorted_members(&y_after_remove, G1);
    assert_eq!(members, vec![(ALICE, Access::manage())]);

    // Then promote
    let y_after_both = TestGroup::process(y_after_remove, op9_promote_claire.clone()).unwrap();
    let g1_members = sorted_members(&y_after_both, G1);
    assert_eq!(g1_members, vec![(ALICE, Access::manage())]);

    let g2_members = sorted_members(&y_after_both, G2);
    assert_eq!(
        g2_members,
        vec![
            (BOB, Access::manage()),
            (CLAIRE, Access::manage()),
            (DAN, Access::write()),
        ]
    );
}

#[test]
fn concurrent_removal_ooo_processing() {
    let y = TestGroupState::new(());

    // Alice creates group
    let op1 = create_group(
        ALICE,
        0,
        G1,
        vec![(GroupMember::Individual(ALICE), Access::manage())],
        vec![],
    );
    let y_i = TestGroup::process(y, op1.clone()).unwrap();

    // Alice adds Bob as manager
    let op2 = add_member(
        ALICE,
        1,
        G1,
        GroupMember::Individual(BOB),
        Access::manage(),
        vec![op1.id()],
    );
    let y_ii = TestGroup::process(y_i, op2.clone()).unwrap();

    // Bob adds Claire (Read)
    let op3 = add_member(
        BOB,
        2,
        G1,
        GroupMember::Individual(CLAIRE),
        Access::read(),
        vec![op2.id()],
    );

    // Alice removes Bob
    let op4 = remove_member(ALICE, 3, G1, GroupMember::Individual(BOB), vec![op2.id()]);

    // Apply in Order A: Add Claire, then Remove Bob
    let y_iii_a = TestGroup::process(y_ii.clone(), op3.clone()).unwrap();
    let y_iv_a = TestGroup::process(y_iii_a, op4.clone()).unwrap();

    // Apply in Order B: Remove Bob, then Add Claire
    let y_iii_b = TestGroup::process(y_ii.clone(), op4.clone()).unwrap();
    let y_iv_b = TestGroup::process(y_iii_b, op3.clone()).unwrap();

    for (_, y) in [y_iv_a, y_iv_b].into_iter().enumerate() {
        let members = sorted_members(&y, G1);
        assert_eq!(members, vec![(ALICE, Access::manage())],);
    }
}

#[test]
fn concurrent_add_with_insufficient_access() {
    let y0 = TestGroupState::new(());

    // Alice creates the group
    let op1 = create_group(
        ALICE,
        0,
        G1,
        vec![(GroupMember::Individual(ALICE), Access::manage())],
        vec![],
    );
    let y1 = TestGroup::process(y0, op1.clone()).unwrap();

    // Alice adds Bob as manager
    let op2 = add_member(
        ALICE,
        1,
        G1,
        GroupMember::Individual(BOB),
        Access::manage(),
        vec![op1.id()],
    );

    // Bob concurrently tries to add Eve
    let op3 = add_member(
        BOB,
        2,
        G1,
        GroupMember::Individual(EVE),
        Access::read(),
        vec![op1.id()],
    );

    // Case 1: Apply Bob's operation first - should fail
    let result = TestGroup::process(y1.clone(), op3.clone());
    assert!(matches!(
        result,
        Err(GroupCrdtError::StateChangeError(
            _,
            GroupMembershipError::UnrecognisedActor(_)
        ))
    ));

    // Case 2: Apply Alice’s op first, then Bob's - still must fail
    let y1_alt = TestGroup::process(y1, op2.clone()).unwrap();
    let result = TestGroup::process(y1_alt.clone(), op3.clone());
    assert!(matches!(
        result,
        Err(GroupCrdtError::StateChangeError(
            _,
            GroupMembershipError::UnrecognisedActor(_)
        ))
    ));

    // Confirm final state: Bob is a member, Eve is not
    let members = sorted_members(&y1_alt, G1);
    assert_eq!(
        members,
        vec![(ALICE, Access::manage()), (BOB, Access::manage())]
    );
}

#[test]
fn add_group_with_concurrent_change() {
    let y = TestGroupState::new(());

    // Create Group 1 with Alice as manager
    let op1 = create_group(
        ALICE,
        0,
        G1,
        vec![(GroupMember::Individual(ALICE), Access::manage())],
        vec![],
    );
    let y_i = TestGroup::process(y, op1.clone()).unwrap();

    // Create Group 2 with Bob as manager
    let op2 = create_group(
        BOB,
        1,
        G2,
        vec![(GroupMember::Individual(BOB), Access::manage())],
        vec![op1.id()],
    );
    let y_ii = TestGroup::process(y_i, op2.clone()).unwrap();

    // Alice adds Group 2 to Group 1
    let op3a = add_member(
        ALICE,
        2,
        G1,
        GroupMember::Group(G2),
        Access::read(),
        vec![op2.id()],
    );

    // Concurrently, Bob adds Claire to Group 2
    let op3b = add_member(
        BOB,
        3,
        G2,
        GroupMember::Individual(CLAIRE),
        Access::write(),
        vec![op2.id()],
    );

    // Order 1: Add group, then add member
    let y_iii = TestGroup::process(y_ii.clone(), op3a.clone()).unwrap();
    let y_iv = TestGroup::process(y_iii, op3b.clone()).unwrap();

    let members_1 = sorted_members(&y_iv, G1);
    assert_eq!(
        members_1,
        vec![
            (ALICE, Access::manage()),
            (BOB, Access::read()),
            (CLAIRE, Access::read())
        ]
    );

    // Order 2: Add member, then add group
    let y_iii_alt = TestGroup::process(y_ii.clone(), op3b.clone()).unwrap();
    let y_iv_alt = TestGroup::process(y_iii_alt, op3a.clone()).unwrap();

    let members_1 = sorted_members(&y_iv_alt, G1);
    assert_eq!(
        members_1,
        vec![
            (ALICE, Access::manage()),
            (BOB, Access::read()),
            (CLAIRE, Access::read())
        ]
    );
}

#[test]
fn nested_group_cycle_error() {
    let y = TestGroupState::new(());

    // Create group G1 with ALICE as manager
    let op1 = create_group(
        ALICE,
        0,
        G1,
        vec![(GroupMember::Individual(ALICE), Access::manage())],
        vec![],
    );
    let y_i = TestGroup::process(y, op1.clone()).unwrap();

    // Create group G2 with BOB as manager, with G1 as a member
    let op2 = create_group(
        BOB,
        1,
        G2,
        vec![
            (GroupMember::Individual(BOB), Access::manage()),
            (GroupMember::Group(G1), Access::read()),
        ],
        vec![op1.id()],
    );
    let y_ii = TestGroup::process(y_i, op2.clone()).unwrap();

    // Attempt to add G2 as a member of G1, which creates a cycle (G1 -> G2 -> G1)
    let op3 = add_member(
        ALICE,
        2,
        G1,
        GroupMember::Group(G2),
        Access::read(),
        vec![op2.id()],
    );

    // This should fail due to cycle detection
    let result = TestGroup::process(y_ii, op3.clone());
    assert!(
        result.is_err(),
        "Creating a group cycle should cause an error"
    );

}

#[test]
fn root_members_lists_direct_members() {
    let y = TestGroupState::new(());
    let op1 = create_group(ALICE, 0, G1, vec![(GroupMember::Individual(ALICE), Access::manage())], vec![]);
    let op2 = create_group(BOB, 1, G2, vec![(GroupMember::Individual(BOB), Access::manage())], vec![op1.id()]);
    let op3 = add_member(ALICE, 2, G1, GroupMember::Group(G2), Access::read(), vec![op2.id()]);
    let y = TestGroup::process(y, op1).unwrap();
    let y = TestGroup::process(y, op2).unwrap();
    let y = TestGroup::process(y, op3).unwrap();

    let mut root = y.root_members(G1);
    root.sort_by(|a, b| a.0.cmp(&b.0));
    assert_eq!(
        root,
        vec![
            (GroupMember::Individual(ALICE), Access::manage()),
            (GroupMember::Group(G2), Access::read()),
        ]
    );
    assert!(y.root_members(G3).is_empty());
    assert!(y.has_group(G1));
    assert!(y.has_group(G2));
    assert!(!y.has_group(G3));
}

#[test]
fn duplicate_operations_are_refused() {
    let y = TestGroupState::new(());
    let op1 = create_group(ALICE, 0, G1, vec![(GroupMember::Individual(ALICE), Access::manage())], vec![]);
    let y = TestGroup::process(y, op1.clone()).unwrap();
    assert!(matches!(
        TestGroup::process(y, op1),
        Err(GroupCrdtError::DuplicateOperation(0, G1))
    ));
}

#[test]
fn manager_groups_are_refused() {
    let y = TestGroupState::new(());
    let op1 = create_group(ALICE, 0, G1, vec![(GroupMember::Individual(ALICE), Access::manage())], vec![]);
    let op2 = add_member(ALICE, 1, G1, GroupMember::Group(G2), Access::manage(), vec![op1.id()]);
    let y = TestGroup::process(y, op1).unwrap();
    assert!(matches!(
        TestGroup::process(y, op2),
        Err(GroupCrdtError::ManagerGroupsNotAllowed(G2))
    ));
}

#[test]
fn group_cycles_are_reported() {
    let y = TestGroupState::new(());
    let op1 = create_group(ALICE, 0, G1, vec![(GroupMember::Individual(ALICE), Access::manage())], vec![]);
    let op2 = create_group(
        BOB,
        1,
        G2,
        vec![
            (GroupMember::Individual(BOB), Access::manage()),
            (GroupMember::Group(G1), Access::read()),
        ],
        vec![op1.id()],
    );
    let op3 = add_member(ALICE, 2, G1, GroupMember::Group(G2), Access::read(), vec![op2.id()]);
    let y = TestGroup::process(y, op1).unwrap();
    let y = TestGroup::process(y, op2).unwrap();
    assert!(matches!(
        TestGroup::process(y, op3),
        Err(GroupCrdtError::GroupCycle(G1, G2, 2))
    ));
}

#[test]
fn refused_changes_name_the_reason() {
    let y = TestGroupState::new(());
    let op1 = create_group(ALICE, 0, G1, vec![(GroupMember::Individual(ALICE), Access::manage())], vec![]);
    let op2 = remove_member(ALICE, 1, G1, GroupMember::Individual(BOB), vec![op1.id()]);
    let y = TestGroup::process(y, op1).unwrap();
    assert!(matches!(
        TestGroup::process(y, op2),
        Err(GroupCrdtError::StateChangeError(
            1,
            GroupMembershipError::UnrecognisedMember(GroupMember::Individual(BOB))
        ))
    ));
}

#[test]
fn prepare_reports_orderer_errors() {
    let y = TestGroupState::new(());
    let message = GroupControlMessage {
        group_id: G1,
        action: GroupAction::Create {
            initial_members: vec![(GroupMember::Individual(ALICE), Access::manage())],
        },
    };
    assert!(matches!(TestGroup::prepare(y, &message), Err(GroupCrdtError::Orderer(()))));
}

#[test]
fn recorded_state_needs_known_dependencies() {
    let y = TestGroupState::new(());
    let op1 = create_group(ALICE, 0, G1, vec![(GroupMember::Individual(ALICE), Access::manage())], vec![]);
    let y = TestGroup::process(y, op1).unwrap();
    let op2 = add_member(ALICE, 1, G1, GroupMember::Individual(BOB), Access::read(), vec![7]);
    let result: Result<_, GroupCrdtError<char, u32, (), ()>> = y.inner.record_operation(op2);
    assert!(matches!(
        result,
        Err(GroupCrdtError::Inner(GroupCrdtInnerError::StatesNotFound(ref ops))) if ops == &vec![7]
    ));
}

#[test]
fn rebuild_is_required_for_concurrent_operations() {
    let y = TestGroupState::new(());
    let op1 = create_group(ALICE, 0, G1, vec![(GroupMember::Individual(ALICE), Access::manage())], vec![]);
    let op2 = add_member(ALICE, 1, G1, GroupMember::Individual(BOB), Access::manage(), vec![op1.id()]);
    let op3 = add_member(BOB, 2, G1, GroupMember::Individual(CLAIRE), Access::read(), vec![op2.id()]);
    let op4 = remove_member(ALICE, 3, G1, GroupMember::Individual(BOB), vec![op2.id()]);
    let y = TestGroup::process(y, op1).unwrap();
    let y = TestGroup::process(y, op2).unwrap();
    assert_eq!(TestResolver::rebuild_required(&y.inner, &op3), Ok(false));
    let y = TestGroup::process(y, op3).unwrap();
    assert_eq!(y.inner.heads(), vec![2]);
    assert_eq!(TestResolver::rebuild_required(&y.inner, &op4), Ok(true));
}

#[test]
fn peers_converge_whatever_the_order() {
    let y = TestGroupState::new(());
    let op1 = create_group(
        ALICE,
        0,
        G1,
        vec![(GroupMember::Individual(ALICE), Access::manage())],
        vec![],
    );
    let op2 = add_member(ALICE, 1, G1, GroupMember::Individual(BOB), Access::manage(), vec![0]);
    let y = TestGroup::process(y, op1).unwrap();
    let y = TestGroup::process(y, op2).unwrap();

    // Three concurrent operations: a mutual removal and an addition by one of the removed.
    let op3 = remove_member(ALICE, 2, G1, GroupMember::Individual(BOB), vec![1]);
    let op4 = remove_member(BOB, 3, G1, GroupMember::Individual(ALICE), vec![1]);
    let op5 = add_member(ALICE, 4, G1, GroupMember::Individual(CLAIRE), Access::read(), vec![1]);

    let orders = [
        vec![op3.clone(), op4.clone(), op5.clone()],
        vec![op5.clone(), op4.clone(), op3.clone()],
        vec![op4.clone(), op5.clone(), op3.clone()],
    ];
    let mut results = Vec::new();
    for order in orders.iter() {
        let mut peer = y.clone();
        for operation in order.iter() {
            peer = TestGroup::process(peer, operation.clone()).unwrap();
        }
        results.push(sorted_members(&peer, G1));
    }
    assert_eq!(results[0], results[1]);
    assert_eq!(results[0], results[2]);
    // Both managers removed each other; the concurrent addition by a removed manager is ignored.
    assert_eq!(results[0], vec![]);
}

#[test]
fn apply_resolved_records_or_leaves_states_to_the_rebuild() {
    let op1 = create_group(
        ALICE,
        0,
        G1,
        vec![(GroupMember::Individual(ALICE), Access::manage())],
        vec![],
    );
    let y = TestGroup::process(TestGroupState::new(()), op1).unwrap();
    let op2 = add_member(ALICE, 1, G1, GroupMember::Individual(BOB), Access::read(), vec![0]);

    // Without a rebuild the state after the operation is recorded.
    let recorded = TestGroup::apply_resolved(y.clone(), op2.clone(), false).unwrap();
    assert_eq!(recorded.inner.operations.len(), 2);
    let groups = recorded.inner.state_at(&[1]).unwrap();
    let mut members = groups.get(&G1).unwrap().members();
    members.sort();
    assert_eq!(members, vec![GroupMember::Individual(ALICE), GroupMember::Individual(BOB)]);

    // With a rebuild the operation is added, and its state is left to the resolver.
    let added = TestGroup::apply_resolved(y.clone(), op2.clone(), true).unwrap();
    assert_eq!(added.inner.operations.len(), 2);
    let mut heads = added.inner.heads();
    heads.sort();
    assert_eq!(heads, vec![1]);
    assert!(added.inner.state_at(&[1]).is_err());
    let rebuilt = TestResolver::process(added.inner).unwrap();
    assert_eq!(
        sorted_members(&TestGroupState { inner: rebuilt, orderer_y: () }, G1),
        vec![(ALICE, Access::manage()), (BOB, Access::read())]
    );

    // Refusals come before either.
    let unauthorized = add_member(BOB, 2, G1, GroupMember::Individual(CLAIRE), Access::read(), vec![1]);
    assert!(matches!(
        TestGroup::apply_resolved(recorded, unauthorized, false),
        Err(GroupCrdtError::StateChangeError(2, GroupMembershipError::InsufficientAccess(GroupMember::Individual(BOB))))
    ));
    assert!(matches!(
        TestGroup::apply_resolved(y, op2.clone(), false).and_then(|y| TestGroup::apply_resolved(y, op2, true)),
        Err(GroupCrdtError::DuplicateOperation(1, G1))
    ));
}

#[test]
fn operations_are_checked_against_the_rebuilt_state() {
    let op1 = create_group(
        ALICE,
        0,
        G1,
        vec![(GroupMember::Individual(ALICE), Access::manage()), (GroupMember::Individual(BOB), Access::read())],
        vec![],
    );
    let y = TestGroup::process(TestGroupState::new(()), op1).unwrap();
    let rebuilt = y.inner.clone();

    let by_reader = add_member(BOB, 1, G1, GroupMember::Individual(CLAIRE), Access::read(), vec![0]);
    assert!(matches!(
        TestGroup::check_against_rebuilt(y.clone(), &by_reader, &rebuilt),
        Err(GroupCrdtError::StateChangeError(1, GroupMembershipError::InsufficientAccess(GroupMember::Individual(BOB))))
    ));

    let by_manager = add_member(ALICE, 1, G1, GroupMember::Individual(CLAIRE), Access::read(), vec![0]);
    let unchanged = TestGroup::check_against_rebuilt(y.clone(), &by_manager, &rebuilt).unwrap();
    assert_eq!(unchanged.inner.operations.len(), 1);
    assert_eq!(sorted_members(&unchanged, G1), vec![(ALICE, Access::manage()), (BOB, Access::read())]);

    // A promotion of a group to Manage is refused like an addition.
    let op2 = create_group(ALICE, 2, G2, vec![(GroupMember::Individual(ALICE), Access::manage())], vec![0]);
    let op3 = add_member(ALICE, 3, G1, GroupMember::Group(G2), Access::read(), vec![2]);
    let y = TestGroup::process(TestGroup::process(y, op2).unwrap(), op3).unwrap();
    let promote = promote_member(ALICE, 4, G1, GroupMember::Group(G2), Access::manage(), vec![3]);
    assert!(matches!(TestGroup::process(y, promote), Err(GroupCrdtError::ManagerGroupsNotAllowed(G2))));
}
