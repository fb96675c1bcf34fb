use p2panda_auth::group::operation_graph::{GroupCrdt, GroupCrdtState};
use p2panda_auth::group::resolver::StrongRemove;
use p2panda_auth::group::test_utils::orderer::TestOperation;
use p2panda_auth::group::{GroupAction, GroupControlMessage, GroupMember};
use p2panda_auth::traits::Orderer;
use p2panda_auth::Access;

/// Operations of these tests are created by hand, so the orderer creates none.
struct NoOrderer;

impl Orderer<char, u32, GroupControlMessage<char, ()>> for NoOrderer {
    type State = ();
    type Operation = TestOperation<char, u32, ()>;
    type Error = ();

    fn next_message(
        _y: (),
        _payload: &GroupControlMessage<char, ()>,
    ) -> Result<((), TestOperation<char, u32, ()>), ()> {
        Err(())
    }

    fn queue(_y: (), _message: &TestOperation<char, u32, ()>) -> Result<(), ()> {
        Err(())
    }

    fn next_ready_message(_y: ()) -> Result<((), Option<TestOperation<char, u32, ()>>), ()> {
        Err(())
    }
}

type Op = TestOperation<char, u32, ()>;
type TestResolver = StrongRemove<char, (), Op>;
type TestGroup = GroupCrdt<char, (), TestResolver, NoOrderer>;
type TestGroupState = GroupCrdtState<char, (), NoOrderer>;

fn make_group_op(
    actor_id: char,
    operation_id: u32,
    group_id: char,
    action: GroupAction<char, ()>,
    dependencies: Vec<u32>,
) -> Op {
    TestOperation {
        id: operation_id,
        sender: actor_id,
        dependencies: dependencies.clone(),
        previous: dependencies,
        payload: GroupControlMessage { group_id, action },
    }
}

fn create_group(
    actor_id: char,
    operation_id: u32,
    group_id: char,
    initial_members: Vec<(GroupMember<char>, Access<()>)>,
    dependencies: Vec<u32>,
) -> Op {
    make_group_op(actor_id, operation_id, group_id, GroupAction::Create { initial_members }, dependencies)
}

fn add_member(
    actor_id: char,
    operation_id: u32,
    group_id: char,
    member: GroupMember<char>,
    access: Access<()>,
    dependencies: Vec<u32>,
) -> Op {
    make_group_op(actor_id, operation_id, group_id, GroupAction::Add { member, access }, dependencies)
}

fn remove_member(
    actor_id: char,
    operation_id: u32,
    group_id: char,
    member: GroupMember<char>,
    dependencies: Vec<u32>,
) -> Op {
    make_group_op(actor_id, operation_id, group_id, GroupAction::Remove { member }, dependencies)
}

fn demote_member(
    actor_id: char,
    operation_id: u32,
    group_id: char,
    member: GroupMember<char>,
    access: Access<()>,
    dependencies: Vec<u32>,
) -> Op {
    make_group_op(actor_id, operation_id, group_id, GroupAction::Demote { member, access }, dependencies)
}

/// Process the operations in order.
fn sync(y: TestGroupState, ops: &[Op]) -> TestGroupState {
    ops.iter()
        .fold(y, |g, op| TestGroup::process(g, op.clone()).unwrap())
}

/// The transitive members of a group are the expected ones.
fn assert_members(y: &TestGroupState, group_id: char, expected: &[(char, Access<()>)]) {
    let actual = sorted_members(y, group_id);
    let mut expected = expected.to_vec();
    expected.sort_by(|a, b| a.0.cmp(&b.0));
    assert_eq!(actual, expected);
}

/// Transitive members of a group, ordered by identifier.
fn sorted_members(y: &TestGroupState, group_id: char) -> Vec<(char, Access<()>)> {
    let mut members = y.members(group_id);
    members.sort_by(|a, b| a.0.cmp(&b.0));
    members
}

const G0: char = '0';
const G1: char = '1';

const ALICE: char = 'A';
const BOB: char = 'B';
const CLAIRE: char = 'C';
const DAVE: char = 'D';
const EVE: char = 'E';
const FRANK: char = 'F';
const GRACE: char = 'G';

#[test]
fn mutual_removal_filter() {
    //       0
    //     /   \
    //    1     2
    //
    // 0: Alice creates a group (Alice, Bob, Claire manage)
    // 1: Alice removes Bob
    // 2: Bob removes Alice
    //
    // Both removals should be processed, Claire remains

    let y = TestGroupState::new(());

    // 0: Alice creates a group
    let op0 = create_group(
        ALICE,
        0,
        G1,
        vec![
            (GroupMember::Individual(ALICE), Access::manage()),
            (GroupMember::Individual(BOB), Access::manage()),
            (GroupMember::Individual(CLAIRE), Access::manage()),
        ],
        vec![],
    );

    // 1: Alice removes Bob
    let op1 = remove_member(ALICE, 1, G1, GroupMember::Individual(BOB), vec![op0.id()]);

    // 2: Bob removes Alice
    let op2 = remove_member(BOB, 2, G1, GroupMember::Individual(ALICE), vec![op0.id()]);

    let expected = vec![(CLAIRE, Access::manage())];
    let y_i = sync(y, &[op0, op1, op2]);
    assert_members(&y_i, G1, &expected);

    assert_eq!(y_i.inner.ignore.len(), 2);
    assert_eq!(y_i.inner.mutual_removes.len(), 2);
}

#[test]
fn mutual_remove_cycles_detected() {
    //      0
    //    / | \
    //   1  2  3
    //
    // 0: Alice creates a group with Alice, Bob, Claire
    // 1: Alice removes Bob
    // 2: Bob removes Claire
    // 3: Claire removes Alice
    //
    // All three removals form a cycle
    // Final members: []

    let y = TestGroupState::new(());

    // 0: Alice creates a group
    let op0 = create_group(
        ALICE,
        0,
        G1,
        vec![
            (GroupMember::Individual(ALICE), Access::manage()),
            (GroupMember::Individual(BOB), Access::manage()),
            (GroupMember::Individual(CLAIRE), Access::manage()),
        ],
        vec![],
    );

    // 1: Alice removes Bob
    let op1 = remove_member(ALICE, 1, G1, GroupMember::Individual(BOB), vec![op0.id()]);

    // 2: Bob removes Claire
    let op2 = remove_member(BOB, 2, G1, GroupMember::Individual(CLAIRE), vec![op0.id()]);

    // 3: Claire removes Alice
    let op3 = remove_member(
        CLAIRE,
        3,
        G1,
        GroupMember::Individual(ALICE),
        vec![op0.id()],
    );

    let expected: Vec<(char, Access<()>)> = vec![];

    let y_i = sync(y, &[op0, op1, op2, op3]);
    assert_members(&y_i, G1, &expected);

    assert_eq!(y_i.inner.ignore.len(), 3);
    assert_eq!(y_i.inner.mutual_removes.len(), 3);
}

#[test]
fn mutual_remove_cycle_with_delegation() {
    //      0
    //    / | \
    //   1  2  3
    //         |
    //         4
    //
    // 0: Alice creates a group with Alice, Bob, Claire
    // 1: Alice removes Bob
    // 2: Bob removes Claire
    // 3: Claire adds Dave
    // 4: Dave removes Alice
    //
    // The removals and add forms a transitive cycle
    // Final members: []

    let y = TestGroupState::new(());

    // 0: Alice creates a group
    let op0 = create_group(
        ALICE,
        0,
        G1,
        vec![
            (GroupMember::Individual(ALICE), Access::manage()),
            (GroupMember::Individual(BOB), Access::manage()),
            (GroupMember::Individual(CLAIRE), Access::manage()),
        ],
        vec![],
    );

    // 1: Alice removes Bob
    let op1 = remove_member(ALICE, 1, G1, GroupMember::Individual(BOB), vec![op0.id()]);

    // 2: Bob removes Claire
    let op2 = remove_member(BOB, 2, G1, GroupMember::Individual(CLAIRE), vec![op0.id()]);

    // 3: Claire adds Dave
    let op3 = add_member(
        CLAIRE,
        3,
        G1,
        GroupMember::Individual(DAVE),
        Access::manage(),
        vec![op0.id()],
    );

    // 4: Dave removes Alice
    let op4 = remove_member(DAVE, 4, G1, GroupMember::Individual(ALICE), vec![op3.id()]);

    let expected: Vec<(char, Access<()>)> = vec![]; // No members left

    let y_i = sync(y, &[op0, op1, op2, op3, op4]);
    assert_members(&y_i, G1, &expected);
    assert_eq!(y_i.inner.ignore.len(), 3);
    assert_eq!(y_i.inner.mutual_removes.len(), 3);
}

#[test]
fn demote_remove_filter() {
    //       0
    //     /   \
    //    1     2
    //
    // 0: Alice creates a group with Alice, Bob, Claire (manage)
    // 1: Alice demotes Bob to Write
    // 2: Bob removes Claire (should be filtered)
    //
    // Final members: [Alice (manage), Bob (write), Claire (manage)]

    let y = TestGroupState::new(());

    // 0: Alice creates a group
    let op0 = create_group(
        ALICE,
        0,
        G1,
        vec![
            (GroupMember::Individual(ALICE), Access::manage()),
            (GroupMember::Individual(BOB), Access::manage()),
            (GroupMember::Individual(CLAIRE), Access::manage()),
        ],
        vec![],
    );

    // 1: Alice demotes Bob to Write
    let op1 = demote_member(
        ALICE,
        1,
        G1,
        GroupMember::Individual(BOB),
        Access::write(),
        vec![op0.id()],
    );

    // 2: Bob removes Claire concurrently (should be filtered)
    let op2 = remove_member(BOB, 2, G1, GroupMember::Individual(CLAIRE), vec![op0.id()]);

    let expected = vec![
        (ALICE, Access::manage()),
        (BOB, Access::write()),
        (CLAIRE, Access::manage()),
    ];

    let y_final = sync(y, &[op0, op1, op2]);
    assert_members(&y_final, G1, &expected);
}

#[test]
fn demote_add_filter() {
    //       0
    //     /   \
    //    1     2
    //
    // 0: Alice creates a group with Alice, Bob, Claire (manage)
    // 1: Alice demotes Bob to Write
    // 2: Bob adds Dave (should be filtered)
    //
    // Final members: [Alice (manage), Bob (write), Claire (manage)]

    let y = TestGroupState::new(());

    // 0: Alice creates a group
    let op0 = create_group(
        ALICE,
        0,
        G1,
        vec![
            (GroupMember::Individual(ALICE), Access::manage()),
            (GroupMember::Individual(BOB), Access::manage()),
            (GroupMember::Individual(CLAIRE), Access::manage()),
        ],
        vec![],
    );

    // 1: Alice demotes Bob to Write
    let op1 = demote_member(
        ALICE,
        1,
        G1,
        GroupMember::Individual(BOB),
        Access::write(),
        vec![op0.id()],
    );

    // 2: Bob adds Dave concurrently (should be filtered)
    let op2 = add_member(
        BOB,
        2,
        G1,
        GroupMember::Individual(DAVE),
        Access::read(),
        vec![op0.id()],
    );

    let expected = vec![
        (ALICE, Access::manage()),
        (BOB, Access::write()),
        (CLAIRE, Access::manage()),
    ];

    let y_i = sync(y, &[op0, op1, op2]);
    assert_members(&y_i, G1, &expected);
}

#[test]
fn remove_dependencies_filter() {
    // Tree structure:
    //       0
    //     /   \
    //    1     2
    //           \
    //            3
    //
    // 0: Alice creates group with Alice and Bob (manage)
    // 1: Alice removes Bob
    // 2: Bob adds Claire (concurrent with 1, Bob's branch)
    // 3: Claire adds Dave (depends on 2, Claire's branch)
    //
    // After merging, only Alice remains (removals win).

    let y = TestGroupState::new(());

    // 0: Create initial group with Alice and Bob
    let op0 = create_group(
        ALICE,
        0,
        G1,
        vec![
            (GroupMember::Individual(ALICE), Access::manage()),
            (GroupMember::Individual(BOB), Access::manage()),
        ],
        vec![],
    );

    // 1: Alice removes Bob
    let op1 = remove_member(ALICE, 1, G1, GroupMember::Individual(BOB), vec![op0.id()]);

    // 2: Bob adds Claire (concurrent with 1)
    let op2 = add_member(
        BOB,
        2,
        G1,
        GroupMember::Individual(CLAIRE),
        Access::manage(),
        vec![op0.id()],
    );

    // 3: Claire adds Dave (in Bob's branch)
    let op3 = add_member(
        CLAIRE,
        3,
        G1,
        GroupMember::Individual(DAVE),
        Access::read(),
        vec![op2.id()],
    );

    // Only assert final state
    let expected_members = vec![(ALICE, Access::manage())];
    let y_i = sync(y, &[op0, op1, op2, op3]);
    assert_members(&y_i, G1, &expected_members);
}

#[test]
fn remove_readd_dependencies_filter() {
    //       0
    //     /   \
    //    1     3
    //    |     |
    //    2     |
    //     \   /
    //       4
    //
    // 0: Alice creates group with Alice, Bob, Claire (manage)
    // 1: Alice removes Bob
    // 2: Alice re-adds Bob
    // 3: Bob adds Dave (concurrent with re-add)
    // 4: Bob adds Eve (after re-add and Dave in Bob's branch)
    //
    // Filtered: [3]
    // Final members: [Alice, Bob, Claire, Eve]

    let y = TestGroupState::new(());

    // 0: Alice creates group with Alice, Bob, Claire
    let op0 = create_group(
        ALICE,
        0,
        G1,
        vec![
            (GroupMember::Individual(ALICE), Access::manage()),
            (GroupMember::Individual(BOB), Access::manage()),
            (GroupMember::Individual(CLAIRE), Access::manage()),
        ],
        vec![],
    );

    // 1: Alice removes Bob
    let op1 = remove_member(ALICE, 1, G1, GroupMember::Individual(BOB), vec![op0.id()]);

    // 2: Alice re-adds Bob
    let op2 = add_member(
        ALICE,
        2,
        G1,
        GroupMember::Individual(BOB),
        Access::manage(),
        vec![op1.id()],
    );

    // 3: Bob adds Dave (concurrent with 2)
    let op3 = add_member(
        BOB,
        3,
        G1,
        GroupMember::Individual(DAVE),
        Access::read(),
        vec![op0.id()],
    );

    // 4: Bob adds Eve (after Bob re-added, depends on Bob's add Dave)
    let op4 = add_member(
        BOB,
        4,
        G1,
        GroupMember::Individual(EVE),
        Access::read(),
        vec![op2.id(), op3.id()],
    );

    let expected = vec![
        (ALICE, Access::manage()),
        (BOB, Access::manage()),
        (CLAIRE, Access::manage()),
        (EVE, Access::read()),
    ];

    let y_final = sync(y, &[op0, op1, op2, op3, op4]);
    assert_members(&y_final, G1, &expected);
}

#[test]
fn two_bubbles() {
    // Graph structure:
    //
    //       0
    //     /   \
    //    1     2
    //     \   /
    //       3
    //       |
    //       4
    //     /   \
    //    5     7
    //    |
    //    6
    //
    // 0: Alice creates group with initial members Alice (manage) & Bob (manage)
    // 1: Alice removes Bob
    // 2: Bob adds Claire
    // 3: Alice adds Dave (manage)
    // 4: Dave adds Eve
    // 5: Alice adds Frank
    // 6: Frank adds Grace
    // 7: Dave removes Alice

    let y = TestGroupState::new(());

    // 0: Create initial group with Alice and Bob
    let op0 = create_group(
        ALICE,
        0,
        G0,
        vec![
            (GroupMember::Individual(ALICE), Access::manage()),
            (GroupMember::Individual(BOB), Access::manage()),
        ],
        vec![],
    );

    // 1: Alice removes Bob
    let op1 = remove_member(ALICE, 1, G0, GroupMember::Individual(BOB), vec![op0.id()]);

    // 2: Bob adds Claire (concurrent with 1)
    let op2 = add_member(
        BOB,
        2,
        G0,
        GroupMember::Individual(CLAIRE),
        Access::read(),
        vec![op0.id()],
    );

    // 3: Alice adds Dave (merges states 1 & 2)
    let op3 = add_member(
        ALICE,
        3,
        G0,
        GroupMember::Individual(DAVE),
        Access::manage(),
        vec![op1.id(), op2.id()],
    );

    // 4: Dave adds Eve
    let op4 = add_member(
        DAVE,
        4,
        G0,
        GroupMember::Individual(EVE),
        Access::read(),
        vec![op3.id()],
    );

    // 5: Alice adds Frank
    let op5 = add_member(
        ALICE,
        5,
        G0,
        GroupMember::Individual(FRANK),
        Access::manage(),
        vec![op4.id()],
    );

    // 6: Frank adds Grace
    let op6 = add_member(
        FRANK,
        6,
        G0,
        GroupMember::Individual(GRACE),
        Access::read(),
        vec![op5.id()],
    );

    // 6: Dave removes alice concurrently
    let op7 = remove_member(DAVE, 7, G0, GroupMember::Individual(ALICE), vec![op4.id()]);

    let expected_members = vec![(DAVE, Access::manage()), (EVE, Access::read())];
    let y_i = sync(y, &[op0, op1, op2, op3, op4, op5, op6, op7]);
    assert_members(&y_i, G0, &expected_members);
}

#[test]
fn concurrent_readds_filtered() {
    //       0
    //     /   \
    //    1     3
    //    |
    //    2
    //
    // 0: Alice creates group with Alice, Bob, Claire
    // 1: Alice removes Bob
    // 2: Alice re-adds Bob
    // 3: Claire removes Bob
    //
    // Filtered: [2]
    // Final members: [Alice, Claire]

    let y = TestGroupState::new(());

    // 0: Alice creates group with Alice, Bob, Claire
    let op0 = create_group(
        ALICE,
        0,
        G1,
        vec![
            (GroupMember::Individual(ALICE), Access::manage()),
            (GroupMember::Individual(BOB), Access::manage()),
            (GroupMember::Individual(CLAIRE), Access::manage()),
        ],
        vec![],
    );

    // 1: Alice removes Bob
    let op1 = remove_member(ALICE, 1, G1, GroupMember::Individual(BOB), vec![op0.id()]);

    // 2: Alice re-adds Bob
    let op2 = add_member(
        ALICE,
        2,
        G1,
        GroupMember::Individual(BOB),
        Access::manage(),
        vec![op1.id()],
    );

    // 3: Claire removes Bob
    let op3 = remove_member(CLAIRE, 3, G1, GroupMember::Individual(BOB), vec![op0.id()]);

    let expected = vec![(ALICE, Access::manage()), (CLAIRE, Access::manage())];

    let y_final = sync(y, &[op0, op1, op2, op3]);
    assert_members(&y_final, G1, &expected);
}

#[test]
fn filter_only_concurrent_operations() {
    let y = TestGroupState::new(());

    // 0: Alice creates a group
    let op0 = create_group(
        ALICE,
        0,
        G1,
        vec![
            (GroupMember::Individual(ALICE), Access::manage()),
            (GroupMember::Individual(BOB), Access::manage()),
        ],
        vec![],
    );

    // 1: Bob adds Claire
    let op1 = add_member(
        BOB,
        1,
        G1,
        GroupMember::Individual(CLAIRE),
        Access::read(),
        vec![op0.id()],
    );

    // 2: Alice concurrently demotes Bob
    let op2 = demote_member(
        ALICE,
        2,
        G1,
        GroupMember::Individual(BOB),
        Access::write(),
        vec![op1.id()],
    );

    // 3: Bob concurrently adds Dave
    let op3 = add_member(
        BOB,
        3,
        G1,
        GroupMember::Individual(DAVE),
        Access::read(),
        vec![op1.id()],
    );

    let expected = vec![
        (ALICE, Access::manage()),
        (BOB, Access::write()),
        (CLAIRE, Access::read()),
    ];
    let y_i = sync(y, &[op0, op1, op2, op3]);
    assert_members(&y_i, G1, &expected);
}
