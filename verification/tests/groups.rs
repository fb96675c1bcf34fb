use p2panda_auth::group::operation_graph::{GroupCrdt, GroupCrdtError, GroupCrdtState};
use p2panda_auth::group::resolver::StrongRemove;
use p2panda_auth::group::test_utils::orderer::TestOperation;
use p2panda_auth::group::{GroupAction, GroupControlMessage, GroupMember, GroupMembershipError};
use p2panda_auth::traits::{Orderer, Resolver};
use p2panda_auth::Access;

/// Operations of these tests are created by hand, so the orderer creates none.
struct NoOrderer;

impl Orderer<char, u32, GroupControlMessage<char, ()>> for NoOrderer {
    type State = ();
    type Operation = TestOperation<char, u32, ()>;
    type Error = ();

    fn next_message(
        _y: (),
        _payload: &GroupControlMessage<char, ()>,
    ) -> Result<((), TestOperation<char, u32, ()>), ()> {
        Err(())
    }

    fn queue(_y: (), _message: &TestOperation<char, u32, ()>) -> Result<(), ()> {
        Err(())
    }

    fn next_ready_message(_y: ()) -> Result<((), Option<TestOperation<char, u32, ()>>), ()> {
        Err(())
    }
}

type Op = TestOperation<char, u32, ()>;
type TestResolver = StrongRemove<char, (), Op>;
type TestGroup = GroupCrdt<char, (), TestResolver, NoOrderer>;
type TestGroupState = GroupCrdtState<char, (), NoOrderer>;

fn make_group_op(
    actor_id: char,
    operation_id: u32,
    group_id: char,
    action: GroupAction<char, ()>,
    dependencies: Vec<u32>,
) -> Op {
    TestOperation {
        id: operation_id,
        sender: actor_id,
        dependencies: dependencies.clone(),
        previous: dependencies,
        payload: GroupControlMessage { group_id, action },
    }
}

fn create_group(
    actor_id: char,
    operation_id: u32,
    group_id: char,
    initial_members: Vec<(GroupMember<char>, Access<()>)>,
    dependencies: Vec<u32>,
) -> Op {
    make_group_op(actor_id, operation_id, group_id, GroupAction::Create { initial_members }, dependencies)
}

fn add_member(
    actor_id: char,
    operation_id: u32,
    group_id: char,
    member: GroupMember<char>,
    access: Access<()>,
    dependencies: Vec<u32>,
) -> Op {
    make_group_op(actor_id, operation_id, group_id, GroupAction::Add { member, access }, dependencies)
}

fn remove_member(
    actor_id: char,
    operation_id: u32,
    group_id: char,
    member: GroupMember<char>,
    dependencies: Vec<u32>,
) -> Op {
    make_group_op(actor_id, operation_id, group_id, GroupAction::Remove { member }, dependencies)
}

fn promote_member(
    actor_id: char,
    operation_id: u32,
    group_id: char,
    member: GroupMember<char>,
    access: Access<()>,
    dependencies: Vec<u32>,
) -> Op {
    make_group_op(actor_id, operation_id, group_id, GroupAction::Promote { member, access }, dependencies)
}

fn demote_member(
    actor_id: char,
    operation_id: u32,
    group_id: char,
    member: GroupMember<char>,
    access: Access<()>,
    dependencies: Vec<u32>,
) -> Op {
    make_group_op(actor_id, operation_id, group_id, GroupAction::Demote { member, access }, dependencies)
}

/// Direct members of a group, ordered.
fn root_members(y: &TestGroupState, group_id: char) -> Vec<(GroupMember<char>, Access<()>)> {
    let mut members = y.root_members(group_id);
    members.sort_by(|a, b| a.0.cmp(&b.0));
    members
}

/// Transitive members of a group, ordered.
fn transitive_members(y: &TestGroupState, group_id: char) -> Vec<(char, Access<()>)> {
    let mut members = y.members(group_id);
    members.sort_by(|a, b| a.0.cmp(&b.0));
    members
}

fn sync(y: TestGroupState, ops: &[Op]) -> TestGroupState {
    ops.iter().fold(y, |y, op| TestGroup::process(y, op.clone()).unwrap())
}

fn heads(y: &TestGroupState) -> Vec<u32> {
    let mut heads = y.inner.heads();
    heads.sort();
    heads
}

#[test]
fn basic_group() {
    let group_id = '1';
    let alice = 'A';
    let bob = 'B';
    let claire = 'C';
    let group_y = TestGroupState::new(());

    // Create group with alice as initial admin member.
    let operation_001 = create_group(alice, 1, group_id, vec![(GroupMember::Individual(alice), Access::manage())], vec![]);
    let group_y = TestGroup::process(group_y, operation_001).unwrap();
    assert_eq!(root_members(&group_y, group_id), vec![(GroupMember::Individual(alice), Access::manage())]);

    // Add bob with read access.
    let operation_002 = add_member(alice, 2, group_id, GroupMember::Individual(bob), Access::read(), vec![1]);
    let group_y = TestGroup::process(group_y, operation_002).unwrap();
    assert_eq!(
        root_members(&group_y, group_id),
        vec![
            (GroupMember::Individual(alice), Access::manage()),
            (GroupMember::Individual(bob), Access::read())
        ]
    );

    // Add claire with write access.
    let operation_003 = add_member(alice, 3, group_id, GroupMember::Individual(claire), Access::write(), vec![2]);
    let group_y = TestGroup::process(group_y, operation_003).unwrap();
    assert_eq!(
        root_members(&group_y, group_id),
        vec![
            (GroupMember::Individual(alice), Access::manage()),
            (GroupMember::Individual(bob), Access::read()),
            (GroupMember::Individual(claire), Access::write())
        ]
    );

    // Promote claire to admin.
    let operation_004 = promote_member(alice, 4, group_id, GroupMember::Individual(claire), Access::manage(), vec![3]);
    let group_y = TestGroup::process(group_y, operation_004).unwrap();
    assert_eq!(
        root_members(&group_y, group_id),
        vec![
            (GroupMember::Individual(alice), Access::manage()),
            (GroupMember::Individual(bob), Access::read()),
            (GroupMember::Individual(claire), Access::manage())
        ]
    );

    // Demote bob to pull access.
    let operation_005 = demote_member(alice, 5, group_id, GroupMember::Individual(bob), Access::pull(), vec![4]);
    let group_y = TestGroup::process(group_y, operation_005).unwrap();
    assert_eq!(
        root_members(&group_y, group_id),
        vec![
            (GroupMember::Individual(alice), Access::manage()),
            (GroupMember::Individual(bob), Access::pull()),
            (GroupMember::Individual(claire), Access::manage())
        ]
    );

    // Remove bob.
    let operation_006 = remove_member(alice, 6, group_id, GroupMember::Individual(bob), vec![5]);
    let group_y = TestGroup::process(group_y, operation_006).unwrap();
    assert_eq!(
        root_members(&group_y, group_id),
        vec![
            (GroupMember::Individual(alice), Access::manage()),
            (GroupMember::Individual(claire), Access::manage())
        ]
    );
}

#[test]
fn tests_nested_groups() {
    let alice = 'A';
    let alice_mobile = 'M';
    let alice_laptop = 'L';
    let alice_devices_group = 'D';
    let alice_team_group = 'T';

    // The devices group, with alice, alice_laptop and alice_mobile as members.
    let operation_001 = create_group(
        alice,
        1,
        alice_devices_group,
        vec![
            (GroupMember::Individual(alice), Access::manage()),
            (GroupMember::Individual(alice_laptop), Access::manage()),
            (GroupMember::Individual(alice_mobile), Access::write()),
        ],
        vec![],
    );
    let y = TestGroup::process(TestGroupState::new(()), operation_001).unwrap();
    assert_eq!(
        root_members(&y, alice_devices_group),
        vec![
            (GroupMember::Individual(alice), Access::manage()),
            (GroupMember::Individual(alice_laptop), Access::manage()),
            (GroupMember::Individual(alice_mobile), Access::write()),
        ],
    );

    // Alice's team group, with alice as the only member.
    let operation_002 = create_group(alice, 2, alice_team_group, vec![(GroupMember::Individual(alice), Access::manage())], vec![1]);
    let y = TestGroup::process(y, operation_002).unwrap();

    // The devices group becomes a member of the team group with read access.
    let operation_003 = add_member(alice, 3, alice_team_group, GroupMember::Group(alice_devices_group), Access::read(), vec![2]);
    let y = TestGroup::process(y, operation_003).unwrap();

    assert_eq!(
        root_members(&y, alice_team_group),
        vec![
            (GroupMember::Individual(alice), Access::manage()),
            (GroupMember::Group(alice_devices_group), Access::read())
        ]
    );

    // alice, alice_laptop and alice_mobile are transitive members, only alice has Manage access
    // (even though alice_laptop has Manage access to the devices sub-group).
    assert_eq!(
        transitive_members(&y, alice_team_group),
        vec![
            (alice, Access::manage()),
            (alice_laptop, Access::read()),
            (alice_mobile, Access::read()),
        ]
    );
}

#[test]
fn ooo() {
    let alice = 'A';
    let bob = 'B';
    let claire = 'C';
    let friends_group = 'T';

    let create = create_group(
        alice,
        1,
        friends_group,
        vec![
            (GroupMember::Individual(alice), Access::manage()),
            (GroupMember::Individual(bob), Access::manage()),
            (GroupMember::Individual(claire), Access::manage()),
        ],
        vec![],
    );

    // alice, bob and claire all concurrently add 3 new friends, then remove the first of them.
    let branch = |actor: char, first_id: u32, friends: [char; 3]| -> Vec<Op> {
        let mut ops = vec![];
        let mut previous = vec![1];
        for (i, friend) in friends.iter().enumerate() {
            let id = first_id + i as u32;
            ops.push(add_member(actor, id, friends_group, GroupMember::Individual(*friend), Access::read(), previous));
            previous = vec![id];
        }
        ops.push(remove_member(actor, first_id + 3, friends_group, GroupMember::Individual(friends[0]), previous));
        ops
    };
    let alice_ops = branch(alice, 10, ['D', 'E', 'F']);
    let bob_ops = branch(bob, 20, ['G', 'H', 'I']);
    let claire_ops = branch(claire, 30, ['J', 'K', 'L']);

    // Each of them processes the operations in another order.
    let start = TestGroup::process(TestGroupState::new(()), create).unwrap();
    let alice_y = sync(sync(sync(start.clone(), &alice_ops), &bob_ops), &claire_ops);
    let bob_y = sync(sync(sync(start.clone(), &bob_ops), &claire_ops), &alice_ops);
    let claire_y = sync(sync(sync(start, &claire_ops), &alice_ops), &bob_ops);

    let alice_members = root_members(&alice_y, friends_group);
    let bob_members = root_members(&bob_y, friends_group);
    let claire_members = root_members(&claire_y, friends_group);
    assert_eq!(
        alice_members,
        vec![
            (GroupMember::Individual('A'), Access::manage()),
            (GroupMember::Individual('B'), Access::manage()),
            (GroupMember::Individual('C'), Access::manage()),
            (GroupMember::Individual('E'), Access::read()),
            (GroupMember::Individual('F'), Access::read()),
            (GroupMember::Individual('H'), Access::read()),
            (GroupMember::Individual('I'), Access::read()),
            (GroupMember::Individual('K'), Access::read()),
            (GroupMember::Individual('L'), Access::read()),
        ]
    );
    assert_eq!(alice_members, claire_members);
    assert_eq!(alice_members, bob_members);
}

#[test]
fn add_remove_add() {
    let alice = 'A';
    let bob = 'B';
    let friends_group = 'T';

    let ops = vec![
        create_group(alice, 1, friends_group, vec![(GroupMember::Individual(alice), Access::manage())], vec![]),
        add_member(alice, 2, friends_group, GroupMember::Individual(bob), Access::read(), vec![1]),
        remove_member(alice, 3, friends_group, GroupMember::Individual(bob), vec![2]),
    ];
    let y = sync(TestGroupState::new(()), &ops);
    assert_eq!(root_members(&y, friends_group), vec![(GroupMember::Individual('A'), Access::manage())]);

    let y = sync(y, &[add_member(alice, 4, friends_group, GroupMember::Individual(bob), Access::read(), vec![3])]);
    assert_eq!(
        root_members(&y, friends_group),
        vec![
            (GroupMember::Individual('A'), Access::manage()),
            (GroupMember::Individual('B'), Access::read()),
        ]
    );
}

fn assert_refused(result: Result<TestGroupState, GroupCrdtError<char, u32, <TestResolver as Resolver<char, u32, (), Op>>::Error, ()>>, expected: GroupMembershipError<GroupMember<char>>) {
    match result {
        Err(GroupCrdtError::StateChangeError(_, error)) => assert_eq!(error, expected),
        Err(e) => panic!("unexpected error {:?}", e),
        Ok(_) => panic!("the operation was accepted"),
    }
}

#[test]
fn error_cases() {
    let group_id = '0';
    let alice = 'A';
    let bob = 'B';
    let claire = 'C';
    let dave = 'D';
    let eve = 'E';

    let y_i = sync(
        TestGroupState::new(()),
        &[create_group(
            alice,
            100,
            group_id,
            vec![
                (GroupMember::Individual(alice), Access::manage()),
                (GroupMember::Individual(bob), Access::read()),
                (GroupMember::Individual(claire), Access::read()),
            ],
            vec![],
        )],
    );
    let previous = heads(&y_i);

    // AlreadyAdded
    let op = add_member(alice, 1, group_id, GroupMember::Individual(bob), Access::read(), previous.clone());
    assert_refused(TestGroup::process(y_i.clone(), op), GroupMembershipError::AlreadyAdded(GroupMember::Individual('B')));

    // Remove claire so we can test AlreadyRemoved
    let y_ii = TestGroup::process(y_i, remove_member(alice, 2, group_id, GroupMember::Individual(claire), previous.clone())).unwrap();
    let previous = heads(&y_ii);

    // AlreadyRemoved
    let op = remove_member(alice, 3, group_id, GroupMember::Individual(claire), previous.clone());
    assert_refused(TestGroup::process(y_ii.clone(), op), GroupMembershipError::AlreadyRemoved(GroupMember::Individual('C')));

    // InsufficientAccess
    let op = add_member(bob, 4, group_id, GroupMember::Individual(dave), Access::read(), previous.clone());
    assert_refused(TestGroup::process(y_ii.clone(), op), GroupMembershipError::InsufficientAccess(GroupMember::Individual('B')));

    // Remove bob so we can test InactiveActor
    let y_iii = TestGroup::process(y_ii, remove_member(alice, 5, group_id, GroupMember::Individual(bob), previous.clone())).unwrap();
    let previous = heads(&y_iii);

    // InactiveActor
    let op = add_member(bob, 6, group_id, GroupMember::Individual(dave), Access::read(), previous.clone());
    assert_refused(TestGroup::process(y_iii.clone(), op), GroupMembershipError::InactiveActor(GroupMember::Individual('B')));

    // InactiveMember
    let op = promote_member(alice, 7, group_id, GroupMember::Individual(claire), Access::write(), previous.clone());
    assert_refused(TestGroup::process(y_iii.clone(), op), GroupMembershipError::InactiveMember(GroupMember::Individual('C')));

    // UnrecognisedActor
    let op = add_member(eve, 8, group_id, GroupMember::Individual(dave), Access::read(), previous.clone());
    assert_refused(TestGroup::process(y_iii.clone(), op), GroupMembershipError::UnrecognisedActor(GroupMember::Individual('E')));

    // UnrecognisedMember
    let op = promote_member(alice, 9, group_id, GroupMember::Individual(eve), Access::write(), previous.clone());
    assert_refused(TestGroup::process(y_iii.clone(), op), GroupMembershipError::UnrecognisedMember(GroupMember::Individual('E')));
}

#[test]
fn error_cases_resolver() {
    let group_id = '0';
    let alice = 'A';
    let bob = 'B';
    let claire = 'C';
    let dave = 'D';
    let eve = 'E';

    let y_i = sync(
        TestGroupState::new(()),
        &[create_group(
            alice,
            100,
            group_id,
            vec![
                (GroupMember::Individual(alice), Access::manage()),
                (GroupMember::Individual(bob), Access::read()),
                (GroupMember::Individual(claire), Access::read()),
            ],
            vec![],
        )],
    );
    let previous = heads(&y_i);

    // Remove all current members and add all non-members as managers in a concurrent branch.
    let y_ii = sync(
        y_i,
        &[
            remove_member(alice, 101, group_id, GroupMember::Individual(bob), vec![100]),
            remove_member(alice, 102, group_id, GroupMember::Individual(claire), vec![101]),
            add_member(alice, 103, group_id, GroupMember::Individual(dave), Access::manage(), vec![102]),
            add_member(alice, 104, group_id, GroupMember::Individual(eve), Access::manage(), vec![103]),
            remove_member(alice, 105, group_id, GroupMember::Individual(alice), vec![104]),
        ],
    );
    assert_eq!(
        root_members(&y_ii, group_id),
        vec![
            (GroupMember::Individual(dave), Access::manage()),
            (GroupMember::Individual(eve), Access::manage())
        ]
    );

    // All the following operations are appended into the group operation graph into a branch
    // concurrent to all the previous group changes. This means they should be validated against
    // state which does not include those changes (even though they are the "current" state).

    // AlreadyAdded (bob)
    let op = add_member(alice, 1, group_id, GroupMember::Individual(bob), Access::read(), previous.clone());
    assert_refused(TestGroup::process(y_ii.clone(), op), GroupMembershipError::AlreadyAdded(GroupMember::Individual('B')));

    // Remove claire
    let op = remove_member(alice, 2, group_id, GroupMember::Individual(claire), previous.clone());
    let y_iii = TestGroup::process(y_ii.clone(), op).unwrap();

    // Refer to only the newly published operation in previous so as to remain in the concurrent branch.
    let previous = vec![2];

    // AlreadyRemoved (claire)
    let op = remove_member(alice, 3, group_id, GroupMember::Individual(claire), previous.clone());
    assert_refused(TestGroup::process(y_iii.clone(), op), GroupMembershipError::AlreadyRemoved(GroupMember::Individual('C')));

    // InsufficientAccess (bob tries to add dave)
    let op = add_member(bob, 4, group_id, GroupMember::Individual(dave), Access::read(), previous.clone());
    assert_refused(TestGroup::process(y_iii.clone(), op), GroupMembershipError::InsufficientAccess(GroupMember::Individual('B')));

    // Remove bob
    let op = remove_member(alice, 5, group_id, GroupMember::Individual(bob), previous.clone());
    let y_iv = TestGroup::process(y_iii.clone(), op).unwrap();

    // Refer to only the newly published operation in previous so as to remain in the concurrent branch.
    let previous = vec![5];

    // InactiveActor (bob tries to add dave)
    let op = add_member(bob, 6, group_id, GroupMember::Individual(dave), Access::read(), previous.clone());
    assert_refused(TestGroup::process(y_iv.clone(), op), GroupMembershipError::InactiveActor(GroupMember::Individual('B')));

    // InactiveMember (claire promoted)
    let op = promote_member(alice, 7, group_id, GroupMember::Individual(claire), Access::write(), previous.clone());
    assert_refused(TestGroup::process(y_iv.clone(), op), GroupMembershipError::InactiveMember(GroupMember::Individual('C')));

    // UnrecognisedActor (eve tries to add dave)
    let op = add_member(eve, 8, group_id, GroupMember::Individual(dave), Access::read(), previous.clone());
    assert_refused(TestGroup::process(y_iv.clone(), op), GroupMembershipError::UnrecognisedActor(GroupMember::Individual('E')));

    // UnrecognisedMember (alice promotes eve)
    let op = promote_member(alice, 9, group_id, GroupMember::Individual(eve), Access::write(), previous.clone());
    assert_refused(TestGroup::process(y_iv.clone(), op), GroupMembershipError::UnrecognisedMember(GroupMember::Individual('E')));
}
