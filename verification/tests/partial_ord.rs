use p2panda_auth::group::test_utils::orderer::{TestOperation, TestOrderer};
use p2panda_auth::group::{GroupAction, GroupControlMessage};
use p2panda_auth::test_utils::partial_ord::{PartialOrderer, PartialOrdererState};

type Orderer = PartialOrderer<u32>;

fn drain(mut y: PartialOrdererState<u32>) -> (PartialOrdererState<u32>, Vec<u32>) {
    let mut out = Vec::new();
    loop {
        let (y_i, next) = Orderer::take_next_ready(y).unwrap();
        y = y_i;
        match next {
            Some(id) => out.push(id),
            None => break,
        }
    }
    (y, out)
}

#[test]
fn mark_ready_queues_once() {
    let y = PartialOrdererState::default();
    let (y, inserted) = Orderer::mark_ready(y, 1).unwrap();
    assert!(inserted);
    let (y, inserted) = Orderer::mark_ready(y, 1).unwrap();
    assert!(!inserted);
    let (y, inserted) = Orderer::mark_ready(y, 2).unwrap();
    assert!(inserted);

    let (y, order) = drain(y);
    assert_eq!(order, vec![1, 2]);

    // Items stay ready after they were taken.
    assert!(Orderer::ready(&y, &[1, 2]).unwrap());
    assert!(!Orderer::ready(&y, &[1, 3]).unwrap());
    assert!(Orderer::ready(&y, &[]).unwrap());
}

#[test]
fn mark_pending_waits_on_missing_dependencies() {
    let y = PartialOrdererState::default();
    let (y, _) = Orderer::mark_ready(y, 1).unwrap();
    let (y, inserted) = Orderer::mark_pending(y, 3, vec![1, 2]).unwrap();
    assert!(!inserted);

    // 3 only waits on 2, which is not ready yet.
    assert!(Orderer::get_next_pending(&y, 1).unwrap().is_none());
    let waiting = Orderer::get_next_pending(&y, 2).unwrap().unwrap();
    assert_eq!(waiting, vec![(3, vec![1, 2])]);

    // Recording the same wait twice keeps one entry.
    let (y, _) = Orderer::mark_pending(y, 3, vec![1, 2]).unwrap();
    let waiting = Orderer::get_next_pending(&y, 2).unwrap().unwrap();
    assert_eq!(waiting.len(), 1);

    let (y, removed) = Orderer::remove_pending(y, 2).unwrap();
    assert!(removed);
    let (y, removed) = Orderer::remove_pending(y, 2).unwrap();
    assert!(!removed);
    assert!(Orderer::get_next_pending(&y, 2).unwrap().is_none());
}

#[test]
fn process_pending_releases_dependents_in_order() {
    // 2 depends on 1, 3 depends on 1 and 2, 4 depends on 3.
    let y = PartialOrdererState::default();
    let (y, _) = Orderer::mark_pending(y, 2, vec![1]).unwrap();
    let (y, _) = Orderer::mark_pending(y, 3, vec![1, 2]).unwrap();
    let (y, _) = Orderer::mark_pending(y, 4, vec![3]).unwrap();

    let (y, order) = drain(y);
    assert!(order.is_empty());

    let (y, _) = Orderer::mark_ready(y, 1).unwrap();
    let y = Orderer::process_pending(y, 1).unwrap();

    let (y, order) = drain(y);
    assert_eq!(order, vec![1, 2, 3, 4]);
    assert!(Orderer::get_next_pending(&y, 1).unwrap().is_none());
    assert!(Orderer::get_next_pending(&y, 2).unwrap().is_none());
}

#[test]
fn process_pending_keeps_items_with_missing_dependencies() {
    let y = PartialOrdererState::default();
    let (y, _) = Orderer::mark_pending(y, 3, vec![1, 2]).unwrap();
    let (y, _) = Orderer::mark_ready(y, 1).unwrap();
    let y = Orderer::process_pending(y, 1).unwrap();

    // 3 still waits on 2.
    let (y, order) = drain(y);
    assert_eq!(order, vec![1]);
    assert!(Orderer::get_next_pending(&y, 2).unwrap().is_some());

    let (y, _) = Orderer::mark_ready(y, 2).unwrap();
    let y = Orderer::process_pending(y, 2).unwrap();
    let (_, order) = drain(y);
    assert_eq!(order, vec![2, 3]);
}

#[test]
fn test_orderer_queue_out_of_order() {
    let y = PartialOrdererState::default();
    // Operations arrive in reverse order.
    let y = TestOrderer::queue(y, 3, vec![2]).unwrap();
    let y = TestOrderer::queue(y, 2, vec![1]).unwrap();
    let (y, order) = drain(y);
    assert!(order.is_empty());

    let y = TestOrderer::queue(y, 1, vec![]).unwrap();
    let (_, order) = drain(y);
    assert_eq!(order, vec![1, 2, 3]);
}

#[test]
fn cloned_state_keeps_contents() {
    let y = PartialOrdererState::default();
    let (y, _) = Orderer::mark_ready(y, 1).unwrap();
    let (y, _) = Orderer::mark_pending(y, 5, vec![4]).unwrap();
    let copy = y.clone();
    let (_, order) = drain(copy);
    assert_eq!(order, vec![1]);
    let copy = y.clone();
    assert_eq!(
        Orderer::get_next_pending(&copy, 4).unwrap().unwrap(),
        vec![(5, vec![4])]
    );
}

#[test]
fn test_operation_accessors() {
    let operation: TestOperation<char, u32> = TestOperation {
        id: 7,
        sender: 'a',
        dependencies: vec![1, 2],
        previous: vec![2],
        payload: GroupControlMessage {
            group_id: 'g',
            action: GroupAction::Remove {
                member: p2panda_auth::group::GroupMember::Individual('b'),
            },
        },
    };
    assert_eq!(operation.id(), 7);
    assert_eq!(operation.sender(), 'a');
    assert_eq!(operation.dependencies(), vec![1, 2]);
    assert_eq!(operation.previous(), vec![2]);
}
