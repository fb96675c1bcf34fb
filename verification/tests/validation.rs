use p2panda_auth::validation::{
    can_add_member, can_demote_member, can_promote_member, can_remove_member, can_write,
    is_manager, is_member, is_writer, AddMemberError, DemoteMemberError, PromoteMemberError,
    RemoveMemberError, WriteError,
};
use p2panda_auth::AccessLevel;

fn members() -> Vec<(u32, AccessLevel)> {
    vec![
        (1, AccessLevel::Manage),
        (2, AccessLevel::Write),
        (3, AccessLevel::Read),
    ]
}

#[test]
fn validation() {
    // Is member validation
    assert!(is_member(1, &members()));
    assert!(is_member(2, &members()));
    assert!(is_member(3, &members()));
    assert!(!is_member(99, &members()));

    // Is manager validation
    assert!(is_manager(1, &members()));
    assert!(!is_manager(2, &members()));
    assert!(!is_manager(3, &members()));
    assert!(!is_manager(99, &members()));

    // Is writer validation
    assert!(is_writer(1, &members()));
    assert!(is_writer(2, &members()));
    assert!(!is_writer(3, &members()));
    assert!(!is_writer(99, &members()));

    // Can write errors
    assert!(can_write(1, &members()).is_ok());
    assert!(can_write(2, &members()).is_ok());
    let err = can_write(3, &members()).unwrap_err();
    assert!(matches!(err, WriteError::InsufficientAccess));
    let err = can_write(99, &members()).unwrap_err();
    assert!(matches!(err, WriteError::UnrecognisedActor));

    // Can add member errors
    assert!(can_add_member(1, 42, &members()).is_ok());
    let err = can_add_member(99, 42, &members()).unwrap_err();
    assert!(matches!(err, AddMemberError::UnrecognisedActor));
    let err = can_add_member(2, 42, &members()).unwrap_err();
    assert!(matches!(err, AddMemberError::InsufficientAccess));
    let err = can_add_member(3, 42, &members()).unwrap_err();
    assert!(matches!(err, AddMemberError::InsufficientAccess));
    let err = can_add_member(1, 2, &members()).unwrap_err();
    assert!(matches!(err, AddMemberError::AlreadyAdded));
    let err = can_add_member(99, 2, &members()).unwrap_err();
    assert!(matches!(err, AddMemberError::UnrecognisedActor));

    // Can remove member errors
    assert!(can_remove_member(1, 2, &members()).is_ok());
    assert!(can_remove_member(1, 1, &members()).is_ok());
    let err = can_remove_member(99, 2, &members()).unwrap_err();
    assert!(matches!(err, RemoveMemberError::UnrecognisedActor));
    let err = can_remove_member(2, 3, &members()).unwrap_err();
    assert!(matches!(err, RemoveMemberError::InsufficientAccess));
    let err = can_remove_member(1, 99, &members()).unwrap_err();
    assert!(matches!(err, RemoveMemberError::NonMember));

    // Can promote member errors
    assert!(can_promote_member(1, 2, AccessLevel::Manage, &members()).is_ok());
    let err = can_promote_member(99, 2, AccessLevel::Write, &members()).unwrap_err();
    assert!(matches!(err, PromoteMemberError::UnrecognisedActor));
    let err = can_promote_member(2, 3, AccessLevel::Write, &members()).unwrap_err();
    assert!(matches!(err, PromoteMemberError::InsufficientAccess));
    let err = can_promote_member(1, 99, AccessLevel::Write, &members()).unwrap_err();
    assert!(matches!(err, PromoteMemberError::NonMember));
    let err = can_promote_member(1, 2, AccessLevel::Read, &members()).unwrap_err();
    assert!(matches!(err, PromoteMemberError::HasGreaterOrEqualAccess));
    let err = can_promote_member(1, 2, AccessLevel::Write, &members()).unwrap_err();
    assert!(matches!(err, PromoteMemberError::HasGreaterOrEqualAccess));

    // Can demote member errors
    assert!(can_demote_member(1, 2, AccessLevel::Read, &members()).is_ok());
    let err = can_demote_member(99, 2, AccessLevel::Write, &members()).unwrap_err();
    assert!(matches!(err, DemoteMemberError::UnrecognisedActor));
    let err = can_demote_member(2, 3, AccessLevel::Write, &members()).unwrap_err();
    assert!(matches!(err, DemoteMemberError::InsufficientAccess));
    let err = can_demote_member(1, 99, AccessLevel::Write, &members()).unwrap_err();
    assert!(matches!(err, DemoteMemberError::NonMember));
    let err = can_demote_member(1, 2, AccessLevel::Manage, &members()).unwrap_err();
    assert!(matches!(err, DemoteMemberError::HasLowerOrEqualAccess));
    let err = can_demote_member(1, 2, AccessLevel::Write, &members()).unwrap_err();
    assert!(matches!(err, DemoteMemberError::HasLowerOrEqualAccess));
}
