use std::cmp::Ordering;

use p2panda_auth::group::access::Access as LevelAccess;
use p2panda_auth::group::group_state::{add_member, create_group, merge, promote, GroupMembersState};
use p2panda_auth::{Access, AccessLevel, NoConditions};

#[test]
fn no_conditions_are_all_equal() {
    assert_eq!(NoConditions, NoConditions::default());
    assert_eq!(NoConditions.partial_cmp(&NoConditions), Some(Ordering::Equal));
    let read = Access::<NoConditions> { conditions: Some(NoConditions), level: AccessLevel::Read };
    let write = Access::<NoConditions> { conditions: Some(NoConditions), level: AccessLevel::Write };
    assert_eq!(read.partial_cmp(&write), Some(Ordering::Less));
    // With equal conditions the levels decide, and an equal level compares as greater.
    assert_eq!(write.partial_cmp(&write.clone()), Some(Ordering::Greater));
    // Without conditions the default conditions type is used.
    let manage: Access = Access::manage();
    assert_eq!(manage.partial_cmp(&write), Some(Ordering::Greater));
}

fn group() -> GroupMembersState<u32> {
    let y: GroupMembersState<u32> = create_group(&[(0, LevelAccess::Manage), (1, LevelAccess::Read)]).unwrap();
    add_member(y, 0, 2, LevelAccess::Write { conditions: Some(NoConditions) }).unwrap()
}

#[test]
fn no_conditions_are_the_default() {
    let promoted = promote(group(), 0, 1, LevelAccess::Write { conditions: None }).unwrap();
    // The merge keeps the newer access level of member 1, in either order.
    let m1 = merge(group(), promote(group(), 0, 1, LevelAccess::Write { conditions: None }).unwrap()).unwrap();
    let m2 = merge(promoted, group()).unwrap();
    assert_eq!(m1.get(&1).unwrap().access, LevelAccess::Write { conditions: None });
    assert_eq!(m2.get(&1).unwrap().access, LevelAccess::Write { conditions: None });
    assert_eq!(m1.get(&2).unwrap().access, LevelAccess::Write { conditions: Some(NoConditions) });
}
