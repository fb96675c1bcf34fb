use std::cmp::Ordering;

use p2panda_auth::Access;

/// Conditions which models access based on paths. Having access to "/public" gives you access
/// to "/public/stuff" and "/public/other/stuff" but not "/private" or "/private/stuff".
#[derive(Debug, Clone, PartialEq, Eq)]
struct PathCondition(String);

impl PartialOrd for PathCondition {
    fn partial_cmp(&self, other: &Self) -> Option<Ordering> {
        let self_parts: Vec<_> = self.0.split('/').filter(|s| !s.is_empty()).collect();
        let other_parts: Vec<_> = other.0.split('/').filter(|s| !s.is_empty()).collect();

        let min_len = self_parts.len().min(other_parts.len());
        let is_prefix = self_parts[..min_len] == other_parts[..min_len];

        if is_prefix {
            match self_parts.len().cmp(&other_parts.len()) {
                Ordering::Less => Some(Ordering::Greater),
                Ordering::Equal => Some(Ordering::Equal),
                Ordering::Greater => Some(Ordering::Less),
            }
        } else {
            None
        }
    }
}

#[test]
fn path_condition_comparators() {
    let root_access = Access::read().with_conditions(PathCondition("/root".to_string()));
    let private_access = Access::read().with_conditions(PathCondition("/root/private".to_string()));
    let public_access = Access::read().with_conditions(PathCondition("/root/public".to_string()));

    // Access to "/root" gives access to all sub-paths
    assert!(root_access >= private_access);
    assert!(root_access >= public_access);

    // Unrelated paths are not comparable.
    assert!(!(private_access >= public_access));
    assert!(!(private_access <= public_access));

    let read_access_to_root = Access::read().with_conditions(PathCondition("/root".to_string()));
    let requested_write_access_to_sub_path =
        Access::write().with_conditions(PathCondition("/root/private".to_string()));

    assert!(requested_write_access_to_sub_path < read_access_to_root);

    let unconditional_read = Access::<PathCondition>::read();
    assert!(unconditional_read > public_access);
}

/// Conditions containing an access expiry timestamp.
#[derive(Debug, Clone, PartialOrd, PartialEq, Eq)]
struct ExpiryTimestamp(u64);

#[test]
fn expiry_timestamp_access_ordering() {
    let access_expires_soon = Access::read().with_conditions(ExpiryTimestamp(10));
    let access_expires_later = Access::read().with_conditions(ExpiryTimestamp(100));

    // access_expires_later grants more access (access valid for longer).
    assert!(access_expires_later > access_expires_soon);

    // access_expires_soon grants less access (access valid for shorter time).
    assert!(access_expires_soon < access_expires_later);

    const NOW: ExpiryTimestamp = ExpiryTimestamp(50);
    let requested_read_access = Access::read().with_conditions(NOW);

    // This access has already expired, it is less than the requested access.
    assert!(access_expires_soon < requested_read_access);

    // This access is still valid, it is greater than the requested access.
    assert!(access_expires_later >= requested_read_access);

    // The condition has expired and so the held access is still less than the requested one.
    let requested_pull_access = Access::pull().with_conditions(NOW);
    assert!(access_expires_soon < requested_pull_access);

    // The condition is still valid, but the requested access level is greater than the held one.
    let requested_write_access = Access::write().with_conditions(NOW);
    assert!(access_expires_later < requested_write_access);

    // An access level without an expiry is greater or equal than one with.
    let requested_read_access = Access::read().with_conditions(NOW);
    let access_no_expiry = Access::<ExpiryTimestamp>::read();
    assert!(access_no_expiry > requested_read_access);
}

#[test]
fn access_constructors_and_predicates() {
    let pull = Access::<()>::pull();
    assert!(pull.is_pull() && !pull.is_read() && !pull.is_write() && !pull.is_manage());
    let read = Access::<()>::read();
    assert!(read.is_read());
    let write = Access::<()>::write();
    assert!(write.is_write());
    let manage = Access::<()>::manage();
    assert!(manage.is_manage());
    assert_eq!(manage.level_name(), "manage");
    assert_eq!(pull.level_name(), "pull");
    let with = Access::write().with_conditions(7u64);
    assert_eq!(with.conditions, Some(7));
    assert!(with.is_write());
}

#[test]
fn access_without_conditions_compares_by_level() {
    // Both sides without conditions: plain level order.
    assert_eq!(
        Access::<u64>::read().partial_cmp(&Access::<u64>::write()),
        Some(Ordering::Less)
    );
    assert_eq!(
        Access::<u64>::write().partial_cmp(&Access::<u64>::write()),
        Some(Ordering::Equal)
    );
    // Only self with conditions: the levels alone decide.
    assert_eq!(
        Access::write()
            .with_conditions(1u64)
            .partial_cmp(&Access::<u64>::read()),
        Some(Ordering::Greater)
    );
    // Only other with conditions: equal levels count as greater.
    assert_eq!(
        Access::<u64>::read().partial_cmp(&Access::read().with_conditions(1u64)),
        Some(Ordering::Greater)
    );
}

#[test]
fn total_order_places_incomparable_access_below() {
    let private_access = Access::read().with_conditions(PathCondition("/root/private".to_string()));
    let public_access = Access::read().with_conditions(PathCondition("/root/public".to_string()));
    let root_access = Access::read().with_conditions(PathCondition("/root".to_string()));
    assert_eq!(private_access.cmp(&public_access), Ordering::Less);
    assert_eq!(public_access.cmp(&private_access), Ordering::Less);
    assert_eq!(root_access.cmp(&private_access), Ordering::Greater);
    assert_eq!(Access::<()>::read().cmp(&Access::write()), Ordering::Less);
    assert_eq!(Access::<()>::manage().cmp(&Access::write()), Ordering::Greater);
    assert_eq!(Access::<()>::write().cmp(&Access::write()), Ordering::Equal);
}
