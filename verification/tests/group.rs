//! Thread groups.

use blueos_loader::application::group::{GroupState, ThreadGroupBackend, ThreadGroupError};

#[test]
fn a_fresh_group_has_no_members() {
    let backend = ThreadGroupBackend::new();
    let group = backend.create_group();
    assert_eq!(group.state(), GroupState::New);
    assert!(group.is_empty());
}

#[test]
fn membership_is_counted_and_deduplicated() {
    let backend = ThreadGroupBackend::new();
    let mut group = backend.create_group();

    let id = 41;
    group.add_member(id).unwrap();
    assert_eq!(group.member_count(), 1);
    assert!(!group.is_empty());

    // A thread that is a member already is rejected, not counted twice.
    assert!(matches!(group.add_member(id), Err(ThreadGroupError::AlreadyMember)));
    assert_eq!(group.member_count(), 1);

    group.remove_member(id).unwrap();
    assert!(group.is_empty());
}

#[test]
fn removing_takes_exactly_one_member() {
    let mut group = ThreadGroupBackend::new().create_group();
    for id in [3, 5, 7] {
        group.add_member(id).unwrap();
    }
    group.remove_member(3).unwrap();
    assert_eq!(group.member_count(), 2);
    assert_eq!(group.remove_member(3), Err(ThreadGroupError::NotMember));
    assert_eq!(group.add_member(5), Err(ThreadGroupError::AlreadyMember));
    assert_eq!(group.add_member(7), Err(ThreadGroupError::AlreadyMember));
    assert_eq!(group.add_member(3), Ok(()));
}
