//! The table of applications.

use blueos_loader::application::group::GroupState;
use blueos_loader::application::manager::{
    ApplicationHandle, ApplicationLaunchError, ApplicationManager, ApplicationState,
    ExecutionModel, OwnedLaunchRequest,
};

fn request(identity: &[u8]) -> OwnedLaunchRequest {
    OwnedLaunchRequest::new(ExecutionModel::ThreadGroup, identity.to_vec())
}

#[test]
fn process_request_is_unsupported() {
    let mut manager = ApplicationManager::new();
    let req = OwnedLaunchRequest::new(ExecutionModel::Process, b"app".to_vec());
    let err = manager.launch(req, |_| Ok(())).unwrap_err();
    assert!(matches!(
        err,
        ApplicationLaunchError::UnsupportedExecutionModel(ExecutionModel::Process)
    ));
    // The request reserved nothing.
    assert!(manager.query_by_identity(b"app").is_none());
}

#[test]
fn relaunch_after_release_bumps_the_generation() {
    let mut manager = ApplicationManager::new();
    let first = manager.launch(request(b"app"), |_| Ok(())).unwrap();
    assert_eq!(manager.query(first).unwrap().state, ApplicationState::Running);
    manager.release(first).unwrap();

    let second = manager.launch(request(b"app"), |_| Ok(())).unwrap();
    // The same slot, in another generation.
    assert_eq!(first.slot, second.slot);
    assert_ne!(first.generation, second.generation);
    assert!(manager.query(first).is_none());
}

#[test]
fn stale_and_forged_handles_are_rejected() {
    let mut manager = ApplicationManager::new();
    let handle = manager.launch(request(b"app"), |_| Ok(())).unwrap();
    assert!(manager.query(handle).is_some());

    // A forged generation.
    let forged = ApplicationHandle {
        slot: handle.slot,
        generation: handle.generation.wrapping_add(1),
    };
    assert!(manager.query(forged).is_none());

    // A slot that does not exist.
    assert!(manager
        .query(ApplicationHandle {
            slot: 999,
            generation: 0,
        })
        .is_none());
}

#[test]
fn failed_prepare_leaves_a_queryable_failed_slot() {
    let mut manager = ApplicationManager::new();
    let err = manager
        .launch(request(b"app"), |_| Err(ApplicationLaunchError::PrepareFailed))
        .unwrap_err();
    assert!(matches!(err, ApplicationLaunchError::PrepareFailed));

    let snapshot = manager.query_by_identity(b"app").unwrap();
    assert_eq!(snapshot.state, ApplicationState::Failed);
}

#[test]
fn releasing_an_already_released_slot_is_rejected() {
    let mut manager = ApplicationManager::new();
    let handle = manager.launch(request(b"app"), |_| Ok(())).unwrap();
    manager.release(handle).unwrap();
    assert!(matches!(
        manager.release(handle),
        Err(ApplicationLaunchError::AlreadyReleased)
    ));
}

#[test]
fn launches_leave_other_applications_alone() {
    let mut manager = ApplicationManager::new();
    let first = manager.launch(request(b"one"), |_| Ok(())).unwrap();
    let before = manager.query(first).unwrap();
    let second = manager.launch(request(b"two"), |_| Ok(())).unwrap();
    assert_ne!(first, second);
    assert_eq!(manager.query(first), Some(before));
    assert_eq!(manager.query_by_identity(b"two").unwrap().handle, second);
    assert_eq!(manager.group(second).unwrap().state(), GroupState::New);
}

#[test]
fn a_stale_generation_is_not_released() {
    let mut manager = ApplicationManager::default();
    let handle = manager.launch(request(b"app"), |_| Ok(())).unwrap();
    let stale = ApplicationHandle {
        slot: handle.slot,
        generation: handle.generation.wrapping_add(1),
    };
    assert_eq!(manager.release(stale), Err(ApplicationLaunchError::StaleGeneration));
    assert!(manager.group(stale).is_none());
    assert!(manager.query(handle).is_some());
}

#[test]
fn a_launch_ends_once() {
    let mut manager = ApplicationManager::new();
    let (slot, generation) = manager.reserve(request(b"app")).unwrap();
    let snapshot = manager.query_by_identity(b"app").unwrap();
    assert_eq!(snapshot.state, ApplicationState::Loading);
    manager.complete(slot, generation, Ok(())).unwrap();
    assert_eq!(
        manager.complete(slot, generation, Ok(())),
        Err(ApplicationLaunchError::InvalidTransition {
            from: ApplicationState::Running,
            to: ApplicationState::Running,
        })
    );
}

#[test]
fn threads_join_their_own_application() {
    let mut manager = ApplicationManager::new();
    let first = manager.launch(request(b"one"), |group| {
        assert_eq!(group.state(), GroupState::New);
        Ok(())
    });
    let first = first.unwrap();
    let second = manager.launch(request(b"two"), |_| Ok(())).unwrap();
    assert_eq!(manager.add_member(second, 7), Ok(()));
    assert_eq!(manager.add_member(second, 7), Err(ApplicationLaunchError::PrepareFailed));
    assert_eq!(manager.group(second).unwrap().member_count(), 1);
    assert!(manager.group(first).unwrap().is_empty());
    // A link is not taken from under a thread.
    assert!(manager.take_link_product(second).is_none());
    manager.release(second).unwrap();
    assert_eq!(manager.add_member(second, 8), Err(ApplicationLaunchError::StaleGeneration));
    assert_eq!(manager.query(first).unwrap().state, ApplicationState::Running);
}
