//! How launches go on and fail.

use blueos_loader::address::TargetAddr;
use blueos_loader::application::group::GroupState;
use blueos_loader::application::launch::{
    launch_result, launch_step, LaunchAction, LaunchStep, LaunchedApplication,
};
use blueos_loader::application::manager::{
    ApplicationHandle, ApplicationLaunchError, ApplicationManager, ApplicationState,
    ExecutionModel, OwnedLaunchRequest,
};
use blueos_loader::application::reaper::{reap_decision, GroupPhase, ReapDecision};
use blueos_loader::application::registry::{
    AcquireOutcome, LoadPermit, SystemCandidateBacking, SystemDsoRegistry,
};
use blueos_loader::dynamic_linker::artifact::{DependencyName, LinkDomainId};
use blueos_loader::dynamic_linker::lifecycle::FiniPlan;
use blueos_loader::memory::{AllocationLease, ImageAllocation};

const STEPS: [LaunchStep; 5] =
    [LaunchStep::Open, LaunchStep::Link, LaunchStep::Install, LaunchStep::Start, LaunchStep::Join];

/// Where a launch ends in which one step fails, if any.
fn run(fails: Option<usize>) -> (LaunchAction, usize) {
    let mut at = LaunchStep::Open;
    let mut taken = 0;
    loop {
        let action = launch_step(at, fails != Some(taken));
        taken += 1;
        if launch_result(action).is_some() {
            return (action, taken);
        }
        match action {
            LaunchAction::Go(next) => at = next,
            _ => panic!("a failure tells a result"),
        }
    }
}

#[test]
fn launches_go_step_by_step() {
    let mut at = LaunchStep::Open;
    for (index, step) in STEPS.iter().enumerate() {
        assert_eq!(at, *step);
        let next = launch_step(at, true);
        let wanted = STEPS.get(index + 1).copied().unwrap_or(LaunchStep::Running);
        assert_eq!(next, LaunchAction::Go(wanted));
        at = wanted;
    }
    assert_eq!(run(None), (LaunchAction::Go(LaunchStep::Running), 5));
    assert_eq!(launch_result(LaunchAction::Go(LaunchStep::Running)), Some(Ok(())));
    assert_eq!(launch_result(LaunchAction::Go(LaunchStep::Start)), None);
}

#[test]
fn failures_cancel_before_the_install_and_drain_after_it() {
    let failure = Some(Err(ApplicationLaunchError::PrepareFailed));
    for fails in 0..3 {
        assert_eq!(run(Some(fails)), (LaunchAction::Cancel, fails + 1));
    }
    for fails in 3..5 {
        assert_eq!(run(Some(fails)), (LaunchAction::Drain, fails + 1));
    }
    assert_eq!(launch_result(LaunchAction::Cancel), failure);
    assert_eq!(launch_result(LaunchAction::Drain), failure);
}

fn name(text: &str) -> DependencyName {
    DependencyName::from_bytes(text.as_bytes()).expect("valid name")
}

fn backing(descriptor: u32) -> SystemCandidateBacking<u32> {
    SystemCandidateBacking {
        descriptor,
        fini_plan: FiniPlan(Vec::new()),
        allocation: AllocationLease::new(ImageAllocation::new(
            TargetAddr::new(0x1000 * descriptor as u64),
            16,
            8,
        )),
        dependency_names: Vec::new(),
        dependencies: Vec::new(),
        scc_members: Vec::new(),
        keep_cached: false,
    }
}

fn permit(registry: &mut SystemDsoRegistry<u32>, domain: LinkDomainId, soname: &str) -> LoadPermit {
    match registry.acquire_or_begin_load(domain, name(soname)) {
        AcquireOutcome::Permit(permit) => permit,
        _ => panic!("expected permit"),
    }
}

#[test]
fn cancelled_launches_give_everything_back() {
    let mut registry = SystemDsoRegistry::<u32>::new();
    let domain = LinkDomainId::new(1);
    // A library that is ready, and one that the launch loads.
    let granted = permit(&mut registry, domain, "libc.so");
    let relocated = registry.publish_relocated(granted).expect("relocated");
    let ready = registry.publish_relocated_batch(vec![relocated], vec![backing(1)]).expect("batch");
    for own in registry.finish_initialization_batch(ready).expect("ready") {
        registry.release_lease(own);
    }
    let AcquireOutcome::Lease(lease) = registry.acquire_or_begin_load(domain, name("libc.so"))
    else {
        panic!("expected lease");
    };
    assert_eq!(registry.lease_count(domain, &name("libc.so")), Some(1));
    let granted = permit(&mut registry, domain, "libm.so");
    let relocated = registry.publish_relocated(granted).expect("relocated");
    let batch = registry.publish_relocated_batch(vec![relocated], vec![backing(2)]).expect("batch");
    let AcquireOutcome::Pending(waiting) = registry.acquire_or_begin_load(domain, name("libm.so"))
    else {
        panic!("expected a wait");
    };

    let mut launched = LaunchedApplication::new(ApplicationHandle { slot: 0, generation: 1 });
    launched.batch = Some(batch);
    launched.leases.push(lease);
    assert!(launched.cancel(&mut registry, None).is_empty());
    assert!(launched.batch.is_none());
    assert!(launched.leases.is_empty());
    assert!(!launched.draining);
    // Nobody uses the one, the other can be loaded again, and whoever waits is told.
    assert_eq!(registry.lease_count(domain, &name("libc.so")), Some(0));
    assert!(registry.is_resolved(&waiting));
    let failed = registry.drain_failed_backings();
    assert_eq!(failed.len(), 1);
    assert_eq!(failed[0].allocation().base().get(), 0x2000);
    assert!(matches!(
        registry.acquire_or_begin_load(domain, name("libm.so")),
        AcquireOutcome::Permit(_)
    ));
    // A second time there is nothing to give back.
    assert!(launched.cancel(&mut registry, None).is_empty());
    assert_eq!(registry.lease_count(domain, &name("libc.so")), Some(0));
}

#[test]
fn drained_launches_are_reaped_without_destructors() {
    let mut launched = LaunchedApplication::new(ApplicationHandle { slot: 0, generation: 1 });
    assert_eq!(launched.phase(GroupState::New), GroupPhase::New);
    assert_eq!(launched.phase(GroupState::Linked), GroupPhase::Linked);
    launched.drain();
    assert!(launched.draining && launched.fini_resolved);
    assert_eq!(launched.phase(GroupState::Linked), GroupPhase::Draining);
    assert_eq!(
        reap_decision(launched.phase(GroupState::Linked), true, launched.fini_resolved),
        ReapDecision::Reap { begin_exit: false, skip_fini: false }
    );
    assert_eq!(
        reap_decision(launched.phase(GroupState::New), true, launched.fini_resolved),
        ReapDecision::Recycle
    );
}

#[test]
fn threads_leave_their_application() {
    let mut manager = ApplicationManager::new();
    let request = OwnedLaunchRequest::new(ExecutionModel::ThreadGroup, b"app".to_vec());
    let handle = manager.launch(request, |group| {
        // The preparation gets a group of its own.
        assert_eq!(group.state(), GroupState::New);
        assert!(group.is_empty());
        Ok(())
    });
    let handle = handle.expect("launched");
    assert_eq!(manager.query(handle).expect("there").state, ApplicationState::Running);
    manager.add_member(handle, 4).expect("joined");
    manager.add_member(handle, 5).expect("joined");
    assert_eq!(manager.add_member(handle, 5), Err(ApplicationLaunchError::PrepareFailed));
    manager.remove_member(handle, 4).expect("left");
    assert_eq!(manager.remove_member(handle, 4), Err(ApplicationLaunchError::PrepareFailed));
    assert_eq!(manager.group(handle).expect("group").member_count(), 1);
    let stale = ApplicationHandle { slot: handle.slot, generation: handle.generation + 1 };
    assert_eq!(manager.remove_member(stale, 5), Err(ApplicationLaunchError::StaleGeneration));
}

#[test]
fn failed_launches_leave_other_applications_alone() {
    let mut manager = ApplicationManager::new();
    let request =
        |name: &[u8]| OwnedLaunchRequest::new(ExecutionModel::ThreadGroup, name.to_vec());
    let first = manager.launch(request(b"first"), |_| Ok(())).expect("launched");
    manager.add_member(first, 1).expect("joined");
    let failed = manager.launch(request(b"second"), |_| Err(ApplicationLaunchError::PrepareFailed));
    assert_eq!(failed, Err(ApplicationLaunchError::PrepareFailed));
    let told = manager.query_by_identity(b"second").expect("there");
    assert_eq!(told.state, ApplicationState::Failed);
    assert_eq!(manager.query(told.handle), Some(told));
    assert_eq!(manager.query(first).expect("there").state, ApplicationState::Running);
    assert_eq!(manager.group(first).expect("group").member_count(), 1);
}
