//! The registry of shared system libraries.

use blueos_loader::address::TargetAddr;
use blueos_loader::application::registry::{
    AcquireBatchOutcome, AcquireOutcome, LoadPermit, QuiescenceResolution, SystemCandidateBacking,
    SystemDsoRegistry, SystemDsoLease,
};
use blueos_loader::dynamic_linker::artifact::{DependencyName, LinkDomainId};
use blueos_loader::dynamic_linker::lifecycle::FiniPlan;
use blueos_loader::error::LoadErrorKind;
use blueos_loader::memory::{AllocationLease, ImageAllocation};

fn name(bytes: &[u8]) -> DependencyName {
    DependencyName::from_terminated(bytes).expect("valid soname")
}

fn backing(descriptor: u32, needs: &[&[u8]], group: &[&[u8]], keep: bool) -> SystemCandidateBacking<u32> {
    SystemCandidateBacking {
        descriptor,
        fini_plan: FiniPlan(Vec::new()),
        allocation: AllocationLease::new(ImageAllocation::new(
            TargetAddr::new(0x1000 * descriptor as u64),
            16,
            8,
        )),
        dependency_names: needs.iter().map(|soname| name(soname)).collect(),
        dependencies: Vec::new(),
        scc_members: group.iter().map(|soname| name(soname)).collect(),
        keep_cached: keep,
    }
}

fn permit(registry: &mut SystemDsoRegistry<u32>, domain: LinkDomainId, soname: &[u8]) -> LoadPermit {
    match registry.acquire_or_begin_load(domain, name(soname)) {
        AcquireOutcome::Permit(permit) => permit,
        _ => panic!("expected permit"),
    }
}

fn lease(registry: &mut SystemDsoRegistry<u32>, domain: LinkDomainId, soname: &[u8]) -> SystemDsoLease {
    match registry.acquire_or_begin_load(domain, name(soname)) {
        AcquireOutcome::Lease(lease) => lease,
        _ => panic!("expected lease"),
    }
}

fn publish(
    registry: &mut SystemDsoRegistry<u32>,
    domain: LinkDomainId,
    libraries: Vec<(&[u8], SystemCandidateBacking<u32>)>,
) {
    let mut permits = Vec::new();
    let mut backings = Vec::new();
    for (soname, backing) in libraries {
        let granted = permit(registry, domain, soname);
        permits.push(registry.publish_relocated(granted).expect("relocated"));
        backings.push(backing);
    }
    let batch = registry.publish_relocated_batch(permits, backings).expect("batch");
    // Whoever loaded a library has a lease on it.
    for own in registry.finish_initialization_batch(batch).expect("ready") {
        registry.release_lease(own);
    }
}

#[test]
fn vacant_slot_grants_a_single_permit_then_pends() {
    let mut registry = SystemDsoRegistry::<u32>::new();
    let domain = LinkDomainId::new(7);
    let soname = name(b"libc.so.1\0");

    let first = registry.acquire_or_begin_load(domain, soname.clone());
    assert!(matches!(first, AcquireOutcome::Permit(_)));
    // A second request while the library is being loaded grants no second permit.
    let AcquireOutcome::Pending(handle) = registry.acquire_or_begin_load(domain, soname.clone())
    else {
        panic!("expected pending");
    };
    assert_eq!(handle.generation(), 1);
    // The permit is the sole authority over generation 1.
    assert_eq!(registry.generation(domain, &soname), Some(1));
}

#[test]
fn dropping_an_armed_permit_returns_to_vacant() {
    let mut registry = SystemDsoRegistry::<u32>::new();
    let domain = LinkDomainId::new(7);
    let soname = name(b"libc.so.1\0");

    let AcquireOutcome::Permit(permit) = registry.acquire_or_begin_load(domain, soname.clone())
    else {
        panic!("expected permit");
    };
    registry.cancel_load(permit);
    // Cancelled: the next request has a new generation.
    assert!(matches!(
        registry.acquire_or_begin_load(domain, soname.clone()),
        AcquireOutcome::Permit(_)
    ));
    assert_eq!(registry.generation(domain, &soname), Some(2));
}

#[test]
fn dropping_an_armed_relocated_permit_cancels_too() {
    let mut registry = SystemDsoRegistry::<u32>::new();
    let domain = LinkDomainId::new(7);
    let soname = name(b"libc.so.1\0");

    let AcquireOutcome::Permit(permit) = registry.acquire_or_begin_load(domain, soname.clone())
    else {
        panic!("expected permit");
    };
    let relocated = registry.publish_relocated(permit).expect("relocate");
    registry.cancel_relocated(relocated);
    // Nothing ran: a later request has a new generation.
    assert!(matches!(
        registry.acquire_or_begin_load(domain, soname.clone()),
        AcquireOutcome::Permit(_)
    ));
    assert_eq!(registry.generation(domain, &soname), Some(2));
}

#[test]
fn pending_tracks_the_inflight_generation() {
    let mut registry = SystemDsoRegistry::<u32>::new();
    let domain = LinkDomainId::new(7);
    let soname = name(b"libc.so.1\0");

    // The permit is held, so the library stays in flight across the second request.
    let _permit = registry.acquire_or_begin_load(domain, soname.clone());
    let AcquireOutcome::Pending(handle) = registry.acquire_or_begin_load(domain, soname.clone())
    else {
        panic!("expected pending");
    };
    assert_eq!(handle.generation(), 1);
}

#[test]
fn dropping_a_permit_wakes_a_waiting_resolver() {
    let mut registry = SystemDsoRegistry::<u32>::new();
    let domain = LinkDomainId::new(7);
    let soname = name(b"libc.so.1\0");

    let AcquireOutcome::Permit(permit) = registry.acquire_or_begin_load(domain, soname.clone())
    else {
        panic!("expected permit");
    };
    let AcquireOutcome::Pending(handle) = registry.acquire_or_begin_load(domain, soname.clone())
    else {
        panic!("expected pending");
    };
    assert!(!registry.is_resolved(&handle));
    registry.cancel_load(permit);
    // Whoever waits is told.
    assert!(registry.is_resolved(&handle));
    // The waiter can ask again.
    assert!(matches!(
        registry.acquire_or_begin_load(domain, soname.clone()),
        AcquireOutcome::Permit(_)
    ));
}

#[test]
fn ready_libraries_are_leased_and_counted() {
    let mut registry = SystemDsoRegistry::default();
    let domain = LinkDomainId::new(1);
    publish(&mut registry, domain, vec![(b"libc.so.1\0", backing(5, &[], &[], true))]);
    let soname = name(b"libc.so.1\0");
    assert_eq!(registry.lease_count(domain, &soname), Some(0));
    let first = lease(&mut registry, domain, b"libc.so.1\0");
    let second = lease(&mut registry, domain, b"libc.so.1\0");
    assert_eq!(registry.lease_count(domain, &soname), Some(2));
    assert_eq!(registry.descriptor(domain, &soname), Some(5));
    registry.release_lease(first);
    registry.release_lease(second);
    assert_eq!(registry.lease_count(domain, &soname), Some(0));
    // A library of that name in another domain is another library.
    assert_eq!(registry.generation(LinkDomainId::new(2), &soname), None);
}

#[test]
fn sets_are_acquired_whole_or_not_at_all() {
    let mut registry = SystemDsoRegistry::default();
    let domain = LinkDomainId::new(1);
    publish(&mut registry, domain, vec![(b"libready.so\0", backing(1, &[], &[], true))]);
    let held = permit(&mut registry, domain, b"libbusy.so\0");
    let names = [name(b"libnew.so\0"), name(b"libready.so\0"), name(b"libbusy.so\0")];
    let AcquireBatchOutcome::Pending(wait) = registry.acquire_batch(domain, &names) else {
        panic!("expected pending");
    };
    assert!(!registry.is_batch_resolved(&wait));
    // Nothing was handed out.
    assert_eq!(registry.lease_count(domain, &name(b"libready.so\0")), Some(0));
    registry.cancel_load(held);
    assert!(registry.is_batch_resolved(&wait));
    let AcquireBatchOutcome::Acquired(batch) = registry.acquire_batch(domain, &names) else {
        panic!("expected acquired");
    };
    let loads: Vec<&[u8]> = batch.loads.iter().map(|load| load.0.as_bytes()).collect();
    assert_eq!(loads, vec![b"libbusy.so".as_slice(), b"libnew.so".as_slice()]);
    assert_eq!(batch.imports.len(), 1);
    assert_eq!(batch.imports[0].2, 1);
    assert_eq!(registry.lease_count(domain, &name(b"libready.so\0")), Some(1));
}

#[test]
fn ready_libraries_lease_what_they_need() {
    let mut registry = SystemDsoRegistry::default();
    let domain = LinkDomainId::new(1);
    publish(
        &mut registry,
        domain,
        vec![
            (b"libbase.so\0", backing(1, &[], &[], false)),
            (b"libuser.so\0", backing(2, &[b"libbase.so\0"], &[], false)),
        ],
    );
    assert_eq!(registry.lease_count(domain, &name(b"libbase.so\0")), Some(1));
    assert_eq!(registry.lease_count(domain, &name(b"libuser.so\0")), Some(0));
    // What is needed is in use, so nothing becomes of it.
    assert!(registry.resolve_quiescence(domain, &name(b"libbase.so\0"), false).is_none());
    // What needs it goes, with its lease.
    let Some(QuiescenceResolution::Unloaded(mut batch)) =
        registry.resolve_quiescence(domain, &name(b"libuser.so\0"), false)
    else {
        panic!("expected a batch");
    };
    let mut backings = batch.take_backings();
    assert_eq!(backings.len(), 1);
    for used in backings.remove(0).dependencies {
        registry.release_lease(used);
    }
    assert!(registry.finish_unload(batch).is_ok());
    assert_eq!(registry.lease_count(domain, &name(b"libbase.so\0")), Some(0));
    assert!(matches!(
        registry.acquire_or_begin_load(domain, name(b"libuser.so\0")),
        AcquireOutcome::Permit(_)
    ));
    assert_eq!(registry.generation(domain, &name(b"libuser.so\0")), Some(2));
}

#[test]
fn groups_stay_or_go_together() {
    let mut registry = SystemDsoRegistry::default();
    let domain = LinkDomainId::new(1);
    let group: [&[u8]; 2] = [b"liba.so\0", b"libb.so\0"];
    publish(
        &mut registry,
        domain,
        vec![
            (b"liba.so\0", backing(1, &[], &group, false)),
            (b"libb.so\0", backing(2, &[], &group, false)),
        ],
    );
    let used = lease(&mut registry, domain, b"libb.so\0");
    assert!(registry.resolve_quiescence(domain, &name(b"liba.so\0"), false).is_none());
    registry.release_lease(used);
    assert!(matches!(
        registry.resolve_quiescence(domain, &name(b"liba.so\0"), true),
        Some(QuiescenceResolution::KeptCached)
    ));
    let Some(QuiescenceResolution::Unloaded(batch)) =
        registry.resolve_quiescence(domain, &name(b"liba.so\0"), false)
    else {
        panic!("expected a batch");
    };
    assert_eq!(batch.backings.len(), 2);
    // While they are destroyed nobody gets them.
    assert!(matches!(
        registry.acquire_or_begin_load(domain, name(b"libb.so\0")),
        AcquireOutcome::Pending(_)
    ));
    // The backings have to be taken first.
    assert_eq!(
        registry.finish_unload(batch).unwrap_err().kind(),
        LoadErrorKind::Backend
    );
}

#[test]
fn failed_libraries_leave_their_memory_to_be_released() {
    let mut registry = SystemDsoRegistry::default();
    let domain = LinkDomainId::new(1);
    let granted = permit(&mut registry, domain, b"libc.so.1\0");
    let relocated = registry.publish_relocated(granted).expect("relocated");
    let batch = registry
        .publish_relocated_batch(vec![relocated], vec![backing(3, &[], &[], false)])
        .expect("batch");
    let AcquireOutcome::Pending(waiting) = registry.acquire_or_begin_load(domain, name(b"libc.so.1\0"))
    else {
        panic!("expected pending");
    };
    assert!(!registry.is_resolved(&waiting));
    registry.fail_initialization_batch(batch);
    assert!(registry.is_resolved(&waiting));
    // The memory is handed out once.
    let drained = registry.drain_failed_backings();
    assert_eq!(drained.len(), 1);
    assert_eq!(drained[0].allocation().base(), TargetAddr::new(0x3000));
    assert!(registry.drain_failed_backings().is_empty());
    // The library can be loaded again, in the next generation.
    let again = permit(&mut registry, domain, b"libc.so.1\0");
    assert_eq!(again.generation, 2);
    assert!(registry.drain_failed_backings().is_empty());
    registry.cancel_load(again);
}

#[test]
fn relocated_libraries_stay_in_flight() {
    let mut registry = SystemDsoRegistry::<u32>::default();
    let domain = LinkDomainId::new(1);
    let granted = permit(&mut registry, domain, b"libc.so.1\0");
    let AcquireOutcome::Pending(waiting) = registry.acquire_or_begin_load(domain, name(b"libc.so.1\0"))
    else {
        panic!("expected pending");
    };
    let relocated = registry.publish_relocated(granted).expect("relocated");
    // Nobody who waits is told before the library can be obtained.
    assert!(!registry.is_resolved(&waiting));
    assert!(matches!(
        registry.acquire_or_begin_load(domain, name(b"libc.so.1\0")),
        AcquireOutcome::Pending(_)
    ));
    registry.cancel_relocated(relocated);
    assert!(registry.is_resolved(&waiting));
}

#[test]
fn stale_tokens_are_refused() {
    let mut registry = SystemDsoRegistry::<u32>::default();
    let domain = LinkDomainId::new(1);
    let first = permit(&mut registry, domain, b"libc.so.1\0");
    let stale = LoadPermit { slot: first.slot, generation: first.generation };
    registry.cancel_load(first);
    let second = permit(&mut registry, domain, b"libc.so.1\0");
    assert_eq!(registry.publish_relocated(stale).unwrap_err().kind(), LoadErrorKind::Backend);
    assert!(registry.publish_relocated(second).is_ok());
}

#[test]
fn acquired_sets_hold_what_was_asked_for() {
    let mut registry = SystemDsoRegistry::default();
    let domain = LinkDomainId::new(1);
    publish(&mut registry, domain, vec![(b"libm.so\0", backing(1, &[], &[], true))]);
    let names = [
        name(b"libz.so\0"),
        name(b"libm.so\0"),
        name(b"liba.so\0"),
        name(b"libz.so\0"),
    ];
    let AcquireBatchOutcome::Acquired(batch) = registry.acquire_batch(domain, &names) else {
        panic!("expected a set");
    };
    let loads: Vec<&[u8]> = batch.loads.iter().map(|load| load.0.as_bytes()).collect();
    let imports: Vec<&[u8]> = batch.imports.iter().map(|import| import.0.as_bytes()).collect();
    assert_eq!(loads, vec![&b"liba.so"[..], &b"libz.so"[..]]);
    assert_eq!(imports, vec![&b"libm.so"[..]]);
    assert_eq!(registry.generation(domain, &name(b"libz.so\0")), Some(1));
    assert_eq!(registry.lease_count(domain, &name(b"libm.so\0")), Some(1));
}

#[test]
fn publications_without_their_backings_start_over() {
    let mut registry = SystemDsoRegistry::default();
    let domain = LinkDomainId::new(1);
    let granted = permit(&mut registry, domain, b"liba.so\0");
    let first = registry.publish_relocated(granted).expect("relocated");
    let granted = permit(&mut registry, domain, b"libb.so\0");
    let second = registry.publish_relocated(granted).expect("relocated");
    let refused = registry
        .publish_relocated_batch(vec![first, second], vec![backing(1, &[], &[], true)]);
    assert!(matches!(refused, Err(error) if error.kind() == LoadErrorKind::Backend));
    assert_eq!(permit(&mut registry, domain, b"liba.so\0").generation, 2);
    assert_eq!(permit(&mut registry, domain, b"libb.so\0").generation, 2);
}

#[test]
fn published_libraries_are_not_seen_before_they_are_ready() {
    let mut registry = SystemDsoRegistry::default();
    let domain = LinkDomainId::new(1);
    let soname = name(b"libc.so.1\0");
    let granted = permit(&mut registry, domain, b"libc.so.1\0");
    let AcquireOutcome::Pending(waiting) = registry.acquire_or_begin_load(domain, soname.clone())
    else {
        panic!("expected pending");
    };
    let relocated = registry.publish_relocated(granted).expect("relocated");
    let batch = registry
        .publish_relocated_batch(vec![relocated], vec![backing(4, &[], &[], true)])
        .expect("batch");
    let AcquireOutcome::Pending(still) = registry.acquire_or_begin_load(domain, soname.clone())
    else {
        panic!("expected pending");
    };
    assert_eq!(still.generation(), 1);
    assert!(registry.descriptor(domain, &soname).is_none());
    assert_eq!(registry.lease_count(domain, &soname), Some(0));
    assert!(!registry.is_resolved(&waiting));
    // Once it is ready, whoever waits is told, and its loader has a lease on it.
    let own = registry.finish_initialization_batch(batch).expect("ready");
    assert_eq!(own.len(), 1);
    assert!(registry.is_resolved(&waiting));
    assert_eq!(registry.descriptor(domain, &soname), Some(4));
    assert_eq!(registry.lease_count(domain, &soname), Some(1));
}

#[test]
fn tickets_are_resolved_by_what_happens_before_the_wait() {
    let mut registry = SystemDsoRegistry::<u32>::new();
    let domain = LinkDomainId::new(1);
    let soname = b"libc.so.1\0";
    let granted = permit(&mut registry, domain, soname);
    let AcquireOutcome::Pending(first) = registry.acquire_or_begin_load(domain, name(soname)) else {
        panic!("expected a wait");
    };
    assert_eq!(first.generation(), 1);
    // Other libraries do not resolve it, nor does a step that leaves it in flight.
    publish(&mut registry, domain, vec![(b"libm.so\0", backing(2, &[], &[], false))]);
    assert!(!registry.is_resolved(&first));
    let relocated = registry.publish_relocated(granted).expect("relocated");
    assert!(!registry.is_resolved(&first));
    registry.cancel_relocated(relocated);
    assert!(registry.is_resolved(&first));
    // A newer load waits under its own ticket; the old one stays resolved.
    let again = permit(&mut registry, domain, soname);
    assert!(registry.is_resolved(&first));
    let AcquireOutcome::Pending(second) = registry.acquire_or_begin_load(domain, name(soname))
    else {
        panic!("expected a wait");
    };
    assert_eq!(second.generation(), 2);
    assert!(!registry.is_resolved(&second));
    registry.cancel_load(again);
    assert!(registry.is_resolved(&second));
    assert!(registry.is_resolved(&first));
}
