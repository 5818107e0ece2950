//! Releasing what an application held when all its threads have left.
//!
//! The memory of the application's own images is released. Each system library that
//! it imported loses one user; a library that nobody uses any more stays or is
//! destroyed, as the catalog says. A library that is destroyed runs its destructors
//! first.

use crate::application::publication::KernelLinkReceipt;
use crate::application::registry::{
    lease_released, QuiescenceResolution, RegistryView, SystemDsoLease, SystemDsoRegistry,
    SystemUnloadBacking,
};
use crate::application::registry_quiescence::{fate, unload_of, unloading, Fate};
use crate::application::system_paths::{named_from, SystemLibraryEntry, SystemLibraryPaths};
use crate::dynamic_linker::artifact::{DependencyName, LinkDomainId};
use crate::dynamic_linker::lifecycle::LifecycleEntry;
use crate::memory::AllocationLease;
use vstd::prelude::*;

verus! {

/// What was released with one application.
#[derive(Clone, Copy, Debug, PartialEq, Eq, Structural)]
pub struct ReapReport {
    /// The application's own images.
    pub private_images: usize,
    /// The system libraries that it imported.
    pub imported_dsos: usize,
}

impl Default for ReapReport {
    fn default() -> (r: Self)
        ensures
            r == (ReapReport { private_images: 0, imported_dsos: 0 }),
    {
        ReapReport { private_images: 0, imported_dsos: 0 }
    }
}

/// Where a group stands on its way out.
#[derive(Clone, Copy, Debug, PartialEq, Eq, Structural)]
pub enum GroupPhase {
    /// Its launch failed before anything was installed.
    New,
    Linked,
    /// It is exiting.
    Draining,
    Reaped,
}

/// What to do with a group that waits to be reaped.
#[derive(Clone, Copy, Debug, PartialEq, Eq, Structural)]
pub enum ReapDecision {
    /// Nothing is left of it.
    Done,
    /// Nothing was installed: only its slot is to be given back.
    Recycle,
    /// Ask again later.
    NotYet,
    /// Take its resources, after these steps.
    Reap {
        /// The main thread left without saying so: start the exit for it.
        begin_exit: bool,
        /// Nobody will run the destructors any more.
        skip_fini: bool,
    },
}

/// What to do with a group that waits to be reaped. Nothing is taken from a group
/// with a thread in it.
pub open spec fn decided(phase: GroupPhase, empty: bool, fini_resolved: bool) -> ReapDecision {
    match phase {
        GroupPhase::Reaped => ReapDecision::Done,
        GroupPhase::New => ReapDecision::Recycle,
        GroupPhase::Linked => if empty {
            ReapDecision::Reap { begin_exit: true, skip_fini: true }
        } else {
            ReapDecision::NotYet
        },
        GroupPhase::Draining => if empty {
            ReapDecision::Reap { begin_exit: false, skip_fini: !fini_resolved }
        } else {
            ReapDecision::NotYet
        },
    }
}

/// What to do with a group that waits to be reaped.
pub fn reap_decision(phase: GroupPhase, empty: bool, fini_resolved: bool) -> (r: ReapDecision)
    ensures
        r == decided(phase, empty, fini_resolved),
        !empty ==> !(r is Reap),
{
    match phase {
        GroupPhase::Reaped => ReapDecision::Done,
        GroupPhase::New => ReapDecision::Recycle,
        GroupPhase::Linked => {
            if !empty {
                ReapDecision::NotYet
            } else {
                ReapDecision::Reap { begin_exit: true, skip_fini: true }
            }
        },
        GroupPhase::Draining => {
            if !empty {
                ReapDecision::NotYet
            } else {
                ReapDecision::Reap { begin_exit: false, skip_fini: !fini_resolved }
            }
        },
    }
}

/// What a reap releases.
pub struct Reap {
    /// The memory to release at once.
    pub release: Vec<AllocationLease>,
    /// The libraries to resolve, one after the other.
    pub imports: Vec<SystemDsoLease>,
    pub report: ReapReport,
}

/// Splits what a group held. The memory of libraries that it loaded for the system
/// is not among what is released: the registry has them.
pub fn reap(receipt: KernelLinkReceipt, leases: Vec<SystemDsoLease>) -> (r: Reap)
    ensures
        r.release == receipt.private_allocations,
        r.imports == leases,
        r.report.private_images == receipt.private_allocations@.len(),
        r.report.imported_dsos == leases@.len(),
{
    let private_images: usize = receipt.private_allocations.len();
    let imported_dsos: usize = leases.len();
    Reap {
        release: receipt.private_allocations,
        imports: leases,
        report: ReapReport { private_images, imported_dsos },
    }
}

/// Whether the catalog keeps a library that nobody uses. One that it does not list
/// is kept.
pub open spec fn kept_by(entries: Seq<SystemLibraryEntry>, soname: Seq<u8>) -> bool {
    match named_from(entries, soname, 0) {
        Some(i) => entries[i].keep_cached,
        None => true,
    }
}

/// Whether the catalog keeps a library that nobody uses.
pub fn keep_cached(catalog: &SystemLibraryPaths, soname: &DependencyName) -> (r: bool)
    ensures
        r == kept_by(catalog.entries@, soname@),
{
    match catalog.resolve(soname.as_bytes()) {
        Some(entry) => entry.keep_cached,
        None => true,
    }
}

/// Gives up one use of a library and decides what becomes of it.
pub fn resolve_import<D>(
    registry: &mut SystemDsoRegistry<D>,
    catalog: &SystemLibraryPaths,
    lease: SystemDsoLease,
) -> (r: Option<QuiescenceResolution>)
    ensures
        ({
            let before: RegistryView<D> = lease_released(old(registry)@, lease@);
            let keep = kept_by(catalog.entries@, lease.soname@);
            match fate(before, lease.domain, lease.soname@, keep) {
                Fate::InUse => r is None && final(registry)@ == before,
                Fate::Kept => r matches Some(QuiescenceResolution::KeptCached) && final(registry)@ == before,
                Fate::Destroyed(members) => {
                    &&& !keep
                    &&& final(registry)@ == unloading(before, members, members.len() as int)
                    &&& match r {
                        Some(QuiescenceResolution::Unloaded(batch)) => {
                            &&& batch.slots@ == members
                            &&& batch.generations@.len() == members.len()
                            &&& batch.backings@.len() == members.len()
                            &&& forall|m: int|
                                0 <= m < members.len() ==> #[trigger] batch.generations@[m]
                                    == before.slots[members[m] as int].generation
                            &&& forall|m: int|
                                0 <= m < members.len() ==> unload_of(
                                    before,
                                    members[m] as int,
                                    #[trigger] batch.backings@[m],
                                )
                        },
                        _ => false,
                    }
                },
            }
        }),
{
    let domain: LinkDomainId = lease.domain();
    let soname: DependencyName = lease.soname().clone();
    let keep: bool = keep_cached(catalog, &soname);
    registry.release_lease(lease);
    registry.resolve_quiescence(domain, &soname, keep)
}

/// One step of destroying a group of libraries.
pub enum UnloadAction {
    /// Run a destructor.
    Call(LifecycleEntry),
    /// Release memory.
    Release(AllocationLease),
    /// Give up the use of another library.
    Drop(SystemDsoLease),
}

/// The destructors of the first `k` libraries, in order.
pub open spec fn destructor_calls(backings: Seq<SystemUnloadBacking>, k: int) -> Seq<UnloadAction>
    decreases k,
{
    if k <= 0 {
        Seq::empty()
    } else {
        let plan = backings[k - 1].fini_plan.0@;
        destructor_calls(backings, k - 1) + Seq::new(
            plan.len(),
            |i: int| UnloadAction::Call(plan[i]),
        )
    }
}

/// The releases of the first `k` libraries: of each its memory, then what it used.
pub open spec fn releases(backings: Seq<SystemUnloadBacking>, k: int) -> Seq<UnloadAction>
    decreases k,
{
    if k <= 0 {
        Seq::empty()
    } else {
        let used = backings[k - 1].dependencies@;
        releases(backings, k - 1).push(UnloadAction::Release(backings[k - 1].allocation))
            + Seq::new(used.len(), |i: int| UnloadAction::Drop(used[i]))
    }
}

/// How a group of libraries is destroyed: all destructors run before any memory
/// goes, and a library gives up what it used after its own memory is gone.
pub fn unload_actions(backings: Vec<SystemUnloadBacking>) -> (r: Vec<UnloadAction>)
    ensures
        r@ == destructor_calls(backings@, backings@.len() as int) + releases(
            backings@,
            backings@.len() as int,
        ),
{
    let ghost all = backings@;
    let ghost n = all.len() as int;
    let mut actions: Vec<UnloadAction> = Vec::new();
    let mut index: usize = 0;
    while index < backings.len()
        invariant
            index <= backings@.len(),
            all == backings@,
            actions@ == destructor_calls(all, index as int),
        decreases backings@.len() - index,
    {
        let ghost before = actions@;
        let ghost plan = all[index as int].fini_plan.0@;
        let ghost calls = Seq::new(plan.len(), |i: int| UnloadAction::Call(plan[i]));
        let mut entry: usize = 0;
        assert(actions@ =~= before + calls.subrange(0, 0));
        while entry < backings[index].fini_plan.0.len()
            invariant
                index < backings@.len(),
                all == backings@,
                plan == all[index as int].fini_plan.0@,
                calls == Seq::new(plan.len(), |i: int| UnloadAction::Call(plan[i])),
                entry <= plan.len(),
                actions@ == before + calls.subrange(0, entry as int),
            decreases plan.len() - entry,
        {
            actions.push(UnloadAction::Call(backings[index].fini_plan.0[entry]));
            assert(actions@ =~= before + calls.subrange(0, entry + 1));
            entry = entry + 1;
        }
        assert(calls.subrange(0, entry as int) =~= calls);
        index = index + 1;
    }
    let ghost calls = actions@;
    let mut rest = backings;
    let ghost mut done: int = 0;
    assert(rest@ =~= all.subrange(0, n));
    assert(actions@ =~= calls + releases(all, 0));
    while rest.len() > 0
        invariant
            0 <= done <= n == all.len(),
            rest@ == all.subrange(done, n),
            actions@ == calls + releases(all, done),
        decreases rest@.len(),
    {
        let backing: SystemUnloadBacking = rest.remove(0);
        assert(backing == all[done]);
        let ghost base = releases(all, done).push(UnloadAction::Release(backing.allocation));
        let ghost used = backing.dependencies@;
        let ghost drops = Seq::new(used.len(), |i: int| UnloadAction::Drop(used[i]));
        actions.push(UnloadAction::Release(backing.allocation));
        let mut dependencies = backing.dependencies;
        let ghost mut dropped: int = 0;
        assert(dependencies@ =~= used.subrange(0, used.len() as int));
        assert(actions@ =~= calls + (base + drops.subrange(0, 0)));
        while dependencies.len() > 0
            invariant
                0 <= dropped <= used.len(),
                dependencies@ == used.subrange(dropped, used.len() as int),
                drops == Seq::new(used.len(), |i: int| UnloadAction::Drop(used[i])),
                actions@ == calls + (base + drops.subrange(0, dropped)),
            decreases dependencies@.len(),
        {
            let lease: SystemDsoLease = dependencies.remove(0);
            assert(lease == used[dropped]);
            actions.push(UnloadAction::Drop(lease));
            proof {
                assert(dependencies@ =~= used.subrange(dropped + 1, used.len() as int));
                assert(actions@ =~= calls + (base + drops.subrange(0, dropped + 1)));
                dropped = dropped + 1;
            }
        }
        proof {
            assert(drops.subrange(0, dropped) =~= drops);
            assert(releases(all, done + 1) =~= base + drops);
            assert(rest@ =~= all.subrange(done + 1, n));
            done = done + 1;
        }
    }
    actions
}

proof fn lemma_only_calls(backings: Seq<SystemUnloadBacking>, k: int)
    ensures
        forall|i: int|
            0 <= i < destructor_calls(backings, k).len() ==> #[trigger] destructor_calls(
                backings,
                k,
            )[i] is Call,
    decreases k,
{
    if k > 0 {
        lemma_only_calls(backings, k - 1);
    }
}

proof fn lemma_no_calls(backings: Seq<SystemUnloadBacking>, k: int)
    ensures
        forall|i: int|
            0 <= i < releases(backings, k).len() ==> !(#[trigger] releases(backings, k)[i]
                is Call),
    decreases k,
{
    if k > 0 {
        lemma_no_calls(backings, k - 1);
    }
}

/// When a group of libraries is destroyed, no destructor runs after memory or a use
/// of another library was given up.
pub proof fn destructors_run_before_any_release(
    backings: Seq<SystemUnloadBacking>,
    i: int,
    j: int,
)
    requires
        ({
            let n = backings.len() as int;
            let actions = destructor_calls(backings, n) + releases(backings, n);
            0 <= i < j < actions.len() && actions[j] is Call
        }),
    ensures
        ({
            let n = backings.len() as int;
            let actions = destructor_calls(backings, n) + releases(backings, n);
            actions[i] is Call
        }),
{
    lemma_only_calls(backings, backings.len() as int);
    lemma_no_calls(backings, backings.len() as int);
}

/// The destructors of a group run library by library, those of each in the order of its plan,
/// and none is left out.
pub proof fn destructors_run_library_by_library(
    backings: Seq<SystemUnloadBacking>,
    k: int,
) -> (starts: Seq<
    int,
>)
    requires
        0 <= k <= backings.len(),
    ensures
        starts.len() == k + 1,
        starts[0] == 0,
        starts[k] == destructor_calls(backings, k).len(),
        forall|i: int|
            0 <= i < k ==> 0 <= #[trigger] starts[i] <= starts[i + 1] <= starts[k] && starts[i + 1]
                == starts[i] + backings[i].fini_plan.0@.len(),
        forall|i: int, j: int|
            0 <= i < k && 0 <= j < backings[i].fini_plan.0@.len() ==> destructor_calls(
                backings,
                k,
            )[starts[i] + j] == UnloadAction::Call(#[trigger] backings[i].fini_plan.0@[j]),
    decreases k,
{
    if k <= 0 {
        seq![0int]
    } else {
        let before = destructors_run_library_by_library(backings, k - 1);
        let calls = destructor_calls(backings, k - 1);
        let all = destructor_calls(backings, k);
        let starts = before.push(before[k - 1] + backings[k - 1].fini_plan.0@.len());
        assert forall|i: int, j: int|
            0 <= i < k && 0 <= j < backings[i].fini_plan.0@.len() implies all[starts[i] + j]
            == UnloadAction::Call(#[trigger] backings[i].fini_plan.0@[j]) by {
            if i < k - 1 {
                assert(calls[before[i] + j] == UnloadAction::Call(backings[i].fini_plan.0@[j]));
                assert(before[i] + j < before[i + 1] <= before[k - 1]);
            }
        }
        assert forall|i: int| 0 <= i < k implies 0 <= #[trigger] starts[i] <= starts[i + 1]
            <= starts[k] && starts[i + 1] == starts[i] + backings[i].fini_plan.0@.len() by {
            if i < k - 1 {
                assert(before[i] <= before[i + 1]);
            }
        }
        starts
    }
}

/// A group is released library by library: of each its memory, and then its uses of others
/// in their order.
pub proof fn groups_are_released_library_by_library(
    backings: Seq<SystemUnloadBacking>,
    k: int,
) -> (starts: Seq<
    int,
>)
    requires
        0 <= k <= backings.len(),
    ensures
        starts.len() == k + 1,
        starts[0] == 0,
        starts[k] == releases(backings, k).len(),
        forall|i: int|
            0 <= i < k ==> 0 <= #[trigger] starts[i] < starts[i + 1] <= starts[k] && starts[i + 1]
                == starts[i] + 1 + backings[i].dependencies@.len() && releases(
                backings,
                k,
            )[starts[i]] == UnloadAction::Release(backings[i].allocation),
        forall|i: int, j: int|
            0 <= i < k && 0 <= j < backings[i].dependencies@.len() ==> releases(
                backings,
                k,
            )[starts[i] + 1 + j] == UnloadAction::Drop(#[trigger] backings[i].dependencies@[j]),
    decreases k,
{
    if k <= 0 {
        seq![0int]
    } else {
        let before = groups_are_released_library_by_library(backings, k - 1);
        let some = releases(backings, k - 1);
        let all = releases(backings, k);
        let starts = before.push(before[k - 1] + 1 + backings[k - 1].dependencies@.len());
        assert forall|i: int, j: int|
            0 <= i < k && 0 <= j < backings[i].dependencies@.len() implies all[starts[i] + 1 + j]
            == UnloadAction::Drop(#[trigger] backings[i].dependencies@[j]) by {
            if i < k - 1 {
                assert(some[before[i] + 1 + j] == UnloadAction::Drop(
                    backings[i].dependencies@[j],
                ));
                assert(before[i] + 1 + j < before[i + 1] <= before[k - 1]);
            }
        }
        assert forall|i: int| 0 <= i < k implies 0 <= #[trigger] starts[i] < starts[i + 1]
            <= starts[k] && starts[i + 1] == starts[i] + 1 + backings[i].dependencies@.len()
            && all[starts[i]] == UnloadAction::Release(backings[i].allocation) by {
            if i < k - 1 {
                assert(before[i] < before[i + 1] <= before[k - 1]);
            }
        }
        starts
    }
}

/// Nothing is reaped as long as a thread is in it. A group without threads is reaped once it
/// was linked. Its destructors run only if its exit has begun and they are known; where the
/// exit had not begun, reaping begins it.
pub proof fn groups_are_reaped_once_empty(phase: GroupPhase, empty: bool, fini_resolved: bool)
    ensures
        decided(phase, empty, fini_resolved) is Reap <==> empty && (phase is Linked || phase
            is Draining),
        decided(phase, empty, fini_resolved) matches ReapDecision::Reap { begin_exit, skip_fini }
            ==> (begin_exit <==> phase is Linked) && (skip_fini <==> phase is Linked
            || !fini_resolved),
        decided(phase, empty, fini_resolved) is NotYet <==> !empty && (phase is Linked || phase
            is Draining),
        decided(phase, empty, fini_resolved) is Recycle <==> phase is New,
        decided(phase, empty, fini_resolved) is Done <==> phase is Reaped,
{
}

/// A library that nobody uses is kept unless the first entry of the catalog with its name
/// says otherwise.
pub proof fn libraries_are_kept_unless_the_catalog_says_so(
    entries: Seq<SystemLibraryEntry>,
    soname: Seq<u8>,
)
    ensures
        !kept_by(entries, soname) <==> exists|i: int|
            0 <= i < entries.len() && (#[trigger] entries[i]).soname@ == soname
                && !entries[i].keep_cached && forall|j: int|
                0 <= j < i ==> (#[trigger] entries[j]).soname@ != soname,
{
    crate::application::system_paths::names_find_the_first_library(entries, soname, 0);
    if let Some(i) = named_from(entries, soname, 0) {
        assert(entries[i].soname@ == soname);
    }
}

} // verus!
