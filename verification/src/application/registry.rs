//! The registry of shared system libraries.
//!
//! For every library of a link domain the registry holds one slot. It answers what
//! a resolver asks: is there a ready instance to import, or has some link to load
//! one? A load permit is handed out once per generation; a lease counts one user
//! of a ready instance. A permit that is not used is cancelled, and a lease is
//! released when its user is done.
//!
//! The instance, not the application that loaded it first, owns the memory of a
//! library. It is given up only when a whole group of libraries that need one
//! another has no user left.

use crate::dynamic_linker::artifact::{DependencyName, LinkDomainId};
use crate::dynamic_linker::lifecycle::{FiniPlan, LifecycleEntry};
use crate::error::{unclaimed, ErrorContext, LoadError, LoadErrorKind, LoadResult};
use crate::memory::AllocationLease;
use vstd::prelude::*;

verus! {

/// One counted user of a ready instance.
#[derive(Debug)]
pub struct SystemDsoLease {
    pub slot: usize,
    pub generation: u32,
    pub domain: LinkDomainId,
    pub soname: DependencyName,
}

/// The contents of a lease.
pub struct LeaseView {
    pub slot: usize,
    pub generation: u32,
    pub domain: LinkDomainId,
    pub soname: Seq<u8>,
}

impl View for SystemDsoLease {
    type V = LeaseView;

    open spec fn view(&self) -> LeaseView {
        LeaseView {
            slot: self.slot,
            generation: self.generation,
            domain: self.domain,
            soname: self.soname@,
        }
    }
}

impl SystemDsoLease {
    /// The link domain of the instance.
    #[inline]
    pub fn domain(&self) -> (r: LinkDomainId)
        ensures
            r == self.domain,
    {
        self.domain
    }

    /// The name of the instance.
    #[inline]
    pub fn soname(&self) -> (r: &DependencyName)
        ensures
            *r == self.soname,
    {
        &self.soname
    }
}

/// The only authority to publish one generation of a library.
#[must_use]
#[derive(Debug, PartialEq, Eq, Structural)]
pub struct LoadPermit {
    pub slot: usize,
    pub generation: u32,
}

/// The authority to publish a library that has been relocated.
#[must_use]
#[derive(Debug, PartialEq, Eq, Structural)]
pub struct RelocatedPermit {
    pub slot: usize,
    pub generation: u32,
}

/// A ticket for an instance that another link is constructing.
#[derive(Debug, PartialEq, Eq, Structural)]
pub struct WaitHandle {
    pub slot: usize,
    pub generation: u32,
    pub observed: usize,
}

impl WaitHandle {
    /// The generation that was under construction.
    #[inline]
    pub fn generation(&self) -> (r: u32)
        ensures
            r == self.generation,
    {
        self.generation
    }
}

/// A ticket for a set of instances some of which are under construction.
#[derive(Debug, PartialEq, Eq, Structural)]
pub struct SystemBatchWait {
    pub observed: usize,
}

/// What the registry owns of one library.
pub struct SystemCandidateBacking<D> {
    pub descriptor: D,
    pub fini_plan: FiniPlan,
    pub allocation: AllocationLease,
    /// The libraries outside its own group that it needs.
    pub dependency_names: Vec<DependencyName>,
    /// One lease for each of those, once the instance is ready.
    pub dependencies: Vec<SystemDsoLease>,
    /// The group of libraries that need one another.
    pub scc_members: Vec<DependencyName>,
    /// Whether the instance stays when it has no user.
    pub keep_cached: bool,
}

/// The contents of a backing.
#[verifier::ext_equal]
pub struct BackingView<D> {
    pub descriptor: D,
    pub fini_plan: Seq<LifecycleEntry>,
    pub allocation: AllocationLease,
    pub dependency_names: Seq<Seq<u8>>,
    pub dependencies: Seq<LeaseView>,
    pub scc_members: Seq<Seq<u8>>,
    pub keep_cached: bool,
}

/// The bytes of some names.
pub open spec fn name_views(names: Seq<DependencyName>) -> Seq<Seq<u8>> {
    Seq::new(names.len(), |i: int| names[i]@)
}

/// The contents of some leases.
pub open spec fn lease_views(leases: Seq<SystemDsoLease>) -> Seq<LeaseView> {
    Seq::new(leases.len(), |i: int| leases[i]@)
}

impl<D> View for SystemCandidateBacking<D> {
    type V = BackingView<D>;

    open spec fn view(&self) -> BackingView<D> {
        BackingView {
            descriptor: self.descriptor,
            fini_plan: self.fini_plan.0@,
            allocation: self.allocation,
            dependency_names: name_views(self.dependency_names@),
            dependencies: lease_views(self.dependencies@),
            scc_members: name_views(self.scc_members@),
            keep_cached: self.keep_cached,
        }
    }
}

/// How far the construction of an instance has come.
pub enum InstanceState<D> {
    Vacant,
    Loading,
    Relocated,
    /// Its constructors run. Nobody sees the descriptor yet.
    Initializing(SystemCandidateBacking<D>),
    Ready { leases: usize, backing: SystemCandidateBacking<D> },
    /// Its destructors run and its memory is given up.
    Unloading,
    /// Its constructors did not finish. The registry keeps its memory for the reaper,
    /// and the slot is handed out like a vacant one.
    Failed,
}

/// The contents of a state.
pub enum StateView<D> {
    Vacant,
    Loading,
    Relocated,
    Initializing(BackingView<D>),
    Ready { leases: usize, backing: BackingView<D> },
    Unloading,
    Failed,
}

impl<D> View for InstanceState<D> {
    type V = StateView<D>;

    open spec fn view(&self) -> StateView<D> {
        match self {
            InstanceState::Vacant => StateView::Vacant,
            InstanceState::Loading => StateView::Loading,
            InstanceState::Relocated => StateView::Relocated,
            InstanceState::Initializing(backing) => StateView::Initializing(backing@),
            InstanceState::Ready { leases, backing } => StateView::Ready {
                leases: *leases,
                backing: backing@,
            },
            InstanceState::Unloading => StateView::Unloading,
            InstanceState::Failed => StateView::Failed,
        }
    }
}

/// The slot of one library. The signal counts how often the slot became
/// obtainable.
pub struct Slot<D> {
    pub domain: LinkDomainId,
    pub soname: DependencyName,
    pub generation: u32,
    pub state: InstanceState<D>,
    pub signal: usize,
}

/// The contents of a slot.
pub struct SlotView<D> {
    pub domain: LinkDomainId,
    pub soname: Seq<u8>,
    pub generation: u32,
    pub state: StateView<D>,
    pub signal: usize,
}

impl<D> View for Slot<D> {
    type V = SlotView<D>;

    open spec fn view(&self) -> SlotView<D> {
        SlotView {
            domain: self.domain,
            soname: self.soname@,
            generation: self.generation,
            state: self.state@,
            signal: self.signal,
        }
    }
}

/// The slots of all libraries. The resolution counts how often any slot became
/// obtainable.
pub struct SystemDsoRegistry<D> {
    pub slots: Vec<Slot<D>>,
    pub resolution: usize,
    pub failed_backings: Vec<AllocationLease>,
}

/// The contents of a registry.
#[verifier::ext_equal]
pub struct RegistryView<D> {
    pub slots: Seq<SlotView<D>>,
    pub resolution: usize,
    pub failed_backings: Seq<AllocationLease>,
}

impl<D> View for SystemDsoRegistry<D> {
    type V = RegistryView<D>;

    open spec fn view(&self) -> RegistryView<D> {
        RegistryView {
            slots: Seq::new(self.slots@.len(), |i: int| self.slots@[i]@),
            resolution: self.resolution,
            failed_backings: self.failed_backings@,
        }
    }
}

/// What a resolver is given for one library.
pub enum AcquireOutcome {
    /// The caller has to load it.
    Permit(LoadPermit),
    /// The instance is ready.
    Lease(SystemDsoLease),
    /// Another link is constructing it.
    Pending(WaitHandle),
}

/// What a resolver is given for a set of libraries.
pub enum AcquireBatchOutcome<D> {
    Acquired(PreparedSystemBatch<D>),
    Pending(SystemBatchWait),
}

/// The libraries of a set: those to load and those to import.
pub struct PreparedSystemBatch<D> {
    pub loads: Vec<(DependencyName, LoadPermit)>,
    pub imports: Vec<(DependencyName, SystemDsoLease, D)>,
}

/// The instances of a link whose constructors run.
#[must_use]
pub struct SystemInitBatch {
    pub slots: Vec<usize>,
    pub generations: Vec<u32>,
}

/// One library that is being destroyed.
pub struct SystemUnloadBacking {
    pub soname: DependencyName,
    pub allocation: AllocationLease,
    pub fini_plan: FiniPlan,
    /// They are released after the memory of this library.
    pub dependencies: Vec<SystemDsoLease>,
}

/// The group of libraries that is being destroyed. Its slots stay in flight until
/// it is handed back.
#[must_use]
pub struct SystemUnloadBatch {
    pub slots: Vec<usize>,
    pub generations: Vec<u32>,
    pub backings: Vec<SystemUnloadBacking>,
}

impl SystemUnloadBatch {
    pub fn take_backings(&mut self) -> (r: Vec<SystemUnloadBacking>)
        ensures
            r == old(self).backings,
            final(self).backings@.len() == 0,
            final(self).slots == old(self).slots,
            final(self).generations == old(self).generations,
    {
        let mut out: Vec<SystemUnloadBacking> = Vec::new();
        core::mem::swap(&mut self.backings, &mut out);
        out
    }
}

/// What becomes of a library without users.
pub enum QuiescenceResolution {
    /// It stays ready for later imports.
    KeptCached,
    /// Its whole group is being destroyed.
    Unloaded(SystemUnloadBatch),
}

/// The failure of a token that the registry does not know.
pub open spec fn stale() -> LoadError {
    unclaimed(LoadErrorKind::Backend, ErrorContext::Nothing)
}

pub(crate) fn stale_error() -> (r: LoadError)
    ensures
        r == stale(),
{
    LoadError::new(LoadErrorKind::Backend, ErrorContext::Nothing)
}

/// The generation after `generation`.
pub open spec fn next_generation(generation: u32) -> u32 {
    if generation < u32::MAX {
        (generation + 1) as u32
    } else {
        0
    }
}

/// The signal after `signal`.
pub open spec fn next_signal(signal: usize) -> usize {
    if signal < usize::MAX {
        (signal + 1) as usize
    } else {
        0
    }
}

/// One more lease, up to the largest number.
pub open spec fn more_leases(leases: usize) -> usize {
    if leases < usize::MAX {
        (leases + 1) as usize
    } else {
        leases
    }
}

/// The first slot from `from` on of a library.
pub open spec fn find_from<D>(
    slots: Seq<SlotView<D>>,
    domain: LinkDomainId,
    soname: Seq<u8>,
    from: int,
) -> Option<int>
    decreases slots.len() - from,
{
    if from >= slots.len() {
        None
    } else if slots[from].domain == domain && slots[from].soname == soname {
        Some(from)
    } else {
        find_from(slots, domain, soname, from + 1)
    }
}

/// The slot of a library.
pub open spec fn find_slot<D>(slots: Seq<SlotView<D>>, domain: LinkDomainId, soname: Seq<u8>) -> Option<
    int,
> {
    find_from(slots, domain, soname, 0)
}

pub proof fn lemma_find_from<D>(
    slots: Seq<SlotView<D>>,
    domain: LinkDomainId,
    soname: Seq<u8>,
    from: int,
)
    requires
        0 <= from <= slots.len(),
    ensures
        match find_from(slots, domain, soname, from) {
            Some(i) => from <= i < slots.len() && slots[i].domain == domain && slots[i].soname
                == soname,
            None => forall|i: int|
                from <= i < slots.len() ==> (#[trigger] slots[i]).domain != domain
                    || slots[i].soname != soname,
        },
    decreases slots.len() - from,
{
    if from < slots.len() {
        lemma_find_from(slots, domain, soname, from + 1);
    }
}

/// Whether both lists have the same libraries in the same slots.
pub open spec fn same_keys<D>(a: Seq<SlotView<D>>, b: Seq<SlotView<D>>) -> bool {
    &&& a.len() == b.len()
    &&& forall|i: int|
        0 <= i < a.len() ==> (#[trigger] a[i]).domain == b[i].domain && a[i].soname == b[i].soname
}

pub proof fn lemma_find_same_keys<D>(
    a: Seq<SlotView<D>>,
    b: Seq<SlotView<D>>,
    domain: LinkDomainId,
    soname: Seq<u8>,
    from: int,
)
    requires
        same_keys(a, b),
        0 <= from <= a.len(),
    ensures
        find_from(a, domain, soname, from) == find_from(b, domain, soname, from),
    decreases a.len() - from,
{
    if from < a.len() {
        assert(a[from].domain == b[from].domain);
        lemma_find_same_keys(a, b, domain, soname, from + 1);
    }
}

/// A slot that was never used.
pub open spec fn fresh_slot<D>(domain: LinkDomainId, soname: Seq<u8>) -> SlotView<D> {
    SlotView { domain, soname, generation: 0, state: StateView::Vacant, signal: 0 }
}

/// The slots with one for this library.
pub open spec fn ensured<D>(slots: Seq<SlotView<D>>, domain: LinkDomainId, soname: Seq<u8>) -> Seq<
    SlotView<D>,
> {
    match find_slot(slots, domain, soname) {
        Some(_) => slots,
        None => slots.push(fresh_slot(domain, soname)),
    }
}

/// The position of this library's slot once there is one.
pub open spec fn ensured_at<D>(slots: Seq<SlotView<D>>, domain: LinkDomainId, soname: Seq<u8>) -> int {
    match find_slot(slots, domain, soname) {
        Some(i) => i,
        None => slots.len() as int,
    }
}

/// Whether a library in this state is handed out at once.
pub open spec fn obtainable<D>(state: StateView<D>) -> bool {
    state is Vacant || state is Failed || state is Ready
}

/// The ticket for a library that is asked for and is in flight, if it is.
pub open spec fn pending_at<D>(view: RegistryView<D>, domain: LinkDomainId, soname: Seq<u8>) -> Option<
    WaitHandle,
> {
    let slots = ensured(view.slots, domain, soname);
    let i = ensured_at(view.slots, domain, soname);
    if obtainable(slots[i].state) {
        None
    } else {
        Some(
            WaitHandle {
                slot: i as usize,
                generation: slots[i].generation,
                observed: slots[i].signal,
            },
        )
    }
}

/// Whether the instance that a ticket waits for has been resolved.
pub open spec fn resolved<D>(view: RegistryView<D>, handle: WaitHandle) -> bool {
    handle.slot >= view.slots.len() || view.slots[handle.slot as int].signal != handle.observed
}

/// The registry after the library of slot `i` has been handed out: to load, with a
/// new generation, or as one more lease. A library in flight is not handed out.
pub open spec fn handed_out<D>(view: RegistryView<D>, i: int) -> RegistryView<D> {
    let slot = view.slots[i];
    let loading = view.slots.update(
        i,
        SlotView {
            generation: next_generation(slot.generation),
            state: StateView::Loading,
            ..slot
        },
    );
    match slot.state {
        StateView::Vacant => RegistryView { slots: loading, ..view },
        StateView::Failed => RegistryView { slots: loading, ..view },
        StateView::Ready { leases, backing } => RegistryView {
            slots: view.slots.update(
                i,
                SlotView {
                    state: StateView::Ready { leases: more_leases(leases), backing },
                    ..slot
                },
            ),
            ..view
        },
        _ => view,
    }
}

/// The permit that comes with loading the library of slot `i`.
pub open spec fn permit_for<D>(view: RegistryView<D>, i: int) -> LoadPermit {
    LoadPermit { slot: i as usize, generation: next_generation(view.slots[i].generation) }
}

/// The lease that comes with importing the library of slot `i`.
pub open spec fn lease_for<D>(view: RegistryView<D>, i: int) -> LeaseView {
    let slot = view.slots[i];
    LeaseView {
        slot: i as usize,
        generation: slot.generation,
        domain: slot.domain,
        soname: slot.soname,
    }
}

/// The registry after the waiters of slot `i` are told.
pub open spec fn woken<D>(view: RegistryView<D>, i: int) -> RegistryView<D> {
    RegistryView {
        slots: view.slots.update(
            i,
            SlotView { signal: next_signal(view.slots[i].signal), ..view.slots[i] },
        ),
        resolution: next_signal(view.resolution),
        ..view
    }
}

/// The registry with another state in slot `i`.
pub open spec fn with_state<D>(view: RegistryView<D>, i: int, state: StateView<D>) -> RegistryView<D> {
    RegistryView {
        slots: view.slots.update(i, SlotView { state, ..view.slots[i] }),
        ..view
    }
}

/// Whether a token speaks of the present generation of a slot.
pub open spec fn current<D>(view: RegistryView<D>, slot: usize, generation: u32) -> bool {
    slot < view.slots.len() && view.slots[slot as int].generation == generation
}

/// The registry after an unused load permit is cancelled.
pub open spec fn load_cancelled<D>(view: RegistryView<D>, permit: LoadPermit) -> RegistryView<D> {
    if current(view, permit.slot, permit.generation) && view.slots[permit.slot as int].state
        is Loading {
        woken(with_state(view, permit.slot as int, StateView::Vacant), permit.slot as int)
    } else {
        view
    }
}

/// The registry after an unused relocated permit is cancelled.
pub open spec fn relocation_cancelled<D>(view: RegistryView<D>, permit: RelocatedPermit) -> RegistryView<
    D,
> {
    if current(view, permit.slot, permit.generation) && view.slots[permit.slot as int].state
        is Relocated {
        woken(with_state(view, permit.slot as int, StateView::Vacant), permit.slot as int)
    } else {
        view
    }
}

/// The registry after a lease is released.
pub open spec fn lease_released<D>(view: RegistryView<D>, lease: LeaseView) -> RegistryView<D> {
    if current(view, lease.slot, lease.generation) {
        match view.slots[lease.slot as int].state {
            StateView::Ready { leases, backing } => with_state(
                view,
                lease.slot as int,
                StateView::Ready {
                    leases: if leases > 0 {
                        (leases - 1) as usize
                    } else {
                        leases
                    },
                    backing,
                },
            ),
            _ => view,
        }
    } else {
        view
    }
}

/// The registry after the first `k` leases are released.
pub open spec fn leases_released<D>(view: RegistryView<D>, leases: Seq<LeaseView>, k: int) -> RegistryView<
    D,
>
    decreases k,
{
    if k <= 0 {
        view
    } else {
        lease_released(leases_released(view, leases, k - 1), leases[k - 1])
    }
}

/// Releasing leases changes nothing but the number of users of ready libraries.
pub proof fn lemma_leases_released<D>(view: RegistryView<D>, leases: Seq<LeaseView>, k: int, at: int)
    requires
        0 <= k <= leases.len(),
        0 <= at < view.slots.len(),
    ensures
        ({
            let after = leases_released(view, leases, k);
            &&& after.slots.len() == view.slots.len()
            &&& after.failed_backings == view.failed_backings
            &&& after.slots[at].generation == view.slots[at].generation
            &&& after.slots[at].signal == view.slots[at].signal
            &&& after.slots[at].domain == view.slots[at].domain
            &&& after.slots[at].soname == view.slots[at].soname
            &&& match view.slots[at].state {
                StateView::Ready { leases: _, backing } => match after.slots[at].state {
                    StateView::Ready { leases: _, backing: kept } => kept == backing,
                    _ => false,
                },
                _ => after.slots[at].state == view.slots[at].state,
            }
        }),
    decreases k,
{
    if k > 0 {
        lemma_leases_released(view, leases, k - 1, at);
    }
}

/// What a slot is claimed for.
pub enum Claim {
    Load(LoadPermit),
    Import(SystemDsoLease),
    InFlight,
}

impl<D> Default for SystemDsoRegistry<D> {
    fn default() -> (r: Self)
        ensures
            r@.slots.len() == 0,
            r@.failed_backings.len() == 0,
            r@.resolution == 0,
    {
        SystemDsoRegistry::new()
    }
}

impl<D> SystemDsoRegistry<D> {
    /// A registry without libraries.
    pub fn new() -> (r: Self)
        ensures
            r@.slots.len() == 0,
            r@.resolution == 0,
            r@.failed_backings.len() == 0,
    {
        SystemDsoRegistry { slots: Vec::new(), resolution: 0, failed_backings: Vec::new() }
    }

    pub fn position(&self, domain: LinkDomainId, soname: &DependencyName) -> (r: Option<usize>)
        ensures
            match find_slot(self@.slots, domain, soname@) {
                Some(i) => r matches Some(found) && found == i && found < self@.slots.len(),
                None => r is None,
            },
            self@.slots.len() <= usize::MAX,
    {
        let n: usize = self.slots.len();
        let mut index: usize = 0;
        while index < n
            invariant
                index <= n == self.slots@.len(),
                find_slot(self@.slots, domain, soname@) == find_from(
                    self@.slots,
                    domain,
                    soname@,
                    index as int,
                ),
            decreases n - index,
        {
            assert(self@.slots[index as int] == self.slots@[index as int]@);
            if self.slots[index].domain == domain && self.slots[index].soname.same(soname) {
                return Some(index);
            }
            index = index + 1;
        }
        None
    }

    /// The slot of a library, which is made if there is none.
    pub(crate) fn ensure_slot(&mut self, domain: LinkDomainId, soname: &DependencyName) -> (r: usize)
        ensures
            r == ensured_at(old(self)@.slots, domain, soname@),
            final(self)@ == (RegistryView {
                slots: ensured(old(self)@.slots, domain, soname@),
                ..old(self)@
            }),
            r < final(self)@.slots.len(),
            final(self)@.slots.len() <= usize::MAX,
    {
        if let Some(index) = self.position(domain, soname) {
            assert(self@ =~= (RegistryView {
                slots: ensured(old(self)@.slots, domain, soname@),
                ..old(self)@
            }));
            return index;
        }
        self.slots.push(
            Slot {
                domain,
                soname: soname.clone(),
                generation: 0,
                state: InstanceState::Vacant,
                signal: 0,
            },
        );
        assert(self@.slots =~= ensured(old(self)@.slots, domain, soname@));
        self.slots.len() - 1
    }

    /// Puts a state into a slot and returns the one that was there.
    pub(crate) fn replace_state(&mut self, index: usize, state: InstanceState<D>) -> (r: InstanceState<D>)
        requires
            index < old(self)@.slots.len(),
        ensures
            r@ == old(self)@.slots[index as int].state,
            final(self)@ == with_state(old(self)@, index as int, state@),
    {
        let mut out: InstanceState<D> = state;
        core::mem::swap(&mut self.slots[index].state, &mut out);
        assert(self@.slots =~= with_state(old(self)@, index as int, state@).slots);
        out
    }

    /// Starts a new generation of a slot.
    fn advance_generation(&mut self, index: usize) -> (r: u32)
        requires
            index < old(self)@.slots.len(),
        ensures
            r == next_generation(old(self)@.slots[index as int].generation),
            final(self)@ == (RegistryView {
                slots: old(self)@.slots.update(
                    index as int,
                    SlotView { generation: r, ..old(self)@.slots[index as int] },
                ),
                ..old(self)@
            }),
    {
        let generation: u32 = self.slots[index].generation.wrapping_add(1);
        self.slots[index].generation = generation;
        assert(self@.slots =~= old(self)@.slots.update(
            index as int,
            SlotView { generation, ..old(self)@.slots[index as int] },
        ));
        generation
    }

    /// Tells the waiters of a slot.
    pub(crate) fn wake(&mut self, index: usize)
        requires
            index < old(self)@.slots.len(),
        ensures
            final(self)@ == woken(old(self)@, index as int),
    {
        let signal: usize = self.slots[index].signal.wrapping_add(1);
        self.slots[index].signal = signal;
        self.resolution = self.resolution.wrapping_add(1);
        assert(self@.slots =~= woken(old(self)@, index as int).slots);
    }

    /// Whether a token speaks of the present generation of a slot.
    pub(crate) fn is_current(&self, slot: usize, generation: u32) -> (r: bool)
        ensures
            r == current(self@, slot, generation),
    {
        slot < self.slots.len() && self.slots[slot].generation == generation
    }

    /// Hands the library of a slot out.
    pub(crate) fn claim_slot(&mut self, index: usize) -> (r: Claim)
        requires
            index < old(self)@.slots.len(),
        ensures
            final(self)@ == handed_out(old(self)@, index as int),
            match old(self)@.slots[index as int].state {
                StateView::Vacant => r == Claim::Load(permit_for(old(self)@, index as int)),
                StateView::Failed => r == Claim::Load(permit_for(old(self)@, index as int)),
                StateView::Ready { .. } => r matches Claim::Import(lease) && lease@ == lease_for(
                    old(self)@,
                    index as int,
                ),
                _ => r is InFlight,
            },
    {
        assert(self@.slots[index as int] == self.slots@[index as int]@);
        let begins: bool = match &self.slots[index].state {
            InstanceState::Vacant => true,
            InstanceState::Failed => true,
            InstanceState::Ready { .. } => false,
            _ => {
                return Claim::InFlight;
            },
        };
        if begins {
            self.replace_state(index, InstanceState::Loading);
            let generation: u32 = self.advance_generation(index);
            assert(self@.slots =~= handed_out(old(self)@, index as int).slots);
            return Claim::Load(LoadPermit { slot: index, generation });
        }
        if let InstanceState::Ready { leases, .. } = &mut self.slots[index].state {
            *leases = leases.saturating_add(1);
        }
        assert(self@.slots =~= handed_out(old(self)@, index as int).slots);
        Claim::Import(
            SystemDsoLease {
                slot: index,
                generation: self.slots[index].generation,
                domain: self.slots[index].domain,
                soname: self.slots[index].soname.clone(),
            },
        )
    }

    /// Asks for a library. A vacant one is to be loaded by the caller, in a new
    /// generation; a ready one is leased; one in flight is to be waited for.
    pub fn acquire_or_begin_load(&mut self, domain: LinkDomainId, soname: DependencyName) -> (r:
        AcquireOutcome)
        ensures
            ({
                let known = RegistryView {
                    slots: ensured(old(self)@.slots, domain, soname@),
                    ..old(self)@
                };
                let i = ensured_at(old(self)@.slots, domain, soname@);
                &&& final(self)@ == handed_out(known, i)
                &&& match known.slots[i].state {
                    StateView::Vacant => r == AcquireOutcome::Permit(permit_for(known, i)),
                    StateView::Failed => r == AcquireOutcome::Permit(permit_for(known, i)),
                    StateView::Ready { .. } => r matches AcquireOutcome::Lease(lease) && lease@
                        == lease_for(known, i),
                    _ => r == AcquireOutcome::Pending(
                        WaitHandle {
                            slot: i as usize,
                            generation: known.slots[i].generation,
                            observed: known.slots[i].signal,
                        },
                    ),
                }
            }),
            match pending_at(old(self)@, domain, soname@) {
                Some(handle) => r == AcquireOutcome::Pending(handle),
                None => !(r is Pending),
            },
    {
        let index: usize = self.ensure_slot(domain, &soname);
        match self.claim_slot(index) {
            Claim::Load(permit) => AcquireOutcome::Permit(permit),
            Claim::Import(lease) => AcquireOutcome::Lease(lease),
            Claim::InFlight => AcquireOutcome::Pending(
                WaitHandle {
                    slot: index,
                    generation: self.slots[index].generation,
                    observed: self.slots[index].signal,
                },
            ),
        }
    }

    /// Gives up the load of a library before it was relocated.
    pub fn cancel_load(&mut self, permit: LoadPermit)
        ensures
            final(self)@ == load_cancelled(old(self)@, permit),
    {
        if !self.is_current(permit.slot, permit.generation) {
            return;
        }
        assert(self@.slots[permit.slot as int] == self.slots@[permit.slot as int]@);
        let loading: bool = match &self.slots[permit.slot].state {
            InstanceState::Loading => true,
            _ => false,
        };
        if loading {
            self.replace_state(permit.slot, InstanceState::Vacant);
            self.wake(permit.slot);
        }
    }

    /// Gives up a library that was relocated but not published.
    pub fn cancel_relocated(&mut self, permit: RelocatedPermit)
        ensures
            final(self)@ == relocation_cancelled(old(self)@, permit),
    {
        if !self.is_current(permit.slot, permit.generation) {
            return;
        }
        assert(self@.slots[permit.slot as int] == self.slots@[permit.slot as int]@);
        let relocated: bool = match &self.slots[permit.slot].state {
            InstanceState::Relocated => true,
            _ => false,
        };
        if relocated {
            self.replace_state(permit.slot, InstanceState::Vacant);
            self.wake(permit.slot);
        }
    }

    /// Gives up one use of a ready instance, which stays ready.
    pub fn release_lease(&mut self, lease: SystemDsoLease)
        ensures
            final(self)@ == lease_released(old(self)@, lease@),
    {
        if !self.is_current(lease.slot, lease.generation) {
            return;
        }
        assert(self@.slots[lease.slot as int] == self.slots@[lease.slot as int]@);
        if let InstanceState::Ready { leases, .. } = &mut self.slots[lease.slot].state {
            *leases = leases.saturating_sub(1);
        }
        assert(self@ =~= lease_released(old(self)@, lease@));
    }

    /// Gives up several uses of ready instances.
    pub(crate) fn release_leases(&mut self, leases: Vec<SystemDsoLease>)
        ensures
            final(self)@ == leases_released(
                old(self)@,
                lease_views(leases@),
                leases@.len() as int,
            ),
    {
        let ghost all = leases@;
        let ghost before = self@;
        let mut rest = leases;
        let ghost mut done: int = 0;
        assert(rest@ =~= all.subrange(0, all.len() as int));
        while rest.len() > 0
            invariant
                0 <= done <= all.len(),
                rest@ == all.subrange(done, all.len() as int),
                self@ == leases_released(before, lease_views(all), done),
            decreases rest@.len(),
        {
            let lease: SystemDsoLease = rest.remove(0);
            assert(lease == all[done]);
            self.release_lease(lease);
            proof {
                assert(lease_views(all)[done] == lease@);
                assert(rest@ =~= all.subrange(done + 1, all.len() as int));
                done = done + 1;
            }
        }
    }

    /// Whether the instance that a ticket waits for has been resolved.
    pub fn is_resolved(&self, handle: &WaitHandle) -> (r: bool)
        ensures
            r == resolved(self@, *handle),
    {
        handle.slot >= self.slots.len() || self.slots[handle.slot].signal != handle.observed
    }

    /// Whether any instance has been resolved since a ticket was handed out.
    pub fn is_batch_resolved(&self, wait: &SystemBatchWait) -> (r: bool)
        ensures
            r == (self@.resolution != wait.observed),
    {
        self.resolution != wait.observed
    }

    /// Records that the image of a library has been relocated. It stays in flight, so
    /// nobody who waits for it is told.
    pub fn publish_relocated(&mut self, permit: LoadPermit) -> (r: LoadResult<RelocatedPermit>)
        ensures
            ({
                let i = permit.slot as int;
                if current(old(self)@, permit.slot, permit.generation) && old(self)@.slots[i].state
                    is Loading {
                    &&& r == Ok::<RelocatedPermit, LoadError>(
                        RelocatedPermit { slot: permit.slot, generation: permit.generation },
                    )
                    &&& final(self)@ == with_state(old(self)@, i, StateView::Relocated)
                } else {
                    &&& r == Err::<RelocatedPermit, LoadError>(stale())
                    &&& final(self)@ == old(self)@
                }
            }),
    {
        if !self.is_current(permit.slot, permit.generation) {
            return Err(stale_error());
        }
        assert(self@.slots[permit.slot as int] == self.slots@[permit.slot as int]@);
        let loading: bool = match &self.slots[permit.slot].state {
            InstanceState::Loading => true,
            _ => false,
        };
        if !loading {
            return Err(stale_error());
        }
        self.replace_state(permit.slot, InstanceState::Relocated);
        Ok(RelocatedPermit { slot: permit.slot, generation: permit.generation })
    }
}

/// Once a library has been handed out to be loaded, it is not handed out again
/// before that load is resolved, and its generation is a new one.
pub proof fn loads_are_granted_once<D>(view: RegistryView<D>, i: int)
    requires
        0 <= i < view.slots.len(),
        view.slots[i].state is Vacant || view.slots[i].state is Failed,
    ensures
        !obtainable(handed_out(view, i).slots[i].state),
        handed_out(handed_out(view, i), i) == handed_out(view, i),
        handed_out(view, i).slots[i].generation != view.slots[i].generation,
{
}

/// A load that is cancelled leaves the library to be loaded by another link, in yet
/// another generation.
pub proof fn cancelled_loads_start_over<D>(view: RegistryView<D>, i: int)
    requires
        0 <= i < view.slots.len() <= usize::MAX,
        view.slots[i].state is Vacant || view.slots[i].state is Failed,
    ensures
        ({
            let loading = handed_out(view, i);
            let after = load_cancelled(loading, permit_for(view, i));
            &&& after.slots[i].state is Vacant
            &&& after.slots[i].generation == loading.slots[i].generation
            &&& after.slots[i].signal != loading.slots[i].signal
            &&& after.failed_backings == loading.failed_backings
        }),
{
}

/// A lease that is released leaves the registry as it was.
pub proof fn released_leases_leave_nothing<D>(view: RegistryView<D>, i: int)
    requires
        0 <= i < view.slots.len() <= usize::MAX,
        view.slots[i].state matches StateView::Ready { leases, backing } && leases < usize::MAX,
    ensures
        lease_released(handed_out(view, i), lease_for(view, i)) == view,
{
    assert(lease_released(handed_out(view, i), lease_for(view, i)).slots =~= view.slots);
}

/// Tokens of another generation change nothing.
pub proof fn stale_tokens_change_nothing<D>(view: RegistryView<D>, slot: usize, generation: u32)
    requires
        !current(view, slot, generation),
    ensures
        load_cancelled(view, LoadPermit { slot, generation }) == view,
        relocation_cancelled(view, RelocatedPermit { slot, generation }) == view,
        forall|lease: LeaseView|
            lease.slot == slot && lease.generation == generation ==> #[trigger] lease_released(
                view,
                lease,
            ) == view,
{
}

/// A permit or a lease works for the slot and the generation that it names, and for no other.
/// A cancelled load, and a cancelled relocation, make the library vacant in the same
/// generation and tell its waiters. A released lease takes away one user of a ready library
/// and tells nobody. What stands in other slots stays as it is.
pub proof fn tokens_work_for_their_generation<D>(
    view: RegistryView<D>,
    slot: usize,
    generation: u32,
    lease: LeaseView,
)
    requires
        lease.slot == slot,
        lease.generation == generation,
    ensures
        slot >= view.slots.len() || view.slots[slot as int].generation != generation ==> {
            &&& load_cancelled(view, LoadPermit { slot, generation }) == view
            &&& relocation_cancelled(view, RelocatedPermit { slot, generation }) == view
            &&& lease_released(view, lease) == view
        },
        slot < view.slots.len() && view.slots[slot as int].generation == generation
            ==> cancelled_slot(
            view,
            load_cancelled(view, LoadPermit { slot, generation }),
            slot as int,
            view.slots[slot as int].state is Loading,
        ),
        slot < view.slots.len() && view.slots[slot as int].generation == generation
            ==> cancelled_slot(
            view,
            relocation_cancelled(view, RelocatedPermit { slot, generation }),
            slot as int,
            view.slots[slot as int].state is Relocated,
        ),
        slot < view.slots.len() && view.slots[slot as int].generation == generation ==> {
            let after = lease_released(view, lease);
            &&& after.slots.len() == view.slots.len()
            &&& after.resolution == view.resolution
            &&& after.failed_backings == view.failed_backings
            &&& forall|j: int|
                0 <= j < view.slots.len() && j != slot ==> #[trigger] after.slots[j]
                    == view.slots[j]
            &&& after.slots[slot as int].signal == view.slots[slot as int].signal
            &&& match view.slots[slot as int].state {
                StateView::Ready { leases, backing } => after.slots[slot as int].state
                    == (StateView::Ready {
                    leases: if leases == 0 {
                        0usize
                    } else {
                        (leases - 1) as usize
                    },
                    backing,
                }),
                _ => after.slots[slot as int] == view.slots[slot as int],
            }
        },
{
}

/// Whether slot `i` was made vacant and its waiters were told, if `cancelled`, and nothing
/// else changed.
pub open spec fn cancelled_slot<D>(
    before: RegistryView<D>,
    after: RegistryView<D>,
    i: int,
    cancelled: bool,
) -> bool {
    &&& after.slots.len() == before.slots.len()
    &&& after.failed_backings == before.failed_backings
    &&& forall|j: int|
        0 <= j < before.slots.len() && j != i ==> #[trigger] after.slots[j] == before.slots[j]
    &&& after.slots[i].domain == before.slots[i].domain
    &&& after.slots[i].soname == before.slots[i].soname
    &&& after.slots[i].generation == before.slots[i].generation
    &&& if cancelled {
        &&& after.slots[i].state is Vacant
        &&& after.slots[i].signal == if before.slots[i].signal == usize::MAX {
            0
        } else {
            before.slots[i].signal + 1
        }
        &&& after.resolution == if before.resolution == usize::MAX {
            0
        } else {
            before.resolution + 1
        }
    } else {
        after == before
    }
}

/// A library is handed out by what it is. A vacant or failed one is to be loaded, in the next
/// generation, which its permit names. A ready one has one more user, with a lease on the
/// present generation. One in flight is not handed out. No other slot changes, and nobody
/// is told.
pub proof fn libraries_are_handed_out_by_their_state<D>(view: RegistryView<D>, i: int)
    requires
        0 <= i < view.slots.len() <= usize::MAX,
    ensures
        ({
            let slot = view.slots[i];
            let after = handed_out(view, i);
            &&& after.slots.len() == view.slots.len()
            &&& after.resolution == view.resolution
            &&& after.failed_backings == view.failed_backings
            &&& forall|j: int|
                0 <= j < view.slots.len() && j != i ==> #[trigger] after.slots[j] == view.slots[j]
            &&& after.slots[i].domain == slot.domain
            &&& after.slots[i].soname == slot.soname
            &&& after.slots[i].signal == slot.signal
            &&& permit_for(view, i).slot == i
            &&& permit_for(view, i).generation == if slot.generation == u32::MAX {
                0
            } else {
                slot.generation + 1
            }
            &&& lease_for(view, i).slot == i
            &&& lease_for(view, i).generation == slot.generation
            &&& lease_for(view, i).domain == slot.domain
            &&& lease_for(view, i).soname == slot.soname
            &&& match slot.state {
                StateView::Vacant | StateView::Failed => {
                    &&& after.slots[i].state is Loading
                    &&& after.slots[i].generation == permit_for(view, i).generation
                },
                StateView::Ready { leases, backing } => {
                    &&& after.slots[i].generation == slot.generation
                    &&& after.slots[i].state == (StateView::Ready {
                        leases: if leases == usize::MAX {
                            leases
                        } else {
                            (leases + 1) as usize
                        },
                        backing,
                    })
                },
                _ => after.slots[i] == slot,
            }
        }),
{
}

/// A library is found in the first slot of its name in its domain. Where it has none it gets
/// one behind the others, vacant and never used. No other slot changes.
pub proof fn libraries_get_a_slot<D>(slots: Seq<SlotView<D>>, domain: LinkDomainId, soname: Seq<u8>)
    ensures
        ({
            let i = ensured_at(slots, domain, soname);
            let after = ensured(slots, domain, soname);
            &&& 0 <= i < after.len()
            &&& after[i].domain == domain
            &&& after[i].soname == soname
            &&& forall|j: int|
                0 <= j < slots.len() && j < i ==> (#[trigger] slots[j]).domain != domain
                    || slots[j].soname != soname
            &&& forall|j: int| 0 <= j < slots.len() ==> #[trigger] after[j] == slots[j]
            &&& i < slots.len() ==> after.len() == slots.len()
            &&& i >= slots.len() ==> i == slots.len() && after.len() == slots.len() + 1
                && after[i].state is Vacant && after[i].generation == 0 && after[i].signal == 0
        }),
{
    lemma_find_from(slots, domain, soname, 0);
    lemma_find_first(slots, domain, soname, 0);
}

proof fn lemma_find_first<D>(
    slots: Seq<SlotView<D>>,
    domain: LinkDomainId,
    soname: Seq<u8>,
    from: int,
)
    requires
        0 <= from <= slots.len(),
    ensures
        find_from(slots, domain, soname, from) matches Some(i) ==> forall|j: int|
            from <= j < i ==> (#[trigger] slots[j]).domain != domain || slots[j].soname != soname,
    decreases slots.len() - from,
{
    if from < slots.len() {
        lemma_find_first(slots, domain, soname, from + 1);
    }
}

/// How many of the first `k` leases are uses of the library in slot `at` in this generation.
pub open spec fn uses_of(leases: Seq<LeaseView>, k: int, at: int, generation: u32) -> int
    decreases k,
{
    if k <= 0 {
        0
    } else {
        uses_of(leases, k - 1, at, generation) + if leases[k - 1].slot == at
            && leases[k - 1].generation == generation {
            1int
        } else {
            0int
        }
    }
}

/// Releasing leases takes one user away for every one of them, from the library and the
/// generation that it is a lease on.
pub proof fn released_leases_are_counted<D>(
    view: RegistryView<D>,
    leases: Seq<LeaseView>,
    k: int,
    at: int,
)
    requires
        0 <= k <= leases.len(),
        0 <= at < view.slots.len(),
        view.slots[at].state is Ready,
    ensures
        ({
            let after = leases_released(view, leases, k);
            let used = uses_of(leases, k, at, view.slots[at].generation);
            &&& 0 <= used <= k
            &&& after.slots.len() == view.slots.len()
            &&& after.slots[at].generation == view.slots[at].generation
            &&& view.slots[at].state matches StateView::Ready { leases: before, backing }
                && after.slots[at].state matches StateView::Ready { leases: left, backing: kept }
                && kept == backing && left == if used <= before {
                before - used
            } else {
                0
            }
        }),
    decreases k,
{
    if k > 0 {
        released_leases_are_counted(view, leases, k - 1, at);
    }
}

} // verus!
