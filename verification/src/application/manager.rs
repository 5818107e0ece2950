//! The applications that have been launched.
//!
//! Every application has a slot. A handle names the slot and its generation, so that
//! a handle of an application that is gone never reaches the next one in its slot.

use crate::application::group::{member_from, GroupState, ThreadGroup, ThreadGroupBackend};
use crate::application::publication::KernelLinkReceipt;
use crate::bytes::bytes_equal;
use crate::dynamic_linker::publish::LinkProduct;
use vstd::prelude::*;

verus! {

/// How an application runs.
#[derive(Clone, Copy, Debug, Eq, PartialEq, Structural)]
pub enum ExecutionModel {
    /// As a group of threads in the shared address space.
    ThreadGroup,
    /// As a process of its own, which is not supported.
    Process,
}

/// How far an application has come.
#[derive(Clone, Copy, Debug, Eq, PartialEq, Structural)]
pub enum ApplicationState {
    Loading,
    Running,
    Stopping,
    Terminated,
    Failed,
}

/// A slot and the generation that it had.
#[derive(Clone, Copy, Debug, Eq, PartialEq, Structural)]
pub struct ApplicationHandle {
    pub slot: u32,
    pub generation: u32,
}

/// What is told of an application.
#[derive(Clone, Copy, Debug, Eq, PartialEq, Structural)]
pub struct ApplicationSnapshot {
    pub handle: ApplicationHandle,
    pub state: ApplicationState,
    pub model: ExecutionModel,
}

#[derive(Clone, Copy, Debug, Eq, PartialEq, Structural)]
pub enum ApplicationLaunchError {
    UnsupportedExecutionModel(ExecutionModel),
    PrepareFailed,
    StaleGeneration,
    AlreadyReleased,
    InvalidTransition { from: ApplicationState, to: ApplicationState },
}

/// A link that was not installed.
pub struct RefusedLink {
    pub error: ApplicationLaunchError,
    pub product: LinkProduct<KernelLinkReceipt>,
}

/// What to launch.
pub struct OwnedLaunchRequest {
    pub model: ExecutionModel,
    pub identity: Vec<u8>,
}

impl OwnedLaunchRequest {
    #[inline]
    pub fn new(model: ExecutionModel, identity: Vec<u8>) -> (r: Self)
        ensures
            r == (OwnedLaunchRequest { model, identity }),
    {
        OwnedLaunchRequest { model, identity }
    }

    #[inline]
    pub fn model(&self) -> (r: ExecutionModel)
        ensures
            r == self.model,
    {
        self.model
    }

    #[inline]
    pub fn identity(&self) -> (r: &[u8])
        ensures
            r@ == self.identity@,
    {
        self.identity.as_slice()
    }
}

/// Whether a slot is free.
#[derive(Clone, Copy, Debug, Eq, PartialEq, Structural)]
pub enum SlotState {
    Vacant,
    Occupied(ApplicationState),
}

/// One application, or the room for one.
pub struct Slot {
    pub identity: Vec<u8>,
    pub model: ExecutionModel,
    pub generation: u32,
    pub state: SlotState,
    pub group: ThreadGroup,
}

/// What a slot holds.
pub struct SlotView {
    pub identity: Seq<u8>,
    pub model: ExecutionModel,
    pub generation: u32,
    pub state: SlotState,
}

impl View for Slot {
    type V = SlotView;

    open spec fn view(&self) -> SlotView {
        SlotView {
            identity: self.identity@,
            model: self.model,
            generation: self.generation,
            state: self.state,
        }
    }
}

/// The state that a failed transition reports for a slot.
pub open spec fn occupied_spec(state: SlotState) -> ApplicationState {
    match state {
        SlotState::Occupied(state) => state,
        SlotState::Vacant => ApplicationState::Terminated,
    }
}

fn occupied_state(state: SlotState) -> (r: ApplicationState)
    ensures
        r == occupied_spec(state),
{
    match state {
        SlotState::Occupied(state) => state,
        SlotState::Vacant => ApplicationState::Terminated,
    }
}

impl Slot {
    /// Goes from one state to another; any other state is reported.
    pub fn transition(&mut self, from: ApplicationState, to: ApplicationState) -> (r: Result<
        (),
        ApplicationLaunchError,
    >)
        ensures
            final(self).identity == old(self).identity,
            final(self).group == old(self).group,
            if old(self).state == SlotState::Occupied(from) {
                r is Ok && final(self)@ == (SlotView {
                    state: SlotState::Occupied(to),
                    ..old(self)@
                })
            } else {
                r == Err::<(), ApplicationLaunchError>(
                    ApplicationLaunchError::InvalidTransition {
                        from: occupied_spec(old(self).state),
                        to,
                    },
                ) && final(self)@ == old(self)@
            },
    {
        if self.state != SlotState::Occupied(from) {
            return Err(
                ApplicationLaunchError::InvalidTransition {
                    from: occupied_state(self.state),
                    to,
                },
            );
        }
        self.state = SlotState::Occupied(to);
        Ok(())
    }
}

/// All applications.
pub struct ApplicationManager {
    pub slots: Vec<Slot>,
    pub thread_groups: ThreadGroupBackend,
}

impl View for ApplicationManager {
    type V = Seq<SlotView>;

    open spec fn view(&self) -> Seq<SlotView> {
        Seq::new(self.slots@.len(), |i: int| self.slots@[i]@)
    }
}

/// Whether every slot but `slot` is as it was, its group of threads among it.
pub open spec fn others_kept(before: Seq<Slot>, after: Seq<Slot>, slot: int) -> bool {
    &&& before.len() <= after.len()
    &&& forall|j: int| 0 <= j < before.len() && j != slot ==> after[j] == #[trigger] before[j]
}

/// The first free slot from `from` on that last held this identity.
pub open spec fn vacant_of(slots: Seq<SlotView>, identity: Seq<u8>, from: int) -> Option<int>
    decreases slots.len() - from,
{
    if from >= slots.len() {
        None
    } else if slots[from].state == SlotState::Vacant && slots[from].identity == identity {
        Some(from)
    } else {
        vacant_of(slots, identity, from + 1)
    }
}

/// The first free slot from `from` on.
pub open spec fn first_vacant(slots: Seq<SlotView>, from: int) -> Option<int>
    decreases slots.len() - from,
{
    if from >= slots.len() {
        None
    } else if slots[from].state == SlotState::Vacant {
        Some(from)
    } else {
        first_vacant(slots, from + 1)
    }
}

/// The first application from `from` on with this identity.
pub open spec fn occupied_of(slots: Seq<SlotView>, identity: Seq<u8>, from: int) -> Option<int>
    decreases slots.len() - from,
{
    if from >= slots.len() {
        None
    } else if slots[from].state != SlotState::Vacant && slots[from].identity == identity {
        Some(from)
    } else {
        occupied_of(slots, identity, from + 1)
    }
}

/// The slot that a launch takes: the one that last held the identity, else any
/// free one, else a new one.
pub open spec fn reserved_at(slots: Seq<SlotView>, identity: Seq<u8>) -> int {
    match vacant_of(slots, identity, 0) {
        Some(i) => i,
        None => match first_vacant(slots, 0) {
            Some(i) => i,
            None => slots.len() as int,
        },
    }
}

/// The generation after `generation`.
pub open spec fn next_generation(generation: u32) -> u32 {
    if generation < u32::MAX {
        (generation + 1) as u32
    } else {
        0
    }
}

/// The generation of a launch.
pub open spec fn reserved_generation(slots: Seq<SlotView>, identity: Seq<u8>) -> u32 {
    let i = reserved_at(slots, identity);
    if i < slots.len() {
        next_generation(slots[i].generation)
    } else {
        1
    }
}

/// The slots after a launch took its own.
pub open spec fn reserved(slots: Seq<SlotView>, identity: Seq<u8>, model: ExecutionModel) -> Seq<
    SlotView,
> {
    let i = reserved_at(slots, identity);
    let slot = SlotView {
        identity,
        model,
        generation: reserved_generation(slots, identity),
        state: SlotState::Occupied(ApplicationState::Loading),
    };
    if i < slots.len() {
        slots.update(i, slot)
    } else {
        slots.push(slot)
    }
}

/// The slots with another state in slot `i`.
pub open spec fn with_state(slots: Seq<SlotView>, i: int, state: SlotState) -> Seq<SlotView> {
    slots.update(i, SlotView { state, ..slots[i] })
}

/// Whether a handle names an application that is there.
pub open spec fn live(slots: Seq<SlotView>, handle: ApplicationHandle) -> bool {
    &&& handle.slot < slots.len()
    &&& slots[handle.slot as int].generation == handle.generation
    &&& slots[handle.slot as int].state != SlotState::Vacant
}

/// What is told of the application in slot `i`.
pub open spec fn snapshot(slots: Seq<SlotView>, i: int) -> ApplicationSnapshot {
    ApplicationSnapshot {
        handle: ApplicationHandle { slot: i as u32, generation: slots[i].generation },
        state: occupied_spec(slots[i].state),
        model: slots[i].model,
    }
}

/// The slots after the preparation of a launch came to an end.
pub open spec fn completed(
    slots: Seq<SlotView>,
    slot: int,
    generation: u32,
    result: Result<(), ApplicationLaunchError>,
) -> (Seq<SlotView>, Result<ApplicationHandle, ApplicationLaunchError>) {
    if slots[slot].generation != generation {
        (slots, Err(ApplicationLaunchError::StaleGeneration))
    } else {
        match result {
            Err(error) => (
                with_state(slots, slot, SlotState::Occupied(ApplicationState::Failed)),
                Err(error),
            ),
            Ok(_) => if slots[slot].state == SlotState::Occupied(ApplicationState::Loading) {
                (
                    with_state(slots, slot, SlotState::Occupied(ApplicationState::Running)),
                    Ok(ApplicationHandle { slot: slot as u32, generation }),
                )
            } else {
                (
                    slots,
                    Err(
                        ApplicationLaunchError::InvalidTransition {
                            from: occupied_spec(slots[slot].state),
                            to: ApplicationState::Running,
                        },
                    ),
                )
            },
        }
    }
}

/// Whether a launch went like this: while its preparation ran, on a new group of
/// threads, the manager was as `during`; the preparation ended with `result`.
pub open spec fn launched(
    before: ApplicationManager,
    during: ApplicationManager,
    after: ApplicationManager,
    request: OwnedLaunchRequest,
    group: ThreadGroup,
    result: Result<(), ApplicationLaunchError>,
    r: Result<ApplicationHandle, ApplicationLaunchError>,
) -> bool {
    let at = reserved_at(before@, request.identity@);
    let generation = reserved_generation(before@, request.identity@);
    &&& group.state == GroupState::New
    &&& group.members@.len() == 0
    &&& group.product is None
    &&& group.wf()
    &&& during@ == reserved(before@, request.identity@, request.model)
    &&& during.slots@[at].group == group
    &&& others_kept(before.slots@, during.slots@, at)
    &&& (after@, r) == completed(during@, at, generation, result)
    &&& after.slots@[at].group == group
    &&& others_kept(during.slots@, after.slots@, at)
}

impl ApplicationManager {
    /// Every application has a valid group of threads.
    pub open spec fn wf(self) -> bool {
        forall|i: int| 0 <= i < self.slots@.len() ==> (#[trigger] self.slots@[i]).group.wf()
    }

    pub fn new() -> (r: Self)
        ensures
            r@.len() == 0,
            r.wf(),
    {
        ApplicationManager { slots: Vec::new(), thread_groups: ThreadGroupBackend::new() }
    }

    /// Takes a slot for a launch, with a new group of threads in it.
    pub fn reserve(&mut self, request: OwnedLaunchRequest) -> (r: Result<
        (usize, u32),
        ApplicationLaunchError,
    >)
        ensures
            old(self).wf() ==> final(self).wf(),
            if request.model == ExecutionModel::Process {
                &&& r == Err::<(usize, u32), ApplicationLaunchError>(
                    ApplicationLaunchError::UnsupportedExecutionModel(request.model),
                )
                &&& *final(self) == *old(self)
            } else {
                &&& others_kept(
                    old(self).slots@,
                    final(self).slots@,
                    reserved_at(old(self)@, request.identity@),
                )
                &&& final(self)@ == reserved(old(self)@, request.identity@, request.model)
                &&& match r {
                    Ok((slot, generation)) => {
                        &&& slot == reserved_at(old(self)@, request.identity@)
                        &&& slot < final(self)@.len()
                        &&& generation == reserved_generation(old(self)@, request.identity@)
                        &&& final(self).slots@[slot as int].group.state == GroupState::New
                        &&& final(self).slots@[slot as int].group.members@.len() == 0
                        &&& final(self).slots@[slot as int].group.product is None
                        &&& final(self).slots@[slot as int].group.wf()
                    },
                    Err(_) => false,
                }
            },
    {
        if request.model == ExecutionModel::Process {
            return Err(ApplicationLaunchError::UnsupportedExecutionModel(request.model));
        }
        let group: ThreadGroup = self.thread_groups.create_group();
        let index: usize = self.choose_slot(request.identity.as_slice());
        let ghost wanted = reserved(self@, request.identity@, request.model);
        if index < self.slots.len() {
            let generation: u32 = self.slots[index].generation.wrapping_add(1);
            self.slots.set(
                index,
                Slot {
                    identity: request.identity,
                    model: request.model,
                    generation,
                    state: SlotState::Occupied(ApplicationState::Loading),
                    group,
                },
            );
            assert(self@ =~= wanted);
            return Ok((index, generation));
        }
        self.slots.push(
            Slot {
                identity: request.identity,
                model: request.model,
                generation: 1,
                state: SlotState::Occupied(ApplicationState::Loading),
                group,
            },
        );
        assert(self@ =~= wanted);
        Ok((index, 1))
    }

    fn choose_slot(&self, identity: &[u8]) -> (r: usize)
        ensures
            r == reserved_at(self@, identity@),
            r <= self.slots@.len(),
    {
        let n: usize = self.slots.len();
        let mut index: usize = 0;
        while index < n
            invariant
                index <= n == self.slots@.len(),
                vacant_of(self@, identity@, 0) == vacant_of(self@, identity@, index as int),
            decreases n - index,
        {
            assert(self@[index as int] == self.slots@[index as int]@);
            if self.slots[index].state == SlotState::Vacant && bytes_equal(
                self.slots[index].identity.as_slice(),
                identity,
            ) {
                return index;
            }
            index = index + 1;
        }
        let mut at: usize = 0;
        while at < n
            invariant
                at <= n == self.slots@.len(),
                vacant_of(self@, identity@, 0) is None,
                first_vacant(self@, 0) == first_vacant(self@, at as int),
            decreases n - at,
        {
            assert(self@[at as int] == self.slots@[at as int]@);
            if self.slots[at].state == SlotState::Vacant {
                return at;
            }
            at = at + 1;
        }
        n
    }

    /// Ends the preparation of a launch: the application runs, or its slot tells of
    /// the failure.
    pub fn complete(
        &mut self,
        slot: usize,
        generation: u32,
        result: Result<(), ApplicationLaunchError>,
    ) -> (r: Result<ApplicationHandle, ApplicationLaunchError>)
        requires
            slot < old(self)@.len(),
        ensures
            (final(self)@, r) == completed(old(self)@, slot as int, generation, result),
            final(self).slots@[slot as int].group == old(self).slots@[slot as int].group,
            others_kept(old(self).slots@, final(self).slots@, slot as int),
            old(self).wf() ==> final(self).wf(),
    {
        assert(self@[slot as int] == self.slots@[slot as int]@);
        if self.slots[slot].generation != generation {
            return Err(ApplicationLaunchError::StaleGeneration);
        }
        match result {
            Ok(_) => {
                let moved = self.slots[slot].transition(
                    ApplicationState::Loading,
                    ApplicationState::Running,
                );
                assert(self@ =~= completed(old(self)@, slot as int, generation, result).0);
                match moved {
                    Ok(_) => {
                        #[verifier::truncate]
                        let number: u32 = slot as u32;
                        Ok(ApplicationHandle { slot: number, generation })
                    },
                    Err(error) => Err(error),
                }
            },
            Err(error) => {
                self.slots[slot].state = SlotState::Occupied(ApplicationState::Failed);
                assert(self@ =~= completed(old(self)@, slot as int, generation, result).0);
                Err(error)
            },
        }
    }

    /// Launches an application. The slot is taken before `prepare` runs; a failed
    /// preparation leaves a slot that tells of it. A process is refused, and takes
    /// no slot.
    pub fn launch<F: FnOnce(&ThreadGroup) -> Result<(), ApplicationLaunchError>>(
        &mut self,
        request: OwnedLaunchRequest,
        prepare: F,
    ) -> (r: Result<ApplicationHandle, ApplicationLaunchError>)
        requires
            forall|group: &ThreadGroup| #[trigger] call_requires(prepare, (group,)),
        ensures
            old(self).wf() ==> final(self).wf(),
            if request.model == ExecutionModel::Process {
                &&& r == Err::<ApplicationHandle, ApplicationLaunchError>(
                    ApplicationLaunchError::UnsupportedExecutionModel(request.model),
                )
                &&& *final(self) == *old(self)
            } else {
                exists|
                    during: ApplicationManager,
                    group: ThreadGroup,
                    result: Result<(), ApplicationLaunchError>,
                |
                    {
                        &&& #[trigger] call_ensures(prepare, (&group,), result)
                        &&& #[trigger] launched(
                            *old(self),
                            during,
                            *final(self),
                            request,
                            group,
                            result,
                            r,
                        )
                    }
            },
    {
        let ghost identity = request.identity@;
        proof {
            lemma_reserved_at(self@, identity);
        }
        let (slot, generation) = match self.reserve(request) {
            Ok(taken) => taken,
            Err(error) => return Err(error),
        };
        assert(self@.len() == self.slots@.len());
        let ghost during = *self;
        let ghost group = self.slots@[slot as int].group;
        let result = prepare(&self.slots[slot].group);
        let r = self.complete(slot, generation, result);
        assert(call_ensures(prepare, (&group,), result) && launched(
            *old(self),
            during,
            *self,
            request,
            group,
            result,
            r,
        ));
        r
    }

    fn is_live(&self, handle: ApplicationHandle) -> (r: bool)
        ensures
            r == live(self@, handle),
    {
        let index: usize = handle.slot as usize;
        index < self.slots.len() && self.slots[index].generation == handle.generation
            && self.slots[index].state != SlotState::Vacant
    }

    /// The group of an application that is there.
    pub fn group(&self, handle: ApplicationHandle) -> (r: Option<&ThreadGroup>)
        ensures
            match r {
                Some(group) => live(self@, handle) && *group == self.slots@[handle.slot as int].group,
                None => !live(self@, handle),
            },
    {
        if self.is_live(handle) {
            assert(self@.len() == self.slots@.len());
            Some(&self.slots[handle.slot as usize].group)
        } else {
            None
        }
    }

    /// Installs the link of an application that is there and has none yet. A link
    /// that is refused comes back.
    pub fn install_link_product(
        &mut self,
        handle: ApplicationHandle,
        product: LinkProduct<KernelLinkReceipt>,
    ) -> (r: Result<(), RefusedLink>)
        requires
            old(self).wf(),
        ensures
            final(self).wf(),
            final(self)@ == old(self)@,
            others_kept(old(self).slots@, final(self).slots@, handle.slot as int),
            ({
                let i = handle.slot as int;
                let group = old(self).slots@[i].group;
                if !live(old(self)@, handle) {
                    &&& r == Err::<(), RefusedLink>(
                        RefusedLink { error: ApplicationLaunchError::StaleGeneration, product },
                    )
                    &&& *final(self) == *old(self)
                } else if group.state == GroupState::New {
                    &&& r is Ok
                    &&& final(self).slots@[i].group.state == GroupState::Linked
                    &&& final(self).slots@[i].group.product == Some(product)
                    &&& final(self).slots@[i].group.members == group.members
                } else {
                    &&& r == Err::<(), RefusedLink>(
                        RefusedLink { error: ApplicationLaunchError::PrepareFailed, product },
                    )
                    &&& *final(self) == *old(self)
                }
            }),
    {
        if !self.is_live(handle) {
            return Err(RefusedLink { error: ApplicationLaunchError::StaleGeneration, product });
        }
        assert(self@.len() == self.slots@.len());
        let index: usize = handle.slot as usize;
        assert(self.slots@[index as int].group.wf());
        if self.slots[index].group.state() != GroupState::New {
            return Err(RefusedLink { error: ApplicationLaunchError::PrepareFailed, product });
        }
        let installed = self.slots[index].group.install_link_product(product);
        assert(installed is Ok);
        assert(self@ =~= old(self)@);
        Ok(())
    }

    /// Adds a thread to an application that is there.
    pub fn add_member(&mut self, handle: ApplicationHandle, id: usize) -> (r: Result<
        (),
        ApplicationLaunchError,
    >)
        requires
            old(self).wf(),
        ensures
            final(self).wf(),
            final(self)@ == old(self)@,
            others_kept(old(self).slots@, final(self).slots@, handle.slot as int),
            ({
                let i = handle.slot as int;
                let group = old(self).slots@[i].group;
                if !live(old(self)@, handle) {
                    &&& r == Err::<(), ApplicationLaunchError>(
                        ApplicationLaunchError::StaleGeneration,
                    )
                    &&& *final(self) == *old(self)
                } else {
                    &&& final(self).slots@[i].group.state == group.state
                    &&& final(self).slots@[i].group.product == group.product
                    &&& if group.members@.contains(id) {
                        &&& r == Err::<(), ApplicationLaunchError>(
                            ApplicationLaunchError::PrepareFailed,
                        )
                        &&& final(self).slots@[i].group.members@ == group.members@
                    } else {
                        &&& r is Ok
                        &&& final(self).slots@[i].group.members@ == group.members@.push(id)
                    }
                }
            }),
    {
        if !self.is_live(handle) {
            return Err(ApplicationLaunchError::StaleGeneration);
        }
        assert(self@.len() == self.slots@.len());
        let index: usize = handle.slot as usize;
        assert(self.slots@[index as int].group.wf());
        let added = self.slots[index].group.add_member(id);
        assert(self@ =~= old(self)@);
        match added {
            Ok(_) => Ok(()),
            Err(_) => Err(ApplicationLaunchError::PrepareFailed),
        }
    }

    /// Removes a thread from an application that is there.
    pub fn remove_member(&mut self, handle: ApplicationHandle, id: usize) -> (r: Result<
        (),
        ApplicationLaunchError,
    >)
        requires
            old(self).wf(),
        ensures
            final(self).wf(),
            final(self)@ == old(self)@,
            others_kept(old(self).slots@, final(self).slots@, handle.slot as int),
            ({
                let i = handle.slot as int;
                let group = old(self).slots@[i].group;
                if !live(old(self)@, handle) {
                    &&& r == Err::<(), ApplicationLaunchError>(
                        ApplicationLaunchError::StaleGeneration,
                    )
                    &&& *final(self) == *old(self)
                } else {
                    &&& final(self).slots@[i].group.state == group.state
                    &&& final(self).slots@[i].group.product == group.product
                    &&& match member_from(group.members@, id, 0) {
                        None => {
                            &&& r == Err::<(), ApplicationLaunchError>(
                                ApplicationLaunchError::PrepareFailed,
                            )
                            &&& final(self).slots@[i].group.members@ == group.members@
                        },
                        Some(at) => {
                            &&& r is Ok
                            &&& final(self).slots@[i].group.members@ == group.members@.update(
                                at,
                                group.members@.last(),
                            ).drop_last()
                        },
                    }
                }
            }),
    {
        if !self.is_live(handle) {
            return Err(ApplicationLaunchError::StaleGeneration);
        }
        assert(self@.len() == self.slots@.len());
        let index: usize = handle.slot as usize;
        assert(self.slots@[index as int].group.wf());
        let removed = self.slots[index].group.remove_member(id);
        assert(self@ =~= old(self)@);
        match removed {
            Ok(_) => Ok(()),
            Err(_) => Err(ApplicationLaunchError::PrepareFailed),
        }
    }

    /// Takes the link of an application that is there and has no threads any more.
    pub fn take_link_product(&mut self, handle: ApplicationHandle) -> (r: Option<
        LinkProduct<KernelLinkReceipt>,
    >)
        requires
            old(self).wf(),
        ensures
            final(self).wf(),
            final(self)@ == old(self)@,
            others_kept(old(self).slots@, final(self).slots@, handle.slot as int),
            ({
                let i = handle.slot as int;
                let group = old(self).slots@[i].group;
                if live(old(self)@, handle) && group.members@.len() == 0 {
                    &&& r == group.product
                    &&& final(self).slots@[i].group.product is None
                    &&& final(self).slots@[i].group.members == group.members
                } else {
                    &&& r is None
                    &&& *final(self) == *old(self)
                }
            }),
    {
        if !self.is_live(handle) {
            return None;
        }
        assert(self@.len() == self.slots@.len());
        let index: usize = handle.slot as usize;
        if !self.slots[index].group.is_empty() {
            return None;
        }
        let product = self.slots[index].group.take_link_product();
        assert(self@ =~= old(self)@);
        product
    }

    /// What is told of an application that is there.
    pub fn query(&self, handle: ApplicationHandle) -> (r: Option<ApplicationSnapshot>)
        ensures
            r == (if live(self@, handle) {
                Some(snapshot(self@, handle.slot as int))
            } else {
                None
            }),
    {
        if !self.is_live(handle) {
            return None;
        }
        assert(self@[handle.slot as int] == self.slots@[handle.slot as int]@);
        let slot: &Slot = &self.slots[handle.slot as usize];
        Some(
            ApplicationSnapshot { handle, state: occupied_state(slot.state), model: slot.model },
        )
    }

    /// What is told of the first application with an identity.
    pub fn query_by_identity(&self, identity: &[u8]) -> (r: Option<ApplicationSnapshot>)
        ensures
            r == (match occupied_of(self@, identity@, 0) {
                Some(i) => Some(snapshot(self@, i)),
                None => None,
            }),
    {
        let mut index: usize = 0;
        while index < self.slots.len()
            invariant
                index <= self.slots@.len(),
                occupied_of(self@, identity@, 0) == occupied_of(
                    self@,
                    identity@,
                    index as int,
                ),
            decreases self.slots@.len() - index,
        {
            assert(self@[index as int] == self.slots@[index as int]@);
            let slot: &Slot = &self.slots[index];
            if slot.state != SlotState::Vacant && bytes_equal(slot.identity.as_slice(), identity) {
                #[verifier::truncate]
                let number: u32 = index as u32;
                return Some(
                    ApplicationSnapshot {
                        handle: ApplicationHandle { slot: number, generation: slot.generation },
                        state: occupied_state(slot.state),
                        model: slot.model,
                    },
                );
            }
            index = index + 1;
        }
        None
    }

    /// Frees the slot of an application.
    pub fn release(&mut self, handle: ApplicationHandle) -> (r: Result<(), ApplicationLaunchError>)
        ensures
            old(self).wf() ==> final(self).wf(),
            ({
                let i = handle.slot as int;
                if i >= old(self)@.len() || old(self)@[i].generation != handle.generation {
                    &&& r == Err::<(), ApplicationLaunchError>(
                        ApplicationLaunchError::StaleGeneration,
                    )
                    &&& *final(self) == *old(self)
                } else if old(self)@[i].state == SlotState::Vacant {
                    &&& r == Err::<(), ApplicationLaunchError>(
                        ApplicationLaunchError::AlreadyReleased,
                    )
                    &&& *final(self) == *old(self)
                } else {
                    &&& r is Ok
                    &&& final(self)@ == with_state(old(self)@, i, SlotState::Vacant)
                    &&& final(self).slots@[i].group == old(self).slots@[i].group
                    &&& others_kept(old(self).slots@, final(self).slots@, i)
                }
            }),
    {
        let index: usize = handle.slot as usize;
        if index >= self.slots.len() || self.slots[index].generation != handle.generation {
            return Err(ApplicationLaunchError::StaleGeneration);
        }
        assert(self@[index as int] == self.slots@[index as int]@);
        if self.slots[index].state == SlotState::Vacant {
            return Err(ApplicationLaunchError::AlreadyReleased);
        }
        self.slots[index].state = SlotState::Vacant;
        assert(self@ =~= with_state(old(self)@, index as int, SlotState::Vacant));
        Ok(())
    }
}

impl Default for ApplicationManager {
    fn default() -> (r: Self)
        ensures
            r@.len() == 0,
            r.wf(),
    {
        ApplicationManager::new()
    }
}

proof fn lemma_reserved_at(slots: Seq<SlotView>, identity: Seq<u8>)
    ensures
        0 <= reserved_at(slots, identity) <= slots.len(),
        reserved_at(slots, identity) < slots.len() ==> slots[reserved_at(slots, identity)].state
            == SlotState::Vacant,
{
    lemma_vacant_of(slots, identity, 0);
    lemma_first_vacant(slots, 0);
}

proof fn lemma_vacant_of(slots: Seq<SlotView>, identity: Seq<u8>, from: int)
    requires
        0 <= from <= slots.len(),
    ensures
        vacant_of(slots, identity, from) matches Some(i) ==> from <= i < slots.len()
            && slots[i].state == SlotState::Vacant && slots[i].identity == identity,
    decreases slots.len() - from,
{
    if from < slots.len() {
        lemma_vacant_of(slots, identity, from + 1);
    }
}

proof fn lemma_first_vacant(slots: Seq<SlotView>, from: int)
    requires
        0 <= from <= slots.len(),
    ensures
        first_vacant(slots, from) matches Some(i) ==> from <= i < slots.len() && slots[i].state
            == SlotState::Vacant,
    decreases slots.len() - from,
{
    if from < slots.len() {
        lemma_first_vacant(slots, from + 1);
    }
}

/// A launch takes a free slot: no application that is there is disturbed, and no
/// handle of it stops working.
pub proof fn launches_disturb_no_application(
    slots: Seq<SlotView>,
    identity: Seq<u8>,
    model: ExecutionModel,
    handle: ApplicationHandle,
)
    requires
        live(slots, handle),
    ensures
        live(reserved(slots, identity, model), handle),
        reserved(slots, identity, model)[handle.slot as int] == slots[handle.slot as int],
{
    lemma_reserved_at(slots, identity);
}

/// A launch is told of from the moment that it has a slot: while it is prepared the
/// application is loading, with the group of threads that the preparation gets. An
/// application whose preparation succeeds runs, in that same group, and the launch
/// gives its handle. One whose preparation fails stays there as failed, and the
/// launch gives the failure. No other slot is touched, whatever came of it.
///
/// The number of a slot in a handle has 32 bits.
pub proof fn launches_tell_how_they_went(
    before: ApplicationManager,
    during: ApplicationManager,
    after: ApplicationManager,
    request: OwnedLaunchRequest,
    group: ThreadGroup,
    result: Result<(), ApplicationLaunchError>,
    r: Result<ApplicationHandle, ApplicationLaunchError>,
)
    requires
        launched(before, during, after, request, group, result, r),
        reserved_at(before@, request.identity@) <= u32::MAX,
    ensures
        ({
            let at = reserved_at(before@, request.identity@);
            let handle = ApplicationHandle {
                slot: at as u32,
                generation: reserved_generation(before@, request.identity@),
            };
            &&& live(during@, handle)
            &&& snapshot(during@, at) == (ApplicationSnapshot {
                handle,
                state: ApplicationState::Loading,
                model: request.model,
            })
            &&& during.slots@[at].group == group
            &&& live(after@, handle)
            &&& after.slots@[at].group == group
            &&& match result {
                Ok(_) => {
                    &&& r == Ok::<ApplicationHandle, ApplicationLaunchError>(handle)
                    &&& snapshot(after@, at) == (ApplicationSnapshot {
                        handle,
                        state: ApplicationState::Running,
                        model: request.model,
                    })
                },
                Err(error) => {
                    &&& r == Err::<ApplicationHandle, ApplicationLaunchError>(error)
                    &&& snapshot(after@, at) == (ApplicationSnapshot {
                        handle,
                        state: ApplicationState::Failed,
                        model: request.model,
                    })
                },
            }
            &&& others_kept(before.slots@, after.slots@, at)
            &&& at < before@.len() ==> before@[at].state == SlotState::Vacant
        }),
{
    lemma_reserved_at(before@, request.identity@);
    let at = reserved_at(before@, request.identity@);
    assert(before@.len() == before.slots@.len());
    assert(during@.len() == during.slots@.len());
    assert forall|j: int| 0 <= j < before.slots@.len() && j != at implies after.slots@[j]
        == #[trigger] before.slots@[j] by {
        assert(during.slots@[j] == before.slots@[j]);
    }
}

/// Once the slot of an application is taken by another launch, no handle of the
/// application works.
pub proof fn old_handles_reach_no_new_application(
    slots: Seq<SlotView>,
    identity: Seq<u8>,
    model: ExecutionModel,
    handle: ApplicationHandle,
)
    requires
        handle.slot < slots.len(),
        slots[handle.slot as int].generation == handle.generation,
        reserved_at(slots, identity) == handle.slot,
    ensures
        !live(reserved(slots, identity, model), handle),
{
}

/// The application of a released slot that is launched again gets that slot back,
/// unless an earlier slot last held the same identity.
pub proof fn relaunches_take_their_slot(slots: Seq<SlotView>, i: int)
    requires
        0 <= i < slots.len(),
        slots[i].state == SlotState::Vacant,
        forall|j: int| 0 <= j < i ==> (#[trigger] slots[j]).identity != slots[i].identity,
    ensures
        reserved_at(slots, slots[i].identity) == i,
{
    lemma_vacant_reached(slots, i, 0);
}

proof fn lemma_vacant_reached(slots: Seq<SlotView>, i: int, from: int)
    requires
        0 <= from <= i < slots.len(),
        slots[i].state == SlotState::Vacant,
        forall|j: int| 0 <= j < i ==> (#[trigger] slots[j]).identity != slots[i].identity,
    ensures
        vacant_of(slots, slots[i].identity, from) == Some(i),
    decreases i - from,
{
    if from < i {
        lemma_vacant_reached(slots, i, from + 1);
    }
}

proof fn lemma_first_of(slots: Seq<SlotView>, identity: Seq<u8>, from: int)
    requires
        0 <= from <= slots.len(),
    ensures
        match vacant_of(slots, identity, from) {
            Some(i) => from <= i < slots.len() && slots[i].state is Vacant && slots[i].identity
                == identity && forall|j: int|
                from <= j < i ==> !((#[trigger] slots[j]).state is Vacant) || slots[j].identity
                    != identity,
            None => forall|j: int|
                from <= j < slots.len() ==> !((#[trigger] slots[j]).state is Vacant)
                    || slots[j].identity != identity,
        },
        match first_vacant(slots, from) {
            Some(i) => from <= i < slots.len() && slots[i].state is Vacant && forall|j: int|
                from <= j < i ==> !((#[trigger] slots[j]).state is Vacant),
            None => forall|j: int|
                from <= j < slots.len() ==> !((#[trigger] slots[j]).state is Vacant),
        },
        match occupied_of(slots, identity, from) {
            Some(i) => from <= i < slots.len() && slots[i].state is Occupied && slots[i].identity
                == identity && forall|j: int|
                from <= j < i ==> !((#[trigger] slots[j]).state is Occupied) || slots[j].identity
                    != identity,
            None => forall|j: int|
                from <= j < slots.len() ==> !((#[trigger] slots[j]).state is Occupied)
                    || slots[j].identity != identity,
        },
    decreases slots.len() - from,
{
    if from < slots.len() {
        lemma_first_of(slots, identity, from + 1);
    }
}

/// A launch takes the first free slot that last held its identity, else the first free one,
/// else a new one behind the others. The slot is then loading, with the identity and the
/// model of the launch and in the next generation, or in the first one if it is new. No
/// other slot changes.
pub proof fn launches_take_the_first_slot_that_suits(
    slots: Seq<SlotView>,
    identity: Seq<u8>,
    model: ExecutionModel,
)
    ensures
        ({
            let i = reserved_at(slots, identity);
            let after = reserved(slots, identity, model);
            &&& 0 <= i < after.len()
            &&& i < slots.len() ==> slots[i].state is Vacant && after.len() == slots.len()
            &&& i >= slots.len() ==> i == slots.len() && after.len() == slots.len() + 1
            &&& after[i].identity == identity
            &&& after[i].model == model
            &&& after[i].state == SlotState::Occupied(ApplicationState::Loading)
            &&& after[i].generation == if i >= slots.len() {
                1
            } else if slots[i].generation == u32::MAX {
                0
            } else {
                slots[i].generation + 1
            }
            &&& forall|j: int|
                0 <= j < slots.len() && j != i ==> #[trigger] after[j] == slots[j]
            &&& forall|j: int|
                0 <= j < slots.len() && (#[trigger] slots[j]).state is Vacant && slots[j].identity
                    == identity ==> i <= j && slots[i].identity == identity
            &&& forall|j: int|
                0 <= j < slots.len() && (#[trigger] slots[j]).state is Vacant ==> i < slots.len()
                    && (
                i <= j || slots[i].identity == identity)
        }),
{
    lemma_first_of(slots, identity, 0);
}

/// A launch that is prepared runs, and one whose preparation failed has failed, in the slot
/// and the generation that it took. A launch of another generation changes nothing.
pub proof fn launches_end_where_they_began(
    slots: Seq<SlotView>,
    slot: int,
    generation: u32,
    result: Result<(), ApplicationLaunchError>,
)
    requires
        0 <= slot < slots.len() <= u32::MAX,
    ensures
        ({
            let (after, r) = completed(slots, slot, generation, result);
            &&& after.len() == slots.len()
            &&& forall|j: int|
                0 <= j < slots.len() && j != slot ==> #[trigger] after[j] == slots[j]
            &&& after[slot].identity == slots[slot].identity
            &&& after[slot].model == slots[slot].model
            &&& after[slot].generation == slots[slot].generation
            &&& slots[slot].generation != generation ==> after == slots && r is Err
            &&& slots[slot].generation == generation ==> match result {
                Err(error) => after[slot].state == SlotState::Occupied(ApplicationState::Failed)
                    && r == Err::<ApplicationHandle, ApplicationLaunchError>(error),
                Ok(_) => if slots[slot].state == SlotState::Occupied(ApplicationState::Loading) {
                    &&& after[slot].state == SlotState::Occupied(ApplicationState::Running)
                    &&& r matches Ok(handle) && handle.slot == slot && handle.generation
                        == generation
                } else {
                    after == slots && r is Err
                },
            }
        }),
{
}

/// An application is found by its identity in the first slot that it has.
pub proof fn applications_are_found_by_their_identity(slots: Seq<SlotView>, identity: Seq<u8>)
    ensures
        match occupied_of(slots, identity, 0) {
            Some(i) => {
                &&& 0 <= i < slots.len()
                &&& slots[i].state is Occupied
                &&& slots[i].identity == identity
                &&& forall|j: int|
                    0 <= j < i ==> !((#[trigger] slots[j]).state is Occupied) || slots[j].identity
                        != identity
            },
            None => forall|j: int|
                0 <= j < slots.len() ==> !((#[trigger] slots[j]).state is Occupied)
                    || slots[j].identity != identity,
        },
{
    lemma_first_of(slots, identity, 0);
}

} // verus!
