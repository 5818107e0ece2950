//! The initialization of libraries: from relocated to ready, or to failed.

use crate::application::registry::{
    current, find_slot, handed_out, lease_for, lease_views, leases_released, lemma_find_from,
    lemma_find_same_keys, lemma_leases_released, more_leases, name_views, next_generation,
    obtainable, permit_for, relocation_cancelled, same_keys, stale, stale_error, with_state, woken,
    BackingView, InstanceState, LeaseView, LoadPermit, RegistryView, RelocatedPermit, SlotView,
    StateView, SystemCandidateBacking, SystemDsoLease, SystemDsoRegistry, SystemInitBatch,
};
use crate::dynamic_linker::artifact::{DependencyName, LinkDomainId};
use crate::error::{LoadError, LoadResult};
use crate::memory::AllocationLease;
use vstd::prelude::*;

verus! {

/// The contents of some backings.
pub open spec fn backing_views<D>(backings: Seq<SystemCandidateBacking<D>>) -> Seq<BackingView<D>> {
    Seq::new(backings.len(), |i: int| backings[i]@)
}

/// Whether a permit is the one for a relocated library.
pub open spec fn fits<D>(view: RegistryView<D>, permit: RelocatedPermit) -> bool {
    current(view, permit.slot, permit.generation) && view.slots[permit.slot as int].state
        is Relocated
}

/// The registry after the first `k` libraries took over their backings.
pub open spec fn initializing<D>(
    view: RegistryView<D>,
    permits: Seq<RelocatedPermit>,
    backings: Seq<BackingView<D>>,
    k: int,
) -> RegistryView<D>
    decreases k,
{
    if k <= 0 {
        view
    } else {
        with_state(
            initializing(view, permits, backings, k - 1),
            permits[k - 1].slot as int,
            StateView::Initializing(backings[k - 1]),
        )
    }
}

/// The first permit from `from` on that does not fit when its turn comes.
pub open spec fn first_misfit<D>(
    view: RegistryView<D>,
    permits: Seq<RelocatedPermit>,
    backings: Seq<BackingView<D>>,
    from: int,
) -> Option<int>
    decreases permits.len() - from,
{
    if from >= permits.len() {
        None
    } else if !fits(initializing(view, permits, backings, from), permits[from]) {
        Some(from)
    } else {
        first_misfit(view, permits, backings, from + 1)
    }
}

/// The registry after the permits from `from` up to `to` are cancelled.
pub open spec fn relocations_cancelled<D>(
    view: RegistryView<D>,
    permits: Seq<RelocatedPermit>,
    from: int,
    to: int,
) -> RegistryView<D>
    decreases to - from,
{
    if to <= from {
        view
    } else {
        relocation_cancelled(relocations_cancelled(view, permits, from, to - 1), permits[to - 1])
    }
}

/// The slots that some permits name.
pub open spec fn permit_slots(permits: Seq<RelocatedPermit>) -> Seq<usize> {
    Seq::new(permits.len(), |i: int| permits[i].slot)
}

/// The generations that some permits name.
pub open spec fn permit_generations(permits: Seq<RelocatedPermit>) -> Seq<u32> {
    Seq::new(permits.len(), |i: int| permits[i].generation)
}

/// Whether relocated libraries with these permits and backings are published, with
/// the registry before and after.
pub open spec fn batch_published<D>(
    before: RegistryView<D>,
    permits: Seq<RelocatedPermit>,
    given: Seq<BackingView<D>>,
    r: LoadResult<SystemInitBatch>,
    after: RegistryView<D>,
) -> bool {
    let n = permits.len() as int;
    if n != given.len() {
        &&& r == Err::<SystemInitBatch, LoadError>(stale())
        &&& after == relocations_cancelled(before, permits, 0, n)
    } else {
        match first_misfit(before, permits, given, 0) {
            Some(k) => {
                &&& r == Err::<SystemInitBatch, LoadError>(stale())
                &&& after == relocations_cancelled(
                    initializing(before, permits, given, k),
                    permits.subrange(k + 1, n),
                    0,
                    n - k - 1,
                )
            },
            None => match r {
                Ok(batch) => {
                    &&& batch.wf()
                    &&& batch.slots@ == permit_slots(permits)
                    &&& batch.generations@ == permit_generations(permits)
                    &&& after == initializing(before, permits, given, n)
                },
                Err(_) => false,
            },
        }
    }
}

impl SystemInitBatch {
    /// One generation for each slot, and no slot twice.
    pub open spec fn wf(self) -> bool {
        &&& self.slots@.len() == self.generations@.len()
        &&& forall|i: int, j: int|
            0 <= i < j < self.slots@.len() ==> #[trigger] self.slots@[i]
                != #[trigger] self.slots@[j]
    }
}

proof fn lemma_initializing_slot<D>(
    view: RegistryView<D>,
    permits: Seq<RelocatedPermit>,
    backings: Seq<BackingView<D>>,
    k: int,
    j: int,
)
    requires
        0 <= j < k <= permits.len(),
        first_misfit(view, permits, backings, 0) is None || k
            <= first_misfit(view, permits, backings, 0)->0,
    ensures
        permits[j].slot < initializing(view, permits, backings, k).slots.len(),
        initializing(view, permits, backings, k).slots[permits[j].slot as int].state
            is Initializing,
        initializing(view, permits, backings, k).slots.len() == view.slots.len(),
    decreases k,
{
    let before = initializing(view, permits, backings, k - 1);
    lemma_misfit(view, permits, backings, 0, k - 1);
    if j < k - 1 {
        lemma_initializing_slot(view, permits, backings, k - 1, j);
    } else if k > 1 {
        lemma_initializing_slot(view, permits, backings, k - 1, 0);
    }
}

proof fn lemma_misfit<D>(
    view: RegistryView<D>,
    permits: Seq<RelocatedPermit>,
    backings: Seq<BackingView<D>>,
    from: int,
    k: int,
)
    requires
        0 <= from <= k < permits.len(),
        first_misfit(view, permits, backings, from) is None || k
            < first_misfit(view, permits, backings, from)->0,
    ensures
        fits(initializing(view, permits, backings, k), permits[k]),
    decreases k - from,
{
    if from < k {
        lemma_misfit(view, permits, backings, from + 1, k);
    }
}

/// What cancelling relocated libraries leaves of slot `at`: a vacant one, if a permit
/// names it, else what was there.
proof fn lemma_relocations_cancelled<D>(
    view: RegistryView<D>,
    permits: Seq<RelocatedPermit>,
    to: int,
    at: int,
)
    requires
        0 <= to <= permits.len(),
        0 <= at < view.slots.len(),
        forall|j: int| 0 <= j < permits.len() ==> fits(view, #[trigger] permits[j]),
    ensures
        ({
            let after = relocations_cancelled(view, permits, 0, to);
            let named = exists|j: int| 0 <= j < to && (#[trigger] permits[j]).slot == at;
            &&& after.slots.len() == view.slots.len()
            &&& after.slots[at].generation == view.slots[at].generation
            &&& named ==> after.slots[at].state is Vacant
            &&& !named ==> after.slots[at] == view.slots[at]
        }),
    decreases to,
{
    if to > 0 {
        lemma_relocations_cancelled(view, permits, to - 1, at);
        let before = relocations_cancelled(view, permits, 0, to - 1);
        let last = permits[to - 1];
        assert(fits(view, last));
        if exists|j: int| 0 <= j < to - 1 && (#[trigger] permits[j]).slot == at {
            let j = choose|j: int| 0 <= j < to - 1 && (#[trigger] permits[j]).slot == at;
            assert(permits[j].slot == at);
        } else {
            if last.slot == at {
                assert(before.slots[at] == view.slots[at]);
            }
            if exists|j: int| 0 <= j < to && (#[trigger] permits[j]).slot == at {
                let j = choose|j: int| 0 <= j < to && (#[trigger] permits[j]).slot == at;
                assert(j == to - 1);
            }
        }
    }
}

/// A publication that is refused for want of backings gives every relocated library
/// back: the next link that asks for it gets the permit of the next generation.
pub proof fn refused_publications_start_over<D>(
    before: RegistryView<D>,
    permits: Seq<RelocatedPermit>,
    given: Seq<BackingView<D>>,
    r: LoadResult<SystemInitBatch>,
    after: RegistryView<D>,
    j: int,
)
    requires
        batch_published(before, permits, given, r, after),
        permits.len() != given.len(),
        forall|i: int| 0 <= i < permits.len() ==> fits(before, #[trigger] permits[i]),
        0 <= j < permits.len(),
    ensures
        r is Err,
        ({
            let at = permits[j].slot as int;
            &&& after.slots[at].state is Vacant
            &&& permit_for(after, at) == (LoadPermit {
                slot: permits[j].slot,
                generation: next_generation(permits[j].generation),
            })
            &&& handed_out(after, at).slots[at].state is Loading
            &&& handed_out(after, at).slots[at].generation == next_generation(
                permits[j].generation,
            )
        }),
{
    let at = permits[j].slot as int;
    assert(fits(before, permits[j]));
    lemma_relocations_cancelled(before, permits, permits.len() as int, at);
    assert(permits[j].slot == at);
}

/// Libraries that are published stay in flight, in their generation: nobody is
/// handed one, and nobody sees its descriptor.
pub proof fn published_libraries_stay_in_flight<D>(
    before: RegistryView<D>,
    permits: Seq<RelocatedPermit>,
    given: Seq<BackingView<D>>,
    r: LoadResult<SystemInitBatch>,
    after: RegistryView<D>,
    j: int,
)
    requires
        batch_published(before, permits, given, r, after),
        r is Ok,
        0 <= j < permits.len(),
    ensures
        ({
            let at = permits[j].slot as int;
            &&& at < after.slots.len()
            &&& after.slots[at].state is Initializing
            &&& after.slots[at].generation == permits[j].generation
            &&& after.slots[at].signal == before.slots[at].signal
            &&& !obtainable(after.slots[at].state)
            &&& handed_out(after, at) == after
        }),
{
    let n = permits.len() as int;
    lemma_initializing_slot(before, permits, given, n, j);
    lemma_initializing_kept(before, permits, given, n, permits[j].slot as int);
    lemma_misfit(before, permits, given, 0, j);
    lemma_initializing_kept(before, permits, given, j, permits[j].slot as int);
}

proof fn lemma_initializing_kept<D>(
    view: RegistryView<D>,
    permits: Seq<RelocatedPermit>,
    backings: Seq<BackingView<D>>,
    k: int,
    at: int,
)
    requires
        0 <= k <= permits.len(),
        0 <= at < view.slots.len(),
        first_misfit(view, permits, backings, 0) is None,
    ensures
        initializing(view, permits, backings, k).slots.len() == view.slots.len(),
        initializing(view, permits, backings, k).slots[at].generation == view.slots[at].generation,
        initializing(view, permits, backings, k).slots[at].signal == view.slots[at].signal,
    decreases k,
{
    if k > 0 {
        lemma_initializing_kept(view, permits, backings, k - 1, at);
        lemma_misfit(view, permits, backings, 0, k - 1);
    }
}

impl<D> SystemDsoRegistry<D> {
    pub(crate) fn cancel_all_relocated(&mut self, permits: Vec<RelocatedPermit>)
        ensures
            final(self)@ == relocations_cancelled(
                old(self)@,
                permits@,
                0,
                permits@.len() as int,
            ),
    {
        let ghost all = permits@;
        let ghost before = self@;
        let mut permits = permits;
        let ghost mut done: int = 0;
        assert(permits@ =~= all.subrange(0, all.len() as int));
        while permits.len() > 0
            invariant
                0 <= done <= all.len(),
                permits@ == all.subrange(done, all.len() as int),
                self@ == relocations_cancelled(before, all, 0, done),
            decreases permits@.len(),
        {
            let permit = permits.remove(0);
            assert(permit == all[done]);
            self.cancel_relocated(permit);
            proof {
                assert(permits@ =~= all.subrange(done + 1, all.len() as int));
                done = done + 1;
            }
        }
    }

    /// Hands the backings of relocated libraries to the registry. Their constructors
    /// may run from then on; nobody sees a descriptor yet.
    ///
    /// A permit that does not fit ends this: the permits behind it are cancelled.
    pub fn publish_relocated_batch(
        &mut self,
        permits: Vec<RelocatedPermit>,
        backings: Vec<SystemCandidateBacking<D>>,
    ) -> (r: LoadResult<SystemInitBatch>)
        ensures
            batch_published(
                old(self)@,
                permits@,
                backing_views(backings@),
                r,
                final(self)@,
            ),
    {
        if permits.len() != backings.len() {
            self.cancel_all_relocated(permits);
            return Err(stale_error());
        }
        let ghost before = self@;
        let ghost all = permits@;
        let ghost given = backing_views(backings@);
        let mut waiting = permits;
        let mut offered = backings;
        let mut slots: Vec<usize> = Vec::new();
        let mut generations: Vec<u32> = Vec::new();
        let ghost mut done: int = 0;
        assert(waiting@ =~= all.subrange(0, all.len() as int));
        assert(backing_views(offered@) =~= given.subrange(0, given.len() as int));
        while waiting.len() > 0
            invariant
                0 <= done <= all.len() == given.len(),
                waiting@ == all.subrange(done, all.len() as int),
                backing_views(offered@) == given.subrange(done, given.len() as int),
                first_misfit(before, all, given, 0) == first_misfit(before, all, given, done),
                self@ == initializing(before, all, given, done),
                slots@ == permit_slots(all).subrange(0, done),
                generations@ == permit_generations(all).subrange(0, done),
                before == old(self)@,
                all == permits@,
                given == backing_views(backings@),
                all.len() == backings@.len(),
            decreases waiting@.len(),
        {
            proof {
                assert(backing_views(offered@).len() == offered@.len());
                assert(backing_views(offered@)[0] == offered@[0]@);
            }
            let permit = waiting.remove(0);
            let ghost held = offered@;
            let backing = offered.remove(0);
            assert(permit == all[done]);
            assert(backing@ == given[done]);
            let relocated: bool = self.is_relocated(&permit);
            if !relocated {
                proof {
                    assert(waiting@ =~= all.subrange(done + 1, all.len() as int));
                }
                self.cancel_all_relocated(waiting);
                return Err(stale_error());
            }
            self.replace_state(permit.slot, InstanceState::Initializing(backing));
            slots.push(permit.slot);
            generations.push(permit.generation);
            proof {
                assert(waiting@ =~= all.subrange(done + 1, all.len() as int));
                assert(backing_views(offered@) =~= given.subrange(
                    done + 1,
                    given.len() as int,
                )) by {
                    assert(offered@ =~= held.drop_first());
                    assert forall|i: int| 0 <= i < offered@.len() implies backing_views(
                        offered@,
                    )[i] == given.subrange(done + 1, given.len() as int)[i] by {
                        assert(backing_views(held)[i + 1] == held[i + 1]@);
                    }
                }
                assert(slots@ =~= permit_slots(all).subrange(0, done + 1));
                assert(generations@ =~= permit_generations(all).subrange(0, done + 1));
                done = done + 1;
            }
        }
        assert(permit_slots(all).subrange(0, done) =~= permit_slots(all));
        assert(permit_generations(all).subrange(0, done) =~= permit_generations(all));
        let batch = SystemInitBatch { slots, generations };
        proof {
            assert forall|i: int, j: int| 0 <= i < j < batch.slots@.len() implies
                #[trigger] batch.slots@[i] != #[trigger] batch.slots@[j] by {
                lemma_initializing_slot(before, all, given, j, i);
                lemma_misfit(before, all, given, 0, j);
            }
        }
        Ok(batch)
    }

    fn is_relocated(&self, permit: &RelocatedPermit) -> (r: bool)
        ensures
            r == fits(self@, *permit),
    {
        if !self.is_current(permit.slot, permit.generation) {
            return false;
        }
        assert(self@.slots[permit.slot as int] == self.slots@[permit.slot as int]@);
        match &self.slots[permit.slot].state {
            InstanceState::Relocated => true,
            _ => false,
        }
    }
}

/// Whether a slot is one of the set.
pub open spec fn lists(slots: Seq<usize>, slot: int) -> bool {
    exists|i: int| 0 <= i < slots.len() && #[trigger] slots[i] == slot
}

/// Whether a library that others need is ready, or will be with this set.
pub open spec fn provider_ready<D>(
    view: RegistryView<D>,
    slots: Seq<usize>,
    domain: LinkDomainId,
    name: Seq<u8>,
) -> bool {
    match find_slot(view.slots, domain, name) {
        Some(p) => view.slots[p].state is Ready || (view.slots[p].state is Initializing
            && lists(slots, p)),
        None => false,
    }
}

/// Whether a library of the set is being initialized and all that it needs is ready,
/// or will be with this set.
pub open spec fn source_ready<D>(
    view: RegistryView<D>,
    slots: Seq<usize>,
    slot: usize,
    generation: u32,
) -> bool {
    &&& current(view, slot, generation)
    &&& match view.slots[slot as int].state {
        StateView::Initializing(backing) => forall|j: int|
            0 <= j < backing.dependency_names.len() ==> provider_ready(
                view,
                slots,
                view.slots[slot as int].domain,
                #[trigger] backing.dependency_names[j],
            ),
        _ => false,
    }
}

/// Whether the whole set can become ready.
pub open spec fn batch_ready<D>(view: RegistryView<D>, slots: Seq<usize>, generations: Seq<u32>) -> bool {
    forall|k: int|
        0 <= k < slots.len() ==> source_ready(view, slots, #[trigger] slots[k], generations[k])
}

/// A library that is being initialized becomes ready, with one user.
pub open spec fn readied_state<D>(state: StateView<D>) -> StateView<D> {
    match state {
        StateView::Initializing(backing) => StateView::Ready { leases: 1, backing },
        _ => state,
    }
}

/// The registry after the first `k` libraries became ready.
pub open spec fn readied<D>(view: RegistryView<D>, slots: Seq<usize>, k: int) -> RegistryView<D>
    decreases k,
{
    if k <= 0 {
        view
    } else {
        with_state(
            readied(view, slots, k - 1),
            slots[k - 1] as int,
            readied_state(view.slots[slots[k - 1] as int].state),
        )
    }
}

/// The names of the libraries that the one in `state` needs.
pub open spec fn needed_names<D>(state: StateView<D>) -> Seq<Seq<u8>> {
    match state {
        StateView::Initializing(backing) => backing.dependency_names,
        StateView::Ready { leases, backing } => backing.dependency_names,
        _ => Seq::empty(),
    }
}

/// The registry after the ready library of slot `p` got one more user.
pub open spec fn counted_user<D>(view: RegistryView<D>, p: int) -> RegistryView<D> {
    match view.slots[p].state {
        StateView::Ready { leases, backing } => with_state(
            view,
            p,
            StateView::Ready { leases: more_leases(leases), backing },
        ),
        _ => view,
    }
}

/// The registry after the ready library of slot `source` took over a lease.
pub open spec fn holding<D>(view: RegistryView<D>, source: int, lease: LeaseView) -> RegistryView<D> {
    match view.slots[source].state {
        StateView::Ready { leases, backing } => with_state(
            view,
            source,
            StateView::Ready {
                leases,
                backing: BackingView {
                    dependencies: backing.dependencies.push(lease),
                    ..backing
                },
            },
        ),
        _ => view,
    }
}

/// The registry after the library of slot `source` took a lease of what it needs.
pub open spec fn attached<D>(view: RegistryView<D>, source: int, name: Seq<u8>) -> RegistryView<D> {
    match find_slot(view.slots, view.slots[source].domain, name) {
        Some(p) => if view.slots[p].state is Ready {
            holding(counted_user(view, p), source, lease_for(view, p))
        } else {
            view
        },
        None => view,
    }
}

/// The registry after the library of slot `source` took leases of the first `j` of
/// what it needs.
pub open spec fn attached_names<D>(
    view: RegistryView<D>,
    source: int,
    names: Seq<Seq<u8>>,
    j: int,
) -> RegistryView<D>
    decreases j,
{
    if j <= 0 {
        view
    } else {
        attached(attached_names(view, source, names, j - 1), source, names[j - 1])
    }
}

/// The registry after the first `k` libraries took leases of all that they need.
pub open spec fn attached_all<D>(view: RegistryView<D>, slots: Seq<usize>, k: int) -> RegistryView<D>
    decreases k,
{
    if k <= 0 {
        view
    } else {
        let names = needed_names(view.slots[slots[k - 1] as int].state);
        attached_names(
            attached_all(view, slots, k - 1),
            slots[k - 1] as int,
            names,
            names.len() as int,
        )
    }
}

/// The registry after the waiters of the first `k` slots are told.
pub open spec fn woken_all<D>(view: RegistryView<D>, slots: Seq<usize>, k: int) -> RegistryView<D>
    decreases k,
{
    if k <= 0 {
        view
    } else {
        woken(woken_all(view, slots, k - 1), slots[k - 1] as int)
    }
}

/// The registry after a set of libraries became ready.
pub open spec fn initialized<D>(view: RegistryView<D>, slots: Seq<usize>) -> RegistryView<D> {
    let n = slots.len() as int;
    woken_all(attached_all(readied(view, slots, n), slots, n), slots, n)
}

/// The slots of a registry stay where they are.
pub open spec fn same_places<D>(before: RegistryView<D>, after: RegistryView<D>) -> bool {
    &&& same_keys(before.slots, after.slots)
    &&& forall|i: int|
        0 <= i < before.slots.len() ==> needed_names((#[trigger] after.slots[i]).state)
            == needed_names(before.slots[i].state)
    &&& forall|i: int|
        0 <= i < before.slots.len() && before.slots[i].state is Ready ==> (
        #[trigger] after.slots[i]).state is Ready
}

proof fn lemma_readied<D>(view: RegistryView<D>, slots: Seq<usize>, k: int)
    requires
        0 <= k <= slots.len(),
        forall|i: int| 0 <= i < slots.len() ==> #[trigger] slots[i] < view.slots.len(),
        forall|i: int, j: int|
            0 <= i < j < slots.len() ==> #[trigger] slots[i] != #[trigger] slots[j],
    ensures
        same_places(view, readied(view, slots, k)),
        forall|j: int|
            k <= j < slots.len() ==> readied(view, slots, k).slots[#[trigger] slots[j] as int]
                == view.slots[slots[j] as int],
        forall|j: int|
            0 <= j < k ==> readied(view, slots, k).slots[#[trigger] slots[j] as int] == (SlotView {
                state: readied_state(view.slots[slots[j] as int].state),
                ..view.slots[slots[j] as int]
            }),
        forall|i: int|
            0 <= i < view.slots.len() && !lists(slots, i)
                ==> #[trigger] readied(view, slots, k).slots[i] == view.slots[i],
    decreases k,
{
    if k > 0 {
        lemma_readied(view, slots, k - 1);
        let before = readied(view, slots, k - 1);
        let now = readied(view, slots, k);
        let at = slots[k - 1] as int;
        assert(before.slots[at] == view.slots[at]);
        assert forall|j: int| k <= j < slots.len() implies now.slots[#[trigger] slots[j] as int]
            == view.slots[slots[j] as int] by {
            assert(slots[k - 1] != slots[j]);
        }
        assert forall|j: int| 0 <= j < k implies now.slots[#[trigger] slots[j] as int] == (
        SlotView {
            state: readied_state(view.slots[slots[j] as int].state),
            ..view.slots[slots[j] as int]
        }) by {
            if j < k - 1 {
                assert(slots[j] != slots[k - 1]);
            }
        }
        assert forall|i: int|
            0 <= i < view.slots.len() && !lists(slots, i) implies #[trigger] now.slots[i] == view.slots[i] by {
            if i == at {
                assert(slots[k - 1] == i);
            }
            assert(before.slots[i] == view.slots[i]);
        }
        assert forall|i: int| 0 <= i < view.slots.len() implies needed_names(
            (#[trigger] now.slots[i]).state,
        ) == needed_names(view.slots[i].state) by {
            assert(needed_names(before.slots[i].state) == needed_names(view.slots[i].state));
        }
        assert forall|i: int|
            0 <= i < view.slots.len() && view.slots[i].state is Ready implies (
        #[trigger] now.slots[i]).state is Ready by {
            assert(before.slots[i].state is Ready);
        }
    }
}

proof fn lemma_attached<D>(view: RegistryView<D>, source: int, name: Seq<u8>)
    requires
        0 <= source < view.slots.len(),
    ensures
        same_places(view, attached(view, source, name)),
{
    lemma_find_from(view.slots, view.slots[source].domain, name, 0);
}

proof fn lemma_attached_names<D>(
    view: RegistryView<D>,
    source: int,
    names: Seq<Seq<u8>>,
    j: int,
)
    requires
        0 <= source < view.slots.len(),
    ensures
        same_places(view, attached_names(view, source, names, j)),
    decreases j,
{
    if j > 0 {
        lemma_attached_names(view, source, names, j - 1);
        let before = attached_names(view, source, names, j - 1);
        lemma_attached(before, source, names[j - 1]);
        lemma_same_places(view, before, attached(before, source, names[j - 1]));
    }
}

proof fn lemma_same_places<D>(a: RegistryView<D>, b: RegistryView<D>, c: RegistryView<D>)
    requires
        same_places(a, b),
        same_places(b, c),
    ensures
        same_places(a, c),
{
    assert forall|i: int| 0 <= i < a.slots.len() implies (#[trigger] a.slots[i]).domain
        == c.slots[i].domain && a.slots[i].soname == c.slots[i].soname by {
        assert(b.slots[i].domain == c.slots[i].domain);
    }
    assert forall|i: int| 0 <= i < a.slots.len() implies needed_names(
        (#[trigger] c.slots[i]).state,
    ) == needed_names(a.slots[i].state) by {
        assert(needed_names(b.slots[i].state) == needed_names(a.slots[i].state));
    }
    assert forall|i: int| 0 <= i < a.slots.len() && a.slots[i].state is Ready implies (
    #[trigger] c.slots[i]).state is Ready by {
        assert(b.slots[i].state is Ready);
    }
}

fn holds_slot(slots: &Vec<usize>, slot: usize) -> (r: bool)
    ensures
        r == lists(slots@, slot as int),
{
    let mut index: usize = 0;
    while index < slots.len()
        invariant
            index <= slots@.len(),
            forall|i: int| 0 <= i < index ==> slots@[i] != slot,
        decreases slots@.len() - index,
    {
        if slots[index] == slot {
            return true;
        }
        index = index + 1;
    }
    false
}

impl<D> SystemDsoRegistry<D> {
    fn is_provider_ready(
        &self,
        slots: &Vec<usize>,
        domain: LinkDomainId,
        name: &DependencyName,
    ) -> (r: bool)
        ensures
            r == provider_ready(self@, slots@, domain, name@),
    {
        match self.position(domain, name) {
            Some(provider) => {
                assert(self@.slots[provider as int] == self.slots@[provider as int]@);
                match &self.slots[provider].state {
                    InstanceState::Ready { .. } => true,
                    InstanceState::Initializing(_) => holds_slot(slots, provider),
                    _ => false,
                }
            },
            None => false,
        }
    }

    fn is_source_ready(&self, slots: &Vec<usize>, slot: usize, generation: u32) -> (r: bool)
        ensures
            r == source_ready(self@, slots@, slot, generation),
    {
        if !self.is_current(slot, generation) {
            return false;
        }
        assert(self@.slots[slot as int] == self.slots@[slot as int]@);
        match &self.slots[slot].state {
            InstanceState::Initializing(backing) => {
                let mut index: usize = 0;
                while index < backing.dependency_names.len()
                    invariant
                        index <= backing.dependency_names@.len(),
                        slot < self.slots@.len(),
                        self@.slots[slot as int].state == StateView::Initializing(backing@),
                        self@.slots[slot as int] == self.slots@[slot as int]@,
                        forall|j: int|
                            0 <= j < index ==> provider_ready(
                                self@,
                                slots@,
                                self@.slots[slot as int].domain,
                                #[trigger] backing@.dependency_names[j],
                            ),
                    decreases backing.dependency_names@.len() - index,
                {
                    assert(backing@.dependency_names[index as int]
                        == backing.dependency_names@[index as int]@);
                    if !self.is_provider_ready(
                        slots,
                        self.slots[slot].domain,
                        &backing.dependency_names[index],
                    ) {
                        return false;
                    }
                    index = index + 1;
                }
                true
            },
            _ => false,
        }
    }

    fn is_batch_ready(&self, batch: &SystemInitBatch) -> (r: bool)
        requires
            batch.wf(),
        ensures
            r == batch_ready(self@, batch.slots@, batch.generations@),
    {
        let mut index: usize = 0;
        while index < batch.slots.len()
            invariant
                index <= batch.slots@.len() == batch.generations@.len(),
                forall|k: int|
                    0 <= k < index ==> source_ready(
                        self@,
                        batch.slots@,
                        #[trigger] batch.slots@[k],
                        batch.generations@[k],
                    ),
            decreases batch.slots@.len() - index,
        {
            if !self.is_source_ready(&batch.slots, batch.slots[index], batch.generations[index]) {
                return false;
            }
            index = index + 1;
        }
        true
    }

    /// Makes the library of a slot ready and leases it to its first user.
    fn make_ready(&mut self, slot: usize) -> (r: SystemDsoLease)
        requires
            slot < old(self)@.slots.len(),
        ensures
            final(self)@ == with_state(
                old(self)@,
                slot as int,
                readied_state(old(self)@.slots[slot as int].state),
            ),
            r@ == lease_for(old(self)@, slot as int),
    {
        let before = self.replace_state(slot, InstanceState::Vacant);
        let next: InstanceState<D> = match before {
            InstanceState::Initializing(backing) => InstanceState::Ready { leases: 1, backing },
            other => other,
        };
        self.replace_state(slot, next);
        assert(self@.slots =~= with_state(
            old(self)@,
            slot as int,
            readied_state(old(self)@.slots[slot as int].state),
        ).slots);
        assert(self@.slots[slot as int] == self.slots@[slot as int]@);
        SystemDsoLease {
            slot,
            generation: self.slots[slot].generation,
            domain: self.slots[slot].domain,
            soname: self.slots[slot].soname.clone(),
        }
    }

    /// Takes a lease of what the library of a slot needs.
    fn attach(&mut self, source: usize, name: &DependencyName)
        requires
            source < old(self)@.slots.len(),
        ensures
            final(self)@ == attached(old(self)@, source as int, name@),
    {
        assert(self@.slots[source as int] == self.slots@[source as int]@);
        let provider: usize = match self.position(self.slots[source].domain, name) {
            Some(provider) => provider,
            None => return,
        };
        assert(self@.slots[provider as int] == self.slots@[provider as int]@);
        let ready: bool = match &self.slots[provider].state {
            InstanceState::Ready { .. } => true,
            _ => false,
        };
        if !ready {
            return;
        }
        if let InstanceState::Ready { leases, .. } = &mut self.slots[provider].state {
            *leases = leases.saturating_add(1);
        }
        let ghost counted = counted_user(old(self)@, provider as int);
        assert(self@ =~= counted);
        let lease: SystemDsoLease = SystemDsoLease {
            slot: provider,
            generation: self.slots[provider].generation,
            domain: self.slots[provider].domain,
            soname: self.slots[provider].soname.clone(),
        };
        assert(lease@ == lease_for(old(self)@, provider as int));
        assert(self@.slots[source as int] == self.slots@[source as int]@);
        let ghost slots = self.slots@;
        if let InstanceState::Ready { backing, .. } = &mut self.slots[source].state {
            let ghost held = backing@.dependencies;
            backing.dependencies.push(lease);
            assert(lease_views(backing.dependencies@) =~= held.push(lease@));
        }
        assert(self@ =~= holding(counted, source as int, lease@)) by {
            assert forall|i: int| 0 <= i < slots.len() implies self@.slots[i] == holding(
                counted,
                source as int,
                lease@,
            ).slots[i] by {
                if i != source {
                    assert(self.slots@[i] == slots[i]);
                    assert(counted.slots[i] == slots[i]@);
                }
            }
        }
    }

    /// The names of the libraries that the one of a slot needs.
    fn needed_by(&self, source: usize) -> (r: Vec<DependencyName>)
        requires
            source < self@.slots.len(),
        ensures
            name_views(r@) == needed_names(self@.slots[source as int].state),
    {
        assert(self@.slots[source as int] == self.slots@[source as int]@);
        let names: &Vec<DependencyName> = match &self.slots[source].state {
            InstanceState::Initializing(backing) => &backing.dependency_names,
            InstanceState::Ready { backing, .. } => &backing.dependency_names,
            _ => {
                let none: Vec<DependencyName> = Vec::new();
                assert(name_views(none@) =~= Seq::empty());
                return none;
            },
        };
        let mut out: Vec<DependencyName> = Vec::new();
        let mut index: usize = 0;
        while index < names.len()
            invariant
                index <= names@.len(),
                out@.len() == index,
                forall|i: int| 0 <= i < index ==> (#[trigger] out@[i])@ == names@[i]@,
            decreases names@.len() - index,
        {
            out.push(names[index].clone());
            index = index + 1;
        }
        assert(name_views(out@) =~= name_views(names@));
        out
    }

    /// Takes leases of all that the library of a slot needs.
    fn attach_all(&mut self, source: usize)
        requires
            source < old(self)@.slots.len(),
        ensures
            ({
                let names = needed_names(old(self)@.slots[source as int].state);
                final(self)@ == attached_names(
                    old(self)@,
                    source as int,
                    names,
                    names.len() as int,
                )
            }),
    {
        let ghost before = self@;
        let needed: Vec<DependencyName> = self.needed_by(source);
        let ghost names = name_views(needed@);
        let mut index: usize = 0;
        while index < needed.len()
            invariant
                source < before.slots.len(),
                names == name_views(needed@),
                index <= needed@.len(),
                self@ == attached_names(before, source as int, names, index as int),
                self@.slots.len() == before.slots.len(),
            decreases needed@.len() - index,
        {
            assert(names[index as int] == needed@[index as int]@);
            self.attach(source, &needed[index]);
            proof {
                lemma_attached_names(before, source as int, names, index + 1);
            }
            index = index + 1;
        }
    }

    /// Makes a set of libraries ready, each with one lease for the application that
    /// loaded it, and with one lease for every library that another one needs. If
    /// any of them cannot be ready, none is.
    pub fn finish_initialization_batch(&mut self, batch: SystemInitBatch) -> (r: LoadResult<
        Vec<SystemDsoLease>,
    >)
        requires
            batch.wf(),
        ensures
            if batch_ready(old(self)@, batch.slots@, batch.generations@) {
                &&& final(self)@ == initialized(old(self)@, batch.slots@)
                &&& match r {
                    Ok(leases) => leases@.len() == batch.slots@.len() && forall|k: int|
                        0 <= k < batch.slots@.len() ==> (#[trigger] leases@[k])@ == lease_for(
                            old(self)@,
                            batch.slots@[k] as int,
                        ),
                    Err(_) => false,
                }
            } else {
                &&& r == Err::<Vec<SystemDsoLease>, LoadError>(stale())
                &&& final(self)@ == old(self)@
            },
    {
        if !self.is_batch_ready(&batch) {
            return Err(stale_error());
        }
        let ghost before = self@;
        let slots: Vec<usize> = batch.slots;
        let ghost n = slots@.len() as int;
        proof {
            assert forall|i: int| 0 <= i < slots@.len() implies #[trigger] slots@[i]
                < before.slots.len() by {
                assert(source_ready(before, slots@, slots@[i], batch.generations@[i]));
            }
        }
        let mut leases: Vec<SystemDsoLease> = Vec::new();
        let mut index: usize = 0;
        while index < slots.len()
            invariant
                index <= slots@.len(),
                n == slots@.len(),
                forall|i: int| 0 <= i < n ==> #[trigger] slots@[i] < before.slots.len(),
                forall|i: int, j: int|
                    0 <= i < j < n ==> #[trigger] slots@[i] != #[trigger] slots@[j],
                self@ == readied(before, slots@, index as int),
                leases@.len() == index,
                forall|k: int|
                    0 <= k < index ==> (#[trigger] leases@[k])@ == lease_for(
                        before,
                        slots@[k] as int,
                    ),
            decreases slots@.len() - index,
        {
            proof {
                lemma_readied(before, slots@, index as int);
                assert(self@.slots[slots@[index as int] as int]
                    == before.slots[slots@[index as int] as int]);
            }
            let lease = self.make_ready(slots[index]);
            leases.push(lease);
            index = index + 1;
        }
        let ghost ready = self@;
        proof {
            lemma_readied(before, slots@, n);
        }
        let mut at: usize = 0;
        while at < slots.len()
            invariant
                at <= slots@.len(),
                n == slots@.len(),
                forall|i: int| 0 <= i < n ==> #[trigger] slots@[i] < ready.slots.len(),
                self@ == attached_all(ready, slots@, at as int),
                same_places(ready, self@),
            decreases slots@.len() - at,
        {
            let ghost held = self@;
            let source: usize = slots[at];
            assert(needed_names(held.slots[source as int].state) == needed_names(
                ready.slots[source as int].state,
            ));
            self.attach_all(source);
            proof {
                let names = needed_names(held.slots[source as int].state);
                lemma_attached_names(held, source as int, names, names.len() as int);
                lemma_same_places(ready, held, self@);
            }
            at = at + 1;
        }
        let ghost linked = self@;
        self.wake_all(&slots);
        Ok(leases)
    }

    fn wake_all(&mut self, slots: &Vec<usize>)
        requires
            forall|i: int| 0 <= i < slots@.len() ==> #[trigger] slots@[i] < old(self)@.slots.len(),
        ensures
            final(self)@ == woken_all(old(self)@, slots@, slots@.len() as int),
    {
        let ghost before = self@;
        let mut index: usize = 0;
        while index < slots.len()
            invariant
                index <= slots@.len(),
                self@ == woken_all(before, slots@, index as int),
                self@.slots.len() == before.slots.len(),
                forall|i: int| 0 <= i < slots@.len() ==> #[trigger] slots@[i] < before.slots.len(),
            decreases slots@.len() - index,
        {
            self.wake(slots[index]);
            index = index + 1;
        }
    }
}

/// The registry after the initialization of one library was given up: its memory is
/// kept for the reaper, its waiters are told, and the libraries that it held are
/// released.
pub open spec fn failed<D>(view: RegistryView<D>, slot: usize, generation: u32) -> RegistryView<D> {
    if current(view, slot, generation) {
        match view.slots[slot as int].state {
            StateView::Initializing(backing) => {
                let kept = RegistryView {
                    failed_backings: view.failed_backings.push(backing.allocation),
                    ..with_state(view, slot as int, StateView::Failed)
                };
                leases_released(
                    woken(kept, slot as int),
                    backing.dependencies,
                    backing.dependencies.len() as int,
                )
            },
            _ => woken(with_state(view, slot as int, StateView::Vacant), slot as int),
        }
    } else {
        view
    }
}

/// The registry after the initialization of the first `k` libraries was given up.
pub open spec fn failed_all<D>(
    view: RegistryView<D>,
    slots: Seq<usize>,
    generations: Seq<u32>,
    k: int,
) -> RegistryView<D>
    decreases k,
{
    if k <= 0 {
        view
    } else {
        failed(failed_all(view, slots, generations, k - 1), slots[k - 1], generations[k - 1])
    }
}

impl<D> SystemDsoRegistry<D> {
    /// Gives up a set of libraries whose application died before their constructors
    /// finished. No descriptor is published; the backings are kept for the reaper.
    pub fn fail_initialization_batch(&mut self, batch: SystemInitBatch)
        requires
            batch.wf(),
        ensures
            final(self)@ == failed_all(
                old(self)@,
                batch.slots@,
                batch.generations@,
                batch.slots@.len() as int,
            ),
    {
        let ghost before = self@;
        let mut index: usize = 0;
        while index < batch.slots.len()
            invariant
                index <= batch.slots@.len() == batch.generations@.len(),
                self@ == failed_all(before, batch.slots@, batch.generations@, index as int),
            decreases batch.slots@.len() - index,
        {
            self.fail_initialization(batch.slots[index], batch.generations[index]);
            index = index + 1;
        }
    }

    fn fail_initialization(&mut self, slot: usize, generation: u32)
        ensures
            final(self)@ == failed(old(self)@, slot, generation),
    {
        if !self.is_current(slot, generation) {
            return;
        }
        assert(self@.slots.len() == self.slots@.len());
        let before = self.replace_state(slot, InstanceState::Vacant);
        match before {
            InstanceState::Initializing(backing) => {
                self.replace_state(slot, InstanceState::Failed);
                self.failed_backings.push(backing.allocation);
                proof {
                    let kept = RegistryView {
                        failed_backings: old(self)@.failed_backings.push(backing.allocation),
                        ..with_state(old(self)@, slot as int, StateView::Failed)
                    };
                    assert(self@.slots =~= kept.slots);
                    assert(self@ =~= kept);
                }
                self.wake(slot);
                self.release_leases(backing.dependencies);
            },
            _ => {
                self.wake(slot);
            },
        }
    }
}

/// Every library of a set that became ready holds one lease for each library that
/// it needs, behind those that it held before.
pub proof fn finishing_leases_every_dependency<D>(
    view: RegistryView<D>,
    slots: Seq<usize>,
    generations: Seq<u32>,
    k: int,
)
    requires
        slots.len() == generations.len(),
        forall|i: int, j: int|
            0 <= i < j < slots.len() ==> #[trigger] slots[i] != #[trigger] slots[j],
        batch_ready(view, slots, generations),
        0 <= k < slots.len(),
    ensures
        ({
            let at = slots[k] as int;
            match (view.slots[at].state, initialized(view, slots).slots[at].state) {
                (StateView::Initializing(old_backing), StateView::Ready { leases, backing }) => {
                    let names = old_backing.dependency_names;
                    &&& backing.dependencies.len() == old_backing.dependencies.len() + names.len()
                    &&& forall|j: int|
                        0 <= j < old_backing.dependencies.len()
                            ==> #[trigger] backing.dependencies[j] == old_backing.dependencies[j]
                    &&& forall|j: int|
                        0 <= j < names.len() ==> {
                            let lease = #[trigger] backing.dependencies[old_backing.dependencies.len()
                                + j];
                            lease.domain == view.slots[at].domain && lease.soname == names[j]
                        }
                    &&& backing.descriptor == old_backing.descriptor
                    &&& backing.allocation == old_backing.allocation
                    &&& leases >= 1
                },
                _ => false,
            }
        }),
{
    let n = slots.len() as int;
    assert forall|i: int| 0 <= i < slots.len() implies #[trigger] slots[i] < view.slots.len() by {
        assert(source_ready(view, slots, slots[i], generations[i]));
    }
    lemma_readied(view, slots, n);
    let ready = readied(view, slots, n);
    let at = slots[k] as int;
    assert(source_ready(view, slots, slots[k], generations[k]));
    assert forall|i: int| 0 <= i < n implies providers_ready(
        ready,
        #[trigger] slots[i] as int,
    ) by {
        lemma_providers_ready(view, slots, generations, i);
    }
    lemma_attached_all_holds(ready, slots, n, at);
    lemma_woken_all(attached_all(ready, slots, n), slots, n, at);
    lemma_times_listed(slots, n, k);
}

/// Whether all that the library of a slot needs is ready.
spec fn providers_ready<D>(view: RegistryView<D>, source: int) -> bool {
    &&& 0 <= source < view.slots.len()
    &&& view.slots[source].state is Ready
    &&& forall|j: int|
        0 <= j < needed_names(view.slots[source].state).len() ==> is_ready(
            view,
            view.slots[source].domain,
            #[trigger] needed_names(view.slots[source].state)[j],
        )
}

spec fn is_ready<D>(view: RegistryView<D>, domain: LinkDomainId, name: Seq<u8>) -> bool {
    match find_slot(view.slots, domain, name) {
        Some(p) => view.slots[p].state is Ready,
        None => false,
    }
}

proof fn lemma_providers_ready<D>(
    view: RegistryView<D>,
    slots: Seq<usize>,
    generations: Seq<u32>,
    i: int,
)
    requires
        slots.len() == generations.len(),
        forall|a: int, b: int|
            0 <= a < b < slots.len() ==> #[trigger] slots[a] != #[trigger] slots[b],
        batch_ready(view, slots, generations),
        0 <= i < slots.len(),
    ensures
        providers_ready(readied(view, slots, slots.len() as int), slots[i] as int),
{
    let n = slots.len() as int;
    assert forall|a: int| 0 <= a < slots.len() implies #[trigger] slots[a] < view.slots.len() by {
        assert(source_ready(view, slots, slots[a], generations[a]));
    }
    lemma_readied(view, slots, n);
    let ready = readied(view, slots, n);
    let at = slots[i] as int;
    assert(source_ready(view, slots, slots[i], generations[i]));
    let names = needed_names(view.slots[at].state);
    assert(needed_names(ready.slots[at].state) == names);
    assert forall|j: int| 0 <= j < names.len() implies is_ready(
        ready,
        ready.slots[at].domain,
        #[trigger] names[j],
    ) by {
        assert(provider_ready(view, slots, view.slots[at].domain, names[j]));
        lemma_find_from(view.slots, view.slots[at].domain, names[j], 0);
        lemma_find_same_keys(view.slots, ready.slots, view.slots[at].domain, names[j], 0);
        let p = find_slot(view.slots, view.slots[at].domain, names[j])->0;
        if view.slots[p].state is Initializing {
            let b = choose|b: int| 0 <= b < slots.len() && #[trigger] slots[b] == p;
            assert(slots[b] < view.slots.len());
            assert(source_ready(view, slots, slots[b], generations[b]));
            assert(ready.slots[slots[b] as int].state is Ready);
        } else {
            assert(ready.slots[p].state is Ready);
        }
    }
}

/// How often a slot occurs among the first `k`.
spec fn times_listed(slots: Seq<usize>, k: int, at: int) -> nat
    decreases k,
{
    if k <= 0 {
        0
    } else {
        times_listed(slots, k - 1, at) + if slots[k - 1] == at {
            1nat
        } else {
            0
        }
    }
}

proof fn lemma_times_listed(slots: Seq<usize>, k: int, i: int)
    requires
        0 <= i < slots.len(),
        0 <= k <= slots.len(),
        forall|a: int, b: int|
            0 <= a < b < slots.len() ==> #[trigger] slots[a] != #[trigger] slots[b],
    ensures
        times_listed(slots, k, slots[i] as int) == (if i < k {
            1nat
        } else {
            0nat
        }),
    decreases k,
{
    if k > 0 {
        lemma_times_listed(slots, k - 1, i);
        if i < k - 1 {
            assert(slots[i] != slots[k - 1]);
        } else if i >= k {
            assert(slots[k - 1] != slots[i]);
        }
    }
}

/// Whether `after` has the leases of `names` behind those of `before`.
spec fn holds_more<D>(
    before: SlotView<D>,
    after: SlotView<D>,
    names: Seq<Seq<u8>>,
    count: int,
) -> bool {
    match (before.state, after.state) {
        (
            StateView::Ready { leases: fewer, backing: old_backing },
            StateView::Ready { leases, backing },
        ) => {
            &&& fewer <= leases
            &&& backing.descriptor == old_backing.descriptor
            &&& backing.allocation == old_backing.allocation
            &&& backing.dependencies.len() == old_backing.dependencies.len() + count
            &&& forall|j: int|
                0 <= j < old_backing.dependencies.len() ==> #[trigger] backing.dependencies[j]
                    == old_backing.dependencies[j]
            &&& forall|j: int|
                0 <= j < count ==> {
                    let lease = #[trigger] backing.dependencies[old_backing.dependencies.len() + j];
                    lease.domain == before.domain && lease.soname == names[j]
                }
        },
        _ => false,
    }
}

proof fn lemma_attached_step<D>(view: RegistryView<D>, source: int, name: Seq<u8>, at: int)
    requires
        0 <= source < view.slots.len(),
        0 <= at < view.slots.len(),
        view.slots[source].state is Ready,
        view.slots[at].state is Ready,
        is_ready(view, view.slots[source].domain, name),
    ensures
        at != source ==> holds_more(
            view.slots[at],
            attached(view, source, name).slots[at],
            Seq::empty(),
            0,
        ),
        at == source ==> holds_more(
            view.slots[at],
            attached(view, source, name).slots[at],
            seq![name],
            1,
        ),
{
    lemma_find_from(view.slots, view.slots[source].domain, name, 0);
}

proof fn lemma_attached_names_hold<D>(
    view: RegistryView<D>,
    source: int,
    names: Seq<Seq<u8>>,
    j: int,
    at: int,
)
    requires
        0 <= j <= names.len(),
        0 <= at < view.slots.len(),
        view.slots[at].state is Ready,
        providers_ready(view, source),
        names == needed_names(view.slots[source].state),
    ensures
        at != source ==> holds_more(
            view.slots[at],
            attached_names(view, source, names, j).slots[at],
            Seq::empty(),
            0,
        ),
        at == source ==> holds_more(
            view.slots[at],
            attached_names(view, source, names, j).slots[at],
            names,
            j,
        ),
    decreases j,
{
    if j > 0 {
        lemma_attached_names_hold(view, source, names, j - 1, at);
        lemma_attached_names(view, source, names, j - 1);
        let before = attached_names(view, source, names, j - 1);
        let name = names[j - 1];
        assert(is_ready(view, view.slots[source].domain, needed_names(
            view.slots[source].state,
        )[j - 1]));
        lemma_find_same_keys(view.slots, before.slots, view.slots[source].domain, name, 0);
        lemma_find_from(view.slots, view.slots[source].domain, name, 0);
        assert(before.slots[source].state is Ready);
        assert(before.slots[at].state is Ready);
        lemma_attached_step(before, source, name, at);
        lemma_attached(before, source, name);
    }
}

proof fn lemma_attached_all_holds<D>(view: RegistryView<D>, slots: Seq<usize>, k: int, at: int)
    requires
        0 <= k <= slots.len(),
        0 <= at < view.slots.len(),
        view.slots[at].state is Ready,
        forall|i: int| 0 <= i < slots.len() ==> providers_ready(view, #[trigger] slots[i] as int),
        forall|a: int, b: int|
            0 <= a < b < slots.len() ==> #[trigger] slots[a] != #[trigger] slots[b],
    ensures
        same_places(view, attached_all(view, slots, k)),
        ({
            let names = needed_names(view.slots[at].state);
            holds_more(
                view.slots[at],
                attached_all(view, slots, k).slots[at],
                names,
                if times_listed(slots, k, at) == 0 {
                    0
                } else {
                    names.len() as int
                },
            )
        }),
        times_listed(slots, k, at) <= 1,
    decreases k,
{
    let names = needed_names(view.slots[at].state);
    if k > 0 {
        lemma_attached_all_holds(view, slots, k - 1, at);
        let before = attached_all(view, slots, k - 1);
        let source = slots[k - 1] as int;
        assert(providers_ready(view, slots[k - 1] as int));
        let wanted = needed_names(view.slots[source].state);
        assert(needed_names(before.slots[source].state) == wanted);
        assert forall|j: int| 0 <= j < wanted.len() implies is_ready(
            before,
            before.slots[source].domain,
            #[trigger] wanted[j],
        ) by {
            assert(is_ready(view, view.slots[source].domain, needed_names(
                view.slots[source].state,
            )[j]));
            lemma_find_same_keys(
                view.slots,
                before.slots,
                view.slots[source].domain,
                wanted[j],
                0,
            );
            lemma_find_from(view.slots, view.slots[source].domain, wanted[j], 0);
        }
        assert(providers_ready(before, source));
        lemma_attached_names_hold(before, source, wanted, wanted.len() as int, at);
        lemma_attached_names(before, source, wanted, wanted.len() as int);
        let after = attached_names(before, source, wanted, wanted.len() as int);
        lemma_same_places(view, before, after);
        let times = times_listed(slots, k - 1, at);
        lemma_times_listed(slots, k - 1, k - 1);
        if source == at {
            assert(times == 0);
        } else {
            assert(times_listed(slots, k, at) == times);
        }
    }
}

proof fn lemma_woken_all<D>(view: RegistryView<D>, slots: Seq<usize>, k: int, at: int)
    requires
        0 <= k <= slots.len(),
        0 <= at < view.slots.len(),
        forall|i: int| 0 <= i < slots.len() ==> #[trigger] slots[i] < view.slots.len(),
    ensures
        woken_all(view, slots, k).slots.len() == view.slots.len(),
        woken_all(view, slots, k).slots[at].state == view.slots[at].state,
        woken_all(view, slots, k).slots[at].domain == view.slots[at].domain,
    decreases k,
{
    if k > 0 {
        lemma_woken_all(view, slots, k - 1, at);
    }
}

/// The memory of those of the first `k` libraries that are being initialized, in
/// their order.
pub open spec fn failing_memory<D>(
    view: RegistryView<D>,
    slots: Seq<usize>,
    generations: Seq<u32>,
    k: int,
) -> Seq<AllocationLease>
    decreases k,
{
    if k <= 0 {
        Seq::empty()
    } else {
        let before = failing_memory(view, slots, generations, k - 1);
        if current(view, slots[k - 1], generations[k - 1]) {
            match view.slots[slots[k - 1] as int].state {
                StateView::Initializing(backing) => before.push(backing.allocation),
                _ => before,
            }
        } else {
            before
        }
    }
}

/// The memory of every library of a set that failed is kept for the reaper, once,
/// and the library can be loaded again. No other library changes, but for users that
/// it lost.
pub proof fn failing_keeps_the_memory<D>(
    view: RegistryView<D>,
    slots: Seq<usize>,
    generations: Seq<u32>,
    k: int,
    at: int,
)
    requires
        slots.len() == generations.len(),
        0 <= k <= slots.len(),
        0 <= at < view.slots.len(),
        forall|a: int, b: int|
            0 <= a < b < slots.len() ==> #[trigger] slots[a] != #[trigger] slots[b],
    ensures
        ({
            let after = failed_all(view, slots, generations, k);
            let was = view.slots[at].state;
            let is = after.slots[at].state;
            &&& after.slots.len() == view.slots.len()
            &&& after.failed_backings == view.failed_backings + failing_memory(
                view,
                slots,
                generations,
                k,
            )
            &&& after.slots[at].generation == view.slots[at].generation
            &&& forall|i: int|
                0 <= i < k && #[trigger] slots[i] == at && current(view, slots[i], generations[i])
                    && was is Initializing ==> is is Failed && after.slots[at].signal
                    != view.slots[at].signal
            &&& (forall|i: int| 0 <= i < k ==> #[trigger] slots[i] != at) ==> after.slots[at].signal
                == view.slots[at].signal && match was {
                StateView::Ready { leases: _, backing } => match is {
                    StateView::Ready { leases: _, backing: kept } => kept == backing,
                    _ => false,
                },
                _ => is == was,
            }
        }),
    decreases k,
{
    if k > 0 {
        failing_keeps_the_memory(view, slots, generations, k - 1, at);
        let before = failed_all(view, slots, generations, k - 1);
        let last = slots[k - 1] as int;
        let after = failed_all(view, slots, generations, k);
        if last < view.slots.len() {
            failing_keeps_the_memory(view, slots, generations, k - 1, last);
            assert forall|j: int| 0 <= j < k - 1 implies #[trigger] slots[j] != last by {
                assert(slots[j] != slots[k - 1]);
            }
        }
        if current(before, slots[k - 1], generations[k - 1]) {
            match before.slots[last].state {
                StateView::Initializing(backing) => {
                    let told = woken(
                        RegistryView {
                            failed_backings: before.failed_backings.push(backing.allocation),
                            ..with_state(before, last, StateView::Failed)
                        },
                        last,
                    );
                    lemma_leases_released(
                        told,
                        backing.dependencies,
                        backing.dependencies.len() as int,
                        at,
                    );
                },
                _ => {},
            }
        }
        assert(after.failed_backings =~= view.failed_backings + failing_memory(
            view,
            slots,
            generations,
            k,
        ));
        assert forall|i: int|
            0 <= i < k && #[trigger] slots[i] == at && current(view, slots[i], generations[i])
                && view.slots[at].state is Initializing implies after.slots[at].state is Failed
            && after.slots[at].signal != view.slots[at].signal by {
            if i < k - 1 {
                assert(slots[i] != slots[k - 1]);
            }
        }
    }
}

/// How many users a library has.
pub open spec fn users<D>(view: RegistryView<D>, p: int) -> int {
    match view.slots[p].state {
        StateView::Ready { leases, backing } => leases as int,
        _ => 0,
    }
}

/// How many of the first `j` names the library of slot `p` has.
pub open spec fn named<D>(
    view: RegistryView<D>,
    domain: LinkDomainId,
    names: Seq<Seq<u8>>,
    j: int,
    p: int,
) -> nat
    decreases j,
{
    if j <= 0 {
        0
    } else {
        named(view, domain, names, j - 1, p) + if find_slot(view.slots, domain, names[j - 1])
            == Some(p) {
            1nat
        } else {
            0
        }
    }
}

/// How often the first `k` libraries of a set need the library of slot `p`.
pub open spec fn needed_times<D>(view: RegistryView<D>, slots: Seq<usize>, k: int, p: int) -> nat
    decreases k,
{
    if k <= 0 {
        0
    } else {
        let source = view.slots[slots[k - 1] as int];
        let names = needed_names(source.state);
        needed_times(view, slots, k - 1, p) + named(
            view,
            source.domain,
            names,
            names.len() as int,
            p,
        )
    }
}

proof fn lemma_named_same<D>(
    a: RegistryView<D>,
    b: RegistryView<D>,
    domain: LinkDomainId,
    names: Seq<Seq<u8>>,
    j: int,
    p: int,
)
    requires
        same_keys(a.slots, b.slots),
    ensures
        named(a, domain, names, j, p) == named(b, domain, names, j, p),
    decreases j,
{
    if j > 0 {
        lemma_named_same(a, b, domain, names, j - 1, p);
        lemma_find_same_keys(a.slots, b.slots, domain, names[j - 1], 0);
    }
}

proof fn lemma_attached_users<D>(
    view: RegistryView<D>,
    source: int,
    names: Seq<Seq<u8>>,
    j: int,
    p: int,
)
    requires
        0 <= j <= names.len(),
        0 <= p < view.slots.len(),
        view.slots[p].state is Ready,
        providers_ready(view, source),
        names == needed_names(view.slots[source].state),
        users(view, p) + named(view, view.slots[source].domain, names, j, p) <= usize::MAX,
    ensures
        users(attached_names(view, source, names, j), p) == users(view, p) + named(
            view,
            view.slots[source].domain,
            names,
            j,
            p,
        ),
    decreases j,
{
    if j > 0 {
        lemma_attached_users(view, source, names, j - 1, p);
        lemma_attached_names(view, source, names, j - 1);
        let before = attached_names(view, source, names, j - 1);
        let name = names[j - 1];
        assert(is_ready(view, view.slots[source].domain, needed_names(
            view.slots[source].state,
        )[j - 1]));
        lemma_find_same_keys(view.slots, before.slots, view.slots[source].domain, name, 0);
        lemma_find_from(view.slots, view.slots[source].domain, name, 0);
        let q = find_slot(view.slots, view.slots[source].domain, name)->0;
        assert(before.slots[q].state is Ready);
        assert(before.slots[p].state is Ready);
        assert(before.slots[source].state is Ready);
    }
}

proof fn lemma_attached_all_users<D>(view: RegistryView<D>, slots: Seq<usize>, k: int, p: int)
    requires
        0 <= k <= slots.len(),
        0 <= p < view.slots.len(),
        view.slots[p].state is Ready,
        forall|i: int| 0 <= i < slots.len() ==> providers_ready(view, #[trigger] slots[i] as int),
        forall|a: int, b: int|
            0 <= a < b < slots.len() ==> #[trigger] slots[a] != #[trigger] slots[b],
        users(view, p) + needed_times(view, slots, k, p) <= usize::MAX,
    ensures
        users(attached_all(view, slots, k), p) == users(view, p) + needed_times(view, slots, k, p),
    decreases k,
{
    if k > 0 {
        lemma_attached_all_users(view, slots, k - 1, p);
        lemma_attached_all_holds(view, slots, k - 1, p);
        let before = attached_all(view, slots, k - 1);
        let source = slots[k - 1] as int;
        assert(providers_ready(view, slots[k - 1] as int));
        let wanted = needed_names(view.slots[source].state);
        assert(needed_names(before.slots[source].state) == wanted);
        assert forall|j: int| 0 <= j < wanted.len() implies is_ready(
            before,
            before.slots[source].domain,
            #[trigger] wanted[j],
        ) by {
            assert(is_ready(view, view.slots[source].domain, needed_names(
                view.slots[source].state,
            )[j]));
            lemma_find_same_keys(
                view.slots,
                before.slots,
                view.slots[source].domain,
                wanted[j],
                0,
            );
            lemma_find_from(view.slots, view.slots[source].domain, wanted[j], 0);
        }
        lemma_named_same(
            view,
            before,
            view.slots[source].domain,
            wanted,
            wanted.len() as int,
            p,
        );
        lemma_attached_users(before, source, wanted, wanted.len() as int, p);
    }
}

/// Once a set is ready, every ready library has one more user for each time that
/// the set needs it; a library of the set has its first application besides.
pub proof fn finishing_counts_every_dependency<D>(
    view: RegistryView<D>,
    slots: Seq<usize>,
    generations: Seq<u32>,
    p: int,
)
    requires
        slots.len() == generations.len(),
        forall|i: int, j: int|
            0 <= i < j < slots.len() ==> #[trigger] slots[i] != #[trigger] slots[j],
        batch_ready(view, slots, generations),
        0 <= p < view.slots.len(),
        view.slots[p].state is Ready || lists(slots, p),
        users(view, p) + 1 + needed_times(view, slots, slots.len() as int, p) <= usize::MAX,
    ensures
        users(initialized(view, slots), p) == (if lists(slots, p) {
            1
        } else {
            users(view, p)
        }) + needed_times(view, slots, slots.len() as int, p),
{
    let n = slots.len() as int;
    assert forall|i: int| 0 <= i < slots.len() implies #[trigger] slots[i] < view.slots.len() by {
        assert(source_ready(view, slots, slots[i], generations[i]));
    }
    lemma_readied(view, slots, n);
    let ready = readied(view, slots, n);
    assert forall|i: int| 0 <= i < n implies providers_ready(
        ready,
        #[trigger] slots[i] as int,
    ) by {
        lemma_providers_ready(view, slots, generations, i);
    }
    if lists(slots, p) {
        let i = choose|i: int| 0 <= i < slots.len() && #[trigger] slots[i] == p;
        assert(source_ready(view, slots, slots[i], generations[i]));
        assert(ready.slots[slots[i] as int].state is Ready);
    }
    lemma_needed_times_same(view, ready, slots, n, p);
    lemma_attached_all_holds(ready, slots, n, p);
    lemma_attached_all_users(ready, slots, n, p);
    lemma_woken_all(attached_all(ready, slots, n), slots, n, p);
}

proof fn lemma_needed_times_same<D>(
    a: RegistryView<D>,
    b: RegistryView<D>,
    slots: Seq<usize>,
    k: int,
    p: int,
)
    requires
        same_places(a, b),
        0 <= k <= slots.len(),
        forall|i: int| 0 <= i < slots.len() ==> #[trigger] slots[i] < a.slots.len(),
    ensures
        needed_times(a, slots, k, p) == needed_times(b, slots, k, p),
    decreases k,
{
    if k > 0 {
        lemma_needed_times_same(a, b, slots, k - 1, p);
        let at = slots[k - 1] as int;
        assert(a.slots[at].domain == b.slots[at].domain);
        assert(needed_names(b.slots[at].state) == needed_names(a.slots[at].state));
        let names = needed_names(a.slots[at].state);
        lemma_named_same(a, b, a.slots[at].domain, names, names.len() as int, p);
    }
}

/// Every library of a published set takes over its own backing: the slot of permit `j` has the
/// backing `j` of the set, in the generation of the permit. No library outside the set
/// changes.
pub proof fn libraries_take_over_their_own_backing<D>(
    view: RegistryView<D>,
    permits: Seq<RelocatedPermit>,
    backings: Seq<BackingView<D>>,
    k: int,
)
    requires
        0 <= k <= permits.len(),
        first_misfit(view, permits, backings, 0) is None,
    ensures
        ({
            let after = initializing(view, permits, backings, k);
            &&& after.slots.len() == view.slots.len()
            &&& forall|j: int|
                0 <= j < k ==> {
                    let permit = #[trigger] permits[j];
                    &&& permit.slot < view.slots.len()
                    &&& view.slots[permit.slot as int].generation == permit.generation
                    &&& view.slots[permit.slot as int].state is Relocated
                    &&& after.slots[permit.slot as int].state == StateView::Initializing(
                        backings[j],
                    )
                    &&& after.slots[permit.slot as int].generation == permit.generation
                }
            &&& forall|at: int|
                0 <= at < view.slots.len() && (forall|j: int|
                    0 <= j < k ==> (#[trigger] permits[j]).slot != at) ==> #[trigger] after.slots[at]
                    == view.slots[at]
        }),
    decreases k,
{
    if k > 0 {
        libraries_take_over_their_own_backing(view, permits, backings, k - 1);
        lemma_no_misfit(view, permits, backings, 0, k - 1);
        let before = initializing(view, permits, backings, k - 1);
        let after = initializing(view, permits, backings, k);
        let last = permits[k - 1].slot as int;
        assert forall|j: int| 0 <= j < k - 1 implies (#[trigger] permits[j]).slot != last by {
            assert(before.slots[permits[j].slot as int].state is Initializing);
        }
        assert(before.slots[last] == view.slots[last]);
        assert forall|at: int|
            0 <= at < view.slots.len() && (forall|j: int|
                0 <= j < k ==> (#[trigger] permits[j]).slot != at) implies #[trigger] after.slots[at]
            == view.slots[at] by {
            assert(permits[k - 1].slot != at);
            assert(before.slots[at] == view.slots[at]);
        }
    }
}

proof fn lemma_no_misfit<D>(
    view: RegistryView<D>,
    permits: Seq<RelocatedPermit>,
    backings: Seq<BackingView<D>>,
    from: int,
    k: int,
)
    requires
        0 <= from <= k < permits.len(),
        first_misfit(view, permits, backings, from) is None,
    ensures
        fits(initializing(view, permits, backings, k), permits[k]),
    decreases k - from,
{
    if from < k {
        lemma_no_misfit(view, permits, backings, from + 1, k);
    }
}

/// A library whose initialization is given up is failed, and its memory is kept for the reaper
/// behind what is there. A token of another generation changes nothing.
pub proof fn failed_libraries_leave_their_memory<D>(
    view: RegistryView<D>,
    slot: usize,
    generation: u32,
)
    requires
        slot < view.slots.len(),
    ensures
        ({
            let after = failed(view, slot, generation);
            let before = view.slots[slot as int];
            &&& before.generation != generation ==> after == view
            &&& before.generation == generation ==> match before.state {
                StateView::Initializing(backing) => {
                    &&& after.slots[slot as int].state is Failed
                    &&& after.failed_backings.len() == view.failed_backings.len() + 1
                    &&& after.failed_backings.last() == backing.allocation
                    &&& after.failed_backings.drop_last() == view.failed_backings
                },
                _ => after.slots[slot as int].state is Vacant && after.failed_backings
                    == view.failed_backings,
            }
        }),
{
    if let StateView::Initializing(backing) = view.slots[slot as int].state {
        let kept = RegistryView {
            failed_backings: view.failed_backings.push(backing.allocation),
            ..with_state(view, slot as int, StateView::Failed)
        };
        lemma_leases_released(
            woken(kept, slot as int),
            backing.dependencies,
            backing.dependencies.len() as int,
            slot as int,
        );
        assert(kept.failed_backings.drop_last() =~= view.failed_backings);
    }
}

} // verus!
