//! What a waiter for a library can rely on over time.
//!
//! All that happens to the registry is made of a few steps. Whatever steps others take
//! after a ticket was handed out, the ticket is resolved once the library could be had,
//! it stays so, and it is not resolved before.

use crate::application::registry::{
    current, ensured, ensured_at, find_from, find_slot, handed_out, lease_released,
    leases_released, lemma_find_from, load_cancelled, next_generation, next_signal, obtainable,
    pending_at, relocation_cancelled, resolved, with_state, woken, AcquireBatchOutcome,
    BackingView, LeaseView, LoadPermit, RegistryView, RelocatedPermit, SlotView, StateView,
    SystemInitBatch, WaitHandle,
};
use crate::application::registry_batch::{
    batch_acquired, ensured_all, first_in_flight, handed_out_all,
};
use crate::application::registry_init::{
    attached_all, batch_published, batch_ready, failed, failed_all, first_misfit, fits,
    initialized, initializing, lists, readied, relocations_cancelled, source_ready,
};
use crate::application::registry_quiescence::{
    all_different, batch_unloading, fate, group_names, lemma_group_slots, members_of,
    only_unused_libraries_are_destroyed, unloaded, unloading, Fate,
};
use crate::application::registry_waiters::{
    lemma_all_quiet, lemma_leases_quiet, lemma_readied_slots, lemma_unloaded_slots,
    lemma_unloading_slots, lemma_woken_slots, quiet,
};
use crate::dynamic_linker::artifact::LinkDomainId;
use crate::error::LoadResult;
use vstd::prelude::*;

verus! {

/// One step of the registry.
pub enum RegistryStep<D> {
    /// A library gets a slot, unless it has one.
    Know { domain: LinkDomainId, soname: Seq<u8> },
    /// The library of a slot is asked for.
    HandOut { slot: int },
    CancelLoad { permit: LoadPermit },
    Relocate { permit: LoadPermit },
    CancelRelocation { permit: RelocatedPermit },
    /// A relocated library takes over its backing.
    Publish { permit: RelocatedPermit, backing: BackingView<D> },
    /// A set of libraries becomes ready.
    Finish { slots: Seq<usize>, generations: Seq<u32> },
    /// The initialization of a library is given up.
    Fail { slot: usize, generation: u32 },
    Release { lease: LeaseView },
    /// Ready libraries leave for destruction.
    Leave { members: Seq<usize> },
    /// Libraries that left are destroyed.
    Destroy { slots: Seq<usize>, generations: Seq<u32> },
    /// The memory of failed libraries is taken.
    Drain,
}

/// Whether a step can be taken.
pub open spec fn allowed<D>(view: RegistryView<D>, step: RegistryStep<D>) -> bool {
    match step {
        RegistryStep::HandOut { slot } => 0 <= slot < view.slots.len(),
        RegistryStep::Relocate { permit } => current(view, permit.slot, permit.generation)
            && view.slots[permit.slot as int].state is Loading,
        RegistryStep::Publish { permit, .. } => fits(view, permit),
        RegistryStep::Finish { slots, generations } => all_different(slots) && slots.len()
            == generations.len() && batch_ready(view, slots, generations),
        RegistryStep::Leave { members } => forall|i: int|
            0 <= i < members.len() ==> #[trigger] members[i] < view.slots.len()
                && view.slots[members[i] as int].state is Ready,
        RegistryStep::Destroy { slots, generations } => all_different(slots) && slots.len()
            == generations.len() && batch_unloading(view, slots, generations),
        _ => true,
    }
}

/// The registry after a step.
pub open spec fn stepped<D>(view: RegistryView<D>, step: RegistryStep<D>) -> RegistryView<D> {
    match step {
        RegistryStep::Know { domain, soname } => RegistryView {
            slots: ensured(view.slots, domain, soname),
            ..view
        },
        RegistryStep::HandOut { slot } => handed_out(view, slot),
        RegistryStep::CancelLoad { permit } => load_cancelled(view, permit),
        RegistryStep::Relocate { permit } => with_state(
            view,
            permit.slot as int,
            StateView::Relocated,
        ),
        RegistryStep::CancelRelocation { permit } => relocation_cancelled(view, permit),
        RegistryStep::Publish { permit, backing } => with_state(
            view,
            permit.slot as int,
            StateView::Initializing(backing),
        ),
        RegistryStep::Finish { slots, generations } => initialized(view, slots),
        RegistryStep::Fail { slot, generation } => failed(view, slot, generation),
        RegistryStep::Release { lease } => lease_released(view, lease),
        RegistryStep::Leave { members } => unloading(view, members, members.len() as int),
        RegistryStep::Destroy { slots, generations } => unloaded(view, slots, slots.len() as int),
        RegistryStep::Drain => RegistryView { failed_backings: Seq::empty(), ..view },
    }
}

/// Whether these steps lead through these states of the registry.
pub open spec fn history<D>(views: Seq<RegistryView<D>>, steps: Seq<RegistryStep<D>>) -> bool {
    &&& views.len() == steps.len() + 1
    &&& forall|k: int|
        0 <= k < steps.len() ==> allowed(views[k], #[trigger] steps[k]) && views[k + 1] == stepped(
            views[k],
            steps[k],
        )
}

/// How a slot may change in one step. It keeps its library. Its signal moves once, if
/// the library can be had afterwards, and does move when one in flight can be had. A
/// new generation begins by loading a library that could be had. Without one, only a
/// ready library that leaves for destruction cannot be had any more.
pub open spec fn turned<D>(before: SlotView<D>, after: SlotView<D>) -> bool {
    let moved = after.signal != before.signal;
    &&& after.domain == before.domain
    &&& after.soname == before.soname
    &&& moved ==> after.signal == next_signal(before.signal) && obtainable(after.state)
    &&& !obtainable(before.state) ==> (moved <==> obtainable(after.state))
    &&& after.generation != before.generation ==> obtainable(before.state) && after.state
        is Loading && after.generation == next_generation(before.generation)
    &&& after.generation == before.generation && obtainable(before.state) && !obtainable(
        after.state,
    ) ==> before.state is Ready && after.state is Unloading
}

/// Whether every slot changes as it may.
pub open spec fn turns<D>(before: RegistryView<D>, after: RegistryView<D>) -> bool {
    &&& before.slots.len() <= after.slots.len()
    &&& forall|at: int|
        0 <= at < before.slots.len() ==> turned(before.slots[at], #[trigger] after.slots[at])
}

proof fn lemma_failed_turns<D>(view: RegistryView<D>, slot: usize, generation: u32)
    ensures
        turns(view, failed(view, slot, generation)),
{
    if current(view, slot, generation) {
        if let StateView::Initializing(backing) = view.slots[slot as int].state {
            let kept = RegistryView {
                failed_backings: view.failed_backings.push(backing.allocation),
                ..with_state(view, slot as int, StateView::Failed)
            };
            let told = woken(kept, slot as int);
            lemma_leases_quiet(told, backing.dependencies, backing.dependencies.len() as int);
            let after = failed(view, slot, generation);
            assert(quiet(told, after));
            assert forall|at: int| 0 <= at < view.slots.len() implies turned(
                view.slots[at],
                #[trigger] after.slots[at],
            ) by {
                assert(after.slots[at].signal == told.slots[at].signal);
            }
        }
    }
}

proof fn lemma_initialized_turns<D>(
    view: RegistryView<D>,
    slots: Seq<usize>,
    generations: Seq<u32>,
)
    requires
        all_different(slots),
        slots.len() == generations.len(),
        batch_ready(view, slots, generations),
    ensures
        turns(view, initialized(view, slots)),
{
    let n = slots.len() as int;
    assert(slots.subrange(0, n) =~= slots);
    assert forall|i: int| 0 <= i < slots.len() implies #[trigger] slots[i] < view.slots.len()
        && view.slots[slots[i] as int].state is Initializing by {
        assert(source_ready(view, slots, slots[i], generations[i]));
    }
    lemma_readied_slots(view, slots, n);
    let ready = readied(view, slots, n);
    lemma_all_quiet(ready, slots, n);
    let leased = attached_all(ready, slots, n);
    lemma_woken_slots(leased, slots, n);
    let after = initialized(view, slots);
    assert forall|at: int| 0 <= at < view.slots.len() implies turned(
        view.slots[at],
        #[trigger] after.slots[at],
    ) by {
        assert(leased.slots[at].signal == ready.slots[at].signal);
        assert(obtainable(leased.slots[at].state) == obtainable(ready.slots[at].state));
        assert(after.slots[at].state == leased.slots[at].state);
        if lists(slots, at) {
            let i = choose|i: int| 0 <= i < slots.len() && #[trigger] slots[i] == at;
            assert(view.slots[slots[i] as int].state is Initializing);
        }
    }
}

/// Every step changes every slot as it may.
pub proof fn steps_turn_slots<D>(view: RegistryView<D>, step: RegistryStep<D>)
    requires
        allowed(view, step),
    ensures
        turns(view, stepped(view, step)),
{
    match step {
        RegistryStep::Finish { slots, generations } => {
            lemma_initialized_turns(view, slots, generations);
        },
        RegistryStep::Fail { slot, generation } => {
            lemma_failed_turns(view, slot, generation);
        },
        RegistryStep::Leave { members } => {
            lemma_unloading_slots(view, members, members.len() as int);
            let after = stepped(view, step);
            assert forall|at: int| 0 <= at < view.slots.len() implies turned(
                view.slots[at],
                #[trigger] after.slots[at],
            ) by {
                if lists(members, at) {
                    let i = choose|i: int| 0 <= i < members.len() && #[trigger] members[i] == at;
                    assert(view.slots[members[i] as int].state is Ready);
                }
            }
        },
        RegistryStep::Destroy { slots, generations } => {
            let n = slots.len() as int;
            assert(slots.subrange(0, n) =~= slots);
            assert forall|i: int| 0 <= i < slots.len() implies #[trigger] slots[i]
                < view.slots.len() by {
                assert(current(view, slots[i], generations[i]));
            }
            lemma_unloaded_slots(view, slots, n);
            let after = stepped(view, step);
            assert forall|at: int| 0 <= at < view.slots.len() implies turned(
                view.slots[at],
                #[trigger] after.slots[at],
            ) by {
                if lists(slots, at) {
                    let i = choose|i: int| 0 <= i < slots.len() && #[trigger] slots[i] == at;
                    assert(view.slots[slots[i] as int].state is Unloading);
                }
            }
        },
        _ => {},
    }
}

/// How often the signal of slot `i` moved in the first `k` steps.
pub open spec fn moves<D>(views: Seq<RegistryView<D>>, i: int, k: int) -> nat
    decreases k,
{
    if k <= 0 {
        0
    } else if views[k].slots[i].signal != views[k - 1].slots[i].signal {
        moves(views, i, k - 1) + 1
    } else {
        moves(views, i, k - 1)
    }
}

/// A slot keeps its library and its place; its signal counts its moves.
proof fn lemma_moves<D>(
    views: Seq<RegistryView<D>>,
    steps: Seq<RegistryStep<D>>,
    i: int,
    k: int,
)
    requires
        history(views, steps),
        0 <= i < views[0].slots.len(),
        0 <= k <= steps.len() <= usize::MAX,
    ensures
        views[0].slots.len() <= views[k].slots.len(),
        moves(views, i, k) <= k,
        ({
            let sum = views[0].slots[i].signal + moves(views, i, k);
            views[k].slots[i].signal == (if sum <= usize::MAX {
                sum
            } else {
                sum - usize::MAX - 1
            })
        }),
    decreases k,
{
    if k > 0 {
        lemma_moves(views, steps, i, k - 1);
        steps_turn_slots(views[k - 1], steps[k - 1]);
        assert(views[k] == stepped(views[k - 1], steps[k - 1]));
        assert(turned(views[k - 1].slots[i], views[k].slots[i]));
    }
}

proof fn lemma_moves_grow<D>(views: Seq<RegistryView<D>>, i: int, j: int, k: int)
    requires
        0 <= j <= k,
    ensures
        moves(views, i, j) <= moves(views, i, k),
    decreases k - j,
{
    if j < k {
        lemma_moves_grow(views, i, j, k - 1);
    }
}

/// As long as no newer load of a slot begins and its library does not leave for
/// destruction, its signal has moved exactly if the library can be had.
proof fn lemma_moved_when_obtainable<D>(
    views: Seq<RegistryView<D>>,
    steps: Seq<RegistryStep<D>>,
    i: int,
    k: int,
)
    requires
        history(views, steps),
        0 <= i < views[0].slots.len(),
        !obtainable(views[0].slots[i].state),
        0 <= k <= steps.len() <= usize::MAX,
        forall|j: int|
            0 <= j < views.len() ==> (#[trigger] views[j]).slots[i].generation
                == views[0].slots[i].generation,
        forall|j: int|
            0 <= j < steps.len() && views[j].slots[i].state is Ready ==> !((
            #[trigger] stepped(views[j], steps[j])).slots[i].state is Unloading),
    ensures
        moves(views, i, k) > 0 <==> obtainable(views[k].slots[i].state),
    decreases k,
{
    if k > 0 {
        lemma_moved_when_obtainable(views, steps, i, k - 1);
        lemma_moves(views, steps, i, k - 1);
        steps_turn_slots(views[k - 1], steps[k - 1]);
        assert(views[k] == stepped(views[k - 1], steps[k - 1]));
        assert(turned(views[k - 1].slots[i], views[k].slots[i]));
        assert(views[k].slots[i].generation == views[0].slots[i].generation);
        assert(views[k - 1].slots[i].generation == views[0].slots[i].generation);
    }
}

/// A library is found in its slot after every step.
proof fn lemma_found_again<D>(
    views: Seq<RegistryView<D>>,
    steps: Seq<RegistryStep<D>>,
    domain: LinkDomainId,
    soname: Seq<u8>,
    k: int,
)
    requires
        history(views, steps),
        find_slot(views[0].slots, domain, soname) is Some,
        0 <= k <= steps.len(),
    ensures
        find_slot(views[k].slots, domain, soname) == find_slot(views[0].slots, domain, soname),
    decreases k,
{
    if k > 0 {
        lemma_found_again(views, steps, domain, soname, k - 1);
        steps_turn_slots(views[k - 1], steps[k - 1]);
        assert(views[k] == stepped(views[k - 1], steps[k - 1]));
        lemma_found_after(views[k - 1], views[k], domain, soname, 0);
    }
}

proof fn lemma_found_after<D>(
    before: RegistryView<D>,
    after: RegistryView<D>,
    domain: LinkDomainId,
    soname: Seq<u8>,
    from: int,
)
    requires
        turns(before, after),
        0 <= from <= before.slots.len(),
        find_from(before.slots, domain, soname, from) is Some,
    ensures
        find_from(after.slots, domain, soname, from) == find_from(
            before.slots,
            domain,
            soname,
            from,
        ),
    decreases before.slots.len() - from,
{
    if from < before.slots.len() {
        assert(turned(before.slots[from], after.slots[from]));
        if !(before.slots[from].domain == domain && before.slots[from].soname == soname) {
            lemma_found_after(before, after, domain, soname, from + 1);
        }
    }
}

proof fn lemma_ticket<D>(
    view: RegistryView<D>,
    domain: LinkDomainId,
    soname: Seq<u8>,
    handle: WaitHandle,
)
    requires
        pending_at(view, domain, soname) == Some(handle),
        view.slots.len() <= usize::MAX,
    ensures
        find_slot(view.slots, domain, soname) == Some(handle.slot as int),
        handle.slot < view.slots.len(),
        !obtainable(view.slots[handle.slot as int].state),
        view.slots[handle.slot as int].generation == handle.generation,
        view.slots[handle.slot as int].signal == handle.observed,
{
    lemma_find_from(view.slots, domain, soname, 0);
}

/// A ticket is resolved exactly if asking for its library again does not lead to
/// another wait, whatever steps were taken since, as long as they began no newer load
/// of the library and did not take it away for destruction.
///
/// A signal counts in machine words, so that after that many moves it is where it was:
/// the history has no more steps than fit in one.
pub proof fn tickets_tell_when_to_ask_again<D>(
    views: Seq<RegistryView<D>>,
    steps: Seq<RegistryStep<D>>,
    domain: LinkDomainId,
    soname: Seq<u8>,
    handle: WaitHandle,
    k: int,
)
    requires
        history(views, steps),
        steps.len() <= usize::MAX,
        views[0].slots.len() <= usize::MAX,
        pending_at(views[0], domain, soname) == Some(handle),
        forall|j: int|
            0 <= j < views.len() ==> (#[trigger] views[j]).slots[handle.slot as int].generation
                == handle.generation,
        forall|j: int|
            0 <= j < steps.len() && views[j].slots[handle.slot as int].state is Ready ==> !((
            #[trigger] stepped(views[j], steps[j])).slots[handle.slot as int].state is Unloading),
        0 <= k < views.len(),
    ensures
        resolved(views[k], handle) <==> pending_at(views[k], domain, soname) is None,
        resolved(views[k], handle) ==> obtainable(views[k].slots[handle.slot as int].state),
        find_slot(views[k].slots, domain, soname) == Some(handle.slot as int),
{
    let i = handle.slot as int;
    lemma_ticket(views[0], domain, soname, handle);
    lemma_moves(views, steps, i, k);
    lemma_moved_when_obtainable(views, steps, i, k);
    lemma_found_again(views, steps, domain, soname, k);
}

/// A ticket that is resolved stays so, even where a newer load of its library has
/// begun: nobody who comes late to wait is kept waiting.
pub proof fn resolved_tickets_stay_resolved<D>(
    views: Seq<RegistryView<D>>,
    steps: Seq<RegistryStep<D>>,
    domain: LinkDomainId,
    soname: Seq<u8>,
    handle: WaitHandle,
    j: int,
    k: int,
)
    requires
        history(views, steps),
        steps.len() <= usize::MAX,
        views[0].slots.len() <= usize::MAX,
        pending_at(views[0], domain, soname) == Some(handle),
        0 <= j <= k < views.len(),
        resolved(views[j], handle),
    ensures
        resolved(views[k], handle),
{
    let i = handle.slot as int;
    lemma_ticket(views[0], domain, soname, handle);
    lemma_moves(views, steps, i, j);
    lemma_moves(views, steps, i, k);
    lemma_moves_grow(views, i, j, k);
}

/// A waiter whose library's load is cancelled before the waiter waits does not block:
/// from then on the ticket is resolved.
pub proof fn cancelled_loads_resolve_their_tickets<D>(
    views: Seq<RegistryView<D>>,
    steps: Seq<RegistryStep<D>>,
    domain: LinkDomainId,
    soname: Seq<u8>,
    handle: WaitHandle,
    j: int,
    k: int,
)
    requires
        history(views, steps),
        steps.len() <= usize::MAX,
        views[0].slots.len() <= usize::MAX,
        pending_at(views[0], domain, soname) == Some(handle),
        0 <= j < k < views.len(),
        views[j].slots[handle.slot as int].state is Loading,
        views[j].slots[handle.slot as int].generation == handle.generation,
        steps[j] == (RegistryStep::<D>::CancelLoad {
            permit: LoadPermit { slot: handle.slot, generation: handle.generation },
        }),
    ensures
        resolved(views[k], handle),
{
    let i = handle.slot as int;
    lemma_ticket(views[0], domain, soname, handle);
    lemma_moves(views, steps, i, j);
    lemma_moves(views, steps, i, j + 1);
    assert(views[j + 1] == stepped(views[j], steps[j]));
    assert(moves(views, i, j + 1) > 0);
    resolved_tickets_stay_resolved(views, steps, domain, soname, handle, j + 1, k);
}

/// Whether some steps lead from one state of the registry to another.
pub open spec fn leads<D>(before: RegistryView<D>, after: RegistryView<D>) -> bool {
    exists|views: Seq<RegistryView<D>>, steps: Seq<RegistryStep<D>>|
        #[trigger] history(views, steps) && views[0] == before && views.last() == after
}

proof fn lemma_stays<D>(view: RegistryView<D>)
    ensures
        leads(view, view),
{
    let views = seq![view];
    assert(history(views, Seq::<RegistryStep<D>>::empty()));
    assert(views.last() == view);
}

proof fn lemma_leads_on<D>(before: RegistryView<D>, middle: RegistryView<D>, step: RegistryStep<D>)
    requires
        leads(before, middle),
        allowed(middle, step),
    ensures
        leads(before, stepped(middle, step)),
{
    let (views, steps) = choose|views: Seq<RegistryView<D>>, steps: Seq<RegistryStep<D>>|
        #[trigger] history(views, steps) && views[0] == before && views.last() == middle;
    let more = views.push(stepped(middle, step));
    let all = steps.push(step);
    assert forall|k: int| 0 <= k < all.len() implies allowed(more[k], #[trigger] all[k]) && more[k
        + 1] == stepped(more[k], all[k]) by {
        if k < steps.len() {
            assert(all[k] == steps[k]);
            assert(allowed(views[k], steps[k]) && views[k + 1] == stepped(views[k], steps[k]));
        }
    }
    assert(history(more, all));
    assert(more[0] == before);
    assert(more.last() == stepped(middle, step));
}

proof fn lemma_known<D>(
    view: RegistryView<D>,
    domain: LinkDomainId,
    names: Seq<Seq<u8>>,
    k: int,
)
    requires
        0 <= k <= names.len(),
    ensures
        leads(view, RegistryView { slots: ensured_all(view.slots, domain, names, k), ..view }),
    decreases k,
{
    if k > 0 {
        lemma_known(view, domain, names, k - 1);
        let middle = RegistryView {
            slots: ensured_all(view.slots, domain, names, k - 1),
            ..view
        };
        lemma_leads_on(
            view,
            middle,
            RegistryStep::Know { domain, soname: names[k - 1] },
        );
    } else {
        lemma_stays(view);
    }
}

proof fn lemma_handed_out<D>(
    start: RegistryView<D>,
    view: RegistryView<D>,
    domain: LinkDomainId,
    names: Seq<Seq<u8>>,
    k: int,
)
    requires
        leads(start, view),
        0 <= k <= names.len(),
    ensures
        leads(start, handed_out_all(view, domain, names, k)),
        handed_out_all(view, domain, names, k).slots.len() == view.slots.len(),
    decreases k,
{
    if k > 0 {
        lemma_handed_out(start, view, domain, names, k - 1);
        let middle = handed_out_all(view, domain, names, k - 1);
        lemma_find_from(view.slots, domain, names[k - 1], 0);
        if let Some(i) = find_slot(view.slots, domain, names[k - 1]) {
            lemma_leads_on(start, middle, RegistryStep::HandOut { slot: i });
        }
    }
}

proof fn lemma_initializing<D>(
    view: RegistryView<D>,
    permits: Seq<RelocatedPermit>,
    backings: Seq<BackingView<D>>,
    k: int,
)
    requires
        0 <= k <= permits.len() == backings.len(),
        forall|j: int|
            0 <= j < k ==> fits(initializing(view, permits, backings, j), #[trigger] permits[j]),
    ensures
        leads(view, initializing(view, permits, backings, k)),
    decreases k,
{
    if k > 0 {
        lemma_initializing(view, permits, backings, k - 1);
        let middle = initializing(view, permits, backings, k - 1);
        assert(fits(middle, permits[k - 1]));
        lemma_leads_on(
            view,
            middle,
            RegistryStep::Publish { permit: permits[k - 1], backing: backings[k - 1] },
        );
    } else {
        lemma_stays(view);
    }
}

proof fn lemma_cancelled<D>(
    start: RegistryView<D>,
    view: RegistryView<D>,
    permits: Seq<RelocatedPermit>,
    k: int,
)
    requires
        leads(start, view),
        0 <= k <= permits.len(),
    ensures
        leads(start, relocations_cancelled(view, permits, 0, k)),
    decreases k,
{
    if k > 0 {
        lemma_cancelled(start, view, permits, k - 1);
        lemma_leads_on(
            start,
            relocations_cancelled(view, permits, 0, k - 1),
            RegistryStep::CancelRelocation { permit: permits[k - 1] },
        );
    }
}

proof fn lemma_fit_before<D>(
    view: RegistryView<D>,
    permits: Seq<RelocatedPermit>,
    backings: Seq<BackingView<D>>,
    from: int,
)
    requires
        0 <= from <= permits.len(),
    ensures
        match first_misfit(view, permits, backings, from) {
            Some(k) => from <= k < permits.len() && forall|j: int|
                from <= j < k ==> fits(
                    initializing(view, permits, backings, j),
                    #[trigger] permits[j],
                ),
            None => forall|j: int|
                from <= j < permits.len() ==> fits(
                    initializing(view, permits, backings, j),
                    #[trigger] permits[j],
                ),
        },
    decreases permits.len() - from,
{
    if from < permits.len() {
        lemma_fit_before(view, permits, backings, from + 1);
    }
}

/// Asking for a library, asking for a set of libraries, publishing a set of relocated
/// libraries, giving up a set, releasing leases, and sending a group of libraries to
/// destruction: each is made of steps. What else the registry does is one step.
pub proof fn operations_are_made_of_steps<D: Clone>(
    view: RegistryView<D>,
    domain: LinkDomainId,
    soname: Seq<u8>,
    names: Seq<Seq<u8>>,
    acquired: RegistryView<D>,
    outcome: AcquireBatchOutcome<D>,
    permits: Seq<RelocatedPermit>,
    backings: Seq<BackingView<D>>,
    published: RegistryView<D>,
    r: LoadResult<SystemInitBatch>,
    slots: Seq<usize>,
    generations: Seq<u32>,
    leases: Seq<LeaseView>,
    keep_cached: bool,
)
    requires
        view.slots.len() <= usize::MAX,
        batch_acquired(view, acquired, domain, names, outcome),
        batch_published(view, permits, backings, r, published),
        slots.len() == generations.len(),
    ensures
        ({
            let known = RegistryView { slots: ensured(view.slots, domain, soname), ..view };
            leads(view, handed_out(known, ensured_at(view.slots, domain, soname)))
        }),
        leads(view, acquired),
        leads(view, published),
        leads(view, failed_all(view, slots, generations, slots.len() as int)),
        leads(view, leases_released(view, leases, leases.len() as int)),
        fate(view, domain, soname, keep_cached) matches Fate::Destroyed(members) ==> leads(
            view,
            unloading(view, members, members.len() as int),
        ),
{
    lemma_stays(view);
    let known = RegistryView { slots: ensured(view.slots, domain, soname), ..view };
    lemma_find_from(view.slots, domain, soname, 0);
    lemma_leads_on(view, view, RegistryStep::Know { domain, soname });
    lemma_leads_on(
        view,
        known,
        RegistryStep::HandOut { slot: ensured_at(view.slots, domain, soname) },
    );
    lemma_in_flight_listed(view.slots, domain, names, 0);
    match first_in_flight(view.slots, domain, names, 0) {
        Some(k) => lemma_known(view, domain, names, k + 1),
        None => {
            let n = names.len() as int;
            lemma_known(view, domain, names, n);
            let all = RegistryView { slots: ensured_all(view.slots, domain, names, n), ..view };
            lemma_handed_out(view, all, domain, names, n);
        },
    }
    lemma_published(view, permits, backings, r, published);
    lemma_failed(view, slots, generations, slots.len() as int);
    lemma_released(view, leases, leases.len() as int);
    if let Fate::Destroyed(members) = fate(view, domain, soname, keep_cached) {
        let index = find_slot(view.slots, domain, soname)->0;
        let group = group_names(view, index);
        lemma_group_slots(view, domain, group, group.len() as int);
        assert(members_of(view, domain, index) == Some(members));
        assert forall|m: int| 0 <= m < members.len() implies #[trigger] members[m]
            < view.slots.len() && view.slots[members[m] as int].state is Ready by {
            only_unused_libraries_are_destroyed(view, domain, soname, keep_cached, m);
        }
        lemma_leads_on(view, view, RegistryStep::Leave { members });
    }
}

proof fn lemma_in_flight_listed<D>(
    slots: Seq<SlotView<D>>,
    domain: LinkDomainId,
    names: Seq<Seq<u8>>,
    from: int,
)
    requires
        0 <= from <= names.len(),
    ensures
        first_in_flight(slots, domain, names, from) matches Some(k) ==> from <= k < names.len(),
    decreases names.len() - from,
{
    if from < names.len() {
        lemma_in_flight_listed(slots, domain, names, from + 1);
    }
}

proof fn lemma_published<D>(
    view: RegistryView<D>,
    permits: Seq<RelocatedPermit>,
    backings: Seq<BackingView<D>>,
    r: LoadResult<SystemInitBatch>,
    published: RegistryView<D>,
)
    requires
        batch_published(view, permits, backings, r, published),
    ensures
        leads(view, published),
{
    let n = permits.len() as int;
    lemma_stays(view);
    if n != backings.len() {
        lemma_cancelled(view, view, permits, n);
    } else {
        lemma_fit_before(view, permits, backings, 0);
        match first_misfit(view, permits, backings, 0) {
            Some(k) => {
                lemma_initializing(view, permits, backings, k);
                lemma_cancelled(
                    view,
                    initializing(view, permits, backings, k),
                    permits.subrange(k + 1, n),
                    n - k - 1,
                );
            },
            None => lemma_initializing(view, permits, backings, n),
        }
    }
}

proof fn lemma_failed<D>(
    view: RegistryView<D>,
    slots: Seq<usize>,
    generations: Seq<u32>,
    k: int,
)
    requires
        0 <= k <= slots.len() == generations.len(),
    ensures
        leads(view, failed_all(view, slots, generations, k)),
    decreases k,
{
    if k > 0 {
        lemma_failed(view, slots, generations, k - 1);
        lemma_leads_on(
            view,
            failed_all(view, slots, generations, k - 1),
            RegistryStep::Fail { slot: slots[k - 1], generation: generations[k - 1] },
        );
    } else {
        lemma_stays(view);
    }
}

proof fn lemma_released<D>(view: RegistryView<D>, leases: Seq<LeaseView>, k: int)
    requires
        0 <= k <= leases.len(),
    ensures
        leads(view, leases_released(view, leases, k)),
    decreases k,
{
    if k > 0 {
        lemma_released(view, leases, k - 1);
        lemma_leads_on(
            view,
            leases_released(view, leases, k - 1),
            RegistryStep::Release { lease: leases[k - 1] },
        );
    } else {
        lemma_stays(view);
    }
}

} // verus!
