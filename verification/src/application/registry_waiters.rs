//! What a waiter for a library can rely on.
//!
//! A waiter watches the signal of the library's slot. The signal moves when the
//! library can be had again, and only then: nobody is woken for nothing, and nobody
//! sleeps through it.

use crate::application::registry::{
    current, ensured, find_slot, handed_out, lease_for, lease_released, leases_released,
    lemma_find_from, load_cancelled, next_signal, obtainable, relocation_cancelled, with_state,
    woken, BackingView, LeaseView, LoadPermit, RegistryView, RelocatedPermit, SlotView, StateView,
};
use crate::application::registry_init::{
    attached, attached_all, attached_names, batch_ready, counted_user, failed, fits, holding,
    initialized, initializing, lists, needed_names, readied, source_ready, woken_all,
};
use crate::application::registry_quiescence::{
    all_different, batch_unloading, unloaded, unloading,
};
use crate::dynamic_linker::artifact::LinkDomainId;
use vstd::prelude::*;

verus! {

/// Whether a step tells the waiters of every library exactly when it can be had: a
/// library in flight is obtainable afterwards exactly if its signal has moved, and
/// no signal moves for a library that cannot be had.
pub open spec fn tells_waiters<D>(before: RegistryView<D>, after: RegistryView<D>) -> bool {
    &&& before.slots.len() <= after.slots.len()
    &&& forall|at: int|
        #![trigger after.slots[at]]
        0 <= at < before.slots.len() ==> {
            let moved = after.slots[at].signal != before.slots[at].signal;
            &&& moved ==> obtainable(after.slots[at].state)
            &&& !obtainable(before.slots[at].state) ==> (moved <==> obtainable(
                after.slots[at].state,
            ))
        }
}

/// Whether a step moves no signal, begins no load and makes no library obtainable or
/// not.
pub open spec fn quiet<D>(before: RegistryView<D>, after: RegistryView<D>) -> bool {
    &&& before.slots.len() == after.slots.len()
    &&& forall|at: int|
        #![trigger after.slots[at]]
        0 <= at < before.slots.len() ==> {
            &&& after.slots[at].domain == before.slots[at].domain
            &&& after.slots[at].soname == before.slots[at].soname
            &&& after.slots[at].generation == before.slots[at].generation
            &&& after.slots[at].signal == before.slots[at].signal
            &&& obtainable(after.slots[at].state) == obtainable(before.slots[at].state)
        }
}

pub(crate) proof fn lemma_leases_quiet<D>(view: RegistryView<D>, leases: Seq<LeaseView>, k: int)
    requires
        0 <= k <= leases.len(),
    ensures
        quiet(view, leases_released(view, leases, k)),
    decreases k,
{
    if k > 0 {
        lemma_leases_quiet(view, leases, k - 1);
        let before = leases_released(view, leases, k - 1);
        assert(quiet(before, lease_released(before, leases[k - 1])));
    }
}

/// Asking for a library, cancelling its load, releasing a lease, relocating it,
/// giving up its initialization: each tells the waiters exactly when the library can
/// be had.
pub proof fn waiters_hear_of_obtainable_libraries<D>(
    view: RegistryView<D>,
    domain: LinkDomainId,
    soname: Seq<u8>,
    i: int,
    load: LoadPermit,
    relocated: RelocatedPermit,
    lease: LeaseView,
    slot: usize,
    generation: u32,
)
    requires
        0 <= i < view.slots.len(),
    ensures
        tells_waiters(view, RegistryView { slots: ensured(view.slots, domain, soname), ..view }),
        tells_waiters(view, handed_out(view, i)),
        tells_waiters(view, load_cancelled(view, load)),
        current(view, load.slot, load.generation) && view.slots[load.slot as int].state
            is Loading ==> tells_waiters(
            view,
            with_state(view, load.slot as int, StateView::Relocated),
        ),
        tells_waiters(view, relocation_cancelled(view, relocated)),
        tells_waiters(view, lease_released(view, lease)),
        tells_waiters(view, failed(view, slot, generation)),
{
    if current(view, slot, generation) {
        if let StateView::Initializing(backing) = view.slots[slot as int].state {
            let kept = RegistryView {
                failed_backings: view.failed_backings.push(backing.allocation),
                ..with_state(view, slot as int, StateView::Failed)
            };
            let told = woken(kept, slot as int);
            lemma_leases_quiet(told, backing.dependencies, backing.dependencies.len() as int);
            let after = failed(view, slot, generation);
            assert(tells_waiters(view, told));
            assert forall|at: int| 0 <= at < view.slots.len() implies {
                let moved = (#[trigger] after.slots[at]).signal != view.slots[at].signal;
                &&& moved ==> obtainable(after.slots[at].state)
                &&& !obtainable(view.slots[at].state) ==> (moved <==> obtainable(
                    after.slots[at].state,
                ))
            } by {
                assert(told.slots[at].signal == after.slots[at].signal);
                assert(obtainable(told.slots[at].state) == obtainable(after.slots[at].state));
            }
        }
    }
}

/// Relocated libraries that are published stay in flight, and nobody is told.
pub proof fn publishing_tells_nobody<D>(
    view: RegistryView<D>,
    permits: Seq<RelocatedPermit>,
    backings: Seq<BackingView<D>>,
    k: int,
)
    requires
        0 <= k <= permits.len(),
        forall|j: int|
            0 <= j < k ==> fits(initializing(view, permits, backings, j), #[trigger] permits[j]),
    ensures
        quiet(view, initializing(view, permits, backings, k)),
        tells_waiters(view, initializing(view, permits, backings, k)),
    decreases k,
{
    if k > 0 {
        publishing_tells_nobody(view, permits, backings, k - 1);
        let before = initializing(view, permits, backings, k - 1);
        assert(fits(before, permits[k - 1]));
        assert(quiet(before, initializing(view, permits, backings, k)));
    }
}

proof fn lemma_attached_quiet<D>(view: RegistryView<D>, source: int, name: Seq<u8>)
    requires
        0 <= source < view.slots.len(),
    ensures
        quiet(view, attached(view, source, name)),
{
    let domain = view.slots[source].domain;
    lemma_find_from(view.slots, domain, name, 0);
    if let Some(p) = find_slot(view.slots, domain, name) {
        if view.slots[p].state is Ready {
            assert(quiet(view, counted_user(view, p)));
            assert(quiet(
                counted_user(view, p),
                holding(counted_user(view, p), source, lease_for(view, p)),
            ));
        }
    }
}

proof fn lemma_names_quiet<D>(view: RegistryView<D>, source: int, names: Seq<Seq<u8>>, k: int)
    requires
        0 <= source < view.slots.len(),
        0 <= k <= names.len(),
    ensures
        quiet(view, attached_names(view, source, names, k)),
    decreases k,
{
    if k > 0 {
        lemma_names_quiet(view, source, names, k - 1);
        lemma_attached_quiet(attached_names(view, source, names, k - 1), source, names[k - 1]);
    }
}

pub(crate) proof fn lemma_all_quiet<D>(view: RegistryView<D>, slots: Seq<usize>, k: int)
    requires
        0 <= k <= slots.len(),
        forall|i: int| 0 <= i < slots.len() ==> #[trigger] slots[i] < view.slots.len(),
    ensures
        quiet(view, attached_all(view, slots, k)),
    decreases k,
{
    if k > 0 {
        lemma_all_quiet(view, slots, k - 1);
        let before = attached_all(view, slots, k - 1);
        let names = needed_names(view.slots[slots[k - 1] as int].state);
        lemma_names_quiet(before, slots[k - 1] as int, names, names.len() as int);
    }
}

pub(crate) proof fn lemma_readied_slots<D>(view: RegistryView<D>, slots: Seq<usize>, k: int)
    requires
        0 <= k <= slots.len(),
        all_different(slots),
        forall|i: int|
            0 <= i < slots.len() ==> #[trigger] slots[i] < view.slots.len()
                && view.slots[slots[i] as int].state is Initializing,
    ensures
        readied(view, slots, k).slots.len() == view.slots.len(),
        forall|at: int|
            #![trigger readied(view, slots, k).slots[at]]
            0 <= at < view.slots.len() ==> {
                &&& readied(view, slots, k).slots[at].domain == view.slots[at].domain
                &&& readied(view, slots, k).slots[at].soname == view.slots[at].soname
                &&& readied(view, slots, k).slots[at].generation == view.slots[at].generation
                &&& readied(view, slots, k).slots[at].signal == view.slots[at].signal
                &&& lists(slots.subrange(0, k), at) ==> readied(view, slots, k).slots[at].state
                    is Ready
                &&& !lists(slots.subrange(0, k), at) ==> readied(view, slots, k).slots[at]
                    == view.slots[at]
            },
    decreases k,
{
    if k > 0 {
        lemma_readied_slots(view, slots, k - 1);
        let less = slots.subrange(0, k - 1);
        let more = slots.subrange(0, k);
        assert(more =~= less.push(slots[k - 1]));
        assert forall|at: int| #[trigger] lists(more, at) <==> lists(less, at) || at == slots[k
            - 1] by {
            lemma_lists_pushed(less, slots[k - 1], at);
        }
    } else {
        assert forall|at: int| !#[trigger] lists(slots.subrange(0, k), at) by {}
    }
}

proof fn lemma_lists_pushed(slots: Seq<usize>, last: usize, at: int)
    ensures
        lists(slots.push(last), at) <==> lists(slots, at) || at == last,
{
    let more = slots.push(last);
    if lists(slots, at) {
        let i = choose|i: int| 0 <= i < slots.len() && #[trigger] slots[i] == at;
        assert(more[i] == at);
    }
    if at == last {
        assert(more[slots.len() as int] == at);
    }
    if lists(more, at) {
        let i = choose|i: int| 0 <= i < more.len() && #[trigger] more[i] == at;
        if i < slots.len() {
            assert(slots[i] == at);
        }
    }
}

pub(crate) proof fn lemma_woken_slots<D>(view: RegistryView<D>, slots: Seq<usize>, k: int)
    requires
        0 <= k <= slots.len(),
        all_different(slots),
        forall|i: int| 0 <= i < slots.len() ==> #[trigger] slots[i] < view.slots.len(),
    ensures
        woken_all(view, slots, k).slots.len() == view.slots.len(),
        forall|at: int|
            #![trigger woken_all(view, slots, k).slots[at]]
            0 <= at < view.slots.len() ==> {
                &&& woken_all(view, slots, k).slots[at].domain == view.slots[at].domain
                &&& woken_all(view, slots, k).slots[at].soname == view.slots[at].soname
                &&& woken_all(view, slots, k).slots[at].generation == view.slots[at].generation
                &&& woken_all(view, slots, k).slots[at].state == view.slots[at].state
                &&& woken_all(view, slots, k).slots[at].signal == (if lists(
                    slots.subrange(0, k),
                    at,
                ) {
                    next_signal(view.slots[at].signal)
                } else {
                    view.slots[at].signal
                })
            },
    decreases k,
{
    if k > 0 {
        lemma_woken_slots(view, slots, k - 1);
        let less = slots.subrange(0, k - 1);
        let last = slots[k - 1];
        assert(slots.subrange(0, k) =~= less.push(last));
        assert(!lists(less, last as int)) by {
            if lists(less, last as int) {
                let i = choose|i: int| 0 <= i < less.len() && #[trigger] less[i] == last as int;
                assert(slots[i] == last);
            }
        }
        assert forall|at: int| #[trigger] lists(less.push(last), at) <==> lists(less, at) || at
            == last by {
            lemma_lists_pushed(less, last, at);
        }
    } else {
        assert forall|at: int| !#[trigger] lists(slots.subrange(0, k), at) by {}
    }
}

/// Libraries that finish their initialization are ready, and their waiters are told.
pub proof fn finishing_tells_the_waiters<D>(
    view: RegistryView<D>,
    slots: Seq<usize>,
    generations: Seq<u32>,
)
    requires
        all_different(slots),
        slots.len() == generations.len(),
        batch_ready(view, slots, generations),
    ensures
        tells_waiters(view, initialized(view, slots)),
{
    let n = slots.len() as int;
    assert(slots.subrange(0, n) =~= slots);
    assert forall|i: int| 0 <= i < slots.len() implies #[trigger] slots[i] < view.slots.len()
        && view.slots[slots[i] as int].state is Initializing by {
        assert(source_ready(view, slots, slots[i], generations[i]));
    }
    lemma_readied_slots(view, slots, n);
    let ready = readied(view, slots, n);
    lemma_all_quiet(ready, slots, n);
    let leased = attached_all(ready, slots, n);
    lemma_woken_slots(leased, slots, n);
    let after = initialized(view, slots);
    assert forall|at: int| 0 <= at < view.slots.len() implies {
        let moved = (#[trigger] after.slots[at]).signal != view.slots[at].signal;
        &&& moved ==> obtainable(after.slots[at].state)
        &&& !obtainable(view.slots[at].state) ==> (moved <==> obtainable(after.slots[at].state))
    } by {
        assert(leased.slots[at].signal == ready.slots[at].signal);
        assert(obtainable(leased.slots[at].state) == obtainable(ready.slots[at].state));
        assert(after.slots[at].state == leased.slots[at].state);
    }
}

/// Libraries that leave for destruction tell nobody; once they are destroyed they can
/// be loaded again, and their waiters are told.
pub proof fn unloading_tells_the_waiters<D>(
    view: RegistryView<D>,
    members: Seq<usize>,
    slots: Seq<usize>,
    generations: Seq<u32>,
)
    requires
        forall|i: int| 0 <= i < members.len() ==> #[trigger] members[i] < view.slots.len(),
        all_different(slots),
        slots.len() == generations.len(),
        batch_unloading(view, slots, generations),
    ensures
        forall|at: int|
            0 <= at < view.slots.len() ==> (#[trigger] unloading(
                view,
                members,
                members.len() as int,
            ).slots[at]).signal == view.slots[at].signal,
        tells_waiters(view, unloaded(view, slots, slots.len() as int)),
{
    lemma_unloading_slots(view, members, members.len() as int);
    let n = slots.len() as int;
    assert(slots.subrange(0, n) =~= slots);
    assert forall|i: int| 0 <= i < slots.len() implies #[trigger] slots[i] < view.slots.len() by {
        assert(current(view, slots[i], generations[i]));
    }
    lemma_unloaded_slots(view, slots, n);
}

pub(crate) proof fn lemma_unloading_slots<D>(view: RegistryView<D>, members: Seq<usize>, k: int)
    requires
        0 <= k <= members.len(),
        forall|i: int| 0 <= i < members.len() ==> #[trigger] members[i] < view.slots.len(),
    ensures
        unloading(view, members, k).slots.len() == view.slots.len(),
        forall|at: int|
            #![trigger unloading(view, members, k).slots[at]]
            0 <= at < view.slots.len() ==> {
                let after = unloading(view, members, k).slots[at];
                &&& after == (SlotView { state: after.state, ..view.slots[at] })
                &&& after.state == view.slots[at].state || after.state is Unloading && lists(
                    members,
                    at,
                )
            },
    decreases k,
{
    if k > 0 {
        lemma_unloading_slots(view, members, k - 1);
        assert(lists(members, members[k - 1] as int));
    }
}

pub(crate) proof fn lemma_unloaded_slots<D>(view: RegistryView<D>, slots: Seq<usize>, k: int)
    requires
        0 <= k <= slots.len(),
        all_different(slots),
        forall|i: int| 0 <= i < slots.len() ==> #[trigger] slots[i] < view.slots.len(),
    ensures
        unloaded(view, slots, k).slots.len() == view.slots.len(),
        forall|at: int|
            #![trigger unloaded(view, slots, k).slots[at]]
            0 <= at < view.slots.len() ==> unloaded(view, slots, k).slots[at] == (if lists(
                slots.subrange(0, k),
                at,
            ) {
                SlotView {
                    state: StateView::Vacant,
                    signal: next_signal(view.slots[at].signal),
                    ..view.slots[at]
                }
            } else {
                view.slots[at]
            }),
    decreases k,
{
    if k > 0 {
        lemma_unloaded_slots(view, slots, k - 1);
        let less = slots.subrange(0, k - 1);
        let last = slots[k - 1];
        assert(slots.subrange(0, k) =~= less.push(last));
        assert(!lists(less, last as int)) by {
            if lists(less, last as int) {
                let i = choose|i: int| 0 <= i < less.len() && #[trigger] less[i] == last as int;
                assert(slots[i] == last);
            }
        }
        assert forall|at: int| #[trigger] lists(less.push(last), at) <==> lists(less, at) || at
            == last by {
            lemma_lists_pushed(less, last, at);
        }
    } else {
        assert forall|at: int| !#[trigger] lists(slots.subrange(0, k), at) by {}
    }
}

} // verus!
