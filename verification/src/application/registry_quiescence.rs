//! Libraries without users: what becomes of them, and what the registry tells of
//! the others.

use crate::application::registry::{
    current, find_slot, lease_views, lemma_find_from, stale, stale_error, with_state, woken,
    InstanceState, QuiescenceResolution, RegistryView,
    StateView, SystemDsoRegistry, SystemUnloadBacking, SystemUnloadBatch,
};
use crate::dynamic_linker::artifact::{DependencyName, LinkDomainId};
use crate::dynamic_linker::lifecycle::{FiniPlan, LifecycleEntry};
use crate::error::{LoadError, LoadResult};
use crate::memory::AllocationLease;
use vstd::prelude::*;

verus! {

/// The slots of the first `k` names, each once, or nothing if one has no slot.
pub open spec fn group_slots<D>(
    view: RegistryView<D>,
    domain: LinkDomainId,
    names: Seq<Seq<u8>>,
    k: int,
) -> Option<Seq<usize>>
    decreases k,
{
    if k <= 0 {
        Some(Seq::empty())
    } else {
        match (
            group_slots(view, domain, names, k - 1),
            find_slot(view.slots, domain, names[k - 1]),
        ) {
            (Some(members), Some(i)) => if members.contains(i as usize) {
                Some(members)
            } else {
                Some(members.push(i as usize))
            },
            _ => None,
        }
    }
}

/// Whether the library of a slot is ready and has no user.
pub open spec fn unused<D>(view: RegistryView<D>, slot: int) -> bool {
    match view.slots[slot].state {
        StateView::Ready { leases, backing } => leases == 0,
        _ => false,
    }
}

/// Whether the library of a slot is to stay without users.
pub open spec fn cached<D>(view: RegistryView<D>, slot: int) -> bool {
    match view.slots[slot].state {
        StateView::Ready { leases, backing } => backing.keep_cached,
        _ => false,
    }
}

/// The names of the group that a ready library belongs to.
pub open spec fn group_names<D>(view: RegistryView<D>, slot: int) -> Seq<Seq<u8>> {
    match view.slots[slot].state {
        StateView::Ready { leases, backing } => backing.scc_members,
        _ => Seq::empty(),
    }
}

/// The slots of the group that the library of slot `index` belongs to.
pub open spec fn members_of<D>(view: RegistryView<D>, domain: LinkDomainId, index: int) -> Option<
    Seq<usize>,
> {
    let names = group_names(view, index);
    match group_slots(view, domain, names, names.len() as int) {
        Some(members) => if members.len() == 0 {
            Some(seq![index as usize])
        } else {
            Some(members)
        },
        None => None,
    }
}

/// What becomes of a library without users.
pub enum Fate {
    /// It is in use, or one of its group is.
    InUse,
    /// The group stays.
    Kept,
    /// The libraries of these slots are destroyed.
    Destroyed(Seq<usize>),
}

/// What becomes of a library.
pub open spec fn fate<D>(
    view: RegistryView<D>,
    domain: LinkDomainId,
    soname: Seq<u8>,
    keep_cached: bool,
) -> Fate {
    match find_slot(view.slots, domain, soname) {
        None => Fate::InUse,
        Some(index) => if !unused(view, index) {
            Fate::InUse
        } else {
            match members_of(view, domain, index) {
                None => Fate::InUse,
                Some(members) => if exists|m: int|
                    0 <= m < members.len() && !unused(view, #[trigger] members[m] as int) {
                    Fate::InUse
                } else if keep_cached || cached(view, index) || exists|m: int|
                    0 <= m < members.len() && cached(view, #[trigger] members[m] as int) {
                    Fate::Kept
                } else {
                    Fate::Destroyed(members)
                },
            }
        },
    }
}

/// The registry after the first `k` libraries left for destruction.
pub open spec fn unloading<D>(view: RegistryView<D>, members: Seq<usize>, k: int) -> RegistryView<D>
    decreases k,
{
    if k <= 0 {
        view
    } else {
        with_state(
            unloading(view, members, k - 1),
            members[k - 1] as int,
            StateView::Unloading,
        )
    }
}

/// Whether a backing is that of the library in a slot.
pub open spec fn unload_of<D>(
    view: RegistryView<D>,
    slot: int,
    unload: SystemUnloadBacking,
) -> bool {
    &&& unload.soname@ == view.slots[slot].soname
    &&& match view.slots[slot].state {
        StateView::Ready { leases, backing } => {
            &&& unload.allocation == backing.allocation
            &&& unload.fini_plan.0@ == backing.fini_plan
            &&& lease_views(unload.dependencies@) == backing.dependencies
        },
        _ => false,
    }
}

/// Whether no slot is listed twice.
pub open spec fn all_different(slots: Seq<usize>) -> bool {
    forall|i: int, j: int|
        0 <= i < j < slots.len() ==> #[trigger] slots[i] != #[trigger] slots[j]
}

pub(crate) proof fn lemma_group_slots<D>(
    view: RegistryView<D>,
    domain: LinkDomainId,
    names: Seq<Seq<u8>>,
    k: int,
)
    requires
        view.slots.len() <= usize::MAX,
    ensures
        group_slots(view, domain, names, k) matches Some(members) ==> all_different(members)
            && forall|m: int|
            0 <= m < members.len() ==> #[trigger] members[m] < view.slots.len(),
    decreases k,
{
    if k > 0 {
        lemma_group_slots(view, domain, names, k - 1);
        lemma_find_from(view.slots, domain, names[k - 1], 0);
        if let (Some(before), Some(i)) = (
            group_slots(view, domain, names, k - 1),
            find_slot(view.slots, domain, names[k - 1]),
        ) {
            let members = group_slots(view, domain, names, k)->0;
            assert forall|a: int, b: int| 0 <= a < b < members.len() implies
                #[trigger] members[a] != #[trigger] members[b] by {
                if b == before.len() {
                    assert(before[a] == members[a]);
                    assert(members[b] == i as usize);
                }
            }
        }
    }
}

proof fn lemma_group_missing<D>(
    view: RegistryView<D>,
    domain: LinkDomainId,
    names: Seq<Seq<u8>>,
    k: int,
    n: int,
)
    requires
        0 <= k <= n,
        group_slots(view, domain, names, k) is None,
    ensures
        group_slots(view, domain, names, n) is None,
    decreases n - k,
{
    if k < n {
        lemma_group_missing(view, domain, names, k, n - 1);
    }
}

proof fn lemma_unloading<D>(view: RegistryView<D>, members: Seq<usize>, k: int)
    requires
        0 <= k <= members.len(),
        all_different(members),
        forall|m: int| 0 <= m < members.len() ==> #[trigger] members[m] < view.slots.len(),
    ensures
        unloading(view, members, k).slots.len() == view.slots.len(),
        forall|m: int|
            k <= m < members.len() ==> unloading(view, members, k).slots[#[trigger] members[m] as int]
                == view.slots[members[m] as int],
    decreases k,
{
    if k > 0 {
        lemma_unloading(view, members, k - 1);
        assert forall|m: int| k <= m < members.len() implies unloading(
            view,
            members,
            k,
        ).slots[#[trigger] members[m] as int] == view.slots[members[m] as int] by {
            assert(members[k - 1] != members[m]);
        }
    }
}

fn lists_slot(slots: &Vec<usize>, slot: usize) -> (r: bool)
    ensures
        r == slots@.contains(slot),
{
    let mut index: usize = 0;
    while index < slots.len()
        invariant
            index <= slots@.len(),
            forall|i: int| 0 <= i < index ==> slots@[i] != slot,
        decreases slots@.len() - index,
    {
        if slots[index] == slot {
            return true;
        }
        index = index + 1;
    }
    false
}

impl<D> SystemDsoRegistry<D> {
    /// Whether the library of a slot is unused, and if so whether it is to stay.
    fn idle(&self, slot: usize) -> (r: Option<bool>)
        requires
            slot < self@.slots.len(),
        ensures
            r == (if unused(self@, slot as int) {
                Some(cached(self@, slot as int))
            } else {
                None
            }),
    {
        assert(self@.slots[slot as int] == self.slots@[slot as int]@);
        match &self.slots[slot].state {
            InstanceState::Ready { leases, backing } => if *leases == 0 {
                Some(backing.keep_cached)
            } else {
                None
            },
            _ => None,
        }
    }

    fn group_of(&self, domain: LinkDomainId, index: usize) -> (r: Option<Vec<usize>>)
        requires
            index < self@.slots.len(),
            unused(self@, index as int),
        ensures
            match members_of(self@, domain, index as int) {
                Some(members) => r matches Some(found) && found@ == members,
                None => r is None,
            },
    {
        assert(self@.slots[index as int] == self.slots@[index as int]@);
        let ghost names = group_names(self@, index as int);
        let mut members: Vec<usize> = Vec::new();
        if let InstanceState::Ready { backing, .. } = &self.slots[index].state {
            let mut at: usize = 0;
            while at < backing.scc_members.len()
                invariant
                    at <= backing.scc_members@.len(),
                    names == backing@.scc_members,
                    names == group_names(self@, index as int),
                    group_slots(self@, domain, names, at as int) == Some(members@),
                decreases backing.scc_members@.len() - at,
            {
                assert(names[at as int] == backing.scc_members@[at as int]@);
                match self.position(domain, &backing.scc_members[at]) {
                    Some(member) => {
                        if !lists_slot(&members, member) {
                            members.push(member);
                        }
                    },
                    None => {
                        proof {
                            lemma_group_missing(
                                self@,
                                domain,
                                names,
                                at + 1,
                                names.len() as int,
                            );
                        }
                        return None;
                    },
                }
                at = at + 1;
            }
        }
        if members.len() == 0 {
            members.push(index);
            assert(members@ =~= seq![index]);
        }
        Some(members)
    }

    /// Decides what becomes of a library without users.
    ///
    /// It goes together with the group of libraries that need one another. If any of
    /// them is in use nothing happens; if any is to stay, all stay. Otherwise they all
    /// leave for destruction at once, so that nobody meets a half-destroyed group.
    pub fn resolve_quiescence(
        &mut self,
        domain: LinkDomainId,
        soname: &DependencyName,
        keep_cached: bool,
    ) -> (r: Option<QuiescenceResolution>)
        ensures
            match fate(old(self)@, domain, soname@, keep_cached) {
                Fate::InUse => r is None && final(self)@ == old(self)@,
                Fate::Kept => r matches Some(QuiescenceResolution::KeptCached) && final(self)@
                    == old(self)@,
                Fate::Destroyed(members) => {
                    &&& final(self)@ == unloading(old(self)@, members, members.len() as int)
                    &&& match r {
                        Some(QuiescenceResolution::Unloaded(batch)) => {
                            &&& batch.slots@ == members
                            &&& batch.generations@.len() == members.len()
                            &&& batch.backings@.len() == members.len()
                            &&& forall|m: int|
                                0 <= m < members.len() ==> #[trigger] batch.generations@[m]
                                    == old(self)@.slots[members[m] as int].generation
                            &&& forall|m: int|
                                0 <= m < members.len() ==> unload_of(
                                    old(self)@,
                                    members[m] as int,
                                    #[trigger] batch.backings@[m],
                                )
                        },
                        _ => false,
                    }
                },
            },
    {
        let index: usize = match self.position(domain, soname) {
            Some(index) => index,
            None => return None,
        };
        let stored: bool = match self.idle(index) {
            Some(stored) => stored,
            None => return None,
        };
        let members: Vec<usize> = match self.group_of(domain, index) {
            Some(members) => members,
            None => return None,
        };
        proof {
            let names = group_names(self@, index as int);
            lemma_group_slots(self@, domain, names, names.len() as int);
        }
        let mut kept: bool = keep_cached || stored;
        let mut at: usize = 0;
        while at < members.len()
            invariant
                at <= members@.len(),
                self@ == old(self)@,
                forall|m: int| 0 <= m < members@.len() ==> #[trigger] members@[m]
                    < self@.slots.len(),
                forall|m: int| 0 <= m < at ==> unused(self@, #[trigger] members@[m] as int),
                kept == (keep_cached || stored || exists|m: int|
                    0 <= m < at && cached(self@, #[trigger] members@[m] as int)),
                find_slot(self@.slots, domain, soname@) == Some(index as int),
                unused(self@, index as int),
                stored == cached(self@, index as int),
                members_of(self@, domain, index as int) == Some(members@),
            decreases members@.len() - at,
        {
            match self.idle(members[at]) {
                Some(stays) => {
                    kept = kept || stays;
                },
                None => {
                    assert(!unused(self@, members@[at as int] as int));
                    return None;
                },
            }
            at = at + 1;
        }
        if kept {
            return Some(QuiescenceResolution::KeptCached);
        }
        assert(fate(old(self)@, domain, soname@, keep_cached) == Fate::Destroyed(members@));
        Some(QuiescenceResolution::Unloaded(self.unload(members)))
    }

    /// Takes unused libraries out for destruction.
    fn unload(&mut self, members: Vec<usize>) -> (r: SystemUnloadBatch)
        requires
            all_different(members@),
            forall|m: int|
                0 <= m < members@.len() ==> #[trigger] members@[m] < old(self)@.slots.len(),
            forall|m: int|
                0 <= m < members@.len() ==> unused(old(self)@, #[trigger] members@[m] as int),
        ensures
            final(self)@ == unloading(old(self)@, members@, members@.len() as int),
            r.slots@ == members@,
            r.generations@.len() == members@.len(),
            r.backings@.len() == members@.len(),
            forall|m: int|
                0 <= m < members@.len() ==> #[trigger] r.generations@[m] == old(
                    self,
                )@.slots[members@[m] as int].generation,
            forall|m: int|
                0 <= m < members@.len() ==> unload_of(
                    old(self)@,
                    members@[m] as int,
                    #[trigger] r.backings@[m],
                ),
    {
        let ghost before = self@;
        let mut generations: Vec<u32> = Vec::new();
        let mut backings: Vec<SystemUnloadBacking> = Vec::new();
        let mut at: usize = 0;
        while at < members.len()
            invariant
                at <= members@.len(),
                before == old(self)@,
                all_different(members@),
                forall|m: int| 0 <= m < members@.len() ==> #[trigger] members@[m]
                    < before.slots.len(),
                forall|m: int| 0 <= m < members@.len() ==> unused(
                    before,
                    #[trigger] members@[m] as int,
                ),
                self@ == unloading(before, members@, at as int),
                generations@.len() == at,
                backings@.len() == at,
                forall|m: int|
                    0 <= m < at ==> #[trigger] generations@[m]
                        == before.slots[members@[m] as int].generation,
                forall|m: int|
                    0 <= m < at ==> unload_of(
                        before,
                        members@[m] as int,
                        #[trigger] backings@[m],
                    ),
            decreases members@.len() - at,
        {
            proof {
                lemma_unloading(before, members@, at as int);
                assert(self@.slots[members@[at as int] as int]
                    == before.slots[members@[at as int] as int]);
                assert(unused(before, members@[at as int] as int));
            }
            let slot: usize = members[at];
            assert(self@.slots[slot as int] == self.slots@[slot as int]@);
            generations.push(self.slots[slot].generation);
            let soname: DependencyName = self.slots[slot].soname.clone();
            let state = self.replace_state(slot, InstanceState::Unloading);
            if let InstanceState::Ready { backing, .. } = state {
                backings.push(
                    SystemUnloadBacking {
                        soname,
                        allocation: backing.allocation,
                        fini_plan: backing.fini_plan,
                        dependencies: backing.dependencies,
                    },
                );
            }
            at = at + 1;
        }
        SystemUnloadBatch { slots: members, generations, backings }
    }
}

/// Whether every slot of a batch is the one that left for destruction.
pub open spec fn batch_unloading<D>(view: RegistryView<D>, slots: Seq<usize>, generations: Seq<u32>) -> bool {
    forall|k: int|
        0 <= k < slots.len() ==> current(view, #[trigger] slots[k], generations[k])
            && view.slots[slots[k] as int].state is Unloading
}

/// The registry after the first `k` libraries were destroyed.
pub open spec fn unloaded<D>(view: RegistryView<D>, slots: Seq<usize>, k: int) -> RegistryView<D>
    decreases k,
{
    if k <= 0 {
        view
    } else {
        let at = slots[k - 1] as int;
        woken(with_state(unloaded(view, slots, k - 1), at, StateView::Vacant), at)
    }
}

impl<D> SystemDsoRegistry<D> {
    /// Records that a group of libraries was destroyed. Its backings must have been
    /// taken. Only now can the libraries be loaded again.
    pub fn finish_unload(&mut self, batch: SystemUnloadBatch) -> (r: LoadResult<()>)
        requires
            batch.slots@.len() == batch.generations@.len(),
        ensures
            if batch.backings@.len() == 0 && batch_unloading(
                old(self)@,
                batch.slots@,
                batch.generations@,
            ) {
                r is Ok && final(self)@ == unloaded(
                    old(self)@,
                    batch.slots@,
                    batch.slots@.len() as int,
                )
            } else {
                r == Err::<(), LoadError>(stale()) && final(self)@ == old(self)@
            },
    {
        if batch.backings.len() != 0 {
            return Err(stale_error());
        }
        let mut index: usize = 0;
        while index < batch.slots.len()
            invariant
                index <= batch.slots@.len() == batch.generations@.len(),
                self@ == old(self)@,
                forall|k: int|
                    0 <= k < index ==> current(
                        self@,
                        #[trigger] batch.slots@[k],
                        batch.generations@[k],
                    ) && self@.slots[batch.slots@[k] as int].state is Unloading,
            decreases batch.slots@.len() - index,
        {
            let slot: usize = batch.slots[index];
            if !self.is_current(slot, batch.generations[index]) {
                assert(!current(self@, batch.slots@[index as int], batch.generations@[index as int]));
                return Err(stale_error());
            }
            assert(self@.slots[slot as int] == self.slots@[slot as int]@);
            let leaving: bool = match &self.slots[slot].state {
                InstanceState::Unloading => true,
                _ => false,
            };
            if !leaving {
                assert(!(self@.slots[batch.slots@[index as int] as int].state is Unloading));
                return Err(stale_error());
            }
            index = index + 1;
        }
        let ghost before = self@;
        let mut at: usize = 0;
        while at < batch.slots.len()
            invariant
                at <= batch.slots@.len(),
                self@ == unloaded(before, batch.slots@, at as int),
                self@.slots.len() == before.slots.len(),
                forall|k: int|
                    0 <= k < batch.slots@.len() ==> #[trigger] batch.slots@[k]
                        < before.slots.len(),
            decreases batch.slots@.len() - at,
        {
            self.replace_state(batch.slots[at], InstanceState::Vacant);
            self.wake(batch.slots[at]);
            at = at + 1;
        }
        Ok(())
    }

    /// Takes the memory of the libraries that failed to initialize.
    pub fn drain_failed_backings(&mut self) -> (r: Vec<AllocationLease>)
        ensures
            r@ == old(self)@.failed_backings,
            final(self)@ == (RegistryView { failed_backings: Seq::empty(), ..old(self)@ }),
    {
        let mut out: Vec<AllocationLease> = Vec::new();
        core::mem::swap(&mut self.failed_backings, &mut out);
        assert(self@ =~= (RegistryView { failed_backings: Seq::empty(), ..old(self)@ }));
        out
    }

    /// The generation of a library.
    pub fn generation(&self, domain: LinkDomainId, soname: &DependencyName) -> (r: Option<u32>)
        ensures
            r == (match find_slot(self@.slots, domain, soname@) {
                Some(i) => Some(self@.slots[i].generation),
                None => None,
            }),
    {
        match self.position(domain, soname) {
            Some(index) => Some(self.slots[index].generation),
            None => None,
        }
    }

    /// The number of users of a library, which is 0 unless it is ready.
    pub fn lease_count(&self, domain: LinkDomainId, soname: &DependencyName) -> (r: Option<usize>)
        ensures
            r == (match find_slot(self@.slots, domain, soname@) {
                Some(i) => match self@.slots[i].state {
                    StateView::Ready { leases, backing } => Some(leases),
                    _ => Some(0usize),
                },
                None => None,
            }),
    {
        match self.position(domain, soname) {
            Some(index) => {
                assert(self@.slots[index as int] == self.slots@[index as int]@);
                match &self.slots[index].state {
                    InstanceState::Ready { leases, .. } => Some(*leases),
                    _ => Some(0),
                }
            },
            None => None,
        }
    }

    /// The order of the destructors of a ready library.
    pub fn fini_plan(&self, domain: LinkDomainId, soname: &DependencyName) -> (r: Option<FiniPlan>)
        ensures
            match find_slot(self@.slots, domain, soname@) {
                Some(i) => match self@.slots[i].state {
                    StateView::Ready { leases, backing } => r matches Some(plan) && plan.0@
                        == backing.fini_plan,
                    _ => r is None,
                },
                None => r is None,
            },
    {
        let index: usize = match self.position(domain, soname) {
            Some(index) => index,
            None => return None,
        };
        assert(self@.slots[index as int] == self.slots@[index as int]@);
        match &self.slots[index].state {
            InstanceState::Ready { backing, .. } => Some(duplicate_plan(&backing.fini_plan)),
            _ => None,
        }
    }
}

impl<D: Clone> SystemDsoRegistry<D> {
    /// The descriptor of a ready library.
    pub fn descriptor(&self, domain: LinkDomainId, soname: &DependencyName) -> (r: Option<D>)
        ensures
            match find_slot(self@.slots, domain, soname@) {
                Some(i) => match self@.slots[i].state {
                    StateView::Ready { leases, backing } => r matches Some(descriptor) && cloned::<
                        D,
                    >(backing.descriptor, descriptor),
                    _ => r is None,
                },
                None => r is None,
            },
    {
        let index: usize = match self.position(domain, soname) {
            Some(index) => index,
            None => return None,
        };
        assert(self@.slots[index as int] == self.slots@[index as int]@);
        match &self.slots[index].state {
            InstanceState::Ready { backing, .. } => Some(backing.descriptor.clone()),
            _ => None,
        }
    }
}

pub(crate) fn duplicate_plan(plan: &FiniPlan) -> (r: FiniPlan)
    ensures
        r.0@ == plan.0@,
{
    let mut entries: Vec<LifecycleEntry> = Vec::new();
    let mut index: usize = 0;
    while index < plan.0.len()
        invariant
            index <= plan.0@.len(),
            entries@ == plan.0@.subrange(0, index as int),
        decreases plan.0@.len() - index,
    {
        entries.push(plan.0[index]);
        assert(plan.0@.subrange(0, index + 1) =~= plan.0@.subrange(0, index as int).push(
            plan.0@[index as int],
        ));
        index = index + 1;
    }
    assert(plan.0@.subrange(0, index as int) =~= plan.0@);
    FiniPlan(entries)
}

/// Only libraries without users, none of which is to stay, are destroyed, and a
/// library goes with all that share its group.
pub proof fn only_unused_libraries_are_destroyed<D>(
    view: RegistryView<D>,
    domain: LinkDomainId,
    soname: Seq<u8>,
    keep_cached: bool,
    m: int,
)
    requires
        fate(view, domain, soname, keep_cached) matches Fate::Destroyed(members) && 0 <= m
            < members.len(),
    ensures
        !keep_cached,
        ({
            let member = (fate(view, domain, soname, keep_cached)->Destroyed_0)[m] as int;
            unused(view, member) && !cached(view, member)
        }),
{
    let members = fate(view, domain, soname, keep_cached)->Destroyed_0;
    assert(unused(view, members[m] as int));
    assert(!cached(view, members[m] as int));
}

proof fn lemma_group_slot_of<D>(
    view: RegistryView<D>,
    domain: LinkDomainId,
    names: Seq<Seq<u8>>,
    k: int,
)
    requires
        0 <= k <= names.len(),
        view.slots.len() <= usize::MAX,
        group_slots(view, domain, names, k) is Some,
    ensures
        ({
            let members = group_slots(view, domain, names, k)->0;
            &&& forall|n: int|
                0 <= n < k ==> is_slot_of(
                    view,
                    domain,
                    #[trigger] names[n],
                    find_slot(view.slots, domain, names[n])->0,
                ) && members.contains(find_slot(view.slots, domain, names[n])->0 as usize)
            &&& forall|m: int|
                0 <= m < members.len() ==> names.contains(
                    view.slots[(#[trigger] members[m]) as int].soname,
                ) && view.slots[members[m] as int].domain == domain && members[m] < view.slots.len()
            &&& k > 0 ==> members.len() > 0
        }),
    decreases k,
{
    if k > 0 {
        lemma_group_slot_of(view, domain, names, k - 1);
        lemma_find_from(view.slots, domain, names[k - 1], 0);
        let before = group_slots(view, domain, names, k - 1)->0;
        let members = group_slots(view, domain, names, k)->0;
        let i = find_slot(view.slots, domain, names[k - 1])->0;
        assert forall|n: int| 0 <= n < k implies is_slot_of(
            view,
            domain,
            #[trigger] names[n],
            find_slot(view.slots, domain, names[n])->0,
        ) && members.contains(find_slot(view.slots, domain, names[n])->0 as usize) by {
            let own = find_slot(view.slots, domain, names[n])->0 as usize;
            if n == k - 1 {
                if !before.contains(own) {
                    assert(members.last() == own);
                }
            } else {
                let at = before.index_of(own);
                assert(members[at] == own);
            }
        }
        assert(names.contains(names[k - 1]));
        assert(members.contains(i as usize));
    }
}

/// Whether slot `i` is one of this library.
pub open spec fn is_slot_of<D>(
    view: RegistryView<D>,
    domain: LinkDomainId,
    name: Seq<u8>,
    i: int,
) -> bool {
    0 <= i < view.slots.len() && view.slots[i].domain == domain && view.slots[i].soname == name
}

/// A group of libraries is destroyed as a whole, and only if all of them are ready, none has
/// a user, and none is to stay. It is the group that the library itself names, or the library
/// alone if it names none.
pub proof fn groups_are_destroyed_as_a_whole<D>(
    view: RegistryView<D>,
    domain: LinkDomainId,
    soname: Seq<u8>,
    keep_cached: bool,
    members: Seq<usize>,
) -> (index: int)
    requires
        fate(view, domain, soname, keep_cached) == Fate::Destroyed(members),
        view.slots.len() <= usize::MAX,
    ensures
        !keep_cached,
        is_slot_of(view, domain, soname, index),
        members.len() > 0,
        forall|m: int|
            0 <= m < members.len() ==> (#[trigger] members[m]) < view.slots.len() && (
            view.slots[members[m] as int].state matches StateView::Ready { leases, backing }
                && leases == 0 && !backing.keep_cached),
        forall|m: int, n: int|
            0 <= m < n < members.len() ==> #[trigger] members[m] != #[trigger] members[n],
        view.slots[index].state matches StateView::Ready { leases, backing }
            && if backing.scc_members.len()
            == 0 {
            members == seq![index as usize]
        } else {
            &&& forall|n: int|
                0 <= n < backing.scc_members.len() ==> exists|m: int|
                    0 <= m < members.len() && is_slot_of(
                        view,
                        domain,
                        #[trigger] backing.scc_members[n],
                        #[trigger] members[m] as int,
                    )
            &&& forall|m: int|
                0 <= m < members.len() ==> backing.scc_members.contains(
                    view.slots[(#[trigger] members[m]) as int].soname,
                ) && view.slots[members[m] as int].domain == domain
        },
{
    lemma_find_from(view.slots, domain, soname, 0);
    let index = find_slot(view.slots, domain, soname)->0;
    let names = group_names(view, index);
    lemma_group_slots(view, domain, names, names.len() as int);
    lemma_group_slot_of(view, domain, names, names.len() as int);
    assert(unused(view, index));
    assert forall|m: int| 0 <= m < members.len() implies (#[trigger] members[m]) < view.slots.len()
        && (view.slots[members[m] as int].state matches StateView::Ready { leases, backing }
        && leases == 0 && !backing.keep_cached) by {
        assert(unused(view, members[m] as int));
        assert(!cached(view, members[m] as int));
    }
    if names.len() > 0 {
        assert forall|n: int| 0 <= n < names.len() implies exists|m: int|
            0 <= m < members.len() && is_slot_of(
                view,
                domain,
                #[trigger] names[n],
                #[trigger] members[m] as int,
            ) by {
            let own = find_slot(view.slots, domain, names[n])->0 as usize;
            assert(members.contains(own));
            let m = members.index_of(own);
            assert(is_slot_of(view, domain, names[n], members[m] as int));
        }
    }
    index
}

/// A library that stays has no user, and neither has any of its group: it is kept because the
/// catalog, or one of the group, says so. A library is in use if it is not ready, if it or
/// one of its group has a user, or if one of its group is not known.
pub proof fn unused_libraries_stay_if_they_are_to<D>(
    view: RegistryView<D>,
    domain: LinkDomainId,
    soname: Seq<u8>,
    keep_cached: bool,
)
    ensures
        match find_slot(view.slots, domain, soname) {
            None => fate(view, domain, soname, keep_cached) is InUse,
            Some(index) => {
                &&& !(view.slots[index].state matches StateView::Ready { leases, .. }
                    && leases == 0)
                    ==> fate(view, domain, soname, keep_cached) is InUse
                &&& fate(view, domain, soname, keep_cached) is Kept ==> keep_cached || (
                view.slots[index].state matches StateView::Ready { backing, .. }
                    && backing.keep_cached) || exists|m: int|
                    0 <= m < (members_of(view, domain, index)->0).len() && (
                    view.slots[(#[trigger] (members_of(view, domain, index)->0)[m]) as int].state
                        matches StateView::Ready { backing, .. } && backing.keep_cached)
                &&& keep_cached ==> !(fate(view, domain, soname, keep_cached) is Destroyed)
            },
        },
{
    if let Some(index) = find_slot(view.slots, domain, soname) {
        if fate(view, domain, soname, keep_cached) is Kept && !keep_cached && !cached(view, index) {
            let members = members_of(view, domain, index)->0;
            let m = choose|m: int|
                0 <= m < members.len() && cached(view, #[trigger] members[m] as int);
            assert(cached(view, members[m] as int));
        }
    }
}

/// The libraries that leave for destruction, and no others, are unloading; nobody is told, and
/// no generation changes. Once they are destroyed they are vacant.
pub proof fn destroyed_libraries_become_vacant<D>(
    view: RegistryView<D>,
    slots: Seq<usize>,
    k: int,
    at: int,
)
    requires
        0 <= k <= slots.len(),
        0 <= at < view.slots.len(),
        forall|i: int| 0 <= i < slots.len() ==> #[trigger] slots[i] < view.slots.len(),
    ensures
        ({
            let leaving = unloading(view, slots, k);
            let gone = unloaded(view, slots, k);
            let listed = exists|i: int| 0 <= i < k && #[trigger] slots[i] == at;
            &&& leaving.slots.len() == view.slots.len()
            &&& gone.slots.len() == view.slots.len()
            &&& leaving.resolution == view.resolution
            &&& leaving.slots[at].generation == view.slots[at].generation
            &&& gone.slots[at].generation == view.slots[at].generation
            &&& leaving.slots[at].signal == view.slots[at].signal
            &&& listed ==> leaving.slots[at].state is Unloading && gone.slots[at].state is Vacant
            &&& !listed ==> leaving.slots[at] == view.slots[at] && gone.slots[at] == view.slots[at]
        }),
    decreases k,
{
    if k > 0 {
        destroyed_libraries_become_vacant(view, slots, k - 1, at);
        let last = slots[k - 1];
        if last != at && (exists|i: int| 0 <= i < k && #[trigger] slots[i] == at) {
            let i = choose|i: int| 0 <= i < k && #[trigger] slots[i] == at;
            assert(0 <= i < k - 1 && slots[i] == at);
        }
    }
}

} // verus!
