//! Sets of libraries: they are acquired, published and initialized together.

use crate::application::registry::{
    ensured, find_slot, fresh_slot, handed_out, lease_for, lemma_find_from, lemma_find_same_keys,
    more_leases, name_views, next_generation, obtainable, permit_for, same_keys, AcquireBatchOutcome, Claim, InstanceState,
    LeaseView, LoadPermit, PreparedSystemBatch, RegistryView, SlotView, StateView, SystemBatchWait,
    SystemDsoLease, SystemDsoRegistry,
};
use crate::bytes::{bytes_before, byte_order_is_total, byte_order_is_transitive};
use crate::dynamic_linker::artifact::{DependencyName, LinkDomainId};
use vstd::prelude::*;

verus! {

/// Whether each name comes before those behind it.
pub open spec fn ascending_names(names: Seq<Seq<u8>>) -> bool {
    forall|i: int, j: int|
        0 <= i < j < names.len() ==> bytes_before(#[trigger] names[i], #[trigger] names[j])
}

/// Whether `ordered` holds the given names, each once and in byte order.
pub open spec fn is_name_order(ordered: Seq<Seq<u8>>, names: Seq<Seq<u8>>) -> bool {
    &&& ascending_names(ordered)
    &&& forall|name: Seq<u8>| ordered.contains(name) <==> #[trigger] names.contains(name)
}

/// The given names in byte order, each once.
pub fn order_names(names: &[DependencyName]) -> (r: Vec<DependencyName>)
    ensures
        is_name_order(name_views(r@), name_views(names@)),
{
    let ghost all = name_views(names@);
    let mut ordered: Vec<DependencyName> = Vec::new();
    let mut index: usize = 0;
    assert(name_views(ordered@) =~= Seq::empty());
    assert(all.subrange(0, 0) =~= Seq::empty());
    while index < names.len()
        invariant
            index <= names@.len(),
            all == name_views(names@),
            is_name_order(name_views(ordered@), all.subrange(0, index as int)),
        decreases names@.len() - index,
    {
        let ghost before = name_views(ordered@);
        let name: &DependencyName = &names[index];
        let mut at: usize = 0;
        while at < ordered.len() && ordered[at].precedes(name)
            invariant
                at <= ordered@.len(),
                before == name_views(ordered@),
                forall|i: int| 0 <= i < at ==> bytes_before(#[trigger] before[i], name@),
            decreases ordered@.len() - at,
        {
            assert(before[at as int] == ordered@[at as int]@);
            at = at + 1;
        }
        let known: bool = at < ordered.len() && ordered[at].same(name);
        if !known {
            ordered.insert(at, name.clone());
        }
        proof {
            let now = name_views(ordered@);
            let seen = all.subrange(0, index + 1);
            assert(all[index as int] == name@);
            assert(seen =~= all.subrange(0, index as int).push(name@));
            if known {
                assert(before[at as int] == name@);
                lemma_known_name(before, all.subrange(0, index as int), name@, at as int);
            } else {
                if at < before.len() {
                    byte_order_is_total(before[at as int], name@);
                }
                assert(now =~= before.insert(at as int, name@));
                lemma_inserted_name(before, all.subrange(0, index as int), name@, at as int);
            }
        }
        index = index + 1;
    }
    assert(all.subrange(0, index as int) =~= all);
    ordered
}

proof fn lemma_known_name(ordered: Seq<Seq<u8>>, names: Seq<Seq<u8>>, name: Seq<u8>, at: int)
    requires
        is_name_order(ordered, names),
        0 <= at < ordered.len(),
        ordered[at] == name,
    ensures
        is_name_order(ordered, names.push(name)),
{
    let more = names.push(name);
    assert forall|other: Seq<u8>| ordered.contains(other) <==> #[trigger] more.contains(
        other,
    ) by {
        if names.contains(other) {
            let i = choose|i: int| 0 <= i < names.len() && names[i] == other;
            assert(more[i] == other);
        }
        if more.contains(other) && !names.contains(other) {
            let i = choose|i: int| 0 <= i < more.len() && more[i] == other;
            if i < names.len() {
                assert(names[i] == other);
            }
            assert(ordered[at] == other);
        }
        assert(ordered.contains(other) <==> names.contains(other));
    }
}

proof fn lemma_inserted_name(ordered: Seq<Seq<u8>>, names: Seq<Seq<u8>>, name: Seq<u8>, at: int)
    requires
        is_name_order(ordered, names),
        0 <= at <= ordered.len(),
        forall|i: int| 0 <= i < at ==> bytes_before(#[trigger] ordered[i], name),
        at < ordered.len() ==> bytes_before(name, ordered[at]),
    ensures
        is_name_order(ordered.insert(at, name), names.push(name)),
{
    let now = ordered.insert(at, name);
    let more = names.push(name);
    assert forall|i: int, j: int| 0 <= i < j < now.len() implies bytes_before(
        #[trigger] now[i],
        #[trigger] now[j],
    ) by {
        if i < at {
            assert(now[i] == ordered[i]);
            if j == at {
            } else if j < at {
                assert(now[j] == ordered[j]);
            } else {
                assert(now[j] == ordered[j - 1]);
            }
        } else if i == at {
            assert(now[j] == ordered[j - 1]);
            if j - 1 > at {
                assert(bytes_before(ordered[at], ordered[j - 1]));
                byte_order_is_transitive(name, ordered[at], ordered[j - 1]);
            }
        } else {
            assert(now[i] == ordered[i - 1]);
            assert(now[j] == ordered[j - 1]);
        }
    }
    assert forall|other: Seq<u8>| now.contains(other) <==> #[trigger] more.contains(other) by {
        assert(ordered.contains(other) <==> names.contains(other));
        if now.contains(other) {
            let i = choose|i: int| 0 <= i < now.len() && now[i] == other;
            if i == at {
                assert(more[names.len() as int] == other);
            } else {
                let k = if i < at {
                    i
                } else {
                    i - 1
                };
                assert(ordered[k] == other);
                let n = choose|n: int| 0 <= n < names.len() && names[n] == other;
                assert(more[n] == other);
            }
        }
        if more.contains(other) {
            let n = choose|n: int| 0 <= n < more.len() && more[n] == other;
            if n == names.len() {
                assert(now[at] == other);
            } else {
                assert(names[n] == other);
                let k = choose|k: int| 0 <= k < ordered.len() && ordered[k] == other;
                if k < at {
                    assert(now[k] == other);
                } else {
                    assert(now[k + 1] == other);
                }
            }
        }
    }
}

/// The slots with one for each of the first `k` libraries.
pub open spec fn ensured_all<D>(
    slots: Seq<SlotView<D>>,
    domain: LinkDomainId,
    names: Seq<Seq<u8>>,
    k: int,
) -> Seq<SlotView<D>>
    decreases k,
{
    if k <= 0 {
        slots
    } else {
        ensured(ensured_all(slots, domain, names, k - 1), domain, names[k - 1])
    }
}

/// Whether a library is under construction or destruction.
pub open spec fn in_flight<D>(slots: Seq<SlotView<D>>, domain: LinkDomainId, name: Seq<u8>) -> bool {
    match find_slot(slots, domain, name) {
        Some(i) => !obtainable(slots[i].state),
        None => false,
    }
}

/// The first of the libraries from `from` on that is in flight.
pub open spec fn first_in_flight<D>(
    slots: Seq<SlotView<D>>,
    domain: LinkDomainId,
    names: Seq<Seq<u8>>,
    from: int,
) -> Option<int>
    decreases names.len() - from,
{
    if from >= names.len() {
        None
    } else if in_flight(slots, domain, names[from]) {
        Some(from)
    } else {
        first_in_flight(slots, domain, names, from + 1)
    }
}

pub(crate) proof fn lemma_find_pushed<D>(
    slots: Seq<SlotView<D>>,
    slot: SlotView<D>,
    domain: LinkDomainId,
    soname: Seq<u8>,
    from: int,
)
    requires
        0 <= from <= slots.len(),
    ensures
        ({
            let found = crate::application::registry::find_from(slots, domain, soname, from);
            let more = crate::application::registry::find_from(
                slots.push(slot),
                domain,
                soname,
                from,
            );
            if found is Some {
                more == found
            } else if slot.domain == domain && slot.soname == soname {
                more == Some(slots.len() as int)
            } else {
                more is None
            }
        }),
    decreases slots.len() - from,
{
    let more = slots.push(slot);
    if from < slots.len() {
        assert(more[from] == slots[from]);
        lemma_find_pushed(slots, slot, domain, soname, from + 1);
    } else {
        assert(more[from] == slot);
        assert(crate::application::registry::find_from(more, domain, soname, from + 1) is None);
    }
}

/// Making slots leaves those that were there; the new ones are vacant.
proof fn lemma_ensured_all<D>(
    slots: Seq<SlotView<D>>,
    domain: LinkDomainId,
    names: Seq<Seq<u8>>,
    k: int,
)
    requires
        0 <= k <= names.len(),
    ensures
        slots.len() <= ensured_all(slots, domain, names, k).len(),
        forall|i: int|
            0 <= i < slots.len() ==> #[trigger] ensured_all(slots, domain, names, k)[i] == slots[i],
        forall|i: int|
            slots.len() <= i < ensured_all(slots, domain, names, k).len() ==> (
            #[trigger] ensured_all(slots, domain, names, k)[i]).state is Vacant,
        forall|name: Seq<u8>|
            find_slot(slots, domain, name) is Some ==> #[trigger] find_slot(
                ensured_all(slots, domain, names, k),
                domain,
                name,
            ) == find_slot(slots, domain, name),
        forall|j: int|
            0 <= j < k ==> find_slot(
                ensured_all(slots, domain, names, k),
                domain,
                #[trigger] names[j],
            ) is Some,
    decreases k,
{
    if k > 0 {
        lemma_ensured_all(slots, domain, names, k - 1);
        let before = ensured_all(slots, domain, names, k - 1);
        let now = ensured_all(slots, domain, names, k);
        let slot = fresh_slot::<D>(domain, names[k - 1]);
        assert forall|name: Seq<u8>| find_slot(slots, domain, name) is Some implies #[trigger] find_slot(
            now,
            domain,
            name,
        ) == find_slot(slots, domain, name) by {
            assert(find_slot(before, domain, name) == find_slot(slots, domain, name));
            lemma_find_pushed(before, slot, domain, name, 0);
        }
        assert forall|j: int| 0 <= j < k implies find_slot(now, domain, #[trigger] names[j])
            is Some by {
            lemma_find_pushed(before, slot, domain, names[j], 0);
        }
    }
}

/// A library is in flight once slots were made exactly if it was before.
proof fn lemma_in_flight_kept<D>(
    slots: Seq<SlotView<D>>,
    domain: LinkDomainId,
    names: Seq<Seq<u8>>,
    k: int,
    name: Seq<u8>,
)
    requires
        0 <= k <= names.len(),
    ensures
        in_flight(ensured_all(slots, domain, names, k), domain, name) == in_flight(
            slots,
            domain,
            name,
        ),
{
    lemma_ensured_all(slots, domain, names, k);
    let all = ensured_all(slots, domain, names, k);
    lemma_find_from(slots, domain, name, 0);
    lemma_find_from(all, domain, name, 0);
    if let Some(i) = find_slot(slots, domain, name) {
        assert(find_slot(all, domain, name) == Some(i));
        assert(all[i] == slots[i]);
    } else if let Some(i) = find_slot(all, domain, name) {
        if i < slots.len() {
            assert(all[i] == slots[i]);
            assert(false);
        }
        assert(all[i].state is Vacant);
    }
}

/// The registry after the first `k` libraries were handed out.
pub open spec fn handed_out_all<D>(
    view: RegistryView<D>,
    domain: LinkDomainId,
    names: Seq<Seq<u8>>,
    k: int,
) -> RegistryView<D>
    decreases k,
{
    if k <= 0 {
        view
    } else {
        let before = handed_out_all(view, domain, names, k - 1);
        match find_slot(view.slots, domain, names[k - 1]) {
            Some(i) => handed_out(before, i),
            None => before,
        }
    }
}

/// Those of the first `k` libraries that are to be loaded, with their permits.
pub open spec fn loads_for<D>(
    view: RegistryView<D>,
    domain: LinkDomainId,
    names: Seq<Seq<u8>>,
    k: int,
) -> Seq<(Seq<u8>, LoadPermit)>
    decreases k,
{
    if k <= 0 {
        Seq::empty()
    } else {
        let before = loads_for(view, domain, names, k - 1);
        match find_slot(view.slots, domain, names[k - 1]) {
            Some(i) => if view.slots[i].state is Vacant || view.slots[i].state is Failed {
                before.push((names[k - 1], permit_for(view, i)))
            } else {
                before
            },
            None => before,
        }
    }
}

/// Those of the first `k` libraries that are imported, with their leases and
/// descriptors.
pub open spec fn imports_for<D>(
    view: RegistryView<D>,
    domain: LinkDomainId,
    names: Seq<Seq<u8>>,
    k: int,
) -> Seq<(Seq<u8>, LeaseView, D)>
    decreases k,
{
    if k <= 0 {
        Seq::empty()
    } else {
        let before = imports_for(view, domain, names, k - 1);
        match find_slot(view.slots, domain, names[k - 1]) {
            Some(i) => match view.slots[i].state {
                StateView::Ready { leases, backing } => before.push(
                    (names[k - 1], lease_for(view, i), backing.descriptor),
                ),
                _ => before,
            },
            None => before,
        }
    }
}

/// Whether a list of loads has these contents.
pub open spec fn loads_are(
    loads: Seq<(DependencyName, LoadPermit)>,
    wanted: Seq<(Seq<u8>, LoadPermit)>,
) -> bool {
    &&& loads.len() == wanted.len()
    &&& forall|i: int|
        0 <= i < loads.len() ==> (#[trigger] loads[i]).0@ == wanted[i].0 && loads[i].1
            == wanted[i].1
}

/// Whether a list of imports has these contents, with clones of the descriptors.
pub open spec fn imports_are<D: Clone>(
    imports: Seq<(DependencyName, SystemDsoLease, D)>,
    wanted: Seq<(Seq<u8>, LeaseView, D)>,
) -> bool {
    &&& imports.len() == wanted.len()
    &&& forall|i: int|
        0 <= i < imports.len() ==> (#[trigger] imports[i]).0@ == wanted[i].0 && imports[i].1@
            == wanted[i].1 && cloned::<D>(wanted[i].2, imports[i].2)
}

/// Whether `outcome` and the registry after it are what a set of libraries in byte
/// order is given.
pub open spec fn batch_acquired<D: Clone>(
    before: RegistryView<D>,
    after: RegistryView<D>,
    domain: LinkDomainId,
    names: Seq<Seq<u8>>,
    outcome: AcquireBatchOutcome<D>,
) -> bool {
    match first_in_flight(before.slots, domain, names, 0) {
        Some(k) => {
            &&& outcome == AcquireBatchOutcome::<D>::Pending(
                SystemBatchWait { observed: before.resolution },
            )
            &&& after == (RegistryView {
                slots: ensured_all(before.slots, domain, names, k + 1),
                ..before
            })
        },
        None => {
            let n = names.len() as int;
            let known = RegistryView {
                slots: ensured_all(before.slots, domain, names, n),
                ..before
            };
            &&& after == handed_out_all(known, domain, names, n)
            &&& match outcome {
                AcquireBatchOutcome::Acquired(batch) => loads_are(
                    batch.loads@,
                    loads_for(known, domain, names, n),
                ) && imports_are(batch.imports@, imports_for(known, domain, names, n)),
                AcquireBatchOutcome::Pending(_) => false,
            }
        },
    }
}

impl<D: Clone> SystemDsoRegistry<D> {
    /// Asks for a set of libraries at once. Either every one is handed out, or one
    /// is in flight and none is: two links never hold half of a set each.
    pub fn acquire_batch(&mut self, domain: LinkDomainId, sonames: &[DependencyName]) -> (r:
        AcquireBatchOutcome<D>)
        ensures
            exists|names: Seq<Seq<u8>>|
                #![trigger is_name_order(names, name_views(sonames@))]
                is_name_order(names, name_views(sonames@)) && batch_acquired(
                    old(self)@,
                    final(self)@,
                    domain,
                    names,
                    r,
                ),
    {
        let ordered: Vec<DependencyName> = order_names(sonames);
        self.acquire_ordered(domain, &ordered)
    }

    /// Asks for a set of libraries that is in byte order.
    pub fn acquire_ordered(&mut self, domain: LinkDomainId, ordered: &Vec<DependencyName>) -> (r:
        AcquireBatchOutcome<D>)
        requires
            ascending_names(name_views(ordered@)),
        ensures
            batch_acquired(old(self)@, final(self)@, domain, name_views(ordered@), r),
    {
        let ghost before = self@;
        let ghost names = name_views(ordered@);
        let mut index: usize = 0;
        while index < ordered.len()
            invariant
                index <= ordered@.len(),
                names == name_views(ordered@),
                before == old(self)@,
                first_in_flight(before.slots, domain, names, 0) == first_in_flight(
                    before.slots,
                    domain,
                    names,
                    index as int,
                ),
                self@ == (RegistryView {
                    slots: ensured_all(before.slots, domain, names, index as int),
                    ..before
                }),
            decreases ordered@.len() - index,
        {
            assert(names[index as int] == ordered@[index as int]@);
            let ghost known = self@.slots;
            let at: usize = self.ensure_slot(domain, &ordered[index]);
            proof {
                lemma_in_flight_kept(
                    before.slots,
                    domain,
                    names,
                    index + 1,
                    names[index as int],
                );
                lemma_find_pushed(
                    known,
                    fresh_slot(domain, names[index as int]),
                    domain,
                    names[index as int],
                    0,
                );
                assert(find_slot(self@.slots, domain, names[index as int]) == Some(at as int));
                assert(self@.slots[at as int] == self.slots@[at as int]@);
            }
            match &self.slots[at].state {
                InstanceState::Vacant => {},
                InstanceState::Failed => {},
                InstanceState::Ready { .. } => {},
                _ => {
                    return AcquireBatchOutcome::Pending(
                        SystemBatchWait { observed: self.resolution },
                    );
                },
            }
            index = index + 1;
        }
        self.take_ordered(domain, ordered, Ghost(before))
    }

    fn take_ordered(
        &mut self,
        domain: LinkDomainId,
        ordered: &Vec<DependencyName>,
        Ghost(before): Ghost<RegistryView<D>>,
    ) -> (r: AcquireBatchOutcome<D>)
        requires
            ascending_names(name_views(ordered@)),
            first_in_flight(before.slots, domain, name_views(ordered@), 0) is None,
            old(self)@ == (RegistryView {
                slots: ensured_all(
                    before.slots,
                    domain,
                    name_views(ordered@),
                    ordered@.len() as int,
                ),
                ..before
            }),
        ensures
            batch_acquired(before, final(self)@, domain, name_views(ordered@), r),
    {
        let ghost known = self@;
        let ghost names = name_views(ordered@);
        let mut loads: Vec<(DependencyName, LoadPermit)> = Vec::new();
        let mut imports: Vec<(DependencyName, SystemDsoLease, D)> = Vec::new();
        let mut index: usize = 0;
        proof {
            lemma_ensured_all(before.slots, domain, names, names.len() as int);
        }
        while index < ordered.len()
            invariant
                index <= ordered@.len(),
                names == name_views(ordered@),
                ascending_names(names),
                first_in_flight(before.slots, domain, names, 0) is None,
                known == (RegistryView {
                    slots: ensured_all(before.slots, domain, names, names.len() as int),
                    ..before
                }),
                self@ == handed_out_all(known, domain, names, index as int),
                same_keys(known.slots, self@.slots),
                forall|j: int|
                    index <= j < names.len() ==> untouched(
                        known.slots,
                        self@.slots,
                        domain,
                        #[trigger] names[j],
                    ),
                loads_are(loads@, loads_for(known, domain, names, index as int)),
                imports_are(imports@, imports_for(known, domain, names, index as int)),
            decreases ordered@.len() - index,
        {
            let name: &DependencyName = &ordered[index];
            assert(names[index as int] == name@);
            proof {
                lemma_find_same_keys(known.slots, self@.slots, domain, name@, 0);
                lemma_ensured_all(before.slots, domain, names, names.len() as int);
                lemma_find_from(known.slots, domain, name@, 0);
                lemma_first_in_flight(before.slots, domain, names, 0, index as int);
                lemma_in_flight_kept(before.slots, domain, names, names.len() as int, name@);
                assert(untouched(known.slots, self@.slots, domain, names[index as int]));
            }
            let ghost held = self@;
            if let Some(at) = self.position(domain, name) {
                match self.claim_slot(at) {
                    Claim::Load(permit) => {
                        loads.push((name.clone(), permit));
                    },
                    Claim::Import(lease) => {
                        proof {
                            lemma_handed_out_keys(held, at as int);
                            assert(self@.slots.len() == held.slots.len());
                            assert(self@.slots[at as int] == self.slots@[at as int]@);
                        }
                        if let InstanceState::Ready { backing, .. } = &self.slots[at].state {
                            imports.push((name.clone(), lease, backing.descriptor.clone()));
                        }
                    },
                    Claim::InFlight => {},
                }
                proof {
                    lemma_handed_out_keys(held, at as int);
                    assert forall|j: int| index + 1 <= j < names.len() implies untouched(
                        known.slots,
                        self@.slots,
                        domain,
                        #[trigger] names[j],
                    ) by {
                        assert(untouched(known.slots, held.slots, domain, names[j]));
                        assert(bytes_before(names[index as int], names[j]));
                        byte_order_is_total(names[index as int], names[j]);
                        lemma_find_from(known.slots, domain, names[j], 0);
                    }
                }
            }
            index = index + 1;
        }
        AcquireBatchOutcome::Acquired(PreparedSystemBatch { loads, imports })
    }
}

/// Whether the slot of a library is as it was.
pub open spec fn untouched<D>(
    known: Seq<SlotView<D>>,
    now: Seq<SlotView<D>>,
    domain: LinkDomainId,
    name: Seq<u8>,
) -> bool {
    find_slot(known, domain, name) matches Some(i) ==> now[i] == known[i]
}

pub(crate) proof fn lemma_handed_out_keys<D>(view: RegistryView<D>, i: int)
    requires
        0 <= i < view.slots.len(),
    ensures
        same_keys(view.slots, handed_out(view, i).slots),
        forall|j: int|
            0 <= j < view.slots.len() && j != i ==> #[trigger] handed_out(view, i).slots[j]
                == view.slots[j],
{
}

proof fn lemma_first_in_flight<D>(
    slots: Seq<SlotView<D>>,
    domain: LinkDomainId,
    names: Seq<Seq<u8>>,
    from: int,
    k: int,
)
    requires
        0 <= from <= k < names.len(),
        first_in_flight(slots, domain, names, from) is None,
    ensures
        !in_flight(slots, domain, names[k]),
    decreases k - from,
{
    if from < k {
        lemma_first_in_flight(slots, domain, names, from + 1, k);
    }
}

/// The libraries that a set has to load.
pub open spec fn load_names(loads: Seq<(DependencyName, LoadPermit)>) -> Seq<Seq<u8>> {
    Seq::new(loads.len(), |i: int| loads[i].0@)
}

/// The libraries that a set imports.
pub open spec fn import_names<D>(imports: Seq<(DependencyName, SystemDsoLease, D)>) -> Seq<Seq<u8>> {
    Seq::new(imports.len(), |i: int| imports[i].0@)
}

/// Whether a library is to be loaded by the next link that asks for it.
pub open spec fn to_load<D>(slots: Seq<SlotView<D>>, domain: LinkDomainId, name: Seq<u8>) -> bool {
    find_slot(slots, domain, name) matches Some(i) && (slots[i].state is Vacant || slots[i].state
        is Failed)
}

/// Whether a library is ready.
pub open spec fn to_import<D>(slots: Seq<SlotView<D>>, domain: LinkDomainId, name: Seq<u8>) -> bool {
    find_slot(slots, domain, name) matches Some(i) && slots[i].state is Ready
}

/// The loads of a set are those of its libraries that are to be loaded, in order.
proof fn lemma_loads_for<D>(
    view: RegistryView<D>,
    domain: LinkDomainId,
    names: Seq<Seq<u8>>,
    k: int,
)
    requires
        ascending_names(names),
        0 <= k <= names.len(),
    ensures
        forall|j: int|
            0 <= j < loads_for(view, domain, names, k).len() ==> names.subrange(0, k).contains(
                (#[trigger] loads_for(view, domain, names, k)[j]).0,
            ) && to_load(view.slots, domain, loads_for(view, domain, names, k)[j].0),
        forall|a: int, b: int|
            0 <= a < b < loads_for(view, domain, names, k).len() ==> bytes_before(
                (#[trigger] loads_for(view, domain, names, k)[a]).0,
                (#[trigger] loads_for(view, domain, names, k)[b]).0,
            ),
        forall|p: int|
            0 <= p < k && to_load(view.slots, domain, #[trigger] names[p]) ==> exists|j: int|
                0 <= j < loads_for(view, domain, names, k).len() && (#[trigger] loads_for(
                    view,
                    domain,
                    names,
                    k,
                )[j]).0 == names[p],
    decreases k,
{
    if k > 0 {
        lemma_loads_for(view, domain, names, k - 1);
        let before = loads_for(view, domain, names, k - 1);
        let now = loads_for(view, domain, names, k);
        let last = names[k - 1];
        assert forall|j: int| 0 <= j < now.len() implies names.subrange(0, k).contains(
            (#[trigger] now[j]).0,
        ) && to_load(view.slots, domain, now[j].0) by {
            if j < before.len() {
                assert(now[j] == before[j]);
                let shorter = names.subrange(0, k - 1);
                let p = choose|p: int| 0 <= p < shorter.len() && shorter[p] == before[j].0;
                assert(names.subrange(0, k)[p] == now[j].0);
            } else {
                assert(names.subrange(0, k)[k - 1] == last);
            }
        }
        assert forall|a: int, b: int| 0 <= a < b < now.len() implies bytes_before(
            (#[trigger] now[a]).0,
            (#[trigger] now[b]).0,
        ) by {
            assert(now[a] == before[a]);
            if b < before.len() {
                assert(now[b] == before[b]);
            } else {
                let shorter = names.subrange(0, k - 1);
                let p = choose|p: int| 0 <= p < shorter.len() && shorter[p] == before[a].0;
                assert(names[p] == before[a].0);
                assert(bytes_before(names[p], names[k - 1]));
            }
        }
        assert forall|p: int|
            0 <= p < k && to_load(view.slots, domain, #[trigger] names[p]) implies exists|j: int|
            0 <= j < now.len() && (#[trigger] now[j]).0 == names[p] by {
            if p < k - 1 {
                let j = choose|j: int| 0 <= j < before.len() && (#[trigger] before[j]).0 == names[p];
                assert(now[j].0 == names[p]);
            } else {
                assert(now[before.len() as int].0 == names[p]);
            }
        }
    }
}

/// The imports of a set are those of its libraries that are ready, in order.
proof fn lemma_imports_for<D>(
    view: RegistryView<D>,
    domain: LinkDomainId,
    names: Seq<Seq<u8>>,
    k: int,
)
    requires
        ascending_names(names),
        0 <= k <= names.len(),
    ensures
        forall|j: int|
            0 <= j < imports_for(view, domain, names, k).len() ==> names.subrange(0, k).contains(
                (#[trigger] imports_for(view, domain, names, k)[j]).0,
            ) && to_import(view.slots, domain, imports_for(view, domain, names, k)[j].0),
        forall|a: int, b: int|
            0 <= a < b < imports_for(view, domain, names, k).len() ==> bytes_before(
                (#[trigger] imports_for(view, domain, names, k)[a]).0,
                (#[trigger] imports_for(view, domain, names, k)[b]).0,
            ),
        forall|p: int|
            0 <= p < k && to_import(view.slots, domain, #[trigger] names[p]) ==> exists|j: int|
                0 <= j < imports_for(view, domain, names, k).len() && (#[trigger] imports_for(
                    view,
                    domain,
                    names,
                    k,
                )[j]).0 == names[p],
    decreases k,
{
    if k > 0 {
        lemma_imports_for(view, domain, names, k - 1);
        let before = imports_for(view, domain, names, k - 1);
        let now = imports_for(view, domain, names, k);
        let last = names[k - 1];
        assert forall|j: int| 0 <= j < now.len() implies names.subrange(0, k).contains(
            (#[trigger] now[j]).0,
        ) && to_import(view.slots, domain, now[j].0) by {
            if j < before.len() {
                assert(now[j] == before[j]);
                let shorter = names.subrange(0, k - 1);
                let p = choose|p: int| 0 <= p < shorter.len() && shorter[p] == before[j].0;
                assert(names.subrange(0, k)[p] == now[j].0);
            } else {
                assert(names.subrange(0, k)[k - 1] == last);
            }
        }
        assert forall|a: int, b: int| 0 <= a < b < now.len() implies bytes_before(
            (#[trigger] now[a]).0,
            (#[trigger] now[b]).0,
        ) by {
            assert(now[a] == before[a]);
            if b < before.len() {
                assert(now[b] == before[b]);
            } else {
                let shorter = names.subrange(0, k - 1);
                let p = choose|p: int| 0 <= p < shorter.len() && shorter[p] == before[a].0;
                assert(names[p] == before[a].0);
                assert(bytes_before(names[p], names[k - 1]));
            }
        }
        assert forall|p: int|
            0 <= p < k && to_import(view.slots, domain, #[trigger] names[p]) implies exists|j: int|
            0 <= j < now.len() && (#[trigger] now[j]).0 == names[p] by {
            if p < k - 1 {
                let j = choose|j: int| 0 <= j < before.len() && (#[trigger] before[j]).0 == names[p];
                assert(now[j].0 == names[p]);
            } else {
                assert(now[before.len() as int].0 == names[p]);
            }
        }
    }
}

/// Handing a set out hands each of its libraries out once.
proof fn lemma_handed_out_once<D>(
    view: RegistryView<D>,
    domain: LinkDomainId,
    names: Seq<Seq<u8>>,
    k: int,
    p: int,
)
    requires
        ascending_names(names),
        0 <= k <= names.len(),
        0 <= p < names.len(),
        forall|j: int| 0 <= j < names.len() ==> find_slot(view.slots, domain, #[trigger] names[j])
            is Some,
    ensures
        ({
            let i = find_slot(view.slots, domain, names[p])->0;
            let after = handed_out_all(view, domain, names, k);
            &&& same_keys(view.slots, after.slots)
            &&& after.slots[i] == (if p < k {
                handed_out(view, i).slots[i]
            } else {
                view.slots[i]
            })
        }),
    decreases k,
{
    lemma_find_from(view.slots, domain, names[p], 0);
    if k > 0 {
        lemma_handed_out_once(view, domain, names, k - 1, p);
        lemma_handed_out_once(view, domain, names, k - 1, k - 1);
        lemma_find_from(view.slots, domain, names[k - 1], 0);
        let held = handed_out_all(view, domain, names, k - 1);
        let at = find_slot(view.slots, domain, names[k - 1])->0;
        lemma_handed_out_keys(held, at);
        let after = handed_out_all(view, domain, names, k);
        assert(same_keys(view.slots, after.slots)) by {
            assert forall|j: int| 0 <= j < view.slots.len() implies (
            #[trigger] view.slots[j]).domain == after.slots[j].domain && view.slots[j].soname
                == after.slots[j].soname by {
                assert(held.slots[j].domain == view.slots[j].domain);
            }
        }
        if p < k - 1 {
            assert(bytes_before(names[p], names[k - 1]));
            byte_order_is_total(names[p], names[k - 1]);
        } else if p > k - 1 {
            assert(bytes_before(names[k - 1], names[p]));
            byte_order_is_total(names[k - 1], names[p]);
        }
    }
}

/// An acquired set is what was asked for: every name is loaded or imported and none
/// is both, loads and imports are in byte order, a library that is loaded is in the
/// next generation, and one that is imported has one user more.
pub proof fn acquired_sets_are_what_was_asked_for<D: Clone>(
    before: RegistryView<D>,
    after: RegistryView<D>,
    domain: LinkDomainId,
    names: Seq<Seq<u8>>,
    batch: PreparedSystemBatch<D>,
    name: Seq<u8>,
)
    requires
        ascending_names(names),
        batch_acquired(before, after, domain, names, AcquireBatchOutcome::Acquired(batch)),
    ensures
        ascending_names(load_names(batch.loads@)),
        ascending_names(import_names(batch.imports@)),
        names.contains(name) <==> load_names(batch.loads@).contains(name) || import_names(
            batch.imports@,
        ).contains(name),
        !(load_names(batch.loads@).contains(name) && import_names(batch.imports@).contains(name)),
        names.contains(name) ==> {
            let known = ensured_all(before.slots, domain, names, names.len() as int);
            let i = find_slot(known, domain, name)->0;
            &&& find_slot(known, domain, name) is Some
            &&& find_slot(before.slots, domain, name) is Some ==> find_slot(
                before.slots,
                domain,
                name,
            ) == Some(i) && known[i] == before.slots[i]
            &&& load_names(batch.loads@).contains(name) ==> after.slots[i].state is Loading
                && after.slots[i].generation == next_generation(known[i].generation)
            &&& import_names(batch.imports@).contains(name) ==> match (
                known[i].state,
                after.slots[i].state,
            ) {
                (
                    StateView::Ready { leases: had, backing },
                    StateView::Ready { leases: has, backing: kept },
                ) => has == more_leases(had) && kept == backing && after.slots[i].generation
                    == known[i].generation,
                _ => false,
            }
        },
{
    let n = names.len() as int;
    let known = RegistryView { slots: ensured_all(before.slots, domain, names, n), ..before };
    let loads = loads_for(known, domain, names, n);
    let imports = imports_for(known, domain, names, n);
    lemma_ensured_all(before.slots, domain, names, n);
    lemma_loads_for(known, domain, names, n);
    lemma_imports_for(known, domain, names, n);
    assert(names.subrange(0, n) =~= names);
    let ours = load_names(batch.loads@);
    let theirs = import_names(batch.imports@);
    assert forall|a: int, b: int| 0 <= a < b < ours.len() implies bytes_before(
        #[trigger] ours[a],
        #[trigger] ours[b],
    ) by {
        assert(batch.loads@[a].0@ == loads[a].0 && batch.loads@[b].0@ == loads[b].0);
        assert(bytes_before(loads[a].0, loads[b].0));
    }
    assert forall|a: int, b: int| 0 <= a < b < theirs.len() implies bytes_before(
        #[trigger] theirs[a],
        #[trigger] theirs[b],
    ) by {
        assert(batch.imports@[a].0@ == imports[a].0 && batch.imports@[b].0@ == imports[b].0);
        assert(bytes_before(imports[a].0, imports[b].0));
    }
    if ours.contains(name) {
        let j = choose|j: int| 0 <= j < ours.len() && ours[j] == name;
        assert(batch.loads@[j].0@ == loads[j].0);
        assert(names.contains(loads[j].0) && to_load(known.slots, domain, loads[j].0));
    }
    if theirs.contains(name) {
        let j = choose|j: int| 0 <= j < theirs.len() && theirs[j] == name;
        assert(batch.imports@[j].0@ == imports[j].0);
        assert(names.contains(imports[j].0) && to_import(known.slots, domain, imports[j].0));
    }
    if names.contains(name) {
        let p = choose|p: int| 0 <= p < names.len() && names[p] == name;
        lemma_first_in_flight(before.slots, domain, names, 0, p);
        lemma_in_flight_kept(before.slots, domain, names, n, name);
        lemma_find_from(known.slots, domain, name, 0);
        lemma_find_from(before.slots, domain, name, 0);
        assert(find_slot(known.slots, domain, names[p]) is Some);
        if to_load(known.slots, domain, names[p]) {
            let j = choose|j: int| 0 <= j < loads.len() && (#[trigger] loads[j]).0 == names[p];
            assert(batch.loads@[j].0@ == loads[j].0);
            assert(ours[j] == name);
        } else {
            assert(to_import(known.slots, domain, names[p]));
            let j = choose|j: int| 0 <= j < imports.len() && (#[trigger] imports[j]).0 == names[p];
            assert(batch.imports@[j].0@ == imports[j].0);
            assert(theirs[j] == name);
        }
        lemma_handed_out_once(known, domain, names, n, p);
    }
}

/// Asking for a set of which one library is in flight changes no library; at most
/// it makes vacant slots.
pub proof fn pending_sets_change_nothing<D: Clone>(
    before: RegistryView<D>,
    after: RegistryView<D>,
    domain: LinkDomainId,
    names: Seq<Seq<u8>>,
    outcome: AcquireBatchOutcome<D>,
    i: int,
)
    requires
        batch_acquired(before, after, domain, names, outcome),
        outcome is Pending,
        0 <= i < after.slots.len(),
    ensures
        before.slots.len() <= after.slots.len(),
        i < before.slots.len() ==> after.slots[i] == before.slots[i],
        i >= before.slots.len() ==> after.slots[i].state is Vacant,
        after.failed_backings == before.failed_backings,
{
    let k = first_in_flight(before.slots, domain, names, 0)->0;
    lemma_first_in_flight_bounds(before.slots, domain, names, 0);
    lemma_ensured_all(before.slots, domain, names, k + 1);
}

proof fn lemma_first_in_flight_bounds<D>(
    slots: Seq<SlotView<D>>,
    domain: LinkDomainId,
    names: Seq<Seq<u8>>,
    from: int,
)
    requires
        0 <= from <= names.len(),
    ensures
        first_in_flight(slots, domain, names, from) matches Some(k) ==> from <= k < names.len(),
    decreases names.len() - from,
{
    if from < names.len() {
        lemma_first_in_flight_bounds(slots, domain, names, from + 1);
    }
}

/// What a set is given for a library is its own: a permit is for the slot of the library, in
/// the next generation, and an import is a lease on that slot, in its present generation,
/// with the descriptor that is ready there.
pub proof fn sets_are_given_their_own<D>(
    view: RegistryView<D>,
    domain: LinkDomainId,
    names: Seq<Seq<u8>>,
    k: int,
)
    requires
        0 <= k <= names.len(),
        view.slots.len() <= usize::MAX,
    ensures
        forall|j: int|
            0 <= j < loads_for(view, domain, names, k).len() ==> {
                let (name, permit) = #[trigger] loads_for(view, domain, names, k)[j];
                &&& permit.slot < view.slots.len()
                &&& view.slots[permit.slot as int].domain == domain
                &&& view.slots[permit.slot as int].soname == name
                &&& view.slots[permit.slot as int].state is Vacant
                    || view.slots[permit.slot as int].state is Failed
                &&& permit.generation == if view.slots[permit.slot as int].generation == u32::MAX {
                    0
                } else {
                    view.slots[permit.slot as int].generation + 1
                }
            },
        forall|j: int|
            0 <= j < imports_for(view, domain, names, k).len() ==> {
                let (name, lease, descriptor) = #[trigger] imports_for(view, domain, names, k)[j];
                &&& lease.slot < view.slots.len()
                &&& view.slots[lease.slot as int].domain == domain
                &&& view.slots[lease.slot as int].soname == name
                &&& lease.domain == domain
                &&& lease.soname == name
                &&& lease.generation == view.slots[lease.slot as int].generation
                &&& view.slots[lease.slot as int].state matches StateView::Ready { backing, .. }
                    && descriptor == backing.descriptor
            },
        loads_for(view, domain, names, k).len() + imports_for(view, domain, names, k).len() <= k,
    decreases k,
{
    if k > 0 {
        sets_are_given_their_own(view, domain, names, k - 1);
        lemma_find_from(view.slots, domain, names[k - 1], 0);
    }
}

/// A set has to wait exactly if one of its libraries is under construction or destruction.
pub proof fn sets_wait_for_what_is_in_flight<D: Clone>(
    before: RegistryView<D>,
    after: RegistryView<D>,
    domain: LinkDomainId,
    names: Seq<Seq<u8>>,
    outcome: AcquireBatchOutcome<D>,
)
    requires
        batch_acquired(before, after, domain, names, outcome),
    ensures
        outcome is Pending <==> exists|k: int|
            0 <= k < names.len() && in_flight(before.slots, domain, #[trigger] names[k]),
        outcome matches AcquireBatchOutcome::Pending(wait) ==> wait.observed == before.resolution,
{
    lemma_flight(before.slots, domain, names, 0);
}

proof fn lemma_flight<D>(
    slots: Seq<SlotView<D>>,
    domain: LinkDomainId,
    names: Seq<Seq<u8>>,
    from: int,
)
    requires
        0 <= from <= names.len(),
    ensures
        match first_in_flight(slots, domain, names, from) {
            Some(k) => from <= k < names.len() && in_flight(slots, domain, names[k]),
            None => forall|k: int|
                from <= k < names.len() ==> !in_flight(slots, domain, #[trigger] names[k]),
        },
    decreases names.len() - from,
{
    if from < names.len() {
        lemma_flight(slots, domain, names, from + 1);
    }
}

/// A library is in flight exactly if it is being loaded, is relocated, or has its constructors
/// or destructors running. One that the registry does not know is not.
pub proof fn libraries_in_flight_are_told_by_their_state<D>(
    slots: Seq<SlotView<D>>,
    domain: LinkDomainId,
    name: Seq<u8>,
)
    ensures
        match find_slot(slots, domain, name) {
            Some(i) => {
                &&& 0 <= i < slots.len()
                &&& slots[i].domain == domain
                &&& slots[i].soname == name
                &&& in_flight(slots, domain, name) <==> slots[i].state is Loading || slots[i].state
                    is Relocated || slots[i].state is Initializing || slots[i].state is Unloading
            },
            None => !in_flight(slots, domain, name) && forall|i: int|
                0 <= i < slots.len() ==> (#[trigger] slots[i]).domain != domain || slots[i].soname
                    != name,
        },
{
    lemma_find_from(slots, domain, name, 0);
}

} // verus!
