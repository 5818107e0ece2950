//! The publication of an application's link.
//!
//! The receipt owns the memory of every image that the link loaded. It is split by
//! who gives it up: the images of the application itself go with the application,
//! those loaded for the system stay.

use crate::application::group::{GroupState, ThreadGroup};
use crate::dynamic_linker::artifact::ImageOwnership;
use crate::dynamic_linker::publish::{
    CommittingLinkProduct, LinkMapEntry, LinkPublisher, PreparedLinkManifest,
};
use crate::error::{unclaimed, ErrorContext, LoadError, LoadErrorKind, LoadResult};
use crate::memory::AllocationLease;
use crate::sort::{are_places, lemma_next_place};
use vstd::prelude::*;

verus! {

/// The owner of a link's memory.
pub struct KernelLinkReceipt {
    pub private_allocations: Vec<AllocationLease>,
    pub system_allocations: Vec<AllocationLease>,
}

impl KernelLinkReceipt {
    /// The images of the application itself.
    #[inline]
    pub fn private_allocations(&self) -> (r: &[AllocationLease])
        ensures
            r@ == self.private_allocations@,
    {
        self.private_allocations.as_slice()
    }

    /// The images that were loaded for the system.
    #[inline]
    pub fn system_allocations(&self) -> (r: &[AllocationLease])
        ensures
            r@ == self.system_allocations@,
    {
        self.system_allocations.as_slice()
    }
}

/// The owner of each loaded image, in the order of their loading.
pub struct KernelLinkPreparedBatch {
    pub owners: Vec<ImageOwnership>,
}

/// The owners of those of the first `k` images that the link loaded itself.
pub open spec fn loaded_owners(entries: Seq<LinkMapEntry>, k: int) -> Seq<ImageOwnership>
    decreases k,
{
    if k <= 0 {
        Seq::empty()
    } else if entries[k - 1].ownership == ImageOwnership::ExternalReady {
        loaded_owners(entries, k - 1)
    } else {
        loaded_owners(entries, k - 1).push(entries[k - 1].ownership)
    }
}

/// Those of the first `k` leases that belong to the application, or those that do
/// not.
pub open spec fn leases_of(
    leases: Seq<AllocationLease>,
    owners: Seq<ImageOwnership>,
    k: int,
    private: bool,
) -> Seq<AllocationLease>
    decreases k,
{
    if k <= 0 {
        Seq::empty()
    } else if (owners[k - 1] == ImageOwnership::SessionPrivate) == private {
        leases_of(leases, owners, k - 1, private).push(leases[k - 1])
    } else {
        leases_of(leases, owners, k - 1, private)
    }
}

/// How many leases have an owner.
pub open spec fn paired(leases: nat, owners: nat) -> int {
    if leases < owners {
        leases as int
    } else {
        owners as int
    }
}

/// The failure of a publication into a group that has its link already.
pub open spec fn already_published() -> LoadError {
    unclaimed(LoadErrorKind::Backend, ErrorContext::Nothing)
}

/// Publishes a link into a thread group.
pub struct KernelLinkPublisher<'a> {
    pub group: &'a ThreadGroup,
}

impl<'a> KernelLinkPublisher<'a> {
    #[inline]
    pub fn new(group: &'a ThreadGroup) -> (r: Self)
        ensures
            *r.group == *group,
    {
        KernelLinkPublisher { group }
    }

    /// The group that the link is published into.
    #[inline]
    pub fn group(&self) -> (r: &ThreadGroup)
        ensures
            *r == *self.group,
    {
        self.group
    }
}

impl<'a> LinkPublisher for KernelLinkPublisher<'a> {
    type PreparedBatch = KernelLinkPreparedBatch;

    type Receipt = KernelLinkReceipt;

    /// Checks that the group has no link yet and notes who owns each loaded image.
    /// An imported image has no memory of its own here.
    fn prepare_batch(&mut self, manifest: &PreparedLinkManifest) -> (r: LoadResult<
        KernelLinkPreparedBatch,
    >)
        ensures
            *final(self) == *old(self),
            if old(self).group.state != GroupState::New {
                r == Err::<KernelLinkPreparedBatch, LoadError>(already_published())
            } else {
                r matches Ok(batch) && batch.owners@ == loaded_owners(
                    manifest.link_map@,
                    manifest.link_map@.len() as int,
                )
            },
    {
        if self.group.state() != GroupState::New {
            return Err(LoadError::new(LoadErrorKind::Backend, ErrorContext::Nothing));
        }
        let mut owners: Vec<ImageOwnership> = Vec::new();
        let mut index: usize = 0;
        while index < manifest.link_map.len()
            invariant
                index <= manifest.link_map@.len(),
                owners@ == loaded_owners(manifest.link_map@, index as int),
            decreases manifest.link_map@.len() - index,
        {
            let ownership: ImageOwnership = manifest.link_map[index].ownership();
            if ownership != ImageOwnership::ExternalReady {
                owners.push(ownership);
            }
            index = index + 1;
        }
        Ok(KernelLinkPreparedBatch { owners })
    }

    /// Splits the memory of the link by its owners.
    fn commit_batch(
        &mut self,
        prepared: KernelLinkPreparedBatch,
        product: CommittingLinkProduct,
    ) -> (r: KernelLinkReceipt)
        ensures
            *final(self) == *old(self),
            ({
                let n = paired(product.leases@.len(), prepared.owners@.len());
                &&& r.private_allocations@ == leases_of(
                    product.leases@,
                    prepared.owners@,
                    n,
                    true,
                )
                &&& r.system_allocations@ == leases_of(
                    product.leases@,
                    prepared.owners@,
                    n,
                    false,
                )
            }),
    {
        let ghost all = product.leases@;
        let owners: Vec<ImageOwnership> = prepared.owners;
        let mut leases: Vec<AllocationLease> = product.into_leases();
        let mut private_allocations: Vec<AllocationLease> = Vec::new();
        let mut system_allocations: Vec<AllocationLease> = Vec::new();
        let mut index: usize = 0;
        assert(leases@ =~= all.subrange(0, all.len() as int));
        while leases.len() > 0 && index < owners.len()
            invariant
                index <= owners@.len(),
                index <= all.len(),
                leases@ == all.subrange(index as int, all.len() as int),
                private_allocations@ == leases_of(all, owners@, index as int, true),
                system_allocations@ == leases_of(all, owners@, index as int, false),
            decreases leases@.len(),
        {
            let lease: AllocationLease = leases.remove(0);
            assert(lease == all[index as int]);
            match owners[index] {
                ImageOwnership::SessionPrivate => {
                    private_allocations.push(lease);
                },
                _ => {
                    system_allocations.push(lease);
                },
            }
            assert(leases@ =~= all.subrange(index + 1, all.len() as int));
            index = index + 1;
        }
        KernelLinkReceipt { private_allocations, system_allocations }
    }
}

/// Every lease that has an owner is in exactly one part of the receipt.
pub proof fn receipts_lose_no_lease(
    leases: Seq<AllocationLease>,
    owners: Seq<ImageOwnership>,
    k: int,
)
    requires
        0 <= k <= leases.len(),
        k <= owners.len(),
    ensures
        leases_of(leases, owners, k, true).len() + leases_of(leases, owners, k, false).len() == k,
        leases_of(leases, owners, k, true).to_multiset().add(
            leases_of(leases, owners, k, false).to_multiset(),
        ) == leases.subrange(0, k).to_multiset(),
    decreases k,
{
    broadcast use vstd::seq_lib::group_to_multiset_ensures;

    let private = leases_of(leases, owners, k, true).to_multiset();
    let system = leases_of(leases, owners, k, false).to_multiset();
    if k > 0 {
        receipts_lose_no_lease(leases, owners, k - 1);
        let lease = leases[k - 1];
        assert(leases.subrange(0, k) =~= leases.subrange(0, k - 1).push(lease));
        let private_before = leases_of(leases, owners, k - 1, true).to_multiset();
        let system_before = leases_of(leases, owners, k - 1, false).to_multiset();
        if owners[k - 1] == ImageOwnership::SessionPrivate {
            assert(private =~= private_before.insert(lease));
            assert(private.add(system) =~= private_before.add(system_before).insert(lease));
        } else {
            assert(system =~= system_before.insert(lease));
            assert(private.add(system) =~= private_before.add(system_before).insert(lease));
        }
    } else {
        assert(leases.subrange(0, 0) =~= Seq::empty());
        assert(private.add(system) =~= leases.subrange(0, k).to_multiset());
    }
}

/// The receipt splits the leases by their owners: the part of the application has the
/// lease of every image that belongs to the application, and the other part those of the
/// other images, both in the order of the leases.
pub proof fn receipts_split_leases_by_owner(
    leases: Seq<AllocationLease>,
    owners: Seq<ImageOwnership>,
    k: int,
    private: bool,
) -> (places: Seq<int>)
    requires
        0 <= k <= leases.len(),
        k <= owners.len(),
    ensures
        are_places(places, k, |i: int| (owners[i] is SessionPrivate) == private),
        leases_of(leases, owners, k, private).len() == places.len(),
        forall|j: int|
            0 <= j < places.len() ==> leases_of(leases, owners, k, private)[j]
                == leases[#[trigger] places[j]],
        forall|i: int|
            0 <= i < k && (#[trigger] owners[i] is SessionPrivate) == private ==> leases_of(
                leases,
                owners,
                k,
                private,
            ).contains(leases[i]),
    decreases k,
{
    let wanted = |i: int| (owners[i] is SessionPrivate) == private;
    if k <= 0 {
        Seq::empty()
    } else {
        let before = receipts_split_leases_by_owner(leases, owners, k - 1, private);
        let places = lemma_next_place(before, k - 1, wanted);
        let parts = leases_of(leases, owners, k, private);
        assert forall|i: int|
            0 <= i < k
                && (#[trigger] owners[i] is SessionPrivate) == private implies parts.contains(
            leases[i],
        ) by {
            assert(wanted(i));
            let j = choose|j: int| 0 <= j < places.len() && places[j] == i;
            assert(parts[j] == leases[i]);
        }
        places
    }
}

/// Every lease has an owner where there are enough of them, and no owner counts twice.
pub proof fn receipts_pair_leases_with_owners(leases: nat, owners: nat)
    ensures
        paired(leases, owners) <= leases,
        paired(leases, owners) <= owners,
        paired(leases, owners) == leases || paired(leases, owners) == owners,
{
}

/// The owners of a batch are those of the images that the link loaded itself, in the
/// order of the link map. An imported image has none.
pub proof fn batches_own_what_the_link_loaded(
    entries: Seq<LinkMapEntry>,
    k: int,
) -> (places: Seq<int>)
    requires
        0 <= k <= entries.len(),
    ensures
        are_places(places, k, |i: int| !(entries[i].ownership is ExternalReady)),
        loaded_owners(entries, k).len() == places.len(),
        forall|j: int|
            0 <= j < places.len() ==> loaded_owners(entries, k)[j]
                == entries[#[trigger] places[j]].ownership,
    decreases k,
{
    let wanted = |i: int| !(entries[i].ownership is ExternalReady);
    if k <= 0 {
        Seq::empty()
    } else {
        let before = batches_own_what_the_link_loaded(entries, k - 1);
        lemma_next_place(before, k - 1, wanted)
    }
}

} // verus!
