//! Handing the system libraries of a link over to the registry.
//!
//! A link that loads system libraries for the first time has a permit for each of
//! them. When the link is published, every library is paired with its memory and
//! goes to the registry, all of them at once, to be initialized.

use crate::application::registry::{
    current, name_views, stale, with_state, BackingView, LoadPermit, RegistryView,
    RelocatedPermit, StateView, SystemCandidateBacking, SystemDsoRegistry, SystemInitBatch,
};
use crate::application::registry_init::{
    backing_views, batch_published, relocations_cancelled,
};
use crate::application::registry_quiescence::duplicate_plan;
use crate::application::resolver::{backend, backend_error, swap_removed, SystemCandidatePermit};
use crate::dynamic_linker::artifact::{DependencyName, ImageId, ImageOwnership};
use crate::dynamic_linker::lifecycle::{FiniPlan, LifecycleEntry};
use crate::error::{LoadError, LoadResult};
use crate::memory::AllocationLease;
use crate::sort::{are_places, lemma_next_place};
use vstd::prelude::*;

verus! {

/// One image of a published link.
pub struct LinkedImage<D> {
    pub owner: ImageId,
    pub ownership: ImageOwnership,
    pub soname: Option<DependencyName>,
    pub descriptor: D,
    /// The system libraries outside its own group that it needs.
    pub dependency_names: Vec<DependencyName>,
    /// The group of libraries that need one another.
    pub scc_members: Vec<DependencyName>,
    /// Whether the instance stays when it has no user.
    pub keep_cached: bool,
}

/// The destructors of one system library.
pub struct SystemFiniPlan {
    pub owner: ImageId,
    pub plan: FiniPlan,
}

/// The system libraries among the first `k` images, in their order.
pub open spec fn candidate_owners<D>(images: Seq<LinkedImage<D>>, k: int) -> Seq<ImageId>
    decreases k,
{
    if k <= 0 {
        Seq::empty()
    } else if images[k - 1].ownership == ImageOwnership::SystemCandidate {
        candidate_owners(images, k - 1).push(images[k - 1].owner)
    } else {
        candidate_owners(images, k - 1)
    }
}

/// The entries of an image among the first `k`, in their order.
pub open spec fn entries_of(entries: Seq<LifecycleEntry>, owner: ImageId, k: int) -> Seq<LifecycleEntry>
    decreases k,
{
    if k <= 0 {
        Seq::empty()
    } else if entries[k - 1].owner == owner {
        entries_of(entries, owner, k - 1).push(entries[k - 1])
    } else {
        entries_of(entries, owner, k - 1)
    }
}

/// Takes the destructors of each system library out of the destructors of a link.
pub fn system_fini_plans<D>(images: &Vec<LinkedImage<D>>, fini_plan: &FiniPlan) -> (r: Vec<
    SystemFiniPlan,
>)
    ensures
        r@.len() == candidate_owners(images@, images@.len() as int).len(),
        forall|i: int|
            0 <= i < r@.len() ==> {
                &&& (#[trigger] r@[i]).owner == candidate_owners(images@, images@.len() as int)[i]
                &&& r@[i].plan.0@ == entries_of(
                    fini_plan.0@,
                    r@[i].owner,
                    fini_plan.0@.len() as int,
                )
            },
{
    let mut plans: Vec<SystemFiniPlan> = Vec::new();
    let mut index: usize = 0;
    while index < images.len()
        invariant
            index <= images@.len(),
            plans@.len() == candidate_owners(images@, index as int).len(),
            forall|i: int|
                0 <= i < plans@.len() ==> {
                    &&& (#[trigger] plans@[i]).owner == candidate_owners(images@, index as int)[i]
                    &&& plans@[i].plan.0@ == entries_of(
                        fini_plan.0@,
                        plans@[i].owner,
                        fini_plan.0@.len() as int,
                    )
                },
        decreases images@.len() - index,
    {
        if images[index].ownership == ImageOwnership::SystemCandidate {
            let owner: ImageId = images[index].owner;
            plans.push(SystemFiniPlan { owner, plan: plan_of(fini_plan, owner) });
        }
        index = index + 1;
    }
    plans
}

fn plan_of(fini_plan: &FiniPlan, owner: ImageId) -> (r: FiniPlan)
    ensures
        r.0@ == entries_of(fini_plan.0@, owner, fini_plan.0@.len() as int),
{
    let mut entries: Vec<LifecycleEntry> = Vec::new();
    let mut index: usize = 0;
    while index < fini_plan.0.len()
        invariant
            index <= fini_plan.0@.len(),
            entries@ == entries_of(fini_plan.0@, owner, index as int),
        decreases fini_plan.0@.len() - index,
    {
        if fini_plan.0[index].owner == owner {
            entries.push(fini_plan.0[index]);
        }
        index = index + 1;
    }
    FiniPlan(entries)
}

/// The names of the system libraries among the first `k` images, or `None` where
/// one has no name.
pub open spec fn candidate_names<D>(images: Seq<LinkedImage<D>>, k: int) -> Option<Seq<Seq<u8>>>
    decreases k,
{
    if k <= 0 {
        Some(Seq::empty())
    } else {
        match candidate_names(images, k - 1) {
            None => None,
            Some(names) => if images[k - 1].ownership != ImageOwnership::SystemCandidate {
                Some(names)
            } else {
                match images[k - 1].soname {
                    Some(name) => Some(names.push(name@)),
                    None => None,
                }
            },
        }
    }
}

/// Names with the memory of their libraries, as far as there is memory.
pub open spec fn pairs_of(names: Seq<Seq<u8>>, allocations: Seq<AllocationLease>) -> Seq<
    (Seq<u8>, AllocationLease),
> {
    Seq::new(
        if names.len() < allocations.len() {
            names.len()
        } else {
            allocations.len()
        },
        |i: int| (names[i], allocations[i]),
    )
}

/// The contents of some pairs.
pub open spec fn pair_views(pairs: Seq<(DependencyName, AllocationLease)>) -> Seq<
    (Seq<u8>, AllocationLease),
> {
    Seq::new(pairs.len(), |i: int| (pairs[i].0@, pairs[i].1))
}

/// The first pair from `from` on with this name.
pub open spec fn pair_from(pairs: Seq<(Seq<u8>, AllocationLease)>, key: Seq<u8>, from: int) -> Option<
    int,
>
    decreases pairs.len() - from,
{
    if from >= pairs.len() {
        None
    } else if pairs[from].0 == key {
        Some(from)
    } else {
        pair_from(pairs, key, from + 1)
    }
}

/// Whether an image is the system library of this name.
pub open spec fn is_library<D>(image: LinkedImage<D>, name: Seq<u8>) -> bool {
    image.ownership == ImageOwnership::SystemCandidate && match image.soname {
        Some(own) => own@ == name,
        None => false,
    }
}

/// The first system library from `from` on of this name.
pub open spec fn library_from<D>(images: Seq<LinkedImage<D>>, name: Seq<u8>, from: int) -> Option<int>
    decreases images.len() - from,
{
    if from >= images.len() {
        None
    } else if is_library(images[from], name) {
        Some(from)
    } else {
        library_from(images, name, from + 1)
    }
}

/// The destructors of an image: those of the first plan from `from` on that is its
/// own, or none.
pub open spec fn destructors_of(plans: Seq<SystemFiniPlan>, owner: ImageId, from: int) -> Seq<
    LifecycleEntry,
>
    decreases plans.len() - from,
{
    if from >= plans.len() {
        Seq::empty()
    } else if plans[from].owner == owner {
        plans[from].plan.0@
    } else {
        destructors_of(plans, owner, from + 1)
    }
}

/// Whether `backing` is what the registry takes over of an image and its memory.
pub open spec fn backs<D: Clone>(
    backing: BackingView<D>,
    image: LinkedImage<D>,
    plans: Seq<SystemFiniPlan>,
    allocation: AllocationLease,
) -> bool {
    &&& cloned::<D>(image.descriptor, backing.descriptor)
    &&& backing.fini_plan == destructors_of(plans, image.owner, 0)
    &&& backing.allocation == allocation
    &&& backing.dependency_names == name_views(image.dependency_names@)
    &&& backing.dependencies.len() == 0
    &&& backing.scc_members == name_views(image.scc_members@)
    &&& backing.keep_cached == image.keep_cached
}

/// How far a hand-off has come: the registry, the memory that is left, and the
/// libraries that are relocated.
#[verifier::ext_equal]
pub struct Progress<D> {
    pub view: RegistryView<D>,
    pub pairs: Seq<(Seq<u8>, AllocationLease)>,
    pub relocated: Seq<RelocatedPermit>,
}

/// Whether a permit is the one for a library that is being loaded.
pub open spec fn loading<D>(view: RegistryView<D>, permit: LoadPermit) -> bool {
    current(view, permit.slot, permit.generation) && view.slots[permit.slot as int].state
        is Loading
}

/// Where a hand-off stands after its first `k` permits.
pub open spec fn advanced<D>(start: Progress<D>, permits: Seq<SystemCandidatePermit>, k: int) -> Progress<
    D,
>
    decreases k,
{
    if k <= 0 {
        start
    } else {
        let at = advanced(start, permits, k - 1);
        let permit = permits[k - 1].permit;
        let slot = permit.slot as int;
        Progress {
            view: with_state(at.view, slot, StateView::Relocated),
            pairs: swap_removed(at.pairs, pair_from(at.pairs, permits[k - 1].key@, 0)->0),
            relocated: at.relocated.push(
                RelocatedPermit { slot: permit.slot, generation: permit.generation },
            ),
        }
    }
}

/// The failure of a permit when its turn comes, if it has one: nothing was loaded
/// under its name, or it is no longer current.
pub open spec fn refusal<D>(at: Progress<D>, permit: SystemCandidatePermit) -> Option<LoadError> {
    if pair_from(at.pairs, permit.key@, 0) is None {
        Some(backend())
    } else if !loading(at.view, permit.permit) {
        Some(stale())
    } else {
        None
    }
}

/// The first permit from `from` on that fails.
pub open spec fn first_refused<D>(
    start: Progress<D>,
    permits: Seq<SystemCandidatePermit>,
    from: int,
) -> Option<int>
    decreases permits.len() - from,
{
    if from >= permits.len() {
        None
    } else if refusal(advanced(start, permits, from), permits[from]) is Some {
        Some(from)
    } else {
        first_refused(start, permits, from + 1)
    }
}

/// The registry after the loads from `from` on are cancelled, up to `to`.
pub open spec fn loads_cancelled<D>(
    view: RegistryView<D>,
    permits: Seq<SystemCandidatePermit>,
    from: int,
    to: int,
) -> RegistryView<D>
    decreases to - from,
{
    if to <= from {
        view
    } else {
        crate::application::registry::load_cancelled(
            loads_cancelled(view, permits, from, to - 1),
            permits[to - 1].permit,
        )
    }
}

/// The backing that goes with permit `i`.
pub open spec fn backs_permit<D: Clone>(
    backing: BackingView<D>,
    start: Progress<D>,
    permits: Seq<SystemCandidatePermit>,
    images: Seq<LinkedImage<D>>,
    plans: Seq<SystemFiniPlan>,
    i: int,
) -> bool {
    let at = advanced(start, permits, i);
    let name = permits[i].key@;
    backs(
        backing,
        images[library_from(images, name, 0)->0],
        plans,
        at.pairs[pair_from(at.pairs, name, 0)->0].1,
    )
}

/// Whether a hand-off is done, with the registry before and after.
pub open spec fn handed_off<D: Clone>(
    before: RegistryView<D>,
    permits: Seq<SystemCandidatePermit>,
    images: Seq<LinkedImage<D>>,
    plans: Seq<SystemFiniPlan>,
    allocations: Seq<AllocationLease>,
    r: LoadResult<SystemInitBatch>,
    after: RegistryView<D>,
) -> bool {
    let n = permits.len() as int;
    let names = candidate_names(images, images.len() as int);
    let pairs = pairs_of(names->0, allocations);
    let start = Progress { view: before, pairs, relocated: Seq::empty() };
    if names is None || pairs.len() != n {
        &&& r == Err::<SystemInitBatch, LoadError>(backend())
        &&& after == loads_cancelled(before, permits, 0, n)
    } else {
        match first_refused(start, permits, 0) {
            Some(k) => {
                let at = advanced(start, permits, k);
                &&& r == Err::<SystemInitBatch, LoadError>(refusal(at, permits[k])->0)
                &&& after == relocations_cancelled(
                    loads_cancelled(at.view, permits, k, n),
                    at.relocated,
                    0,
                    k,
                )
            },
            None => {
                let at = advanced(start, permits, n);
                exists|backings: Seq<BackingView<D>>|
                    #![trigger batch_published(at.view, at.relocated, backings, r, after)]
                    {
                        &&& backings.len() == n
                        &&& forall|i: int|
                            0 <= i < n ==> backs_permit(
                                #[trigger] backings[i],
                                start,
                                permits,
                                images,
                                plans,
                                i,
                            )
                        &&& batch_published(at.view, at.relocated, backings, r, after)
                    }
            },
        }
    }
}

/// The names of the system libraries of a link.
fn list_candidates<D>(images: &Vec<LinkedImage<D>>) -> (r: Option<Vec<DependencyName>>)
    ensures
        match candidate_names(images@, images@.len() as int) {
            Some(names) => r matches Some(found) && name_views(found@) == names,
            None => r is None,
        },
{
    let mut names: Vec<DependencyName> = Vec::new();
    let mut index: usize = 0;
    assert(name_views(names@) =~= Seq::<Seq<u8>>::empty());
    while index < images.len()
        invariant
            index <= images@.len(),
            candidate_names(images@, index as int) == Some(name_views(names@)),
        decreases images@.len() - index,
    {
        if images[index].ownership == ImageOwnership::SystemCandidate {
            match &images[index].soname {
                Some(name) => {
                    let ghost before = name_views(names@);
                    names.push(name.clone());
                    assert(name_views(names@) =~= before.push(name@));
                },
                None => {
                    proof {
                        lemma_nameless(images@, index + 1, images@.len() as int);
                    }
                    return None;
                },
            }
        }
        index = index + 1;
    }
    Some(names)
}

proof fn lemma_nameless<D>(images: Seq<LinkedImage<D>>, k: int, n: int)
    requires
        candidate_names(images, k) is None,
        k <= n,
    ensures
        candidate_names(images, n) is None,
    decreases n - k,
{
    if k < n {
        lemma_nameless(images, k, n - 1);
    }
}

/// Every name of a system library belongs to an image.
proof fn lemma_named_library<D>(images: Seq<LinkedImage<D>>, k: int, name: Seq<u8>)
    requires
        0 <= k <= images.len(),
        candidate_names(images, k) is Some,
        (candidate_names(images, k)->0).contains(name),
    ensures
        library_from(images, name, 0) is Some,
        0 <= library_from(images, name, 0)->0 < images.len(),
    decreases k,
{
    if k > 0 {
        let names = candidate_names(images, k)->0;
        let fewer = candidate_names(images, k - 1)->0;
        if is_library(images[k - 1], name) {
            lemma_library_from(images, name, 0, k - 1);
        } else {
            let i = choose|i: int| 0 <= i < names.len() && names[i] == name;
            assert(fewer[i] == name);
            lemma_named_library(images, k - 1, name);
        }
    }
}

proof fn lemma_library_from<D>(images: Seq<LinkedImage<D>>, name: Seq<u8>, from: int, at: int)
    requires
        0 <= from <= at < images.len(),
        is_library(images[at], name),
    ensures
        library_from(images, name, from) is Some,
        from <= library_from(images, name, from)->0 <= at,
    decreases at - from,
{
    if !is_library(images[from], name) {
        lemma_library_from(images, name, from + 1, at);
    }
}

/// The names of pairs are names of system libraries.
pub open spec fn names_known(pairs: Seq<(Seq<u8>, AllocationLease)>, names: Seq<Seq<u8>>) -> bool {
    forall|i: int| 0 <= i < pairs.len() ==> names.contains((#[trigger] pairs[i]).0)
}

fn find_library<D>(images: &Vec<LinkedImage<D>>, name: &DependencyName) -> (r: Option<usize>)
    ensures
        match library_from(images@, name@, 0) {
            Some(i) => r matches Some(found) && found == i && i < images@.len(),
            None => r is None,
        },
{
    let mut index: usize = 0;
    while index < images.len()
        invariant
            index <= images@.len(),
            library_from(images@, name@, 0) == library_from(images@, name@, index as int),
        decreases images@.len() - index,
    {
        if images[index].ownership == ImageOwnership::SystemCandidate {
            if let Some(own) = &images[index].soname {
                if own.same(name) {
                    return Some(index);
                }
            }
        }
        index = index + 1;
    }
    None
}

fn take_pair(pairs: &mut Vec<(DependencyName, AllocationLease)>, key: &DependencyName) -> (r: Option<
    AllocationLease,
>)
    ensures
        match pair_from(pair_views(old(pairs)@), key@, 0) {
            Some(i) => {
                &&& 0 <= i < old(pairs)@.len()
                &&& r == Some(old(pairs)@[i].1)
                &&& old(pairs)@[i].0@ == key@
                &&& pair_views(final(pairs)@) == swap_removed(pair_views(old(pairs)@), i)
            },
            None => r is None && *final(pairs) == *old(pairs),
        },
{
    let ghost before = pair_views(pairs@);
    let mut index: usize = 0;
    while index < pairs.len()
        invariant
            *pairs == *old(pairs),
            before == pair_views(pairs@),
            index <= before.len(),
            pair_from(before, key@, 0) == pair_from(before, key@, index as int),
        decreases before.len() - index,
    {
        assert(before[index as int] == (pairs@[index as int].0@, pairs@[index as int].1));
        if pairs[index].0.same(key) {
            let taken = pairs.swap_remove(index);
            assert(pair_views(pairs@) =~= swap_removed(before, index as int));
            return Some(taken.1);
        }
        index = index + 1;
    }
    None
}

fn own_destructors(plans: &Vec<SystemFiniPlan>, owner: ImageId) -> (r: FiniPlan)
    ensures
        r.0@ == destructors_of(plans@, owner, 0),
{
    let mut index: usize = 0;
    while index < plans.len()
        invariant
            index <= plans@.len(),
            destructors_of(plans@, owner, 0) == destructors_of(plans@, owner, index as int),
        decreases plans@.len() - index,
    {
        if plans[index].owner == owner {
            return duplicate_plan(&plans[index].plan);
        }
        index = index + 1;
    }
    FiniPlan(Vec::new())
}

fn copy_names(names: &Vec<DependencyName>) -> (r: Vec<DependencyName>)
    ensures
        name_views(r@) == name_views(names@),
{
    let mut out: Vec<DependencyName> = Vec::new();
    let mut index: usize = 0;
    while index < names.len()
        invariant
            index <= names@.len(),
            name_views(out@) == name_views(names@).subrange(0, index as int),
        decreases names@.len() - index,
    {
        let ghost before = name_views(out@);
        out.push(names[index].clone());
        assert(name_views(out@) =~= before.push(names@[index as int]@));
        assert(name_views(names@).subrange(0, index + 1) =~= name_views(names@).subrange(
            0,
            index as int,
        ).push(names@[index as int]@));
        index = index + 1;
    }
    assert(name_views(names@).subrange(0, index as int) =~= name_views(names@));
    out
}

fn pair_up(names: Vec<DependencyName>, allocations: Vec<AllocationLease>) -> (r: Vec<
    (DependencyName, AllocationLease),
>)
    ensures
        pair_views(r@) == pairs_of(name_views(names@), allocations@),
{
    let ghost all_names = names@;
    let ghost all = allocations@;
    let ghost pairs = pairs_of(name_views(names@), allocations@);
    let mut names = names;
    let mut allocations = allocations;
    let mut out: Vec<(DependencyName, AllocationLease)> = Vec::new();
    let ghost mut done: int = 0;
    assert(names@ =~= all_names.subrange(0, all_names.len() as int));
    assert(allocations@ =~= all.subrange(0, all.len() as int));
    assert(pair_views(out@) =~= pairs.subrange(0, 0));
    while names.len() > 0 && allocations.len() > 0
        invariant
            0 <= done <= all_names.len(),
            done <= all.len(),
            names@ == all_names.subrange(done, all_names.len() as int),
            allocations@ == all.subrange(done, all.len() as int),
            pairs == pairs_of(name_views(all_names), all),
            pair_views(out@) == pairs.subrange(0, done),
        decreases names@.len(),
    {
        let name: DependencyName = names.remove(0);
        let allocation: AllocationLease = allocations.remove(0);
        let ghost before = pair_views(out@);
        out.push((name, allocation));
        proof {
            assert(pairs[done] == (all_names[done]@, all[done]));
            assert(pair_views(out@) =~= before.push(pairs[done]));
            assert(pairs.subrange(0, done + 1) =~= pairs.subrange(0, done).push(pairs[done]));
            assert(names@ =~= all_names.subrange(done + 1, all_names.len() as int));
            assert(allocations@ =~= all.subrange(done + 1, all.len() as int));
            done = done + 1;
        }
    }
    assert(pairs.subrange(0, done) =~= pairs);
    out
}

impl<D> SystemDsoRegistry<D> {
    fn cancel_candidates(
        &mut self,
        waiting: Vec<SystemCandidatePermit>,
        Ghost(all): Ghost<Seq<SystemCandidatePermit>>,
        Ghost(from): Ghost<int>,
    )
        requires
            0 <= from <= all.len(),
            waiting@ == all.subrange(from, all.len() as int),
        ensures
            final(self)@ == loads_cancelled(old(self)@, all, from, all.len() as int),
    {
        let ghost before = self@;
        let mut waiting = waiting;
        let ghost mut done: int = from;
        while waiting.len() > 0
            invariant
                from <= done <= all.len(),
                0 <= from,
                waiting@ == all.subrange(done, all.len() as int),
                self@ == loads_cancelled(before, all, from, done),
            decreases waiting@.len(),
        {
            let candidate: SystemCandidatePermit = waiting.remove(0);
            assert(candidate == all[done]);
            self.cancel_load(candidate.permit);
            proof {
                assert(waiting@ =~= all.subrange(done + 1, all.len() as int));
                done = done + 1;
            }
        }
    }
}

proof fn lemma_skip_cancelled<D>(
    view: RegistryView<D>,
    permits: Seq<SystemCandidatePermit>,
    from: int,
    to: int,
)
    requires
        0 <= from < to <= permits.len(),
        crate::application::registry::load_cancelled(view, permits[from].permit) == view,
    ensures
        loads_cancelled(view, permits, from, to) == loads_cancelled(view, permits, from + 1, to),
    decreases to - from,
{
    if from + 1 < to {
        lemma_skip_cancelled(view, permits, from, to - 1);
    } else {
        assert(loads_cancelled(view, permits, from, to - 1) == view);
    }
}

/// Hands the system libraries of a published link over to the registry.
///
/// Every library needs a name, and there is one permit for each library with
/// memory. A permit takes the memory that was loaded under its name. Where anything
/// does not fit, no library is handed over: the loads that were not used are
/// cancelled, and then the libraries that were relocated.
pub fn hand_off<D: Clone>(
    registry: &mut SystemDsoRegistry<D>,
    permits: Vec<SystemCandidatePermit>,
    images: &Vec<LinkedImage<D>>,
    plans: &Vec<SystemFiniPlan>,
    allocations: Vec<AllocationLease>,
) -> (r: LoadResult<SystemInitBatch>)
    ensures
        handed_off(
            old(registry)@,
            permits@,
            images@,
            plans@,
            allocations@,
            r,
            final(registry)@,
        ),
{
    let ghost all = permits@;
    let ghost n = all.len() as int;
    let ghost before = registry@;
    assert(permits@ =~= all.subrange(0, n));
    let names: Vec<DependencyName> = match list_candidates(images) {
        Some(names) => names,
        None => {
            registry.cancel_candidates(permits, Ghost(all), Ghost(0));
            return Err(backend_error());
        },
    };
    let ghost known = name_views(names@);
    let mut pairs = pair_up(names, allocations);
    if permits.len() != pairs.len() {
        assert(pair_views(pairs@).len() == pairs@.len());
        registry.cancel_candidates(permits, Ghost(all), Ghost(0));
        return Err(backend_error());
    }
    let ghost start = Progress {
        view: before,
        pairs: pair_views(pairs@),
        relocated: Seq::<RelocatedPermit>::empty(),
    };
    let mut waiting = permits;
    let mut relocated: Vec<RelocatedPermit> = Vec::new();
    let mut backings: Vec<SystemCandidateBacking<D>> = Vec::new();
    let ghost mut done: int = 0;
    assert(pair_views(pairs@).len() == pairs@.len());
    assert(names_known(pair_views(pairs@), known)) by {
        assert forall|i: int| 0 <= i < pair_views(pairs@).len() implies known.contains(
            (#[trigger] pair_views(pairs@)[i]).0,
        ) by {
            assert(known[i] == pair_views(pairs@)[i].0);
        }
    }
    while waiting.len() > 0
        invariant
            0 <= done <= n == all.len(),
            all == permits@,
            before == old(registry)@,
            waiting@ == all.subrange(done, n),
            candidate_names(images@, images@.len() as int) == Some(known),
            start.view == before,
            start.pairs == pairs_of(known, allocations@),
            start.relocated == Seq::<RelocatedPermit>::empty(),
            start.pairs.len() == n,
            first_refused(start, all, 0) == first_refused(start, all, done),
            advanced(start, all, done) == (Progress {
                view: registry@,
                pairs: pair_views(pairs@),
                relocated: relocated@,
            }),
            names_known(pair_views(pairs@), known),
            relocated@.len() == done,
            backings@.len() == done,
            forall|i: int|
                0 <= i < done ==> backs_permit(
                    (#[trigger] backings@[i])@,
                    start,
                    all,
                    images@,
                    plans@,
                    i,
                ),
        decreases waiting@.len(),
    {
        let ghost at = advanced(start, all, done);
        let ghost held = pairs@;
        assert(waiting@[0] == all[done]);
        let allocation: AllocationLease = match take_pair(&mut pairs, &waiting[0].key) {
            Some(allocation) => allocation,
            None => {
                registry.cancel_candidates(waiting, Ghost(all), Ghost(done));
                registry.cancel_all_relocated(relocated);
                return Err(backend_error());
            },
        };
        let ghost name = all[done].key@;
        let ghost taken = pair_from(at.pairs, name, 0)->0;
        proof {
            assert(at.pairs[taken] == (held[taken].0@, held[taken].1));
            assert(known.contains(at.pairs[taken].0));
            lemma_named_library(images@, images@.len() as int, name);
        }
        let candidate: SystemCandidatePermit = waiting.remove(0);
        assert(candidate == all[done]);
        assert(waiting@ =~= all.subrange(done + 1, n));
        let image: usize = match find_library(images, &candidate.key) {
            Some(image) => image,
            None => return Err(backend_error()),
        };
        let ghost view = registry@;
        match registry.publish_relocated(candidate.permit) {
            Ok(permit) => {
                relocated.push(permit);
            },
            Err(error) => {
                registry.cancel_candidates(waiting, Ghost(all), Ghost(done + 1));
                proof {
                    lemma_skip_cancelled(view, all, done, n);
                }
                registry.cancel_all_relocated(relocated);
                return Err(error);
            },
        }
        let backing = SystemCandidateBacking {
            descriptor: images[image].descriptor.clone(),
            fini_plan: own_destructors(plans, images[image].owner),
            allocation,
            dependency_names: copy_names(&images[image].dependency_names),
            dependencies: Vec::new(),
            scc_members: copy_names(&images[image].scc_members),
            keep_cached: images[image].keep_cached,
        };
        proof {
            assert(backs(backing@, images@[image as int], plans@, at.pairs[taken].1));
            assert(backs_permit(backing@, start, all, images@, plans@, done));
        }
        let ghost earlier = backings@;
        backings.push(backing);
        proof {
            assert forall|i: int| 0 <= i < done + 1 implies backs_permit(
                (#[trigger] backings@[i])@,
                start,
                all,
                images@,
                plans@,
                i,
            ) by {
                if i < done {
                    assert(backings@[i] == earlier[i]);
                }
            }
            assert(names_known(pair_views(pairs@), known)) by {
                assert forall|i: int| 0 <= i < pair_views(pairs@).len() implies known.contains(
                    (#[trigger] pair_views(pairs@)[i]).0,
                ) by {
                    assert(pair_views(pairs@)[i] == at.pairs[i] || pair_views(pairs@)[i]
                        == at.pairs.last());
                }
            }
            done = done + 1;
        }
    }
    let ghost given = backing_views(backings@);
    proof {
        assert forall|i: int| 0 <= i < n implies backs_permit(
            #[trigger] given[i],
            start,
            all,
            images@,
            plans@,
            i,
        ) by {
            assert(given[i] == backings@[i]@);
        }
    }
    let r = registry.publish_relocated_batch(relocated, backings);
    proof {
        let at = advanced(start, all, n);
        assert(batch_published(at.view, at.relocated, given, r, registry@));
        assert(first_refused(start, all, 0) is None);
        assert(start =~= Progress {
            view: before,
            pairs: pairs_of(known, allocations@),
            relocated: Seq::<RelocatedPermit>::empty(),
        });
    }
    r
}

/// The plan of a system library is the part of the link's plan that is its own: entry `j`
/// of it is the `j`-th entry of the link's plan with that owner.
pub proof fn library_plans_keep_the_order_of_the_link(
    entries: Seq<LifecycleEntry>,
    owner: ImageId,
    k: int,
) -> (places: Seq<int>)
    requires
        0 <= k <= entries.len(),
    ensures
        are_places(places, k, |i: int| entries[i].owner == owner),
        entries_of(entries, owner, k).len() == places.len(),
        forall|j: int|
            0 <= j < places.len() ==> entries_of(entries, owner, k)[j]
                == entries[#[trigger] places[j]],
    decreases k,
{
    let wanted = |i: int| entries[i].owner == owner;
    if k <= 0 {
        Seq::empty()
    } else {
        let before = library_plans_keep_the_order_of_the_link(entries, owner, k - 1);
        lemma_next_place(before, k - 1, wanted)
    }
}

/// There is a plan for every system library that the link loads, and for no other image,
/// in the order of the images.
pub proof fn plans_are_those_of_the_loaded_libraries<D>(
    images: Seq<LinkedImage<D>>,
    k: int,
) -> (places: Seq<
    int,
>)
    requires
        0 <= k <= images.len(),
    ensures
        are_places(places, k, |i: int| images[i].ownership is SystemCandidate),
        candidate_owners(images, k).len() == places.len(),
        forall|j: int|
            0 <= j < places.len() ==> candidate_owners(images, k)[j]
                == images[#[trigger] places[j]].owner,
    decreases k,
{
    let wanted = |i: int| images[i].ownership is SystemCandidate;
    if k <= 0 {
        Seq::empty()
    } else {
        let before = plans_are_those_of_the_loaded_libraries(images, k - 1);
        lemma_next_place(before, k - 1, wanted)
    }
}

/// The libraries of a hand-off have the names of the system libraries that the link
/// loads, in the order of the images; there is none where such an image has no name.
pub proof fn handed_names_are_those_of_the_loaded_libraries<D>(
    images: Seq<LinkedImage<D>>,
    k: int,
) -> (places: Seq<int>)
    requires
        0 <= k <= images.len(),
    ensures
        are_places(places, k, |i: int| images[i].ownership is SystemCandidate),
        match candidate_names(images, k) {
            Some(names) => {
                &&& names.len() == places.len()
                &&& forall|j: int|
                    0 <= j < places.len() ==> images[#[trigger] places[j]].soname is Some
                        && names[j] == (images[places[j]].soname->0)@
            },
            None => exists|i: int|
                0 <= i < k && (#[trigger] images[i]).ownership is SystemCandidate
                    && images[i].soname is None,
        },
    decreases k,
{
    let wanted = |i: int| images[i].ownership is SystemCandidate;
    if k <= 0 {
        Seq::empty()
    } else {
        let before = handed_names_are_those_of_the_loaded_libraries(images, k - 1);
        if candidate_names(images, k) is None && candidate_names(images, k - 1) is Some {
            assert(images[k - 1].soname is None);
        }
        lemma_next_place(before, k - 1, wanted)
    }
}

proof fn lemma_pair_from(pairs: Seq<(Seq<u8>, AllocationLease)>, key: Seq<u8>, from: int)
    requires
        0 <= from,
    ensures
        pair_from(pairs, key, from) matches Some(i) ==> from <= i < pairs.len() && pairs[i].0
            == key,
    decreases pairs.len() - from,
{
    if from < pairs.len() {
        lemma_pair_from(pairs, key, from + 1);
    }
}

proof fn lemma_pairs_left<D>(
    start: Progress<D>,
    permits: Seq<SystemCandidatePermit>,
    k: int,
    p: int,
)
    requires
        0 <= k <= permits.len(),
        forall|i: int|
            0 <= i < k ==> pair_from(
                advanced(start, permits, i).pairs,
                (#[trigger] permits[i]).key@,
                0,
            ) is Some,
        0 <= p < advanced(start, permits, k).pairs.len(),
    ensures
        start.pairs.contains(advanced(start, permits, k).pairs[p]),
    decreases k,
{
    if k > 0 {
        let at = advanced(start, permits, k - 1);
        let taken = pair_from(at.pairs, permits[k - 1].key@, 0)->0;
        lemma_pair_from(at.pairs, permits[k - 1].key@, 0);
        let left = advanced(start, permits, k).pairs;
        if p == taken {
            lemma_pairs_left(start, permits, k - 1, at.pairs.len() - 1);
        } else {
            lemma_pairs_left(start, permits, k - 1, p);
        }
    }
}

proof fn lemma_found_library<D>(images: Seq<LinkedImage<D>>, name: Seq<u8>, from: int)
    requires
        0 <= from,
    ensures
        library_from(images, name, from) matches Some(i) ==> from <= i < images.len()
            && images[i].ownership is SystemCandidate && images[i].soname is Some && (
        images[i].soname->0)@ == name,
    decreases images.len() - from,
{
    if from < images.len() {
        lemma_found_library(images, name, from + 1);
    }
}

proof fn lemma_not_refused<D>(
    start: Progress<D>,
    permits: Seq<SystemCandidatePermit>,
    from: int,
    i: int,
)
    requires
        0 <= from <= i < permits.len(),
        first_refused(start, permits, from) is None,
    ensures
        refusal(advanced(start, permits, i), permits[i]) is None,
    decreases i - from,
{
    if from < i {
        lemma_not_refused(start, permits, from + 1, i);
    }
}

/// A hand-off gives every library its own: what the registry takes over under the name of
/// permit `i` is a system library of that name, with the memory that was loaded under
/// that name and the destructors of that image.
pub proof fn libraries_are_handed_over_under_their_names<D: Clone>(
    before: RegistryView<D>,
    permits: Seq<SystemCandidatePermit>,
    images: Seq<LinkedImage<D>>,
    plans: Seq<SystemFiniPlan>,
    allocations: Seq<AllocationLease>,
    backing: BackingView<D>,
    i: int,
)
    requires
        candidate_names(images, images.len() as int) is Some,
        0 <= i < permits.len(),
        ({
            let start = Progress {
                view: before,
                pairs: pairs_of(candidate_names(images, images.len() as int)->0, allocations),
                relocated: Seq::empty(),
            };
            &&& first_refused(start, permits, 0) is None
            &&& backs_permit(backing, start, permits, images, plans, i)
        }),
    ensures
        exists|m: int|
            0 <= m < images.len() && (#[trigger] images[m]).ownership is SystemCandidate
                && images[m].soname is Some && (images[m].soname->0)@ == permits[i].key@
                && backing.keep_cached == images[m].keep_cached && backing.fini_plan
                == destructors_of(plans, images[m].owner, 0),
        exists|j: int|
            #![trigger allocations[j]]
            0 <= j < allocations.len() && backing.allocation == allocations[j] && (candidate_names(
                images,
                images.len() as int,
            )->0)[j] == permits[i].key@,
{
    let names = candidate_names(images, images.len() as int)->0;
    let pairs = pairs_of(names, allocations);
    let start = Progress { view: before, pairs, relocated: Seq::empty() };
    let at = advanced(start, permits, i);
    let key = permits[i].key@;
    assert forall|q: int| 0 <= q <= i implies pair_from(
        advanced(start, permits, q).pairs,
        (#[trigger] permits[q]).key@,
        0,
    ) is Some by {
        lemma_not_refused(start, permits, 0, q);
    }
    assert(pair_from(at.pairs, permits[i].key@, 0) is Some);
    lemma_pair_from(at.pairs, key, 0);
    let p = pair_from(at.pairs, key, 0)->0;
    lemma_pairs_left(start, permits, i, p);
    let j = choose|j: int| 0 <= j < pairs.len() && pairs[j] == at.pairs[p];
    assert(pairs[j] == (names[j], allocations[j]));
    assert(names.contains(key));
    lemma_named_library(images, images.len() as int, key);
    lemma_found_library(images, key, 0);
    let m = library_from(images, key, 0)->0;
    assert(images[m].ownership is SystemCandidate);
}

} // verus!
