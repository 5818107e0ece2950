//! What holds over all the steps that resolve one package.
//!
//! A system library that one launch needs many times is taken once: the first step
//! takes its permit or its lease, and the others find it.

use crate::application::package_resolver::{
    candidate_from, package_case, system_opened_as, system_resolved, PackageArtifactResolver,
    PackageCandidate, PackageCase, PackageStep,
};
use crate::application::registry::{
    find_slot, name_views, AcquireBatchOutcome, LoadPermit, PreparedSystemBatch, RegistryView,
    StateView, SystemDsoLease,
};
use crate::application::registry_batch::{
    acquired_sets_are_what_was_asked_for, ascending_names, batch_acquired, import_names, load_names,
};
use crate::application::resolver::{backend, import_from, load_from, swap_removed};
use crate::application::system_paths::{named_from, SystemLibraryEntry};
use crate::application::vfs_reader::{changed, FileSnapshotId};
use crate::bytes::{byte_order_is_total, bytes_before};
use crate::dynamic_linker::artifact::{ArtifactIdentity, DependencyName, LinkDomainId};
use crate::error::{LoadError, LoadResult};
use vstd::prelude::*;

verus! {

/// The system libraries that a launch loads.
pub open spec fn candidate_names(candidates: Seq<PackageCandidate>) -> Seq<Seq<u8>> {
    Seq::new(candidates.len(), |i: int| candidates[i].soname@)
}

/// Whether two lists of names have none in common.
pub open spec fn apart(left: Seq<Seq<u8>>, right: Seq<Seq<u8>>) -> bool {
    forall|i: int, j: int|
        0 <= i < left.len() && 0 <= j < right.len() ==> #[trigger] left[i] != #[trigger] right[j]
}

/// Whether a launch has each system library once: to be loaded, to be imported,
/// loading, or leased.
pub open spec fn held_once<D>(resolver: PackageArtifactResolver<D>) -> bool {
    let loads = load_names(resolver.batch_loads@);
    let imports = import_names(resolver.batch_imports@);
    let loading = candidate_names(resolver.candidates@);
    let leased = name_views(resolver.imported_sonames@);
    &&& loads.no_duplicates()
    &&& imports.no_duplicates()
    &&& loading.no_duplicates()
    &&& leased.no_duplicates()
    &&& apart(loads, imports)
    &&& apart(loads, loading)
    &&& apart(loads, leased)
    &&& apart(imports, loading)
    &&& apart(imports, leased)
    &&& apart(loading, leased)
    &&& resolver.leases@.len() == leased.len()
}

/// Whether the launch claims a library that it opened with a permit.
pub open spec fn claimed<D>(
    before: PackageArtifactResolver<D>,
    after: PackageArtifactResolver<D>,
    needed: Seq<u8>,
    permit: LoadPermit,
) -> bool {
    &&& after.candidates@.len() == before.candidates@.len() + 1
    &&& after.candidates@.drop_last() == before.candidates@
    &&& after.candidates@.last().soname@ == needed
    &&& after.candidates@.last().permit == permit
    &&& after == (PackageArtifactResolver {
        candidates: after.candidates,
        answers: after.answers,
        ..before
    })
}

/// One step of a launch: a system library that is resolved, and claimed where it
/// came with a permit. What is opened or imported may be noted as an answer.
pub open spec fn took<D: Clone>(
    before: PackageArtifactResolver<D>,
    after: PackageArtifactResolver<D>,
    registry: RegistryView<D>,
    registry_after: RegistryView<D>,
    needed: Seq<u8>,
    answer: LoadResult<PackageStep<D>>,
) -> bool {
    match answer {
        Ok(PackageStep::OpenSystem { entry, permit: Some(permit) }) => {
            let resolved = PackageArtifactResolver {
                candidates: before.candidates,
                answers: before.answers,
                ..after
            };
            &&& system_resolved(before, resolved, registry, registry_after, needed, answer)
            &&& claimed(resolved, after, needed, permit)
        },
        Ok(PackageStep::Import(_)) => {
            let resolved = PackageArtifactResolver { answers: before.answers, ..after };
            system_resolved(before, resolved, registry, registry_after, needed, answer)
        },
        _ => system_resolved(before, after, registry, registry_after, needed, answer),
    }
}

/// Whether a launch has all that it had, and no more than notes of its answers.
pub open spec fn took_nothing<D>(
    before: PackageArtifactResolver<D>,
    after: PackageArtifactResolver<D>,
) -> bool {
    after == (PackageArtifactResolver { answers: after.answers, ..before })
}

/// The steps of one launch, each with the library it resolves, the registry before
/// and after, and the answer. Between two steps others may use the registry.
pub struct Taken<D> {
    pub needed: Seq<u8>,
    pub registry: RegistryView<D>,
    pub registry_after: RegistryView<D>,
    pub answer: LoadResult<PackageStep<D>>,
}

/// Whether the steps lead through these states of a launch.
pub open spec fn taken_through<D: Clone>(
    states: Seq<PackageArtifactResolver<D>>,
    steps: Seq<Taken<D>>,
) -> bool {
    &&& states.len() == steps.len() + 1
    &&& forall|k: int|
        0 <= k < steps.len() ==> took(
            states[k],
            states[k + 1],
            (#[trigger] steps[k]).registry,
            steps[k].registry_after,
            steps[k].needed,
            steps[k].answer,
        )
}

/// Whether a launch has a system library open.
pub open spec fn is_loading<D>(resolver: PackageArtifactResolver<D>, needed: Seq<u8>) -> bool {
    candidate_names(resolver.candidates@).contains(needed)
}

/// Whether a launch has leased a system library.
pub open spec fn is_leased<D>(resolver: PackageArtifactResolver<D>, needed: Seq<u8>) -> bool {
    name_views(resolver.imported_sonames@).contains(needed)
}

/// Whether an answer opens the catalog's file of a system library.
pub open spec fn opens<D>(
    resolver: PackageArtifactResolver<D>,
    needed: Seq<u8>,
    answer: LoadResult<PackageStep<D>>,
) -> bool {
    answer matches Ok(PackageStep::OpenSystem { entry, .. }) && *entry
        == resolver.catalog.entries@[named_from(resolver.catalog.entries@, needed, 0)->0]
}

/// Whether an answer imports what the registry has of a ready library, or refuses
/// one that is not ready any more.
pub open spec fn imports_again<D: Clone>(
    resolver: PackageArtifactResolver<D>,
    registry: RegistryView<D>,
    needed: Seq<u8>,
    answer: LoadResult<PackageStep<D>>,
) -> bool {
    let ready = match find_slot(registry.slots, resolver.domain, needed) {
        Some(i) => match registry.slots[i].state {
            StateView::Ready { leases, backing } => Some(backing.descriptor),
            _ => None,
        },
        None => None,
    };
    match ready {
        Some(descriptor) => answer matches Ok(PackageStep::Import(found)) && cloned::<D>(
            descriptor,
            found,
        ),
        None => answer == Err::<PackageStep<D>, LoadError>(backend()),
    }
}

proof fn lemma_candidate_from(candidates: Seq<PackageCandidate>, name: Seq<u8>, from: int)
    requires
        0 <= from <= candidates.len(),
    ensures
        match candidate_from(candidates, name, from) {
            Some(i) => from <= i < candidates.len() && candidates[i].soname@ == name && forall|
                j: int,
            |
                from <= j < i ==> (#[trigger] candidates[j]).soname@ != name,
            None => forall|i: int|
                from <= i < candidates.len() ==> (#[trigger] candidates[i]).soname@ != name,
        },
    decreases candidates.len() - from,
{
    if from < candidates.len() && candidates[from].soname@ != name {
        lemma_candidate_from(candidates, name, from + 1);
    }
}

proof fn lemma_load_from(loads: Seq<(DependencyName, LoadPermit)>, name: Seq<u8>, from: int)
    requires
        0 <= from <= loads.len(),
    ensures
        match load_from(loads, name, from) {
            Some(i) => from <= i < loads.len() && loads[i].0@ == name,
            None => forall|i: int| from <= i < loads.len() ==> (#[trigger] loads[i]).0@ != name,
        },
    decreases loads.len() - from,
{
    if from < loads.len() && loads[from].0@ != name {
        lemma_load_from(loads, name, from + 1);
    }
}

proof fn lemma_import_from<D>(
    imports: Seq<(DependencyName, SystemDsoLease, D)>,
    name: Seq<u8>,
    from: int,
)
    requires
        0 <= from <= imports.len(),
    ensures
        match import_from(imports, name, from) {
            Some(i) => from <= i < imports.len() && imports[i].0@ == name,
            None => forall|i: int| from <= i < imports.len() ==> (#[trigger] imports[i]).0@ != name,
        },
    decreases imports.len() - from,
{
    if from < imports.len() && imports[from].0@ != name {
        lemma_import_from(imports, name, from + 1);
    }
}

/// What is left of some distinct names when one is taken out.
proof fn lemma_taken_out(names: Seq<Seq<u8>>, i: int)
    requires
        names.no_duplicates(),
        0 <= i < names.len(),
    ensures
        swap_removed(names, i).no_duplicates(),
        forall|k: int|
            0 <= k < swap_removed(names, i).len() ==> names.contains(
                #[trigger] swap_removed(names, i)[k],
            ) && swap_removed(names, i)[k] != names[i],
{
    let rest = swap_removed(names, i);
    assert forall|k: int| 0 <= k < rest.len() implies names.contains(#[trigger] rest[k]) && rest[k]
        != names[i] by {
        if k == i {
            assert(rest[k] == names[names.len() - 1]);
        } else {
            assert(rest[k] == names[k]);
        }
    }
}

proof fn lemma_apart_less(whole: Seq<Seq<u8>>, less: Seq<Seq<u8>>, other: Seq<Seq<u8>>)
    requires
        apart(whole, other),
        forall|k: int| 0 <= k < less.len() ==> whole.contains(#[trigger] less[k]),
    ensures
        apart(less, other),
{
    assert forall|i: int, j: int| 0 <= i < less.len() && 0 <= j < other.len() implies
        #[trigger] less[i] != #[trigger] other[j] by {
        let k = whole.index_of(less[i]);
        assert(whole[k] == less[i]);
    }
}

proof fn lemma_apart_more(left: Seq<Seq<u8>>, right: Seq<Seq<u8>>, name: Seq<u8>)
    requires
        apart(left, right),
        !left.contains(name),
    ensures
        apart(left, right.push(name)),
{
    assert forall|i: int, j: int| 0 <= i < left.len() && 0 <= j < right.push(name).len() implies
        #[trigger] left[i] != #[trigger] right.push(name)[j] by {
        if j == right.len() {
            assert(left.contains(left[i]));
        } else {
            assert(right.push(name)[j] == right[j]);
        }
    }
}

proof fn lemma_apart_swap(left: Seq<Seq<u8>>, right: Seq<Seq<u8>>)
    requires
        apart(left, right),
    ensures
        apart(right, left),
{
}

proof fn lemma_distinct_more(names: Seq<Seq<u8>>, name: Seq<u8>)
    requires
        names.no_duplicates(),
        !names.contains(name),
    ensures
        names.push(name).no_duplicates(),
{
    assert forall|i: int, j: int|
        0 <= i < names.push(name).len() && 0 <= j < names.push(name).len() && i != j implies
        names.push(name)[i] != names.push(name)[j] by {
        if i < names.len() {
            assert(names.contains(names[i]));
        }
        if j < names.len() {
            assert(names.contains(names[j]));
        }
    }
}

/// Where a launch has a library, in terms of its lists.
proof fn lemma_where<D>(resolver: PackageArtifactResolver<D>, needed: Seq<u8>)
    ensures
        candidate_from(resolver.candidates@, needed, 0) is Some <==> is_loading(resolver, needed),
        match load_from(resolver.batch_loads@, needed, 0) {
            Some(i) => 0 <= i < resolver.batch_loads@.len() && load_names(
                resolver.batch_loads@,
            )[i] == needed,
            None => !load_names(resolver.batch_loads@).contains(needed),
        },
        match import_from(resolver.batch_imports@, needed, 0) {
            Some(i) => 0 <= i < resolver.batch_imports@.len() && import_names(
                resolver.batch_imports@,
            )[i] == needed,
            None => !import_names(resolver.batch_imports@).contains(needed),
        },
{
    lemma_candidate_from(resolver.candidates@, needed, 0);
    lemma_load_from(resolver.batch_loads@, needed, 0);
    lemma_import_from(resolver.batch_imports@, needed, 0);
    if let Some(i) = candidate_from(resolver.candidates@, needed, 0) {
        assert(candidate_names(resolver.candidates@)[i] == needed);
    }
}

/// One step keeps what a launch has, and has each library once.
#[verifier::spinoff_prover]
proof fn lemma_step<D: Clone>(
    before: PackageArtifactResolver<D>,
    after: PackageArtifactResolver<D>,
    step: Taken<D>,
)
    requires
        held_once(before),
        took(before, after, step.registry, step.registry_after, step.needed, step.answer),
    ensures
        held_once(after),
        forall|name: Seq<u8>| #[trigger] is_loading(before, name) ==> is_loading(after, name),
        forall|name: Seq<u8>| #[trigger] is_leased(before, name) ==> is_leased(after, name),
        step.answer matches Ok(PackageStep::OpenSystem { .. }) ==> is_loading(after, step.needed),
        step.answer matches Ok(PackageStep::Import(_)) ==> is_leased(after, step.needed),
        !(step.answer matches Ok(PackageStep::OpenPrivate(_))),
        after.catalog == before.catalog,
        step.answer matches Ok(PackageStep::OpenSystem { .. }) ==> opens(
            before,
            step.needed,
            step.answer,
        ),
        step.answer is Ok ==> named_from(before.catalog.entries@, step.needed, 0) is Some,
{
    let needed = step.needed;
    let loads = load_names(before.batch_loads@);
    let imports = import_names(before.batch_imports@);
    let loading = candidate_names(before.candidates@);
    let leased = name_views(before.imported_sonames@);
    lemma_where(before, needed);
    match package_case(before, needed) {
        PackageCase::FirstLoad(i) => {
            lemma_taken_out(loads, i);
            let rest = load_names(after.batch_loads@);
            assert(rest =~= swap_removed(loads, i));
            let more = candidate_names(after.candidates@);
            assert(more =~= loading.push(needed)) by {
                assert forall|k: int| 0 <= k < loading.len() implies more[k] == loading[k] by {
                    assert(after.candidates@.drop_last()[k] == before.candidates@[k]);
                }
            }
            assert(!loading.contains(needed) && !imports.contains(needed) && !leased.contains(
                needed,
            ));
            lemma_distinct_more(loading, needed);
            lemma_apart_less(loads, rest, imports);
            lemma_apart_less(loads, rest, loading);
            lemma_apart_less(loads, rest, leased);
            lemma_apart_more(rest, loading, needed);
            lemma_apart_more(imports, loading, needed);
            lemma_apart_swap(loading, leased);
            lemma_apart_more(leased, loading, needed);
            lemma_apart_swap(leased, more);
            assert(more[loading.len() as int] == needed);
            assert forall|name: Seq<u8>| #[trigger] is_loading(before, name) implies is_loading(
                after,
                name,
            ) by {
                let k = loading.index_of(name);
                assert(more[k] == name);
            }
        },
        PackageCase::FirstImport(i) => {
            lemma_taken_out(imports, i);
            let rest = import_names(after.batch_imports@);
            assert(rest =~= swap_removed(imports, i));
            let more = name_views(after.imported_sonames@);
            assert(!loading.contains(needed) && !loads.contains(needed) && !leased.contains(
                needed,
            ));
            lemma_distinct_more(leased, needed);
            lemma_apart_swap(loads, imports);
            lemma_apart_less(imports, rest, loads);
            lemma_apart_swap(rest, loads);
            lemma_apart_less(imports, rest, loading);
            lemma_apart_less(imports, rest, leased);
            lemma_apart_more(loads, leased, needed);
            lemma_apart_more(rest, leased, needed);
            lemma_apart_more(loading, leased, needed);
            assert(more[leased.len() as int] == needed);
            assert forall|name: Seq<u8>| #[trigger] is_leased(before, name) implies is_leased(
                after,
                name,
            ) by {
                let k = leased.index_of(name);
                assert(more[k] == name);
            }
        },
        PackageCase::Ask => {
            let more = name_views(after.imported_sonames@);
            if step.answer matches Ok(PackageStep::Import(_)) {
                lemma_distinct_more(leased, needed);
                lemma_apart_more(loads, leased, needed);
                lemma_apart_more(imports, leased, needed);
                lemma_apart_more(loading, leased, needed);
                assert(more[leased.len() as int] == needed);
                assert forall|name: Seq<u8>| #[trigger] is_leased(before, name) implies is_leased(
                    after,
                    name,
                ) by {
                    let k = leased.index_of(name);
                    assert(more[k] == name);
                }
            }
        },
        _ => {},
    }
}

/// What a launch has, it still has after more steps.
proof fn lemma_steps<D: Clone>(
    states: Seq<PackageArtifactResolver<D>>,
    steps: Seq<Taken<D>>,
    from: int,
    to: int,
)
    requires
        taken_through(states, steps),
        0 <= from <= to <= steps.len(),
        held_once(states[from]),
    ensures
        held_once(states[to]),
        states[to].catalog == states[from].catalog,
        forall|name: Seq<u8>| #[trigger]
            is_loading(states[from], name) ==> is_loading(states[to], name),
        forall|name: Seq<u8>| #[trigger]
            is_leased(states[from], name) ==> is_leased(states[to], name),
    decreases to - from,
{
    if from < to {
        lemma_steps(states, steps, from, to - 1);
        let step = steps[to - 1];
        lemma_step(states[to - 1], states[to], step);
    }
}

/// A library that a launch has is found, and nothing is taken.
proof fn lemma_found<D: Clone>(
    before: PackageArtifactResolver<D>,
    after: PackageArtifactResolver<D>,
    step: Taken<D>,
)
    requires
        held_once(before),
        took(before, after, step.registry, step.registry_after, step.needed, step.answer),
        named_from(before.catalog.entries@, step.needed, 0) is Some,
        is_loading(before, step.needed) || is_leased(before, step.needed),
    ensures
        took_nothing(before, after),
        step.registry_after == step.registry,
        is_loading(before, step.needed) ==> opens(before, step.needed, step.answer) && (
        step.answer matches Ok(PackageStep::OpenSystem { permit, .. }) && permit is None),
        is_leased(before, step.needed) ==> imports_again(
            before,
            step.registry,
            step.needed,
            step.answer,
        ),
{
    let loads = load_names(before.batch_loads@);
    let imports = import_names(before.batch_imports@);
    let loading = candidate_names(before.candidates@);
    let leased = name_views(before.imported_sonames@);
    lemma_where(before, step.needed);
    if is_leased(before, step.needed) {
        assert(!loads.contains(step.needed) && !imports.contains(step.needed)
            && !loading.contains(step.needed)) by {
            let k = leased.index_of(step.needed);
            assert(leased[k] == step.needed);
        }
    }
}

/// A launch that has each system library once to begin with has each once at every
/// step: to be loaded, to be imported, loading, or leased, with one lease for each
/// leased library. A library that a step opened is opened again by every later step
/// that needs it, the same file without a permit; one that a step imported is
/// imported again, or refused where the registry has given it up. Neither later step
/// takes anything from the launch or from the registry.
pub proof fn libraries_are_taken_once<D: Clone>(
    states: Seq<PackageArtifactResolver<D>>,
    steps: Seq<Taken<D>>,
)
    requires
        taken_through(states, steps),
        held_once(states[0]),
    ensures
        forall|k: int| 0 <= k < states.len() ==> held_once(#[trigger] states[k]),
        forall|i: int, j: int|
            0 <= i < j < steps.len() && (#[trigger] steps[i]).needed == (
            #[trigger] steps[j]).needed ==> {
                let again = steps[i].answer matches Ok(PackageStep::OpenSystem { .. });
                let leased = steps[i].answer matches Ok(PackageStep::Import(_));
                &&& again || leased ==> took_nothing(states[j], states[j + 1])
                    && steps[j].registry_after == steps[j].registry
                &&& again ==> match (steps[i].answer, steps[j].answer) {
                    (
                        Ok(PackageStep::OpenSystem { entry: first, .. }),
                        Ok(PackageStep::OpenSystem { entry, permit }),
                    ) => *entry == *first && permit is None,
                    _ => false,
                }
                &&& leased ==> imports_again(
                    states[j],
                    steps[j].registry,
                    steps[j].needed,
                    steps[j].answer,
                )
            },
{
    assert forall|k: int| 0 <= k < states.len() implies held_once(#[trigger] states[k]) by {
        lemma_steps(states, steps, 0, k);
    }
    assert forall|i: int, j: int|
        0 <= i < j < steps.len() && (#[trigger] steps[i]).needed == (
        #[trigger] steps[j]).needed implies {
        let again = steps[i].answer matches Ok(PackageStep::OpenSystem { .. });
        let leased = steps[i].answer matches Ok(PackageStep::Import(_));
        &&& again || leased ==> took_nothing(states[j], states[j + 1]) && steps[j].registry_after
            == steps[j].registry
        &&& again ==> match (steps[i].answer, steps[j].answer) {
            (
                Ok(PackageStep::OpenSystem { entry: first, .. }),
                Ok(PackageStep::OpenSystem { entry, permit }),
            ) => *entry == *first && permit is None,
            _ => false,
        }
        &&& leased ==> imports_again(
            states[j],
            steps[j].registry,
            steps[j].needed,
            steps[j].answer,
        )
    } by {
        lemma_steps(states, steps, 0, i);
        lemma_step(states[i], states[i + 1], steps[i]);
        lemma_steps(states, steps, i + 1, j);
        let again = steps[i].answer matches Ok(PackageStep::OpenSystem { .. });
        let leased = steps[i].answer matches Ok(PackageStep::Import(_));
        if again {
            assert(is_loading(states[i + 1], steps[i].needed));
            assert(is_loading(states[j], steps[j].needed));
            lemma_found(states[j], states[j + 1], steps[j]);
        } else if leased {
            assert(is_leased(states[i + 1], steps[i].needed));
            assert(is_leased(states[j], steps[j].needed));
            lemma_found(states[j], states[j + 1], steps[j]);
        }
    }
}

/// A library that a launch has opened with a permit is, whenever the launch opens it
/// again, the same file with the same identity, or the launch fails because the file
/// has changed.
pub proof fn reopened_libraries_are_the_same_file<D>(
    before: PackageArtifactResolver<D>,
    opened: PackageArtifactResolver<D>,
    later: PackageArtifactResolver<D>,
    after: PackageArtifactResolver<D>,
    needed: Seq<u8>,
    entry: SystemLibraryEntry,
    permit: LoadPermit,
    snapshot: FileSnapshotId,
    again: FileSnapshotId,
    first: LoadResult<ArtifactIdentity>,
    second: LoadResult<ArtifactIdentity>,
)
    requires
        system_opened_as(before, opened, needed, entry, Some(permit), snapshot, first),
        !is_loading(before, needed),
        opened.candidates@.is_prefix_of(later.candidates@),
        system_opened_as(later, after, needed, entry, None, again, second),
    ensures
        after == later,
        first is Ok,
        if again == snapshot {
            second is Ok && second->Ok_0@ == first->Ok_0@
        } else {
            second == Err::<ArtifactIdentity, LoadError>(changed())
        },
{
    let at = before.candidates@.len() as int;
    lemma_candidate_from(later.candidates@, needed, 0);
    let claim = opened.candidates@[at];
    assert(later.candidates@[at] == claim);
    let found = candidate_from(later.candidates@, needed, 0)->0;
    if found < at {
        assert(later.candidates@[found] == opened.candidates@[found]);
        assert(opened.candidates@.drop_last()[found] == before.candidates@[found]);
        assert(candidate_names(before.candidates@)[found] == needed);
    }
}

/// A launch that starts with an acquired set has each library of the set once.
pub proof fn acquired_libraries_are_held_once<D: Clone>(
    before: RegistryView<D>,
    after: RegistryView<D>,
    domain: LinkDomainId,
    names: Seq<Seq<u8>>,
    batch: PreparedSystemBatch<D>,
    resolver: PackageArtifactResolver<D>,
)
    requires
        ascending_names(names),
        batch_acquired(before, after, domain, names, AcquireBatchOutcome::Acquired(batch)),
        resolver.batch_loads == batch.loads,
        resolver.batch_imports == batch.imports,
        resolver.candidates@.len() == 0,
        resolver.leases@.len() == 0,
        resolver.imported_sonames@.len() == 0,
    ensures
        held_once(resolver),
{
    let loads = load_names(batch.loads@);
    let imports = import_names(batch.imports@);
    acquired_sets_are_what_was_asked_for(before, after, domain, names, batch, Seq::empty());
    lemma_ascending_distinct(loads);
    lemma_ascending_distinct(imports);
    assert forall|i: int, j: int| 0 <= i < loads.len() && 0 <= j < imports.len() implies
        #[trigger] loads[i] != #[trigger] imports[j] by {
        acquired_sets_are_what_was_asked_for(before, after, domain, names, batch, loads[i]);
        assert(loads.contains(loads[i]));
        assert(imports.contains(imports[j]));
    }
}

proof fn lemma_ascending_distinct(names: Seq<Seq<u8>>)
    requires
        ascending_names(names),
    ensures
        names.no_duplicates(),
{
    assert forall|i: int, j: int| 0 <= i < j < names.len() implies names[i] != names[j] by {
        assert(bytes_before(names[i], names[j]));
        byte_order_is_total(names[i], names[j]);
    }
}

/// A library that the catalog does not have is refused, and nothing is taken.
pub proof fn unknown_libraries_take_nothing<D: Clone>(
    before: PackageArtifactResolver<D>,
    after: PackageArtifactResolver<D>,
    step: Taken<D>,
)
    requires
        took(before, after, step.registry, step.registry_after, step.needed, step.answer),
        named_from(before.catalog.entries@, step.needed, 0) is None,
    ensures
        step.answer == Err::<PackageStep<D>, LoadError>(backend()),
        after == before,
        step.registry_after == step.registry,
{
}

} // verus!
