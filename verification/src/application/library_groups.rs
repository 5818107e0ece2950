//! What the registry is told of how the system libraries of a link hang together.
//!
//! Libraries that need one another are one group and live and die together. A
//! library that needs one of another group keeps a lease on it.

use crate::application::registry::name_views;
use crate::dynamic_linker::artifact::{DependencyName, ImageId, ImageOwnership};
use crate::dynamic_linker::graph::{
    id_group, id_groups, lemma_reach_is_need, lemma_requester_reaches_provider, needs,
    DependencyEdge, DependencyGraph, DependencyNode,
};
use crate::dynamic_linker::order::{in_some_group, is_dependency_order};
use crate::dynamic_linker::reach::{lemma_reach_edge, mutual, Adjacency};
use crate::sort::{are_places, lemma_next_place};
use vstd::prelude::*;

verus! {

/// How one image of a link hangs together with the others.
pub struct LibraryRelations {
    /// The system libraries outside its own group that it needs.
    pub dependency_names: Vec<DependencyName>,
    /// The system libraries of its own group.
    pub scc_members: Vec<DependencyName>,
}

/// The name under which an image is a system library.
pub open spec fn library_name(node: DependencyNode) -> Option<Seq<u8>> {
    if node.ownership == ImageOwnership::SessionPrivate {
        None
    } else {
        match node.soname {
            Some(name) => Some(name@),
            None => None,
        }
    }
}

/// The system libraries among the first `k` images that `owner` needs and that
/// need it, in the order of the images.
pub open spec fn group_names(graph: DependencyGraph, owner: int, k: int) -> Seq<Seq<u8>>
    decreases k,
{
    if k <= 0 {
        Seq::empty()
    } else {
        let before = group_names(graph, owner, k - 1);
        match library_name(graph.nodes@[k - 1]) {
            Some(name) if mutual(graph.successors(), owner, k - 1) => before.push(name),
            _ => before,
        }
    }
}

/// The system libraries outside its group that `owner` needs by the first `k`
/// edges, each once, in the order in which they are first needed.
pub open spec fn outgoing_names(graph: DependencyGraph, owner: int, k: int) -> Seq<Seq<u8>>
    decreases k,
{
    if k <= 0 {
        Seq::empty()
    } else {
        let before = outgoing_names(graph, owner, k - 1);
        let edge = graph.edges@[k - 1];
        match library_name(graph.nodes@[edge.provider.0 as int]) {
            Some(name) if edge.requester.0 == owner && !mutual(
                graph.successors(),
                owner,
                edge.provider.0 as int,
            ) && !before.contains(name) => before.push(name),
            _ => before,
        }
    }
}

fn lists(group: &Vec<ImageId>, id: u32) -> (r: bool)
    ensures
        r == id_group(group@).contains(id),
{
    let ghost ids = id_group(group@);
    let mut index: usize = 0;
    while index < group.len()
        invariant
            ids == id_group(group@),
            index <= group@.len(),
            forall|i: int| 0 <= i < index ==> #[trigger] ids[i] != id,
        decreases group@.len() - index,
    {
        assert(ids[index as int] == group@[index as int].0);
        if group[index].get() == id {
            return true;
        }
        index = index + 1;
    }
    false
}

/// Whether two images are in one group.
fn together(groups: &Vec<Vec<ImageId>>, adj: Ghost<Adjacency>, first: u32, second: u32) -> (r: bool)
    requires
        is_dependency_order(adj@, id_groups(groups@)),
        first < adj@.len(),
        second < adj@.len(),
    ensures
        r == mutual(adj@, first as int, second as int),
{
    let ghost ids = id_groups(groups@);
    let mut index: usize = 0;
    while index < groups.len()
        invariant
            ids == id_groups(groups@),
            is_dependency_order(adj@, ids),
            first < adj@.len(),
            second < adj@.len(),
            index <= groups@.len(),
            forall|g: int| 0 <= g < index ==> !(#[trigger] ids[g]).contains(first),
        decreases groups@.len() - index,
    {
        assert(ids[index as int] == id_group(groups@[index as int]@));
        if lists(&groups[index], first) {
            let found: bool = lists(&groups[index], second);
            proof {
                assert(in_some_group(ids, second as int));
                let (h, j) = choose|h: int, j: int|
                    0 <= h < ids.len() && 0 <= j < ids[h].len() && #[trigger] ids[h][j]
                        == second as int;
                let i = ids[index as int].index_of(first);
                assert(ids[index as int][i] == first);
                assert(ids[h][j] == second);
                assert(mutual(adj@, first as int, second as int) <==> index == h);
                if found {
                    let k = ids[index as int].index_of(second);
                    assert(ids[index as int][k] == second);
                    assert(mutual(adj@, first as int, second as int) <==> index == index);
                } else {
                    if h == index {
                        assert(ids[index as int].contains(ids[h][j]));
                    }
                }
            }
            return found;
        }
        index = index + 1;
    }
    proof {
        assert(in_some_group(ids, first as int));
        let (g, i) = choose|g: int, i: int|
            0 <= g < ids.len() && 0 <= i < ids[g].len() && #[trigger] ids[g][i] == first as int;
        assert(ids[g].contains(ids[g][i]));
        assert(!ids[g].contains(first));
    }
    false
}

fn has_name(names: &Vec<DependencyName>, name: &DependencyName) -> (r: bool)
    ensures
        r == name_views(names@).contains(name@),
{
    let ghost views = name_views(names@);
    let mut index: usize = 0;
    while index < names.len()
        invariant
            views == name_views(names@),
            index <= names@.len(),
            forall|i: int| 0 <= i < index ==> #[trigger] views[i] != name@,
        decreases names@.len() - index,
    {
        assert(views[index as int] == names@[index as int]@);
        if names[index].same(name) {
            return true;
        }
        index = index + 1;
    }
    false
}

fn members_of(graph: &DependencyGraph, groups: &Vec<Vec<ImageId>>, owner: u32) -> (r: Vec<
    DependencyName,
>)
    requires
        graph.wf(),
        is_dependency_order(graph.successors(), id_groups(groups@)),
        owner < graph.nodes@.len(),
    ensures
        name_views(r@) == group_names(*graph, owner as int, graph.nodes@.len() as int),
{
    let mut names: Vec<DependencyName> = Vec::new();
    let mut index: usize = 0;
    assert(name_views(names@) =~= group_names(*graph, owner as int, 0));
    while index < graph.nodes.len()
        invariant
            graph.wf(),
            is_dependency_order(graph.successors(), id_groups(groups@)),
            owner < graph.nodes@.len(),
            index <= graph.nodes@.len(),
            name_views(names@) == group_names(*graph, owner as int, index as int),
        decreases graph.nodes@.len() - index,
    {
        let ghost before = name_views(names@);
        let node: &DependencyNode = &graph.nodes[index];
        if node.ownership != ImageOwnership::SessionPrivate {
            if let Some(name) = &node.soname {
                if together(groups, Ghost(graph.successors()), owner, index as u32) {
                    names.push(name.clone());
                    assert(name_views(names@) =~= before.push(name@));
                }
            }
        }
        index = index + 1;
    }
    names
}

fn needs_of(graph: &DependencyGraph, groups: &Vec<Vec<ImageId>>, owner: u32) -> (r: Vec<
    DependencyName,
>)
    requires
        graph.wf(),
        is_dependency_order(graph.successors(), id_groups(groups@)),
        owner < graph.nodes@.len(),
    ensures
        name_views(r@) == outgoing_names(*graph, owner as int, graph.edges@.len() as int),
{
    let mut names: Vec<DependencyName> = Vec::new();
    let mut index: usize = 0;
    assert(name_views(names@) =~= outgoing_names(*graph, owner as int, 0));
    while index < graph.edges.len()
        invariant
            graph.wf(),
            is_dependency_order(graph.successors(), id_groups(groups@)),
            owner < graph.nodes@.len(),
            index <= graph.edges@.len(),
            name_views(names@) == outgoing_names(*graph, owner as int, index as int),
        decreases graph.edges@.len() - index,
    {
        let ghost before = name_views(names@);
        let edge: DependencyEdge = graph.edges[index];
        assert(graph.edges@[index as int].provider.0 < graph.nodes@.len());
        let provider: u32 = edge.provider.get();
        let node: &DependencyNode = &graph.nodes[provider as usize];
        if edge.requester.get() == owner && node.ownership != ImageOwnership::SessionPrivate {
            if let Some(name) = &node.soname {
                if !together(groups, Ghost(graph.successors()), owner, provider) && !has_name(
                    &names,
                    name,
                ) {
                    names.push(name.clone());
                    assert(name_views(names@) =~= before.push(name@));
                }
            }
        }
        index = index + 1;
    }
    names
}

/// How each image of a link hangs together with the others.
pub fn library_relations(graph: &DependencyGraph) -> (r: Vec<LibraryRelations>)
    requires
        graph.wf(),
    ensures
        r@.len() == graph.nodes@.len(),
        forall|i: int|
            0 <= i < r@.len() ==> {
                &&& name_views((#[trigger] r@[i]).dependency_names@) == outgoing_names(
                    *graph,
                    i,
                    graph.edges@.len() as int,
                )
                &&& name_views(r@[i].scc_members@) == group_names(
                    *graph,
                    i,
                    graph.nodes@.len() as int,
                )
            },
{
    let groups: Vec<Vec<ImageId>> = graph.dependency_order();
    let mut relations: Vec<LibraryRelations> = Vec::new();
    let mut index: usize = 0;
    while index < graph.nodes.len()
        invariant
            graph.wf(),
            is_dependency_order(graph.successors(), id_groups(groups@)),
            index <= graph.nodes@.len(),
            relations@.len() == index,
            forall|i: int|
                0 <= i < index ==> {
                    &&& name_views((#[trigger] relations@[i]).dependency_names@) == outgoing_names(
                        *graph,
                        i,
                        graph.edges@.len() as int,
                    )
                    &&& name_views(relations@[i].scc_members@) == group_names(
                        *graph,
                        i,
                        graph.nodes@.len() as int,
                    )
                },
        decreases graph.nodes@.len() - index,
    {
        let owner: u32 = index as u32;
        relations.push(
            LibraryRelations {
                dependency_names: needs_of(graph, &groups, owner),
                scc_members: members_of(graph, &groups, owner),
            },
        );
        index = index + 1;
    }
    relations
}

/// A library never keeps a lease on a library of its own group: what it leases and
/// what lives and dies with it have no name in common.
pub proof fn groups_lease_nothing_of_their_own(graph: DependencyGraph, owner: int, name: Seq<u8>)
    requires
        graph.wf(),
        0 <= owner < graph.nodes@.len(),
    ensures
        !(outgoing_names(graph, owner, graph.edges@.len() as int).contains(name) && group_names(
            graph,
            owner,
            graph.nodes@.len() as int,
        ).contains(name)),
{
    let needed = outgoing_names(graph, owner, graph.edges@.len() as int);
    let own = group_names(graph, owner, graph.nodes@.len() as int);
    if needed.contains(name) && own.contains(name) {
        let u = lemma_outgoing(graph, owner, graph.edges@.len() as int, name);
        let v = lemma_group(graph, owner, graph.nodes@.len() as int, name);
        assert(graph.nodes@[u].soname is Some && graph.nodes@[v].soname is Some);
        assert(u == v);
    }
}

proof fn lemma_outgoing(graph: DependencyGraph, owner: int, k: int, name: Seq<u8>) -> (u: int)
    requires
        graph.wf(),
        0 <= k <= graph.edges@.len(),
        outgoing_names(graph, owner, k).contains(name),
    ensures
        0 <= u < graph.nodes@.len(),
        library_name(graph.nodes@[u]) == Some(name),
        !mutual(graph.successors(), owner, u),
    decreases k,
{
    let names = outgoing_names(graph, owner, k);
    let at = names.index_of(name);
    assert(names[at] == name);
    let before = outgoing_names(graph, owner, k - 1);
    let edge = graph.edges@[k - 1];
    assert(edge.provider.0 < graph.nodes@.len());
    if at < before.len() {
        assert(before[at] == name);
        lemma_outgoing(graph, owner, k - 1, name)
    } else {
        edge.provider.0 as int
    }
}

proof fn lemma_group(graph: DependencyGraph, owner: int, k: int, name: Seq<u8>) -> (u: int)
    requires
        0 <= k <= graph.nodes@.len(),
        group_names(graph, owner, k).contains(name),
    ensures
        0 <= u < graph.nodes@.len(),
        library_name(graph.nodes@[u]) == Some(name),
        mutual(graph.successors(), owner, u),
    decreases k,
{
    let names = group_names(graph, owner, k);
    let at = names.index_of(name);
    assert(names[at] == name);
    let before = group_names(graph, owner, k - 1);
    if at < before.len() {
        assert(before[at] == name);
        lemma_group(graph, owner, k - 1, name)
    } else {
        k - 1
    }
}

/// The group of an image has the names of the system libraries that it needs and that need it
/// in turn, in the order of the images. An image of the application is none, and neither is
/// one without a name.
pub proof fn groups_need_one_another(graph: DependencyGraph, owner: int, k: int) -> (places: Seq<
    int,
>)
    requires
        graph.wf(),
        0 <= k <= graph.nodes@.len(),
    ensures
        are_places(
            places,
            k,
            |i: int|
                !(graph.nodes@[i].ownership is SessionPrivate) && graph.nodes@[i].soname is Some
                    && needs(graph.edges@, owner, i) && needs(graph.edges@, i, owner),
        ),
        group_names(graph, owner, k).len() == places.len(),
        forall|j: int|
            0 <= j < places.len() ==> #[trigger] group_names(graph, owner, k)[j]
                == graph.nodes@[places[j]].soname->0@,
    decreases k,
{
    if k <= 0 {
        Seq::empty()
    } else {
        let before = groups_need_one_another(graph, owner, k - 1);
        lemma_reach_is_need(graph, owner, k - 1);
        lemma_reach_is_need(graph, k - 1, owner);
        lemma_next_place(
            before,
            k - 1,
            |i: int|
                !(graph.nodes@[i].ownership is SessionPrivate) && graph.nodes@[i].soname is Some
                    && needs(graph.edges@, owner, i) && needs(graph.edges@, i, owner),
        )
    }
}

/// An image keeps a lease on a system library exactly if it asks for it itself and the
/// library does not need it in turn. It keeps each lease once, in the order in which it asks.
pub proof fn leases_are_kept_on_what_is_asked_for(
    graph: DependencyGraph,
    owner: int,
    k: int,
    name: Seq<u8>,
)
    requires
        graph.wf(),
        0 <= k <= graph.edges@.len(),
    ensures
        outgoing_names(graph, owner, k).contains(name) <==> exists|e: int|
            0 <= e < k && leased_by(graph, owner, #[trigger] graph.edges@[e], name),
        forall|i: int, j: int|
            0 <= i < j < outgoing_names(graph, owner, k).len() ==> (#[trigger] outgoing_names(
                graph,
                owner,
                k,
            )[i]) != (#[trigger] outgoing_names(graph, owner, k)[j]),
        k > 0 ==> outgoing_names(graph, owner, k - 1).len() <= outgoing_names(
            graph,
            owner,
            k,
        ).len(),
        k > 0 ==> forall|i: int|
            0 <= i < outgoing_names(graph, owner, k - 1).len() ==> #[trigger] outgoing_names(
                graph,
                owner,
                k,
            )[i] == outgoing_names(graph, owner, k - 1)[i],
    decreases k,
{
    if k > 0 {
        leases_are_kept_on_what_is_asked_for(graph, owner, k - 1, name);
        let before = outgoing_names(graph, owner, k - 1);
        let after = outgoing_names(graph, owner, k);
        let edge = graph.edges@[k - 1];
        lemma_reach_is_need(graph, edge.provider.0 as int, owner);
        if edge.requester.0 == owner {
            lemma_requester_reaches_provider(graph, k - 1);
            lemma_reach_edge(graph.successors(), owner, edge.provider.0 as int);
        }
        if before.contains(name) {
            let i = before.index_of(name);
            assert(after[i] == name);
        }
        if after.contains(name) && !before.contains(name) {
            assert(leased_by(graph, owner, graph.edges@[k - 1], name));
        }
        if leased_by(graph, owner, edge, name) && !before.contains(name) {
            assert(after.last() == name);
        }
    }
}

/// Whether an edge makes an image keep a lease on the library of this name.
pub open spec fn leased_by(
    graph: DependencyGraph,
    owner: int,
    edge: DependencyEdge,
    name: Seq<u8>,
) -> bool {
    let provider = graph.nodes@[edge.provider.0 as int];
    &&& edge.requester.0 == owner
    &&& !(provider.ownership is SessionPrivate)
    &&& provider.soname is Some && provider.soname->0@ == name
    &&& !needs(graph.edges@, edge.provider.0 as int, owner)
}

} // verus!
