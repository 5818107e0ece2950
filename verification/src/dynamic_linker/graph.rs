//! Bounded dependency graph: which artifact depends on which.
//!
//! The graph records structure only. It never resolves names, reads ELF bytes
//! or owns an allocation. It enforces the de-duplication rules and the quotas
//! of a session, and derives the dependency-first order.

use crate::dynamic_linker::artifact::{
    name_view, ArtifactIdentity, ArtifactIdentityView, DependencyName, ImageId, ImageOwnership,
};
use crate::dynamic_linker::order::{
    adjacency, dependency_groups, dependency_groups_spec, edge_graph, edge_graph_has_the_edges,
    is_dependency_order,
};
use crate::dynamic_linker::reach::{closed_graph, edge, mutual, reach, reach_in};
use crate::error::{ErrorContext, LimitKind, LoadError, LoadErrorKind, LoadResult};
use crate::identity::{check_limit, within, SessionLimits};
use std::collections::VecDeque;
use vstd::prelude::*;

verus! {

/// One artifact admitted into the link session.
pub struct DependencyNode {
    pub id: ImageId,
    pub artifact: ArtifactIdentity,
    pub soname: Option<DependencyName>,
    pub ownership: ImageOwnership,
    pub discovery_index: u32,
    pub depth: u16,
}

impl DependencyNode {
    #[inline]
    pub fn id(&self) -> (r: ImageId)
        ensures
            r == self.id,
    {
        self.id
    }

    #[inline]
    pub fn artifact(&self) -> (r: &ArtifactIdentity)
        ensures
            *r == self.artifact,
    {
        &self.artifact
    }

    #[inline]
    pub fn soname(&self) -> (r: Option<&DependencyName>)
        ensures
            r is Some <==> self.soname is Some,
            r matches Some(name) ==> self.soname == Some(*name),
    {
        match &self.soname {
            Some(name) => Some(name),
            None => None,
        }
    }

    #[inline]
    pub fn ownership(&self) -> (r: ImageOwnership)
        ensures
            r == self.ownership,
    {
        self.ownership
    }

    #[inline]
    pub fn discovery_index(&self) -> (r: u32)
        ensures
            r == self.discovery_index,
    {
        self.discovery_index
    }

    #[inline]
    pub fn depth(&self) -> (r: u16)
        ensures
            r == self.depth,
    {
        self.depth
    }
}

/// A directed dependency edge: `requester` needs the `needed_index`-th needed
/// entry of its dynamic table, satisfied by `provider`.
#[derive(Clone, Copy, Debug, PartialEq, Eq, Structural)]
pub struct DependencyEdge {
    pub requester: ImageId,
    pub provider: ImageId,
    pub needed_index: u16,
}

impl DependencyEdge {
    #[inline]
    pub fn requester(&self) -> (r: ImageId)
        ensures
            r == self.requester,
    {
        self.requester
    }

    #[inline]
    pub fn provider(&self) -> (r: ImageId)
        ensures
            r == self.provider,
    {
        self.provider
    }

    #[inline]
    pub fn needed_index(&self) -> (r: u16)
        ensures
            r == self.needed_index,
    {
        self.needed_index
    }
}

/// The artifacts of a session and the dependency edges between them.
pub struct DependencyGraph {
    pub nodes: Vec<DependencyNode>,
    pub edges: Vec<DependencyEdge>,
    pub limits: SessionLimits,
}

/// The first node with this identity.
pub open spec fn identity_at(
    nodes: Seq<DependencyNode>,
    identity: ArtifactIdentityView,
    i: int,
) -> bool {
    &&& 0 <= i < nodes.len()
    &&& nodes[i].artifact@ == identity
    &&& forall|j: int| 0 <= j < i ==> (#[trigger] nodes[j]).artifact@ != identity
}

pub open spec fn identity_known(nodes: Seq<DependencyNode>, identity: ArtifactIdentityView) -> bool {
    exists|j: int| 0 <= j < nodes.len() && (#[trigger] nodes[j]).artifact@ == identity
}

pub open spec fn soname_known(nodes: Seq<DependencyNode>, soname: Option<Seq<u8>>) -> bool {
    soname is Some && exists|j: int|
        0 <= j < nodes.len() && name_view((#[trigger] nodes[j]).soname) == soname
}

/// The failure of a graph operation on a malformed request.
pub open spec fn graph_failure(kind: LoadErrorKind) -> LoadError {
    LoadError { stage: None, kind, context: ErrorContext::Nothing }
}

/// Whether `error` reports `kind` for what `requester` needs.
pub open spec fn is_dependency_failure(
    error: LoadError,
    kind: LoadErrorKind,
    requester: ImageId,
    needed: Seq<u8>,
) -> bool {
    &&& error.stage is None
    &&& error.kind == kind
    &&& error.context matches ErrorContext::Dependency { requester: who, needed: what } && who
        == requester.0 && what@ == needed
}

/// What a dependency request leads to before its edge is recorded.
pub enum ProviderChoice {
    /// The provider is already in the graph.
    Existing(int),
    /// A new node of this depth is admitted.
    Fresh(u16),
    /// The request is refused.
    Refused(LoadError),
    /// The request is refused and the failure names the dependency.
    Conflict(LoadErrorKind),
}

/// The edges as pairs of requester and provider.
pub open spec fn edge_pairs(edges: Seq<DependencyEdge>) -> Seq<(u32, u32)> {
    Seq::new(edges.len(), |e: int| (edges[e].requester.0, edges[e].provider.0))
}

/// The length check of an optional name.
pub open spec fn soname_length(soname: Option<Seq<u8>>, limits: SessionLimits) -> LoadResult<()> {
    match soname {
        Some(name) => within(
            LimitKind::DependencyNameLength,
            name.len() as u64,
            limits.max_dependency_name_len as u64,
        ),
        None => Ok(()),
    }
}

impl DependencyGraph {
    /// Nodes carry their own position, identities and names are unique, edges
    /// join nodes and no quota is exceeded.
    pub open spec fn wf(self) -> bool {
        &&& self.nodes@.len() <= self.limits.max_images
        &&& self.edges@.len() <= self.limits.max_dependency_edges
        &&& forall|i: int|
            0 <= i < self.nodes@.len() ==> {
                &&& (#[trigger] self.nodes@[i]).id.0 == i
                &&& self.nodes@[i].discovery_index == i
                &&& i == 0 ==> self.nodes@[i].depth == 0
                &&& i > 0 ==> 0 < self.nodes@[i].depth <= self.limits.max_dependency_depth
            }
        &&& forall|i: int, j: int|
            0 <= i < j < self.nodes@.len() ==> {
                &&& (#[trigger] self.nodes@[i]).artifact@ != (#[trigger] self.nodes@[j]).artifact@
                &&& self.nodes@[i].soname is Some ==> name_view(self.nodes@[i].soname) != name_view(
                    self.nodes@[j].soname,
                )
            }
        &&& forall|e: int|
            0 <= e < self.edges@.len() ==> (#[trigger] self.edges@[e]).requester.0
                < self.nodes@.len() && self.edges@[e].provider.0 < self.nodes@.len()
    }

    /// How a dependency is satisfied: by the node with the same identity, unless
    /// it declares another name; not at all if another node has claimed the name;
    /// else by a new node one level below the requester.
    pub open spec fn choice(
        self,
        requester: ImageId,
        needed: Seq<u8>,
        artifact: ArtifactIdentityView,
        soname: Option<Seq<u8>>,
    ) -> ProviderChoice {
        if requester.0 >= self.nodes@.len() {
            ProviderChoice::Refused(graph_failure(LoadErrorKind::BadElf))
        } else if within(
            LimitKind::DependencyNameLength,
            needed.len() as u64,
            self.limits.max_dependency_name_len as u64,
        ) is Err {
            ProviderChoice::Refused(
                within(
                    LimitKind::DependencyNameLength,
                    needed.len() as u64,
                    self.limits.max_dependency_name_len as u64,
                )->Err_0,
            )
        } else if soname_length(soname, self.limits) is Err {
            ProviderChoice::Refused(soname_length(soname, self.limits)->Err_0)
        } else if identity_known(self.nodes@, artifact) {
            let i = choose|i: int| identity_at(self.nodes@, artifact, i);
            let declared = name_view(self.nodes@[i].soname);
            if declared is Some && soname is Some && declared != soname {
                ProviderChoice::Conflict(LoadErrorKind::BadElf)
            } else {
                ProviderChoice::Existing(i)
            }
        } else if soname_known(self.nodes@, soname) {
            ProviderChoice::Conflict(LoadErrorKind::IdentityConflict)
        } else if self.nodes@.len() + 1 > self.limits.max_images {
            ProviderChoice::Refused(
                crate::identity::limit_failure(
                    LimitKind::ImageCount,
                    (self.nodes@.len() + 1) as u64,
                    self.limits.max_images as u64,
                ),
            )
        } else if self.nodes@[requester.0 as int].depth == u16::MAX {
            ProviderChoice::Refused(graph_failure(LoadErrorKind::IntegerOverflow))
        } else if self.nodes@[requester.0 as int].depth + 1 > self.limits.max_dependency_depth {
            ProviderChoice::Refused(
                crate::identity::limit_failure(
                    LimitKind::DependencyDepth,
                    (self.nodes@[requester.0 as int].depth + 1) as u64,
                    self.limits.max_dependency_depth as u64,
                ),
            )
        } else {
            ProviderChoice::Fresh((self.nodes@[requester.0 as int].depth + 1) as u16)
        }
    }

    /// The node that is appended for a newly admitted artifact.
    pub open spec fn new_node(
        self,
        artifact: ArtifactIdentity,
        soname: Option<DependencyName>,
        ownership: ImageOwnership,
        depth: u16,
    ) -> DependencyNode {
        DependencyNode {
            id: ImageId(self.nodes@.len() as u32),
            artifact,
            soname,
            ownership,
            discovery_index: self.nodes@.len() as u32,
            depth,
        }
    }

    /// The outcome of recording one more edge.
    pub open spec fn edge_quota(self) -> LoadResult<()> {
        within(
            LimitKind::DependencyEdgeCount,
            (self.edges@.len() + 1) as u64,
            self.limits.max_dependency_edges as u64,
        )
    }

    /// The dependency graph as successor lists.
    pub open spec fn successors(self) -> Seq<Seq<u32>> {
        edge_graph(edge_pairs(self.edges@), self.nodes@.len())
    }

    pub fn new(limits: SessionLimits) -> (r: Self)
        ensures
            r.wf(),
            r.nodes@.len() == 0,
            r.edges@.len() == 0,
            r.limits == limits,
    {
        DependencyGraph { nodes: Vec::new(), edges: Vec::new(), limits }
    }

    #[inline]
    pub fn image_count(&self) -> (r: u32)
        requires
            self.wf(),
        ensures
            r == self.nodes@.len(),
    {
        self.nodes.len() as u32
    }

    #[inline]
    pub fn edge_count(&self) -> (r: u32)
        requires
            self.wf(),
        ensures
            r == self.edges@.len(),
    {
        self.edges.len() as u32
    }

    #[inline]
    pub fn nodes(&self) -> (r: &[DependencyNode])
        ensures
            r@ == self.nodes@,
    {
        self.nodes.as_slice()
    }

    #[inline]
    pub fn edges(&self) -> (r: &[DependencyEdge])
        ensures
            r@ == self.edges@,
    {
        self.edges.as_slice()
    }

    #[inline]
    pub fn node(&self, id: ImageId) -> (r: Option<&DependencyNode>)
        ensures
            r is Some <==> id.0 < self.nodes@.len(),
            r matches Some(node) ==> *node == self.nodes@[id.0 as int],
    {
        if (id.0 as usize) < self.nodes.len() {
            Some(&self.nodes[id.0 as usize])
        } else {
            None
        }
    }

    /// The node with this identity, if it has been admitted.
    pub fn find_identity(&self, identity: &ArtifactIdentity) -> (r: Option<ImageId>)
        requires
            self.wf(),
        ensures
            r is Some <==> identity_known(self.nodes@, identity@),
            r matches Some(id) ==> identity_at(self.nodes@, identity@, id.0 as int),
    {
        let mut index: usize = 0;
        while index < self.nodes.len()
            invariant
                index <= self.nodes@.len(),
                self.nodes@.len() <= u32::MAX,
                forall|j: int|
                    0 <= j < index ==> (#[trigger] self.nodes@[j]).artifact@ != identity@,
            decreases self.nodes@.len() - index,
        {
            if self.nodes[index].artifact.same(identity) {
                assert(self.nodes@[index as int].artifact@ == identity@);
                return Some(ImageId::new(index as u32));
            }
            index = index + 1;
        }
        None
    }

    /// The node that has claimed this name, if any.
    fn find_soname(&self, soname: &DependencyName) -> (r: Option<ImageId>)
        requires
            self.wf(),
        ensures
            r is Some <==> soname_known(self.nodes@, Some(soname@)),
    {
        let mut index: usize = 0;
        while index < self.nodes.len()
            invariant
                index <= self.nodes@.len(),
                self.nodes@.len() <= u32::MAX,
                forall|j: int|
                    0 <= j < index ==> name_view((#[trigger] self.nodes@[j]).soname) != Some(
                        soname@,
                    ),
            decreases self.nodes@.len() - index,
        {
            if let Some(claimed) = &self.nodes[index].soname {
                if claimed.same(soname) {
                    assert(name_view(self.nodes@[index as int].soname) == Some(soname@));
                    return Some(ImageId::new(index as u32));
                }
            }
            index = index + 1;
        }
        None
    }

    /// Admits the link root, which is always image 0 at depth 0.
    pub fn insert_root(
        &mut self,
        artifact: ArtifactIdentity,
        soname: Option<DependencyName>,
        ownership: ImageOwnership,
    ) -> (r: LoadResult<ImageId>)
        requires
            old(self).wf(),
        ensures
            final(self).wf(),
            final(self).limits == old(self).limits,
            final(self).edges@ == old(self).edges@,
            ({
                let quota = within(LimitKind::ImageCount, 1, old(self).limits.max_images as u64);
                let length = soname_length(name_view(soname), old(self).limits);
                if old(self).nodes@.len() > 0 {
                    &&& r == Err::<ImageId, LoadError>(graph_failure(LoadErrorKind::BadElf))
                    &&& final(self).nodes@ == old(self).nodes@
                } else if quota is Err {
                    &&& r == Err::<ImageId, LoadError>(quota->Err_0)
                    &&& final(self).nodes@ == old(self).nodes@
                } else if length is Err {
                    &&& r == Err::<ImageId, LoadError>(length->Err_0)
                    &&& final(self).nodes@ == old(self).nodes@
                } else {
                    &&& r == Ok::<ImageId, LoadError>(ImageId(0))
                    &&& final(self).nodes@ == old(self).nodes@.push(
                        old(self).new_node(artifact, soname, ownership, 0),
                    )
                }
            }),
    {
        if self.nodes.len() > 0 {
            return Err(LoadError::new(LoadErrorKind::BadElf, ErrorContext::Nothing));
        }
        self.limits.check_image_count(1)?;
        self.check_soname_len(&soname)?;
        let id = ImageId::new(0);
        self.record_node(artifact, soname, ownership, 0);
        Ok(id)
    }

    /// Records a resolved dependency and returns the image that satisfies it.
    ///
    /// An artifact that is already in the graph is reused, so a provider that two
    /// images need is admitted once and keeps both edges.
    pub fn insert_dependency(
        &mut self,
        requester: ImageId,
        needed: &DependencyName,
        needed_index: u16,
        artifact: ArtifactIdentity,
        soname: Option<DependencyName>,
        ownership: ImageOwnership,
    ) -> (r: LoadResult<ImageId>)
        requires
            old(self).wf(),
        ensures
            final(self).wf(),
            final(self).limits == old(self).limits,
            match old(self).choice(requester, needed@, artifact@, name_view(soname)) {
                ProviderChoice::Refused(error) => {
                    &&& r == Err::<ImageId, LoadError>(error)
                    &&& final(self).nodes@ == old(self).nodes@
                    &&& final(self).edges@ == old(self).edges@
                },
                ProviderChoice::Conflict(kind) => {
                    &&& r matches Err(error) && is_dependency_failure(
                        error,
                        kind,
                        requester,
                        needed@,
                    )
                    &&& final(self).nodes@ == old(self).nodes@
                    &&& final(self).edges@ == old(self).edges@
                },
                ProviderChoice::Existing(i) => {
                    &&& final(self).nodes@ == old(self).nodes@
                    &&& edge_recorded(
                        *old(self),
                        *final(self),
                        r,
                        requester,
                        ImageId(i as u32),
                        needed_index,
                    )
                },
                ProviderChoice::Fresh(depth) => {
                    &&& final(self).nodes@ == old(self).nodes@.push(
                        old(self).new_node(artifact, soname, ownership, depth),
                    )
                    &&& edge_recorded(
                        *old(self),
                        *final(self),
                        r,
                        requester,
                        ImageId(old(self).nodes@.len() as u32),
                        needed_index,
                    )
                },
            },
    {
        let requester_depth: u16 = match self.node(requester) {
            Some(node) => node.depth(),
            None => return Err(LoadError::new(LoadErrorKind::BadElf, ErrorContext::Nothing)),
        };
        self.limits.check_dependency_name_len(needed.as_bytes().len() as u64)?;
        self.check_soname_len(&soname)?;

        let provider: ImageId = match self.find_identity(&artifact) {
            Some(existing) => {
                proof {
                    let i = choose|i: int| identity_at(self.nodes@, artifact@, i);
                    assert(identity_at(self.nodes@, artifact@, existing.0 as int));
                    assert(i == existing.0) by {
                        if i < existing.0 {
                            assert(self.nodes@[i].artifact@ == artifact@);
                        }
                    }
                }
                // A re-declared, conflicting name is malformed rather than
                // silently ignored.
                if let (Some(declared), Some(new_soname)) = (
                    &self.nodes[existing.0 as usize].soname,
                    &soname,
                ) {
                    if !declared.same(new_soname) {
                        return Err(dependency_error(LoadErrorKind::BadElf, requester, needed));
                    }
                }
                existing
            },
            None => {
                if let Some(new_soname) = &soname {
                    if self.find_soname(new_soname).is_some() {
                        return Err(
                            dependency_error(LoadErrorKind::IdentityConflict, requester, needed),
                        );
                    }
                }
                let count: usize = self.nodes.len();
                check_limit(
                    LimitKind::ImageCount,
                    count as u64 + 1,
                    self.limits.max_images as u64,
                )?;
                if requester_depth == u16::MAX {
                    return Err(
                        LoadError::new(LoadErrorKind::IntegerOverflow, ErrorContext::Nothing),
                    );
                }
                let depth: u16 = requester_depth + 1;
                self.limits.check_dependency_depth(depth)?;
                self.record_node(artifact, soname, ownership, depth);
                ImageId::new(count as u32)
            },
        };
        self.record_edge(requester, provider, needed_index)?;
        Ok(provider)
    }

    /// Records one more edge to an image that is already in the graph.
    pub fn link_existing(
        &mut self,
        requester: ImageId,
        provider: ImageId,
        needed_index: u16,
    ) -> (r: LoadResult<()>)
        requires
            old(self).wf(),
            requester.0 < old(self).nodes@.len(),
            provider.0 < old(self).nodes@.len(),
        ensures
            final(self).wf(),
            final(self).limits == old(self).limits,
            final(self).nodes@ == old(self).nodes@,
            r == old(self).edge_quota(),
            final(self).edges@ == (if r is Ok {
                old(self).edges@.push(DependencyEdge { requester, provider, needed_index })
            } else {
                old(self).edges@
            }),
    {
        self.record_edge(requester, provider, needed_index)
    }

    fn record_node(
        &mut self,
        artifact: ArtifactIdentity,
        soname: Option<DependencyName>,
        ownership: ImageOwnership,
        depth: u16,
    )
        requires
            old(self).wf(),
            old(self).nodes@.len() < old(self).limits.max_images,
            !identity_known(old(self).nodes@, artifact@),
            !soname_known(old(self).nodes@, name_view(soname)),
            old(self).nodes@.len() == 0 ==> depth == 0,
            old(self).nodes@.len() > 0 ==> 0 < depth <= old(self).limits.max_dependency_depth,
        ensures
            final(self).wf(),
            final(self).limits == old(self).limits,
            final(self).edges@ == old(self).edges@,
            final(self).nodes@ == old(self).nodes@.push(
                old(self).new_node(artifact, soname, ownership, depth),
            ),
    {
        let index: u32 = self.nodes.len() as u32;
        self.nodes.push(
            DependencyNode {
                id: ImageId::new(index),
                artifact,
                soname,
                ownership,
                discovery_index: index,
                depth,
            },
        );
    }

    fn record_edge(
        &mut self,
        requester: ImageId,
        provider: ImageId,
        needed_index: u16,
    ) -> (r: LoadResult<()>)
        requires
            old(self).wf(),
            requester.0 < old(self).nodes@.len(),
            provider.0 < old(self).nodes@.len(),
        ensures
            final(self).wf(),
            final(self).limits == old(self).limits,
            final(self).nodes@ == old(self).nodes@,
            r == old(self).edge_quota(),
            final(self).edges@ == (if r is Ok {
                old(self).edges@.push(DependencyEdge { requester, provider, needed_index })
            } else {
                old(self).edges@
            }),
    {
        check_limit(
            LimitKind::DependencyEdgeCount,
            self.edges.len() as u64 + 1,
            self.limits.max_dependency_edges as u64,
        )?;
        self.edges.push(DependencyEdge { requester, provider, needed_index });
        Ok(())
    }

    fn check_soname_len(&self, soname: &Option<DependencyName>) -> (r: LoadResult<()>)
        ensures
            r == soname_length(name_view(*soname), self.limits),
    {
        if let Some(soname) = soname {
            self.limits.check_dependency_name_len(soname.as_bytes().len() as u64)?;
        }
        Ok(())
    }

    /// The dependency-first order: providers before requesters.
    ///
    /// Dependency cycles are contracted; within a cycle, members are in discovery
    /// order. The result depends on the edges alone.
    pub fn dependency_order(&self) -> (r: Vec<Vec<ImageId>>)
        requires
            self.wf(),
        ensures
            id_groups(r@) == dependency_groups_spec(edge_pairs(self.edges@), self.nodes@.len()),
            is_dependency_order(self.successors(), id_groups(r@)),
    {
        let mut pairs: Vec<(u32, u32)> = Vec::new();
        let mut index: usize = 0;
        while index < self.edges.len()
            invariant
                index <= self.edges@.len(),
                pairs@.len() == index,
                forall|e: int|
                    0 <= e < index ==> #[trigger] pairs@[e] == (
                        self.edges@[e].requester.0,
                        self.edges@[e].provider.0,
                    ),
            decreases self.edges@.len() - index,
        {
            let edge: DependencyEdge = self.edges[index];
            pairs.push((edge.requester.0, edge.provider.0));
            index = index + 1;
        }
        assert(pairs@ =~= edge_pairs(self.edges@));
        assert forall|e: int| 0 <= e < pairs@.len() implies (#[trigger] pairs@[e]).0
            < self.nodes@.len() && pairs@[e].1 < self.nodes@.len() by {
            assert(self.edges@[e].requester.0 < self.nodes@.len());
        }
        let groups = dependency_groups(self.nodes.len(), &pairs);
        let mut result: Vec<Vec<ImageId>> = Vec::new();
        let mut group: usize = 0;
        while group < groups.len()
            invariant
                group <= groups@.len(),
                result@.len() == group,
                forall|g: int|
                    0 <= g < group ==> id_group((#[trigger] result@[g])@) == groups@[g]@,
            decreases groups@.len() - group,
        {
            let mut ids: Vec<ImageId> = Vec::new();
            let mut member: usize = 0;
            while member < groups[group].len()
                invariant
                    group < groups@.len(),
                    member <= groups@[group as int]@.len(),
                    ids@.len() == member,
                    forall|i: int|
                        0 <= i < member ==> (#[trigger] ids@[i]).0 == groups@[group as int]@[i],
                decreases groups@[group as int]@.len() - member,
            {
                ids.push(ImageId::new(groups[group][member]));
                member = member + 1;
            }
            assert(id_group(ids@) =~= groups@[group as int]@);
            result.push(ids);
            group = group + 1;
        }
        assert(id_groups(result@) =~= adjacency(groups@));
        result
    }
}

/// The numbers of a group of images.
pub open spec fn id_group(ids: Seq<ImageId>) -> Seq<u32> {
    Seq::new(ids.len(), |i: int| ids[i].0)
}

/// The numbers of groups of images.
pub open spec fn id_groups(groups: Seq<Vec<ImageId>>) -> Seq<Seq<u32>> {
    Seq::new(groups.len(), |g: int| id_group(groups[g]@))
}

/// The result of adding one edge: the provider and the longer edge list, or the
/// quota failure and the same edge list.
pub open spec fn edge_recorded(
    before: DependencyGraph,
    after: DependencyGraph,
    result: LoadResult<ImageId>,
    requester: ImageId,
    provider: ImageId,
    needed_index: u16,
) -> bool {
    match before.edge_quota() {
        Ok(_) => {
            &&& result == Ok::<ImageId, LoadError>(provider)
            &&& after.edges@ == before.edges@.push(
                DependencyEdge { requester, provider, needed_index },
            )
        },
        Err(error) => {
            &&& result == Err::<ImageId, LoadError>(error)
            &&& after.edges@ == before.edges@
        },
    }
}

fn dependency_error(
    kind: LoadErrorKind,
    requester: ImageId,
    needed: &DependencyName,
) -> (r: LoadError)
    ensures
        is_dependency_failure(r, kind, requester, needed@),
{
    LoadError::new(
        kind,
        ErrorContext::Dependency {
            requester: requester.get(),
            needed: crate::bytes::copy_bytes(needed.as_bytes()),
        },
    )
}

/// One pending dependency resolution.
pub struct DiscoveryItem {
    pub requester: ImageId,
    pub needed: DependencyName,
    pub needed_index: u16,
}

impl DiscoveryItem {
    pub fn new(requester: ImageId, needed: DependencyName, needed_index: u16) -> (r: Self)
        ensures
            r == (DiscoveryItem { requester, needed, needed_index }),
    {
        DiscoveryItem { requester, needed, needed_index }
    }

    #[inline]
    pub fn requester(&self) -> (r: ImageId)
        ensures
            r == self.requester,
    {
        self.requester
    }

    #[inline]
    pub fn needed(&self) -> (r: &DependencyName)
        ensures
            *r == self.needed,
    {
        &self.needed
    }

    #[inline]
    pub fn needed_index(&self) -> (r: u16)
        ensures
            r == self.needed_index,
    {
        self.needed_index
    }
}

/// First-in first-out queue of pending dependency resolutions, bounded by the
/// edge quota of the session.
pub struct DiscoveryQueue {
    pub pending: VecDeque<DiscoveryItem>,
    pub limits: SessionLimits,
}

impl DiscoveryQueue {
    pub open spec fn wf(self) -> bool {
        self.pending@.len() <= self.limits.max_dependency_edges
    }

    pub fn new(limits: SessionLimits) -> (r: Self)
        ensures
            r.wf(),
            r.pending@.len() == 0,
            r.limits == limits,
    {
        DiscoveryQueue { pending: VecDeque::new(), limits }
    }

    #[inline]
    pub fn is_empty(&self) -> (r: bool)
        ensures
            r == (self.pending@.len() == 0),
    {
        self.pending.len() == 0
    }

    pub fn push(&mut self, item: DiscoveryItem) -> (r: LoadResult<()>)
        requires
            old(self).wf(),
        ensures
            final(self).wf(),
            final(self).limits == old(self).limits,
            r == within(
                LimitKind::DependencyEdgeCount,
                (old(self).pending@.len() + 1) as u64,
                old(self).limits.max_dependency_edges as u64,
            ),
            final(self).pending@ == (if r is Ok {
                old(self).pending@.push(item)
            } else {
                old(self).pending@
            }),
    {
        check_limit(
            LimitKind::DependencyEdgeCount,
            self.pending.len() as u64 + 1,
            self.limits.max_dependency_edges as u64,
        )?;
        self.pending.push_back(item);
        Ok(())
    }

    pub fn pop(&mut self) -> (r: Option<DiscoveryItem>)
        requires
            old(self).wf(),
        ensures
            final(self).wf(),
            final(self).limits == old(self).limits,
            old(self).pending@.len() == 0 ==> r is None && final(self).pending@
                == old(self).pending@,
            old(self).pending@.len() > 0 ==> r == Some(old(self).pending@[0])
                && final(self).pending@ == old(self).pending@.drop_first(),
    {
        self.pending.pop_front()
    }
}

/// Whether image `from` needs image `to` over `steps` edges, each from a requester to its
/// provider.
pub open spec fn needs_in(edges: Seq<DependencyEdge>, from: int, to: int, steps: nat) -> bool
    decreases steps,
{
    if steps == 0 {
        from == to
    } else {
        exists|e: int|
            0 <= e < edges.len() && (#[trigger] edges[e]).requester.0 == from && needs_in(
                edges,
                edges[e].provider.0 as int,
                to,
                (steps - 1) as nat,
            )
    }
}

/// Whether image `from` needs image `to`, itself or through others.
pub open spec fn needs(edges: Seq<DependencyEdge>, from: int, to: int) -> bool {
    exists|steps: nat| #[trigger] needs_in(edges, from, to, steps)
}

proof fn lemma_reach_needs(graph: DependencyGraph, from: int, to: int, steps: nat)
    requires
        graph.wf(),
        reach_in(graph.successors(), from, to, steps),
    ensures
        needs_in(graph.edges@, from, to, steps),
    decreases steps,
{
    if steps > 0 {
        let adj = graph.successors();
        let w = choose|w: int| #[trigger]
            edge(adj, from, w) && reach_in(adj, w, to, (steps - 1) as nat);
        let pairs = edge_pairs(graph.edges@);
        assert forall|e: int| 0 <= e < pairs.len() implies (#[trigger] pairs[e]).0
            < graph.nodes@.len() && pairs[e].1 < graph.nodes@.len() by {
            assert(graph.edges@[e].requester.0 < graph.nodes@.len());
        }
        edge_graph_has_the_edges(pairs, graph.nodes@.len(), from, w);
        let e = choose|e: int| 0 <= e < pairs.len() && (#[trigger] pairs[e]).0 == from
            && pairs[e].1 == w;
        lemma_reach_needs(graph, w, to, (steps - 1) as nat);
        assert(graph.edges@[e].requester.0 == from);
    }
}

/// What is reached in the graph is needed.
pub proof fn lemma_reached_is_needed(graph: DependencyGraph, from: int, to: int)
    requires
        graph.wf(),
        reach(graph.successors(), from, to),
    ensures
        needs(graph.edges@, from, to),
{
    let steps = choose|steps: nat| #[trigger] reach_in(graph.successors(), from, to, steps);
    lemma_reach_needs(graph, from, to, steps);
}

/// The graph leads from every requester to its provider.
pub proof fn lemma_requester_reaches_provider(graph: DependencyGraph, e: int)
    requires
        graph.wf(),
        0 <= e < graph.edges@.len(),
    ensures
        closed_graph(graph.successors()),
        edge(
            graph.successors(),
            graph.edges@[e].requester.0 as int,
            graph.edges@[e].provider.0 as int,
        ),
{
    let pairs = edge_pairs(graph.edges@);
    assert forall|i: int| 0 <= i < pairs.len() implies (#[trigger] pairs[i]).0 < graph.nodes@.len()
        && pairs[i].1 < graph.nodes@.len() by {
        assert(graph.edges@[i].requester.0 < graph.nodes@.len());
    }
    edge_graph_has_the_edges(
        pairs,
        graph.nodes@.len(),
        graph.edges@[e].requester.0 as int,
        graph.edges@[e].provider.0 as int,
    );
    assert(pairs[e].0 == graph.edges@[e].requester.0);
}

/// In the dependency order a provider comes in an earlier group than its requester. Only
/// where the provider needs the requester in turn are they in the same group.
pub proof fn providers_come_before_their_requesters(
    graph: DependencyGraph,
    groups: Seq<Seq<u32>>,
    e: int,
    g: int,
    i: int,
    h: int,
    j: int,
)
    requires
        graph.wf(),
        is_dependency_order(graph.successors(), groups),
        0 <= e < graph.edges@.len(),
        0 <= g < groups.len(),
        0 <= i < groups[g].len(),
        0 <= h < groups.len(),
        0 <= j < groups[h].len(),
        groups[g][i] == graph.edges@[e].requester.0,
        groups[h][j] == graph.edges@[e].provider.0,
    ensures
        h < g || (h == g && needs(
            graph.edges@,
            graph.edges@[e].provider.0 as int,
            graph.edges@[e].requester.0 as int,
        )),
{
    lemma_requester_reaches_provider(graph, e);
    if h == g {
        assert(mutual(graph.successors(), groups[g][i] as int, groups[h][j] as int));
        lemma_reached_is_needed(
            graph,
            graph.edges@[e].provider.0 as int,
            graph.edges@[e].requester.0 as int,
        );
    }
}

/// A dependency is satisfied by its identity. It is the image with the same identity, if
/// the graph has one, unless both declare names and these differ. Else it is a new image
/// one level below its requester, unless its name is taken. Neither the images nor the
/// levels nor the lengths of the names exceed their quotas.
pub proof fn providers_are_chosen_by_identity(
    graph: DependencyGraph,
    requester: ImageId,
    needed: Seq<u8>,
    artifact: ArtifactIdentityView,
    soname: Option<Seq<u8>>,
)
    requires
        graph.wf(),
    ensures
        match graph.choice(requester, needed, artifact, soname) {
            ProviderChoice::Existing(i) => {
                &&& 0 <= i < graph.nodes@.len()
                &&& graph.nodes@[i].artifact@ == artifact
                &&& graph.nodes@[i].soname is None || soname is None || name_view(
                    graph.nodes@[i].soname,
                ) == soname
                &&& requester.0 < graph.nodes@.len()
            },
            ProviderChoice::Fresh(depth) => {
                &&& forall|j: int|
                    0 <= j < graph.nodes@.len() ==> (#[trigger] graph.nodes@[j]).artifact@
                        != artifact
                &&& soname is Some ==> forall|j: int|
                    0 <= j < graph.nodes@.len() ==> name_view((#[trigger] graph.nodes@[j]).soname)
                        != soname
                &&& requester.0 < graph.nodes@.len()
                &&& depth == graph.nodes@[requester.0 as int].depth + 1
                &&& depth <= graph.limits.max_dependency_depth
                &&& graph.nodes@.len() < graph.limits.max_images
            },
            ProviderChoice::Conflict(kind) => {
                ||| kind is BadElf && exists|i: int|
                    0 <= i < graph.nodes@.len() && (#[trigger] graph.nodes@[i]).artifact@
                        == artifact && graph.nodes@[i].soname is Some && soname is Some
                        && name_view(graph.nodes@[i].soname) != soname
                ||| kind is IdentityConflict && soname is Some && exists|i: int|
                    0 <= i < graph.nodes@.len() && name_view((#[trigger] graph.nodes@[i]).soname)
                        == soname && graph.nodes@[i].artifact@ != artifact
            },
            ProviderChoice::Refused(_) => {
                ||| requester.0 >= graph.nodes@.len()
                ||| needed.len() as u64 > graph.limits.max_dependency_name_len
                ||| soname is Some && soname->0.len() as u64 > graph.limits.max_dependency_name_len
                ||| graph.nodes@.len() >= graph.limits.max_images
                ||| graph.nodes@[requester.0 as int].depth >= graph.limits.max_dependency_depth
                ||| graph.nodes@[requester.0 as int].depth == 0xffff
            },
        },
{
    if identity_known(graph.nodes@, artifact) {
        lemma_first_identity(graph.nodes@, artifact, 0);
        let i = choose|i: int| identity_at(graph.nodes@, artifact, i);
        assert(identity_at(graph.nodes@, artifact, i));
        assert(graph.nodes@[i].artifact@ == artifact);
    }
    if soname_known(graph.nodes@, soname) {
        let j = choose|j: int|
            0 <= j < graph.nodes@.len() && name_view((#[trigger] graph.nodes@[j]).soname) == soname;
        assert(name_view(graph.nodes@[j].soname) == soname);
    }
}

proof fn lemma_first_identity(nodes: Seq<DependencyNode>, identity: ArtifactIdentityView, from: int)
    requires
        0 <= from <= nodes.len(),
        forall|j: int| 0 <= j < from ==> (#[trigger] nodes[j]).artifact@ != identity,
        identity_known(nodes, identity),
    ensures
        exists|i: int| identity_at(nodes, identity, i),
    decreases nodes.len() - from,
{
    if from < nodes.len() {
        if nodes[from].artifact@ == identity {
            assert(identity_at(nodes, identity, from));
        } else {
            lemma_first_identity(nodes, identity, from + 1);
        }
    } else {
        let j = choose|j: int| 0 <= j < nodes.len() && (#[trigger] nodes[j]).artifact@ == identity;
        assert(false);
    }
}

proof fn lemma_needs_reach(graph: DependencyGraph, from: int, to: int, steps: nat)
    requires
        graph.wf(),
        needs_in(graph.edges@, from, to, steps),
    ensures
        reach_in(graph.successors(), from, to, steps),
    decreases steps,
{
    if steps > 0 {
        let e = choose|e: int|
            0 <= e < graph.edges@.len() && (#[trigger] graph.edges@[e]).requester.0 == from
                && needs_in(
                graph.edges@,
                graph.edges@[e].provider.0 as int,
                to,
                (steps - 1) as nat,
            );
        lemma_requester_reaches_provider(graph, e);
        lemma_needs_reach(graph, graph.edges@[e].provider.0 as int, to, (steps - 1) as nat);
        assert(edge(graph.successors(), from, graph.edges@[e].provider.0 as int));
    }
}

/// What the graph reaches is what is needed over its edges.
pub proof fn lemma_reach_is_need(graph: DependencyGraph, from: int, to: int)
    requires
        graph.wf(),
    ensures
        reach(graph.successors(), from, to) <==> needs(graph.edges@, from, to),
{
    if reach(graph.successors(), from, to) {
        lemma_reached_is_needed(graph, from, to);
    }
    if needs(graph.edges@, from, to) {
        let steps = choose|steps: nat| #[trigger] needs_in(graph.edges@, from, to, steps);
        lemma_needs_reach(graph, from, to, steps);
    }
}

} // verus!
