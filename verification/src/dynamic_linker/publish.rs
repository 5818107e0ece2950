//! The link map of a finished link and its publication.

use crate::address::{claim_range, range_at, TargetAddr, TargetRange};
use crate::dynamic_linker::artifact::{
    duplicate_name, name_view, ArtifactIdentity, ArtifactIdentityView, DependencyName, ImageId,
    ImageOwnership,
};
use crate::dynamic_linker::graph::DependencyGraph;
use crate::dynamic_linker::lifecycle::{FiniPlan, InitPlan};
use crate::dynamic_linker::published::PublishedImageDescriptor;
use crate::dynamic_linker::scope::ScopeSet;
use crate::dynamic_linker::session::LoadMetrics;
use crate::error::{
    fail_at, failure, ErrorContext, LoadError, LoadErrorKind, LoadResult, LoadStage,
};
use crate::image::loaded::LoadedRegion;
use crate::image::sealed::SealedState;
use crate::memory::{AllocationLease, ImageAllocation};
use vstd::prelude::*;

verus! {

/// One image of a link map.
pub struct LinkMapEntry {
    pub owner: ImageId,
    pub identity: ArtifactIdentity,
    pub soname: Option<DependencyName>,
    pub ownership: ImageOwnership,
    pub load_bias: TargetAddr,
    pub entry: Option<TargetAddr>,
    pub map_span: TargetRange,
}

/// The contents of a link map entry.
pub struct LinkMapEntryView {
    pub owner: ImageId,
    pub identity: ArtifactIdentityView,
    pub soname: Option<Seq<u8>>,
    pub ownership: ImageOwnership,
    pub load_bias: TargetAddr,
    pub entry: Option<TargetAddr>,
    pub map_span: TargetRange,
}

impl View for LinkMapEntry {
    type V = LinkMapEntryView;

    open spec fn view(&self) -> LinkMapEntryView {
        LinkMapEntryView {
            owner: self.owner,
            identity: self.identity@,
            soname: name_view(self.soname),
            ownership: self.ownership,
            load_bias: self.load_bias,
            entry: self.entry,
            map_span: self.map_span,
        }
    }
}

impl LinkMapEntry {
    pub fn new(
        owner: ImageId,
        identity: ArtifactIdentity,
        soname: Option<DependencyName>,
        ownership: ImageOwnership,
        load_bias: TargetAddr,
        entry: Option<TargetAddr>,
        map_span: TargetRange,
    ) -> (r: Self)
        ensures
            r == (LinkMapEntry {
                owner,
                identity,
                soname,
                ownership,
                load_bias,
                entry,
                map_span,
            }),
    {
        LinkMapEntry { owner, identity, soname, ownership, load_bias, entry, map_span }
    }

    #[inline]
    pub fn owner(&self) -> (r: ImageId)
        ensures
            r == self.owner,
    {
        self.owner
    }

    #[inline]
    pub fn identity(&self) -> (r: &ArtifactIdentity)
        ensures
            *r == self.identity,
    {
        &self.identity
    }

    #[inline]
    pub fn soname(&self) -> (r: Option<&DependencyName>)
        ensures
            r is Some <==> self.soname is Some,
            r matches Some(name) ==> self.soname == Some(*name),
    {
        match &self.soname {
            Some(name) => Some(name),
            None => None,
        }
    }

    /// Who owns the image. A publisher goes by this, never by the number or the
    /// name of an image.
    #[inline]
    pub fn ownership(&self) -> (r: ImageOwnership)
        ensures
            r == self.ownership,
    {
        self.ownership
    }

    #[inline]
    pub fn load_bias(&self) -> (r: TargetAddr)
        ensures
            r == self.load_bias,
    {
        self.load_bias
    }

    /// The entry point, which only the root has.
    #[inline]
    pub fn entry(&self) -> (r: Option<TargetAddr>)
        ensures
            r == self.entry,
    {
        self.entry
    }

    #[inline]
    pub fn map_span(&self) -> (r: TargetRange)
        ensures
            r == self.map_span,
    {
        self.map_span
    }
}

/// What a publisher checks before anything is committed.
pub struct PreparedLinkManifest {
    pub entry: TargetAddr,
    pub link_map: Vec<LinkMapEntry>,
}

impl PreparedLinkManifest {
    /// The root's entry point, with its mode bit.
    #[inline]
    pub fn entry(&self) -> (r: TargetAddr)
        ensures
            r == self.entry,
    {
        self.entry
    }

    #[inline]
    pub fn link_map(&self) -> (r: &[LinkMapEntry])
        ensures
            r@ == self.link_map@,
    {
        self.link_map.as_slice()
    }

    #[inline]
    pub fn into_parts(self) -> (r: (TargetAddr, Vec<LinkMapEntry>))
        ensures
            r == (self.entry, self.link_map),
    {
        (self.entry, self.link_map)
    }
}

/// What the link map needs of one relocated image.
pub struct LinkMapImage<'a> {
    pub image_id: ImageId,
    pub load_bias: TargetAddr,
    pub runtime_entry: TargetAddr,
    pub regions: &'a Vec<LoadedRegion>,
}

impl<'a> LinkMapImage<'a> {
    #[inline]
    pub fn new(
        image_id: ImageId,
        load_bias: TargetAddr,
        runtime_entry: TargetAddr,
        regions: &'a Vec<LoadedRegion>,
    ) -> (r: Self)
        ensures
            r == (LinkMapImage { image_id, load_bias, runtime_entry, regions }),
    {
        LinkMapImage { image_id, load_bias, runtime_entry, regions }
    }
}

/// The failure of a publication.
pub open spec fn publish_failure(kind: LoadErrorKind) -> LoadError {
    failure(LoadStage::LinkSeal, kind, ErrorContext::Nothing)
}

fn publish_error(kind: LoadErrorKind) -> (r: LoadError)
    ensures
        r == publish_failure(kind),
{
    fail_at(LoadStage::LinkSeal, kind, ErrorContext::Nothing)
}

/// The lowest start and the highest end of the first `k` regions, or the failure
/// of the first one without an end.
pub open spec fn span_bounds(regions: Seq<LoadedRegion>, k: int) -> LoadResult<(int, int)>
    decreases k,
{
    let range = regions[k - 1].runtime_range;
    if k <= 0 {
        Ok((0, 0))
    } else {
        match span_bounds(regions, k - 1) {
            Err(error) => Err(error),
            Ok((low, high)) => match range_at(range.end_spec(), LoadStage::LinkSeal) {
                Err(error) => Err(error),
                Ok(_) => Ok(
                    (
                        if k == 1 || range.start.0 < low {
                            range.start.0 as int
                        } else {
                            low
                        },
                        if k == 1 || range.limit() > high {
                            range.limit()
                        } else {
                            high
                        },
                    ),
                ),
            },
        }
    }
}

/// The span that the regions of an image lie in.
pub open spec fn span_spec(regions: Seq<LoadedRegion>) -> LoadResult<TargetRange> {
    match span_bounds(regions, regions.len() as int) {
        Err(error) => Err(error),
        Ok((low, high)) => if regions.len() == 0 {
            Err(publish_failure(LoadErrorKind::IncorrectLayout))
        } else {
            Ok(TargetRange { start: TargetAddr(low as u64), len: (high - low) as u64 })
        },
    }
}

proof fn lemma_span_bounds(regions: Seq<LoadedRegion>, k: int)
    requires
        0 < k <= regions.len(),
    ensures
        span_bounds(regions, k) matches Ok((low, high)) ==> {
            &&& 0 <= low <= high <= u64::MAX
            &&& forall|i: int|
                0 <= i < k ==> low <= (#[trigger] regions[i]).runtime_range.start.0
                    && regions[i].runtime_range.limit() <= high
        },
    decreases k,
{
    if k > 1 {
        lemma_span_bounds(regions, k - 1);
    }
}

proof fn lemma_span_fault(regions: Seq<LoadedRegion>, k: int, n: int)
    requires
        0 <= k <= n <= regions.len(),
        span_bounds(regions, k) is Err,
    ensures
        span_bounds(regions, n) == span_bounds(regions, k),
    decreases n - k,
{
    if k < n {
        lemma_span_fault(regions, k, n - 1);
    }
}

/// The span of an image holds every one of its regions.
pub proof fn spans_hold_their_regions(regions: Seq<LoadedRegion>, i: int)
    requires
        0 <= i < regions.len(),
    ensures
        span_spec(regions) matches Ok(span) ==> span.holds(
            regions[i].runtime_range.start,
            regions[i].runtime_range.len,
        ),
{
    lemma_span_bounds(regions, regions.len() as int);
}

/// The smallest span that holds the regions of an image. An image without regions
/// has none.
pub fn image_span(regions: &Vec<LoadedRegion>) -> (r: LoadResult<TargetRange>)
    ensures
        r == span_spec(regions@),
{
    let mut low: u64 = 0;
    let mut high: u64 = 0;
    let mut index: usize = 0;
    while index < regions.len()
        invariant
            index <= regions@.len(),
            span_bounds(regions@, index as int) == Ok::<(int, int), LoadError>(
                (low as int, high as int),
            ),
        decreases regions@.len() - index,
    {
        let range: TargetRange = regions[index].runtime_range();
        let end: TargetAddr = match claim_range(range.end(), LoadStage::LinkSeal) {
            Ok(end) => end,
            Err(error) => {
                proof {
                    lemma_span_fault(regions@, index + 1, regions@.len() as int);
                }
                return Err(error);
            },
        };
        if index == 0 || range.start().get() < low {
            low = range.start().get();
        }
        if index == 0 || end.get() > high {
            high = end.get();
        }
        index = index + 1;
    }
    if regions.len() == 0 {
        return Err(publish_error(LoadErrorKind::IncorrectLayout));
    }
    proof {
        lemma_span_bounds(regions@, regions@.len() as int);
    }
    Ok(TargetRange::new(TargetAddr::new(low), high - low))
}

/// The link map entry of one image.
pub open spec fn link_entry(graph: DependencyGraph, image: LinkMapImage<'_>) -> LoadResult<
    LinkMapEntryView,
> {
    if image.image_id.0 >= graph.nodes@.len() {
        Err(publish_failure(LoadErrorKind::BadElf))
    } else {
        let node = graph.nodes@[image.image_id.0 as int];
        match span_spec(image.regions@) {
            Err(error) => Err(error),
            Ok(map_span) => Ok(
                LinkMapEntryView {
                    owner: image.image_id,
                    identity: node.artifact@,
                    soname: name_view(node.soname),
                    ownership: node.ownership,
                    load_bias: image.load_bias,
                    entry: if image.image_id.0 == 0 {
                        Some(image.runtime_entry)
                    } else {
                        None
                    },
                    map_span,
                },
            ),
        }
    }
}

/// The first failure among the first `k` images.
pub open spec fn link_map_fault(graph: DependencyGraph, images: Seq<LinkMapImage<'_>>, k: int) -> Option<
    LoadError,
>
    decreases k,
{
    if k <= 0 {
        None
    } else if link_map_fault(graph, images, k - 1) is Some {
        link_map_fault(graph, images, k - 1)
    } else {
        match link_entry(graph, images[k - 1]) {
            Ok(_) => None,
            Err(error) => Some(error),
        }
    }
}

/// The entry point of the last root among the first `k` images.
pub open spec fn root_entry(images: Seq<LinkMapImage<'_>>, k: int) -> Option<TargetAddr>
    decreases k,
{
    if k <= 0 {
        None
    } else if images[k - 1].image_id.0 == 0 {
        Some(images[k - 1].runtime_entry)
    } else {
        root_entry(images, k - 1)
    }
}

proof fn lemma_link_map_fault(
    graph: DependencyGraph,
    images: Seq<LinkMapImage<'_>>,
    k: int,
    n: int,
)
    requires
        0 <= k <= n,
        link_map_fault(graph, images, k) is Some,
    ensures
        link_map_fault(graph, images, n) == link_map_fault(graph, images, k),
    decreases n - k,
{
    if k < n {
        lemma_link_map_fault(graph, images, k, n - 1);
    }
}

/// The manifest of a link: one entry per image in the order given, and the entry
/// point of the root.
pub fn build_manifest(graph: &DependencyGraph, images: &Vec<LinkMapImage<'_>>) -> (r: LoadResult<
    PreparedLinkManifest,
>)
    ensures
        match link_map_fault(*graph, images@, images@.len() as int) {
            Some(error) => r == Err::<PreparedLinkManifest, LoadError>(error),
            None => match root_entry(images@, images@.len() as int) {
                None => r == Err::<PreparedLinkManifest, LoadError>(
                    publish_failure(LoadErrorKind::BadElf),
                ),
                Some(entry) => match r {
                    Ok(manifest) => {
                        &&& manifest.entry == entry
                        &&& manifest.link_map@.len() == images@.len()
                        &&& forall|i: int|
                            0 <= i < images@.len() ==> link_entry(*graph, images@[i]) == Ok::<
                                LinkMapEntryView,
                                LoadError,
                            >((#[trigger] manifest.link_map@[i])@)
                    },
                    Err(_) => false,
                },
            },
        },
{
    let mut entries: Vec<LinkMapEntry> = Vec::new();
    let mut root: Option<TargetAddr> = None;
    let mut index: usize = 0;
    while index < images.len()
        invariant
            index <= images@.len(),
            link_map_fault(*graph, images@, index as int) is None,
            root == root_entry(images@, index as int),
            entries@.len() == index,
            forall|i: int|
                0 <= i < index ==> link_entry(*graph, images@[i]) == Ok::<
                    LinkMapEntryView,
                    LoadError,
                >((#[trigger] entries@[i])@),
        decreases images@.len() - index,
    {
        let image: &LinkMapImage<'_> = &images[index];
        let node = match graph.node(image.image_id) {
            Some(node) => node,
            None => {
                proof {
                    lemma_link_map_fault(*graph, images@, index + 1, images@.len() as int);
                }
                return Err(publish_error(LoadErrorKind::BadElf));
            },
        };
        let map_span: TargetRange = match image_span(image.regions) {
            Ok(map_span) => map_span,
            Err(error) => {
                proof {
                    lemma_link_map_fault(*graph, images@, index + 1, images@.len() as int);
                }
                return Err(error);
            },
        };
        let entry: Option<TargetAddr> = if image.image_id.get() == 0 {
            root = Some(image.runtime_entry);
            Some(image.runtime_entry)
        } else {
            None
        };
        entries.push(
            LinkMapEntry {
                owner: image.image_id,
                identity: node.artifact.clone(),
                soname: duplicate_name(&node.soname),
                ownership: node.ownership(),
                load_bias: image.load_bias,
                entry,
                map_span,
            },
        );
        index = index + 1;
    }
    match root {
        Some(entry) => Ok(PreparedLinkManifest { entry, link_map: entries }),
        None => Err(publish_error(LoadErrorKind::BadElf)),
    }
}

/// One image of a published link.
pub struct CommittedImage {
    pub owner: ImageId,
    pub descriptor: PublishedImageDescriptor,
}

impl CommittedImage {
    #[inline]
    pub fn new(owner: ImageId, descriptor: PublishedImageDescriptor) -> (r: Self)
        ensures
            r == (CommittedImage { owner, descriptor }),
    {
        CommittedImage { owner, descriptor }
    }

    #[inline]
    pub fn owner(&self) -> (r: ImageId)
        ensures
            r == self.owner,
    {
        self.owner
    }

    /// What other links import of the image.
    #[inline]
    pub fn descriptor(&self) -> (r: &PublishedImageDescriptor)
        ensures
            *r == self.descriptor,
    {
        &self.descriptor
    }

    #[inline]
    pub fn allocation(&self) -> (r: ImageAllocation)
        ensures
            r == self.descriptor.allocation,
    {
        self.descriptor.allocation()
    }

    #[inline]
    pub fn sealed(&self) -> (r: &SealedState)
        ensures
            *r == self.descriptor.sealed,
    {
        self.descriptor.sealed()
    }
}

/// The graph, the scopes and the images of a published link.
pub struct LinkContext {
    pub graph: DependencyGraph,
    pub scopes: ScopeSet,
    pub images: Vec<CommittedImage>,
}

impl LinkContext {
    #[inline]
    pub fn new(graph: DependencyGraph, scopes: ScopeSet, images: Vec<CommittedImage>) -> (r: Self)
        ensures
            r == (LinkContext { graph, scopes, images }),
    {
        LinkContext { graph, scopes, images }
    }

    #[inline]
    pub fn graph(&self) -> (r: &DependencyGraph)
        ensures
            *r == self.graph,
    {
        &self.graph
    }

    #[inline]
    pub fn scopes(&self) -> (r: &ScopeSet)
        ensures
            *r == self.scopes,
    {
        &self.scopes
    }

    #[inline]
    pub fn images(&self) -> (r: &[CommittedImage])
        ensures
            r@ == self.images@,
    {
        self.images.as_slice()
    }
}

/// The authority over every image of a link, in the order of the images. Nothing
/// else moves when a link is committed.
pub struct CommittingLinkProduct {
    pub leases: Vec<AllocationLease>,
}

impl CommittingLinkProduct {
    #[inline]
    pub fn new(leases: Vec<AllocationLease>) -> (r: Self)
        ensures
            r.leases == leases,
    {
        CommittingLinkProduct { leases }
    }

    #[inline]
    pub fn into_leases(self) -> (r: Vec<AllocationLease>)
        ensures
            r == self.leases,
    {
        self.leases
    }
}

/// The owner of published links.
///
/// All that can fail happens in `prepare_batch`, which changes nothing that
/// others see. `commit_batch` only moves the prepared state and the leases of the
/// same link into their long-term owner.
pub trait LinkPublisher {
    type PreparedBatch;

    type Receipt;

    fn prepare_batch(&mut self, manifest: &PreparedLinkManifest) -> LoadResult<Self::PreparedBatch>;

    fn commit_batch(
        &mut self,
        prepared: Self::PreparedBatch,
        product: CommittingLinkProduct,
    ) -> Self::Receipt;
}

/// A published link.
pub struct LinkProduct<Receipt> {
    pub context: LinkContext,
    pub entry: TargetAddr,
    pub init_plan: InitPlan,
    pub fini_plan: FiniPlan,
    pub link_map: Vec<LinkMapEntry>,
    pub metrics: LoadMetrics,
    pub publication: Receipt,
}

impl<Receipt> LinkProduct<Receipt> {
    pub fn new(
        context: LinkContext,
        entry: TargetAddr,
        init_plan: InitPlan,
        fini_plan: FiniPlan,
        link_map: Vec<LinkMapEntry>,
        metrics: LoadMetrics,
        publication: Receipt,
    ) -> (r: Self)
        ensures
            r == (LinkProduct {
                context,
                entry,
                init_plan,
                fini_plan,
                link_map,
                metrics,
                publication,
            }),
    {
        LinkProduct { context, entry, init_plan, fini_plan, link_map, metrics, publication }
    }

    #[inline]
    pub fn context(&self) -> (r: &LinkContext)
        ensures
            *r == self.context,
    {
        &self.context
    }

    /// The root's entry point, with its mode bit.
    #[inline]
    pub fn entry(&self) -> (r: TargetAddr)
        ensures
            r == self.entry,
    {
        self.entry
    }

    #[inline]
    pub fn init_plan(&self) -> (r: &InitPlan)
        ensures
            *r == self.init_plan,
    {
        &self.init_plan
    }

    #[inline]
    pub fn fini_plan(&self) -> (r: &FiniPlan)
        ensures
            *r == self.fini_plan,
    {
        &self.fini_plan
    }

    #[inline]
    pub fn link_map(&self) -> (r: &[LinkMapEntry])
        ensures
            r@ == self.link_map@,
    {
        self.link_map.as_slice()
    }

    #[inline]
    pub fn metrics(&self) -> (r: LoadMetrics)
        ensures
            r == self.metrics,
    {
        self.metrics
    }

    #[inline]
    pub fn publication(&self) -> (r: &Receipt)
        ensures
            *r == self.publication,
    {
        &self.publication
    }
}

proof fn lemma_span_reached(regions: Seq<LoadedRegion>, k: int) -> (found: (int, int))
    requires
        0 < k <= regions.len(),
        span_bounds(regions, k) is Ok,
    ensures
        0 <= found.0 < k,
        0 <= found.1 < k,
        (span_bounds(regions, k)->Ok_0).0 == regions[found.0].runtime_range.start.0,
        (span_bounds(regions, k)->Ok_0).1 == regions[found.1].runtime_range.start.0
            + regions[found.1].runtime_range.len,
    decreases k,
{
    if k == 1 {
        (0, 0)
    } else {
        let before = lemma_span_reached(regions, k - 1);
        let (low, high) = span_bounds(regions, k - 1)->Ok_0;
        let range = regions[k - 1].runtime_range;
        (
            if range.start.0 < low {
                k - 1
            } else {
                before.0
            },
            if range.limit() > high {
                k - 1
            } else {
                before.1
            },
        )
    }
}

/// The span of an image is the smallest one that holds its regions: it starts where one of
/// them starts and ends where one of them ends, and none starts lower or ends higher.
pub proof fn spans_are_the_smallest(regions: Seq<LoadedRegion>, span: TargetRange) -> (found: (
    int,
    int,
))
    requires
        span_spec(regions) == Ok::<TargetRange, LoadError>(span),
    ensures
        0 <= found.0 < regions.len(),
        0 <= found.1 < regions.len(),
        span.start.0 == regions[found.0].runtime_range.start.0,
        span.start.0 + span.len == regions[found.1].runtime_range.start.0
            + regions[found.1].runtime_range.len,
        forall|i: int|
            0 <= i < regions.len() ==> span.start.0 <= (
            #[trigger] regions[i]).runtime_range.start.0 && regions[i].runtime_range.start.0
                + regions[i].runtime_range.len <= span.start.0 + span.len,
{
    lemma_span_bounds(regions, regions.len() as int);
    lemma_span_reached(regions, regions.len() as int)
}

/// An entry of the link map is that of its node in the graph and of its own image. Only the
/// root has an entry point.
pub proof fn link_map_entries_are_those_of_their_nodes(
    graph: DependencyGraph,
    image: LinkMapImage<'_>,
    entry: LinkMapEntryView,
)
    requires
        link_entry(graph, image) == Ok::<LinkMapEntryView, LoadError>(entry),
    ensures
        image.image_id.0 < graph.nodes@.len(),
        entry.owner == image.image_id,
        entry.identity == graph.nodes@[image.image_id.0 as int].artifact@,
        entry.soname == name_view(graph.nodes@[image.image_id.0 as int].soname),
        entry.ownership == graph.nodes@[image.image_id.0 as int].ownership,
        entry.load_bias == image.load_bias,
        image.image_id.0 == 0 ==> entry.entry == Some(image.runtime_entry),
        image.image_id.0 != 0 ==> entry.entry is None,
        forall|i: int|
            0 <= i < image.regions@.len() ==> entry.map_span.start.0 <= (
            #[trigger] image.regions@[i]).runtime_range.start.0
                && image.regions@[i].runtime_range.start.0 + image.regions@[i].runtime_range.len
                <= entry.map_span.start.0 + entry.map_span.len,
{
    let found = spans_are_the_smallest(image.regions@, entry.map_span);
}

/// A link is entered at the entry point of its root.
pub proof fn links_are_entered_at_their_root(images: Seq<LinkMapImage<'_>>, root: int)
    requires
        0 <= root < images.len(),
        forall|i: int|
            0 <= i < images.len() ==> ((#[trigger] images[i]).image_id.0 == 0 <==> i == root),
    ensures
        root_entry(images, images.len() as int) == Some(images[root].runtime_entry),
{
    lemma_root_entry(images, root, images.len() as int);
}

proof fn lemma_root_entry(images: Seq<LinkMapImage<'_>>, root: int, k: int)
    requires
        0 <= root < k <= images.len(),
        forall|i: int|
            0 <= i < images.len() ==> ((#[trigger] images[i]).image_id.0 == 0 <==> i == root),
    ensures
        root_entry(images, k) == Some(images[root].runtime_entry),
    decreases k,
{
    if root < k - 1 {
        lemma_root_entry(images, root, k - 1);
    }
}

} // verus!
