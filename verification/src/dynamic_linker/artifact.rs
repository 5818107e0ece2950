//! Artifact identities, dependency names and the resolver interface.

use crate::bytes::{bytes_equal, bytes_precede, copy_bytes, copy_range};
use crate::error::{ErrorContext, LoadError, LoadErrorKind, LoadResult};
use crate::reader::ElfReader;
use vstd::prelude::*;

verus! {

/// Opaque, comparable snapshot identity supplied by the artifact backend.
///
/// Two values are equal only when they refer to the same backend snapshot.
#[derive(Debug, PartialEq, Eq, PartialOrd, Ord)]
pub struct FileIdentity {
    bytes: Vec<u8>,
}

impl View for FileIdentity {
    type V = Seq<u8>;

    closed spec fn view(&self) -> Seq<u8> {
        self.bytes@
    }
}

impl Clone for FileIdentity {
    fn clone(&self) -> (r: Self)
        ensures
            r@ == self@,
    {
        FileIdentity { bytes: copy_bytes(self.bytes.as_slice()) }
    }
}

impl FileIdentity {
    pub fn from_bytes(bytes: &[u8]) -> (r: Self)
        ensures
            r@ == bytes@,
    {
        FileIdentity { bytes: copy_bytes(bytes) }
    }

    pub fn same(&self, other: &Self) -> (r: bool)
        ensures
            r == (self@ == other@),
    {
        bytes_equal(self.bytes.as_slice(), other.bytes.as_slice())
    }
}

/// Opaque build identifier attached to an artifact.
#[derive(Debug, PartialEq, Eq, PartialOrd, Ord)]
pub struct BuildId {
    bytes: Vec<u8>,
}

impl View for BuildId {
    type V = Seq<u8>;

    closed spec fn view(&self) -> Seq<u8> {
        self.bytes@
    }
}

impl Clone for BuildId {
    fn clone(&self) -> (r: Self)
        ensures
            r@ == self@,
    {
        BuildId { bytes: copy_bytes(self.bytes.as_slice()) }
    }
}

impl BuildId {
    pub fn from_bytes(bytes: &[u8]) -> (r: Self)
        ensures
            r@ == bytes@,
    {
        BuildId { bytes: copy_bytes(bytes) }
    }

    pub fn same(&self, other: &Self) -> (r: bool)
        ensures
            r == (self@ == other@),
    {
        bytes_equal(self.bytes.as_slice(), other.bytes.as_slice())
    }
}

/// How one artifact participates in a link session.
#[derive(Clone, Copy, Debug, PartialEq, Eq, Structural)]
pub enum ArtifactRole {
    /// The link root, published as the application entry.
    ExecutableRoot,
    /// A shared object that some other image depends on.
    SharedObject,
}

/// Stable identity of one loaded artifact.
#[derive(Debug, PartialEq, Eq, PartialOrd, Ord)]
pub struct ArtifactIdentity {
    file: FileIdentity,
    generation: u64,
    build_id: Option<BuildId>,
}

/// What two artifact identities are compared by.
#[verifier::ext_equal]
pub struct ArtifactIdentityView {
    pub file: Seq<u8>,
    pub generation: u64,
    pub build_id: Option<Seq<u8>>,
}

impl View for ArtifactIdentity {
    type V = ArtifactIdentityView;

    closed spec fn view(&self) -> ArtifactIdentityView {
        ArtifactIdentityView {
            file: self.file@,
            generation: self.generation,
            build_id: match self.build_id {
                Some(id) => Some(id@),
                None => None,
            },
        }
    }
}

impl Clone for ArtifactIdentity {
    fn clone(&self) -> (r: Self)
        ensures
            r@ == self@,
    {
        ArtifactIdentity {
            file: self.file.clone(),
            generation: self.generation,
            build_id: match &self.build_id {
                Some(id) => Some(id.clone()),
                None => None,
            },
        }
    }
}

impl ArtifactIdentity {
    pub fn new(file: FileIdentity, generation: u64, build_id: Option<BuildId>) -> (r: Self)
        ensures
            r@.file == file@,
            r@.generation == generation,
            r@.build_id == (match build_id {
                Some(id) => Some(id@),
                None => None,
            }),
    {
        ArtifactIdentity { file, generation, build_id }
    }

    pub fn file(&self) -> (r: &FileIdentity)
        ensures
            r@ == self@.file,
    {
        &self.file
    }

    pub fn generation(&self) -> (r: u64)
        ensures
            r == self@.generation,
    {
        self.generation
    }

    pub fn build_id(&self) -> (r: Option<&BuildId>)
        ensures
            r is Some <==> self@.build_id is Some,
            r matches Some(id) ==> self@.build_id == Some(id@),
    {
        match &self.build_id {
            Some(id) => Some(id),
            None => None,
        }
    }

    pub fn same(&self, other: &Self) -> (r: bool)
        ensures
            r == (self@ == other@),
    {
        let builds = match (&self.build_id, &other.build_id) {
            (Some(a), Some(b)) => a.same(b),
            (None, None) => true,
            _ => false,
        };
        builds && self.generation == other.generation && self.file.same(&other.file)
    }
}

/// Whether `bytes` are one name followed by its only NUL.
pub open spec fn is_terminated_name(bytes: Seq<u8>) -> bool {
    &&& bytes.len() >= 2
    &&& bytes.last() == 0
    &&& is_name(bytes.drop_last())
}

/// Whether `bytes` are a non-empty name without NUL.
pub open spec fn is_name(bytes: Seq<u8>) -> bool {
    &&& bytes.len() > 0
    &&& forall|i: int| 0 <= i < bytes.len() ==> bytes[i] != 0
}

/// The failure of bytes that are no dependency name.
pub open spec fn bad_name() -> LoadError {
    LoadError { stage: None, kind: LoadErrorKind::BadElf, context: ErrorContext::Nothing }
}

/// Owned, validated dependency name: never empty and free of NUL.
///
/// Names are compared by their raw bytes.
#[derive(Debug, PartialEq, Eq, PartialOrd, Ord)]
pub struct DependencyName {
    name: Vec<u8>,
}

impl View for DependencyName {
    type V = Seq<u8>;

    closed spec fn view(&self) -> Seq<u8> {
        self.name@
    }
}

impl Clone for DependencyName {
    fn clone(&self) -> (r: Self)
        ensures
            r@ == self@,
    {
        proof {
            use_type_invariant(self);
        }
        DependencyName { name: copy_bytes(self.name.as_slice()) }
    }
}

impl DependencyName {
    #[verifier::type_invariant]
    spec fn valid(self) -> bool {
        is_name(self.name@)
    }

    /// Validates and copies `bytes`, which must end with exactly one NUL and hold
    /// a non-empty name before it.
    pub fn from_terminated(bytes: &[u8]) -> (r: LoadResult<Self>)
        ensures
            is_terminated_name(bytes@) ==> r is Ok && r->Ok_0@ == bytes@.drop_last(),
            !is_terminated_name(bytes@) ==> r == Err::<Self, LoadError>(bad_name()),
    {
        let len: usize = bytes.len();
        if len == 0 || bytes[len - 1] != 0 {
            return Err(LoadError::new(LoadErrorKind::BadElf, ErrorContext::Nothing));
        }
        let name = copy_range(bytes, 0, len - 1);
        assert(name@ == bytes@.drop_last());
        DependencyName::validated(name)
    }

    /// Validates and copies `bytes`, which hold a name without a terminator.
    pub fn from_bytes(bytes: &[u8]) -> (r: LoadResult<Self>)
        ensures
            is_name(bytes@) ==> r is Ok && r->Ok_0@ == bytes@,
            !is_name(bytes@) ==> r == Err::<Self, LoadError>(bad_name()),
    {
        DependencyName::validated(copy_bytes(bytes))
    }

    fn validated(name: Vec<u8>) -> (r: LoadResult<Self>)
        ensures
            is_name(name@) ==> r is Ok && r->Ok_0@ == name@,
            !is_name(name@) ==> r == Err::<Self, LoadError>(bad_name()),
    {
        if name.len() == 0 {
            return Err(LoadError::new(LoadErrorKind::BadElf, ErrorContext::Nothing));
        }
        let mut index: usize = 0;
        while index < name.len()
            invariant
                index <= name@.len(),
                forall|i: int| 0 <= i < index ==> name@[i] != 0,
            decreases name@.len() - index,
        {
            if name[index] == 0 {
                assert(name@[index as int] == 0);
                return Err(LoadError::new(LoadErrorKind::BadElf, ErrorContext::Nothing));
            }
            index = index + 1;
        }
        Ok(DependencyName { name })
    }

    pub fn as_bytes(&self) -> (r: &[u8])
        ensures
            r@ == self@,
            is_name(r@),
    {
        proof {
            use_type_invariant(self);
        }
        self.name.as_slice()
    }

    pub fn same(&self, other: &Self) -> (r: bool)
        ensures
            r == (self@ == other@),
    {
        bytes_equal(self.name.as_slice(), other.name.as_slice())
    }

    /// Whether this name comes before `other` in byte order.
    pub fn precedes(&self, other: &Self) -> (r: bool)
        ensures
            r == crate::bytes::bytes_before(self@, other@),
    {
        bytes_precede(self.name.as_slice(), other.name.as_slice())
    }
}

/// The view of an optional name.
pub open spec fn name_view(name: Option<DependencyName>) -> Option<Seq<u8>> {
    match name {
        Some(name) => Some(name@),
        None => None,
    }
}

pub fn duplicate_name(name: &Option<DependencyName>) -> (r: Option<DependencyName>)
    ensures
        name_view(r) == name_view(*name),
{
    match name {
        Some(name) => Some(name.clone()),
        None => None,
    }
}

/// Writing a name with its terminator and reading it back gives the name.
pub proof fn terminated_name_round_trip(name: Seq<u8>)
    requires
        is_name(name),
    ensures
        is_terminated_name(name.push(0)),
        name.push(0).drop_last() == name,
{
    assert(name.push(0).drop_last() =~= name);
}

/// A request for one needed dependency, rooted at its requester.
#[derive(Debug, PartialEq, Eq)]
pub struct DependencyRequest {
    pub requester: ArtifactIdentity,
    pub needed: DependencyName,
    pub domain: LinkDomainId,
}

impl DependencyRequest {
    pub fn new(requester: ArtifactIdentity, needed: DependencyName, domain: LinkDomainId) -> (r: Self)
        ensures
            r == (DependencyRequest { requester, needed, domain }),
    {
        DependencyRequest { requester, needed, domain }
    }

    pub fn requester(&self) -> (r: &ArtifactIdentity)
        ensures
            *r == self.requester,
    {
        &self.requester
    }

    pub fn needed(&self) -> (r: &DependencyName)
        ensures
            *r == self.needed,
    {
        &self.needed
    }

    pub fn domain(&self) -> (r: LinkDomainId)
        ensures
            r == self.domain,
    {
        self.domain
    }
}

/// Who owns an image that takes part in a link.
#[derive(Clone, Copy, Debug, PartialEq, Eq, Structural)]
pub enum ImageOwnership {
    /// Loaded by this session for its own application.
    SessionPrivate,
    /// Loaded by this session on behalf of the system.
    SystemCandidate,
    /// A system image that was ready before this session.
    ExternalReady,
}

/// A resolved artifact: its identity and a reader over the same snapshot.
pub struct ResolvedArtifact<R> {
    pub identity: ArtifactIdentity,
    pub ownership: ImageOwnership,
    pub reader: R,
}

impl<R> ResolvedArtifact<R> {
    pub fn new(identity: ArtifactIdentity, ownership: ImageOwnership, reader: R) -> (r: Self)
        ensures
            r == (ResolvedArtifact { identity, ownership, reader }),
    {
        ResolvedArtifact { identity, ownership, reader }
    }

    pub fn identity(&self) -> (r: &ArtifactIdentity)
        ensures
            *r == self.identity,
    {
        &self.identity
    }

    pub fn ownership(&self) -> (r: ImageOwnership)
        ensures
            r == self.ownership,
    {
        self.ownership
    }

    pub fn reader(&self) -> (r: &R)
        ensures
            *r == self.reader,
    {
        &self.reader
    }

    pub fn into_reader(self) -> (r: R)
        ensures
            r == self.reader,
    {
        self.reader
    }
}

/// Resolves a dependency name to a concrete artifact snapshot.
///
/// A failed resolution leaves no loading entry behind.
pub trait ArtifactResolver: Sized {
    type Reader: ElfReader;

    /// Whether resolving a request can leave the resolver as `after` with this answer.
    spec fn answers(
        &self,
        after: Self,
        request: DependencyRequest,
        answer: LoadResult<ResolvedArtifact<Self::Reader>>,
    ) -> bool;

    fn resolve(&mut self, request: &DependencyRequest) -> (r: LoadResult<
        ResolvedArtifact<Self::Reader>,
    >)
        ensures
            old(self).answers(*final(self), *request, r),
    ;
}

/// Stable identifier of a loaded image within one session.
#[derive(Clone, Copy, Debug, PartialEq, Eq, Structural, PartialOrd, Ord)]
pub struct ImageId(pub u32);

impl ImageId {
    #[inline]
    pub fn new(value: u32) -> (r: Self)
        ensures
            r.0 == value,
    {
        ImageId(value)
    }

    #[inline]
    pub fn get(self) -> (r: u32)
        ensures
            r == self.0,
    {
        self.0
    }
}

/// Identifier of the link domain an artifact is resolved into.
#[derive(Clone, Copy, Debug, PartialEq, Eq, Structural, PartialOrd, Ord)]
pub struct LinkDomainId(pub u32);

impl LinkDomainId {
    #[inline]
    pub fn new(value: u32) -> (r: Self)
        ensures
            r.0 == value,
    {
        LinkDomainId(value)
    }

    #[inline]
    pub fn get(self) -> (r: u32)
        ensures
            r == self.0,
    {
        self.0
    }
}

} // verus!
