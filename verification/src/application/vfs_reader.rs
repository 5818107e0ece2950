//! File snapshots: when a file counts as changed, how its failures are reported
//! and how it is identified.

use crate::bytes::{word_at, word_bytes, word_round_trip, write_word};
use crate::dynamic_linker::artifact::{
    ArtifactIdentity, ArtifactIdentityView, BuildId, FileIdentity,
};
use crate::error::{unclaimed, ErrorContext, LoadError, LoadErrorKind, LoadResult};
use crate::identity::ElfData;
use vstd::prelude::*;

verus! {

/// One content of one file.
#[derive(Clone, Copy, Debug, PartialEq, Eq, Structural)]
pub struct FileSnapshotId {
    pub fs_instance: u64,
    pub inode: u64,
    pub content_generation: u64,
    pub len: u64,
}

/// Why an access to a file failed.
#[derive(Clone, Copy, Debug, PartialEq, Eq, Structural)]
pub enum FileFault {
    /// The device failed.
    Io,
    /// The offset has no place.
    Overflow,
    /// The file ended before the access did.
    NoData,
    /// Anything else.
    Other,
}

/// The failure of a source that is not what it was.
pub open spec fn changed() -> LoadError {
    unclaimed(LoadErrorKind::SourceChanged, ErrorContext::Nothing)
}

pub(crate) fn source_changed() -> (r: LoadError)
    ensures
        r == changed(),
{
    LoadError::new(LoadErrorKind::SourceChanged, ErrorContext::Nothing)
}

/// Checks that a file still has the content that it had.
pub fn check_generation(frozen: &FileSnapshotId, now: &FileSnapshotId) -> (r: LoadResult<()>)
    ensures
        r == (if frozen.content_generation == now.content_generation {
            Ok::<(), LoadError>(())
        } else {
            Err(changed())
        }),
{
    if now.content_generation != frozen.content_generation {
        return Err(source_changed());
    }
    Ok(())
}

/// How a fault is reported.
pub open spec fn fault_kind(fault: FileFault) -> LoadErrorKind {
    match fault {
        FileFault::Io => LoadErrorKind::Io,
        FileFault::Overflow => LoadErrorKind::IntegerOverflow,
        FileFault::NoData => LoadErrorKind::OutOfBounds,
        FileFault::Other => LoadErrorKind::Backend,
    }
}

/// Reports a fault of an access to a file.
pub fn map_error(fault: FileFault, offset: u64, len: u64, file_len: u64) -> (r: LoadError)
    ensures
        r == unclaimed(fault_kind(fault), ErrorContext::FileRange { offset, len, file_len }),
{
    let kind: LoadErrorKind = match fault {
        FileFault::Io => LoadErrorKind::Io,
        FileFault::Overflow => LoadErrorKind::IntegerOverflow,
        FileFault::NoData => LoadErrorKind::OutOfBounds,
        FileFault::Other => LoadErrorKind::Backend,
    };
    LoadError::new(kind, ErrorContext::FileRange { offset, len, file_len })
}

/// The bytes that identify a snapshot.
pub open spec fn snapshot_bytes(snapshot: FileSnapshotId) -> Seq<u8> {
    word_bytes(snapshot.fs_instance as nat, 8, ElfData::Little) + word_bytes(
        snapshot.inode as nat,
        8,
        ElfData::Little,
    ) + word_bytes(snapshot.content_generation as nat, 8, ElfData::Little) + word_bytes(
        snapshot.len as nat,
        8,
        ElfData::Little,
    )
}

/// The identity of an artifact that a snapshot holds.
pub open spec fn snapshot_identity(
    snapshot: FileSnapshotId,
    build_id: Option<Seq<u8>>,
) -> ArtifactIdentityView {
    ArtifactIdentityView {
        file: snapshot_bytes(snapshot),
        generation: snapshot.content_generation,
        build_id,
    }
}

/// Makes the identity of an artifact from its snapshot.
pub fn identity_from_snapshot(snapshot: &FileSnapshotId, build_id: Option<&[u8]>) -> (r:
    ArtifactIdentity)
    ensures
        r@ == snapshot_identity(
            *snapshot,
            match build_id {
                Some(id) => Some(id@),
                None => None,
            },
        ),
{
    let mut bytes: Vec<u8> = write_word(snapshot.fs_instance, 8, ElfData::Little);
    let mut inode: Vec<u8> = write_word(snapshot.inode, 8, ElfData::Little);
    let mut generation: Vec<u8> = write_word(snapshot.content_generation, 8, ElfData::Little);
    let mut len: Vec<u8> = write_word(snapshot.len, 8, ElfData::Little);
    bytes.append(&mut inode);
    bytes.append(&mut generation);
    bytes.append(&mut len);
    let build: Option<BuildId> = match build_id {
        Some(id) => Some(BuildId::from_bytes(id)),
        None => None,
    };
    ArtifactIdentity::new(
        FileIdentity::from_bytes(bytes.as_slice()),
        snapshot.content_generation,
        build,
    )
}

/// Different snapshots identify different artifacts.
pub proof fn snapshots_have_their_own_identity(
    a: FileSnapshotId,
    b: FileSnapshotId,
    a_build: Option<Seq<u8>>,
    b_build: Option<Seq<u8>>,
)
    requires
        snapshot_identity(a, a_build) == snapshot_identity(b, b_build),
    ensures
        a == b,
        a_build == b_build,
{
    let first = snapshot_bytes(a);
    let second = snapshot_bytes(b);
    lemma_word(a.fs_instance);
    lemma_word(a.inode);
    lemma_word(a.content_generation);
    lemma_word(a.len);
    lemma_word(b.fs_instance);
    lemma_word(b.inode);
    lemma_word(b.content_generation);
    lemma_word(b.len);
    assert(first.subrange(0, 8) =~= word_bytes(a.fs_instance as nat, 8, ElfData::Little));
    assert(second.subrange(0, 8) =~= word_bytes(b.fs_instance as nat, 8, ElfData::Little));
    assert(first.subrange(8, 16) =~= word_bytes(a.inode as nat, 8, ElfData::Little));
    assert(second.subrange(8, 16) =~= word_bytes(b.inode as nat, 8, ElfData::Little));
    assert(first.subrange(24, 32) =~= word_bytes(a.len as nat, 8, ElfData::Little));
    assert(second.subrange(24, 32) =~= word_bytes(b.len as nat, 8, ElfData::Little));
}

proof fn lemma_word(value: u64)
    ensures
        word_bytes(value as nat, 8, ElfData::Little).len() == 8,
        crate::bytes::word_value(word_bytes(value as nat, 8, ElfData::Little), ElfData::Little)
            == value,
{
    vstd::arithmetic::power::lemma_pow1(256);
    vstd::arithmetic::power::lemma_pow_adds(256, 1, 1);
    vstd::arithmetic::power::lemma_pow_adds(256, 2, 2);
    vstd::arithmetic::power::lemma_pow_adds(256, 4, 4);
    let one = vstd::arithmetic::power::pow(256, 1);
    let two = vstd::arithmetic::power::pow(256, 2);
    let four = vstd::arithmetic::power::pow(256, 4);
    assert(one * one == 0x1_0000) by (nonlinear_arith)
        requires
            one == 256,
    ;
    assert(two * two == 0x1_0000_0000) by (nonlinear_arith)
        requires
            two == 0x1_0000,
    ;
    assert(four * four == 0x1_0000_0000_0000_0000) by (nonlinear_arith)
        requires
            four == 0x1_0000_0000,
    ;
    word_round_trip(value as nat, 8, ElfData::Little);
}

/// A fault is reported as what it is: failed input, a number out of range, a place without
/// data, or a failure of the file system.
pub proof fn faults_are_reported_as_they_are(fault: FileFault)
    ensures
        fault is Io <==> fault_kind(fault) is Io,
        fault is Overflow <==> fault_kind(fault) is IntegerOverflow,
        fault is NoData <==> fault_kind(fault) is OutOfBounds,
        fault is Other <==> fault_kind(fault) is Backend,
{
}

/// The identity of an artifact has the numbers of its snapshot one behind the other, eight
/// bytes each, the lowest first: file system, file, content and length.
pub proof fn identities_hold_their_snapshot(snapshot: FileSnapshotId, build_id: Option<Seq<u8>>)
    ensures
        ({
            let identity = snapshot_identity(snapshot, build_id);
            &&& identity.generation == snapshot.content_generation
            &&& identity.build_id == build_id
            &&& identity.file.len() == 32
            &&& word_at(identity.file, 0, 8, ElfData::Little) == snapshot.fs_instance
            &&& word_at(identity.file, 8, 8, ElfData::Little) == snapshot.inode
            &&& word_at(identity.file, 16, 8, ElfData::Little) == snapshot.content_generation
            &&& word_at(identity.file, 24, 8, ElfData::Little) == snapshot.len
        }),
{
    let all = snapshot_bytes(snapshot);
    lemma_word(snapshot.fs_instance);
    lemma_word(snapshot.inode);
    lemma_word(snapshot.content_generation);
    lemma_word(snapshot.len);
    assert(all.subrange(0, 8) =~= word_bytes(snapshot.fs_instance as nat, 8, ElfData::Little));
    assert(all.subrange(8, 16) =~= word_bytes(snapshot.inode as nat, 8, ElfData::Little));
    assert(all.subrange(16, 24) =~= word_bytes(
        snapshot.content_generation as nat,
        8,
        ElfData::Little,
    ));
    assert(all.subrange(24, 32) =~= word_bytes(snapshot.len as nat, 8, ElfData::Little));
}

} // verus!
