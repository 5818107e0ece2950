//! System images that later links import.
//!
//! A descriptor holds what another link needs of a ready image: its identity, its
//! regions, what it exports and its sealed state. It never holds the authority
//! over the image's memory.

use crate::address::{TargetAddr, TargetRange};
use crate::dynamic_linker::artifact::{ArtifactIdentity, DependencyName, ImageOwnership};
use crate::dynamic_linker::metadata::ProgramHeaderRuntimeInfo;
use crate::dynamic_linker::symbol::{name_bytes, saturated, SymbolTable};
use crate::image::sealed::SealedState;
use crate::memory::ImageAllocation;
use crate::permissions::MemoryPermissions;
use vstd::prelude::*;

verus! {

/// One region of a ready image.
#[derive(Clone, Copy, Debug, PartialEq, Eq, Structural)]
pub struct PublishedRegion {
    pub runtime_range: TargetRange,
    pub permissions: MemoryPermissions,
}

impl PublishedRegion {
    #[inline]
    pub fn new(runtime_range: TargetRange, permissions: MemoryPermissions) -> (r: Self)
        ensures
            r == (PublishedRegion { runtime_range, permissions }),
    {
        PublishedRegion { runtime_range, permissions }
    }

    #[inline]
    pub fn runtime_range(&self) -> (r: TargetRange)
        ensures
            r == self.runtime_range,
    {
        self.runtime_range
    }

    #[inline]
    pub fn permissions(&self) -> (r: MemoryPermissions)
        ensures
            r == self.permissions,
    {
        self.permissions
    }
}

/// What a ready image exports.
pub struct PublishedSymbolTable {
    pub table: SymbolTable,
}

impl PublishedSymbolTable {
    #[inline]
    pub fn new(table: SymbolTable) -> (r: Self)
        ensures
            r.table == table,
    {
        PublishedSymbolTable { table }
    }

    #[inline]
    pub fn table(&self) -> (r: &SymbolTable)
        ensures
            *r == self.table,
    {
        &self.table
    }

    /// The bytes that the exports take.
    #[inline]
    pub fn metadata_bytes(&self) -> (r: u64)
        ensures
            r == saturated(name_bytes(self.table.entries@, self.table.entries@.len() as int)),
    {
        self.table.metadata_bytes()
    }
}

/// A ready system image, as other links see it.
pub struct PublishedImageDescriptor {
    pub identity: ArtifactIdentity,
    pub soname: Option<DependencyName>,
    pub ownership: ImageOwnership,
    pub allocation: ImageAllocation,
    pub load_bias: TargetAddr,
    pub regions: Vec<PublishedRegion>,
    pub exports: PublishedSymbolTable,
    pub program_headers: ProgramHeaderRuntimeInfo,
    pub sealed: SealedState,
}

impl PublishedImageDescriptor {
    pub fn new(
        identity: ArtifactIdentity,
        soname: Option<DependencyName>,
        ownership: ImageOwnership,
        allocation: ImageAllocation,
        load_bias: TargetAddr,
        regions: Vec<PublishedRegion>,
        exports: PublishedSymbolTable,
        program_headers: ProgramHeaderRuntimeInfo,
        sealed: SealedState,
    ) -> (r: Self)
        ensures
            r == (PublishedImageDescriptor {
                identity,
                soname,
                ownership,
                allocation,
                load_bias,
                regions,
                exports,
                program_headers,
                sealed,
            }),
    {
        PublishedImageDescriptor {
            identity,
            soname,
            ownership,
            allocation,
            load_bias,
            regions,
            exports,
            program_headers,
            sealed,
        }
    }

    #[inline]
    pub fn identity(&self) -> (r: &ArtifactIdentity)
        ensures
            *r == self.identity,
    {
        &self.identity
    }

    #[inline]
    pub fn soname(&self) -> (r: Option<&DependencyName>)
        ensures
            r is Some <==> self.soname is Some,
            r matches Some(name) ==> self.soname == Some(*name),
    {
        match &self.soname {
            Some(name) => Some(name),
            None => None,
        }
    }

    #[inline]
    pub fn ownership(&self) -> (r: ImageOwnership)
        ensures
            r == self.ownership,
    {
        self.ownership
    }

    /// The allocation that holds the image.
    #[inline]
    pub fn allocation(&self) -> (r: ImageAllocation)
        ensures
            r == self.allocation,
    {
        self.allocation
    }

    #[inline]
    pub fn load_bias(&self) -> (r: TargetAddr)
        ensures
            r == self.load_bias,
    {
        self.load_bias
    }

    #[inline]
    pub fn regions(&self) -> (r: &[PublishedRegion])
        ensures
            r@ == self.regions@,
    {
        self.regions.as_slice()
    }

    #[inline]
    pub fn program_headers(&self) -> (r: &ProgramHeaderRuntimeInfo)
        ensures
            *r == self.program_headers,
    {
        &self.program_headers
    }

    #[inline]
    pub fn exports(&self) -> (r: &SymbolTable)
        ensures
            *r == self.exports.table,
    {
        self.exports.table()
    }

    #[inline]
    pub fn sealed(&self) -> (r: &SealedState)
        ensures
            *r == self.sealed,
    {
        &self.sealed
    }
}

/// A ready image that a resolver offers in place of a file.
pub struct ImportedImageDescriptor {
    pub descriptor: Box<PublishedImageDescriptor>,
}

impl ImportedImageDescriptor {
    #[inline]
    pub fn new(descriptor: PublishedImageDescriptor) -> (r: Self)
        ensures
            *r.descriptor == descriptor,
    {
        ImportedImageDescriptor { descriptor: Box::new(descriptor) }
    }

    #[inline]
    pub fn descriptor(&self) -> (r: &PublishedImageDescriptor)
        ensures
            *r == *self.descriptor,
    {
        &self.descriptor
    }

    #[inline]
    pub fn into_descriptor(self) -> (r: PublishedImageDescriptor)
        ensures
            r == *self.descriptor,
    {
        *self.descriptor
    }
}

} // verus!
