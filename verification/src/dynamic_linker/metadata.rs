//! The runtime metadata of one image of a link session.

use crate::address::{TargetAddr, TargetRange};
use crate::dynamic_linker::artifact::DependencyName;
use crate::dynamic_linker::symbol::{name_bytes, saturated, SymbolTable};
use crate::elf::LoadSegmentInfo;
use crate::image::inspect::StackKind;
use crate::image::loaded::LoadedRegion;
use crate::image::records::{RelocationRecord, RelocationTableKind};
use crate::memory::ImageAllocation;
use vstd::prelude::*;

verus! {

/// Where a relocation table lies and how it is divided.
#[derive(Clone, Copy, Debug, PartialEq, Eq, Structural)]
pub struct RelocationTableInfo {
    pub kind: RelocationTableKind,
    pub address: TargetAddr,
    pub byte_len: u64,
    pub entry_size: u64,
    pub entry_count: u64,
}

impl RelocationTableInfo {
    #[inline]
    pub fn new(
        kind: RelocationTableKind,
        address: TargetAddr,
        byte_len: u64,
        entry_size: u64,
        entry_count: u64,
    ) -> (r: Self)
        ensures
            r == (RelocationTableInfo { kind, address, byte_len, entry_size, entry_count }),
    {
        RelocationTableInfo { kind, address, byte_len, entry_size, entry_count }
    }

    #[inline]
    pub fn kind(&self) -> (r: RelocationTableKind)
        ensures
            r == self.kind,
    {
        self.kind
    }

    #[inline]
    pub fn address(&self) -> (r: TargetAddr)
        ensures
            r == self.address,
    {
        self.address
    }

    #[inline]
    pub fn byte_len(&self) -> (r: u64)
        ensures
            r == self.byte_len,
    {
        self.byte_len
    }

    #[inline]
    pub fn entry_size(&self) -> (r: u64)
        ensures
            r == self.entry_size,
    {
        self.entry_size
    }

    #[inline]
    pub fn entry_count(&self) -> (r: u64)
        ensures
            r == self.entry_count,
    {
        self.entry_count
    }
}

/// The relocation tables of an image and their records, those of the first table
/// first.
pub struct RelocationTables {
    pub rel: Option<RelocationTableInfo>,
    pub rela: Option<RelocationTableInfo>,
    pub jmp_rel: Option<RelocationTableInfo>,
    pub records: Vec<RelocationRecord>,
}

impl RelocationTables {
    #[inline]
    pub fn new(
        rel: Option<RelocationTableInfo>,
        rela: Option<RelocationTableInfo>,
        jmp_rel: Option<RelocationTableInfo>,
        records: Vec<RelocationRecord>,
    ) -> (r: Self)
        ensures
            r == (RelocationTables { rel, rela, jmp_rel, records }),
    {
        RelocationTables { rel, rela, jmp_rel, records }
    }

    #[inline]
    pub fn empty() -> (r: Self)
        ensures
            r.rel is None,
            r.rela is None,
            r.jmp_rel is None,
            r.records@.len() == 0,
    {
        RelocationTables { rel: None, rela: None, jmp_rel: None, records: Vec::new() }
    }

    #[inline]
    pub fn rel(&self) -> (r: Option<RelocationTableInfo>)
        ensures
            r == self.rel,
    {
        self.rel
    }

    #[inline]
    pub fn rela(&self) -> (r: Option<RelocationTableInfo>)
        ensures
            r == self.rela,
    {
        self.rela
    }

    #[inline]
    pub fn jmp_rel(&self) -> (r: Option<RelocationTableInfo>)
        ensures
            r == self.jmp_rel,
    {
        self.jmp_rel
    }

    #[inline]
    pub fn records(&self) -> (r: &[RelocationRecord])
        ensures
            r@ == self.records@,
    {
        self.records.as_slice()
    }

    #[inline]
    pub fn len(&self) -> (r: usize)
        ensures
            r == self.records@.len(),
    {
        self.records.len()
    }
}

/// Where the dynamic table lies and the flags that it sets.
#[derive(Clone, Copy, Debug, PartialEq, Eq, Structural)]
pub struct RuntimeDynamicInfo {
    pub vaddr: TargetAddr,
    pub byte_len: u64,
    pub entry_size: u64,
    pub entry_count: u64,
    pub flags: u64,
    pub flags_1: u64,
}

impl RuntimeDynamicInfo {
    #[inline]
    pub fn new(
        vaddr: TargetAddr,
        byte_len: u64,
        entry_size: u64,
        entry_count: u64,
        flags: u64,
        flags_1: u64,
    ) -> (r: Self)
        ensures
            r == (RuntimeDynamicInfo { vaddr, byte_len, entry_size, entry_count, flags, flags_1 }),
    {
        RuntimeDynamicInfo { vaddr, byte_len, entry_size, entry_count, flags, flags_1 }
    }

    #[inline]
    pub fn empty() -> (r: Self)
        ensures
            r == (RuntimeDynamicInfo {
                vaddr: TargetAddr(0),
                byte_len: 0,
                entry_size: 0,
                entry_count: 0,
                flags: 0,
                flags_1: 0,
            }),
    {
        RuntimeDynamicInfo::new(TargetAddr::new(0), 0, 0, 0, 0, 0)
    }

    #[inline]
    pub fn vaddr(&self) -> (r: TargetAddr)
        ensures
            r == self.vaddr,
    {
        self.vaddr
    }

    #[inline]
    pub fn byte_len(&self) -> (r: u64)
        ensures
            r == self.byte_len,
    {
        self.byte_len
    }

    #[inline]
    pub fn entry_size(&self) -> (r: u64)
        ensures
            r == self.entry_size,
    {
        self.entry_size
    }

    #[inline]
    pub fn entry_count(&self) -> (r: u64)
        ensures
            r == self.entry_count,
    {
        self.entry_count
    }

    #[inline]
    pub fn flags(&self) -> (r: u64)
        ensures
            r == self.flags,
    {
        self.flags
    }

    #[inline]
    pub fn flags_1(&self) -> (r: u64)
        ensures
            r == self.flags_1,
    {
        self.flags_1
    }
}

/// The entry points and arrays that start and end an image. The arrays are given
/// by their virtual addresses, since relocation may still rewrite what they hold.
#[derive(Clone, Copy, Debug, PartialEq, Eq, Structural)]
pub struct ImageLifecycleMetadata {
    pub init: Option<TargetAddr>,
    pub fini: Option<TargetAddr>,
    pub preinit_array: Option<TargetRange>,
    pub init_array: Option<TargetRange>,
    pub fini_array: Option<TargetRange>,
}

impl ImageLifecycleMetadata {
    #[inline]
    pub fn empty() -> (r: Self)
        ensures
            r == (ImageLifecycleMetadata {
                init: None,
                fini: None,
                preinit_array: None,
                init_array: None,
                fini_array: None,
            }),
    {
        ImageLifecycleMetadata::new(None, None, None, None, None)
    }

    #[inline]
    pub fn new(
        init: Option<TargetAddr>,
        fini: Option<TargetAddr>,
        preinit_array: Option<TargetRange>,
        init_array: Option<TargetRange>,
        fini_array: Option<TargetRange>,
    ) -> (r: Self)
        ensures
            r == (ImageLifecycleMetadata { init, fini, preinit_array, init_array, fini_array }),
    {
        ImageLifecycleMetadata { init, fini, preinit_array, init_array, fini_array }
    }

    #[inline]
    pub fn init(&self) -> (r: Option<TargetAddr>)
        ensures
            r == self.init,
    {
        self.init
    }

    #[inline]
    pub fn fini(&self) -> (r: Option<TargetAddr>)
        ensures
            r == self.fini,
    {
        self.fini
    }

    #[inline]
    pub fn preinit_array(&self) -> (r: Option<TargetRange>)
        ensures
            r == self.preinit_array,
    {
        self.preinit_array
    }

    #[inline]
    pub fn init_array(&self) -> (r: Option<TargetRange>)
        ensures
            r == self.init_array,
    {
        self.init_array
    }

    #[inline]
    pub fn fini_array(&self) -> (r: Option<TargetRange>)
        ensures
            r == self.fini_array,
    {
        self.fini_array
    }
}

/// A summary of the program headers, which is empty so far.
#[derive(Clone, Copy, Debug, PartialEq, Eq, Structural)]
pub struct ProgramHeaderRuntimeInfo;

/// All that a session keeps of a decoded image.
pub struct RuntimeImageMetadata {
    pub dynamic: RuntimeDynamicInfo,
    pub needed: Vec<DependencyName>,
    pub soname: Option<DependencyName>,
    pub symbols: SymbolTable,
    pub relocations: RelocationTables,
    pub lifecycle: ImageLifecycleMetadata,
    pub program_headers: ProgramHeaderRuntimeInfo,
}

/// The bytes of the first `k` names.
pub open spec fn needed_bytes(needed: Seq<DependencyName>, k: int) -> int
    decreases k,
{
    if k <= 0 {
        0
    } else {
        needed_bytes(needed, k - 1) + needed[k - 1]@.len()
    }
}

/// The bytes of an optional name.
pub open spec fn soname_bytes(soname: Option<DependencyName>) -> int {
    match soname {
        Some(name) => name@.len() as int,
        None => 0,
    }
}

impl RuntimeImageMetadata {
    #[inline]
    pub fn new(
        dynamic: RuntimeDynamicInfo,
        needed: Vec<DependencyName>,
        soname: Option<DependencyName>,
        symbols: SymbolTable,
        relocations: RelocationTables,
        lifecycle: ImageLifecycleMetadata,
        program_headers: ProgramHeaderRuntimeInfo,
    ) -> (r: Self)
        ensures
            r == (RuntimeImageMetadata {
                dynamic,
                needed,
                soname,
                symbols,
                relocations,
                lifecycle,
                program_headers,
            }),
    {
        RuntimeImageMetadata {
            dynamic,
            needed,
            soname,
            symbols,
            relocations,
            lifecycle,
            program_headers,
        }
    }

    #[inline]
    pub fn empty() -> (r: Self)
        ensures
            r.needed@.len() == 0,
            r.soname is None,
            r.symbols.entries@.len() == 0,
            r.relocations.records@.len() == 0,
            r.lifecycle == (ImageLifecycleMetadata {
                init: None,
                fini: None,
                preinit_array: None,
                init_array: None,
                fini_array: None,
            }),
    {
        RuntimeImageMetadata::new(
            RuntimeDynamicInfo::empty(),
            Vec::new(),
            None,
            SymbolTable::empty(),
            RelocationTables::empty(),
            ImageLifecycleMetadata::empty(),
            ProgramHeaderRuntimeInfo,
        )
    }

    #[inline]
    pub fn dynamic(&self) -> (r: &RuntimeDynamicInfo)
        ensures
            *r == self.dynamic,
    {
        &self.dynamic
    }

    #[inline]
    pub fn needed(&self) -> (r: &[DependencyName])
        ensures
            r@ == self.needed@,
    {
        self.needed.as_slice()
    }

    #[inline]
    pub fn soname(&self) -> (r: &Option<DependencyName>)
        ensures
            *r == self.soname,
    {
        &self.soname
    }

    #[inline]
    pub fn take_soname(&mut self) -> (r: Option<DependencyName>)
        ensures
            r == old(self).soname,
            *final(self) == (RuntimeImageMetadata { soname: None, ..*old(self) }),
    {
        self.soname.take()
    }

    #[inline]
    pub fn symbols(&self) -> (r: &SymbolTable)
        ensures
            *r == self.symbols,
    {
        &self.symbols
    }

    #[inline]
    pub fn relocations(&self) -> (r: &RelocationTables)
        ensures
            *r == self.relocations,
    {
        &self.relocations
    }

    #[inline]
    pub fn lifecycle(&self) -> (r: &ImageLifecycleMetadata)
        ensures
            *r == self.lifecycle,
    {
        &self.lifecycle
    }

    #[inline]
    pub fn program_headers(&self) -> (r: &ProgramHeaderRuntimeInfo)
        ensures
            *r == self.program_headers,
    {
        &self.program_headers
    }

    #[inline]
    pub fn relocation_count(&self) -> (r: usize)
        ensures
            r == self.relocations.records@.len(),
    {
        self.relocations.len()
    }

    /// The bytes that the symbols, the names and the relocation records take.
    pub fn metadata_bytes(&self) -> (r: u64)
        ensures
            r == saturated(
                name_bytes(self.symbols.entries@, self.symbols.entries@.len() as int)
                    + needed_bytes(self.needed@, self.needed@.len() as int) + soname_bytes(
                    self.soname,
                ) + self.relocations.records@.len() * vstd::layout::size_of::<RelocationRecord>(),
            ),
    {
        let mut total: u64 = self.symbols.metadata_bytes();
        let ghost symbols = name_bytes(self.symbols.entries@, self.symbols.entries@.len() as int);
        proof {
            crate::dynamic_linker::symbol::lemma_name_bytes(
                self.symbols.entries@,
                self.symbols.entries@.len() as int,
            );
        }
        let mut index: usize = 0;
        while index < self.needed.len()
            invariant
                index <= self.needed@.len(),
                0 <= symbols,
                0 <= needed_bytes(self.needed@, index as int),
                total == saturated(symbols + needed_bytes(self.needed@, index as int)),
            decreases self.needed@.len() - index,
        {
            total = total.saturating_add(self.needed[index].as_bytes().len() as u64);
            index = index + 1;
        }
        if let Some(name) = &self.soname {
            total = total.saturating_add(name.as_bytes().len() as u64);
        }
        let count: u64 = self.relocations.len() as u64;
        let size: u64 = core::mem::size_of::<RelocationRecord>() as u64;
        proof {
            assert(0 <= count * size) by (nonlinear_arith);
        }
        match count.checked_mul(size) {
            Some(records) => total.saturating_add(records),
            None => u64::MAX,
        }
    }
}

/// The allocation that holds an image.
#[derive(Clone, Copy, Debug, PartialEq, Eq, Structural)]
pub struct ImageLayout {
    pub allocation: ImageAllocation,
}

impl ImageLayout {
    #[inline]
    pub fn new(allocation: ImageAllocation) -> (r: Self)
        ensures
            r == (ImageLayout { allocation }),
    {
        ImageLayout { allocation }
    }

    #[inline]
    pub fn allocation(&self) -> (r: ImageAllocation)
        ensures
            r == self.allocation,
    {
        self.allocation
    }
}

/// The runtime state of one decoded image.
pub struct RuntimeImageState {
    pub layout: ImageLayout,
    pub regions: Vec<LoadedRegion>,
    pub load_segments: Vec<LoadSegmentInfo>,
    pub metadata: RuntimeImageMetadata,
    pub load_bias: TargetAddr,
    pub runtime_entry: TargetAddr,
    pub canonical_runtime_entry: TargetAddr,
    pub relro: Option<TargetRange>,
    pub stack: StackKind,
}

impl RuntimeImageState {
    #[inline]
    pub fn new(
        layout: ImageLayout,
        regions: Vec<LoadedRegion>,
        load_segments: Vec<LoadSegmentInfo>,
        metadata: RuntimeImageMetadata,
        load_bias: TargetAddr,
        runtime_entry: TargetAddr,
        canonical_runtime_entry: TargetAddr,
        relro: Option<TargetRange>,
        stack: StackKind,
    ) -> (r: Self)
        ensures
            r == (RuntimeImageState {
                layout,
                regions,
                load_segments,
                metadata,
                load_bias,
                runtime_entry,
                canonical_runtime_entry,
                relro,
                stack,
            }),
    {
        RuntimeImageState {
            layout,
            regions,
            load_segments,
            metadata,
            load_bias,
            runtime_entry,
            canonical_runtime_entry,
            relro,
            stack,
        }
    }

    #[inline]
    pub fn layout(&self) -> (r: &ImageLayout)
        ensures
            *r == self.layout,
    {
        &self.layout
    }

    #[inline]
    pub fn regions(&self) -> (r: &[LoadedRegion])
        ensures
            r@ == self.regions@,
    {
        self.regions.as_slice()
    }

    #[inline]
    pub fn load_segments(&self) -> (r: &[LoadSegmentInfo])
        ensures
            r@ == self.load_segments@,
    {
        self.load_segments.as_slice()
    }

    #[inline]
    pub fn metadata(&self) -> (r: &RuntimeImageMetadata)
        ensures
            *r == self.metadata,
    {
        &self.metadata
    }

    #[inline]
    pub fn take_soname(&mut self) -> (r: Option<DependencyName>)
        ensures
            r == old(self).metadata.soname,
            *final(self) == (RuntimeImageState {
                metadata: RuntimeImageMetadata { soname: None, ..old(self).metadata },
                ..*old(self)
            }),
    {
        self.metadata.take_soname()
    }

    #[inline]
    pub fn load_bias(&self) -> (r: TargetAddr)
        ensures
            r == self.load_bias,
    {
        self.load_bias
    }

    #[inline]
    pub fn runtime_entry(&self) -> (r: TargetAddr)
        ensures
            r == self.runtime_entry,
    {
        self.runtime_entry
    }

    #[inline]
    pub fn canonical_runtime_entry(&self) -> (r: TargetAddr)
        ensures
            r == self.canonical_runtime_entry,
    {
        self.canonical_runtime_entry
    }

    #[inline]
    pub fn relro(&self) -> (r: Option<TargetRange>)
        ensures
            r == self.relro,
    {
        self.relro
    }

    #[inline]
    pub fn stack(&self) -> (r: StackKind)
        ensures
            r == self.stack,
    {
        self.stack
    }
}

} // verus!
