//! The symbols of an image.

use crate::address::TargetAddr;
use crate::bytes::bytes_equal;
use vstd::prelude::*;

verus! {

#[derive(Clone, Copy, Debug, PartialEq, Eq, Structural)]
pub enum SymbolBinding {
    Local,
    Global,
    Weak,
}

#[derive(Clone, Copy, Debug, PartialEq, Eq, Structural)]
pub enum SymbolType {
    NoType,
    Object,
    Func,
}

#[derive(Clone, Copy, Debug, PartialEq, Eq, Structural)]
pub enum SymbolVisibility {
    Default,
    Internal,
    Hidden,
    Protected,
}

#[derive(Clone, Copy, Debug, PartialEq, Eq, Structural)]
pub enum SymbolDefinition {
    Undefined,
    Defined,
}

/// One symbol.
pub struct SymbolEntry {
    pub name: Vec<u8>,
    pub value: TargetAddr,
    pub size: u64,
    pub binding: SymbolBinding,
    pub symbol_type: SymbolType,
    pub visibility: SymbolVisibility,
    pub definition: SymbolDefinition,
}

impl SymbolEntry {
    #[inline]
    pub fn value(&self) -> (r: TargetAddr)
        ensures
            r == self.value,
    {
        self.value
    }

    #[inline]
    pub fn size(&self) -> (r: u64)
        ensures
            r == self.size,
    {
        self.size
    }

    #[inline]
    pub fn binding(&self) -> (r: SymbolBinding)
        ensures
            r == self.binding,
    {
        self.binding
    }

    #[inline]
    pub fn symbol_type(&self) -> (r: SymbolType)
        ensures
            r == self.symbol_type,
    {
        self.symbol_type
    }

    #[inline]
    pub fn visibility(&self) -> (r: SymbolVisibility)
        ensures
            r == self.visibility,
    {
        self.visibility
    }

    #[inline]
    pub fn definition(&self) -> (r: SymbolDefinition)
        ensures
            r == self.definition,
    {
        self.definition
    }
}

/// The symbols of one image, found by name or by index.
pub struct SymbolTable {
    pub entries: Vec<SymbolEntry>,
}

/// The first entry from `from` on that defines `name`.
pub open spec fn lookup_from(entries: Seq<SymbolEntry>, name: Seq<u8>, from: int) -> Option<int>
    decreases entries.len() - from,
{
    if from >= entries.len() {
        None
    } else if entries[from].definition == SymbolDefinition::Defined && entries[from].name@
        == name {
        Some(from)
    } else {
        lookup_from(entries, name, from + 1)
    }
}

/// The bytes of the names of the first `k` entries.
pub open spec fn name_bytes(entries: Seq<SymbolEntry>, k: int) -> int
    decreases k,
{
    if k <= 0 {
        0
    } else {
        name_bytes(entries, k - 1) + entries[k - 1].name@.len()
    }
}

/// `value`, or the largest number of 64 bits if it is larger.
pub open spec fn saturated(value: int) -> u64 {
    if value <= u64::MAX {
        value as u64
    } else {
        u64::MAX
    }
}

pub proof fn lemma_lookup_from(entries: Seq<SymbolEntry>, name: Seq<u8>, from: int)
    requires
        0 <= from <= entries.len(),
    ensures
        lookup_from(entries, name, from) matches Some(i) ==> from <= i < entries.len()
            && entries[i].definition == SymbolDefinition::Defined && entries[i].name@ == name,
    decreases entries.len() - from,
{
    if from < entries.len() {
        lemma_lookup_from(entries, name, from + 1);
    }
}

pub proof fn lemma_name_bytes(entries: Seq<SymbolEntry>, k: int)
    requires
        0 <= k,
    ensures
        0 <= name_bytes(entries, k),
    decreases k,
{
    if k > 0 {
        lemma_name_bytes(entries, k - 1);
    }
}

impl SymbolTable {
    #[inline]
    pub fn empty() -> (r: Self)
        ensures
            r.entries@.len() == 0,
    {
        SymbolTable { entries: Vec::new() }
    }

    #[inline]
    pub fn entries(&self) -> (r: &Vec<SymbolEntry>)
        ensures
            *r == self.entries,
    {
        &self.entries
    }

    pub fn entry(&self, index: usize) -> (r: Option<&SymbolEntry>)
        ensures
            match r {
                Some(entry) => index < self.entries@.len() && *entry
                    == self.entries@[index as int],
                None => index >= self.entries@.len(),
            },
    {
        if index < self.entries.len() {
            Some(&self.entries[index])
        } else {
            None
        }
    }

    /// The first definition of a name.
    pub fn lookup(&self, name: &[u8]) -> (r: Option<usize>)
        ensures
            match lookup_from(self.entries@, name@, 0) {
                Some(i) => r matches Some(found) && found == i && found < self.entries@.len(),
                None => r is None,
            },
    {
        let mut index: usize = 0;
        while index < self.entries.len()
            invariant
                index <= self.entries@.len(),
                lookup_from(self.entries@, name@, 0) == lookup_from(
                    self.entries@,
                    name@,
                    index as int,
                ),
            decreases self.entries@.len() - index,
        {
            if self.entries[index].definition == SymbolDefinition::Defined && bytes_equal(
                self.entries[index].name.as_slice(),
                name,
            ) {
                return Some(index);
            }
            index = index + 1;
        }
        None
    }

    /// The bytes that the names take.
    pub fn metadata_bytes(&self) -> (r: u64)
        ensures
            r == saturated(name_bytes(self.entries@, self.entries@.len() as int)),
    {
        let mut total: u64 = 0;
        let mut index: usize = 0;
        while index < self.entries.len()
            invariant
                index <= self.entries@.len(),
                total == saturated(name_bytes(self.entries@, index as int)),
            decreases self.entries@.len() - index,
        {
            proof {
                lemma_name_bytes(self.entries@, index as int);
            }
            total = total.saturating_add(self.entries[index].name.len() as u64);
            index = index + 1;
        }
        total
    }
}

} // verus!
