//! The fixed catalog of system libraries.
//!
//! A library is looked up by the name that images ask for, or by its path. The
//! path decides whether a dependency is a shared system library.

use crate::bytes::bytes_equal;
use vstd::prelude::*;
use vstd::string::*;

verus! {

/// One system library.
#[derive(Clone, Copy, Debug)]
pub struct SystemLibraryEntry {
    /// The name that images ask for.
    pub soname: &'static [u8],
    /// The absolute path of the library.
    pub path: &'static str,
    /// The build identifier that it must have, if any.
    pub build_id: Option<&'static [u8]>,
    /// Whether an instance stays when it has no user.
    pub keep_cached: bool,
}

/// All system libraries.
pub struct SystemLibraryPaths {
    pub entries: &'static [SystemLibraryEntry],
}

/// The first library from `from` on with this name.
pub open spec fn named_from(entries: Seq<SystemLibraryEntry>, name: Seq<u8>, from: int) -> Option<int>
    decreases entries.len() - from,
{
    if from >= entries.len() {
        None
    } else if entries[from].soname@ == name {
        Some(from)
    } else {
        named_from(entries, name, from + 1)
    }
}

/// The first library from `from` on with this path.
pub open spec fn located_from(entries: Seq<SystemLibraryEntry>, path: Seq<char>, from: int) -> Option<
    int,
>
    decreases entries.len() - from,
{
    if from >= entries.len() {
        None
    } else if entries[from].path@ == path {
        Some(from)
    } else {
        located_from(entries, path, from + 1)
    }
}

/// Whether two strings are the same.
pub fn same_text(a: &str, b: &str) -> (r: bool)
    ensures
        r == (a@ == b@),
{
    let n: usize = a.unicode_len();
    if n != b.unicode_len() {
        return false;
    }
    let mut index: usize = 0;
    while index < n
        invariant
            index <= n == a@.len() == b@.len(),
            forall|i: int| 0 <= i < index ==> a@[i] == b@[i],
        decreases n - index,
    {
        if a.get_char(index) != b.get_char(index) {
            return false;
        }
        index = index + 1;
    }
    assert(a@ =~= b@);
    true
}

impl SystemLibraryPaths {
    #[inline]
    pub fn new(entries: &'static [SystemLibraryEntry]) -> (r: Self)
        ensures
            r.entries@ == entries@,
    {
        SystemLibraryPaths { entries }
    }

    /// The library with a name.
    pub fn resolve_name(&self, name: &[u8]) -> (r: Option<&'static SystemLibraryEntry>)
        ensures
            match named_from(self.entries@, name@, 0) {
                Some(i) => r matches Some(entry) && *entry == self.entries@[i],
                None => r is None,
            },
    {
        let entries: &'static [SystemLibraryEntry] = self.entries;
        let mut index: usize = 0;
        while index < entries.len()
            invariant
                index <= entries@.len(),
                entries@ == self.entries@,
                named_from(entries@, name@, 0) == named_from(entries@, name@, index as int),
            decreases entries@.len() - index,
        {
            if bytes_equal(entries[index].soname, name) {
                return Some(&entries[index]);
            }
            index = index + 1;
        }
        None
    }

    /// The library at a normalized absolute path.
    pub fn resolve_path(&self, path: &str) -> (r: Option<&'static SystemLibraryEntry>)
        ensures
            match located_from(self.entries@, path@, 0) {
                Some(i) => r matches Some(entry) && *entry == self.entries@[i],
                None => r is None,
            },
    {
        let entries: &'static [SystemLibraryEntry] = self.entries;
        let mut index: usize = 0;
        while index < entries.len()
            invariant
                index <= entries@.len(),
                entries@ == self.entries@,
                located_from(entries@, path@, 0) == located_from(entries@, path@, index as int),
            decreases entries@.len() - index,
        {
            if same_text(entries[index].path, path) {
                return Some(&entries[index]);
            }
            index = index + 1;
        }
        None
    }

    /// The library with a name.
    pub fn resolve(&self, soname: &[u8]) -> (r: Option<&'static SystemLibraryEntry>)
        ensures
            match named_from(self.entries@, soname@, 0) {
                Some(i) => r matches Some(entry) && *entry == self.entries@[i],
                None => r is None,
            },
    {
        self.resolve_name(soname)
    }
}

/// A name finds the first library that has it, and none where no library has it.
pub proof fn names_find_the_first_library(
    entries: Seq<SystemLibraryEntry>,
    name: Seq<u8>,
    from: int,
)
    requires
        0 <= from <= entries.len(),
    ensures
        match named_from(entries, name, from) {
            Some(i) => from <= i < entries.len() && entries[i].soname@ == name && forall|j: int|
                from <= j < i ==> (#[trigger] entries[j]).soname@ != name,
            None => forall|j: int|
                from <= j < entries.len() ==> (#[trigger] entries[j]).soname@ != name,
        },
    decreases entries.len() - from,
{
    if from < entries.len() {
        names_find_the_first_library(entries, name, from + 1);
    }
}

/// A path finds the first library that is at it, and none where no library is.
pub proof fn paths_find_the_first_library(
    entries: Seq<SystemLibraryEntry>,
    path: Seq<char>,
    from: int,
)
    requires
        0 <= from <= entries.len(),
    ensures
        match located_from(entries, path, from) {
            Some(i) => from <= i < entries.len() && entries[i].path@ == path && forall|j: int|
                from <= j < i ==> (#[trigger] entries[j]).path@ != path,
            None => forall|j: int|
                from <= j < entries.len() ==> (#[trigger] entries[j]).path@ != path,
        },
    decreases entries.len() - from,
{
    if from < entries.len() {
        paths_find_the_first_library(entries, path, from + 1);
    }
}

} // verus!
