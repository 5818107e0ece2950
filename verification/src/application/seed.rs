//! Installing files of the system image.

use vstd::prelude::*;
use vstd::string::*;

verus! {

/// The directories above a file, outermost first: what stands before each separator
/// among the first `k` characters of its path, but for one that starts the path.
pub open spec fn directories_above(path: Seq<char>, k: int) -> Seq<Seq<char>>
    decreases k,
{
    if k <= 1 {
        Seq::empty()
    } else if path[k - 1] == '/' {
        directories_above(path, k - 1).push(path.subrange(0, k - 1))
    } else {
        directories_above(path, k - 1)
    }
}

/// The contents of some strings.
pub open spec fn texts(strings: Seq<String>) -> Seq<Seq<char>> {
    Seq::new(strings.len(), |i: int| strings[i]@)
}

/// The directories to make before a file can be installed, outermost first.
pub fn parent_directories(path: &str) -> (r: Vec<String>)
    ensures
        texts(r@) == directories_above(path@, path@.len() as int),
{
    let n: usize = path.unicode_len();
    let mut out: Vec<String> = Vec::new();
    let mut index: usize = 0;
    assert(texts(out@) =~= Seq::<Seq<char>>::empty());
    while index < n
        invariant
            index <= n == path@.len(),
            texts(out@) == directories_above(path@, index as int),
        decreases n - index,
    {
        if index > 0 && path.get_char(index) == '/' {
            let ghost before = texts(out@);
            out.push(String::from_str(path.substring_char(0, index)));
            assert(texts(out@) =~= before.push(path@.subrange(0, index as int)));
        }
        index = index + 1;
    }
    out
}

/// Every directory above a file is a prefix of its path that ends before a
/// separator.
pub proof fn directories_are_prefixes(path: Seq<char>, k: int, d: int)
    requires
        0 <= k <= path.len(),
        0 <= d < directories_above(path, k).len(),
    ensures
        ({
            let directory = directories_above(path, k)[d];
            &&& 0 < directory.len() < k
            &&& directory == path.subrange(0, directory.len() as int)
            &&& path[directory.len() as int] == '/'
        }),
    decreases k,
{
    if path[k - 1] == '/' && d == directories_above(path, k - 1).len() {
        assert(directories_above(path, k)[d] == path.subrange(0, k - 1));
    } else {
        directories_are_prefixes(path, k - 1, d);
    }
}

} // verus!
