//! Lexical resolution of absolute paths.
//!
//! Empty components and `.` are dropped, and `..` removes the component before
//! it. A `..` at the root stays at the root.

use vstd::prelude::*;
use vstd::string::*;

verus! {

/// The position of the last `/` among the first `k` characters, or -1.
pub open spec fn last_slash(path: Seq<char>, k: int) -> int
    decreases k,
{
    if k <= 0 {
        -1
    } else if path[k - 1] == '/' {
        k - 1
    } else {
        last_slash(path, k - 1)
    }
}

pub proof fn lemma_last_slash(path: Seq<char>, k: int)
    ensures
        -1 <= last_slash(path, k),
        0 <= k ==> last_slash(path, k) < k,
        k < 0 ==> last_slash(path, k) == -1,
        0 <= last_slash(path, k) ==> path[last_slash(path, k)] == '/',
        forall|i: int| last_slash(path, k) < i < k ==> path[i] != '/',
    decreases k,
{
    if k > 0 && path[k - 1] != '/' {
        lemma_last_slash(path, k - 1);
    }
}

/// The components that remain once `part` follows `parts`.
pub open spec fn followed_by(parts: Seq<Seq<char>>, part: Seq<char>) -> Seq<Seq<char>> {
    if part.len() == 0 || part == seq!['.'] {
        parts
    } else if part == seq!['.', '.'] {
        if parts.len() == 0 {
            parts
        } else {
            parts.drop_last()
        }
    } else {
        parts.push(part)
    }
}

/// The components of the path that the first `k` characters name.
pub open spec fn components_to(path: Seq<char>, k: int) -> Seq<Seq<char>>
    decreases k,
{
    let slash = last_slash(path, k);
    if k <= 0 {
        Seq::empty()
    } else if slash < 0 {
        followed_by(Seq::empty(), path.subrange(0, k))
    } else {
        proof {
            lemma_last_slash(path, k);
        }
        followed_by(components_to(path, slash), path.subrange(slash + 1, k))
    }
}

/// The components of a path.
pub open spec fn components(path: Seq<char>) -> Seq<Seq<char>> {
    components_to(path, path.len() as int)
}

/// The first `k` components, each after a `/`.
pub open spec fn joined(parts: Seq<Seq<char>>, k: int) -> Seq<char>
    decreases k,
{
    if k <= 0 {
        Seq::empty()
    } else {
        joined(parts, k - 1) + seq!['/'] + parts[k - 1]
    }
}

/// The absolute path with these components.
pub open spec fn absolute(parts: Seq<Seq<char>>) -> Seq<char> {
    if parts.len() == 0 {
        seq!['/']
    } else {
        joined(parts, parts.len() as int)
    }
}

/// Whether a path starts at the root.
pub open spec fn is_absolute(path: Seq<char>) -> bool {
    path.len() > 0 && path[0] == '/'
}

/// What an absolute path names, if it is one.
pub open spec fn normalized(path: Seq<char>) -> Option<Seq<char>> {
    if is_absolute(path) {
        Some(absolute(components(path)))
    } else {
        None
    }
}

/// What `path` names below the directory `base`, if that is absolute.
pub open spec fn joined_to(base: Seq<char>, path: Seq<char>) -> Option<Seq<char>> {
    normalized(base + seq!['/'] + path)
}

/// A component that is kept as it is.
pub open spec fn plain_component(part: Seq<char>) -> bool {
    &&& part.len() > 0
    &&& part != seq!['.']
    &&& part != seq!['.', '.']
    &&& forall|i: int| 0 <= i < part.len() ==> part[i] != '/'
}

/// Whether every component is kept as it is.
pub open spec fn plain_components(parts: Seq<Seq<char>>) -> bool {
    forall|i: int| 0 <= i < parts.len() ==> plain_component(#[trigger] parts[i])
}

proof fn lemma_components_to_plain(path: Seq<char>, k: int)
    requires
        k <= path.len(),
    ensures
        plain_components(components_to(path, k)),
    decreases k,
{
    if k > 0 {
        let slash = last_slash(path, k);
        lemma_last_slash(path, k);
        if slash < 0 {
            assert(forall|i: int|
                0 <= i < k ==> path.subrange(0, k)[i] == path[i] && path[i] != '/');
        } else {
            lemma_components_to_plain(path, slash);
            let part = path.subrange(slash + 1, k);
            assert forall|i: int| 0 <= i < part.len() implies part[i] != '/' by {
                assert(part[i] == path[slash + 1 + i]);
            }
        }
    }
}

/// The components of a path hold neither a separator nor `.` or `..`.
pub proof fn components_are_plain(path: Seq<char>)
    ensures
        plain_components(components(path)),
{
    lemma_components_to_plain(path, path.len() as int);
}

proof fn lemma_same_prefix(path: Seq<char>, other: Seq<char>, k: int)
    requires
        0 <= k <= path.len(),
        k <= other.len(),
        forall|i: int| 0 <= i < k ==> path[i] == other[i],
    ensures
        last_slash(path, k) == last_slash(other, k),
        components_to(path, k) == components_to(other, k),
    decreases k,
{
    if k > 0 {
        lemma_same_prefix(path, other, k - 1);
        let slash = last_slash(path, k);
        lemma_last_slash(path, k);
        lemma_last_slash(other, k);
        if slash < 0 {
            assert(path.subrange(0, k) =~= other.subrange(0, k));
        } else {
            lemma_same_prefix(path, other, slash);
            assert(path.subrange(slash + 1, k) =~= other.subrange(slash + 1, k));
        }
    }
}

proof fn lemma_last_slash_at(path: Seq<char>, k: int, at: int)
    requires
        -1 <= at < k <= path.len(),
        at >= 0 ==> path[at] == '/',
        forall|i: int| at < i < k ==> path[i] != '/',
    ensures
        last_slash(path, k) == at,
    decreases k,
{
    if k > at + 1 {
        lemma_last_slash_at(path, k - 1, at);
    }
}

proof fn lemma_components_of_joined(parts: Seq<Seq<char>>, k: int)
    requires
        0 <= k <= parts.len(),
        plain_components(parts),
    ensures
        components(joined(parts, k)) == parts.subrange(0, k),
    decreases k,
{
    if k > 0 {
        lemma_components_of_joined(parts, k - 1);
        let before = joined(parts, k - 1);
        let part = parts[k - 1];
        let path = joined(parts, k);
        let n = path.len() as int;
        let slash = before.len() as int;
        assert(plain_component(part));
        assert(path[slash] == '/');
        assert forall|i: int| slash < i < n implies path[i] != '/' by {
            assert(path[i] == part[i - slash - 1]);
        }
        lemma_last_slash_at(path, n, slash);
        assert(path.subrange(slash + 1, n) =~= part);
        lemma_same_prefix(path, before, slash);
        assert(components_to(path, n) == followed_by(components_to(path, slash), part));
        assert(parts.subrange(0, k - 1).push(part) =~= parts.subrange(0, k));
    } else {
        assert(parts.subrange(0, 0) =~= Seq::empty());
    }
}

/// The absolute path with some plain components has these components.
pub proof fn absolute_keeps_components(parts: Seq<Seq<char>>)
    requires
        plain_components(parts),
    ensures
        is_absolute(absolute(parts)),
        components(absolute(parts)) == parts,
{
    if parts.len() == 0 {
        let root = seq!['/'];
        assert(last_slash(root, 1) == 0);
        assert(root.subrange(1, 1) =~= Seq::empty());
        assert(components_to(root, 0) =~= Seq::empty());
        assert(components(root) =~= parts);
    } else {
        lemma_components_of_joined(parts, parts.len() as int);
        assert(parts.subrange(0, parts.len() as int) =~= parts);
        lemma_joined_absolute(parts, parts.len() as int);
    }
}

proof fn lemma_joined_absolute(parts: Seq<Seq<char>>, k: int)
    requires
        0 < k <= parts.len(),
    ensures
        is_absolute(joined(parts, k)),
    decreases k,
{
    if k > 1 {
        lemma_joined_absolute(parts, k - 1);
    } else {
        assert(joined(parts, 0) =~= Seq::empty());
    }
}

/// To normalize a path twice is to normalize it once, and what comes out is
/// absolute.
pub proof fn normalizing_is_idempotent(path: Seq<char>)
    ensures
        normalized(path) matches Some(text) ==> is_absolute(text) && normalized(text) == Some(text),
{
    components_are_plain(path);
    absolute_keeps_components(components(path));
}

/// The characters of a string.
fn characters(text: &str) -> (r: Vec<char>)
    ensures
        r@ == text@,
{
    let mut out: Vec<char> = Vec::new();
    let n: usize = text.unicode_len();
    let mut i: usize = 0;
    while i < n
        invariant
            i <= n == text@.len(),
            out@ == text@.subrange(0, i as int),
        decreases n - i,
    {
        out.push(text.get_char(i));
        assert(text@.subrange(0, i + 1) =~= text@.subrange(0, i as int).push(text@[i as int]));
        i = i + 1;
    }
    assert(text@.subrange(0, n as int) =~= text@);
    out
}

/// Whether a string starts with `/`.
pub fn starts_at_root(path: &str) -> (r: bool)
    ensures
        r == is_absolute(path@),
{
    path.unicode_len() > 0 && path.get_char(0) == '/'
}

/// Whether a string holds a `/`.
pub fn has_separator(path: &str) -> (r: bool)
    ensures
        r == path@.contains('/'),
{
    let n: usize = path.unicode_len();
    let mut i: usize = 0;
    while i < n
        invariant
            i <= n == path@.len(),
            forall|j: int| 0 <= j < i ==> path@[j] != '/',
        decreases n - i,
    {
        if path.get_char(i) == '/' {
            assert(path@[i as int] == '/');
            return true;
        }
        i = i + 1;
    }
    false
}

/// The components that some spans of a path name.
pub open spec fn spanned(path: Seq<char>, spans: Seq<(usize, usize)>) -> Seq<Seq<char>> {
    Seq::new(spans.len(), |i: int| path.subrange(spans[i].0 as int, spans[i].1 as int))
}

/// Whether every span lies in the path.
pub open spec fn spans_in(path: Seq<char>, spans: Seq<(usize, usize)>) -> bool {
    forall|i: int|
        0 <= i < spans.len() ==> (#[trigger] spans[i]).0 <= spans[i].1 && spans[i].1 <= path.len()
}

fn follow(text: &Vec<char>, spans: &mut Vec<(usize, usize)>, start: usize, end: usize)
    requires
        start <= end <= text@.len(),
        spans_in(text@, old(spans)@),
    ensures
        spans_in(text@, final(spans)@),
        spanned(text@, final(spans)@) == followed_by(
            spanned(text@, old(spans)@),
            text@.subrange(start as int, end as int),
        ),
{
    let ghost part = text@.subrange(start as int, end as int);
    let ghost before = spanned(text@, spans@);
    if start == end {
        assert(part.len() == 0);
        return;
    }
    if end - start == 1 && text[start] == '.' {
        assert(part =~= seq!['.']);
        return;
    }
    if end - start == 2 && text[start] == '.' && text[start + 1] == '.' {
        assert(part =~= seq!['.', '.']);
        assert(part != seq!['.']) by {
            assert(part.len() == 2);
        }
        if spans.len() > 0 {
            let dropped = spans.pop();
            assert(spanned(text@, spans@) =~= before.drop_last());
        }
        return;
    }
    assert(part != seq!['.']) by {
        if part == seq!['.'] {
            assert(part[0] == '.' && part.len() == 1);
        }
    }
    assert(part != seq!['.', '.']) by {
        if part == seq!['.', '.'] {
            assert(part[0] == '.' && part[1] == '.' && part.len() == 2);
        }
    }
    spans.push((start, end));
    assert(spanned(text@, spans@) =~= before.push(part));
}

fn component_spans(text: &Vec<char>) -> (r: Vec<(usize, usize)>)
    ensures
        spans_in(text@, r@),
        spanned(text@, r@) == components(text@),
{
    let mut spans: Vec<(usize, usize)> = Vec::new();
    let mut start: usize = 0;
    let mut at: usize = 0;
    assert(spanned(text@, spans@) =~= Seq::empty());
    while at < text.len()
        invariant
            start <= at <= text@.len(),
            start == last_slash(text@, at as int) + 1,
            spans_in(text@, spans@),
            spanned(text@, spans@) == components_to(text@, start - 1),
        decreases text@.len() - at,
    {
        if text[at] == '/' {
            follow(text, &mut spans, start, at);
            proof {
                if at == 0 {
                    assert(text@.subrange(0, 0).len() == 0);
                }
            }
            start = at + 1;
        }
        at = at + 1;
    }
    let end: usize = text.len();
    follow(text, &mut spans, start, end);
    proof {
        if end == 0 {
            assert(text@.subrange(0, 0).len() == 0);
        }
    }
    spans
}

fn absolute_text(path: &str, spans: &Vec<(usize, usize)>) -> (r: String)
    requires
        spans_in(path@, spans@),
    ensures
        r@ == absolute(spanned(path@, spans@)),
{
    proof {
        reveal_strlit("/");
    }
    if spans.len() == 0 {
        let root = String::from_str("/");
        assert(root@ =~= seq!['/']);
        return root;
    }
    let ghost parts = spanned(path@, spans@);
    let mut text = String::new();
    let mut i: usize = 0;
    while i < spans.len()
        invariant
            i <= spans@.len(),
            spans_in(path@, spans@),
            parts == spanned(path@, spans@),
            text@ == joined(parts, i as int),
            "/"@ == seq!['/'],
        decreases spans@.len() - i,
    {
        let span: (usize, usize) = spans[i];
        assert(spans@[i as int].0 <= spans@[i as int].1);
        text.append("/");
        text.append(path.substring_char(span.0, span.1));
        i = i + 1;
    }
    text
}

/// The absolute path that `path` names, if it starts at the root.
pub fn normalize_path(path: &str) -> (r: Option<String>)
    ensures
        match normalized(path@) {
            Some(text) => r matches Some(found) && found@ == text,
            None => r is None,
        },
{
    if !starts_at_root(path) {
        return None;
    }
    let text: Vec<char> = characters(path);
    let spans = component_spans(&text);
    Some(absolute_text(path, &spans))
}

/// The absolute path that `path` names below the directory `base`, if that starts
/// at the root.
pub fn join_path(base: &str, path: &str) -> (r: Option<String>)
    ensures
        match joined_to(base@, path@) {
            Some(text) => r matches Some(found) && found@ == text,
            None => r is None,
        },
{
    proof {
        reveal_strlit("/");
        assert("/"@ =~= seq!['/']);
    }
    let mut whole = String::from_str(base);
    whole.append("/");
    whole.append(path);
    normalize_path(whole.as_str())
}

/// How much of the first `k` characters of a path is left without the slashes at
/// their end.
pub open spec fn trimmed_to(path: Seq<char>, k: int) -> int
    decreases k,
{
    if k <= 0 {
        0
    } else if path[k - 1] == '/' {
        trimmed_to(path, k - 1)
    } else {
        k
    }
}

/// What a path has before its last component. The root has none.
pub open spec fn parent_of(path: Seq<char>) -> Option<Seq<char>> {
    let slash = last_slash(path, trimmed_to(path, path.len() as int));
    if slash < 0 {
        None
    } else if slash == 0 {
        Some(seq!['/'])
    } else {
        Some(path.subrange(0, slash))
    }
}

/// What an absolute path has before its last component.
pub fn parent_dir(path: &str) -> (r: Option<String>)
    ensures
        match parent_of(path@) {
            Some(text) => r matches Some(found) && found@ == text,
            None => r is None,
        },
{
    let text: Vec<char> = characters(path);
    let mut end: usize = text.len();
    while end > 0 && text[end - 1] == '/'
        invariant
            end <= text@.len(),
            text@ == path@,
            trimmed_to(path@, path@.len() as int) == trimmed_to(path@, end as int),
        decreases end,
    {
        end = end - 1;
    }
    let ghost trimmed = end as int;
    while end > 0 && text[end - 1] != '/'
        invariant
            end <= text@.len(),
            text@ == path@,
            last_slash(path@, trimmed) == last_slash(path@, end as int),
        decreases end,
    {
        end = end - 1;
    }
    if end == 0 {
        return None;
    }
    if end == 1 {
        proof {
            reveal_strlit("/");
        }
        let root = String::from_str("/");
        assert(root@ =~= seq!['/']);
        return Some(root);
    }
    Some(String::from_str(path.substring_char(0, end - 1)))
}

/// The directory above an absolute path with plain components is the path without the
/// last of them. There is none above the root.
pub proof fn parents_drop_the_last_component(parts: Seq<Seq<char>>)
    requires
        plain_components(parts),
    ensures
        parent_of(absolute(parts)) == (if parts.len() == 0 {
            None
        } else {
            Some(absolute(parts.drop_last()))
        }),
{
    if parts.len() == 0 {
        assert(trimmed_to(seq!['/'], 0) == 0);
    } else {
        let n = parts.len() as int;
        let path = absolute(parts);
        let head = joined(parts, n - 1);
        let last = parts[n - 1];
        assert(plain_component(last));
        assert(path == head + seq!['/'] + last);
        assert(path[path.len() - 1] == last[last.len() - 1]);
        assert(trimmed_to(path, path.len() as int) == path.len());
        lemma_last_slash_at(path, path.len() as int, head.len() as int);
        lemma_joined_same(parts, parts.drop_last(), n - 1);
        assert(path.subrange(0, head.len() as int) =~= head);
    }
}

proof fn lemma_joined_same(a: Seq<Seq<char>>, b: Seq<Seq<char>>, k: int)
    requires
        0 <= k <= b.len() <= a.len(),
        forall|i: int| 0 <= i < b.len() ==> a[i] == b[i],
    ensures
        joined(a, k) == joined(b, k),
    decreases k,
{
    if k > 0 {
        lemma_joined_same(a, b, k - 1);
    }
}

/// One more part at the end of a path leads into the entry of that name. An empty part and
/// `.` lead nowhere else, and `..` leads to the directory above, or stays at the root.
pub proof fn parts_lead_from_where_the_path_is(path: Seq<char>, part: Seq<char>)
    requires
        forall|i: int| 0 <= i < part.len() ==> part[i] != '/',
    ensures
        ({
            let before = components(path);
            let after = components(path + seq!['/'] + part);
            if part.len() == 0 || part == seq!['.'] {
                after == before
            } else if part == seq!['.', '.'] {
                &&& after.len() == if before.len() == 0 {
                    0
                } else {
                    before.len() - 1
                }
                &&& forall|i: int| 0 <= i < after.len() ==> #[trigger] after[i] == before[i]
            } else {
                &&& after.len() == before.len() + 1
                &&& after[before.len() as int] == part
                &&& forall|i: int| 0 <= i < before.len() ==> #[trigger] after[i] == before[i]
            }
        }),
{
    let whole = path + seq!['/'] + part;
    let n = whole.len() as int;
    let slash = path.len() as int;
    assert(whole[slash] == '/');
    assert forall|i: int| slash < i < n implies whole[i] != '/' by {
        assert(whole[i] == part[i - slash - 1]);
    }
    lemma_last_slash_at(whole, n, slash);
    assert(whole.subrange(slash + 1, n) =~= part);
    lemma_same_prefix(whole, path, slash);
    assert(components(whole) == followed_by(components(path), part));
}

} // verus!
