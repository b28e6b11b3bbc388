//! The document type handed to the graph builder.
//!
//! Walking a directory tree and reading file contents is I/O and lives in the
//! embedding application; it supplies one `MarkdownFile` per discovered
//! document.

use vstd::prelude::*;

verus! {

/// A discovered document: its filesystem path, its full text, and its name
/// (the file stem, used as the node identifier).
#[derive(Debug, Clone)]
pub struct MarkdownFile {
    pub path: String,
    pub content: String,
    pub name: String,
}

/// The mathematical value of a `MarkdownFile`.
#[verifier::ext_equal]
pub ghost struct FileV {
    pub path: Seq<char>,
    pub content: Seq<char>,
    pub name: Seq<char>,
}

impl View for MarkdownFile {
    type V = FileV;

    open spec fn view(&self) -> FileV {
        FileV { path: self.path@, content: self.content@, name: self.name@ }
    }
}

impl DeepView for MarkdownFile {
    type V = FileV;

    open spec fn deep_view(&self) -> FileV {
        self.view()
    }
}

/// The last index before `k` at which `c` occurs in `s`, or `-1`.
pub open spec fn last_in(s: Seq<char>, c: char, k: int) -> int
    decreases k when 0 <= k <= s.len()
{
    if k <= 0 {
        -1
    } else if s[k - 1] == c {
        k - 1
    } else {
        last_in(s, c, k - 1)
    }
}

/// The stem a path denotes: the part of the final path component (after the
/// last `/`) up to its last `.`, if that dot is not the component's first
/// character. A path whose final component is empty has no stem.
pub open spec fn spec_stem(path: Seq<char>) -> Option<Seq<char>> {
    let ls = last_in(path, '/', path.len() as int);
    let d = last_in(path, '.', path.len() as int);
    if ls + 1 == path.len() {
        None
    } else if d > ls + 1 {
        Some(path.subrange(ls + 1, d))
    } else {
        Some(path.subrange(ls + 1, path.len() as int))
    }
}

/// Derives the node id (file stem) from a path, or `None` for a path with an
/// empty final component.
pub fn stem_of_path(path: &str) -> (r: Option<String>)
    ensures
        r.deep_view() == spec_stem(path@),
{
    let ghost s = path@;
    let n = path.unicode_len();
    let mut k = n;
    while k > 0 && path.get_char(k - 1) != '/'
        invariant
            n == s.len(),
            k <= n,
            s == path@,
            last_in(s, '/', n as int) == last_in(s, '/', k as int),
        decreases k,
    {
        k = k - 1;
    }
    let ghost ls = last_in(s, '/', n as int);
    proof {
        if k == 0 {
            assert(ls == -1);
        } else {
            assert(ls == k - 1);
        }
    }
    if k == n {
        assert(ls + 1 == n);
        return None;
    }
    let mut d = n;
    while d > k && path.get_char(d - 1) != '.'
        invariant
            n == s.len(),
            k <= d <= n,
            s == path@,
            (forall|j: int| d <= j < n ==> s[j] != '.'),
        decreases d,
    {
        d = d - 1;
    }
    let ghost dd = last_in(s, '.', n as int);
    if d > k + 1 && path.get_char(d - 1) == '.' {
        proof {
            lemma_last_in_found(s, '.', n as int, d - 1 as int);
        }
        let r = path.substring_char(k, d - 1).to_owned();
        return Some(r);
    }
    proof {
        if d > k {
            assert(s[d - 1] == '.') by {
                assert(!(d > k && s[d - 1] != '.'));
            }
            assert(d == k + 1);
            lemma_last_in_found(s, '.', n as int, d - 1 as int);
            assert(dd == k);
            assert(!(dd > ls + 1));
        } else {
            assert(forall|j: int| k <= j < n ==> s[j] != '.');
            lemma_last_in_below(s, '.', n as int, k as int);
            assert(dd <= k - 1);
            assert(!(dd > ls + 1));
        }
    }
    let r = path.substring_char(k, n).to_owned();
    Some(r)
}

/// If `s[i] == c` and nothing at or after `i` up to `k` equals `c` past `i`,
/// then `i` is the last occurrence before `k`.
proof fn lemma_last_in_found(s: Seq<char>, c: char, k: int, i: int)
    requires
        0 <= i < k <= s.len(),
        s[i] == c,
        forall|j: int| i < j < k ==> s[j] != c,
    ensures
        last_in(s, c, k) == i,
    decreases k,
{
    if k - 1 == i {
    } else {
        lemma_last_in_found(s, c, k - 1, i);
    }
}

/// If `c` does not occur from `b` up to `k`, the last occurrence before `k`
/// lies below `b`.
proof fn lemma_last_in_below(s: Seq<char>, c: char, k: int, b: int)
    requires
        0 <= b <= k <= s.len(),
        forall|j: int| b <= j < k ==> s[j] != c,
    ensures
        last_in(s, c, k) == last_in(s, c, b),
        last_in(s, c, b) < b,
    decreases k,
{
    if k > b {
        lemma_last_in_below(s, c, k - 1, b);
    } else {
        lemma_last_in_le(s, c, b);
    }
}

proof fn lemma_last_in_le(s: Seq<char>, c: char, k: int)
    requires
        0 <= k <= s.len(),
    ensures
        -1 <= last_in(s, c, k) < k,
    decreases k,
{
    if k > 0 && s[k - 1] != c {
        lemma_last_in_le(s, c, k - 1);
    }
}

} // verus!
