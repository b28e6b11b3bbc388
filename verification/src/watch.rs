//! Decision logic of the watch pipeline.
//!
//! The embedding application subscribes to filesystem notifications, debounces
//! them, and asks this module what each debounced event means: whether the
//! path is a document at all, and whether it is a create, a modify or a
//! delete. Dispatching to the delta engine and publishing the result stay
//! with the application.

use vstd::prelude::*;
use crate::scanner::last_in;

verus! {

/// What a debounced filesystem notification means for a document.
#[derive(Debug, Clone, Copy, PartialEq, Eq, Structural)]
pub enum FileEventKind {
    Created,
    Modified,
    Deleted,
}

/// Classifies a debounced event: a path that no longer exists was deleted; an
/// existing path with an index entry was modified, one without was created.
pub fn classify_event(exists_now: bool, known: bool) -> (k: FileEventKind)
    ensures
        k == (if !exists_now {
            FileEventKind::Deleted
        } else if known {
            FileEventKind::Modified
        } else {
            FileEventKind::Created
        }),
{
    if !exists_now {
        FileEventKind::Deleted
    } else if known {
        FileEventKind::Modified
    } else {
        FileEventKind::Created
    }
}

/// Whether a path denotes a markdown document: its final component ends in
/// `.md` and is longer than that suffix.
pub open spec fn spec_is_markdown(path: Seq<char>) -> bool {
    let n = path.len() as int;
    let ls = last_in(path, '/', n);
    &&& n - (ls + 1) > 3
    &&& path[n - 3] == '.'
    &&& path[n - 2] == 'm'
    &&& path[n - 1] == 'd'
}

/// Whether `path` names a markdown document; other paths are discarded before
/// classification.
pub fn is_markdown_path(path: &str) -> (r: bool)
    ensures
        r == spec_is_markdown(path@),
{
    let ghost s = path@;
    let n = path.unicode_len();
    let mut k = n;
    while k > 0 && path.get_char(k - 1) != '/'
        invariant
            n == s.len(),
            k <= n,
            s == path@,
            last_in(s, '/', n as int) == last_in(s, '/', k as int),
        decreases k,
    {
        k = k - 1;
    }
    let ghost ls = last_in(s, '/', n as int);
    proof {
        if k == 0 {
            assert(ls == -1);
        } else {
            assert(ls == k - 1);
        }
    }
    if n - k <= 3 {
        return false;
    }
    path.get_char(n - 3) == '.' && path.get_char(n - 2) == 'm' && path.get_char(n - 1) == 'd'
}

} // verus!
