//! Checks on paths that come from untrusted documents.

use vstd::prelude::*;
use crate::text::chars_of;

verus! {

/// A `..` component starts at index `i` of `path`: two dots that are bounded on
/// both sides by a separator or by an end of the path.
pub open spec fn parent_component_at(path: Seq<char>, i: int) -> bool {
    &&& 0 <= i
    &&& i + 2 <= path.len()
    &&& path[i] == '.'
    &&& path[i + 1] == '.'
    &&& (i == 0 || path[i - 1] == '/')
    &&& (i + 2 == path.len() || path[i + 2] == '/')
}

/// The path starts at the file system root.
pub open spec fn is_absolute(path: Seq<char>) -> bool {
    path.len() > 0 && path[0] == '/'
}

/// A path is safe when it is relative and never steps to a parent directory, so
/// that joining it to a base directory stays below that directory.
pub open spec fn safe_path(path: Seq<char>) -> bool {
    &&& !is_absolute(path)
    &&& forall|i: int| !parent_component_at(path, i)
}

/// Check that a path is safe to open, even if the source is potentially
/// untrusted. Components are separated by `/`; every component must be a plain
/// name or `.`.
pub fn is_safe_path(path: &str) -> (safe: bool)
    ensures
        safe == safe_path(path@),
{
    let chars = chars_of(path);
    let n = chars.len();
    if n > 0 && chars[0] == '/' {
        return false;
    }
    let mut i: usize = 0;
    while i < n
        invariant
            n == chars.len(),
            chars@ == path@,
            i <= n,
            forall|j: int| 0 <= j < i ==> !parent_component_at(path@, j),
        decreases n - i,
    {
        if n - i >= 2 && chars[i] == '.' && chars[i + 1] == '.' && (i == 0 || chars[i - 1] == '/')
            && (i + 2 == n || chars[i + 2] == '/') {
            assert(parent_component_at(path@, i as int));
            return false;
        }
        i += 1;
    }
    true
}

} // verus!
