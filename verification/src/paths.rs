//! File system paths, held as text.
use vstd::prelude::*;

verus! {

/// The path that `Path::join` makes of `base` and `part` on this target:
/// `part` appended after a separator, or `part` alone when it is absolute.
pub uninterp spec fn path_joined(base: Seq<char>, part: Seq<char>) -> Seq<char>;

/// Whether `Path::is_relative` holds of a path on this target.
pub uninterp spec fn path_relative(p: Seq<char>) -> bool;

/// Calls `Path::join` (and `to_string_lossy`) on text; the result depends
/// on the two paths alone for a given target platform.
#[verifier::external_body]
pub(crate) fn join_path(base: &str, part: &str) -> (r: String)
    ensures
        r@ == path_joined(base@, part@),
{
    std::path::Path::new(base).join(part).to_string_lossy().into_owned()
}

/// Calls `Path::is_relative` on text; the result depends on the path alone
/// for a given target platform.
#[verifier::external_body]
pub(crate) fn is_relative_path(p: &str) -> (r: bool)
    ensures
        r == path_relative(p@),
{
    std::path::Path::new(p).is_relative()
}

} // verus!
