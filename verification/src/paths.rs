//! Path operations of the standard library, on paths held as text. Each
//! follows the path rules of the platform the library is built for.
use vstd::prelude::*;

verus! {

/// What `std::path::Path::parent` gives for a path, as text.
pub uninterp spec fn path_parent_of(path: Seq<char>) -> Option<Seq<char>>;

/// What `std::path::Path::join` gives for a base path and a segment, as text.
pub uninterp spec fn path_join_of(base: Seq<char>, segment: Seq<char>) -> Seq<char>;

/// What `std::path::Path::file_prefix` gives for a path, as text.
pub uninterp spec fn path_file_prefix_of(path: Seq<char>) -> Option<Seq<char>>;

/// Calls `std::path::Path::parent` on `path`. Claimed: the result is
/// `path_parent_of(path)`, which the standard library computes from the text
/// of the path alone (it is `None` for a root or an empty path).
#[verifier::external_body]
pub(crate) fn path_parent(path: &str) -> (parent: Option<String>)
    ensures
        match parent {
            Some(p) => path_parent_of(path@) == Some(p@),
            None => path_parent_of(path@) is None,
        },
{
    std::path::Path::new(path).parent().map(|p| p.to_string_lossy().into_owned())
}

/// Calls `std::path::Path::join` on `base` and `segment`. Claimed: the result
/// is `path_join_of(base, segment)`, a function of the two texts alone.
#[verifier::external_body]
pub(crate) fn path_join(base: &str, segment: &str) -> (joined: String)
    ensures
        joined@ == path_join_of(base@, segment@),
{
    std::path::Path::new(base).join(segment).to_string_lossy().into_owned()
}

/// Calls `std::path::Path::file_prefix` on `path`. Claimed: the result is
/// `path_file_prefix_of(path)`, a function of the text alone (`None` when the
/// path has no file name).
#[verifier::external_body]
pub(crate) fn path_file_prefix(path: &str) -> (prefix: Option<String>)
    ensures
        match prefix {
            Some(p) => path_file_prefix_of(path@) == Some(p@),
            None => path_file_prefix_of(path@) is None,
        },
{
    std::path::Path::new(path).file_prefix().map(|p| p.to_string_lossy().into_owned())
}

} // verus!
