//! File system paths, as `std::path` reads them.

use vstd::prelude::*;

use std::path::Path;

verus! {

/// Whether `path` begins with every component of `base`, as `Path::starts_with` decides.
pub uninterp spec fn path_starts_with(path: Seq<char>, base: Seq<char>) -> bool;

/// The path `rest` taken relative to `base`, as `Path::join` builds it.
pub uninterp spec fn joined_path(base: Seq<char>, rest: Seq<char>) -> Seq<char>;

/// `std::path::Path::starts_with`: whether `base` is a prefix of `path`, compared component
/// by component. The answer is claimed to depend on the two strings alone.
#[verifier::external_body]
pub(crate) fn starts_with_path(path: &str, base: &str) -> (r: bool)
    ensures
        r == path_starts_with(path@, base@),
{
    Path::new(path).starts_with(base)
}

/// `std::path::Path::join`: `rest` appended to `base` with a separator, or `rest` alone when
/// it is absolute. The result is claimed to depend on the two strings alone; which string it
/// is, is not stated.
#[verifier::external_body]
pub(crate) fn join_path(base: &str, rest: &str) -> (r: String)
    ensures
        r@ == joined_path(base@, rest@),
{
    Path::new(base).join(rest).to_string_lossy().into_owned()
}

} // verus!
