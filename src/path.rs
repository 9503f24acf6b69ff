use vstd::prelude::*;

verus! {

/// The text that `std::path::PathBuf::pop` leaves of a path: the path
/// without its final component, or the path itself where it has none.
pub uninterp spec fn path_parent(path: Seq<char>) -> Seq<char>;

/// Relies on `std::path::PathBuf::pop` for the parent directory of `path`.
/// The result is a prefix of `path` cut at a component boundary, so it is
/// valid text and the lossy conversion loses nothing.
#[verifier::external_body]
pub(crate) fn parent_dir(path: &str) -> (r: String)
    ensures
        r@ == path_parent(path@),
{
    let mut buf = std::path::PathBuf::from(path);
    buf.pop();
    buf.to_string_lossy().into_owned()
}

/// What `==` on `std::path::Path` says of two paths given as text: they
/// have the same components.
pub uninterp spec fn path_eq(a: Seq<char>, b: Seq<char>) -> bool;

/// Two paths are the same path: equal texts, or equal components.
pub open spec fn paths_match(a: Seq<char>, b: Seq<char>) -> bool {
    a == b || path_eq(a, b)
}

/// Relies on `PartialEq` for `std::path::Path`, which compares paths
/// component by component; being `Eq`, it holds of equal texts.
#[verifier::external_body]
pub(crate) fn same_path(a: &str, b: &str) -> (r: bool)
    ensures
        r == path_eq(a@, b@),
        a@ == b@ ==> r,
{
    std::path::Path::new(a) == std::path::Path::new(b)
}

} // verus!
