use vstd::prelude::*;

verus! {

pub uninterp spec fn parent_of(p: Seq<char>) -> Option<Seq<char>>;

pub uninterp spec fn same_path(a: Seq<char>, b: Seq<char>) -> bool;

pub uninterp spec fn joined_path(base: Seq<char>, rel: Seq<char>) -> Seq<char>;

/// Relies on `std::path::Path::parent`: the path without its final
/// component, which is a part of the path and so shorter; `None` for a root
/// or an empty path.
#[verifier::external_body]
fn path_parent(p: &str) -> (r: Option<String>)
    ensures
        match r {
            Some(q) => parent_of(p@) == Some(q@) && q@.len() < p@.len(),
            None => parent_of(p@) is None,
        },
{
    std::path::Path::new(p).parent().map(|q| q.to_string_lossy().into_owned())
}

/// Relies on `==` of `std::path::Path`: equality of the paths' components.
#[verifier::external_body]
pub(crate) fn paths_equal(a: &str, b: &str) -> (r: bool)
    ensures
        r == same_path(a@, b@),
{
    std::path::Path::new(a) == std::path::Path::new(b)
}

/// Relies on `std::path::Path::join`: `rel` appended to `base`, or `rel`
/// alone where it is absolute.
#[verifier::external_body]
pub(crate) fn join_paths(base: &str, rel: &str) -> (r: String)
    ensures
        r@ == joined_path(base@, rel@),
{
    std::path::Path::new(base).join(rel).to_string_lossy().into_owned()
}

/// Whether `parent` is `path` or one of its ancestors.
pub open spec fn is_parent_path(parent: Seq<char>, path: Seq<char>) -> bool
    decreases path.len(),
{
    same_path(path, parent) || match parent_of(path) {
        Some(q) => q.len() < path.len() && is_parent_path(parent, q),
        None => false,
    }
}

/// Whether `parent` is `path` or one of its ancestors, going up one
/// component at a time.
pub fn path_is_parent(parent: &str, path: &str) -> (r: bool)
    ensures
        r == is_parent_path(parent@, path@),
    decreases path@.len(),
{
    if paths_equal(path, parent) {
        return true;
    }
    match path_parent(path) {
        None => false,
        Some(x) => path_is_parent(parent, x.as_str()),
    }
}

pub uninterp spec fn component_count(p: Seq<char>) -> nat;

pub uninterp spec fn without_components(p: Seq<char>, n: nat) -> Seq<char>;

/// Relies on `std::path::Path::components` and `Iterator::count`: how many
/// components the path has.
#[verifier::external_body]
fn path_component_count(p: &str) -> (r: usize)
    ensures
        r == component_count(p@),
{
    std::path::Path::new(p).components().count()
}

/// Relies on `std::path::Path::components`, `Iterator::skip` and collecting
/// into a `PathBuf`: the path made of the components after the first `n`.
#[verifier::external_body]
fn path_skip_components(p: &str, n: usize) -> (r: String)
    ensures
        r@ == without_components(p@, n as nat),
{
    std::path::Path::new(p).components().skip(n).collect::<std::path::PathBuf>().to_string_lossy().into_owned()
}

/// `path` relative to `root`: its components after as many as `root` has.
pub fn relative_to(root: &str, path: &str) -> (r: String)
    ensures
        r@ == without_components(path@, component_count(root@)),
{
    let n = path_component_count(root);
    path_skip_components(path, n)
}

} // verus!
