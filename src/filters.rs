use pathfilter::{IgnorePath, PathFilter};
use vstd::prelude::*;

verus! {

#[verifier::external_type_specification]
#[verifier::external_body]
pub struct ExPathFilter(PathFilter);

/// Whether one path filter ignores the path. The answer depends on the
/// filter and the path alone.
pub uninterp spec fn path_filter_ignores(filter: PathFilter, path: Seq<char>) -> bool;

/// Whether a chain of path filters ignores the path: some filter in it does.
pub open spec fn path_filters_ignore(filters: Seq<PathFilter>, path: Seq<char>) -> bool {
    exists|i: int| 0 <= i && i < filters.len() && #[trigger] path_filter_ignores(filters[i], path)
}

/// Relies on pathfilter's `IgnorePath` impl for anything that is a slice of
/// `PathFilter`: it asks each filter's own `IgnorePath::ignore` in turn and
/// answers true as soon as one ignores the path (`iter().any`). Each filter
/// compares the path's extension with its own, so each answer is a function
/// of the filter and the path.
#[verifier::external_body]
pub(crate) fn path_chain_ignores(filters: &Vec<PathFilter>, path: &String) -> (r: bool)
    ensures
        r == (exists|i: int|
            0 <= i && i < filters@.len() && #[trigger] path_filter_ignores(filters@[i], path@)),
{
    filters.ignore(path.as_str())
}

} // verus!
