use crate::entry::{Entry, EntryFilter, EntryKind};
use crate::filters::{path_filter_ignores, path_filters_ignore};
use crate::walker::{WalkConfig, WalkState};
use pathfilter::PathFilter;
use vstd::prelude::*;

verus! {

/// Once a files-only filter is attached, no entry that the walk hands out is
/// a directory.
pub proof fn files_only_surfaces_no_directory(s: WalkState)
    requires
        s.wf(),
        s.config.entry_filters.contains(EntryFilter::FileOnly),
    ensures
        forall|i: int|
            0 <= i < s.ready.len() ==> (#[trigger] s.ready[i]).effective_kind(
                s.config.follow_symlinks,
            ) != EntryKind::Directory,
{
    let k = choose|k: int| 0 <= k < s.config.entry_filters.len() && s.config.entry_filters[k] == EntryFilter::FileOnly;
    assert forall|i: int| 0 <= i < s.ready.len() implies (#[trigger] s.ready[i]).effective_kind(
        s.config.follow_symlinks,
    ) != EntryKind::Directory by {
        let kind = s.ready[i].effective_kind(s.config.follow_symlinks);
        if kind == EntryKind::Directory {
            assert(s.config.entry_filters[k].ignores_spec(kind));
        }
    }
}

/// Once a directories-only filter is attached, every entry that the walk
/// hands out is a directory.
pub proof fn directories_only_surfaces_only_directories(s: WalkState)
    requires
        s.wf(),
        s.config.entry_filters.contains(EntryFilter::DirectoryOnly),
    ensures
        forall|i: int|
            0 <= i < s.ready.len() ==> (#[trigger] s.ready[i]).effective_kind(
                s.config.follow_symlinks,
            ) == EntryKind::Directory,
{
    let k = choose|k: int| 0 <= k < s.config.entry_filters.len() && s.config.entry_filters[k] == EntryFilter::DirectoryOnly;
    assert forall|i: int| 0 <= i < s.ready.len() implies (#[trigger] s.ready[i]).effective_kind(
        s.config.follow_symlinks,
    ) == EntryKind::Directory by {
        let kind = s.ready[i].effective_kind(s.config.follow_symlinks);
        if kind != EntryKind::Directory {
            assert(s.config.entry_filters[k].ignores_spec(kind));
        }
    }
}

/// Entry filters never prune: whatever entry filters are attached, taking in
/// a child queues the same directories and counts the same depth.
pub proof fn entry_filters_never_prune(
    s: WalkState,
    e: Entry,
    path_ignored: bool,
    filters: Seq<EntryFilter>,
)
    ensures
        ({
            let t = WalkState { config: WalkConfig { entry_filters: filters, ..s.config }, ..s };
            &&& t.take_in(e, path_ignored).frontier == s.take_in(e, path_ignored).frontier
            &&& t.take_in(e, path_ignored).depth == s.take_in(e, path_ignored).depth
        }),
{
}

/// A child whose path a path filter ignores leaves the walk as it was: it is
/// neither surfaced nor queued, so nothing under it is ever listed.
pub proof fn ignored_path_is_pruned(s: WalkState, e: Entry)
    ensures
        s.take_in(e, true) == s,
{
}

/// Where symlinks are not followed, no entry that the walk hands out is a
/// symlink, whatever it points to.
pub proof fn no_symlink_surfaces_unless_followed(s: WalkState)
    requires
        s.wf(),
        !s.config.follow_symlinks,
    ensures
        forall|i: int| 0 <= i < s.ready.len() ==> (#[trigger] s.ready[i]).kind != EntryKind::Symlink,
{
}

/// A root that cannot be listed gives an empty walk: the first step asks for
/// the root to be listed, and where that listing yields no child the walk is
/// over at once and stays over.
pub proof fn unlistable_root_yields_nothing(c: WalkConfig)
    ensures
        c.start().ready.len() == 0,
        c.start().frontier.len() > 0,
        c.start().frontier.last() == c.root,
        c.start().after_step().exhausted(),
        c.start().after_step().after_step() == c.start().after_step(),
{
    assert(c.start().after_step().frontier =~= Seq::<Seq<char>>::empty());
}

/// One attached path filter that ignores a child's path is enough: taking
/// the child in with the chain's decision, as `handle_entry` does, leaves the
/// walk as it was.
pub proof fn one_matching_filter_prunes(s: WalkState, e: Entry, i: int)
    requires
        0 <= i < s.config.path_filters.len(),
        path_filter_ignores(s.config.path_filters[i], e.path@),
    ensures
        path_filters_ignore(s.config.path_filters, e.path@),
        s.take_in(e, path_filters_ignore(s.config.path_filters, e.path@)) == s,
{
}

/// The order of the path filters, and a filter attached twice, do not change
/// which paths the chain ignores.
pub proof fn path_filter_order_does_not_matter(
    f1: Seq<PathFilter>,
    f2: Seq<PathFilter>,
    path: Seq<char>,
)
    requires
        forall|f: PathFilter| f1.contains(f) <==> f2.contains(f),
    ensures
        path_filters_ignore(f1, path) == path_filters_ignore(f2, path),
{
    if path_filters_ignore(f1, path) {
        let i = choose|i: int| 0 <= i && i < f1.len() && #[trigger] path_filter_ignores(f1[i], path);
        assert(f1.contains(f1[i]));
        let j = choose|j: int| 0 <= j < f2.len() && f2[j] == f1[i];
        assert(path_filter_ignores(f2[j], path));
    }
    if path_filters_ignore(f2, path) {
        let i = choose|i: int| 0 <= i && i < f2.len() && #[trigger] path_filter_ignores(f2[i], path);
        assert(f2.contains(f2[i]));
        let j = choose|j: int| 0 <= j < f1.len() && f1[j] == f2[i];
        assert(path_filter_ignores(f1[j], path));
    }
}

} // verus!
