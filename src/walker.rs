use crate::entry::{any_ignores, chain_ignores, Entry, EntryFilter, EntryKind};
use crate::filters::{path_chain_ignores, path_filters_ignore};
use pathfilter::PathFilter;
use vstd::prelude::*;

verus! {

/// The configuration of a walk, as a mathematical value.
pub struct WalkConfig {
    pub root: Seq<char>,
    pub follow_symlinks: bool,
    pub max_depth: Option<u64>,
    pub entry_filters: Seq<EntryFilter>,
    pub path_filters: Seq<PathFilter>,
}

/// Builds the configuration of a walk. Consumed by `walk`, after which the
/// configuration can no longer change.
pub struct PathWalker {
    root: String,
    follow_symlinks: bool,
    max_depth: Option<u64>,
    direntry_filters: Vec<EntryFilter>,
    path_filters: Vec<PathFilter>,
}

impl View for PathWalker {
    type V = WalkConfig;

    closed spec fn view(&self) -> WalkConfig {
        WalkConfig {
            root: self.root@,
            follow_symlinks: self.follow_symlinks,
            max_depth: self.max_depth,
            entry_filters: self.direntry_filters@,
            path_filters: self.path_filters@,
        }
    }
}

impl PathWalker {
    /// A walk of the tree under `path`: no symlinks followed, no depth
    /// ceiling, no filters. The path need not exist.
    pub fn new(path: String) -> (r: PathWalker)
        ensures
            r@ == (WalkConfig {
                root: path@,
                follow_symlinks: false,
                max_depth: None,
                entry_filters: Seq::empty(),
                path_filters: Seq::empty(),
            }),
    {
        PathWalker {
            root: path,
            follow_symlinks: false,
            max_depth: None,
            direntry_filters: Vec::new(),
            path_filters: Vec::new(),
        }
    }

    /// Follows symlinks: each is judged by the type it resolves to, for both
    /// output and descent. Nothing detects a cycle of links, so a tree that
    /// holds one is walked without end.
    pub fn follow_symlinks(self) -> (r: PathWalker)
        ensures
            r@ == (WalkConfig { follow_symlinks: true, ..self@ }),
    {
        PathWalker { follow_symlinks: true, ..self }
    }

    /// Sets the ceiling on the number of directories queued for descent over
    /// the whole walk (not the distance from the root); `None` removes it.
    /// A directory met once the ceiling is reached is still handed out; it is
    /// only not walked into.
    pub fn with_max_depth(self, max_depth: Option<u64>) -> (r: PathWalker)
        ensures
            r@ == (WalkConfig { max_depth: max_depth, ..self@ }),
    {
        PathWalker { max_depth, ..self }
    }

    /// Adds a path filter: a child whose path it ignores is neither surfaced
    /// nor walked into.
    pub fn with_filter(self, filter: PathFilter) -> (r: PathWalker)
        ensures
            r@ == (WalkConfig { path_filters: self@.path_filters.push(filter), ..self@ }),
    {
        let mut s = self;
        s.path_filters.push(filter);
        s
    }

    /// Adds path filters, in order, after those already there.
    pub fn with_filters(self, filters: Vec<PathFilter>) -> (r: PathWalker)
        ensures
            r@ == (WalkConfig { path_filters: self@.path_filters + filters@, ..self@ }),
    {
        let mut s = self;
        let mut more = filters;
        s.path_filters.append(&mut more);
        s
    }

    /// Withholds directories (and unresolved symlinks) from the output; they
    /// are still walked into.
    pub fn files_only(self) -> (r: PathWalker)
        ensures
            r@ == (WalkConfig {
                entry_filters: self@.entry_filters.push(EntryFilter::FileOnly),
                ..self@
            }),
    {
        let mut s = self;
        s.direntry_filters.push(EntryFilter::FileOnly);
        s
    }

    /// Withholds everything but directories from the output.
    pub fn directories_only(self) -> (r: PathWalker)
        ensures
            r@ == (WalkConfig {
                entry_filters: self@.entry_filters.push(EntryFilter::DirectoryOnly),
                ..self@
            }),
    {
        let mut s = self;
        s.direntry_filters.push(EntryFilter::DirectoryOnly);
        s
    }
}


impl Default for PathWalker {
    /// A walk of the current directory.
    fn default() -> (r: PathWalker)
        ensures
            r@ == (WalkConfig {
                root: "."@,
                follow_symlinks: false,
                max_depth: None,
                entry_filters: Seq::empty(),
                path_filters: Seq::empty(),
            }),
    {
        broadcast use vstd::string::group_string_axioms;

        PathWalker::new(".".to_string())
    }
}

/// The state of a walk, as a mathematical value.
pub struct WalkState {
    pub config: WalkConfig,
    /// Directories still to be listed; the last one is listed next.
    pub frontier: Seq<Seq<char>>,
    /// Entries approved for output; the last one is handed out next.
    pub ready: Seq<Entry>,
    /// How many directories have been queued for descent so far (saturating).
    pub depth: u64,
}

/// What the walker asks of its caller next.
pub enum Step {
    /// Hand this entry out.
    Yield(Entry),
    /// List this directory and hand each of its children to `handle_entry`.
    List(String),
    /// The walk is over.
    Done,
}

impl WalkConfig {
    /// A fresh walk: the root is the one directory to list.
    pub open spec fn start(self) -> WalkState {
        WalkState { config: self, frontier: seq![self.root], ready: Seq::empty(), depth: 0 }
    }
}

impl WalkState {
    /// Whether a directory found now may still be queued for descent.
    pub open spec fn may_descend(self) -> bool {
        match self.config.max_depth {
            None => true,
            Some(m) => self.depth < m,
        }
    }

    /// The state after one child of a listed directory was handed in;
    /// `path_ignored` is whether a path filter ignored the child's path.
    pub open spec fn take_in(self, e: Entry, path_ignored: bool) -> WalkState {
        let follow = self.config.follow_symlinks;
        let kind = e.effective_kind(follow);
        if path_ignored || (!follow && e.kind == EntryKind::Symlink) {
            self
        } else {
            let queued = if kind == EntryKind::Directory && self.may_descend() {
                WalkState {
                    frontier: self.frontier.push(e.path@),
                    depth: if self.depth < u64::MAX { (self.depth + 1) as u64 } else { self.depth },
                    ..self
                }
            } else {
                self
            };
            if chain_ignores(self.config.entry_filters, kind) {
                queued
            } else {
                WalkState { ready: queued.ready.push(e), ..queued }
            }
        }
    }

    /// The state after one step: an entry handed out, else a directory taken
    /// for listing, else nothing changed.
    pub open spec fn after_step(self) -> WalkState {
        if self.ready.len() > 0 {
            WalkState { ready: self.ready.drop_last(), ..self }
        } else if self.frontier.len() > 0 {
            WalkState { frontier: self.frontier.drop_last(), ..self }
        } else {
            self
        }
    }

    /// Whether the walk is over: nothing left to hand out or to list.
    pub open spec fn exhausted(self) -> bool {
        self.ready.len() == 0 && self.frontier.len() == 0
    }

    /// What holds of every state of a walk: each entry waiting to be handed
    /// out passes the entry filters, and is no symlink unless symlinks are
    /// followed.
    pub open spec fn wf(self) -> bool {
        forall|i: int|
            0 <= i < self.ready.len() ==> {
                let e = #[trigger] self.ready[i];
                &&& !chain_ignores(self.config.entry_filters, e.effective_kind(self.config.follow_symlinks))
                &&& (!self.config.follow_symlinks ==> e.kind != EntryKind::Symlink)
            }
    }
}

/// A walk in progress over a directory tree.
pub struct Walk {
    directories: Vec<String>,
    items: Vec<Entry>,
    follow_symlinks: bool,
    max_depth: Option<u64>,
    current_depth: u64,
    direntry_filters: Vec<EntryFilter>,
    path_filters: Vec<PathFilter>,
    root: Ghost<Seq<char>>,
}

impl View for Walk {
    type V = WalkState;

    closed spec fn view(&self) -> WalkState {
        WalkState {
            config: WalkConfig {
                root: self.root@,
                follow_symlinks: self.follow_symlinks,
                max_depth: self.max_depth,
                entry_filters: self.direntry_filters@,
                path_filters: self.path_filters@,
            },
            frontier: self.directories@.map_values(|d: String| d@),
            ready: self.items@,
            depth: self.current_depth,
        }
    }
}

impl PathWalker {
    /// Starts the walk; from here on its configuration is fixed.
    pub fn walk(self) -> (r: Walk)
        ensures
            r@ == self@.start(),
            r@.wf(),
    {
        let ghost root = self.root@;
        let mut directories: Vec<String> = Vec::new();
        directories.push(self.root);
        let r = Walk {
            directories,
            items: Vec::new(),
            follow_symlinks: self.follow_symlinks,
            max_depth: self.max_depth,
            current_depth: 0,
            direntry_filters: self.direntry_filters,
            path_filters: self.path_filters,
            root: Ghost(root),
        };
        assert(r@.frontier =~= seq![root]);
        r
    }
}

impl Walk {
    /// Takes in one child of a listed directory, given whether a path filter
    /// ignored its path. The child is queued for descent if it is a
    /// directory and the depth ceiling allows, and surfaced unless an entry
    /// filter withholds it; a symlink, where symlinks are not followed, and a
    /// child whose path is ignored, are dropped.
    pub fn take_in_entry(&mut self, entry: Entry, path_ignored: bool)
        requires
            old(self)@.wf(),
        ensures
            final(self)@ == old(self)@.take_in(entry, path_ignored),
            final(self)@.wf(),
    {
        let ghost pre = self@;
        if path_ignored {
            return;
        }
        if !self.follow_symlinks && entry.kind == EntryKind::Symlink {
            return;
        }
        let is_dir = entry.is_dir(self.follow_symlinks);
        let kind = if self.follow_symlinks {
            entry.target
        } else {
            entry.kind
        };
        let may_descend = match self.max_depth {
            None => true,
            Some(m) => self.current_depth < m,
        };
        if is_dir && may_descend {
            self.directories.push(entry.path.clone());
            self.current_depth = self.current_depth.saturating_add(1);
            assert(self@.frontier =~= pre.frontier.push(entry.path@));
        }
        let ghost mid = self@;
        if any_ignores(&self.direntry_filters, kind) {
            return;
        }
        self.items.push(entry);
        assert(self@.ready =~= mid.ready.push(entry));
    }

    /// Takes in one child of a listed directory: asks the path filters about
    /// its path, then goes on as `take_in_entry`.
    pub fn handle_entry(&mut self, entry: Entry)
        requires
            old(self)@.wf(),
        ensures
            final(self)@ == old(self)@.take_in(
                entry,
                path_filters_ignore(old(self)@.config.path_filters, entry.path@),
            ),
            old(self)@.config.path_filters.len() == 0 ==> final(self)@ == old(self)@.take_in(
                entry,
                false,
            ),
            final(self)@.wf(),
    {
        let ignored = path_chain_ignores(&self.path_filters, &entry.path);
        self.take_in_entry(entry, ignored);
    }

    /// Says what to do next: hand out the entry added last, else list the
    /// directory added last, else stop.
    pub fn step(&mut self) -> (r: Step)
        requires
            old(self)@.wf(),
        ensures
            final(self)@ == old(self)@.after_step(),
            final(self)@.wf(),
            old(self)@.ready.len() > 0 ==> r == Step::Yield(old(self)@.ready.last()),
            old(self)@.ready.len() == 0 && old(self)@.frontier.len() > 0 ==> (match r {
                Step::List(d) => d@ == old(self)@.frontier.last(),
                _ => false,
            }),
            old(self)@.exhausted() ==> r == Step::Done,
            r matches Step::Yield(e) ==> !chain_ignores(
                old(self)@.config.entry_filters,
                e.effective_kind(old(self)@.config.follow_symlinks),
            ) && (!old(self)@.config.follow_symlinks ==> e.kind != EntryKind::Symlink),
    {
        let ghost pre = self@;
        if let Some(e) = self.items.pop() {
            assert(self@.ready =~= pre.ready.drop_last());
            return Step::Yield(e);
        }
        if let Some(d) = self.directories.pop() {
            assert(self@.frontier =~= pre.frontier.drop_last());
            return Step::List(d);
        }
        Step::Done
    }
}

} // verus!
