//! Whole walks over a model of the tree on disk.
//!
//! The tree is a map from each directory that can be listed to the children
//! its listing yields. A pull is `advance`: it is built from the states that
//! `Walk::step` and `Walk::handle_entry` promise (`after_step`, `take_in`),
//! with the decision of the path filters given as a function of the path.
//! The walk that `handle_entry` drives is the one whose function is
//! `chain_decision(c)`.
use crate::entry::{chain_ignores, Entry, EntryKind};
use crate::filters::{path_filter_ignores, path_filters_ignore};
use crate::walker::{WalkConfig, WalkState};
use vstd::prelude::*;

verus! {

/// The paths of a sequence of entries.
pub open spec fn paths_of(es: Seq<Entry>) -> Seq<Seq<char>> {
    es.map_values(|e: Entry| e.path@)
}

/// Takes in the children of one listing in order; `ignores` says which paths
/// the path filters ignore.
pub open spec fn take_in_all(
    s: WalkState,
    children: Seq<Entry>,
    ignores: spec_fn(Seq<char>) -> bool,
) -> WalkState
    decreases children.len(),
{
    if children.len() == 0 {
        s
    } else {
        take_in_all(
            s.take_in(children[0], ignores(children[0].path@)),
            children.drop_first(),
            ignores,
        )
    }
}

proof fn take_in_shape(s: WalkState, e: Entry, b: bool)
    ensures
        s.take_in(e, b).config == s.config,
        s.take_in(e, b).ready == s.ready || s.take_in(e, b).ready == s.ready.push(e),
        s.take_in(e, b).frontier == s.frontier || s.take_in(e, b).frontier == s.frontier.push(
            e.path@,
        ),
{
}

proof fn push_keeps_distinct(s: Seq<Seq<char>>, x: Seq<char>)
    requires
        s.no_duplicates(),
        !s.contains(x),
    ensures
        s.push(x).no_duplicates(),
        forall|y: Seq<char>| s.push(x).contains(y) <==> (s.contains(y) || y == x),
{
    assert forall|y: Seq<char>| s.push(x).contains(y) implies (s.contains(y) || y == x) by {
        let i = choose|i: int| 0 <= i < s.push(x).len() && s.push(x)[i] == y;
        if i < s.len() {
            assert(s[i] == y);
        }
    }
    assert forall|y: Seq<char>| (s.contains(y) || y == x) implies s.push(x).contains(y) by {
        if s.contains(y) {
            let i = choose|i: int| 0 <= i < s.len() && s[i] == y;
            assert(s.push(x)[i] == y);
        } else {
            assert(s.push(x)[s.len() as int] == y);
        }
    }
}

proof fn paths_of_push(es: Seq<Entry>, e: Entry)
    ensures
        paths_of(es.push(e)) == paths_of(es).push(e.path@),
{
    assert(paths_of(es.push(e)) =~= paths_of(es).push(e.path@));
}

/// Taking in the children of a listing whose paths are distinct and new
/// keeps the paths in both stacks distinct, and adds only those paths.
proof fn take_in_all_keeps_distinct(
    s: WalkState,
    children: Seq<Entry>,
    ignores: spec_fn(Seq<char>) -> bool,
)
    requires
        paths_of(s.ready).no_duplicates(),
        s.frontier.no_duplicates(),
        paths_of(children).no_duplicates(),
        forall|j: int|
            0 <= j < children.len() ==> !paths_of(s.ready).contains(#[trigger] children[j].path@)
                && !s.frontier.contains(children[j].path@),
    ensures
        ({
            let t = take_in_all(s, children, ignores);
            &&& t.config == s.config
            &&& paths_of(t.ready).no_duplicates()
            &&& t.frontier.no_duplicates()
            &&& forall|p: Seq<char>|
                paths_of(t.ready).contains(p) ==> paths_of(s.ready).contains(p) || paths_of(
                    children,
                ).contains(p)
            &&& forall|p: Seq<char>|
                t.frontier.contains(p) ==> s.frontier.contains(p) || paths_of(children).contains(p)
        }),
    decreases children.len(),
{
    if children.len() > 0 {
        let e = children[0];
        let b = ignores(e.path@);
        let s1 = s.take_in(e, b);
        let rest = children.drop_first();
        take_in_shape(s, e, b);
        assert(paths_of(children)[0] == e.path@);
        if s1.ready != s.ready {
            paths_of_push(s.ready, e);
            push_keeps_distinct(paths_of(s.ready), e.path@);
        }
        if s1.frontier != s.frontier {
            push_keeps_distinct(s.frontier, e.path@);
        }
        assert(paths_of(rest) =~= paths_of(children).drop_first());
        assert forall|j: int| 0 <= j < rest.len() implies !paths_of(s1.ready).contains(
            #[trigger] rest[j].path@,
        ) && !s1.frontier.contains(rest[j].path@) by {
            assert(rest[j] == children[j + 1]);
            assert(paths_of(children)[j + 1] == rest[j].path@);
            assert(paths_of(children)[0] != paths_of(children)[j + 1]);
        }
        take_in_all_keeps_distinct(s1, rest, ignores);
        let t = take_in_all(s1, rest, ignores);
        assert forall|p: Seq<char>| paths_of(rest).contains(p) implies paths_of(children).contains(p) by {
            let j = choose|j: int| 0 <= j < paths_of(rest).len() && paths_of(rest)[j] == p;
            assert(paths_of(children)[j + 1] == p);
        }
        assert forall|p: Seq<char>| paths_of(s1.ready).contains(p) implies paths_of(s.ready).contains(p) || paths_of(children).contains(p) by {
            if s1.ready != s.ready {
                assert(paths_of(children)[0] == p || paths_of(s.ready).contains(p));
            }
        }
    }
}

/// What listing the directory `d` yields in the tree `fs`: nothing where it
/// cannot be listed.
pub open spec fn listing(fs: Map<Seq<char>, Seq<Entry>>, d: Seq<char>) -> Seq<Entry> {
    if fs.contains_key(d) {
        fs[d]
    } else {
        Seq::empty()
    }
}

/// Whether `p` is the path of a child in the listing of `d`.
pub open spec fn is_child_of(fs: Map<Seq<char>, Seq<Entry>>, d: Seq<char>, p: Seq<char>) -> bool {
    paths_of(listing(fs, d)).contains(p)
}

/// The tree has the shape of a tree: no listing names a path twice, no path is
/// a child of two directories, and the root is nobody's child.
pub open spec fn tree_shaped(fs: Map<Seq<char>, Seq<Entry>>, root: Seq<char>) -> bool {
    &&& forall|d: Seq<char>| #[trigger] paths_of(listing(fs, d)).no_duplicates()
    &&& forall|d1: Seq<char>, d2: Seq<char>, p: Seq<char>|
        #[trigger] is_child_of(fs, d1, p) && #[trigger] is_child_of(fs, d2, p) ==> d1 == d2
    &&& forall|d: Seq<char>| !#[trigger] is_child_of(fs, d, root)
}

/// One pull of a walk over the tree `fs`: hand out an entry if one is ready,
/// else list the directory on top of the frontier and take in its children.
pub open spec fn advance(
    s: WalkState,
    fs: Map<Seq<char>, Seq<Entry>>,
    ignores: spec_fn(Seq<char>) -> bool,
) -> WalkState {
    if s.ready.len() == 0 && s.frontier.len() > 0 {
        take_in_all(s.after_step(), listing(fs, s.frontier.last()), ignores)
    } else {
        s.after_step()
    }
}

/// The entries handed out over `n` pulls of a walk over the tree `fs`.
pub open spec fn produced(
    s: WalkState,
    fs: Map<Seq<char>, Seq<Entry>>,
    ignores: spec_fn(Seq<char>) -> bool,
    n: nat,
) -> Seq<Entry>
    decreases n,
{
    if n == 0 {
        Seq::empty()
    } else {
        let head = if s.ready.len() > 0 {
            seq![s.ready.last()]
        } else {
            Seq::empty()
        };
        head + produced(advance(s, fs, ignores), fs, ignores, (n - 1) as nat)
    }
}

spec fn child_of_listed(fs: Map<Seq<char>, Seq<Entry>>, listed: Set<Seq<char>>, p: Seq<char>) -> bool {
    exists|d: Seq<char>| listed.contains(d) && #[trigger] is_child_of(fs, d, p)
}

spec fn child_of_unlisted(fs: Map<Seq<char>, Seq<Entry>>, listed: Set<Seq<char>>, p: Seq<char>) -> bool {
    exists|d: Seq<char>| !listed.contains(d) && #[trigger] is_child_of(fs, d, p)
}

/// What holds of a walk over a tree-shaped tree once the directories in
/// `listed` have been listed.
spec fn walk_inv(
    s: WalkState,
    fs: Map<Seq<char>, Seq<Entry>>,
    root: Seq<char>,
    listed: Set<Seq<char>>,
) -> bool {
    &&& paths_of(s.ready).no_duplicates()
    &&& forall|p: Seq<char>| #[trigger] paths_of(s.ready).contains(p) ==> child_of_listed(fs, listed, p)
    &&& s.frontier.no_duplicates()
    &&& forall|p: Seq<char>|
        #[trigger] s.frontier.contains(p) ==> !listed.contains(p) && (p == root || child_of_listed(
            fs,
            listed,
            p,
        ))
    &&& forall|p: Seq<char>| #[trigger] listed.contains(p) ==> p == root || child_of_listed(fs, listed, p)
}

/// A path that may still be handed out: ready now, or a child of a directory
/// not yet listed.
spec fn pending(s: WalkState, fs: Map<Seq<char>, Seq<Entry>>, listed: Set<Seq<char>>, p: Seq<char>) -> bool {
    paths_of(s.ready).contains(p) || child_of_unlisted(fs, listed, p)
}

proof fn drop_last_keeps_distinct(s: Seq<Seq<char>>)
    requires
        s.len() > 0,
        s.no_duplicates(),
    ensures
        s.drop_last().no_duplicates(),
        !s.drop_last().contains(s.last()),
        forall|p: Seq<char>| s.drop_last().contains(p) ==> s.contains(p),
{
    assert forall|p: Seq<char>| s.drop_last().contains(p) implies s.contains(p) by {
        let i = choose|i: int| 0 <= i < s.drop_last().len() && s.drop_last()[i] == p;
        assert(s[i] == p);
    }
    if s.drop_last().contains(s.last()) {
        let i = choose|i: int| 0 <= i < s.drop_last().len() && s.drop_last()[i] == s.last();
        assert(s[i] == s[s.len() - 1]);
    }
}

proof fn prepend_keeps_distinct(x: Seq<char>, rest: Seq<Seq<char>>)
    requires
        rest.no_duplicates(),
        !rest.contains(x),
    ensures
        (seq![x] + rest).no_duplicates(),
        forall|p: Seq<char>| (seq![x] + rest).contains(p) ==> p == x || rest.contains(p),
{
    let t = seq![x] + rest;
    assert forall|i: int, j: int| 0 <= i < t.len() && 0 <= j < t.len() && i != j implies t[i] != t[j] by {
        if i > 0 && j > 0 {
            assert(t[i] == rest[i - 1] && t[j] == rest[j - 1]);
        } else if i == 0 {
            assert(t[j] == rest[j - 1]);
        } else {
            assert(t[i] == rest[i - 1]);
        }
    }
    assert forall|p: Seq<char>| t.contains(p) implies p == x || rest.contains(p) by {
        let i = choose|i: int| 0 <= i < t.len() && t[i] == p;
        if i > 0 {
            assert(rest[i - 1] == p);
        }
    }
}

/// Listing the directory on top of the frontier keeps the invariant, with
/// that directory counted as listed, and adds no path that was not pending.
proof fn list_step(
    s: WalkState,
    fs: Map<Seq<char>, Seq<Entry>>,
    root: Seq<char>,
    ignores: spec_fn(Seq<char>) -> bool,
    listed: Set<Seq<char>>,
)
    requires
        tree_shaped(fs, root),
        walk_inv(s, fs, root, listed),
        s.ready.len() == 0,
        s.frontier.len() > 0,
    ensures
        advance(s, fs, ignores).config == s.config,
        walk_inv(advance(s, fs, ignores), fs, root, listed.insert(s.frontier.last())),
        forall|p: Seq<char>|
            pending(advance(s, fs, ignores), fs, listed.insert(s.frontier.last()), p) ==> pending(
                s,
                fs,
                listed,
                p,
            ),
{
    let d = s.frontier.last();
    let s0 = s.after_step();
    let cs = listing(fs, d);
    let listed1 = listed.insert(d);
    assert(s.frontier.contains(d)) by {
        assert(s.frontier[s.frontier.len() - 1] == d);
    }
    assert(!listed.contains(d));
    drop_last_keeps_distinct(s.frontier);
    assert(paths_of(s0.ready) =~= Seq::<Seq<char>>::empty());
    assert(paths_of(cs).no_duplicates());
    // A child of d is neither the root nor a child of a listed directory.
    assert forall|c: Seq<char>| is_child_of(fs, d, c) implies c != root && !child_of_listed(
        fs,
        listed,
        c,
    ) && !listed.contains(c) && c != d by {
        if child_of_listed(fs, listed, c) {
            let d2 = choose|d2: Seq<char>| listed.contains(d2) && #[trigger] is_child_of(fs, d2, c);
            assert(d2 == d);
        }
        if listed.contains(c) {
            assert(c == root || child_of_listed(fs, listed, c));
        }
        if c == d {
            assert(d == root || child_of_listed(fs, listed, d));
        }
    }
    assert forall|j: int| 0 <= j < cs.len() implies !paths_of(s0.ready).contains(
        #[trigger] cs[j].path@,
    ) && !s0.frontier.contains(cs[j].path@) by {
        assert(paths_of(cs)[j] == cs[j].path@);
        assert(is_child_of(fs, d, cs[j].path@));
        if s0.frontier.contains(cs[j].path@) {
            assert(s.frontier.contains(cs[j].path@));
        }
    }
    take_in_all_keeps_distinct(s0, cs, ignores);
    let t = take_in_all(s0, cs, ignores);
    assert(t == advance(s, fs, ignores));
    assert forall|p: Seq<char>| child_of_listed(fs, listed, p) implies child_of_listed(fs, listed1, p) by {
        let d2 = choose|d2: Seq<char>| listed.contains(d2) && #[trigger] is_child_of(fs, d2, p);
        assert(listed1.contains(d2) && is_child_of(fs, d2, p));
    }
    assert forall|p: Seq<char>| is_child_of(fs, d, p) implies child_of_listed(fs, listed1, p) by {
        assert(listed1.contains(d) && is_child_of(fs, d, p));
    }
    assert forall|p: Seq<char>| #[trigger] paths_of(t.ready).contains(p) implies child_of_listed(
        fs,
        listed1,
        p,
    ) by {
        assert(is_child_of(fs, d, p));
    }
    assert forall|p: Seq<char>| #[trigger] t.frontier.contains(p) implies !listed1.contains(p) && (
    p == root || child_of_listed(fs, listed1, p)) by {
        if s0.frontier.contains(p) {
            assert(s.frontier.contains(p));
        } else {
            assert(is_child_of(fs, d, p));
        }
    }
    assert forall|p: Seq<char>| #[trigger] listed1.contains(p) implies p == root || child_of_listed(
        fs,
        listed1,
        p,
    ) by {
        if p != d {
            assert(listed.contains(p));
        }
    }
    assert forall|p: Seq<char>| pending(t, fs, listed1, p) implies pending(s, fs, listed, p) by {
        if paths_of(t.ready).contains(p) {
            assert(is_child_of(fs, d, p));
        } else {
            let d2 = choose|d2: Seq<char>| !listed1.contains(d2) && #[trigger] is_child_of(fs, d2, p);
            assert(!listed.contains(d2) && is_child_of(fs, d2, p));
        }
    }
}

/// Handing out the ready entry keeps the invariant; its path is no longer
/// pending afterwards.
proof fn yield_step(
    s: WalkState,
    fs: Map<Seq<char>, Seq<Entry>>,
    root: Seq<char>,
    ignores: spec_fn(Seq<char>) -> bool,
    listed: Set<Seq<char>>,
)
    requires
        tree_shaped(fs, root),
        walk_inv(s, fs, root, listed),
        s.ready.len() > 0,
    ensures
        walk_inv(advance(s, fs, ignores), fs, root, listed),
        forall|p: Seq<char>|
            pending(advance(s, fs, ignores), fs, listed, p) ==> pending(s, fs, listed, p) && p
                != s.ready.last().path@,
        pending(s, fs, listed, s.ready.last().path@),
{
    let t = advance(s, fs, ignores);
    let e = s.ready.last();
    assert(paths_of(t.ready) =~= paths_of(s.ready).drop_last());
    assert(paths_of(s.ready).last() == e.path@);
    drop_last_keeps_distinct(paths_of(s.ready));
    assert(paths_of(s.ready).contains(e.path@)) by {
        assert(paths_of(s.ready)[s.ready.len() - 1] == e.path@);
    }
    assert(t.frontier == s.frontier);
    assert forall|p: Seq<char>| #[trigger] paths_of(t.ready).contains(p) implies child_of_listed(
        fs,
        listed,
        p,
    ) by {
        assert(paths_of(s.ready).contains(p));
    }
    let d = choose|d: Seq<char>| listed.contains(d) && #[trigger] is_child_of(fs, d, e.path@);
    assert forall|p: Seq<char>| pending(t, fs, listed, p) implies pending(s, fs, listed, p) && p
        != e.path@ by {
        if !paths_of(t.ready).contains(p) {
            let d2 = choose|d2: Seq<char>| !listed.contains(d2) && #[trigger] is_child_of(fs, d2, p);
            if p == e.path@ {
                assert(d2 == d);
            }
        }
    }
}

/// Over any number of pulls from a state that keeps the invariant, the
/// entries handed out have distinct paths, each pending at the start.
proof fn produced_distinct(
    s: WalkState,
    fs: Map<Seq<char>, Seq<Entry>>,
    root: Seq<char>,
    ignores: spec_fn(Seq<char>) -> bool,
    listed: Set<Seq<char>>,
    n: nat,
)
    requires
        tree_shaped(fs, root),
        walk_inv(s, fs, root, listed),
    ensures
        paths_of(produced(s, fs, ignores, n)).no_duplicates(),
        forall|p: Seq<char>|
            paths_of(produced(s, fs, ignores, n)).contains(p) ==> pending(s, fs, listed, p),
    decreases n,
{
    if n > 0 {
        let t = advance(s, fs, ignores);
        let m = (n - 1) as nat;
        let rest = produced(t, fs, ignores, m);
        if s.ready.len() > 0 {
            yield_step(s, fs, root, ignores, listed);
            produced_distinct(t, fs, root, ignores, listed, m);
            let e = s.ready.last();
            assert(paths_of(seq![e] + rest) =~= seq![e.path@] + paths_of(rest));
            prepend_keeps_distinct(e.path@, paths_of(rest));
        } else if s.frontier.len() > 0 {
            list_step(s, fs, root, ignores, listed);
            produced_distinct(t, fs, root, ignores, listed.insert(s.frontier.last()), m);
            assert(produced(s, fs, ignores, n) =~= rest);
        } else {
            assert(t == s);
            produced_distinct(t, fs, root, ignores, listed, m);
            assert(produced(s, fs, ignores, n) =~= rest);
        }
    }
}

/// A walk over a tree-shaped tree never hands out the same path twice,
/// whatever the path filters decide and however many pulls are made.
pub proof fn walk_never_repeats_a_path(
    c: WalkConfig,
    fs: Map<Seq<char>, Seq<Entry>>,
    ignores: spec_fn(Seq<char>) -> bool,
    n: nat,
)
    requires
        tree_shaped(fs, c.root),
    ensures
        paths_of(produced(c.start(), fs, ignores, n)).no_duplicates(),
{
    let s = c.start();
    assert(paths_of(s.ready) =~= Seq::<Seq<char>>::empty());
    assert forall|p: Seq<char>| #[trigger] s.frontier.contains(p) implies p == c.root by {
        let i = choose|i: int| 0 <= i < s.frontier.len() && s.frontier[i] == p;
    }
    produced_distinct(s, fs, c.root, ignores, Set::empty(), n);
}

/// Whether `x` is closed towards the root except at `top`: every directory
/// whose listing holds a member of `x` other than `top` is in `x` too. The
/// paths at or below `top` form such a set.
pub open spec fn closed_above_except(
    fs: Map<Seq<char>, Seq<Entry>>,
    x: Set<Seq<char>>,
    top: Seq<char>,
) -> bool {
    forall|d: Seq<char>, p: Seq<char>|
        #[trigger] is_child_of(fs, d, p) && #[trigger] x.contains(p) && p != top ==> x.contains(d)
}

spec fn avoids(s: WalkState, x: Set<Seq<char>>) -> bool {
    &&& forall|p: Seq<char>| #[trigger] s.frontier.contains(p) ==> !x.contains(p)
    &&& forall|p: Seq<char>| #[trigger] paths_of(s.ready).contains(p) ==> !x.contains(p)
}

proof fn take_in_all_avoids(
    s: WalkState,
    children: Seq<Entry>,
    ignores: spec_fn(Seq<char>) -> bool,
    x: Set<Seq<char>>,
)
    requires
        avoids(s, x),
        forall|j: int|
            0 <= j < children.len() && x.contains(#[trigger] children[j].path@) ==> ignores(
                children[j].path@,
            ),
    ensures
        avoids(take_in_all(s, children, ignores), x),
    decreases children.len(),
{
    if children.len() > 0 {
        let e = children[0];
        let s1 = s.take_in(e, ignores(e.path@));
        take_in_shape(s, e, ignores(e.path@));
        assert(x.contains(children[0].path@) ==> ignores(children[0].path@));
        if s1.ready != s.ready {
            paths_of_push(s.ready, e);
            assert forall|p: Seq<char>| #[trigger] paths_of(s1.ready).contains(p) implies !x.contains(p) by {
                if p != e.path@ {
                    let i = choose|i: int| 0 <= i < paths_of(s1.ready).len() && paths_of(s1.ready)[i] == p;
                    assert(paths_of(s.ready)[i] == p);
                    assert(paths_of(s.ready).contains(p));
                }
            }
        }
        if s1.frontier != s.frontier {
            assert forall|p: Seq<char>| #[trigger] s1.frontier.contains(p) implies !x.contains(p) by {
                if p != e.path@ {
                    let i = choose|i: int| 0 <= i < s1.frontier.len() && s1.frontier[i] == p;
                    assert(s.frontier[i] == p);
                    assert(s.frontier.contains(p));
                }
            }
        }
        let rest = children.drop_first();
        assert forall|j: int| 0 <= j < rest.len() && x.contains(#[trigger] rest[j].path@) implies ignores(
            rest[j].path@,
        ) by {
            assert(rest[j] == children[j + 1]);
        }
        take_in_all_avoids(s1, rest, ignores, x);
    }
}

proof fn produced_avoids(
    s: WalkState,
    fs: Map<Seq<char>, Seq<Entry>>,
    ignores: spec_fn(Seq<char>) -> bool,
    x: Set<Seq<char>>,
    top: Seq<char>,
    n: nat,
)
    requires
        avoids(s, x),
        closed_above_except(fs, x, top),
        ignores(top),
    ensures
        forall|p: Seq<char>| #[trigger] paths_of(produced(s, fs, ignores, n)).contains(p) ==> !x.contains(p),
    decreases n,
{
    if n > 0 {
        let t = advance(s, fs, ignores);
        let m = (n - 1) as nat;
        let rest = produced(t, fs, ignores, m);
        if s.ready.len() > 0 {
            let e = s.ready.last();
            assert(paths_of(s.ready)[s.ready.len() - 1] == e.path@);
            assert(paths_of(t.ready) =~= paths_of(s.ready).drop_last());
            assert forall|p: Seq<char>| #[trigger] paths_of(t.ready).contains(p) implies !x.contains(p) by {
                let i = choose|i: int| 0 <= i < paths_of(t.ready).len() && paths_of(t.ready)[i] == p;
                assert(paths_of(s.ready)[i] == p);
                assert(paths_of(s.ready).contains(p));
            }
            assert(paths_of(s.ready).contains(e.path@));
            produced_avoids(t, fs, ignores, x, top, m);
            assert(paths_of(seq![e] + rest) =~= seq![e.path@] + paths_of(rest));
            assert forall|p: Seq<char>| #[trigger] paths_of(produced(s, fs, ignores, n)).contains(p) implies !x.contains(p) by {
                let q = paths_of(produced(s, fs, ignores, n));
                let i = choose|i: int| 0 <= i < q.len() && q[i] == p;
                if i > 0 {
                    assert(paths_of(rest)[i - 1] == p);
                    assert(paths_of(rest).contains(p));
                }
            }
        } else if s.frontier.len() > 0 {
            let d = s.frontier.last();
            let s0 = s.after_step();
            assert(s.frontier[s.frontier.len() - 1] == d);
            assert forall|p: Seq<char>| #[trigger] s0.frontier.contains(p) implies !x.contains(p) by {
                let i = choose|i: int| 0 <= i < s0.frontier.len() && s0.frontier[i] == p;
                assert(s.frontier[i] == p);
                assert(s.frontier.contains(p));
            }
            assert(s.frontier.contains(d));
            assert(paths_of(s0.ready) =~= Seq::<Seq<char>>::empty());
            let cs = listing(fs, d);
            assert forall|j: int| 0 <= j < cs.len() && x.contains(#[trigger] cs[j].path@) implies ignores(
                cs[j].path@,
            ) by {
                assert(paths_of(cs)[j] == cs[j].path@);
                assert(is_child_of(fs, d, cs[j].path@));
            }
            take_in_all_avoids(s0, cs, ignores, x);
            produced_avoids(t, fs, ignores, x, top, m);
            assert(produced(s, fs, ignores, n) =~= rest);
        } else {
            produced_avoids(t, fs, ignores, x, top, m);
            assert(produced(s, fs, ignores, n) =~= rest);
        }
    }
}

/// A directory whose path the path filters ignore is pruned with all that is
/// under it: where `below` holds `top` and every path under it (every
/// directory listing a member of `below` other than `top` is in `below`),
/// and the root is not in it, no entry that the walk hands out has a path in
/// `below`.
pub proof fn ignored_directory_prunes_its_subtree(
    c: WalkConfig,
    fs: Map<Seq<char>, Seq<Entry>>,
    ignores: spec_fn(Seq<char>) -> bool,
    top: Seq<char>,
    below: Set<Seq<char>>,
    n: nat,
)
    requires
        ignores(top),
        closed_above_except(fs, below, top),
        !below.contains(c.root),
    ensures
        forall|p: Seq<char>|
            #[trigger] paths_of(produced(c.start(), fs, ignores, n)).contains(p) ==> !below.contains(p),
{
    let s = c.start();
    assert(paths_of(s.ready) =~= Seq::<Seq<char>>::empty());
    assert forall|p: Seq<char>| #[trigger] s.frontier.contains(p) implies !below.contains(p) by {
        let i = choose|i: int| 0 <= i < s.frontier.len() && s.frontier[i] == p;
    }
    produced_avoids(s, fs, ignores, below, top, n);
}

/// The paths of the directories among `cs`, in order.
pub open spec fn directory_paths(cs: Seq<Entry>) -> Seq<Seq<char>>
    decreases cs.len(),
{
    if cs.len() == 0 {
        Seq::empty()
    } else {
        let rest = directory_paths(cs.drop_first());
        if cs[0].kind == EntryKind::Directory {
            seq![cs[0].path@] + rest
        } else {
            rest
        }
    }
}

/// With no filter, no depth ceiling and no symlink in a listing, taking the
/// listing in omits nothing: every child becomes ready, in listing order, and
/// every directory among them is queued.
pub proof fn unfiltered_listing_omits_nothing(
    s: WalkState,
    children: Seq<Entry>,
    ignores: spec_fn(Seq<char>) -> bool,
)
    requires
        s.config.entry_filters.len() == 0,
        s.config.max_depth is None,
        !s.config.follow_symlinks,
        forall|j: int|
            0 <= j < children.len() ==> !ignores((#[trigger] children[j]).path@)
                && children[j].kind != EntryKind::Symlink,
    ensures
        take_in_all(s, children, ignores).config == s.config,
        take_in_all(s, children, ignores).ready == s.ready + children,
        take_in_all(s, children, ignores).frontier == s.frontier + directory_paths(children),
    decreases children.len(),
{
    if children.len() == 0 {
        assert(s.ready + children =~= s.ready);
        assert(s.frontier + directory_paths(children) =~= s.frontier);
    } else {
        let e = children[0];
        let rest = children.drop_first();
        let s1 = s.take_in(e, ignores(e.path@));
        take_in_shape(s, e, ignores(e.path@));
        assert(!chain_ignores(s.config.entry_filters, e.kind));
        assert(s1.ready == s.ready.push(e));
        assert forall|j: int| 0 <= j < rest.len() implies !ignores((#[trigger] rest[j]).path@)
            && rest[j].kind != EntryKind::Symlink by {
            assert(rest[j] == children[j + 1]);
        }
        unfiltered_listing_omits_nothing(s1, rest, ignores);
        assert(s.ready.push(e) + rest =~= s.ready + children);
        if e.kind == EntryKind::Directory {
            assert(s1.frontier == s.frontier.push(e.path@));
            assert(s.frontier.push(e.path@) + directory_paths(rest) =~= s.frontier
                + directory_paths(children));
        } else {
            assert(s1.frontier == s.frontier);
        }
    }
}

/// Whether `p` is the path of an entry at most `k` directory levels below the
/// directory `d`: a child of `d`, or below one of its children that is a
/// directory.
pub open spec fn descends(fs: Map<Seq<char>, Seq<Entry>>, d: Seq<char>, p: Seq<char>, k: nat) -> bool
    decreases k,
{
    is_child_of(fs, d, p) || (k > 0 && exists|j: int|
        0 <= j < listing(fs, d).len() && (#[trigger] listing(fs, d)[j]).kind == EntryKind::Directory
            && descends(fs, listing(fs, d)[j].path@, p, (k - 1) as nat))
}

/// The conditions under which a walk hands out every entry: no filter, no
/// depth ceiling, no symlink followed nor met.
pub open spec fn unfiltered(
    c: WalkConfig,
    fs: Map<Seq<char>, Seq<Entry>>,
    ignores: spec_fn(Seq<char>) -> bool,
) -> bool {
    &&& c.entry_filters.len() == 0
    &&& c.max_depth is None
    &&& !c.follow_symlinks
    &&& forall|p: Seq<char>| !#[trigger] ignores(p)
    &&& forall|d: Seq<char>, j: int|
        0 <= j < listing(fs, d).len() ==> (#[trigger] listing(fs, d)[j]).kind != EntryKind::Symlink
}

spec fn still_to_come(s: WalkState, fs: Map<Seq<char>, Seq<Entry>>, p: Seq<char>) -> bool {
    paths_of(s.ready).contains(p) || exists|f: Seq<char>, k: nat|
        #[trigger] s.frontier.contains(f) && #[trigger] descends(fs, f, p, k)
}

proof fn directory_paths_holds(cs: Seq<Entry>, j: int)
    requires
        0 <= j < cs.len(),
        cs[j].kind == EntryKind::Directory,
    ensures
        directory_paths(cs).contains(cs[j].path@),
    decreases cs.len(),
{
    if j == 0 {
        assert(directory_paths(cs)[0] == cs[0].path@);
    } else {
        directory_paths_holds(cs.drop_first(), j - 1);
        let r = directory_paths(cs.drop_first());
        let i = choose|i: int| 0 <= i < r.len() && r[i] == cs[j].path@;
        if cs[0].kind == EntryKind::Directory {
            assert(directory_paths(cs)[i + 1] == cs[j].path@);
        }
    }
}

/// Over a finite tree-shaped tree, with nothing filtered, every path still to
/// come is handed out within some number of pulls.
#[verifier::rlimit(40)]
proof fn eventually_produced(
    s: WalkState,
    fs: Map<Seq<char>, Seq<Entry>>,
    root: Seq<char>,
    ignores: spec_fn(Seq<char>) -> bool,
    listed: Set<Seq<char>>,
    p: Seq<char>,
)
    requires
        tree_shaped(fs, root),
        fs.dom().finite(),
        unfiltered(s.config, fs, ignores),
        walk_inv(s, fs, root, listed),
        still_to_come(s, fs, p),
    ensures
        exists|n: nat| paths_of(#[trigger] produced(s, fs, ignores, n)).contains(p),
    decreases fs.dom().difference(listed).len(), s.ready.len() + s.frontier.len(),
{
    let t = advance(s, fs, ignores);
    if s.ready.len() > 0 {
        let e = s.ready.last();
        assert(produced(s, fs, ignores, 1) =~= seq![e] + produced(t, fs, ignores, 0));
        if e.path@ == p {
            assert(paths_of(produced(s, fs, ignores, 1))[0] == p);
            return;
        }
        yield_step(s, fs, root, ignores, listed);
        assert(t.frontier == s.frontier);
        if paths_of(s.ready).contains(p) {
            let i = choose|i: int| 0 <= i < paths_of(s.ready).len() && paths_of(s.ready)[i] == p;
            assert(paths_of(t.ready)[i] == p);
        }
        eventually_produced(t, fs, root, ignores, listed, p);
        let n = choose|n: nat| paths_of(#[trigger] produced(t, fs, ignores, n)).contains(p);
        let q = produced(s, fs, ignores, n + 1);
        assert(q == seq![e] + produced(t, fs, ignores, n));
        let i = choose|i: int| 0 <= i < paths_of(produced(t, fs, ignores, n)).len() && paths_of(produced(t, fs, ignores, n))[i] == p;
        assert(paths_of(q)[i + 1] == p);
    } else {
        let (f, k) = choose|f: Seq<char>, k: nat| #[trigger] s.frontier.contains(f) && #[trigger] descends(fs, f, p, k);
        let d = s.frontier.last();
        let s0 = s.after_step();
        let cs = listing(fs, d);
        let listed1 = listed.insert(d);
        list_step(s, fs, root, ignores, listed);
        unfiltered_listing_omits_nothing(s0, cs, ignores);
        assert(t.ready == cs);
        assert(t.frontier == s0.frontier + directory_paths(cs));
        assert(s.frontier[s.frontier.len() - 1] == d);
        assert(s.frontier.contains(d));
        assert(!listed.contains(d));
        if f == d {
            if is_child_of(fs, d, p) {
                assert(paths_of(t.ready) == paths_of(cs));
            } else {
                let j = choose|j: int|
                    0 <= j < listing(fs, d).len() && (#[trigger] listing(fs, d)[j]).kind
                        == EntryKind::Directory && descends(fs, listing(fs, d)[j].path@, p, (k - 1) as nat);
                directory_paths_holds(cs, j);
                let g = cs[j].path@;
                let i = choose|i: int| 0 <= i < directory_paths(cs).len() && directory_paths(cs)[i] == g;
                assert(t.frontier[s0.frontier.len() + i] == g);
                assert(t.frontier.contains(g) && descends(fs, g, p, (k - 1) as nat));
            }
        } else {
            let i = choose|i: int| 0 <= i < s.frontier.len() && s.frontier[i] == f;
            assert(i < s.frontier.len() - 1);
            assert(t.frontier[i] == f);
            assert(t.frontier.contains(f) && descends(fs, f, p, k));
        }
        if fs.dom().contains(d) {
            assert(fs.dom().difference(listed1) =~= fs.dom().difference(listed).remove(d));
        } else {
            assert(fs.dom().difference(listed1) =~= fs.dom().difference(listed));
            assert(cs.len() == 0);
            assert(directory_paths(cs) =~= Seq::<Seq<char>>::empty());
        }
        eventually_produced(t, fs, root, ignores, listed1, p);
        let n = choose|n: nat| paths_of(#[trigger] produced(t, fs, ignores, n)).contains(p);
        assert(produced(s, fs, ignores, n + 1) =~= produced(t, fs, ignores, n));
    }
}

/// Whether `p` is the path of an entry somewhere below the root.
pub open spec fn below_root(fs: Map<Seq<char>, Seq<Entry>>, root: Seq<char>, p: Seq<char>) -> bool {
    exists|k: nat| #[trigger] descends(fs, root, p, k)
}

spec fn only_below_root(s: WalkState, fs: Map<Seq<char>, Seq<Entry>>, root: Seq<char>) -> bool {
    &&& forall|p: Seq<char>| #[trigger] paths_of(s.ready).contains(p) ==> below_root(fs, root, p)
    &&& forall|f: Seq<char>, q: Seq<char>, k: nat|
        #[trigger] s.frontier.contains(f) && #[trigger] descends(fs, f, q, k) ==> below_root(
            fs,
            root,
            q,
        )
}

proof fn directory_paths_from(cs: Seq<Entry>, g: Seq<char>)
    requires
        directory_paths(cs).contains(g),
    ensures
        exists|j: int| 0 <= j < cs.len() && (#[trigger] cs[j]).kind == EntryKind::Directory && cs[j].path@ == g,
    decreases cs.len(),
{
    let r = directory_paths(cs.drop_first());
    if cs[0].kind == EntryKind::Directory && cs[0].path@ == g {
        assert(cs[0].kind == EntryKind::Directory && cs[0].path@ == g);
    } else {
        if cs[0].kind == EntryKind::Directory {
            let i = choose|i: int| 0 <= i < directory_paths(cs).len() && directory_paths(cs)[i] == g;
            assert(r[i - 1] == g);
        }
        directory_paths_from(cs.drop_first(), g);
        let j = choose|j: int| 0 <= j < cs.drop_first().len() && (#[trigger] cs.drop_first()[j]).kind == EntryKind::Directory && cs.drop_first()[j].path@ == g;
        assert(cs[j + 1] == cs.drop_first()[j]);
    }
}

proof fn produced_below_root(
    s: WalkState,
    fs: Map<Seq<char>, Seq<Entry>>,
    root: Seq<char>,
    ignores: spec_fn(Seq<char>) -> bool,
    n: nat,
)
    requires
        unfiltered(s.config, fs, ignores),
        only_below_root(s, fs, root),
    ensures
        forall|p: Seq<char>|
            #[trigger] paths_of(produced(s, fs, ignores, n)).contains(p) ==> below_root(fs, root, p),
    decreases n,
{
    if n > 0 {
        let t = advance(s, fs, ignores);
        let m = (n - 1) as nat;
        let rest = produced(t, fs, ignores, m);
        if s.ready.len() > 0 {
            let e = s.ready.last();
            assert(paths_of(s.ready)[s.ready.len() - 1] == e.path@);
            assert(paths_of(s.ready).contains(e.path@));
            assert(paths_of(t.ready) =~= paths_of(s.ready).drop_last());
            assert forall|p: Seq<char>| #[trigger] paths_of(t.ready).contains(p) implies below_root(fs, root, p) by {
                let i = choose|i: int| 0 <= i < paths_of(t.ready).len() && paths_of(t.ready)[i] == p;
                assert(paths_of(s.ready)[i] == p);
                assert(paths_of(s.ready).contains(p));
            }
            produced_below_root(t, fs, root, ignores, m);
            assert(paths_of(seq![e] + rest) =~= seq![e.path@] + paths_of(rest));
            assert forall|p: Seq<char>| #[trigger] paths_of(produced(s, fs, ignores, n)).contains(p) implies below_root(fs, root, p) by {
                let q = paths_of(produced(s, fs, ignores, n));
                let i = choose|i: int| 0 <= i < q.len() && q[i] == p;
                if i > 0 {
                    assert(paths_of(rest)[i - 1] == p);
                    assert(paths_of(rest).contains(p));
                }
            }
        } else if s.frontier.len() > 0 {
            let d = s.frontier.last();
            let s0 = s.after_step();
            let cs = listing(fs, d);
            assert(s.frontier[s.frontier.len() - 1] == d);
            assert(s.frontier.contains(d));
            unfiltered_listing_omits_nothing(s0, cs, ignores);
            assert(paths_of(t.ready) =~= paths_of(cs));
            assert forall|p: Seq<char>| #[trigger] paths_of(t.ready).contains(p) implies below_root(fs, root, p) by {
                assert(descends(fs, d, p, 0));
            }
            assert forall|f: Seq<char>, q: Seq<char>, k: nat|
                #[trigger] t.frontier.contains(f) && #[trigger] descends(fs, f, q, k) implies below_root(fs, root, q) by {
                let i = choose|i: int| 0 <= i < t.frontier.len() && t.frontier[i] == f;
                if i < s0.frontier.len() {
                    assert(s.frontier[i] == f);
                    assert(s.frontier.contains(f));
                } else {
                    assert(directory_paths(cs)[i - s0.frontier.len()] == f);
                    directory_paths_from(cs, f);
                    let j = choose|j: int| 0 <= j < cs.len() && (#[trigger] cs[j]).kind == EntryKind::Directory && cs[j].path@ == f;
                    assert(listing(fs, d)[j] == cs[j]);
                    assert(descends(fs, d, q, k + 1));
                }
            }
            produced_below_root(t, fs, root, ignores, m);
            assert(produced(s, fs, ignores, n) =~= rest);
        } else {
            produced_below_root(t, fs, root, ignores, m);
            assert(produced(s, fs, ignores, n) =~= rest);
        }
    }
}

/// With no filter, no depth ceiling and no symlink, a walk over a finite
/// tree-shaped tree hands out exactly the entries below the root: each path it
/// hands out is below the root, and each path below the root is handed out
/// within some number of pulls (once only, by `walk_never_repeats_a_path`).
pub proof fn unfiltered_walk_produces_exactly_the_tree(
    c: WalkConfig,
    fs: Map<Seq<char>, Seq<Entry>>,
    ignores: spec_fn(Seq<char>) -> bool,
    n: nat,
    p: Seq<char>,
)
    requires
        tree_shaped(fs, c.root),
        fs.dom().finite(),
        unfiltered(c, fs, ignores),
    ensures
        paths_of(produced(c.start(), fs, ignores, n)).contains(p) ==> below_root(fs, c.root, p),
        below_root(fs, c.root, p) ==> exists|m: nat|
            paths_of(#[trigger] produced(c.start(), fs, ignores, m)).contains(p),
{
    let s = c.start();
    assert(paths_of(s.ready) =~= Seq::<Seq<char>>::empty());
    assert(s.frontier[0] == c.root);
    assert forall|f: Seq<char>| #[trigger] s.frontier.contains(f) implies f == c.root by {
        let i = choose|i: int| 0 <= i < s.frontier.len() && s.frontier[i] == f;
    }
    produced_below_root(s, fs, c.root, ignores, n);
    if below_root(fs, c.root, p) {
        let k = choose|k: nat| #[trigger] descends(fs, c.root, p, k);
        assert(s.frontier.contains(c.root) && descends(fs, c.root, p, k));
        eventually_produced(s, fs, c.root, ignores, Set::empty(), p);
    }
}

/// The two trees list the same members in every directory, perhaps in
/// another order.
pub open spec fn same_members(fs1: Map<Seq<char>, Seq<Entry>>, fs2: Map<Seq<char>, Seq<Entry>>) -> bool {
    forall|d: Seq<char>, e: Entry| #[trigger] listing(fs1, d).contains(e) <==> #[trigger] listing(fs2, d).contains(e)
}

proof fn child_carries_over(fs1: Map<Seq<char>, Seq<Entry>>, fs2: Map<Seq<char>, Seq<Entry>>, d: Seq<char>, p: Seq<char>)
    requires
        same_members(fs1, fs2),
        is_child_of(fs1, d, p),
    ensures
        is_child_of(fs2, d, p),
{
    let l1 = listing(fs1, d);
    let l2 = listing(fs2, d);
    let i = choose|i: int| 0 <= i < paths_of(l1).len() && paths_of(l1)[i] == p;
    assert(l1.contains(l1[i]));
    assert(l2.contains(l1[i]));
    let j = choose|j: int| 0 <= j < l2.len() && l2[j] == l1[i];
    assert(paths_of(l2)[j] == p);
}

proof fn descends_carries_over(
    fs1: Map<Seq<char>, Seq<Entry>>,
    fs2: Map<Seq<char>, Seq<Entry>>,
    d: Seq<char>,
    p: Seq<char>,
    k: nat,
)
    requires
        same_members(fs1, fs2),
        descends(fs1, d, p, k),
    ensures
        descends(fs2, d, p, k),
    decreases k,
{
    if is_child_of(fs1, d, p) {
        child_carries_over(fs1, fs2, d, p);
    } else {
        let l1 = listing(fs1, d);
        let l2 = listing(fs2, d);
        let j = choose|j: int|
            0 <= j < l1.len() && (#[trigger] l1[j]).kind == EntryKind::Directory && descends(
                fs1,
                l1[j].path@,
                p,
                (k - 1) as nat,
            );
        assert(l1.contains(l1[j]));
        assert(l2.contains(l1[j]));
        let j2 = choose|j2: int| 0 <= j2 < l2.len() && l2[j2] == l1[j];
        descends_carries_over(fs1, fs2, l1[j].path@, p, (k - 1) as nat);
        assert(l2[j2].kind == EntryKind::Directory && descends(fs2, l2[j2].path@, p, (k - 1) as nat));
    }
}

/// With no filter, no depth ceiling and no symlink, the order in which the
/// listings come does not change what a walk hands out: over two finite
/// tree-shaped trees with the same members in each directory, a path is
/// handed out by one walk, after some number of pulls, exactly when it is
/// by the other.
pub proof fn walk_set_ignores_listing_order(
    c: WalkConfig,
    fs1: Map<Seq<char>, Seq<Entry>>,
    fs2: Map<Seq<char>, Seq<Entry>>,
    ignores: spec_fn(Seq<char>) -> bool,
    p: Seq<char>,
)
    requires
        tree_shaped(fs1, c.root),
        tree_shaped(fs2, c.root),
        fs1.dom().finite(),
        fs2.dom().finite(),
        unfiltered(c, fs1, ignores),
        unfiltered(c, fs2, ignores),
        same_members(fs1, fs2),
    ensures
        (exists|n: nat| paths_of(#[trigger] produced(c.start(), fs1, ignores, n)).contains(p))
            <==> (exists|n: nat| paths_of(#[trigger] produced(c.start(), fs2, ignores, n)).contains(p)),
{
    assert(same_members(fs2, fs1));
    if exists|n: nat| paths_of(#[trigger] produced(c.start(), fs1, ignores, n)).contains(p) {
        let n = choose|n: nat| paths_of(#[trigger] produced(c.start(), fs1, ignores, n)).contains(p);
        unfiltered_walk_produces_exactly_the_tree(c, fs1, ignores, n, p);
        let k = choose|k: nat| #[trigger] descends(fs1, c.root, p, k);
        descends_carries_over(fs1, fs2, c.root, p, k);
        unfiltered_walk_produces_exactly_the_tree(c, fs2, ignores, n, p);
    }
    if exists|n: nat| paths_of(#[trigger] produced(c.start(), fs2, ignores, n)).contains(p) {
        let n = choose|n: nat| paths_of(#[trigger] produced(c.start(), fs2, ignores, n)).contains(p);
        unfiltered_walk_produces_exactly_the_tree(c, fs2, ignores, n, p);
        let k = choose|k: nat| #[trigger] descends(fs2, c.root, p, k);
        descends_carries_over(fs2, fs1, c.root, p, k);
        unfiltered_walk_produces_exactly_the_tree(c, fs1, ignores, n, p);
    }
}

proof fn take_in_all_keeps_frontier_below(
    s: WalkState,
    children: Seq<Entry>,
    ignores: spec_fn(Seq<char>) -> bool,
)
    ensures
        take_in_all(s, children, ignores).frontier.len() >= s.frontier.len(),
        take_in_all(s, children, ignores).frontier.take(s.frontier.len() as int) == s.frontier,
    decreases children.len(),
{
    if children.len() > 0 {
        let e = children[0];
        let s1 = s.take_in(e, ignores(e.path@));
        take_in_shape(s, e, ignores(e.path@));
        take_in_all_keeps_frontier_below(s1, children.drop_first(), ignores);
        let t = take_in_all(s1, children.drop_first(), ignores);
        assert(s1.frontier.take(s.frontier.len() as int) =~= s.frontier);
        assert(t.frontier.take(s.frontier.len() as int) =~= s1.frontier.take(
            s1.frontier.len() as int,
        ).take(s.frontier.len() as int));
    }
}

/// The frontier is a stack: one pull leaves every directory queued below the
/// top where it was. Handing out an entry leaves the frontier as it is;
/// listing the top directory removes it and puts its subdirectories above
/// the rest. So once a directory is taken for listing, every directory queued
/// under it waits until all that was queued above it is listed.
pub proof fn earlier_queued_directories_wait(
    s: WalkState,
    fs: Map<Seq<char>, Seq<Entry>>,
    ignores: spec_fn(Seq<char>) -> bool,
)
    ensures
        s.ready.len() > 0 ==> advance(s, fs, ignores).frontier == s.frontier,
        s.ready.len() == 0 && s.frontier.len() > 0 ==> advance(s, fs, ignores).frontier.len()
            >= s.frontier.len() - 1 && advance(s, fs, ignores).frontier.take(
            s.frontier.len() - 1,
        ) == s.frontier.drop_last(),
{
    if s.ready.len() == 0 && s.frontier.len() > 0 {
        take_in_all_keeps_frontier_below(
            s.after_step(),
            listing(fs, s.frontier.last()),
            ignores,
        );
    }
}

/// The path filters' decision in a walk configured by `c`, as `handle_entry`
/// asks for it.
pub open spec fn chain_decision(c: WalkConfig) -> spec_fn(Seq<char>) -> bool {
    |q: Seq<char>| path_filters_ignore(c.path_filters, q)
}

/// A path filter attached to a walk that ignores a directory prunes it with
/// all that is under it: where `below` holds `top` and every path under it,
/// and the root is not in it, no entry that the walk hands out has a path in
/// `below`, whatever the other filters are.
pub proof fn attached_filter_prunes_subtree(
    c: WalkConfig,
    fs: Map<Seq<char>, Seq<Entry>>,
    i: int,
    top: Seq<char>,
    below: Set<Seq<char>>,
    n: nat,
)
    requires
        0 <= i < c.path_filters.len(),
        path_filter_ignores(c.path_filters[i], top),
        closed_above_except(fs, below, top),
        !below.contains(c.root),
    ensures
        forall|p: Seq<char>|
            #[trigger] paths_of(produced(c.start(), fs, chain_decision(c), n)).contains(p)
                ==> !below.contains(p),
{
    let ignores = chain_decision(c);
    assert(ignores(top));
    ignored_directory_prunes_its_subtree(c, fs, ignores, top, below, n);
}

/// The children of a listing that the path filters keep, in order.
pub open spec fn kept(cs: Seq<Entry>, ignores: spec_fn(Seq<char>) -> bool) -> Seq<Entry>
    decreases cs.len(),
{
    if cs.len() == 0 {
        Seq::empty()
    } else if ignores(cs[0].path@) {
        kept(cs.drop_first(), ignores)
    } else {
        seq![cs[0]] + kept(cs.drop_first(), ignores)
    }
}

/// The tree with every child that the path filters ignore left out of its
/// listing, and so with all that lies under such a child cut off.
pub open spec fn pruned(
    fs: Map<Seq<char>, Seq<Entry>>,
    ignores: spec_fn(Seq<char>) -> bool,
) -> Map<Seq<char>, Seq<Entry>> {
    Map::new(|d: Seq<char>| fs.contains_key(d), |d: Seq<char>| kept(fs[d], ignores))
}

/// A decision that ignores no path.
pub open spec fn ignores_nothing() -> spec_fn(Seq<char>) -> bool {
    |p: Seq<char>| false
}

proof fn take_in_all_as_kept(s: WalkState, cs: Seq<Entry>, ignores: spec_fn(Seq<char>) -> bool)
    ensures
        take_in_all(s, cs, ignores) == take_in_all(s, kept(cs, ignores), ignores_nothing()),
    decreases cs.len(),
{
    if cs.len() > 0 {
        let rest = cs.drop_first();
        if ignores(cs[0].path@) {
            take_in_all_as_kept(s, rest, ignores);
        } else {
            let k = kept(cs, ignores);
            assert(k[0] == cs[0]);
            assert(k.drop_first() =~= kept(rest, ignores));
            take_in_all_as_kept(s.take_in(cs[0], false), rest, ignores);
        }
    }
}

proof fn listing_of_pruned(fs: Map<Seq<char>, Seq<Entry>>, ignores: spec_fn(Seq<char>) -> bool, d: Seq<char>)
    ensures
        listing(pruned(fs, ignores), d) == kept(listing(fs, d), ignores),
{
    if !fs.contains_key(d) {
        assert(kept(Seq::<Entry>::empty(), ignores) =~= Seq::<Entry>::empty());
    }
}

proof fn produced_as_pruned(
    s: WalkState,
    fs: Map<Seq<char>, Seq<Entry>>,
    ignores: spec_fn(Seq<char>) -> bool,
    n: nat,
)
    ensures
        produced(s, fs, ignores, n) == produced(s, pruned(fs, ignores), ignores_nothing(), n),
    decreases n,
{
    if n > 0 {
        if s.ready.len() == 0 && s.frontier.len() > 0 {
            let d = s.frontier.last();
            listing_of_pruned(fs, ignores, d);
            take_in_all_as_kept(s.after_step(), listing(fs, d), ignores);
        }
        assert(advance(s, fs, ignores) == advance(s, pruned(fs, ignores), ignores_nothing()));
        produced_as_pruned(advance(s, fs, ignores), fs, ignores, (n - 1) as nat);
    }
}

proof fn kept_is_part(cs: Seq<Entry>, ignores: spec_fn(Seq<char>) -> bool)
    requires
        paths_of(cs).no_duplicates(),
    ensures
        paths_of(kept(cs, ignores)).no_duplicates(),
        forall|p: Seq<char>| paths_of(kept(cs, ignores)).contains(p) ==> paths_of(cs).contains(p),
        forall|e: Entry| kept(cs, ignores).contains(e) ==> cs.contains(e),
    decreases cs.len(),
{
    if cs.len() > 0 {
        let rest = cs.drop_first();
        assert(paths_of(rest) =~= paths_of(cs).drop_first());
        assert forall|i: int, j: int| 0 <= i < paths_of(rest).len() && 0 <= j < paths_of(rest).len() && i != j
            implies paths_of(rest)[i] != paths_of(rest)[j] by {
            assert(paths_of(cs)[i + 1] != paths_of(cs)[j + 1]);
        }
        kept_is_part(rest, ignores);
        let kr = kept(rest, ignores);
        assert forall|p: Seq<char>| paths_of(rest).contains(p) implies paths_of(cs).contains(p) by {
            let i = choose|i: int| 0 <= i < paths_of(rest).len() && paths_of(rest)[i] == p;
            assert(paths_of(cs)[i + 1] == p);
        }
        assert forall|e: Entry| rest.contains(e) implies cs.contains(e) by {
            let i = choose|i: int| 0 <= i < rest.len() && rest[i] == e;
            assert(cs[i + 1] == e);
        }
        assert(cs.contains(cs[0]));
        if !ignores(cs[0].path@) {
            let k = kept(cs, ignores);
            assert(paths_of(k) =~= seq![cs[0].path@] + paths_of(kr));
            assert(paths_of(cs)[0] == cs[0].path@);
            if paths_of(kr).contains(cs[0].path@) {
                assert(paths_of(rest).contains(cs[0].path@));
                let i = choose|i: int| 0 <= i < paths_of(rest).len() && paths_of(rest)[i] == cs[0].path@;
                assert(paths_of(cs)[i + 1] == paths_of(rest)[i]);
                assert(false);
            }
            prepend_keeps_distinct(cs[0].path@, paths_of(kr));
            assert forall|e: Entry| k.contains(e) implies cs.contains(e) by {
                let i = choose|i: int| 0 <= i < k.len() && k[i] == e;
                if i > 0 {
                    assert(kr[i - 1] == e);
                    assert(kr.contains(e));
                }
            }
        }
    }
}

proof fn pruned_keeps_shape(
    c: WalkConfig,
    fs: Map<Seq<char>, Seq<Entry>>,
    ignores: spec_fn(Seq<char>) -> bool,
)
    requires
        tree_shaped(fs, c.root),
        fs.dom().finite(),
        c.entry_filters.len() == 0,
        c.max_depth is None,
        !c.follow_symlinks,
        forall|d: Seq<char>, j: int|
            0 <= j < listing(fs, d).len() ==> (#[trigger] listing(fs, d)[j]).kind != EntryKind::Symlink,
    ensures
        tree_shaped(pruned(fs, ignores), c.root),
        pruned(fs, ignores).dom().finite(),
        unfiltered(c, pruned(fs, ignores), ignores_nothing()),
{
    let pf = pruned(fs, ignores);
    assert(pf.dom() =~= fs.dom());
    assert forall|d: Seq<char>| #[trigger] paths_of(listing(pf, d)).no_duplicates() by {
        listing_of_pruned(fs, ignores, d);
        kept_is_part(listing(fs, d), ignores);
    }
    assert forall|d: Seq<char>, p: Seq<char>| is_child_of(pf, d, p) implies is_child_of(fs, d, p) by {
        listing_of_pruned(fs, ignores, d);
        kept_is_part(listing(fs, d), ignores);
    }
    assert forall|d: Seq<char>, j: int|
        0 <= j < listing(pf, d).len() implies (#[trigger] listing(pf, d)[j]).kind != EntryKind::Symlink by {
        listing_of_pruned(fs, ignores, d);
        kept_is_part(listing(fs, d), ignores);
        let e = listing(pf, d)[j];
        assert(kept(listing(fs, d), ignores)[j] == e);
        assert(kept(listing(fs, d), ignores).contains(e));
        assert(listing(fs, d).contains(e));
        let i = choose|i: int| 0 <= i < listing(fs, d).len() && listing(fs, d)[i] == listing(pf, d)[j];
    }
    assert forall|d1: Seq<char>, d2: Seq<char>, p: Seq<char>|
        #[trigger] is_child_of(pf, d1, p) && #[trigger] is_child_of(pf, d2, p) implies d1 == d2 by {
        assert(is_child_of(fs, d1, p) && is_child_of(fs, d2, p));
    }
    assert forall|d: Seq<char>| !#[trigger] is_child_of(pf, d, c.root) by {
        if is_child_of(pf, d, c.root) {
            assert(is_child_of(fs, d, c.root));
        }
    }
}

/// With path filters but no entry filter, no depth ceiling and no symlink, a
/// walk over a finite tree-shaped tree hands out exactly the entries of the
/// tree with every ignored path cut off, with all that lies under it: each
/// path it hands out is below the root of the pruned tree, and each such path
/// is handed out within some number of pulls. Which paths are cut off
/// depends only on the decision, so with the decision of `chain_decision`
/// the order of the filters does not matter
/// (`path_filter_order_does_not_matter`).
pub proof fn path_filtered_walk_produces_exactly_the_pruned_tree(
    c: WalkConfig,
    fs: Map<Seq<char>, Seq<Entry>>,
    ignores: spec_fn(Seq<char>) -> bool,
    n: nat,
    p: Seq<char>,
)
    requires
        tree_shaped(fs, c.root),
        fs.dom().finite(),
        c.entry_filters.len() == 0,
        c.max_depth is None,
        !c.follow_symlinks,
        forall|d: Seq<char>, j: int|
            0 <= j < listing(fs, d).len() ==> (#[trigger] listing(fs, d)[j]).kind != EntryKind::Symlink,
    ensures
        paths_of(produced(c.start(), fs, ignores, n)).contains(p) ==> below_root(
            pruned(fs, ignores),
            c.root,
            p,
        ),
        below_root(pruned(fs, ignores), c.root, p) ==> exists|m: nat|
            paths_of(#[trigger] produced(c.start(), fs, ignores, m)).contains(p),
{
    let pf = pruned(fs, ignores);
    pruned_keeps_shape(c, fs, ignores);
    produced_as_pruned(c.start(), fs, ignores, n);
    unfiltered_walk_produces_exactly_the_tree(c, pf, ignores_nothing(), n, p);
    if below_root(pf, c.root, p) {
        let m = choose|m: nat| paths_of(#[trigger] produced(c.start(), pf, ignores_nothing(), m)).contains(p);
        produced_as_pruned(c.start(), fs, ignores, m);
        assert(paths_of(produced(c.start(), fs, ignores, m)).contains(p));
    }
}

} // verus!
