//! Decisions of capturing a path before it changes: which children of a
//! directory are captured (and which survive pruning on rollback), and the
//! effect recorded for a directory.

use vstd::prelude::*;
use crate::effect::{effect_views, Effect, EffectV};
use crate::meta::Meta;
use crate::journal::{contains_string, snap_views, undo_root, AfterSnap, AfterSnapV, AfterState, AfterStateV, Undo};
use crate::order::{insert_sorted, sort_strings, sorted, strictly_sorted};
use crate::paths::{is_ignored_name, is_ignored_name_exec, paths_equal, same_path};
use crate::text::views;

verus! {

broadcast use vstd::string::group_string_axioms;

/// A directory child that is never captured nor pruned: the project's own
/// `.undo` directory, or a child with an ignored name (`node_modules`, ...).
pub open spec fn skipped_child(workdir: Seq<char>, child: Seq<char>, name: Seq<char>) -> bool {
    same_path(child, undo_root(workdir)) || is_ignored_name(name)
}

/// The `(path, name)` children of a directory that get captured, in order.
pub open spec fn captured_children(workdir: Seq<char>, children: Seq<(Seq<char>, Seq<char>)>) -> Seq<
    (Seq<char>, Seq<char>),
>
    decreases children.len(),
{
    if children.len() == 0 {
        seq![]
    } else {
        let rest = captured_children(workdir, children.drop_last());
        let c = children.last();
        if skipped_child(workdir, c.0, c.1) {
            rest
        } else {
            rest.push(c)
        }
    }
}

pub open spec fn pair_views(v: Seq<(String, String)>) -> Seq<(Seq<char>, Seq<char>)> {
    v.map_values(|p: (String, String)| (p.0@, p.1@))
}

impl Undo {
    /// Is this child of a directory left alone by capture and by pruning?
    pub fn skips_child(&self, child: &str, name: &str) -> (r: bool)
        ensures
            r == skipped_child(self@.workdir, child@, name@),
    {
        let root = self.root();
        paths_equal(child, root.as_str()) || is_ignored_name_exec(name)
    }

    /// Does pruning a tracked directory keep this child? It does for skipped
    /// children and for children named among the directory's original entries.
    pub fn keeps_child(&self, child: &str, name: &String, keep: &Vec<String>) -> (r: bool)
        ensures
            r == (skipped_child(self@.workdir, child@, name@) || views(keep@).contains(name@)),
    {
        if self.skips_child(child, name.as_str()) {
            return true;
        }
        crate::journal::contains_string(keep, name)
    }

    /// The effect recorded for an existing directory `path` with mode `mode`
    /// whose children are `(child path, name)` in listing order, and the child
    /// paths to capture next (same order). Skipped children are left out; the
    /// recorded entry names are sorted.
    pub fn dir_snapshot(&self, path: String, mode: u32, children: Vec<(String, String)>) -> (r: (
        Effect,
        Vec<String>,
    ))
        ensures
            ({
                let kept = captured_children(self@.workdir, pair_views(children@));
                &&& views(r.1@) == kept.map_values(|c: (Seq<char>, Seq<char>)| c.0)
                &&& r.0@ matches EffectV::Dir { path: p, mode: m, entries } && p == path@ && m
                    == mode && sorted(entries) && entries.to_multiset() == kept.map_values(
                    |c: (Seq<char>, Seq<char>)| c.1,
                ).to_multiset()
            }),
    {
        let ghost cv = pair_views(children@);
        let mut names: Vec<String> = Vec::new();
        let mut paths: Vec<String> = Vec::new();
        let mut i: usize = 0;
        proof {
            assert(cv.take(0) =~= Seq::<(Seq<char>, Seq<char>)>::empty());
            assert(views(names@) =~= Seq::<Seq<char>>::empty());
            assert(views(paths@) =~= Seq::<Seq<char>>::empty());
        }
        while i < children.len()
            invariant
                i <= children@.len(),
                cv == pair_views(children@),
                views(paths@) == captured_children(self@.workdir, cv.take(i as int)).map_values(
                    |c: (Seq<char>, Seq<char>)| c.0,
                ),
                views(names@) == captured_children(self@.workdir, cv.take(i as int)).map_values(
                    |c: (Seq<char>, Seq<char>)| c.1,
                ),
            decreases children@.len() - i,
        {
            let (child, name) = &children[i];
            let ghost before = captured_children(self@.workdir, cv.take(i as int));
            proof {
                assert(cv.take(i + 1).drop_last() =~= cv.take(i as int));
                assert(cv.take(i + 1).last() == (child@, name@));
            }
            if !self.skips_child(child.as_str(), name.as_str()) {
                let ghost op = paths@;
                let ghost on = names@;
                paths.push(child.clone());
                names.push(name.clone());
                proof {
                    let after = before.push((child@, name@));
                    assert(views(paths@) =~= views(op).push(child@));
                    assert(views(names@) =~= views(on).push(name@));
                    assert(after.map_values(|c: (Seq<char>, Seq<char>)| c.0) =~= before.map_values(
                        |c: (Seq<char>, Seq<char>)| c.0,
                    ).push(child@));
                    assert(after.map_values(|c: (Seq<char>, Seq<char>)| c.1) =~= before.map_values(
                        |c: (Seq<char>, Seq<char>)| c.1,
                    ).push(name@));
                    assert(views(paths@) =~= after.map_values(|c: (Seq<char>, Seq<char>)| c.0));
                    assert(views(names@) =~= after.map_values(|c: (Seq<char>, Seq<char>)| c.1));
                }
            }
            i = i + 1;
        }
        assert(cv.take(children@.len() as int) =~= cv);
        let entries = sort_strings(&names);
        (Effect::Dir { path, mode, entries }, paths)
    }
}

/// What the capturing walk found at a path.
pub enum Found {
    /// Nothing is there.
    Missing,
    /// A symlink to `target`.
    Link { target: String },
    /// A regular file whose bytes are stored as `blob`.
    File { blob: String, meta: Meta },
    /// A directory with mode `mode` and its `(child path, name)` entries in
    /// listing order.
    Dir { mode: u32, children: Vec<(String, String)> },
}

/// The children a found directory passes on to the walk, in listing order.
pub open spec fn found_children(workdir: Seq<char>, found: Found) -> Seq<Seq<char>> {
    match found {
        Found::Dir { children, .. } => captured_children(workdir, pair_views(children@)).map_values(
            |c: (Seq<char>, Seq<char>)| c.0,
        ),
        _ => seq![],
    }
}

/// `e` is the effect recorded for what was found at `path`.
pub open spec fn found_effect(workdir: Seq<char>, path: Seq<char>, found: Found, e: EffectV) -> bool {
    match found {
        Found::Missing => e == (EffectV::PathCreate { path }),
        Found::Link { target } => e == (EffectV::Symlink { path, target: target@ }),
        Found::File { blob, meta } => e == (EffectV::File { path, prev_blob: blob@, meta }),
        Found::Dir { mode, children } => e matches EffectV::Dir { path: p, mode: m, entries } && p
            == path && m == mode && sorted(entries) && entries.to_multiset() == captured_children(
            workdir,
            pair_views(children@),
        ).map_values(|c: (Seq<char>, Seq<char>)| c.1).to_multiset(),
    }
}

/// One step of the capture walk `o`, given what was found at its next
/// path, leads to `w`: the path's effect is recorded after the others, and
/// the path leaves the queue, with the captured children of a directory
/// queued in its place, the first child next.
pub open spec fn capture_step(workdir: Seq<char>, o: CaptureWalk, found: Found, w: CaptureWalk) -> bool {
    let p = o.pending@.last()@;
    &&& effect_views(w.effects@).len() == o.effects@.len() + 1
    &&& effect_views(w.effects@).drop_last() == effect_views(o.effects@)
    &&& found_effect(workdir, p, found, w.effects@.last()@)
    &&& views(w.pending@) == views(o.pending@).drop_last() + found_children(workdir, found).reverse()
}

/// A capture in progress: the paths still to visit (the next one last) and
/// the effects recorded so far, in the order they are journaled (a
/// directory before everything below it, children in listing order).
pub struct CaptureWalk {
    pub pending: Vec<String>,
    pub effects: Vec<Effect>,
}

impl CaptureWalk {
    /// A walk that starts at `root`.
    pub fn new(root: String) -> (w: CaptureWalk)
        ensures
            views(w.pending@) == seq![root@],
            w.effects@.len() == 0,
    {
        let mut pending: Vec<String> = Vec::new();
        let ghost r = root@;
        pending.push(root);
        assert(views(pending@) =~= seq![r]);
        CaptureWalk { pending, effects: Vec::new() }
    }

    /// The path to look at next, if the walk is not over.
    pub fn next(&self) -> (r: Option<String>)
        ensures
            match r {
                Some(p) => self.pending@.len() > 0 && p@ == self.pending@.last()@,
                None => self.pending@.len() == 0,
            },
    {
        let n = self.pending.len();
        if n == 0 {
            None
        } else {
            Some(self.pending[n - 1].clone())
        }
    }

    /// Takes what was found at the next path: records its effect and, for a
    /// directory, queues the children that are captured, so that they are
    /// visited next, in listing order.
    pub fn step(&mut self, u: &Undo, found: Found)
        requires
            old(self).pending@.len() > 0,
        ensures
            capture_step(u@.workdir, *old(self), found, *final(self)),
    {
        let ghost oe = effect_views(self.effects@);
        let ghost op = views(self.pending@);
        let ghost fv = found;
        let ghost last = self.pending@.last();
        let path = match self.pending.pop() {
            Some(p) => p,
            None => String::new(),
        };
        assert(path == last);
        assert(views(self.pending@) =~= op.drop_last());
        let (effect, next) = match found {
            Found::Missing => (Effect::PathCreate { path }, Vec::new()),
            Found::Link { target } => (Effect::Symlink { path, target }, Vec::new()),
            Found::File { blob, meta } => (Effect::File { path, prev_blob: blob, meta }, Vec::new()),
            Found::Dir { mode, children } => u.dir_snapshot(path, mode, children),
        };
        assert(views(next@) == found_children(u@.workdir, fv));
        let ghost ev = effect@;
        self.effects.push(effect);
        assert(effect_views(self.effects@).drop_last() =~= oe);
        assert(self.effects@.last()@ == ev);
        assert(found_effect(u@.workdir, last@, fv, ev));
        let ghost base = views(self.pending@);
        let ghost all = self.effects@;
        let mut k: usize = next.len();
        while k > 0
            invariant
                k <= next@.len(),
                self.effects@ == all,
                views(self.pending@) == base + views(next@).reverse().take(next@.len() - k),
            decreases k,
        {
            k = k - 1;
            let ghost before = views(self.pending@);
            self.pending.push(next[k].clone());
            assert(views(self.pending@) =~= before.push(views(next@)[k as int]));
            assert(views(next@).reverse()[next@.len() - 1 - k] == views(next@)[k as int]);
            assert(views(next@).reverse().take(next@.len() - k) =~= views(next@).reverse().take(
                next@.len() - k - 1,
            ).push(views(next@)[k as int]));
            assert(views(self.pending@) =~= base + views(next@).reverse().take(next@.len() - k));
        }
        assert(views(next@).reverse().take(next@.len() as int) =~= views(next@).reverse());
    }
}

// ---- the after-state walk --------------------------------------------------

/// The pending entries of an after-state walk as paths with their flag:
/// `true` for a directory whose children have been queued.
pub open spec fn pending_views(p: Seq<(String, bool)>) -> Seq<(Seq<char>, bool)> {
    p.map_values(|e: (String, bool)| (e.0@, e.1))
}

/// The paths the snapshots are of.
pub open spec fn snap_paths(s: Seq<AfterSnapV>) -> Seq<Seq<char>> {
    s.map_values(|a: AfterSnapV| a.path)
}

/// `x` is queued as a directory whose children were queued.
pub open spec fn expanded_pending(p: Seq<(Seq<char>, bool)>, x: Seq<char>) -> bool {
    exists|k: int| 0 <= k < p.len() && #[trigger] p[k] == (x, true)
}

/// `x` is queued to be looked at.
pub open spec fn waiting(p: Seq<(Seq<char>, bool)>, x: Seq<char>) -> bool {
    exists|k: int| 0 <= k < p.len() && #[trigger] p[k] == (x, false)
}

/// The after-state captured for what was found at `path`, for a path that
/// is not a directory.
pub open spec fn found_state(found: Found) -> AfterStateV {
    match found {
        Found::Missing => AfterStateV::Absent,
        Found::Link { target } => AfterStateV::Symlink { target: target@ },
        Found::File { blob, meta } => AfterStateV::File { blob: blob@, meta },
        Found::Dir { mode, .. } => AfterStateV::Dir { mode },
    }
}

/// The walk's bookkeeping is sound: each path has at most one snapshot,
/// and only a seen path has one; a queued directory whose children were
/// queued is seen, has no snapshot yet and is queued so only once; a seen
/// path has its snapshot or is such a directory; and the path of every root
/// effect is seen or waiting.
pub open spec fn walk_sound(
    pv: Seq<(Seq<char>, bool)>,
    sp: Seq<Seq<char>>,
    sn: Set<Seq<char>>,
    roots: Seq<EffectV>,
) -> bool {
    &&& forall|i: int, j: int| 0 <= i < j < sp.len() ==> #[trigger] sp[i] != #[trigger] sp[j]
    &&& forall|i: int| 0 <= i < sp.len() ==> sn.contains(#[trigger] sp[i])
    &&& forall|k: int|
        0 <= k < pv.len() && (#[trigger] pv[k]).1 ==> sn.contains(pv[k].0) && !sp.contains(pv[k].0)
    &&& forall|k: int, l: int|
        0 <= k < l < pv.len() && (#[trigger] pv[k]).1 && (#[trigger] pv[l]).1 ==> pv[k].0 != pv[l].0
    &&& forall|x: Seq<char>| #[trigger] sn.contains(x) ==> sp.contains(x) || expanded_pending(pv, x)
    &&& forall|k: int|
        0 <= k < roots.len() && (#[trigger] roots[k]).fs_path() is Some ==> (sn.contains(
            roots[k].fs_path()->0,
        ) || waiting(pv, roots[k].fs_path()->0))
}

proof fn lemma_walk_finish(
    rest: Seq<(Seq<char>, bool)>,
    p: Seq<char>,
    sp: Seq<Seq<char>>,
    sn: Set<Seq<char>>,
    roots: Seq<EffectV>,
)
    requires
        walk_sound(rest.push((p, true)), sp, sn, roots),
    ensures
        walk_sound(rest, sp.push(p), sn, roots),
{
    let pv = rest.push((p, true));
    assert(pv[pv.len() - 1] == (p, true));
    let sp2 = sp.push(p);
    assert forall|i: int, j: int| 0 <= i < j < sp2.len() implies #[trigger] sp2[i] != #[trigger] sp2[j] by {
        if j == sp.len() {
            assert(sp.contains(sp[i]));
        } else {
            assert(sp2[i] == sp[i] && sp2[j] == sp[j]);
        }
    }
    assert forall|i: int| 0 <= i < sp2.len() implies sn.contains(#[trigger] sp2[i]) by {
        if i < sp.len() {
            assert(sp2[i] == sp[i]);
        }
    }
    assert forall|k: int| 0 <= k < rest.len() && (#[trigger] rest[k]).1 implies sn.contains(rest[k].0)
        && !sp2.contains(rest[k].0) by {
        assert(pv[k] == rest[k]);
        assert(rest[k].0 != p);
        if sp2.contains(rest[k].0) {
            let i = choose|i: int| 0 <= i < sp2.len() && sp2[i] == rest[k].0;
            if i < sp.len() {
                assert(sp[i] == sp2[i]);
            }
        }
    }
    assert forall|k: int, l: int| 0 <= k < l < rest.len() && (#[trigger] rest[k]).1 && (#[trigger] rest[l]).1
        implies rest[k].0 != rest[l].0 by {
        assert(pv[k] == rest[k] && pv[l] == rest[l]);
    }
    assert forall|x: Seq<char>| #[trigger] sn.contains(x) implies sp2.contains(x) || expanded_pending(
        rest,
        x,
    ) by {
        if sp.contains(x) {
            let i = choose|i: int| 0 <= i < sp.len() && sp[i] == x;
            assert(sp2[i] == x);
        } else {
            let k = choose|k: int| 0 <= k < pv.len() && #[trigger] pv[k] == (x, true);
            if k == rest.len() {
                assert(sp2[sp.len() as int] == x);
            } else {
                assert(rest[k] == pv[k]);
            }
        }
    }
    assert forall|k: int| 0 <= k < roots.len() && (#[trigger] roots[k]).fs_path() is Some implies (
    sn.contains(roots[k].fs_path()->0) || waiting(rest, roots[k].fs_path()->0)) by {
        let r = roots[k].fs_path()->0;
        if !sn.contains(r) {
            let m = choose|m: int| 0 <= m < pv.len() && #[trigger] pv[m] == (r, false);
            assert(m < rest.len());
            assert(rest[m] == pv[m]);
        }
    }
}

proof fn lemma_walk_skip(
    rest: Seq<(Seq<char>, bool)>,
    p: Seq<char>,
    sp: Seq<Seq<char>>,
    sn: Set<Seq<char>>,
    roots: Seq<EffectV>,
)
    requires
        walk_sound(rest.push((p, false)), sp, sn, roots),
        sn.contains(p),
    ensures
        walk_sound(rest, sp, sn, roots),
{
    let pv = rest.push((p, false));
    assert(pv[pv.len() - 1] == (p, false));
    assert forall|k: int| 0 <= k < rest.len() && (#[trigger] rest[k]).1 implies sn.contains(rest[k].0)
        && !sp.contains(rest[k].0) by {
        assert(pv[k] == rest[k]);
    }
    assert forall|k: int, l: int| 0 <= k < l < rest.len() && (#[trigger] rest[k]).1 && (#[trigger] rest[l]).1
        implies rest[k].0 != rest[l].0 by {
        assert(pv[k] == rest[k] && pv[l] == rest[l]);
    }
    assert forall|x: Seq<char>| #[trigger] sn.contains(x) implies sp.contains(x) || expanded_pending(
        rest,
        x,
    ) by {
        if !sp.contains(x) {
            let k = choose|k: int| 0 <= k < pv.len() && #[trigger] pv[k] == (x, true);
            assert(k < rest.len());
            assert(rest[k] == pv[k]);
        }
    }
    assert forall|k: int| 0 <= k < roots.len() && (#[trigger] roots[k]).fs_path() is Some implies (
    sn.contains(roots[k].fs_path()->0) || waiting(rest, roots[k].fs_path()->0)) by {
        let r = roots[k].fs_path()->0;
        if !sn.contains(r) {
            let m = choose|m: int| 0 <= m < pv.len() && #[trigger] pv[m] == (r, false);
            assert(m < rest.len());
            assert(rest[m] == pv[m]);
        }
    }
}

proof fn lemma_walk_leaf(
    rest: Seq<(Seq<char>, bool)>,
    p: Seq<char>,
    sp: Seq<Seq<char>>,
    sn: Set<Seq<char>>,
    roots: Seq<EffectV>,
)
    requires
        walk_sound(rest.push((p, false)), sp, sn, roots),
        !sn.contains(p),
    ensures
        walk_sound(rest, sp.push(p), sn.insert(p), roots),
{
    let pv = rest.push((p, false));
    let sn2 = sn.insert(p);
    let sp2 = sp.push(p);
    assert(pv[pv.len() - 1] == (p, false));
    assert forall|i: int, j: int| 0 <= i < j < sp2.len() implies #[trigger] sp2[i] != #[trigger] sp2[j] by {
        if j == sp.len() {
            assert(sn.contains(sp[i]));
        } else {
            assert(sp2[i] == sp[i] && sp2[j] == sp[j]);
        }
    }
    assert forall|i: int| 0 <= i < sp2.len() implies sn2.contains(#[trigger] sp2[i]) by {
        if i < sp.len() {
            assert(sp2[i] == sp[i]);
            assert(sn.contains(sp[i]));
        }
    }
    assert forall|k: int| 0 <= k < rest.len() && (#[trigger] rest[k]).1 implies sn2.contains(rest[k].0)
        && !sp2.contains(rest[k].0) by {
        assert(pv[k] == rest[k]);
        assert(sn.contains(rest[k].0));
        if sp2.contains(rest[k].0) {
            let i = choose|i: int| 0 <= i < sp2.len() && sp2[i] == rest[k].0;
            if i < sp.len() {
                assert(sp[i] == sp2[i]);
            }
        }
    }
    assert forall|k: int, l: int| 0 <= k < l < rest.len() && (#[trigger] rest[k]).1 && (#[trigger] rest[l]).1
        implies rest[k].0 != rest[l].0 by {
        assert(pv[k] == rest[k] && pv[l] == rest[l]);
    }
    assert forall|x: Seq<char>| #[trigger] sn2.contains(x) implies sp2.contains(x) || expanded_pending(
        rest,
        x,
    ) by {
        if x == p {
            assert(sp2[sp.len() as int] == p);
        } else if sp.contains(x) {
            let i = choose|i: int| 0 <= i < sp.len() && sp[i] == x;
            assert(sp2[i] == x);
        } else {
            assert(sn.contains(x));
            let k = choose|k: int| 0 <= k < pv.len() && #[trigger] pv[k] == (x, true);
            assert(k < rest.len());
            assert(rest[k] == pv[k]);
        }
    }
    assert forall|k: int| 0 <= k < roots.len() && (#[trigger] roots[k]).fs_path() is Some implies (
    sn2.contains(roots[k].fs_path()->0) || waiting(rest, roots[k].fs_path()->0)) by {
        let r = roots[k].fs_path()->0;
        if !sn2.contains(r) {
            let m = choose|m: int| 0 <= m < pv.len() && #[trigger] pv[m] == (r, false);
            assert(m < rest.len());
            assert(rest[m] == pv[m]);
        }
    }
}

proof fn lemma_walk_expand(
    rest: Seq<(Seq<char>, bool)>,
    p: Seq<char>,
    sp: Seq<Seq<char>>,
    sn: Set<Seq<char>>,
    roots: Seq<EffectV>,
    kids: Seq<Seq<char>>,
)
    requires
        walk_sound(rest.push((p, false)), sp, sn, roots),
        !sn.contains(p),
    ensures
        walk_sound(
            rest.push((p, true)) + kids.map_values(|c: Seq<char>| (c, false)),
            sp,
            sn.insert(p),
            roots,
        ),
{
    let pv = rest.push((p, false));
    let kv = kids.map_values(|c: Seq<char>| (c, false));
    let pv2 = rest.push((p, true)) + kv;
    let sn2 = sn.insert(p);
    assert(pv[pv.len() - 1] == (p, false));
    assert(pv2[rest.len() as int] == (p, true));
    assert forall|i: int| 0 <= i < sp.len() implies sn2.contains(#[trigger] sp[i]) by {}
    assert forall|k: int| 0 <= k < pv2.len() && (#[trigger] pv2[k]).1 implies sn2.contains(pv2[k].0)
        && !sp.contains(pv2[k].0) by {
        if k < rest.len() {
            assert(pv2[k] == rest[k] && pv[k] == rest[k]);
        } else if k == rest.len() {
            if sp.contains(p) {
                let i = choose|i: int| 0 <= i < sp.len() && sp[i] == p;
                assert(sn.contains(sp[i]));
            }
        } else {
            assert(pv2[k] == kv[k - rest.len() - 1]);
        }
    }
    assert forall|k: int, l: int| 0 <= k < l < pv2.len() && (#[trigger] pv2[k]).1 && (#[trigger] pv2[l]).1
        implies pv2[k].0 != pv2[l].0 by {
        if l > rest.len() {
            assert(pv2[l] == kv[l - rest.len() - 1]);
        } else if l == rest.len() {
            assert(pv2[k] == rest[k] && pv[k] == rest[k]);
            assert(sn.contains(rest[k].0));
        } else {
            assert(pv2[k] == rest[k] && pv[k] == rest[k]);
            assert(pv2[l] == rest[l] && pv[l] == rest[l]);
        }
    }
    assert forall|x: Seq<char>| #[trigger] sn2.contains(x) implies sp.contains(x) || expanded_pending(
        pv2,
        x,
    ) by {
        if x == p {
            assert(pv2[rest.len() as int] == (x, true));
        } else if !sp.contains(x) {
            assert(sn.contains(x));
            let k = choose|k: int| 0 <= k < pv.len() && #[trigger] pv[k] == (x, true);
            assert(k < rest.len());
            assert(pv2[k] == pv[k]);
        }
    }
    assert forall|k: int| 0 <= k < roots.len() && (#[trigger] roots[k]).fs_path() is Some implies (
    sn2.contains(roots[k].fs_path()->0) || waiting(pv2, roots[k].fs_path()->0)) by {
        let r = roots[k].fs_path()->0;
        if !sn2.contains(r) {
            let m = choose|m: int| 0 <= m < pv.len() && #[trigger] pv[m] == (r, false);
            assert(m < rest.len());
            assert(pv2[m] == pv[m]);
        }
    }
}

/// One step of the after-state walk `o`, given what was found at its next
/// path, leads to `w`. The roots stay. A path seen before is dropped.
/// Otherwise it is marked seen; a directory is queued again as expanded
/// with its captured children above it, in listing order, and anything
/// else gets the after-state found. A queued directory whose children are
/// done gets its after-state, with the mode found now.
pub open spec fn after_step(workdir: Seq<char>, o: AfterWalk, found: Found, w: AfterWalk) -> bool {
    let pv = pending_views(o.pending@);
    let (p, e) = pv.last();
    let sn = views(o.seen@);
    let ss = snap_views(o.snaps@);
    let rest = pv.drop_last();
    &&& w.roots@ == o.roots@
    &&& strictly_sorted(views(w.seen@))
    &&& w.kids@ == if !e && !sn.contains(p) && found is Dir {
        o.kids@.insert(p, found_children(workdir, found))
    } else {
        o.kids@
    }
    &&& if e {
        &&& views(w.seen@) == sn
        &&& pending_views(w.pending@) == rest
        &&& snap_views(w.snaps@) == ss.push(AfterSnapV { path: p, state: found_state(found) })
    } else if sn.contains(p) {
        &&& views(w.seen@) == sn
        &&& pending_views(w.pending@) == rest
        &&& snap_views(w.snaps@) == ss
    } else {
        &&& views(w.seen@).to_set() == sn.to_set().insert(p)
        &&& match found {
            Found::Dir { .. } => {
                &&& snap_views(w.snaps@) == ss
                &&& pending_views(w.pending@) == rest.push((p, true)) + found_children(
                    workdir,
                    found,
                ).reverse().map_values(|c: Seq<char>| (c, false))
            },
            _ => {
                &&& snap_views(w.snaps@) == ss.push(AfterSnapV { path: p, state: found_state(found) })
                &&& pending_views(w.pending@) == rest
            },
        }
    }
}

/// The walk looks at its next path on disk (see [`AfterWalk::looks_next`]).
pub open spec fn looks(w: AfterWalk) -> bool {
    w.pending@.last().1 || !views(w.seen@).contains(w.pending@.last().0@)
}

/// A step keeps the walk sound.
pub proof fn lemma_after_step_well_formed(workdir: Seq<char>, o: AfterWalk, found: Found, w: AfterWalk)
    requires
        o.well_formed(),
        o.pending@.len() > 0,
        after_step(workdir, o, found, w),
    ensures
        w.well_formed(),
{
    let pv = pending_views(o.pending@);
    let (p, e) = pv.last();
    let rest = pv.drop_last();
    let sp = snap_paths(snap_views(o.snaps@));
    let sn = views(o.seen@).to_set();
    assert(pv =~= rest.push((p, e)));
    if e {
        lemma_walk_finish(rest, p, sp, sn, o.roots@);
        assert(snap_paths(snap_views(w.snaps@)) =~= sp.push(p));
    } else if views(o.seen@).contains(p) {
        lemma_walk_skip(rest, p, sp, sn, o.roots@);
    } else {
        assert(!sn.contains(p));
        match found {
            Found::Dir { .. } => {
                lemma_walk_expand(rest, p, sp, sn, o.roots@, found_children(workdir, found).reverse());
            },
            _ => {
                lemma_walk_leaf(rest, p, sp, sn, o.roots@);
                assert(snap_paths(snap_views(w.snaps@)) =~= sp.push(p));
            },
        }
    }
}

/// Each captured child that a found directory lists has a longer path than
/// the directory (as `dir/name` does).
pub open spec fn lists_below(workdir: Seq<char>, p: Seq<char>, found: Found) -> bool {
    forall|j: int|
        0 <= j < found_children(workdir, found).len() ==> #[trigger] found_children(workdir, found)[j].len()
            > p.len()
}

/// `c` is queued to be looked at above position `k`.
pub open spec fn waiting_above(pv: Seq<(Seq<char>, bool)>, k: int, c: Seq<char>) -> bool {
    exists|l: int| k < l < pv.len() && #[trigger] pv[l] == (c, false)
}

/// `c` has a snapshot among the first `i`.
pub open spec fn snapped_before(sp: Seq<Seq<char>>, i: int, c: Seq<char>) -> bool {
    exists|m: int| 0 <= m < i && #[trigger] sp[m] == c
}

/// The order of the walk: what is queued above a directory whose children
/// were queued has a longer path; each such directory's children are seen
/// or queued above it; the directories with listed children are seen and
/// their children have longer paths; and every snapshot of such a
/// directory comes after snapshots of all its children.
pub open spec fn ordered(w: AfterWalk) -> bool {
    let pv = pending_views(w.pending@);
    let sp = snap_paths(snap_views(w.snaps@));
    let sn = views(w.seen@).to_set();
    let kd = w.kids@;
    &&& forall|k: int, l: int|
        0 <= k < l < pv.len() && (#[trigger] pv[k]).1 ==> (#[trigger] pv[l]).0.len() > pv[k].0.len()
    &&& forall|k: int|
        0 <= k < pv.len() && (#[trigger] pv[k]).1 ==> kd.contains_key(pv[k].0) && forall|j: int|
            0 <= j < kd[pv[k].0].len() ==> sn.contains(#[trigger] kd[pv[k].0][j]) || waiting_above(
                pv,
                k,
                kd[pv[k].0][j],
            )
    &&& forall|x: Seq<char>|
        #[trigger] kd.contains_key(x) ==> sn.contains(x) && forall|j: int|
            0 <= j < kd[x].len() ==> (#[trigger] kd[x][j]).len() > x.len()
    &&& forall|i: int|
        0 <= i < sp.len() && #[trigger] kd.contains_key(sp[i]) ==> forall|j: int|
            0 <= j < kd[sp[i]].len() ==> snapped_before(sp, i, #[trigger] kd[sp[i]][j])
}

/// A step whose found directory lists its children below it keeps the
/// walk's order.
pub proof fn lemma_after_step_ordered(workdir: Seq<char>, o: AfterWalk, found: Found, w: AfterWalk)
    requires
        o.well_formed(),
        ordered(o),
        o.pending@.len() > 0,
        after_step(workdir, o, found, w),
        lists_below(workdir, o.pending@.last().0@, found),
    ensures
        ordered(w),
{
    let pv = pending_views(o.pending@);
    let t = pv.len() - 1;
    let (p, e) = pv.last();
    let rest = pv.drop_last();
    let sp = snap_paths(snap_views(o.snaps@));
    let sn = views(o.seen@).to_set();
    let kd = o.kids@;
    let pv2 = pending_views(w.pending@);
    let sp2 = snap_paths(snap_views(w.snaps@));
    let sn2 = views(w.seen@).to_set();
    let kd2 = w.kids@;
    assert(pv[t] == (p, e));
    assert forall|x: Seq<char>| sn.contains(x) implies sn2.contains(x) by {
        if !e && !views(o.seen@).contains(p) {
            assert(sn2 == sn.insert(p));
        } else {
            assert(views(w.seen@) == views(o.seen@));
        }
    }
    assert(sn2.contains(p)) by {
        if e {
            assert(walk_sound(pv, sp, sn, o.roots@));
            assert(sn.contains(pv[t].0));
        } else if views(o.seen@).contains(p) {
            assert(sn.contains(p));
        } else {
            assert(sn2 == sn.insert(p));
        }
    }
    if e || views(o.seen@).contains(p) || !(found is Dir) {
        // The top entry is popped; at most `p` gets a snapshot.
        assert(pv2 == rest);
        assert(kd2 == kd);
        assert(sp2 == sp || (sp2 =~= sp.push(p))) by {
            if e || !views(o.seen@).contains(p) {
                assert(snap_views(w.snaps@) == snap_views(o.snaps@).push(AfterSnapV { path: p, state: found_state(found) }));
                assert(sp2 =~= sp.push(p));
            } else {
                assert(snap_views(w.snaps@) == snap_views(o.snaps@));
            }
        }
        assert forall|k: int, l: int| 0 <= k < l < pv2.len() && (#[trigger] pv2[k]).1 implies (#[trigger] pv2[l]).0.len() > pv2[k].0.len() by {
            assert(pv2[k] == pv[k] && pv2[l] == pv[l]);
        }
        assert forall|k: int| 0 <= k < pv2.len() && (#[trigger] pv2[k]).1 implies kd2.contains_key(pv2[k].0) && forall|j: int|
            0 <= j < kd2[pv2[k].0].len() ==> sn2.contains(#[trigger] kd2[pv2[k].0][j]) || waiting_above(pv2, k, kd2[pv2[k].0][j]) by {
            assert(pv2[k] == pv[k]);
            let q = pv[k].0;
            assert forall|j: int| 0 <= j < kd2[q].len() implies sn2.contains(#[trigger] kd2[q][j]) || waiting_above(pv2, k, kd2[q][j]) by {
                let c = kd[q][j];
                if !sn.contains(c) {
                    assert(waiting_above(pv, k, c));
                    let l = choose|l: int| k < l < pv.len() && #[trigger] pv[l] == (c, false);
                    if l == t {
                        assert(c == p);
                    } else {
                        assert(pv2[l] == pv[l]);
                    }
                }
            }
        }
        assert forall|x: Seq<char>| #[trigger] kd2.contains_key(x) implies sn2.contains(x) && forall|j: int|
            0 <= j < kd2[x].len() ==> (#[trigger] kd2[x][j]).len() > x.len() by {
            assert(kd.contains_key(x));
        }
        assert forall|i: int| 0 <= i < sp2.len() && #[trigger] kd2.contains_key(sp2[i]) implies forall|j: int|
            0 <= j < kd2[sp2[i]].len() ==> snapped_before(sp2, i, #[trigger] kd2[sp2[i]][j]) by {
            if i < sp.len() {
                assert(sp2[i] == sp[i]);
                assert forall|j: int| 0 <= j < kd2[sp2[i]].len() implies snapped_before(sp2, i, #[trigger] kd2[sp2[i]][j]) by {
                    let c = kd[sp[i]][j];
                    assert(snapped_before(sp, i, c));
                    let m = choose|m: int| 0 <= m < i && #[trigger] sp[m] == c;
                    assert(sp2[m] == sp[m]);
                }
            } else {
                // The new snapshot is of `p`.
                assert(sp2 =~= sp.push(p));
                assert(sp2[i] == p);
                assert(kd.contains_key(p));
                if !e {
                    // `p` was not seen before, so it has no listed children.
                    assert(!views(o.seen@).contains(p));
                    assert(sn.contains(p));
                }
                assert forall|j: int| 0 <= j < kd2[p].len() implies snapped_before(sp2, i, #[trigger] kd2[p][j]) by {
                    let c = kd[p][j];
                    assert(c.len() > p.len());
                    if !sn.contains(c) {
                        assert(waiting_above(pv, t, c));
                        let l = choose|l: int| t < l < pv.len() && #[trigger] pv[l] == (c, false);
                    }
                    assert(sn.contains(c));
                    assert(walk_sound(pv, sp, sn, o.roots@));
                    if !sp.contains(c) {
                        assert(expanded_pending(pv, c));
                        let m = choose|m: int| 0 <= m < pv.len() && #[trigger] pv[m] == (c, true);
                        if m == t {
                            assert(c == p);
                        } else {
                            assert(pv[t].0.len() > pv[m].0.len());
                        }
                    }
                    let m = choose|m: int| 0 <= m < sp.len() && sp[m] == c;
                    assert(sp2[m] == c);
                }
            }
        }
    } else {
        // A directory seen for the first time: queued again as expanded,
        // with its children above it.
        let kids = found_children(workdir, found);
        let kv = kids.reverse().map_values(|c: Seq<char>| (c, false));
        assert(pv2 == rest.push((p, true)) + kv);
        assert(kd2 == kd.insert(p, kids));
        assert(snap_views(w.snaps@) == snap_views(o.snaps@));
        assert(sp2 == sp);
        assert(!sn.contains(p));
        assert(!kd.contains_key(p));
        assert forall|k: int| 0 <= k < pv2.len() implies #[trigger] pv2[k] == (if k < t {
            pv[k]
        } else if k == t {
            (p, true)
        } else {
            (kids[kids.len() - 1 - (k - t - 1)], false)
        }) by {
            if k > t {
                assert(pv2[k] == kv[k - t - 1]);
            }
        }
        assert forall|k: int, l: int| 0 <= k < l < pv2.len() && (#[trigger] pv2[k]).1 implies (#[trigger] pv2[l]).0.len() > pv2[k].0.len() by {
            if l < t {
            } else if l == t {
                assert(pv[k].1);
                assert(pv[t].0.len() > pv[k].0.len());
            } else {
                let j = kids.len() - 1 - (l - t - 1);
                assert(kids[j].len() > p.len());
                if k < t {
                    assert(pv[t].0.len() > pv[k].0.len());
                }
            }
        }
        assert forall|k: int| 0 <= k < pv2.len() && (#[trigger] pv2[k]).1 implies kd2.contains_key(pv2[k].0) && forall|j: int|
            0 <= j < kd2[pv2[k].0].len() ==> sn2.contains(#[trigger] kd2[pv2[k].0][j]) || waiting_above(pv2, k, kd2[pv2[k].0][j]) by {
            if k < t {
                let q = pv[k].0;
                assert(pv[k].1);
                assert(kd.contains_key(q));
                assert(q != p);
                assert forall|j: int| 0 <= j < kd2[q].len() implies sn2.contains(#[trigger] kd2[q][j]) || waiting_above(pv2, k, kd2[q][j]) by {
                    let c = kd[q][j];
                    if !sn.contains(c) {
                        assert(waiting_above(pv, k, c));
                        let l = choose|l: int| k < l < pv.len() && #[trigger] pv[l] == (c, false);
                        if l == t {
                            assert(c == p);
                        } else {
                            assert(pv2[l] == pv[l]);
                        }
                    }
                }
            } else if k == t {
                assert forall|j: int| 0 <= j < kd2[p].len() implies sn2.contains(#[trigger] kd2[p][j]) || waiting_above(pv2, k, kd2[p][j]) by {
                    let l = t + 1 + (kids.len() - 1 - j);
                    assert(pv2[l] == (kids[j], false));
                }
            }
        }
        assert forall|x: Seq<char>| #[trigger] kd2.contains_key(x) implies sn2.contains(x) && forall|j: int|
            0 <= j < kd2[x].len() ==> (#[trigger] kd2[x][j]).len() > x.len() by {
            if x != p {
                assert(kd.contains_key(x));
            }
        }
        assert forall|i: int| 0 <= i < sp2.len() && #[trigger] kd2.contains_key(sp2[i]) implies forall|j: int|
            0 <= j < kd2[sp2[i]].len() ==> snapped_before(sp2, i, #[trigger] kd2[sp2[i]][j]) by {
            assert(sn.contains(sp[i]));
            assert(sp[i] != p);
            assert(kd.contains_key(sp[i]));
        }
    }
}

/// The after-state walk before a rollback: the paths still to look at (the
/// next one last), the paths already looked at, strictly sorted, and the
/// after-states captured, a directory's after its children.
pub struct AfterWalk {
    pub pending: Vec<(String, bool)>,
    pub seen: Vec<String>,
    pub snaps: Vec<AfterSnap>,
    /// The effects whose paths the walk starts from.
    pub roots: Ghost<Seq<EffectV>>,
    /// For each directory whose children were queued, those children.
    pub kids: Ghost<Map<Seq<char>, Seq<Seq<char>>>>,
}

impl AfterWalk {
    /// The walk is sound: `seen` is strictly sorted; each path has at most
    /// one snapshot, and only a seen path has one; a seen path has its
    /// snapshot or is a queued directory still to finish (once); and the
    /// path of every root effect is seen or waiting.
    pub open spec fn well_formed(self) -> bool {
        &&& strictly_sorted(views(self.seen@))
        &&& walk_sound(
            pending_views(self.pending@),
            snap_paths(snap_views(self.snaps@)),
            views(self.seen@).to_set(),
            self.roots@,
        )
    }

    /// A walk from the paths of `effects`, to be looked at in their order.
    pub fn from_effects(effects: &Vec<Effect>) -> (w: AfterWalk)
        ensures
            w.well_formed(),
            w.roots@ == effect_views(effects@),
            w.kids@ == Map::<Seq<char>, Seq<Seq<char>>>::empty(),
            w.seen@.len() == 0,
            w.snaps@.len() == 0,
            forall|k: int| 0 <= k < w.pending@.len() ==> !(#[trigger] w.pending@[k]).1,
    {
        let ghost ev = effect_views(effects@);
        let mut pending: Vec<(String, bool)> = Vec::new();
        let mut k: usize = effects.len();
        while k > 0
            invariant
                k <= effects@.len(),
                ev == effect_views(effects@),
                forall|j: int| 0 <= j < pending@.len() ==> !(#[trigger] pending@[j]).1,
                forall|j: int|
                    k <= j < effects@.len() && (#[trigger] ev[j]).fs_path() is Some ==> waiting(
                        pending_views(pending@),
                        ev[j].fs_path()->0,
                    ),
            decreases k,
        {
            k = k - 1;
            let ghost before = pending_views(pending@);
            match effects[k].path() {
                Some(p) => {
                    pending.push((p.clone(), false));
                    proof {
                        let pv = pending_views(pending@);
                        assert(pv =~= before.push((p@, false)));
                        assert forall|j: int|
                            k <= j < effects@.len() && (#[trigger] ev[j]).fs_path() is Some implies waiting(
                            pv,
                            ev[j].fs_path()->0,
                        ) by {
                            if j == k {
                                assert(pv[pv.len() - 1] == (p@, false));
                            } else {
                                let r = ev[j].fs_path()->0;
                                let i = choose|i: int| 0 <= i < before.len() && #[trigger] before[i] == (r, false);
                                assert(pv[i] == before[i]);
                            }
                        }
                    }
                },
                None => {
                    assert(pending_views(pending@) == before);
                },
            }
        }
        let w = AfterWalk {
            pending,
            seen: Vec::new(),
            snaps: Vec::new(),
            roots: Ghost(ev),
            kids: Ghost(Map::empty()),
        };
        assert(views(w.seen@) =~= Seq::<Seq<char>>::empty());
        assert(snap_paths(snap_views(w.snaps@)) =~= Seq::<Seq<char>>::empty());
        w
    }

    /// The next path to look at, and whether its children were already
    /// queued (then only its own after-state is left to take).
    pub fn next(&self) -> (r: Option<(String, bool)>)
        ensures
            match r {
                Some((p, e)) => self.pending@.len() > 0 && p@ == self.pending@.last().0@ && e
                    == self.pending@.last().1,
                None => self.pending@.len() == 0,
            },
    {
        let n = self.pending.len();
        if n == 0 {
            None
        } else {
            let (p, e) = &self.pending[n - 1];
            Some((p.clone(), *e))
        }
    }

    /// Whether the next path must be looked at on disk: it is a path not
    /// seen before, or a directory whose children are done (whose mode is
    /// then taken). A path seen before is dropped without a look.
    pub fn looks_next(&self) -> (r: bool)
        ensures
            self.pending@.len() > 0 ==> r == looks(*self),
    {
        let n = self.pending.len();
        if n == 0 {
            return false;
        }
        let (p, e) = &self.pending[n - 1];
        *e || !contains_string(&self.seen, p)
    }

    /// Takes what was found at the next path. A path seen before is
    /// dropped. Otherwise it is marked seen; a directory is queued again as
    /// expanded with its captured children above it (visited next, in
    /// listing order), and anything else gets its after-state. A queued
    /// directory whose children are done gets its own after-state, with the
    /// mode found now.
    pub fn step(&mut self, u: &Undo, found: Found)
        requires
            old(self).pending@.len() > 0,
            old(self).pending@.last().1 ==> found is Dir,
            strictly_sorted(views(old(self).seen@)),
        ensures
            after_step(u@.workdir, *old(self), found, *final(self)),
            old(self).well_formed() ==> final(self).well_formed(),
    {
        let ghost o = *self;
        let ghost pv = pending_views(self.pending@);
        let ghost fv = found;
        let ghost last = self.pending@.last();
        let (path, expanded) = match self.pending.pop() {
            Some(t) => t,
            None => (String::new(), false),
        };
        assert(path == last.0 && expanded == last.1);
        assert(pending_views(self.pending@) =~= pv.drop_last());
        if expanded {
            let mode = match found {
                Found::Dir { mode, .. } => mode,
                _ => 0,
            };
            let ghost ss = snap_views(self.snaps@);
            self.snaps.push(AfterSnap { path, state: AfterState::Dir { mode } });
            assert(snap_views(self.snaps@) =~= ss.push(AfterSnapV { path: last.0@, state: found_state(fv) }));
            proof {
                assert(snap_paths(snap_views(self.snaps@)) =~= snap_paths(ss).push(last.0@));
                assert(pv =~= pending_views(self.pending@).push((last.0@, true)));
                if o.well_formed() {
                    lemma_walk_finish(pending_views(self.pending@), last.0@, snap_paths(ss), views(o.seen@).to_set(), o.roots@);
                }
            }
            return;
        }
        if contains_string(&self.seen, &path) {
            proof {
                assert(pv =~= pending_views(self.pending@).push((last.0@, false)));
                if o.well_formed() {
                lemma_walk_skip(pending_views(self.pending@), last.0@, snap_paths(snap_views(self.snaps@)), views(o.seen@).to_set(), o.roots@);
                }
            }
            return;
        }
        insert_sorted(&mut self.seen, path.clone());
        proof {
            assert(pv =~= pending_views(self.pending@).push((last.0@, false)));
        }
        let ghost ss = snap_views(self.snaps@);
        match found {
            Found::Dir { mode, children } => {
                let kids = u.dir_snapshot(path.clone(), mode, children).1;
                proof {
                    self.kids@ = self.kids@.insert(last.0@, found_children(u@.workdir, fv));
                }
                let ghost base = pending_views(self.pending@);
                self.pending.push((path, true));
                let ghost base2 = pending_views(self.pending@);
                assert(base2 =~= base.push((last.0@, true)));
                let mut k: usize = kids.len();
                while k > 0
                    invariant
                        k <= kids@.len(),
                        self.snaps@ == o.snaps@,
                        views(self.seen@).to_set() == views(o.seen@).to_set().insert(last.0@),
                        strictly_sorted(views(self.seen@)),
                        self.roots@ == o.roots@,
                        self.kids@ == o.kids@.insert(last.0@, found_children(u@.workdir, fv)),
                        pending_views(self.pending@) == base2 + views(kids@).reverse().take(
                            kids@.len() - k,
                        ).map_values(|c: Seq<char>| (c, false)),
                    decreases k,
                {
                    k = k - 1;
                    let ghost before = pending_views(self.pending@);
                    self.pending.push((kids[k].clone(), false));
                    assert(pending_views(self.pending@) =~= before.push((views(kids@)[k as int], false)));
                    assert(views(kids@).reverse()[kids@.len() - 1 - k] == views(kids@)[k as int]);
                    assert(views(kids@).reverse().take(kids@.len() - k).map_values(
                        |c: Seq<char>| (c, false),
                    ) =~= views(kids@).reverse().take(kids@.len() - k - 1).map_values(
                        |c: Seq<char>| (c, false),
                    ).push((views(kids@)[k as int], false)));
                }
                assert(views(kids@).reverse().take(kids@.len() as int) =~= views(kids@).reverse());
                proof {
                    if o.well_formed() {
                        lemma_walk_expand(base, last.0@, snap_paths(ss), views(o.seen@).to_set(), o.roots@, views(kids@).reverse());
                    }
                }
            },
            _ => {
                let state = match found {
                    Found::Missing => AfterState::Absent,
                    Found::Link { target } => AfterState::Symlink { target },
                    Found::File { blob, meta } => AfterState::File { blob, meta },
                    Found::Dir { mode, .. } => AfterState::Dir { mode },
                };
                self.snaps.push(AfterSnap { path, state });
                assert(snap_views(self.snaps@) =~= ss.push(AfterSnapV { path: last.0@, state: found_state(fv) }));
                proof {
                    assert(snap_paths(snap_views(self.snaps@)) =~= snap_paths(ss).push(last.0@));
                    if o.well_formed() {
                        lemma_walk_leaf(pending_views(self.pending@), last.0@, snap_paths(ss), views(o.seen@).to_set(), o.roots@);
                    }
                }
            },
        }
    }
}

/// A completed after-state walk has one snapshot for the path of every
/// effect it started from, and at most one for any path.
pub proof fn law_after_walk_covers_effect_paths(w: AfterWalk)
    requires
        w.well_formed(),
        w.pending@.len() == 0,
    ensures
        ({
            let sp = snap_paths(snap_views(w.snaps@));
            &&& forall|i: int, j: int| 0 <= i < j < sp.len() ==> #[trigger] sp[i] != #[trigger] sp[j]
            &&& forall|k: int|
                0 <= k < w.roots@.len() && (#[trigger] w.roots@[k]).fs_path() is Some ==> sp.contains(
                    w.roots@[k].fs_path()->0,
                )
        }),
{
    let pv = pending_views(w.pending@);
    let sn = views(w.seen@).to_set();
    assert forall|k: int| 0 <= k < w.roots@.len() && (#[trigger] w.roots@[k]).fs_path() is Some implies snap_paths(
        snap_views(w.snaps@),
    ).contains(w.roots@[k].fs_path()->0) by {
        let r = w.roots@[k].fs_path()->0;
        if waiting(pv, r) {
            let m = choose|m: int| 0 <= m < pv.len() && #[trigger] pv[m] == (r, false);
        }
        assert(sn.contains(r));
        if expanded_pending(pv, r) {
            let m = choose|m: int| 0 <= m < pv.len() && #[trigger] pv[m] == (r, true);
        }
    }
}

} // verus!
