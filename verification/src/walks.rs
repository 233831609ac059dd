//! The two walks over the disk checked against the filesystem model: a
//! completed capture walk in which every look saw the tree records what
//! capturing the tree does, and an after-state walk in which every look
//! saw the tree keeps snapshots that describe it, a directory's after its
//! children's.

use vstd::prelude::*;
use crate::effect::{effect_views, EffectV};
use crate::fsmodel::{above, apply_ops, at_or_below, dirs_clear, restored_file, Node, Tree};
use crate::paths::components;
use crate::roundtrip::{
    agrees, among, beside_all, captures, dirs_stay_dirs, flatten, flatten_captures, flatten_kids,
    describes, in_scope, key_of, reversal_plan, skipped_key, unrelated, well_formed, Capture,
};
use crate::laws::law_rollback_restores_captured_trees;
use crate::journal::{snap_views, AfterSnapV};
use crate::snapshot::{
    after_step, capture_step, captured_children, expanded_pending, found_children, found_effect,
    found_state, lemma_after_step_ordered, lemma_after_step_well_formed,
    law_after_walk_covers_effect_paths, lists_below, looks, ordered, pair_views, pending_views,
    skipped_child, snap_paths, snapped_before, AfterWalk, CaptureWalk, Found,
};
use crate::text::views;

verus! {

/// What was found at `path` is what the tree `fs0` holds there: nothing,
/// the symlink, the file as it would be restored, or a directory with that
/// mode (not 0) that lists each of its children once, by a path whose
/// components are the directory's followed by the child's name.
pub open spec fn found_matches(fs0: Tree, path: Seq<char>, found: Found) -> bool {
    let c = components(path);
    &&& c.len() >= 1
    &&& match found {
        Found::Missing => !fs0.contains_key(c),
        Found::Link { target } => fs0.contains_key(c) && fs0[c] == (Node::Link { target: target@ }),
        Found::File { blob, meta } => fs0.contains_key(c) && fs0[c] == restored_file(blob@, meta),
        Found::Dir { mode, children } => {
            let ch = pair_views(children@);
            &&& mode != 0
            &&& fs0.contains_key(c)
            &&& fs0[c] == (Node::Dir { mode: Some(mode) })
            &&& forall|i: int|
                0 <= i < ch.len() ==> components((#[trigger] ch[i]).0) == c.push(ch[i].1)
                    && fs0.contains_key(c.push(ch[i].1))
            &&& forall|i: int, j: int| 0 <= i < j < ch.len() ==> (#[trigger] ch[i]).1 != (#[trigger] ch[j]).1
            &&& forall|x: Seq<char>|
                #[trigger] fs0.contains_key(c.push(x)) ==> exists|i: int| 0 <= i < ch.len() && (#[trigger] ch[i]).1 == x
        },
    }
}

/// `ws` is a run of the capture walk: each state follows from the one
/// before by a step, given what was found then, and everything found
/// matched the tree `fs0`.
pub open spec fn capture_run(workdir: Seq<char>, fs0: Tree, ws: Seq<CaptureWalk>, founds: Seq<Found>) -> bool {
    &&& ws.len() == founds.len() + 1
    &&& forall|i: int|
        0 <= i < founds.len() ==> (#[trigger] ws[i]).pending@.len() > 0 && capture_step(
            workdir,
            ws[i],
            founds[i],
            ws[i + 1],
        ) && found_matches(fs0, ws[i].pending@.last()@, founds[i])
}

/// The captured children are the listed children that are not skipped, in
/// listing order: `idx` gives the position of each in the listing.
proof fn lemma_captured(workdir: Seq<char>, ch: Seq<(Seq<char>, Seq<char>)>) -> (idx: Seq<int>)
    ensures
        idx.len() == captured_children(workdir, ch).len(),
        forall|i: int|
            0 <= i < idx.len() ==> 0 <= #[trigger] idx[i] < ch.len() && captured_children(workdir, ch)[i]
                == ch[idx[i]] && !skipped_child(workdir, ch[idx[i]].0, ch[idx[i]].1),
        forall|i: int, k: int| 0 <= i < k < idx.len() ==> #[trigger] idx[i] < #[trigger] idx[k],
        forall|j: int|
            0 <= j < ch.len() && !skipped_child(workdir, (#[trigger] ch[j]).0, ch[j].1) ==> exists|i: int|
                0 <= i < idx.len() && #[trigger] idx[i] == j,
    decreases ch.len(),
{
    if ch.len() == 0 {
        seq![]
    } else {
        let d = ch.drop_last();
        let id = lemma_captured(workdir, d);
        let cd = captured_children(workdir, d);
        let last = ch.last();
        assert forall|j: int| 0 <= j < d.len() implies #[trigger] d[j] == ch[j] by {}
        if skipped_child(workdir, last.0, last.1) {
            assert(captured_children(workdir, ch) == cd);
            assert forall|j: int|
                0 <= j < ch.len() && !skipped_child(workdir, (#[trigger] ch[j]).0, ch[j].1) implies exists|i: int|
                0 <= i < id.len() && #[trigger] id[i] == j by {
                assert(j < d.len());
                assert(d[j] == ch[j]);
            }
            id
        } else {
            let r = id.push(ch.len() - 1);
            assert(captured_children(workdir, ch) == cd.push(last));
            assert forall|i: int|
                0 <= i < r.len() implies 0 <= #[trigger] r[i] < ch.len() && captured_children(workdir, ch)[i]
                == ch[r[i]] && !skipped_child(workdir, ch[r[i]].0, ch[r[i]].1) by {
                if i < id.len() {
                    assert(r[i] == id[i]);
                    assert(d[id[i]] == ch[id[i]]);
                }
            }
            assert forall|i: int, k: int| 0 <= i < k < r.len() implies #[trigger] r[i] < #[trigger] r[k] by {
                if k < id.len() {
                    assert(r[i] == id[i] && r[k] == id[k]);
                } else {
                    assert(r[i] == id[i]);
                }
            }
            assert forall|j: int|
                0 <= j < ch.len() && !skipped_child(workdir, (#[trigger] ch[j]).0, ch[j].1) implies exists|i: int|
                0 <= i < r.len() && #[trigger] r[i] == j by {
                if j == ch.len() - 1 {
                    assert(r[id.len() as int] == j);
                } else {
                    assert(d[j] == ch[j]);
                    let i = choose|i: int| 0 <= i < id.len() && #[trigger] id[i] == j;
                    assert(r[i] == j);
                }
            }
            r
        }
    }
}

/// The effects of a first child and then the others.
proof fn lemma_flatten_kids_cons(c0: Capture, cs: Seq<Capture>, n: int)
    requires
        0 <= n <= cs.len(),
    ensures
        flatten_kids(seq![c0] + cs, n + 1) == flatten(c0) + flatten_kids(cs, n),
    decreases n,
{
    let all = seq![c0] + cs;
    if n == 0 {
        assert(all[0] == c0);
        assert(flatten_kids(all, 0) =~= Seq::empty());
        assert(flatten_kids(cs, 0) =~= Seq::empty());
        assert(flatten_kids(all, 1) =~= flatten(c0) + flatten_kids(cs, 0));
    } else {
        lemma_flatten_kids_cons(c0, cs, n - 1);
        assert(all[n] == cs[n - 1]);
        assert(flatten_kids(all, n + 1) =~= flatten(c0) + flatten_kids(cs, n));
    }
}

/// A found directory, its recorded effect and the captures of its captured
/// children make up a capture of the directory.
proof fn lemma_dir_captures(
    workdir: Seq<char>,
    fs0: Tree,
    p: Seq<char>,
    found: Found,
    e: EffectV,
    kids: Seq<Seq<char>>,
    caps: Seq<Capture>,
)
    requires
        found is Dir,
        found_matches(fs0, p, found),
        found_effect(workdir, p, found, e),
        kids == found_children(workdir, found),
        caps.len() == kids.len(),
        forall|i: int| 0 <= i < kids.len() ==> captures(workdir, fs0, components(kids[i]), #[trigger] caps[i]),
    ensures
        captures(workdir, fs0, components(p), Capture::Tree { effect: e, kids: caps }),
{
    let c = components(p);
    let cap = Capture::Tree { effect: e, kids: caps };
    let ch = pair_views(found->Dir_children@);
    let cc = captured_children(workdir, ch);
    let names = cc.map_values(|x: (Seq<char>, Seq<char>)| x.1);
    assert(kids == cc.map_values(|x: (Seq<char>, Seq<char>)| x.0));
    let idx = lemma_captured(workdir, ch);
    let entries = e->Dir_entries;
    assert(entries.to_multiset() == names.to_multiset());
    entries.to_multiset_ensures();
    names.to_multiset_ensures();
    assert forall|x: Seq<char>| #[trigger] entries.contains(x) <==> names.contains(x) by {
        assert(entries.to_multiset().count(x) == names.to_multiset().count(x));
    }
    assert forall|i: int| 0 <= i < caps.len() implies key_of(#[trigger] caps[i]) == c.push(names[i]) by {
        let j = idx[i];
        assert(cc[i] == ch[j]);
        assert(components(ch[j].0) == c.push(ch[j].1));
        assert(kids[i] == cc[i].0);
        assert(names[i] == cc[i].1);
    }
    assert forall|x: Seq<char>| entries.contains(x) <==> (fs0.contains_key(c.push(x)) && !skipped_key(
        workdir,
        c.push(x),
    )) by {
        assert(c.push(x).last() == x);
        if entries.contains(x) {
            assert(names.contains(x));
            let i = choose|i: int| 0 <= i < names.len() && names[i] == x;
            let j = idx[i];
            assert(cc[i] == ch[j]);
            assert(names[i] == cc[i].1);
            assert(components(ch[j].0) == c.push(ch[j].1));
        }
        if fs0.contains_key(c.push(x)) && !skipped_key(workdir, c.push(x)) {
            let j = choose|j: int| 0 <= j < ch.len() && (#[trigger] ch[j]).1 == x;
            assert(components(ch[j].0) == c.push(ch[j].1));
            assert(!skipped_child(workdir, ch[j].0, ch[j].1));
            let i = choose|i: int| 0 <= i < idx.len() && #[trigger] idx[i] == j;
            assert(cc[i] == ch[j]);
            assert(names[i] == cc[i].1);
            assert(names[i] == x);
            assert(names.contains(x));
        }
    }
    assert forall|x: Seq<char>| #[trigger] entries.contains(x) implies among(caps, caps.len() as int, c.push(x)) by {
        assert(names.contains(x));
        let i = choose|i: int| 0 <= i < names.len() && names[i] == x;
        assert(key_of(caps[i]) == c.push(names[i]));
    }
    assert forall|i: int| 0 <= i < caps.len() implies key_of(#[trigger] caps[i]) == c.push(key_of(caps[i]).last())
        && entries.contains(key_of(caps[i]).last()) by {
        assert(c.push(names[i]).last() == names[i]);
        assert(names.contains(names[i]));
    }
    assert forall|i: int, j: int| 0 <= i < j < caps.len() implies key_of(#[trigger] caps[i]) != key_of(#[trigger] caps[j]) by {
        assert(idx[i] < idx[j]);
        assert(cc[i] == ch[idx[i]] && cc[j] == ch[idx[j]]);
        assert(ch[idx[i]].1 != ch[idx[j]].1);
        assert(names[i] == cc[i].1 && names[j] == cc[j].1);
        assert(c.push(names[i]).last() == names[i]);
        assert(c.push(names[j]).last() == names[j]);
    }
    assert forall|i: int| 0 <= i < caps.len() implies captures(workdir, fs0, key_of(caps[i]), #[trigger] caps[i]) by {
        assert(captures(workdir, fs0, components(kids[i]), caps[i]));
    }
    assert(key_of(cap) == c);
}

/// From a state whose queue is `base` with `p` on top, the walk comes back
/// to `base`, having recorded a capture of `p`.
proof fn lemma_segment(
    workdir: Seq<char>,
    fs0: Tree,
    ws: Seq<CaptureWalk>,
    founds: Seq<Found>,
    a: int,
    base: Seq<Seq<char>>,
    p: Seq<char>,
) -> (r: (int, Capture))
    requires
        capture_run(workdir, fs0, ws, founds),
        ws.last().pending@.len() == 0,
        0 <= a < ws.len(),
        views(ws[a].pending@) == base.push(p),
    ensures
        a < r.0 < ws.len(),
        views(ws[r.0].pending@) == base,
        effect_views(ws[r.0].effects@) == effect_views(ws[a].effects@) + flatten(r.1),
        captures(workdir, fs0, components(p), r.1),
    decreases ws.len() - a, 1int, 0int,
{
    assert(views(ws[a].pending@).len() == ws[a].pending@.len());
    assert(a < founds.len());
    let found = founds[a];
    let o = ws[a];
    let w = ws[a + 1];
    assert(o.pending@.len() > 0 && capture_step(workdir, o, found, w) && found_matches(fs0, o.pending@.last()@, found));
    assert(views(o.pending@).last() == o.pending@.last()@);
    assert(o.pending@.last()@ == p);
    let ev = effect_views(w.effects@);
    let e = ev.last();
    assert(ev =~= effect_views(o.effects@).push(e));
    let c = components(p);
    let kids = found_children(workdir, found);
    assert(views(o.pending@).drop_last() =~= base);
    assert(views(w.pending@) == base + kids.reverse());
    if found is Dir {
        let (b, caps) = lemma_kids(workdir, fs0, ws, founds, a + 1, base, kids);
        lemma_dir_captures(workdir, fs0, p, found, e, kids, caps);
        let cap = Capture::Tree { effect: e, kids: caps };
        assert(flatten(cap) == seq![e] + flatten_kids(caps, caps.len() as int));
        assert(effect_views(ws[b].effects@) =~= effect_views(o.effects@) + flatten(cap));
        (b, cap)
    } else {
        assert(kids =~= Seq::<Seq<char>>::empty());
        assert(base + kids.reverse() =~= base);
        let cap = Capture::Leaf { effect: e };
        assert(flatten(cap) =~= seq![e]);
        assert(key_of(cap) == c);
        assert(captures(workdir, fs0, c, cap));
        (a + 1, cap)
    }
}

proof fn lemma_kids(
    workdir: Seq<char>,
    fs0: Tree,
    ws: Seq<CaptureWalk>,
    founds: Seq<Found>,
    s: int,
    base: Seq<Seq<char>>,
    l: Seq<Seq<char>>,
) -> (r: (int, Seq<Capture>))
    requires
        capture_run(workdir, fs0, ws, founds),
        ws.last().pending@.len() == 0,
        0 <= s < ws.len(),
        views(ws[s].pending@) == base + l.reverse(),
    ensures
        s <= r.0 < ws.len(),
        views(ws[r.0].pending@) == base,
        r.1.len() == l.len(),
        effect_views(ws[r.0].effects@) == effect_views(ws[s].effects@) + flatten_kids(r.1, r.1.len() as int),
        forall|i: int| 0 <= i < l.len() ==> captures(workdir, fs0, components(l[i]), #[trigger] r.1[i]),
    decreases ws.len() - s, 2int, l.len(),
{
    if l.len() == 0 {
        assert(base + l.reverse() =~= base);
        let none = Seq::<Capture>::empty();
        assert(flatten_kids(none, 0) =~= Seq::empty());
        assert(effect_views(ws[s].effects@) + flatten_kids(none, 0) =~= effect_views(ws[s].effects@));
        (s, none)
    } else {
        let rest = l.drop_first();
        assert(base + l.reverse() =~= (base + rest.reverse()).push(l[0]));
        let (b1, c0) = lemma_segment(workdir, fs0, ws, founds, s, base + rest.reverse(), l[0]);
        let (b, cs) = lemma_kids(workdir, fs0, ws, founds, b1, base, rest);
        let caps = seq![c0] + cs;
        lemma_flatten_kids_cons(c0, cs, cs.len() as int);
        assert forall|i: int| 0 <= i < l.len() implies captures(workdir, fs0, components(l[i]), #[trigger] caps[i]) by {
            if i > 0 {
                assert(caps[i] == cs[i - 1]);
                assert(l[i] == rest[i - 1]);
            }
        }
        assert(effect_views(ws[b].effects@) =~= effect_views(ws[s].effects@) + flatten_kids(
            caps,
            caps.len() as int,
        ));
        (b, caps)
    }
}

/// A completed capture walk from `root`, in which everything found matched
/// the tree `fs0`, records what capturing `root` in `fs0` records: its
/// effects are those of a capture of `root`, a directory's before those of
/// everything below it.
pub proof fn law_capture_walk_captures_tree(
    workdir: Seq<char>,
    fs0: Tree,
    root: Seq<char>,
    ws: Seq<CaptureWalk>,
    founds: Seq<Found>,
) -> (cap: Capture)
    requires
        capture_run(workdir, fs0, ws, founds),
        views(ws[0].pending@) == seq![root],
        ws[0].effects@.len() == 0,
        ws.last().pending@.len() == 0,
    ensures
        captures(workdir, fs0, components(root), cap),
        effect_views(ws.last().effects@) == flatten(cap),
{
    let empty = Seq::<Seq<char>>::empty();
    assert(empty.push(root) =~= seq![root]);
    let (b, cap) = lemma_segment(workdir, fs0, ws, founds, 0, empty, root);
    assert(views(ws[b].pending@).len() == ws[b].pending@.len());
    if b < ws.len() - 1 {
        assert(ws[b].pending@.len() > 0);
    }
    assert(effect_views(ws[0].effects@) =~= Seq::empty());
    assert(effect_views(ws[0].effects@) + flatten(cap) =~= flatten(cap));
    cap
}

/// Every path that `effects` record as a directory is a directory in `fs`,
/// or missing.
pub open spec fn dirs_still_dirs(fs: Tree, effects: Seq<EffectV>) -> bool {
    forall|i: int|
        0 <= i < effects.len() && (#[trigger] effects[i]) is Dir ==> (!fs.contains_key(
            components(effects[i]->Dir_path),
        ) || fs[components(effects[i]->Dir_path)] is Dir)
}

proof fn lemma_dirs_still_concat(fs: Tree, a: Seq<EffectV>, b: Seq<EffectV>)
    requires
        dirs_still_dirs(fs, a + b),
    ensures
        dirs_still_dirs(fs, a),
        dirs_still_dirs(fs, b),
{
    assert forall|i: int| 0 <= i < a.len() && (#[trigger] a[i]) is Dir implies (!fs.contains_key(
        components(a[i]->Dir_path),
    ) || fs[components(a[i]->Dir_path)] is Dir) by {
        assert((a + b)[i] == a[i]);
    }
    assert forall|i: int| 0 <= i < b.len() && (#[trigger] b[i]) is Dir implies (!fs.contains_key(
        components(b[i]->Dir_path),
    ) || fs[components(b[i]->Dir_path)] is Dir) by {
        assert((a + b)[a.len() + i] == b[i]);
    }
}

proof fn lemma_dirs_still_kids(fs: Tree, kids: Seq<Capture>, n: int)
    requires
        0 <= n <= kids.len(),
        dirs_still_dirs(fs, flatten_kids(kids, n)),
    ensures
        forall|i: int| 0 <= i < n ==> dirs_still_dirs(fs, flatten(#[trigger] kids[i])),
    decreases n,
{
    if n > 0 {
        lemma_dirs_still_concat(fs, flatten_kids(kids, n - 1), flatten(kids[n - 1]));
        lemma_dirs_still_kids(fs, kids, n - 1);
    }
}

proof fn lemma_dirs_stay(workdir: Seq<char>, fs0: Tree, fs: Tree, cap: Capture)
    requires
        captures(workdir, fs0, key_of(cap), cap),
        dirs_still_dirs(fs, flatten(cap)),
    ensures
        dirs_stay_dirs(fs, cap),
    decreases cap,
{
    match cap {
        Capture::Leaf { .. } => {},
        Capture::Tree { effect, kids } => {
            assert(flatten(cap) == seq![effect] + flatten_kids(kids, kids.len() as int));
            lemma_dirs_still_concat(fs, seq![effect], flatten_kids(kids, kids.len() as int));
            assert(seq![effect][0] == effect);
            lemma_dirs_still_kids(fs, kids, kids.len() as int);
            assert forall|i: int| 0 <= i < kids.len() implies dirs_stay_dirs(fs, #[trigger] kids[i]) by {
                lemma_dirs_stay(workdir, fs0, fs, kids[i]);
            }
        },
    }
}

/// Rolling back what a completed capture walk from `root` recorded, in
/// which everything found matched the tree `fs0`, puts the path back:
/// whatever the tree `fs` is by then, as long as the path's ancestors and
/// the paths recorded as directories are directories there or missing,
/// the rollback succeeds, everything at or below the path that a capture
/// does not skip is as in `fs0`, and everything beside the path is as in
/// `fs`.
pub proof fn law_rollback_restores_walked_tree(
    workdir: Seq<char>,
    fs0: Tree,
    fs: Tree,
    root: Seq<char>,
    ws: Seq<CaptureWalk>,
    founds: Seq<Found>,
)
    requires
        capture_run(workdir, fs0, ws, founds),
        views(ws[0].pending@) == seq![root],
        ws[0].effects@.len() == 0,
        ws.last().pending@.len() == 0,
        well_formed(fs0),
        well_formed(fs),
        dirs_clear(fs, components(root), components(root).len() - 1),
        dirs_still_dirs(fs, effect_views(ws.last().effects@)),
    ensures
        ({
            let out = apply_ops(workdir, fs, reversal_plan(effect_views(ws.last().effects@)));
            &&& out is Some
            &&& forall|k: Seq<Seq<char>>|
                #[trigger] in_scope(workdir, components(root), k) ==> agrees(out->0, fs0, k)
            &&& forall|k: Seq<Seq<char>>|
                !at_or_below(k, components(root)) && !above(k, components(root)) ==> #[trigger] agrees(
                    out->0,
                    fs,
                    k,
                )
        }),
{
    let cap = law_capture_walk_captures_tree(workdir, fs0, root, ws, founds);
    let effects = effect_views(ws.last().effects@);
    let caps = seq![cap];
    let olds = seq![fs0];
    assert(caps[0] == cap && olds[0] == fs0);
    assert(key_of(cap) == components(root));
    lemma_dirs_stay(workdir, fs0, fs, cap);
    assert(flatten_captures(caps, 0) =~= Seq::empty());
    assert(flatten_captures(caps, 1) =~= flatten(cap));
    assert(unrelated(caps));
    law_rollback_restores_captured_trees(workdir, olds, fs, caps, effects);
    let out = apply_ops(workdir, fs, reversal_plan(effects));
    assert forall|k: Seq<Seq<char>>| #[trigger] in_scope(workdir, components(root), k) implies agrees(out->0, fs0, k) by {
        assert(in_scope(workdir, key_of(caps[0]), k));
    }
    assert forall|k: Seq<Seq<char>>|
        !at_or_below(k, components(root)) && !above(k, components(root)) implies #[trigger] agrees(out->0, fs, k) by {
        assert(beside_all(caps, 1, k));
    }
}

/// What was found at `path` describes the tree `fs`: nothing is there, or
/// the symlink, the file as it would be restored, or a directory with that
/// mode (not 0).
pub open spec fn found_describes(fs: Tree, path: Seq<char>, found: Found) -> bool {
    describes(fs, AfterSnapV { path, state: found_state(found) })
}

/// `ws` is a run of the after-state walk: each state follows from the one
/// before by a step, given what was found then.
pub open spec fn walk_run(workdir: Seq<char>, ws: Seq<AfterWalk>, founds: Seq<Found>) -> bool {
    &&& ws.len() == founds.len() + 1
    &&& forall|i: int|
        0 <= i < founds.len() ==> (#[trigger] ws[i]).pending@.len() > 0 && after_step(
            workdir,
            ws[i],
            founds[i],
            ws[i + 1],
        )
}

/// `ws` is a run of the after-state walk in which every look on disk
/// described the tree `fs`.
pub open spec fn faithful_run(workdir: Seq<char>, fs: Tree, ws: Seq<AfterWalk>, founds: Seq<Found>) -> bool {
    &&& walk_run(workdir, ws, founds)
    &&& forall|i: int|
        0 <= i < founds.len() ==> (looks(#[trigger] ws[i]) ==> found_describes(
            fs,
            ws[i].pending@.last().0@,
            founds[i],
        ))
}

proof fn lemma_run_describes(workdir: Seq<char>, fs: Tree, ws: Seq<AfterWalk>, founds: Seq<Found>, n: int)
    requires
        faithful_run(workdir, fs, ws, founds),
        0 <= n < ws.len(),
        ws[0].snaps@.len() == 0,
    ensures
        forall|k: int| 0 <= k < ws[n].snaps@.len() ==> describes(fs, #[trigger] snap_views(ws[n].snaps@)[k]),
    decreases n,
{
    if n > 0 {
        lemma_run_describes(workdir, fs, ws, founds, n - 1);
        let o = ws[n - 1];
        let w = ws[n];
        assert(ws[n - 1].pending@.len() > 0 && after_step(workdir, o, founds[n - 1], w));
        let ss = snap_views(o.snaps@);
        let p = o.pending@.last().0@;
        assert(pending_views(o.pending@).last() == (p, o.pending@.last().1));
        assert forall|k: int| 0 <= k < w.snaps@.len() implies describes(fs, #[trigger] snap_views(w.snaps@)[k]) by {
            if k < o.snaps@.len() {
                assert(describes(fs, ss[k]));
                if snap_views(w.snaps@) =~= ss.push(AfterSnapV { path: p, state: found_state(founds[n - 1]) }) {
                    assert(snap_views(w.snaps@)[k] == ss[k]);
                } else {
                    assert(snap_views(w.snaps@) == ss);
                }
            } else {
                assert(snap_views(w.snaps@) == ss.push(AfterSnapV { path: p, state: found_state(founds[n - 1]) }));
                assert(looks(o));
            }
        }
    }
}

/// An after-state walk from the paths of some effects, in which every look
/// on disk described the tree `fs`, keeps only snapshots that describe
/// `fs`; once it is done, the path of every effect it started from has a
/// snapshot, and no path has two.
pub proof fn law_after_walk_describes_tree(workdir: Seq<char>, fs: Tree, ws: Seq<AfterWalk>, founds: Seq<Found>)
    requires
        faithful_run(workdir, fs, ws, founds),
        ws[0].snaps@.len() == 0,
        ws[0].well_formed(),
    ensures
        forall|k: int|
            0 <= k < ws.last().snaps@.len() ==> describes(fs, #[trigger] snap_views(ws.last().snaps@)[k]),
        ws.last().pending@.len() == 0 ==> ({
            let sp = snap_paths(snap_views(ws.last().snaps@));
            &&& forall|i: int, j: int| 0 <= i < j < sp.len() ==> #[trigger] sp[i] != #[trigger] sp[j]
            &&& forall|k: int|
                0 <= k < ws[0].roots@.len() && (#[trigger] ws[0].roots@[k]).fs_path() is Some
                    ==> sp.contains(ws[0].roots@[k].fs_path()->0)
        }),
{
    lemma_run_describes(workdir, fs, ws, founds, ws.len() - 1);
    lemma_run_well_formed(workdir, fs, ws, founds, ws.len() - 1);
    if ws.last().pending@.len() == 0 {
        law_after_walk_covers_effect_paths(ws.last());
    }
}

proof fn lemma_run_well_formed(workdir: Seq<char>, fs: Tree, ws: Seq<AfterWalk>, founds: Seq<Found>, n: int)
    requires
        faithful_run(workdir, fs, ws, founds),
        0 <= n < ws.len(),
        ws[0].well_formed(),
    ensures
        ws[n].well_formed(),
        ws[n].roots@ == ws[0].roots@,
    decreases n,
{
    if n > 0 {
        lemma_run_well_formed(workdir, fs, ws, founds, n - 1);
        assert(ws[n - 1].pending@.len() > 0 && after_step(workdir, ws[n - 1], founds[n - 1], ws[n]));
        lemma_after_step_well_formed(workdir, ws[n - 1], founds[n - 1], ws[n]);
    }
}

proof fn lemma_run_ordered(workdir: Seq<char>, ws: Seq<AfterWalk>, founds: Seq<Found>, n: int)
    requires
        walk_run(workdir, ws, founds),
        forall|i: int|
            0 <= i < founds.len() ==> lists_below(workdir, (#[trigger] ws[i]).pending@.last().0@, founds[i]),
        ws[0].well_formed(),
        ordered(ws[0]),
        0 <= n < ws.len(),
    ensures
        ws[n].well_formed(),
        ordered(ws[n]),
    decreases n,
{
    if n > 0 {
        lemma_run_ordered(workdir, ws, founds, n - 1);
        assert(ws[n - 1].pending@.len() > 0 && after_step(workdir, ws[n - 1], founds[n - 1], ws[n]));
        lemma_after_step_well_formed(workdir, ws[n - 1], founds[n - 1], ws[n]);
        lemma_after_step_ordered(workdir, ws[n - 1], founds[n - 1], ws[n]);
    }
}

/// In an after-state walk from the paths of some effects, in which every
/// directory looked at lists its children with longer paths than its own,
/// a directory's after-state comes after the after-states of all its
/// captured children; once the walk is done, each such directory and each
/// of its captured children has an after-state.
pub proof fn law_after_walk_children_first(workdir: Seq<char>, ws: Seq<AfterWalk>, founds: Seq<Found>)
    requires
        walk_run(workdir, ws, founds),
        forall|i: int|
            0 <= i < founds.len() ==> lists_below(workdir, (#[trigger] ws[i]).pending@.last().0@, founds[i]),
        ws[0].well_formed(),
        ws[0].kids@ == Map::<Seq<char>, Seq<Seq<char>>>::empty(),
        forall|k: int| 0 <= k < ws[0].pending@.len() ==> !(#[trigger] ws[0].pending@[k]).1,
    ensures
        ({
            let w = ws.last();
            let sp = snap_paths(snap_views(w.snaps@));
            let kd = w.kids@;
            &&& forall|i: int, j: int|
                0 <= i < sp.len() && kd.contains_key(sp[i]) && 0 <= j < kd[sp[i]].len() ==> snapped_before(
                    sp,
                    i,
                    #[trigger] kd[sp[i]][j],
                )
            &&& w.pending@.len() == 0 ==> forall|x: Seq<char>, j: int|
                #[trigger] kd.contains_key(x) ==> sp.contains(x) && (0 <= j < kd[x].len() ==> sp.contains(
                    #[trigger] kd[x][j],
                ))
        }),
{
    let w0 = ws[0];
    let pv0 = pending_views(w0.pending@);
    assert forall|k: int| 0 <= k < pv0.len() implies !(#[trigger] pv0[k]).1 by {
        assert(!w0.pending@[k].1);
    }
    assert(ordered(w0));
    lemma_run_ordered(workdir, ws, founds, ws.len() - 1);
    let w = ws.last();
    let sp = snap_paths(snap_views(w.snaps@));
    let kd = w.kids@;
    let pv = pending_views(w.pending@);
    let sn = views(w.seen@).to_set();
    if w.pending@.len() == 0 {
        assert forall|x: Seq<char>, j: int| #[trigger] kd.contains_key(x) implies sp.contains(x) && (0 <= j < kd[x].len()
            ==> sp.contains(#[trigger] kd[x][j])) by {
            assert(sn.contains(x));
            if expanded_pending(pv, x) {
                let m = choose|m: int| 0 <= m < pv.len() && #[trigger] pv[m] == (x, true);
            }
            let i = choose|i: int| 0 <= i < sp.len() && sp[i] == x;
            if 0 <= j < kd[x].len() {
                assert(snapped_before(sp, i, kd[sp[i]][j]));
                let m = choose|m: int| 0 <= m < i && #[trigger] sp[m] == kd[x][j];
            }
        }
    }
}

} // verus!
