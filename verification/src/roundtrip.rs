//! Capturing a whole tree and rolling it back, over the filesystem model:
//! what a capture of a path records, the operations a rollback runs for the
//! recorded effects, and the proof that they put the captured tree back.

use vstd::prelude::*;
use crate::effect::EffectV;
use crate::fsmodel::{
    above, apply_ops, at_or_below, clean_at, dir_plan, dirs_clear, kept_child, lemma_apply_concat,
    lemma_dir_ops, lemma_file_ops, lemma_relink_ops, lemma_remove_op, lemma_symlink_ops,
    nothing_below, restored_file, symlink_plan, Node, Tree,
};
use crate::journal::{undo_root, AfterSnapV, AfterStateV};
use crate::paths::{components, is_ignored_name, is_prefix_of};
use crate::rollback::{file_ops, FsOpV};

verus! {

/// What capturing a path records, as the capturing walk produces it: the
/// path's own effect and, for a directory, the captures of its children in
/// the order they were walked.
pub enum Capture {
    Leaf { effect: EffectV },
    Tree { effect: EffectV, kids: Seq<Capture> },
}

impl Capture {
    pub open spec fn effect(self) -> EffectV {
        match self {
            Capture::Leaf { effect } => effect,
            Capture::Tree { effect, .. } => effect,
        }
    }
}

/// The effects in the order they are journaled: a directory before
/// everything below it, the children one after the other.
pub open spec fn flatten(cap: Capture) -> Seq<EffectV>
    decreases cap,
{
    match cap {
        Capture::Leaf { effect } => seq![effect],
        Capture::Tree { effect, kids } => seq![effect] + flatten_kids(kids, kids.len() as int),
    }
}

/// The journaled effects of the first `n` children.
pub open spec fn flatten_kids(kids: Seq<Capture>, n: int) -> Seq<EffectV>
    decreases kids, n,
{
    if n <= 0 || n > kids.len() {
        seq![]
    } else {
        flatten_kids(kids, n - 1) + flatten(kids[n - 1])
    }
}

/// The operations a rollback runs for `effects`: the reversal of each,
/// newest first.
pub open spec fn reversal_plan(effects: Seq<EffectV>) -> Seq<FsOpV>
    decreases effects.len(),
{
    if effects.len() == 0 {
        seq![]
    } else {
        effects.last().inverse_ops() + reversal_plan(effects.drop_last())
    }
}

/// One step per effect, newest first: the operations reversing it.
pub open spec fn inverse_steps(effects: Seq<EffectV>) -> Seq<Seq<FsOpV>> {
    Seq::new(effects.len(), |k: int| effects[effects.len() - 1 - k].inverse_ops())
}

/// The steps run one after the other.
pub open spec fn flat_steps(steps: Seq<Seq<FsOpV>>) -> Seq<FsOpV>
    decreases steps.len(),
{
    if steps.len() == 0 {
        seq![]
    } else {
        steps[0] + flat_steps(steps.drop_first())
    }
}

/// Running the reversal steps one after the other is the reversal plan.
pub proof fn lemma_inverse_steps(effects: Seq<EffectV>)
    ensures
        flat_steps(inverse_steps(effects)) == reversal_plan(effects),
    decreases effects.len(),
{
    if effects.len() > 0 {
        let d = effects.drop_last();
        lemma_inverse_steps(d);
        assert(inverse_steps(effects).drop_first() =~= inverse_steps(d));
        assert(inverse_steps(effects)[0] == effects.last().inverse_ops());
    } else {
        assert(inverse_steps(effects) =~= Seq::<Seq<FsOpV>>::empty());
    }
}

proof fn lemma_flat_push(a: Seq<Seq<FsOpV>>, x: Seq<FsOpV>)
    ensures
        flat_steps(a.push(x)) == flat_steps(a) + x,
    decreases a.len(),
{
    if a.len() == 0 {
        reveal_with_fuel(flat_steps, 2);
        assert(a.push(x).drop_first() =~= Seq::<Seq<FsOpV>>::empty());
        assert(a.push(x)[0] == x);
        assert(flat_steps(a.push(x)) =~= x + Seq::<FsOpV>::empty());
        assert(flat_steps(a) + x =~= x);
    } else {
        assert(a.push(x).drop_first() =~= a.drop_first().push(x));
        lemma_flat_push(a.drop_first(), x);
        assert(flat_steps(a.push(x)) =~= a[0] + (flat_steps(a.drop_first()) + x));
    }
}

/// Running the restore steps of `t` one after the other is its redo plan.
pub proof fn lemma_restore_steps(t: Seq<AfterSnapV>)
    ensures
        flat_steps(t.map_values(|s: AfterSnapV| s.restore_ops())) == redo_plan(t),
    decreases t.len(),
{
    if t.len() > 0 {
        let d = t.drop_last();
        lemma_restore_steps(d);
        assert(t.map_values(|s: AfterSnapV| s.restore_ops()) =~= d.map_values(
            |s: AfterSnapV| s.restore_ops(),
        ).push(t.last().restore_ops()));
        lemma_flat_push(d.map_values(|s: AfterSnapV| s.restore_ops()), t.last().restore_ops());
    } else {
        assert(t.map_values(|s: AfterSnapV| s.restore_ops()) =~= Seq::<Seq<FsOpV>>::empty());
    }
}

/// Reversing `a + b` reverses `b`, then `a`.
pub proof fn lemma_reversal_plan_concat(a: Seq<EffectV>, b: Seq<EffectV>)
    ensures
        reversal_plan(a + b) == reversal_plan(b) + reversal_plan(a),
    decreases b.len(),
{
    if b.len() == 0 {
        assert(a + b =~= a);
        assert(reversal_plan(b) + reversal_plan(a) =~= reversal_plan(a));
    } else {
        assert((a + b).drop_last() =~= a + b.drop_last());
        assert((a + b).last() == b.last());
        lemma_reversal_plan_concat(a, b.drop_last());
        assert(reversal_plan(a + b) =~= b.last().inverse_ops() + (reversal_plan(b.drop_last())
            + reversal_plan(a)));
    }
}

/// A consistent tree: every ancestor of a present path is a directory.
pub open spec fn well_formed(fs: Tree) -> bool {
    forall|k: Seq<Seq<char>>, j: int|
        #![trigger fs.contains_key(k), k.take(j)]
        fs.contains_key(k) && 1 <= j < k.len() ==> fs.contains_key(k.take(j)) && fs[k.take(j)] is Dir
}

/// A path a capture never descends into: the project's own `.undo`
/// directory, or one with an ignored name.
pub open spec fn skipped_key(workdir: Seq<char>, k: Seq<Seq<char>>) -> bool {
    k == components(undo_root(workdir)) || is_ignored_name(k.last())
}

/// `k` lies at or below `c` and no path between them is skipped.
pub open spec fn in_scope(workdir: Seq<char>, c: Seq<Seq<char>>, k: Seq<Seq<char>>) -> bool {
    &&& at_or_below(k, c)
    &&& forall|j: int| c.len() < j <= k.len() ==> !skipped_key(workdir, #[trigger] k.take(j))
}

/// `a` and `b` hold the same at `k`.
pub open spec fn agrees(a: Tree, b: Tree, k: Seq<Seq<char>>) -> bool {
    &&& a.contains_key(k) == b.contains_key(k)
    &&& a.contains_key(k) ==> a[k] == b[k]
}

/// The path a capture is of.
pub open spec fn key_of(cap: Capture) -> Seq<Seq<char>> {
    match cap.effect().fs_path() {
        Some(p) => components(p),
        None => seq![],
    }
}

/// One of the first `n` children is of `kx`.
pub open spec fn among(kids: Seq<Capture>, n: int, kx: Seq<Seq<char>>) -> bool {
    exists|i: int| 0 <= i < n && #[trigger] key_of(kids[i]) == kx
}

/// `cap` is what capturing `c` records when the tree is `fs0`: a missing
/// path, a file with its blob and metadata, a symlink with its target, or
/// a directory with its mode, the names of its children that are not
/// skipped, and a capture of each of those children.
pub open spec fn captures(workdir: Seq<char>, fs0: Tree, c: Seq<Seq<char>>, cap: Capture) -> bool
    decreases cap,
{
    &&& c.len() >= 1
    &&& key_of(cap) == c
    &&& match cap {
        Capture::Leaf { effect } => match effect {
            EffectV::PathCreate { .. } => !fs0.contains_key(c),
            EffectV::File { prev_blob, meta, .. } => fs0.contains_key(c) && fs0[c] == restored_file(
                prev_blob,
                meta,
            ),
            EffectV::Symlink { target, .. } => fs0.contains_key(c) && fs0[c] == (Node::Link {
                target,
            }),
            _ => false,
        },
        Capture::Tree { effect, kids } => match effect {
            EffectV::Dir { mode, entries, .. } => {
                &&& mode != 0
                &&& fs0.contains_key(c)
                &&& fs0[c] == (Node::Dir { mode: Some(mode) })
                &&& forall|x: Seq<char>|
                    #![trigger entries.contains(x)]
                    #![trigger fs0.contains_key(c.push(x))]
                    entries.contains(x) <==> (fs0.contains_key(c.push(x)) && !skipped_key(
                        workdir,
                        c.push(x),
                    ))
                &&& forall|x: Seq<char>| #[trigger] entries.contains(x) ==> among(kids, kids.len() as int, c.push(x))
                &&& forall|i: int|
                    0 <= i < kids.len() ==> key_of(#[trigger] kids[i]) == c.push(key_of(kids[i]).last())
                        && entries.contains(key_of(kids[i]).last())
                &&& forall|i: int, j: int|
                    0 <= i < j < kids.len() ==> key_of(#[trigger] kids[i]) != key_of(#[trigger] kids[j])
                &&& forall|i: int| 0 <= i < kids.len() ==> captures(workdir, fs0, key_of(kids[i]), #[trigger] kids[i])
            },
            _ => false,
        },
    }
}

/// The state `fs` does not stand in the way of restoring `cap`: every path
/// captured as a directory is a directory or missing, and below a path
/// captured otherwise that holds a file or nothing, nothing lies.
pub open spec fn fits(fs: Tree, cap: Capture) -> bool
    decreases cap,
{
    match cap {
        Capture::Leaf { .. } => clean_at(fs, key_of(cap)),
        Capture::Tree { kids, .. } => {
            &&& (!fs.contains_key(key_of(cap)) || fs[key_of(cap)] is Dir)
            &&& forall|i: int| 0 <= i < kids.len() ==> fits(fs, #[trigger] kids[i])
        },
    }
}

proof fn lemma_below_trans(k: Seq<Seq<char>>, m: Seq<Seq<char>>, c: Seq<Seq<char>>)
    requires
        at_or_below(k, m),
        at_or_below(m, c),
    ensures
        at_or_below(k, c),
{
    assert(k.subrange(0, c.len() as int) =~= k.subrange(0, m.len() as int).subrange(0, c.len() as int));
}

/// Whether `fs` fits `cap` depends only on what lies at or below its path.
proof fn lemma_fits_stable(
    workdir: Seq<char>,
    fs0: Tree,
    c: Seq<Seq<char>>,
    cap: Capture,
    fs: Tree,
    fs2: Tree,
)
    requires
        captures(workdir, fs0, c, cap),
        fits(fs, cap),
        forall|k: Seq<Seq<char>>| at_or_below(k, c) ==> #[trigger] agrees(fs, fs2, k),
    ensures
        fits(fs2, cap),
    decreases cap,
{
    assert(c.subrange(0, c.len() as int) =~= c);
    assert(agrees(fs, fs2, c));
    match cap {
        Capture::Leaf { .. } => {
            if !fs2.contains_key(c) || fs2[c] is File {
                assert(nothing_below(fs, c));
                assert forall|k: Seq<Seq<char>>| #[trigger] fs2.contains_key(k) && at_or_below(k, c)
                    implies k == c by {
                    assert(agrees(fs, fs2, k));
                }
            }
        },
        Capture::Tree { kids, .. } => {
            assert forall|i: int| 0 <= i < kids.len() implies fits(fs2, #[trigger] kids[i]) by {
                let kc = key_of(kids[i]);
                assert(kc == c.push(kc.last()));
                assert(kc.subrange(0, c.len() as int) =~= c);
                assert forall|k: Seq<Seq<char>>| at_or_below(k, kc) implies #[trigger] agrees(
                    fs,
                    fs2,
                    k,
                ) by {
                    lemma_below_trans(k, kc, c);
                }
                lemma_fits_stable(workdir, fs0, kc, kids[i], fs, fs2);
            }
        },
    }
}

/// What restoring `c` takes `fs` to `fs2` with: every path in scope of `c`
/// is as in `fs0`, nothing beside `c` and its ancestors changed, and the
/// ancestors are directories where present (those present before are
/// unchanged).
pub open spec fn restored(
    workdir: Seq<char>,
    fs0: Tree,
    fs: Tree,
    fs2: Tree,
    c: Seq<Seq<char>>,
) -> bool {
    &&& forall|k: Seq<Seq<char>>| #[trigger] in_scope(workdir, c, k) ==> agrees(fs2, fs0, k)
    &&& forall|k: Seq<Seq<char>>|
        !at_or_below(k, c) && !above(k, c) ==> #[trigger] agrees(fs2, fs, k)
    &&& forall|k: Seq<Seq<char>>|
        #[trigger] above(k, c) ==> (fs.contains_key(k) ==> fs2.contains_key(k) && fs2[k] == fs[k])
            && (fs2.contains_key(k) ==> fs2[k] is Dir)
}

/// What restoring the first `n` children of `c` takes `fs` to `fs2` with.
pub open spec fn kids_restored(
    workdir: Seq<char>,
    fs0: Tree,
    fs: Tree,
    fs2: Tree,
    c: Seq<Seq<char>>,
    kids: Seq<Capture>,
    n: int,
) -> bool {
    &&& forall|i: int, k: Seq<Seq<char>>|
        0 <= i < n && #[trigger] in_scope(workdir, key_of(kids[i]), k) ==> agrees(fs2, fs0, k)
    &&& forall|k: Seq<Seq<char>>|
        at_or_below(k, c) && k.len() > c.len() && !among(kids, n, k.take(c.len() + 1 as int))
            ==> #[trigger] agrees(fs2, fs, k)
    &&& forall|k: Seq<Seq<char>>|
        !at_or_below(k, c) && !above(k, c) ==> #[trigger] agrees(fs2, fs, k)
    &&& forall|k: Seq<Seq<char>>|
        #![trigger fs.contains_key(k)]
        #![trigger fs2.contains_key(k)]
        (k == c || above(k, c)) ==> (fs.contains_key(k) ==> fs2.contains_key(k) && fs2[k] == fs[k])
            && (fs2.contains_key(k) ==> fs2[k] is Dir)
}

proof fn lemma_reversal_plan_one(e: EffectV)
    ensures
        reversal_plan(seq![e]) == e.inverse_ops(),
{
    reveal_with_fuel(reversal_plan, 2);
    assert(seq![e].drop_last() =~= Seq::<EffectV>::empty());
    assert(reversal_plan(seq![e]) =~= e.inverse_ops());
}

/// Rolling back the capture of `c`, newest effect first, puts back all of
/// `c` that the capture covers.
proof fn lemma_restore(workdir: Seq<char>, fs0: Tree, c: Seq<Seq<char>>, cap: Capture, fs: Tree)
    requires
        well_formed(fs0),
        captures(workdir, fs0, c, cap),
        dirs_clear(fs, c, c.len() - 1),
        fits(fs, cap),
    ensures
        apply_ops(workdir, fs, reversal_plan(flatten(cap))) is Some,
        restored(workdir, fs0, fs, apply_ops(workdir, fs, reversal_plan(flatten(cap)))->0, c),
    decreases cap, 1int, 0int,
{
    assert(c.subrange(0, c.len() as int) =~= c);
    match cap {
        Capture::Leaf { effect } => {
            lemma_reversal_plan_one(effect);
            match effect {
                EffectV::PathCreate { path } => {
                    lemma_remove_op(workdir, fs, path);
                    let fs2 = apply_ops(workdir, fs, reversal_plan(flatten(cap)))->0;
                    assert forall|k: Seq<Seq<char>>| #[trigger] in_scope(workdir, c, k) implies agrees(
                        fs2,
                        fs0,
                        k,
                    ) by {
                        if k.len() == c.len() {
                            assert(k =~= c);
                        }
                        if fs0.contains_key(k) && k != c {
                            assert(k.take(c.len() as int) == c);
                        }
                    }
                    assert forall|k: Seq<Seq<char>>| #[trigger] above(k, c) implies (fs.contains_key(k)
                        ==> fs2.contains_key(k) && fs2[k] == fs[k]) && (fs2.contains_key(k) ==> fs2[k] is Dir) by {
                        assert(c.take(k.len() as int) == k);
                    }
                },
                EffectV::File { path, prev_blob, meta } => {
                    lemma_file_ops(workdir, fs, path, prev_blob, meta);
                    let fs2 = apply_ops(workdir, fs, reversal_plan(flatten(cap)))->0;
                    assert forall|k: Seq<Seq<char>>| #[trigger] in_scope(workdir, c, k) implies agrees(
                        fs2,
                        fs0,
                        k,
                    ) by {
                        if k.len() == c.len() {
                            assert(k =~= c);
                        }
                        if fs0.contains_key(k) && k != c {
                            assert(k.take(c.len() as int) == c);
                        }
                    }
                    assert forall|k: Seq<Seq<char>>| #[trigger] above(k, c) implies (fs.contains_key(k)
                        ==> fs2.contains_key(k) && fs2[k] == fs[k]) && (fs2.contains_key(k) ==> fs2[k] is Dir) by {
                        assert(c.take(k.len() as int) == k);
                    }
                },
                EffectV::Symlink { path, target } => {
                    assert(effect.inverse_ops() == symlink_plan(path, target));
                    lemma_symlink_ops(workdir, fs, path, target);
                    let fs2 = apply_ops(workdir, fs, reversal_plan(flatten(cap)))->0;
                    assert forall|k: Seq<Seq<char>>| #[trigger] in_scope(workdir, c, k) implies agrees(
                        fs2,
                        fs0,
                        k,
                    ) by {
                        if k.len() == c.len() {
                            assert(k =~= c);
                        }
                        if fs0.contains_key(k) && k != c {
                            assert(k.take(c.len() as int) == c);
                        }
                    }
                    assert forall|k: Seq<Seq<char>>| #[trigger] above(k, c) implies (fs.contains_key(k)
                        ==> fs2.contains_key(k) && fs2[k] == fs[k]) && (fs2.contains_key(k) ==> fs2[k] is Dir) by {
                        assert(c.take(k.len() as int) == k);
                    }
                },
                _ => {},
            }
        },
        Capture::Tree { effect, kids } => {
            let n = kids.len() as int;
            let fk = flatten_kids(kids, n);
            assert(flatten(cap) == seq![effect] + fk);
            lemma_reversal_plan_concat(seq![effect], fk);
            lemma_reversal_plan_one(effect);
            let (path, mode, entries) = match effect {
                EffectV::Dir { path, mode, entries } => (path, mode, entries),
                _ => (seq![], 0u32, seq![]),
            };
            assert(effect == EffectV::Dir { path, mode, entries });
            assert(effect.inverse_ops() =~= dir_plan(path, mode, Some(entries)));
            let plan = reversal_plan(flatten(cap));
            assert(plan == reversal_plan(fk) + dir_plan(path, mode, Some(entries)));
            lemma_apply_concat(workdir, fs, reversal_plan(fk), dir_plan(path, mode, Some(entries)));
            assert(c.take(c.len() as int) =~= c);
            assert(dirs_clear(fs, c, c.len() as int));
            assert forall|i: int| 0 <= i < n implies fits(fs, #[trigger] kids[i]) by {}
            lemma_restore_kids(workdir, fs0, c, cap, n, fs);
            let fs1 = apply_ops(workdir, fs, reversal_plan(fk))->0;
            assert(dirs_clear(fs1, c, c.len() as int)) by {
                assert forall|i: int| 1 <= i <= c.len() implies (fs1.contains_key(#[trigger] c.take(i))
                    ==> fs1[c.take(i)] is Dir) by {
                    let a = c.take(i);
                    if i < c.len() {
                        assert(is_prefix_of(a, c));
                        assert(above(a, c));
                    }
                    assert(a == c || above(a, c));
                    assert(fs1.contains_key(a) ==> fs1[a] is Dir);
                }
            }
            lemma_dir_ops(workdir, fs1, path, mode, Some(entries));
            let fs2 = apply_ops(workdir, fs, plan)->0;
            assert(fs2 == apply_ops(workdir, fs1, dir_plan(path, mode, Some(entries)))->0);
            assert forall|k: Seq<Seq<char>>| #[trigger] in_scope(workdir, c, k) implies agrees(
                fs2,
                fs0,
                k,
            ) by {
                if k.len() == c.len() {
                    assert(k =~= c);
                } else {
                    let kx = k.take(c.len() + 1 as int);
                    assert(kx.take(c.len() as int) =~= k.take(c.len() as int));
                    assert(k.take(c.len() as int) == c);
                    assert(kx =~= c.push(kx.last()));
                    assert(!skipped_key(workdir, kx));
                    if among(kids, n, kx) {
                        let i = choose|i: int| 0 <= i < n && #[trigger] key_of(kids[i]) == kx;
                        assert(key_of(kids[i]) == c.push(key_of(kids[i]).last()));
                        assert(entries.contains(kx.last()));
                        assert(k.subrange(0, kx.len() as int) =~= kx);
                        assert forall|j: int| kx.len() < j <= k.len() implies !skipped_key(
                            workdir,
                            #[trigger] k.take(j),
                        ) by {}
                        assert(in_scope(workdir, key_of(kids[i]), k));
                        assert(agrees(fs1, fs0, k));
                        assert(kept_child(workdir, kx, entries));
                    } else {
                        if entries.contains(kx.last()) {
                            assert(among(kids, n, c.push(kx.last())));
                        }
                        assert(!fs0.contains_key(c.push(kx.last())));
                        if k.len() == c.len() + 1 {
                            assert(k =~= kx);
                        }
                        if fs0.contains_key(k) && k != kx {
                            assert(fs0.contains_key(k.take(c.len() + 1 as int)));
                        }
                        assert(!kept_child(workdir, kx, entries));
                    }
                }
            }
            assert forall|k: Seq<Seq<char>>| !at_or_below(k, c) && !above(k, c) implies #[trigger] agrees(
                fs2,
                fs,
                k,
            ) by {
                assert(agrees(fs1, fs, k));
            }
            assert forall|k: Seq<Seq<char>>| #[trigger] above(k, c) implies (fs.contains_key(k)
                ==> fs2.contains_key(k) && fs2[k] == fs[k]) && (fs2.contains_key(k) ==> fs2[k] is Dir) by {
                assert(c.take(k.len() as int) == k);
                if fs.contains_key(k) {
                    assert(fs1.contains_key(k));
                }
            }
        },
    }
}

/// Rolling back the captures of the first `n` children of `c`, the last
/// one first.
proof fn lemma_restore_kids(
    workdir: Seq<char>,
    fs0: Tree,
    c: Seq<Seq<char>>,
    cap: Capture,
    n: int,
    fs: Tree,
)
    requires
        well_formed(fs0),
        captures(workdir, fs0, c, cap),
        cap is Tree,
        0 <= n <= cap->Tree_kids.len(),
        dirs_clear(fs, c, c.len() as int),
        forall|i: int| 0 <= i < n ==> fits(fs, #[trigger] cap->Tree_kids[i]),
    ensures
        apply_ops(workdir, fs, reversal_plan(flatten_kids(cap->Tree_kids, n))) is Some,
        kids_restored(
            workdir,
            fs0,
            fs,
            apply_ops(workdir, fs, reversal_plan(flatten_kids(cap->Tree_kids, n)))->0,
            c,
            cap->Tree_kids,
            n,
        ),
    decreases cap, 0int, n,
{
    let kids = cap->Tree_kids;
    if n == 0 {
        assert(flatten_kids(kids, 0) =~= Seq::<EffectV>::empty());
        assert(reversal_plan(flatten_kids(kids, 0)) =~= Seq::<FsOpV>::empty());
        assert(apply_ops(workdir, fs, Seq::<FsOpV>::empty()) == Some(fs));
        let fs2 = fs;
        assert forall|k: Seq<Seq<char>>|
            at_or_below(k, c) && k.len() > c.len() && !among(kids, 0, k.take(c.len() + 1 as int))
                implies #[trigger] agrees(fs2, fs, k) by {}
        assert forall|k: Seq<Seq<char>>| !at_or_below(k, c) && !above(k, c) implies #[trigger] agrees(
            fs2,
            fs,
            k,
        ) by {}
        assert(c.take(c.len() as int) =~= c);
        assert forall|k: Seq<Seq<char>>| (k == c || above(k, c)) && #[trigger] fs2.contains_key(k)
            implies fs2[k] is Dir by {
            assert(c.take(k.len() as int) =~= k);
        }
        return;
    }
    let kid = kids[n - 1];
    let kc = key_of(kid);
    assert(kc == c.push(kc.last()));
    assert(captures(workdir, fs0, kc, kid));
    assert(kc.subrange(0, c.len() as int) =~= c);
    let a = flatten_kids(kids, n - 1);
    let b = flatten(kid);
    assert(flatten_kids(kids, n) == a + b);
    lemma_reversal_plan_concat(a, b);
    lemma_apply_concat(workdir, fs, reversal_plan(b), reversal_plan(a));
    assert forall|i: int| 1 <= i <= kc.len() - 1 implies (fs.contains_key(#[trigger] kc.take(i))
        ==> fs[kc.take(i)] is Dir) by {
        assert(kc.take(i) =~= c.take(i));
    }
    lemma_restore(workdir, fs0, kc, kid, fs);
    let fs1 = apply_ops(workdir, fs, reversal_plan(b))->0;
    assert forall|k: Seq<Seq<char>>| (k == c || above(k, c)) implies above(k, kc) by {
        if k == c {
            assert(kc.subrange(0, k.len() as int) =~= k);
        } else {
            assert(c.subrange(0, k.len() as int) == k);
            assert(kc.subrange(0, k.len() as int) =~= c.subrange(0, k.len() as int));
        }
    }
    assert forall|i: int| 1 <= i <= c.len() implies (fs1.contains_key(#[trigger] c.take(i))
        ==> fs1[c.take(i)] is Dir) by {
        let p = c.take(i);
        if i < c.len() {
            assert(c.subrange(0, p.len() as int) =~= p);
            assert(above(p, c));
        } else {
            assert(p =~= c);
        }
        assert(above(p, kc));
    }
    assert forall|i: int| 0 <= i < n - 1 implies fits(fs1, #[trigger] kids[i]) by {
        let ki = key_of(kids[i]);
        assert(ki == c.push(ki.last()));
        assert(ki != kc);
        assert forall|k: Seq<Seq<char>>| at_or_below(k, ki) implies #[trigger] agrees(fs, fs1, k) by {
            if at_or_below(k, kc) {
                assert(ki =~= k.subrange(0, ki.len() as int));
                assert(kc =~= k.subrange(0, kc.len() as int));
            }
            assert(!above(k, kc));
            assert(agrees(fs1, fs, k));
        }
        lemma_fits_stable(workdir, fs0, ki, kids[i], fs, fs1);
    }
    lemma_restore_kids(workdir, fs0, c, cap, n - 1, fs1);
    let fs2 = apply_ops(workdir, fs1, reversal_plan(a))->0;
    assert(apply_ops(workdir, fs, reversal_plan(flatten_kids(kids, n)))->0 == fs2);
    assert forall|i: int, k: Seq<Seq<char>>|
        0 <= i < n && #[trigger] in_scope(workdir, key_of(kids[i]), k) implies agrees(fs2, fs0, k) by {
        if i == n - 1 {
            assert(agrees(fs1, fs0, k));
            lemma_below_trans(k, kc, c);
            assert(k.subrange(0, kc.len() as int) == kc);
            assert(k.take(c.len() + 1 as int) == kc);
            if among(kids, n - 1, kc) {
                let j = choose|j: int| 0 <= j < n - 1 && #[trigger] key_of(kids[j]) == kc;
                assert(key_of(kids[j]) != key_of(kids[n - 1]));
            }
            assert(agrees(fs2, fs1, k));
        }
    }
    assert forall|k: Seq<Seq<char>>|
        at_or_below(k, c) && k.len() > c.len() && !among(kids, n, k.take(c.len() + 1 as int))
            implies #[trigger] agrees(fs2, fs, k) by {
        let kx = k.take(c.len() + 1 as int);
        if among(kids, n - 1, kx) {
            let j = choose|j: int| 0 <= j < n - 1 && #[trigger] key_of(kids[j]) == kx;
            assert(among(kids, n, kx));
        }
        assert(agrees(fs2, fs1, k));
        if at_or_below(k, kc) {
            assert(kc =~= k.subrange(0, kc.len() as int));
            assert(among(kids, n, kx));
        }
        assert(!above(k, kc));
        assert(agrees(fs1, fs, k));
    }
    assert forall|k: Seq<Seq<char>>| !at_or_below(k, c) && !above(k, c) implies #[trigger] agrees(
        fs2,
        fs,
        k,
    ) by {
        assert(agrees(fs2, fs1, k));
        if at_or_below(k, kc) {
            lemma_below_trans(k, kc, c);
        }
        if above(k, kc) {
            assert(kc.subrange(0, k.len() as int) == k);
            assert(c.subrange(0, k.len() as int) =~= kc.subrange(0, k.len() as int));
            if k.len() == c.len() {
                assert(k =~= c);
            } else {
                assert(above(k, c));
            }
        }
        assert(agrees(fs1, fs, k));
    }
    assert forall|k: Seq<Seq<char>>|
        (k == c || above(k, c)) implies (fs.contains_key(k) ==> fs2.contains_key(k) && fs2[k] == fs[k])
            && (fs2.contains_key(k) ==> fs2[k] is Dir) by {
        assert(above(k, kc));
        if fs.contains_key(k) {
            assert(fs1.contains_key(k));
        }
    }
}

/// Every path `cap` captured as a directory is, in `fs`, a directory or
/// missing.
pub open spec fn dirs_stay_dirs(fs: Tree, cap: Capture) -> bool
    decreases cap,
{
    match cap {
        Capture::Leaf { .. } => true,
        Capture::Tree { kids, .. } => {
            &&& (!fs.contains_key(key_of(cap)) || fs[key_of(cap)] is Dir)
            &&& forall|i: int| 0 <= i < kids.len() ==> dirs_stay_dirs(fs, #[trigger] kids[i])
        },
    }
}

/// In a consistent tree where captured directories stayed directories,
/// nothing stands in the way of restoring the capture.
pub proof fn lemma_fits(workdir: Seq<char>, fs0: Tree, fs: Tree, cap: Capture)
    requires
        captures(workdir, fs0, key_of(cap), cap),
        well_formed(fs),
        dirs_stay_dirs(fs, cap),
    ensures
        fits(fs, cap),
    decreases cap,
{
    match cap {
        Capture::Leaf { .. } => {
            let c = key_of(cap);
            if !fs.contains_key(c) || fs[c] is File {
                assert forall|k: Seq<Seq<char>>| #[trigger] fs.contains_key(k) && at_or_below(k, c)
                    implies k == c by {
                    if k.len() == c.len() {
                        assert(k =~= c);
                    } else {
                        assert(k.take(c.len() as int) == c);
                    }
                }
            }
        },
        Capture::Tree { kids, .. } => {
            assert forall|i: int| 0 <= i < kids.len() implies fits(fs, #[trigger] kids[i]) by {
                lemma_fits(workdir, fs0, fs, kids[i]);
            }
        },
    }
}

/// The effects of the first `n` captures, one capture after the other.
pub open spec fn flatten_captures(caps: Seq<Capture>, n: int) -> Seq<EffectV>
    decreases n,
{
    if n <= 0 || n > caps.len() {
        seq![]
    } else {
        flatten_captures(caps, n - 1) + flatten(caps[n - 1])
    }
}

/// Neither of two captured paths lies at or below the other.
pub open spec fn unrelated(caps: Seq<Capture>) -> bool {
    forall|i: int, j: int|
        0 <= i < caps.len() && 0 <= j < caps.len() && i != j ==> !at_or_below(
            key_of(#[trigger] caps[i]),
            key_of(#[trigger] caps[j]),
        )
}

/// `k` lies neither at or below nor above the paths of the first `n`
/// captures.
pub open spec fn beside_all(caps: Seq<Capture>, n: int, k: Seq<Seq<char>>) -> bool {
    forall|i: int|
        0 <= i < n ==> !at_or_below(k, key_of(#[trigger] caps[i])) && !above(k, key_of(caps[i]))
}

/// Rolling back the first `n` of several captures of unrelated paths,
/// newest first: each path is put back as its own capture found it.
pub proof fn lemma_restore_all(
    workdir: Seq<char>,
    olds: Seq<Tree>,
    caps: Seq<Capture>,
    n: int,
    fs: Tree,
)
    requires
        0 <= n <= caps.len(),
        olds.len() == caps.len(),
        unrelated(caps),
        forall|i: int|
            0 <= i < caps.len() ==> well_formed(#[trigger] olds[i]) && captures(
                workdir,
                olds[i],
                key_of(caps[i]),
                caps[i],
            ),
        forall|i: int|
            0 <= i < n ==> dirs_clear(fs, key_of(#[trigger] caps[i]), key_of(caps[i]).len() - 1)
                && fits(fs, caps[i]),
    ensures
        apply_ops(workdir, fs, reversal_plan(flatten_captures(caps, n))) is Some,
        forall|i: int, k: Seq<Seq<char>>|
            0 <= i < n && #[trigger] in_scope(workdir, key_of(caps[i]), k) ==> agrees(
                apply_ops(workdir, fs, reversal_plan(flatten_captures(caps, n)))->0,
                olds[i],
                k,
            ),
        forall|k: Seq<Seq<char>>|
            beside_all(caps, n, k) ==> #[trigger] agrees(
                apply_ops(workdir, fs, reversal_plan(flatten_captures(caps, n)))->0,
                fs,
                k,
            ),
    decreases n,
{
    if n == 0 {
        assert(flatten_captures(caps, 0) =~= Seq::<EffectV>::empty());
        assert(reversal_plan(flatten_captures(caps, 0)) =~= Seq::<FsOpV>::empty());
        assert(apply_ops(workdir, fs, Seq::<FsOpV>::empty()) == Some(fs));
        return;
    }
    let last = caps[n - 1];
    let c = key_of(last);
    assert(well_formed(olds[n - 1]));
    let a = flatten_captures(caps, n - 1);
    let b = flatten(last);
    assert(flatten_captures(caps, n) == a + b);
    lemma_reversal_plan_concat(a, b);
    lemma_apply_concat(workdir, fs, reversal_plan(b), reversal_plan(a));
    lemma_restore(workdir, olds[n - 1], c, last, fs);
    let fs1 = apply_ops(workdir, fs, reversal_plan(b))->0;
    assert forall|i: int| 0 <= i < n - 1 implies dirs_clear(
        fs1,
        key_of(#[trigger] caps[i]),
        key_of(caps[i]).len() - 1,
    ) && fits(fs1, caps[i]) by {
        let ki = key_of(caps[i]);
        assert(dirs_clear(fs, ki, ki.len() - 1) && fits(fs, caps[i]));
        assert(!at_or_below(ki, c) && !at_or_below(c, ki));
        assert forall|j: int| 1 <= j <= ki.len() - 1 implies (fs1.contains_key(#[trigger] ki.take(j))
            ==> fs1[ki.take(j)] is Dir) by {
            let x = ki.take(j);
            assert(ki.subrange(0, x.len() as int) =~= x);
            if at_or_below(x, c) {
                lemma_below_trans(ki, x, c);
            }
            if !above(x, c) {
                assert(agrees(fs1, fs, x));
            }
        }
        assert forall|k: Seq<Seq<char>>| at_or_below(k, ki) implies #[trigger] agrees(fs, fs1, k) by {
            assert(k.subrange(0, ki.len() as int) == ki);
            if at_or_below(k, c) {
                assert(k.subrange(0, c.len() as int) == c);
                if ki.len() <= c.len() {
                    assert(k.subrange(0, c.len() as int).subrange(0, ki.len() as int) =~= k.subrange(
                        0,
                        ki.len() as int,
                    ));
                    assert(c.subrange(0, ki.len() as int) == ki);
                    assert(at_or_below(c, ki));
                } else {
                    assert(k.subrange(0, ki.len() as int).subrange(0, c.len() as int) =~= k.subrange(
                        0,
                        c.len() as int,
                    ));
                    assert(ki.subrange(0, c.len() as int) == c);
                    assert(at_or_below(ki, c));
                }
            }
            if above(k, c) {
                assert(c.subrange(0, k.len() as int) == k);
                assert(c.subrange(0, ki.len() as int) =~= c.subrange(0, k.len() as int).subrange(
                    0,
                    ki.len() as int,
                ));
                assert(at_or_below(c, ki));
            }
            assert(agrees(fs1, fs, k));
        }
        lemma_fits_stable(workdir, olds[i], ki, caps[i], fs, fs1);
    }
    lemma_restore_all(workdir, olds, caps, n - 1, fs1);
    let fs2 = apply_ops(workdir, fs1, reversal_plan(a))->0;
    assert forall|i: int, k: Seq<Seq<char>>|
        0 <= i < n && #[trigger] in_scope(workdir, key_of(caps[i]), k) implies agrees(
        fs2,
        olds[i],
        k,
    ) by {
        if i == n - 1 {
            assert(agrees(fs1, olds[i], k));
            assert forall|j: int| 0 <= j < n - 1 implies !at_or_below(k, key_of(#[trigger] caps[j]))
                && !above(k, key_of(caps[j])) by {
                let kj = key_of(caps[j]);
                assert(!at_or_below(kj, c) && !at_or_below(c, kj));
                assert(k.subrange(0, c.len() as int) == c);
                if at_or_below(k, kj) {
                    assert(k.subrange(0, kj.len() as int) == kj);
                    if kj.len() <= c.len() {
                        assert(k.subrange(0, c.len() as int).subrange(0, kj.len() as int)
                            =~= k.subrange(0, kj.len() as int));
                        assert(at_or_below(c, kj));
                    } else {
                        assert(k.subrange(0, kj.len() as int).subrange(0, c.len() as int)
                            =~= k.subrange(0, c.len() as int));
                        assert(at_or_below(kj, c));
                    }
                }
                if above(k, kj) {
                    assert(kj.subrange(0, k.len() as int) == k);
                    assert(kj.subrange(0, k.len() as int).subrange(0, c.len() as int)
                        =~= kj.subrange(0, c.len() as int));
                    assert(at_or_below(kj, c));
                }
            }
            assert(beside_all(caps, n - 1, k));
            assert(agrees(fs2, fs1, k));
        }
    }
    assert forall|k: Seq<Seq<char>>| beside_all(caps, n, k) implies #[trigger] agrees(fs2, fs, k) by {
        assert forall|j: int| 0 <= j < n - 1 implies !at_or_below(k, key_of(#[trigger] caps[j]))
            && !above(k, key_of(caps[j])) by {
            assert(0 <= j < n);
            assert(beside_all(caps, n, k));
        }
        assert(beside_all(caps, n - 1, k));
        assert(agrees(fs2, fs1, k));
        assert(!at_or_below(k, c) && !above(k, c));
        assert(agrees(fs1, fs, k));
    }
}

// ---- redo ---------------------------------------------------------------

/// The snapshot `s` records what `fs` holds at its path.
pub open spec fn describes(fs: Tree, s: AfterSnapV) -> bool {
    let c = components(s.path);
    &&& c.len() >= 1
    &&& match s.state {
        AfterStateV::Absent => !fs.contains_key(c),
        AfterStateV::File { blob, meta } => fs.contains_key(c) && fs[c] == restored_file(blob, meta),
        AfterStateV::Symlink { target } => fs.contains_key(c) && fs[c] == (Node::Link { target }),
        AfterStateV::Dir { mode } => mode != 0 && fs.contains_key(c) && fs[c] == (Node::Dir {
            mode: Some(mode),
        }),
    }
}

/// The operations a redo runs for the snapshots `t`, in order.
pub open spec fn redo_plan(t: Seq<AfterSnapV>) -> Seq<FsOpV>
    decreases t.len(),
{
    if t.len() == 0 {
        seq![]
    } else {
        redo_plan(t.drop_last()) + t.last().restore_ops()
    }
}

/// Some snapshot of `t` is of the path `x`.
pub open spec fn covered(t: Seq<AfterSnapV>, x: Seq<Seq<char>>) -> bool {
    exists|j: int| 0 <= j < t.len() && components(#[trigger] t[j].path) == x
}

/// The snapshots `t`, in the order a redo runs them, can restore `fs` over
/// `g`: each describes `fs` at a path of its own; what comes back comes
/// before what is removed, and parents before children; every ancestor of
/// a path that comes back is snapshotted too or is a directory in `g`; and
/// no path that comes back as a directory holds a file or symlink in `g`.
pub open spec fn redo_ready(fs: Tree, g: Tree, t: Seq<AfterSnapV>) -> bool {
    &&& well_formed(fs)
    &&& forall|k: int| 0 <= k < t.len() ==> describes(fs, #[trigger] t[k])
    &&& forall|a: int, b: int|
        0 <= a < b < t.len() ==> components(#[trigger] t[a].path) != components(#[trigger] t[b].path)
    &&& forall|a: int, b: int|
        0 <= a < b < t.len() && !(#[trigger] t[b].state is Absent) ==> !(#[trigger] t[a].state is Absent)
            && components(t[a].path).len() <= components(t[b].path).len()
    &&& forall|k: int, x: Seq<Seq<char>>|
        0 <= k < t.len() && !(t[k].state is Absent) && #[trigger] above(x, components(#[trigger] t[k].path))
            ==> covered(t, x) || (g.contains_key(x) && g[x] is Dir)
    &&& forall|k: int|
        0 <= k < t.len() && #[trigger] t[k].state is Dir ==> (!g.contains_key(components(t[k].path))
            || g[components(t[k].path)] is Dir)
}

/// After the first `m` snapshots of `t` ran on `g`, giving `st`: their
/// paths hold what `fs` holds, the directories around that are not
/// snapshotted are as in `g`, and the paths still to come back as
/// directories hold directories or nothing.
pub open spec fn redo_inv(fs: Tree, g: Tree, t: Seq<AfterSnapV>, m: int, st: Tree) -> bool {
    &&& forall|k: int| 0 <= k < m ==> #[trigger] agrees(st, fs, components(t[k].path))
    &&& forall|k: int, x: Seq<Seq<char>>|
        0 <= k < t.len() && !(t[k].state is Absent) && #[trigger] above(x, components(#[trigger] t[k].path))
            && !covered(t, x) ==> agrees(st, g, x)
    &&& forall|k: int|
        m <= k < t.len() && #[trigger] t[k].state is Dir ==> (!st.contains_key(components(t[k].path))
            || st[components(t[k].path)] is Dir)
}

/// Before the `m`-th snapshot runs, when its path comes back, each of its
/// ancestors is a directory, and one that is snapshotted already holds
/// what `fs` holds.
proof fn lemma_redo_ancestors(fs: Tree, g: Tree, t: Seq<AfterSnapV>, m: int, st: Tree)
    requires
        redo_ready(fs, g, t),
        redo_inv(fs, g, t, m, st),
        0 <= m < t.len(),
        !(t[m].state is Absent),
    ensures
        forall|x: Seq<Seq<char>>|
            #[trigger] above(x, components(t[m].path)) ==> st.contains_key(x) && st[x] is Dir && (
            covered(t, x) ==> agrees(st, fs, x)),
{
    let ps = components(t[m].path);
    assert(describes(fs, t[m]));
    assert forall|x: Seq<Seq<char>>| #[trigger] above(x, ps) implies st.contains_key(x) && st[x] is Dir
        && (covered(t, x) ==> agrees(st, fs, x)) by {
        assert(ps.take(x.len() as int) =~= x);
        assert(fs.contains_key(ps));
        assert(fs.contains_key(x) && fs[x] is Dir);
        if covered(t, x) {
            let j = choose|j: int| 0 <= j < t.len() && components(#[trigger] t[j].path) == x;
            assert(describes(fs, t[j]));
            assert(t[j].state is Dir);
            if j > m {
                assert(components(t[m].path).len() <= components(t[j].path).len());
            }
            assert(j != m);
            assert(agrees(st, fs, components(t[j].path)));
        } else {
            assert(agrees(st, g, x));
        }
    }
}

/// Running the `m`-th snapshot keeps what the earlier ones restored and
/// restores its own path.
proof fn lemma_redo_step(workdir: Seq<char>, fs: Tree, g: Tree, t: Seq<AfterSnapV>, m: int, st: Tree)
    requires
        redo_ready(fs, g, t),
        redo_inv(fs, g, t, m, st),
        0 <= m < t.len(),
    ensures
        apply_ops(workdir, st, t[m].restore_ops()) is Some,
        redo_inv(fs, g, t, m + 1, apply_ops(workdir, st, t[m].restore_ops())->0),
{
    let s = t[m];
    let path = s.path;
    let ps = components(path);
    assert(describes(fs, s));
    assert(ps.subrange(0, ps.len() as int) =~= ps);
    let r = apply_ops(workdir, st, s.restore_ops());
    match s.state {
        AfterStateV::Absent => {
            assert(s.restore_ops() == seq![FsOpV::RemoveAny { path }]);
            lemma_remove_op(workdir, st, path);
            let st2 = r->0;
            assert forall|k: int| 0 <= k < m + 1 implies #[trigger] agrees(
                st2,
                fs,
                components(t[k].path),
            ) by {
                let q = components(t[k].path);
                if k < m {
                    assert(agrees(st, fs, q));
                    if at_or_below(q, ps) {
                        assert(describes(fs, t[k]));
                        if fs.contains_key(q) {
                            if q.len() == ps.len() {
                                assert(q =~= ps);
                            } else {
                                assert(q.take(ps.len() as int) == ps);
                            }
                        }
                    }
                }
            }
            assert forall|k: int, x: Seq<Seq<char>>|
                0 <= k < t.len() && !(t[k].state is Absent) && #[trigger] above(
                    x,
                    components(#[trigger] t[k].path),
                ) && !covered(t, x) implies agrees(st2, g, x) by {
                let q = components(t[k].path);
                assert(agrees(st, g, x));
                if at_or_below(x, ps) {
                    assert(q.subrange(0, x.len() as int) == x);
                    lemma_below_trans(q, x, ps);
                    assert(describes(fs, t[k]));
                    assert(fs.contains_key(q));
                    if q.len() == ps.len() {
                        assert(q =~= ps);
                        assert(covered(t, x) || k != m);
                    } else {
                        assert(q.take(ps.len() as int) == ps);
                    }
                    if x == ps {
                        assert(covered(t, x));
                    }
                }
            }
            assert forall|k: int|
                m + 1 <= k < t.len() && #[trigger] t[k].state is Dir implies (!st2.contains_key(
                components(t[k].path),
            ) || st2[components(t[k].path)] is Dir) by {
                assert(!(t[m].state is Absent));
            }
        },
        AfterStateV::File { blob, meta } => {
            assert(s.restore_ops() == file_ops(path, blob, meta));
            lemma_redo_ancestors(fs, g, t, m, st);
            assert forall|i: int| 1 <= i <= ps.len() - 1 implies (st.contains_key(#[trigger] ps.take(i))
                ==> st[ps.take(i)] is Dir) by {
                assert(ps.subrange(0, i) =~= ps.take(i));
                assert(above(ps.take(i), ps));
            }
            lemma_file_ops(workdir, st, path, blob, meta);
            let st2 = r->0;
            assert forall|k: int| 0 <= k < m + 1 implies #[trigger] agrees(
                st2,
                fs,
                components(t[k].path),
            ) by {
                let q = components(t[k].path);
                if k < m {
                    assert(agrees(st, fs, q));
                    if at_or_below(q, ps) {
                        if q.len() == ps.len() {
                            assert(q =~= ps);
                        }
                        assert(components(t[k].path).len() <= components(t[m].path).len());
                    } else if above(q, ps) {
                        assert(ps.take(q.len() as int) =~= q);
                        assert(st.contains_key(q));
                    }
                }
            }
            assert forall|k: int, x: Seq<Seq<char>>|
                0 <= k < t.len() && !(t[k].state is Absent) && #[trigger] above(
                    x,
                    components(#[trigger] t[k].path),
                ) && !covered(t, x) implies agrees(st2, g, x) by {
                let q = components(t[k].path);
                assert(agrees(st, g, x));
                if at_or_below(x, ps) {
                    if x.len() == ps.len() {
                        assert(x =~= ps);
                        assert(components(t[m].path) == x);
                        assert(covered(t, x));
                    }
                    assert(q.subrange(0, x.len() as int) == x);
                    lemma_below_trans(q, x, ps);
                    assert(describes(fs, t[k]));
                    assert(q.take(ps.len() as int) == ps);
                    assert(fs.contains_key(ps) && fs[ps] is Dir);
                } else if above(x, ps) {
                    assert(ps.take(x.len() as int) =~= x);
                    assert(st.contains_key(x));
                }
            }
            assert forall|k: int|
                m + 1 <= k < t.len() && #[trigger] t[k].state is Dir implies (!st2.contains_key(
                components(t[k].path),
            ) || st2[components(t[k].path)] is Dir) by {
                let q = components(t[k].path);
                assert(components(t[m].path).len() <= components(t[k].path).len());
                assert(q != ps);
                if at_or_below(q, ps) {
                    if q.len() == ps.len() {
                        assert(q =~= ps);
                    }
                    assert(describes(fs, t[k]));
                    assert(q.take(ps.len() as int) == ps);
                    assert(fs.contains_key(ps) && fs[ps] is Dir);
                }
            }
        },
        AfterStateV::Symlink { target } => {
            assert(s.restore_ops() =~= seq![FsOpV::RemoveAny { path }, FsOpV::Symlink { target, path }]);
            lemma_redo_ancestors(fs, g, t, m, st);
            assert forall|i: int| 1 <= i <= ps.len() - 1 implies (st.contains_key(#[trigger] ps.take(i))
                ==> st[ps.take(i)] is Dir) by {
                assert(ps.subrange(0, i) =~= ps.take(i));
                assert(above(ps.take(i), ps));
            }
            if ps.len() > 1 {
                assert(ps.drop_last() =~= ps.take(ps.len() - 1));
                assert(ps.subrange(0, ps.len() - 1) =~= ps.drop_last());
                assert(above(ps.drop_last(), ps));
                assert(st.contains_key(ps.drop_last()));
            }
            lemma_relink_ops(workdir, st, path, target);
            assert(r is Some);
            let st2 = r->0;
            assert forall|k: int| 0 <= k < m + 1 implies #[trigger] agrees(
                st2,
                fs,
                components(t[k].path),
            ) by {
                let q = components(t[k].path);
                if k < m {
                    assert(agrees(st, fs, q));
                    if at_or_below(q, ps) {
                        if q.len() == ps.len() {
                            assert(q =~= ps);
                        }
                        assert(components(t[k].path).len() <= components(t[m].path).len());
                    } else if above(q, ps) {
                        assert(ps.take(q.len() as int) =~= q);
                        assert(st.contains_key(q));
                    }
                }
            }
            assert forall|k: int, x: Seq<Seq<char>>|
                0 <= k < t.len() && !(t[k].state is Absent) && #[trigger] above(
                    x,
                    components(#[trigger] t[k].path),
                ) && !covered(t, x) implies agrees(st2, g, x) by {
                let q = components(t[k].path);
                assert(agrees(st, g, x));
                if at_or_below(x, ps) {
                    if x.len() == ps.len() {
                        assert(x =~= ps);
                        assert(components(t[m].path) == x);
                        assert(covered(t, x));
                    }
                    assert(q.subrange(0, x.len() as int) == x);
                    lemma_below_trans(q, x, ps);
                    assert(describes(fs, t[k]));
                    assert(q.take(ps.len() as int) == ps);
                    assert(fs.contains_key(ps) && fs[ps] is Dir);
                } else if above(x, ps) {
                    assert(ps.take(x.len() as int) =~= x);
                    assert(st.contains_key(x));
                }
            }
            assert forall|k: int|
                m + 1 <= k < t.len() && #[trigger] t[k].state is Dir implies (!st2.contains_key(
                components(t[k].path),
            ) || st2[components(t[k].path)] is Dir) by {
                let q = components(t[k].path);
                assert(components(t[m].path).len() <= components(t[k].path).len());
                assert(q != ps);
                if at_or_below(q, ps) {
                    if q.len() == ps.len() {
                        assert(q =~= ps);
                    }
                    assert(describes(fs, t[k]));
                    assert(q.take(ps.len() as int) == ps);
                    assert(fs.contains_key(ps) && fs[ps] is Dir);
                }
            }
        },
        AfterStateV::Dir { mode } => {
            assert(s.restore_ops() =~= dir_plan(path, mode, None));
            lemma_redo_ancestors(fs, g, t, m, st);
            assert forall|i: int| 1 <= i <= ps.len() - 1 implies (st.contains_key(#[trigger] ps.take(i))
                ==> st[ps.take(i)] is Dir) by {
                assert(ps.subrange(0, i) =~= ps.take(i));
                assert(above(ps.take(i), ps));
            }
            assert(ps.take(ps.len() as int) =~= ps);
            lemma_dir_ops(workdir, st, path, mode, None);
            let st2 = r->0;
            assert forall|k: int| 0 <= k < m + 1 implies #[trigger] agrees(
                st2,
                fs,
                components(t[k].path),
            ) by {
                let q = components(t[k].path);
                if k < m {
                    assert(agrees(st, fs, q));
                    if at_or_below(q, ps) {
                        if q.len() == ps.len() {
                            assert(q =~= ps);
                        }
                        assert(components(t[k].path).len() <= components(t[m].path).len());
                    } else if above(q, ps) {
                        assert(ps.take(q.len() as int) =~= q);
                        assert(st.contains_key(q));
                    }
                }
            }
            assert forall|k: int, x: Seq<Seq<char>>|
                0 <= k < t.len() && !(t[k].state is Absent) && #[trigger] above(
                    x,
                    components(#[trigger] t[k].path),
                ) && !covered(t, x) implies agrees(st2, g, x) by {
                let q = components(t[k].path);
                assert(agrees(st, g, x));
                if at_or_below(x, ps) {
                    if x.len() == ps.len() {
                        assert(x =~= ps);
                        assert(components(t[m].path) == x);
                        assert(covered(t, x));
                    }
                    assert(q.subrange(0, x.len() as int) == x);
                    lemma_below_trans(q, x, ps);
                    assert(describes(fs, t[k]));
                    assert(q.take(ps.len() as int) == ps);
                    assert(fs.contains_key(ps) && fs[ps] is Dir);
                } else if above(x, ps) {
                    assert(ps.take(x.len() as int) =~= x);
                    assert(st.contains_key(x));
                }
            }
            assert forall|k: int|
                m + 1 <= k < t.len() && #[trigger] t[k].state is Dir implies (!st2.contains_key(
                components(t[k].path),
            ) || st2[components(t[k].path)] is Dir) by {
                let q = components(t[k].path);
                assert(components(t[m].path).len() <= components(t[k].path).len());
                assert(q != ps);
                if at_or_below(q, ps) {
                    if q.len() == ps.len() {
                        assert(q =~= ps);
                    }
                    assert(describes(fs, t[k]));
                    assert(q.take(ps.len() as int) == ps);
                    assert(fs.contains_key(ps) && fs[ps] is Dir);
                }
            }
        },
    }
}

/// Running the first `m` snapshots of `t` on `g`.
pub proof fn lemma_redo_prefix(workdir: Seq<char>, fs: Tree, g: Tree, t: Seq<AfterSnapV>, m: int)
    requires
        redo_ready(fs, g, t),
        0 <= m <= t.len(),
    ensures
        apply_ops(workdir, g, redo_plan(t.take(m))) is Some,
        redo_inv(fs, g, t, m, apply_ops(workdir, g, redo_plan(t.take(m)))->0),
    decreases m,
{
    if m == 0 {
        assert(t.take(0) =~= Seq::<AfterSnapV>::empty());
        assert(redo_plan(t.take(0)) =~= Seq::<FsOpV>::empty());
        assert(apply_ops(workdir, g, Seq::<FsOpV>::empty()) == Some(g));
    } else {
        lemma_redo_prefix(workdir, fs, g, t, m - 1);
        let st = apply_ops(workdir, g, redo_plan(t.take(m - 1)))->0;
        assert(t.take(m).drop_last() =~= t.take(m - 1));
        assert(t.take(m).last() == t[m - 1]);
        assert(redo_plan(t.take(m)) == redo_plan(t.take(m - 1)) + t[m - 1].restore_ops());
        lemma_apply_concat(workdir, g, redo_plan(t.take(m - 1)), t[m - 1].restore_ops());
        lemma_redo_step(workdir, fs, g, t, m - 1, st);
    }
}

} // verus!
