//! Properties that hold across operations of the history.

use vstd::prelude::*;
use crate::effect::EffectV;
use crate::journal::{
    consistent, last_checkpoint_id, lemma_rebuild_parts, StateV, capture_key, cp_id, effect_rows, lemma_cp_id_roundtrip, newly_captured, rebuild,
    spec_parse_cp, state_step, status_of, RowV, UndoV,
};
use crate::rollback::{
    effects_in, error_line, first_checkpoint_with, first_effect_on, last_checkpoint, redo_lines,
    arranged, depth, index_before, is_redo_order, lemma_rollback_index, redone, restores_first,
    rolled_back, rollback_index, rollback_lines, manual_line, FsOpV,
};
use crate::journal::{AfterSnapV, AfterStateV, RedoSlotV};
use crate::fsmodel::{
    above, ancestors_dirs, apply_ops, at_or_below, dir_plan, dirs_clear, kept_child, lemma_dir_ops,
    lemma_file_ops, lemma_relink_ops, lemma_remove_op, lemma_symlink_ops, nothing_below,
    parent_ready, restored_file, symlink_plan, unchanged_beside, Node, Tree,
};
use crate::meta::Meta;
use crate::diff::effect_diff;
use crate::paths::components;
use crate::roundtrip::{
    agrees, beside_all, captures, covered, describes, dirs_stay_dirs, fits, flatten_captures,
    in_scope, key_of, lemma_fits, lemma_redo_prefix, lemma_restore_all, redo_plan, redo_ready,
    reversal_plan, unrelated, well_formed, Capture,
};

verus! {

/// Every checkpoint id in `rows` that names a number names one at most `high`.
pub open spec fn high_covers(high: u64, rows: Seq<RowV>) -> bool {
    forall|i: int|
        0 <= i < rows.len() ==> (#[trigger] rows[i] matches RowV::Checkpoint { id, .. } ==> (
        spec_parse_cp(id) matches Some(n) ==> n <= high))
}

proof fn lemma_rebuild_high(h: u64, rows: Seq<RowV>)
    ensures
        rebuild(h, rows).checkpoint_high >= h,
        high_covers(rebuild(h, rows).checkpoint_high, rows),
    decreases rows.len(),
{
    if rows.len() > 0 {
        lemma_rebuild_high(h, rows.drop_last());
        let prev = rebuild(h, rows.drop_last());
        let st = rebuild(h, rows);
        assert(st == state_step(prev, rows.last()));
        assert forall|i: int| 0 <= i < rows.len() implies (#[trigger] rows[i] matches RowV::Checkpoint {
            id,
            ..
        } ==> (spec_parse_cp(id) matches Some(n) ==> n <= st.checkpoint_high)) by {
            if i < rows.len() - 1 {
                assert(rows[i] == rows.drop_last()[i]);
            }
        }
    }
}

/// Rebuilding the cache never lowers the checkpoint high-water mark.
pub proof fn law_rebuild_keeps_high_water(h: u64, rows: Seq<RowV>)
    ensures
        rebuild(h, rows).checkpoint_high >= h,
        high_covers(rebuild(h, rows).checkpoint_high, rows),
{
    lemma_rebuild_high(h, rows);
}

/// Checkpoint ids are never reused, even after a rollback: the next
/// checkpoint after rolling back to the checkpoint at `idx` gets an id that
/// differs from every checkpoint in the journal before the rollback, both
/// those kept and those removed.
pub proof fn law_no_checkpoint_id_reused_after_rollback(u: UndoV, idx: int, after: Seq<AfterSnapV>)
    requires
        0 <= idx < u.rows.len(),
        high_covers(u.state.checkpoint_high, u.rows),
        rolled_back(u, idx, after).state.checkpoint_high < u64::MAX,
    ensures
        ({
            let next = cp_id((rolled_back(u, idx, after).state.checkpoint_high + 1) as nat);
            forall|i: int|
                0 <= i < u.rows.len() ==> (#[trigger] u.rows[i] matches RowV::Checkpoint { id, .. }
                    ==> id != next)
        }),
{
    let v = rolled_back(u, idx, after);
    let h = v.state.checkpoint_high;
    lemma_rebuild_high(u.state.checkpoint_high, u.rows.take(idx + 1));
    lemma_cp_id_roundtrip((h + 1) as u64);
    assert forall|i: int| 0 <= i < u.rows.len() implies (#[trigger] u.rows[i] matches RowV::Checkpoint {
        id,
        ..
    } ==> id != cp_id((h + 1) as nat)) by {
        if let RowV::Checkpoint { id, .. } = u.rows[i] {
            if id == cp_id((h + 1) as nat) {
                assert(spec_parse_cp(id) == Some((h + 1) as u64));
            }
        }
    }
}

/// Rolling back to a checkpoint and then redoing gives back exactly the
/// journal there was before the rollback, with no redo pending.
pub proof fn law_redo_restores_journal(u: UndoV, target: Option<Seq<char>>, after: Seq<AfterSnapV>)
    requires
        rollback_index(u.rows, target) is Some,
    ensures
        ({
            let idx = rollback_index(u.rows, target)->0;
            let v = redone(rolled_back(u, idx, after));
            &&& v.rows == u.rows
            &&& v.redo == RedoSlotV::Absent
            &&& v.workdir == u.workdir
            &&& v.state == rebuild(
                rebuild(u.state.checkpoint_high, u.rows.take(idx + 1)).checkpoint_high,
                u.rows,
            )
        }),
{
    let idx = rollback_index(u.rows, target)->0;
    lemma_rollback_index(u.rows, target);
    assert(u.rows.take(idx + 1) + u.rows.skip(idx + 1) =~= u.rows);
}

/// Whether every effect row of `rows` has a distinct sequence number, none
/// above `top`.
pub open spec fn seqs_fresh(rows: Seq<RowV>, top: u64) -> bool {
    &&& forall|i: int| 0 <= i < rows.len() ==> (#[trigger] rows[i] matches RowV::Effect { seq, .. }
        ==> seq <= top)
    &&& forall|i: int, j: int|
        0 <= i < j < rows.len() ==> (#[trigger] rows[i] matches RowV::Effect { seq: a, .. } ==> (
        #[trigger] rows[j] matches RowV::Effect { seq: b, .. } ==> a != b))
}

/// Capturing never hands out a sequence number twice: if the journal's
/// numbers are distinct and at most the cached one, they still are after
/// the rows of a capture are appended.
pub proof fn law_capture_sequence_numbers_unique(
    rows: Seq<RowV>,
    seq0: u64,
    cp: Seq<char>,
    ts: u64,
    recorded: Seq<EffectV>,
)
    requires
        seqs_fresh(rows, seq0),
        seq0 + recorded.len() <= u64::MAX,
    ensures
        seqs_fresh(rows + effect_rows(seq0, cp, ts, recorded), (seq0 + recorded.len()) as u64),
{
    let all = rows + effect_rows(seq0, cp, ts, recorded);
    let top = (seq0 + recorded.len()) as u64;
    assert forall|i: int| 0 <= i < all.len() implies (#[trigger] all[i] matches RowV::Effect {
        seq,
        ..
    } ==> seq <= top) by {
        if i < rows.len() {
            assert(all[i] == rows[i]);
        }
    }
    assert forall|i: int, j: int| 0 <= i < j < all.len() implies (#[trigger] all[i] matches RowV::Effect {
        seq: a,
        ..
    } ==> (#[trigger] all[j] matches RowV::Effect { seq: b, .. } ==> a != b)) by {
        if j < rows.len() {
            assert(all[i] == rows[i] && all[j] == rows[j]);
        } else if i < rows.len() {
            assert(all[i] == rows[i]);
        }
    }
}

/// Capturing a path again under the same checkpoint records nothing: when
/// every key of a snapshot is already captured, no effect is recorded, so
/// the earliest snapshot is the one kept.
pub proof fn law_recapture_records_nothing(seen: Set<Seq<char>>, es: Seq<EffectV>)
    requires
        forall|k: int| 0 <= k < es.len() ==> seen.contains(capture_key(#[trigger] es[k])),
    ensures
        newly_captured(seen, es) == Seq::<EffectV>::empty(),
    decreases es.len(),
{
    if es.len() > 0 {
        assert forall|k: int| 0 <= k < es.drop_last().len() implies seen.contains(
            capture_key(#[trigger] es.drop_last()[k]),
        ) by {
            assert(es.drop_last()[k] == es[k]);
        }
        law_recapture_records_nothing(seen, es.drop_last());
        assert(seen.contains(capture_key(es[es.len() - 1])));
    }
}

/// Every reversed effect is accounted for exactly once in a rollback
/// report; an effect with no automatic reversal is always listed as
/// skipped, whatever its outcome says; and the report shows no failure
/// exactly when every reversible effect was reversed.
pub proof fn law_rollback_report_complete(
    effs: Seq<EffectV>,
    outs: Seq<Option<Seq<char>>>,
    k: int,
)
    requires
        0 <= k <= effs.len(),
        k <= outs.len(),
    ensures
        ({
            let (r, s, f) = rollback_lines(effs, outs, k);
            &&& r.len() + s.len() + f.len() == k
            &&& s == effs.take(k).filter(|e: EffectV| !e.is_reversible()).map_values(
                |e: EffectV| manual_line(e),
            )
            &&& (f.len() == 0 <==> forall|j: int|
                0 <= j < k ==> #[trigger] effs[j].is_reversible() ==> outs[j] is None)
        }),
    decreases k,
{
    if k > 0 {
        law_rollback_report_complete(effs, outs, k - 1);
        assert(effs.take(k).drop_last() =~= effs.take(k - 1));
        reveal(Seq::filter);
        assert(effs.take(k).filter(|e: EffectV| !e.is_reversible()) == {
            let prev = effs.take(k - 1).filter(|e: EffectV| !e.is_reversible());
            if !effs[k - 1].is_reversible() { prev.push(effs[k - 1]) } else { prev }
        });
    } else {
        assert(effs.take(0) =~= Seq::<EffectV>::empty());
        reveal(Seq::filter);
        assert(effs.take(0).filter(|e: EffectV| !e.is_reversible()) =~= Seq::<EffectV>::empty());
    }
}

/// An effect is reversed automatically exactly when it concerns a path.
pub proof fn law_reversible_iff_path(e: EffectV)
    ensures
        e.is_reversible() <==> e.fs_path() is Some,
        e.is_reversible() <==> e.revert_message() is Some,
{
}

/// A redo restores paths before it removes any; among restores, parents
/// (fewer components) come before children; among removals, children come
/// before parents; and otherwise the capture order is kept.
pub proof fn law_redo_order_parents_first(s: Seq<AfterSnapV>, p: Seq<int>, a: int, b: int)
    requires
        is_redo_order(s, p),
        0 <= a < b < p.len(),
    ensures
        ({
            let x = s[p[a]];
            let y = s[p[b]];
            &&& (x.state is Absent ==> y.state is Absent)
            &&& (!(x.state is Absent) && !(y.state is Absent) ==> depth(x.path) <= depth(y.path))
            &&& (x.state is Absent && y.state is Absent ==> depth(x.path) >= depth(y.path))
            &&& (!restores_first(x, y) && !restores_first(y, x) ==> p[a] < p[b])
        }),
{
    assert(index_before(s, p[a], p[b]));
}

/// Right after a checkpoint, the status shows that checkpoint and nothing
/// recorded since.
pub proof fn law_status_after_checkpoint(rows: Seq<RowV>, id: Seq<char>, label: Seq<char>, ts: u64)
    ensures
        status_of(rows.push(RowV::Checkpoint { id, label, ts })) == (
            Some((id, label)),
            Seq::<EffectV>::empty(),
        ),
{
    assert(rows.push(RowV::Checkpoint { id, label, ts }).drop_last() =~= rows);
}

/// Recording an effect shows it last in the status, after the effects
/// already listed.
pub proof fn law_status_after_record(rows: Seq<RowV>, r: RowV)
    requires
        r is Effect,
    ensures
        status_of(rows.push(r)).0 == status_of(rows).0,
        status_of(rows.push(r)).1 == status_of(rows).1.push(r->effect),
{
    assert(rows.push(r).drop_last() =~= rows);
}

/// Where the cache agrees with the journal, its current checkpoint is the
/// last checkpoint of the journal, the one the status shows.
pub proof fn law_current_checkpoint_is_last(u: UndoV)
    requires
        consistent(u),
    ensures
        u.state.current_checkpoint == last_checkpoint_id(u.rows),
        u.state.current_checkpoint == match status_of(u.rows).0 {
            Some((id, _)) => Some(id),
            None => None,
        },
{
    lemma_rebuild_parts(u.state.checkpoint_high, u.rows);
}

/// A fresh history (no rows, an empty cache) agrees with its journal; every
/// operation keeps that agreement (their contracts say so), so a history
/// built only through them always has it.
pub proof fn law_fresh_history_consistent(workdir: Seq<char>, redo: RedoSlotV)
    ensures
        consistent(UndoV {
            workdir,
            rows: Seq::empty(),
            state: StateV { seq: 0, checkpoint_high: 0, current_checkpoint: None, captured: Seq::empty() },
            redo,
        }),
{
}

/// A successful rollback leaves a redo pending (so `can_redo` holds), and a
/// successful redo leaves none.
pub proof fn law_redo_pending_exactly_after_rollback(u: UndoV, idx: int, after: Seq<AfterSnapV>)
    ensures
        rolled_back(u, idx, after).redo is Pending,
        redone(rolled_back(u, idx, after)).redo is Absent,
{
}

// ---- restoring paths, over the model of the filesystem ------------------

/// Reversing a recorded creation removes the path and everything below it,
/// whatever is there now, and touches nothing else.
pub proof fn law_reverse_creation_removes_path(workdir: Seq<char>, fs: Tree, path: Seq<char>)
    ensures
        ({
            let c = components(path);
            let r = apply_ops(workdir, fs, (EffectV::PathCreate { path }).inverse_ops());
            &&& r is Some
            &&& forall|k: Seq<Seq<char>>| #[trigger] r->0.contains_key(k) ==> !at_or_below(k, c)
            &&& forall|k: Seq<Seq<char>>|
                !at_or_below(k, c) ==> (#[trigger] r->0.contains_key(k) == fs.contains_key(k) && (
                fs.contains_key(k) ==> r->0[k] == fs[k]))
        }),
{
    lemma_remove_op(workdir, fs, path);
}

/// Reversing a captured file puts back its captured bytes, mode and
/// modification time, whatever the path holds now (a changed file, a
/// directory, a symlink, nothing). It succeeds exactly when no ancestor of
/// the path is anything but a directory; the ancestors are then directories
/// and nothing else changes.
pub proof fn law_reverse_file_restores_it(
    workdir: Seq<char>,
    fs: Tree,
    path: Seq<char>,
    blob: Seq<char>,
    meta: Meta,
)
    ensures
        ({
            let c = components(path);
            let e = EffectV::File { path, prev_blob: blob, meta };
            let r = apply_ops(workdir, fs, e.inverse_ops());
            &&& (r is Some <==> c.len() >= 1 && dirs_clear(fs, c, c.len() - 1))
            &&& (r matches Some(fs2) ==> {
                &&& fs2.contains_key(c)
                &&& fs2[c] == restored_file(blob, meta)
                &&& ancestors_dirs(fs, fs2, c)
                &&& unchanged_beside(fs, fs2, c)
            })
        }),
{
    lemma_file_ops(workdir, fs, path, blob, meta);
}

/// Reversing a captured symlink makes the path that symlink again, with
/// nothing below it, whatever it holds now. It succeeds exactly when no
/// ancestor of the path is anything but a directory; the ancestors are then
/// directories and nothing else changes.
pub proof fn law_reverse_symlink_relinks_it(
    workdir: Seq<char>,
    fs: Tree,
    path: Seq<char>,
    target: Seq<char>,
)
    ensures
        ({
            let c = components(path);
            let e = EffectV::Symlink { path, target };
            let r = apply_ops(workdir, fs, e.inverse_ops());
            &&& (r is Some <==> c.len() >= 1 && dirs_clear(fs, c, c.len() - 1))
            &&& (r matches Some(fs2) ==> {
                &&& fs2.contains_key(c)
                &&& fs2[c] == (Node::Link { target })
                &&& nothing_below(fs2, c)
                &&& ancestors_dirs(fs, fs2, c)
                &&& unchanged_beside(fs, fs2, c)
            })
        }),
{
    assert((EffectV::Symlink { path, target }).inverse_ops() == symlink_plan(path, target));
    lemma_symlink_ops(workdir, fs, path, target);
}

/// Reversing a captured directory makes the path a directory again, with
/// its captured mode, and removes every child the directory did not have
/// when it was captured, leaving the children it had (and the project's
/// `.undo` and ignored names) untouched. It succeeds exactly when neither
/// the path nor an ancestor is anything but a directory; the ancestors are
/// then directories and nothing else changes.
pub proof fn law_reverse_dir_restores_it(
    workdir: Seq<char>,
    fs: Tree,
    path: Seq<char>,
    mode: u32,
    entries: Seq<Seq<char>>,
)
    ensures
        ({
            let c = components(path);
            let e = EffectV::Dir { path, mode, entries };
            let r = apply_ops(workdir, fs, e.inverse_ops());
            c.len() >= 1 ==> {
                &&& (r is Some <==> dirs_clear(fs, c, c.len() as int))
                &&& (r matches Some(fs2) ==> {
                    &&& fs2.contains_key(c)
                    &&& fs2[c] == (Node::Dir {
                        mode: if mode != 0 {
                            Some(mode)
                        } else if fs.contains_key(c) {
                            fs[c]->Dir_mode
                        } else {
                            None
                        },
                    })
                    &&& ancestors_dirs(fs, fs2, c)
                    &&& unchanged_beside(fs, fs2, c)
                    &&& forall|k: Seq<Seq<char>>|
                        at_or_below(k, c) && k.len() > c.len() ==> (#[trigger] fs2.contains_key(k)
                            == (fs.contains_key(k) && kept_child(
                            workdir,
                            k.take(c.len() + 1 as int),
                            entries,
                        )) && (fs2.contains_key(k) ==> fs2[k] == fs[k]))
                })
            }
        }),
{
    let e = EffectV::Dir { path, mode, entries };
    assert(e.inverse_ops() =~= dir_plan(path, mode, Some(entries)));
    let c = components(path);
    if c.len() >= 1 {
        lemma_dir_ops(workdir, fs, path, mode, Some(entries));
    }
}

/// Effects with no automatic reversal (network calls, commands) leave the
/// filesystem exactly as it is on rollback.
pub proof fn law_audit_only_effects_change_nothing(workdir: Seq<char>, fs: Tree, e: EffectV)
    requires
        !e.is_reversible(),
    ensures
        apply_ops(workdir, fs, e.inverse_ops()) == Some(fs),
{
}

/// Each step of a redo puts its path back into the state captured just
/// before the rollback: removed where it was absent (with all below it),
/// the captured file bytes, mode and time, the captured symlink (where the
/// parent is a directory), or a directory with the captured mode (its
/// children are left to their own steps). Nothing outside the path, what
/// lies below it and its ancestors changes.
pub proof fn law_redo_step_restores_after_state(workdir: Seq<char>, fs: Tree, s: AfterSnapV)
    ensures
        ({
            let c = components(s.path);
            let r = apply_ops(workdir, fs, s.restore_ops());
            match s.state {
                AfterStateV::Absent => {
                    &&& r is Some
                    &&& forall|k: Seq<Seq<char>>| #[trigger] r->0.contains_key(k) ==> !at_or_below(k, c)
                    &&& unchanged_beside(fs, r->0, c)
                },
                AfterStateV::File { blob, meta } => {
                    &&& (r is Some <==> c.len() >= 1 && dirs_clear(fs, c, c.len() - 1))
                    &&& (r matches Some(fs2) ==> {
                        &&& fs2.contains_key(c)
                        &&& fs2[c] == restored_file(blob, meta)
                        &&& ancestors_dirs(fs, fs2, c)
                        &&& unchanged_beside(fs, fs2, c)
                    })
                },
                AfterStateV::Symlink { target } => {
                    &&& (r is Some <==> parent_ready(fs, c))
                    &&& (r matches Some(fs2) ==> {
                        &&& fs2.contains_key(c)
                        &&& fs2[c] == (Node::Link { target })
                        &&& nothing_below(fs2, c)
                        &&& unchanged_beside(fs, fs2, c)
                    })
                },
                AfterStateV::Dir { mode } => c.len() >= 1 ==> {
                    &&& (r is Some <==> dirs_clear(fs, c, c.len() as int))
                    &&& (r matches Some(fs2) ==> {
                        &&& fs2.contains_key(c)
                        &&& fs2[c] == (Node::Dir {
                            mode: if mode != 0 {
                                Some(mode)
                            } else if fs.contains_key(c) {
                                fs[c]->Dir_mode
                            } else {
                                None
                            },
                        })
                        &&& ancestors_dirs(fs, fs2, c)
                        &&& unchanged_beside(fs, fs2, c)
                        &&& forall|k: Seq<Seq<char>>|
                            at_or_below(k, c) && k.len() > c.len() ==> (
                            #[trigger] fs2.contains_key(k) == fs.contains_key(k) && (
                            fs2.contains_key(k) ==> fs2[k] == fs[k]))
                    })
                },
            }
        }),
{
    let c = components(s.path);
    match s.state {
        AfterStateV::Absent => {
            assert(s.restore_ops() == seq![FsOpV::RemoveAny { path: s.path }]);
            lemma_remove_op(workdir, fs, s.path);
            let r = apply_ops(workdir, fs, s.restore_ops());
            assert forall|k: Seq<Seq<char>>| !at_or_below(k, c) && !above(k, c) implies (
            #[trigger] r->0.contains_key(k) == fs.contains_key(k) && (fs.contains_key(k)
                ==> r->0[k] == fs[k])) by {}
        },
        AfterStateV::File { blob, meta } => {
            lemma_file_ops(workdir, fs, s.path, blob, meta);
        },
        AfterStateV::Symlink { target } => {
            lemma_relink_ops(workdir, fs, s.path, target);
        },
        AfterStateV::Dir { mode } => {
            assert(s.restore_ops() =~= dir_plan(s.path, mode, None));
            if c.len() >= 1 {
                lemma_dir_ops(workdir, fs, s.path, mode, None);
            }
        },
    }
}

/// A rollback puts captured paths back exactly. Say that since the
/// checkpoint the paths of `caps`, none at or below another, were captured
/// in turn, the `i`-th when the filesystem was `olds[i]`, and that this
/// recorded `effects`. Running their reversals newest first, as a rollback
/// does, on the filesystem `fs` as it is now succeeds, and afterwards every
/// path a capture covers (at or below its path, outside `.undo` and ignored
/// directories) is as that capture found it: the same files with the same
/// bytes, modes and times, the same symlinks, the same directories with the
/// same modes, nothing added and nothing missing. Paths beside all the
/// captured paths and their ancestors are as in `fs`. This holds for
/// consistent trees where no ancestor of a captured path is anything but a
/// directory and no path captured as a directory now holds a file or a
/// symlink (then the rollback fails, as it reports).
pub proof fn law_rollback_restores_captured_trees(
    workdir: Seq<char>,
    olds: Seq<Tree>,
    fs: Tree,
    caps: Seq<Capture>,
    effects: Seq<EffectV>,
)
    requires
        olds.len() == caps.len(),
        unrelated(caps),
        forall|i: int|
            0 <= i < caps.len() ==> well_formed(#[trigger] olds[i]) && captures(
                workdir,
                olds[i],
                key_of(caps[i]),
                caps[i],
            ),
        effects == flatten_captures(caps, caps.len() as int),
        well_formed(fs),
        forall|i: int|
            0 <= i < caps.len() ==> dirs_clear(fs, key_of(#[trigger] caps[i]), key_of(caps[i]).len() - 1)
                && dirs_stay_dirs(fs, caps[i]),
    ensures
        apply_ops(workdir, fs, reversal_plan(effects)) is Some,
        forall|i: int, k: Seq<Seq<char>>|
            0 <= i < caps.len() && #[trigger] in_scope(workdir, key_of(caps[i]), k) ==> agrees(
                apply_ops(workdir, fs, reversal_plan(effects))->0,
                olds[i],
                k,
            ),
        forall|k: Seq<Seq<char>>|
            beside_all(caps, caps.len() as int, k) ==> #[trigger] agrees(
                apply_ops(workdir, fs, reversal_plan(effects))->0,
                fs,
                k,
            ),
{
    assert forall|i: int| 0 <= i < caps.len() implies fits(fs, #[trigger] caps[i]) by {
        assert(well_formed(olds[i]));
        lemma_fits(workdir, olds[i], fs, caps[i]);
    }
    lemma_restore_all(workdir, olds, caps, caps.len() as int, fs);
}

/// A redo brings back exactly what the rollback undid. Say `snaps` are the
/// after-states a rollback captured from the filesystem `fs` it started
/// from (each records what `fs` holds at a path of its own), and `p` is
/// the order a redo runs them in. Running their restores in that order on
/// the filesystem `g` the rollback left succeeds, and every snapshotted
/// path then holds what it held in `fs`. This holds for a consistent `fs`
/// where every ancestor of a path that comes back is snapshotted too or is
/// a directory in `g`, and no path that comes back as a directory holds a
/// file or a symlink in `g` (then the redo fails, as it reports).
pub proof fn law_redo_restores_after_states(
    workdir: Seq<char>,
    fs: Tree,
    g: Tree,
    snaps: Seq<AfterSnapV>,
    p: Seq<int>,
)
    requires
        well_formed(fs),
        forall|i: int| 0 <= i < snaps.len() ==> describes(fs, #[trigger] snaps[i]),
        forall|i: int, j: int|
            0 <= i < j < snaps.len() ==> components(#[trigger] snaps[i].path) != components(
                #[trigger] snaps[j].path,
            ),
        is_redo_order(snaps, p),
        forall|i: int, x: Seq<Seq<char>>|
            0 <= i < snaps.len() && !(snaps[i].state is Absent) && #[trigger] above(
                x,
                components(#[trigger] snaps[i].path),
            ) ==> covered(snaps, x) || (g.contains_key(x) && g[x] is Dir),
        forall|i: int|
            0 <= i < snaps.len() && #[trigger] snaps[i].state is Dir ==> (!g.contains_key(
                components(snaps[i].path),
            ) || g[components(snaps[i].path)] is Dir),
    ensures
        apply_ops(workdir, g, redo_plan(arranged(snaps, p))) is Some,
        forall|i: int|
            0 <= i < snaps.len() ==> #[trigger] agrees(
                apply_ops(workdir, g, redo_plan(arranged(snaps, p)))->0,
                fs,
                components(snaps[i].path),
            ),
{
    let t = arranged(snaps, p);
    assert forall|a: int, b: int| 0 <= a < b < t.len() implies p[a] != p[b] by {
        assert(index_before(snaps, p[a], p[b]));
    }
    assert forall|k: int| 0 <= k < t.len() implies describes(fs, #[trigger] t[k]) by {
        assert(t[k] == snaps[p[k]]);
    }
    assert forall|a: int, b: int| 0 <= a < b < t.len() implies components(#[trigger] t[a].path)
        != components(#[trigger] t[b].path) by {
        assert(p[a] != p[b]);
        if p[a] < p[b] {
            assert(components(snaps[p[a]].path) != components(snaps[p[b]].path));
        } else {
            assert(components(snaps[p[b]].path) != components(snaps[p[a]].path));
        }
    }
    assert forall|a: int, b: int| 0 <= a < b < t.len() && !(#[trigger] t[b].state is Absent) implies !(
    #[trigger] t[a].state is Absent) && components(t[a].path).len() <= components(t[b].path).len() by {
        law_redo_order_parents_first(snaps, p, a, b);
    }
    assert forall|x: Seq<Seq<char>>| covered(snaps, x) implies covered(t, x) by {
        let j = choose|j: int| 0 <= j < snaps.len() && components(#[trigger] snaps[j].path) == x;
        assert(p.contains(j));
        let k = choose|k: int| 0 <= k < p.len() && p[k] == j;
        assert(components(t[k].path) == x);
    }
    assert forall|k: int, x: Seq<Seq<char>>|
        0 <= k < t.len() && !(t[k].state is Absent) && #[trigger] above(x, components(#[trigger] t[k].path))
            implies covered(t, x) || (g.contains_key(x) && g[x] is Dir) by {
        assert(t[k] == snaps[p[k]]);
        assert(above(x, components(snaps[p[k]].path)));
    }
    assert forall|k: int| 0 <= k < t.len() && #[trigger] t[k].state is Dir implies (!g.contains_key(
        components(t[k].path),
    ) || g[components(t[k].path)] is Dir) by {
        assert(t[k] == snaps[p[k]]);
    }
    assert(redo_ready(fs, g, t));
    lemma_redo_prefix(workdir, fs, g, t, t.len() as int);
    assert(t.take(t.len() as int) =~= t);
    let st = apply_ops(workdir, g, redo_plan(t))->0;
    assert forall|i: int| 0 <= i < snaps.len() implies #[trigger] agrees(
        st,
        fs,
        components(snaps[i].path),
    ) by {
        assert(p.contains(i));
        let k = choose|k: int| 0 <= k < p.len() && p[k] == i;
        assert(agrees(st, fs, components(t[k].path)));
    }
}

// ---- which checkpoint, which effects, which path ------------------------------

proof fn lemma_last_checkpoint(rows: Seq<RowV>)
    ensures
        match last_checkpoint(rows) {
            Some(i) => 0 <= i < rows.len() && rows[i] is Checkpoint && forall|j: int|
                i < j < rows.len() ==> !(#[trigger] rows[j] is Checkpoint),
            None => forall|j: int| 0 <= j < rows.len() ==> !(#[trigger] rows[j] is Checkpoint),
        },
    decreases rows.len(),
{
    if rows.len() > 0 {
        let d = rows.drop_last();
        lemma_last_checkpoint(d);
        assert forall|j: int| 0 <= j < d.len() implies #[trigger] d[j] == rows[j] by {}
        if !(rows.last() is Checkpoint) {
            match last_checkpoint(d) {
                Some(i) => {
                    assert(rows[i] == d[i]);
                    assert forall|j: int| i < j < rows.len() implies !(#[trigger] rows[j] is Checkpoint) by {
                        if j < d.len() {
                            assert(rows[j] == d[j]);
                        }
                    }
                },
                None => {
                    assert forall|j: int| 0 <= j < rows.len() implies !(#[trigger] rows[j] is Checkpoint) by {
                        if j < d.len() {
                            assert(rows[j] == d[j]);
                        }
                    }
                },
            }
        }
    }
}

proof fn lemma_first_checkpoint_with(rows: Seq<RowV>, id: Seq<char>)
    ensures
        match first_checkpoint_with(rows, id) {
            Some(i) => 0 <= i < rows.len() && rows[i] is Checkpoint && rows[i]->Checkpoint_id == id
                && forall|j: int|
                0 <= j < i ==> !(#[trigger] rows[j] is Checkpoint && rows[j]->Checkpoint_id == id),
            None => forall|j: int|
                0 <= j < rows.len() ==> !(#[trigger] rows[j] is Checkpoint && rows[j]->Checkpoint_id == id),
        },
    decreases rows.len(),
{
    if rows.len() > 0 {
        let d = rows.drop_last();
        lemma_first_checkpoint_with(d, id);
        assert forall|j: int| 0 <= j < d.len() implies #[trigger] d[j] == rows[j] by {}
        match first_checkpoint_with(d, id) {
            Some(i) => {
                assert(rows[i] == d[i]);
                assert forall|j: int| 0 <= j < i implies !(#[trigger] rows[j] is Checkpoint && rows[j]->Checkpoint_id == id) by {
                    assert(rows[j] == d[j]);
                }
            },
            None => {
                assert forall|j: int| 0 <= j < rows.len() - 1 implies !(#[trigger] rows[j] is Checkpoint && rows[j]->Checkpoint_id == id) by {
                    assert(rows[j] == d[j]);
                }
            },
        }
    }
}

/// With no target, a rollback rewinds to the latest checkpoint: the index
/// it picks holds a checkpoint and no later row is one, and there is none
/// exactly when no row is a checkpoint. With a target, it picks the first
/// checkpoint with that id, and there is none exactly when no checkpoint
/// has that id.
pub proof fn law_rollback_index_picks_checkpoint(rows: Seq<RowV>, target: Option<Seq<char>>)
    ensures
        target is None ==> match rollback_index(rows, target) {
            Some(i) => 0 <= i < rows.len() && rows[i] is Checkpoint && forall|j: int|
                i < j < rows.len() ==> !(#[trigger] rows[j] is Checkpoint),
            None => forall|j: int| 0 <= j < rows.len() ==> !(#[trigger] rows[j] is Checkpoint),
        },
        target matches Some(id) ==> match rollback_index(rows, target) {
            Some(i) => 0 <= i < rows.len() && rows[i] is Checkpoint && rows[i]->Checkpoint_id == id
                && forall|j: int|
                0 <= j < i ==> !(#[trigger] rows[j] is Checkpoint && rows[j]->Checkpoint_id == id),
            None => forall|j: int|
                0 <= j < rows.len() ==> !(#[trigger] rows[j] is Checkpoint && rows[j]->Checkpoint_id == id),
        },
{
    lemma_last_checkpoint(rows);
    match target {
        Some(id) => lemma_first_checkpoint_with(rows, id),
        None => {},
    }
}

/// The effects after a checkpoint are exactly the effects of the effect
/// rows, in order: one row gives its effect (a checkpoint row none), and
/// the effects of two stretches of rows are those of the first followed by
/// those of the second.
pub proof fn law_effects_in_every_effect_row(a: Seq<RowV>, b: Seq<RowV>, r: RowV)
    ensures
        effects_in(seq![r]) == match r {
            RowV::Effect { effect, .. } => seq![effect],
            RowV::Checkpoint { .. } => Seq::<EffectV>::empty(),
        },
        effects_in(a + b) == effects_in(a) + effects_in(b),
    decreases b.len(),
{
    assert(seq![r].drop_last() =~= Seq::<RowV>::empty());
    assert(seq![r].last() == r);
    assert(effects_in(Seq::<RowV>::empty()) =~= Seq::<EffectV>::empty());
    match r {
        RowV::Effect { effect, .. } => {
            assert(effects_in(seq![r]) =~= Seq::<EffectV>::empty().push(effect));
            assert(Seq::<EffectV>::empty().push(effect) =~= seq![effect]);
        },
        _ => {},
    }
    if b.len() == 0 {
        assert(a + b =~= a);
        assert(effects_in(a) + effects_in(b) =~= effects_in(a));
    } else {
        assert((a + b).drop_last() =~= a + b.drop_last());
        assert((a + b).last() == b.last());
        law_effects_in_every_effect_row(a, b.drop_last(), r);
        match b.last() {
            RowV::Effect { effect, .. } => {
                assert(effects_in(a + b) =~= effects_in(a) + effects_in(b));
            },
            _ => {
                assert(effects_in(a + b) =~= effects_in(a) + effects_in(b));
            },
        }
    }
}

/// A selective revert picks an effect on exactly the path given: the
/// first of the effects whose path is that path, and none exactly when no
/// effect has that path.
pub proof fn law_revert_picks_effect_on_path(effs: Seq<EffectV>, p: Seq<char>)
    ensures
        match first_effect_on(effs, p) {
            Some(e) => e.fs_path() == Some(p) && exists|i: int|
                0 <= i < effs.len() && #[trigger] effs[i] == e && forall|j: int|
                    0 <= j < i ==> (#[trigger] effs[j]).fs_path() != Some(p),
            None => forall|j: int| 0 <= j < effs.len() ==> (#[trigger] effs[j]).fs_path() != Some(p),
        },
    decreases effs.len(),
{
    if effs.len() > 0 {
        let d = effs.drop_first();
        law_revert_picks_effect_on_path(d, p);
        assert forall|j: int| 0 <= j < d.len() implies #[trigger] d[j] == effs[j + 1] by {}
        if effs[0].fs_path() == Some(p) {
            assert(effs[0] == effs[0]);
        } else {
            match first_effect_on(d, p) {
                Some(e) => {
                    let i = choose|i: int|
                        0 <= i < d.len() && #[trigger] d[i] == e && forall|j: int|
                            0 <= j < i ==> (#[trigger] d[j]).fs_path() != Some(p);
                    assert(effs[i + 1] == e);
                    assert forall|j: int| 0 <= j < i + 1 implies (#[trigger] effs[j]).fs_path() != Some(p) by {
                        if j > 0 {
                            assert(effs[j] == d[j - 1]);
                        }
                    }
                },
                None => {
                    assert forall|j: int| 0 <= j < effs.len() implies (#[trigger] effs[j]).fs_path() != Some(p) by {
                        if j > 0 {
                            assert(effs[j] == d[j - 1]);
                        }
                    }
                },
            }
        }
    }
}

/// Every restore of a redo is reported exactly once, and the report shows
/// no failure exactly when every restore succeeded; each failure is
/// reported with its path and error.
pub proof fn law_redo_report_complete(snaps: Seq<AfterSnapV>, outs: Seq<Option<Seq<char>>>, k: int)
    requires
        0 <= k <= snaps.len(),
        k <= outs.len(),
    ensures
        ({
            let (r, f) = redo_lines(snaps, outs, k);
            &&& r.len() + f.len() == k
            &&& (f.len() == 0 <==> forall|j: int| 0 <= j < k ==> #[trigger] outs[j] is None)
            &&& forall|j: int|
                0 <= j < k && (#[trigger] outs[j]) is Some ==> f.contains(
                    error_line(snaps[j].path, outs[j]->0),
                )
        }),
    decreases k,
{
    if k > 0 {
        law_redo_report_complete(snaps, outs, k - 1);
        let (r0, f0) = redo_lines(snaps, outs, k - 1);
        let (r, f) = redo_lines(snaps, outs, k);
        assert forall|j: int| 0 <= j < k && (#[trigger] outs[j]) is Some implies f.contains(
            error_line(snaps[j].path, outs[j]->0),
        ) by {
            if j < k - 1 {
                let m = choose|m: int| 0 <= m < f0.len() && f0[m] == error_line(snaps[j].path, outs[j]->0);
                if outs[k - 1] is Some {
                    assert(f[m] == f0[m]);
                }
            } else {
                assert(f[f.len() - 1] == error_line(snaps[j].path, outs[j]->0));
            }
        }
        if f.len() == 0 {
            assert(outs[k - 1] is None);
        }
    }
}

/// A captured file shows up in the diff exactly when its bytes now differ
/// from the captured ones (and always when it is gone), under its own
/// path; a created path shows up exactly when it exists now.
pub proof fn law_diff_shows_changed_files(e: EffectV, before: Seq<u8>, after: Option<Seq<u8>>)
    ensures
        e is File ==> match after {
            Some(a) => (effect_diff(e, before, after) is None <==> a == before),
            None => effect_diff(e, before, after) is Some,
        },
        e is PathCreate ==> (effect_diff(e, before, after) is Some <==> after is Some),
        effect_diff(e, before, after) matches Some(d) ==> Some(d.path) == e.fs_path(),
{
}

} // verus!
