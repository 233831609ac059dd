//! Rollback and redo: which effects a rollback reverses, the filesystem
//! operations that reverse one effect (or restore one after-state), the
//! report, and how the journal, the state cache and the redo file change.
//!
//! Carrying out a filesystem operation is the caller's part; these functions
//! decide what is done and, from the outcomes, what it all amounts to.

use vstd::prelude::*;
use crate::effect::{copy_effects, effect_views, opt_view, Effect, EffectV};
use crate::journal::{
    consistent, lemma_rebuilt_consistent,
    copy_rows, rebuild, rebuild_state, row_views, snap_views, AfterSnap, AfterSnapV, AfterState,
    AfterStateV, RedoLog, RedoSlot, RedoSlotV, Row, RowV, StateV, Undo, UndoError, UndoV,
};
use crate::meta::Meta;
use crate::snapshot::AfterWalk;
use crate::paths::{component_chars, components, vviews};
use crate::text::{concat2, concat3, views};
use crate::roundtrip::{
    flat_steps, inverse_steps, lemma_inverse_steps, lemma_restore_steps, redo_plan, reversal_plan,
};

verus! {

broadcast use vstd::string::group_string_axioms;

// ---- filesystem operations --------------------------------------------------

/// One filesystem operation of a rollback or redo step.
#[derive(Clone, Debug, PartialEq, Eq)]
pub enum FsOp {
    /// Remove whatever is at `path` (file, symlink, or whole tree); absent is fine.
    RemoveAny { path: String },
    /// Create the parent directory of `path` and its ancestors.
    CreateParentDirs { path: String },
    /// Create `path` as a directory, with its ancestors.
    CreateDirAll { path: String },
    /// If a directory or symlink occupies `path`, remove it.
    RemoveIfIncompatible { path: String },
    /// Write the stored blob `blob` to `path` (atomically).
    WriteBlob { path: String, blob: String },
    /// Set the unix permission bits of `path`.
    SetMode { path: String, mode: u32 },
    /// Set the modification time of `path`; a failure here is ignored.
    SetMtime { path: String, secs: i64, nanos: u32 },
    /// Create a symlink at `path` pointing at `target`.
    Symlink { target: String, path: String },
    /// Remove the children of directory `path` that [`Undo::keeps_child`]
    /// does not keep, given the original entry names `keep`.
    PruneDir { path: String, keep: Vec<String> },
}

pub enum FsOpV {
    RemoveAny { path: Seq<char> },
    CreateParentDirs { path: Seq<char> },
    CreateDirAll { path: Seq<char> },
    RemoveIfIncompatible { path: Seq<char> },
    WriteBlob { path: Seq<char>, blob: Seq<char> },
    SetMode { path: Seq<char>, mode: u32 },
    SetMtime { path: Seq<char>, secs: i64, nanos: u32 },
    Symlink { target: Seq<char>, path: Seq<char> },
    PruneDir { path: Seq<char>, keep: Seq<Seq<char>> },
}

impl View for FsOp {
    type V = FsOpV;

    open spec fn view(&self) -> FsOpV {
        match self {
            FsOp::RemoveAny { path } => FsOpV::RemoveAny { path: path@ },
            FsOp::CreateParentDirs { path } => FsOpV::CreateParentDirs { path: path@ },
            FsOp::CreateDirAll { path } => FsOpV::CreateDirAll { path: path@ },
            FsOp::RemoveIfIncompatible { path } => FsOpV::RemoveIfIncompatible { path: path@ },
            FsOp::WriteBlob { path, blob } => FsOpV::WriteBlob { path: path@, blob: blob@ },
            FsOp::SetMode { path, mode } => FsOpV::SetMode { path: path@, mode: *mode },
            FsOp::SetMtime { path, secs, nanos } => FsOpV::SetMtime {
                path: path@,
                secs: *secs,
                nanos: *nanos,
            },
            FsOp::Symlink { target, path } => FsOpV::Symlink { target: target@, path: path@ },
            FsOp::PruneDir { path, keep } => FsOpV::PruneDir { path: path@, keep: views(keep@) },
        }
    }
}

pub open spec fn op_views(s: Seq<FsOp>) -> Seq<FsOpV> {
    s.map_values(|o: FsOp| o@)
}

/// Re-applying a mode: only a non-zero mode is set.
pub open spec fn mode_ops(path: Seq<char>, mode: u32) -> Seq<FsOpV> {
    if mode != 0 {
        seq![FsOpV::SetMode { path, mode }]
    } else {
        seq![]
    }
}

/// Re-applying captured metadata: the mode, then (best effort) the mtime.
pub open spec fn meta_ops(path: Seq<char>, meta: Meta) -> Seq<FsOpV> {
    mode_ops(path, meta.mode).push(
        FsOpV::SetMtime { path, secs: meta.mtime_s, nanos: meta.mtime_ns },
    )
}

/// Restoring a regular file from the blob store.
pub open spec fn file_ops(path: Seq<char>, blob: Seq<char>, meta: Meta) -> Seq<FsOpV> {
    seq![
        FsOpV::CreateParentDirs { path },
        FsOpV::RemoveIfIncompatible { path },
        FsOpV::WriteBlob { path, blob },
    ] + meta_ops(path, meta)
}

impl EffectV {
    /// The operations that reverse this effect (none for audit-only effects).
    pub open spec fn inverse_ops(self) -> Seq<FsOpV> {
        match self {
            EffectV::PathCreate { path } => seq![FsOpV::RemoveAny { path }],
            EffectV::File { path, prev_blob, meta } => file_ops(path, prev_blob, meta),
            EffectV::Symlink { path, target } => seq![
                FsOpV::RemoveAny { path },
                FsOpV::CreateParentDirs { path },
                FsOpV::Symlink { target, path },
            ],
            EffectV::Dir { path, mode, entries } => seq![FsOpV::CreateDirAll { path }] + mode_ops(
                path,
                mode,
            ).push(FsOpV::PruneDir { path, keep: entries }),
            _ => seq![],
        }
    }

    /// The report line for a successful reversal (none for audit-only effects).
    pub open spec fn revert_message(self) -> Option<Seq<char>> {
        match self {
            EffectV::PathCreate { path } => Some("removed  "@ + path),
            EffectV::File { path, .. } => Some("restored "@ + path),
            EffectV::Symlink { path, .. } => Some("relinked "@ + path),
            EffectV::Dir { path, .. } => Some("dir      "@ + path),
            _ => None,
        }
    }
}

impl AfterSnapV {
    /// The operations that put the path back into its captured after-state.
    pub open spec fn restore_ops(self) -> Seq<FsOpV> {
        let path = self.path;
        match self.state {
            AfterStateV::Absent => seq![FsOpV::RemoveAny { path }],
            AfterStateV::File { blob, meta } => file_ops(path, blob, meta),
            AfterStateV::Symlink { target } => seq![
                FsOpV::RemoveAny { path },
                FsOpV::Symlink { target, path },
            ],
            AfterStateV::Dir { mode } => seq![FsOpV::CreateDirAll { path }] + mode_ops(path, mode),
        }
    }

    /// The report line for a successful restore.
    pub open spec fn restore_message(self) -> Seq<char> {
        match self.state {
            AfterStateV::Absent => "removed  "@ + self.path,
            AfterStateV::File { .. } => "restored "@ + self.path,
            AfterStateV::Symlink { .. } => "relinked "@ + self.path,
            AfterStateV::Dir { .. } => "dir      "@ + self.path,
        }
    }
}

fn push_mode_op(ops: &mut Vec<FsOp>, path: &String, mode: u32)
    ensures
        op_views(final(ops)@) == op_views(old(ops)@) + mode_ops(path@, mode),
{
    let ghost o = ops@;
    if mode != 0 {
        ops.push(FsOp::SetMode { path: path.clone(), mode });
        assert(op_views(ops@) =~= op_views(o) + mode_ops(path@, mode));
    } else {
        assert(op_views(ops@) =~= op_views(o) + mode_ops(path@, mode));
    }
}

fn push_file_ops(ops: &mut Vec<FsOp>, path: &String, blob: &String, meta: Meta)
    ensures
        op_views(final(ops)@) == op_views(old(ops)@) + file_ops(path@, blob@, meta),
{
    let ghost o = op_views(ops@);
    ops.push(FsOp::CreateParentDirs { path: path.clone() });
    ops.push(FsOp::RemoveIfIncompatible { path: path.clone() });
    ops.push(FsOp::WriteBlob { path: path.clone(), blob: blob.clone() });
    let ghost mid = op_views(ops@);
    assert(mid =~= o + seq![
        FsOpV::CreateParentDirs { path: path@ },
        FsOpV::RemoveIfIncompatible { path: path@ },
        FsOpV::WriteBlob { path: path@, blob: blob@ },
    ]);
    push_mode_op(ops, path, meta.mode);
    let ghost mid2 = op_views(ops@);
    ops.push(FsOp::SetMtime { path: path.clone(), secs: meta.mtime_s, nanos: meta.mtime_ns });
    assert(op_views(ops@) =~= mid2.push(
        FsOpV::SetMtime { path: path@, secs: meta.mtime_s, nanos: meta.mtime_ns },
    ));
    assert(op_views(ops@) =~= o + file_ops(path@, blob@, meta));
}

fn copy_names(v: &Vec<String>) -> (r: Vec<String>)
    ensures
        views(r@) == views(v@),
{
    crate::effect::copy_strings(v)
}

impl Effect {
    /// The filesystem operations that reverse this effect.
    pub fn inverse_ops(&self) -> (ops: Vec<FsOp>)
        ensures
            op_views(ops@) == self@.inverse_ops(),
    {
        let mut ops: Vec<FsOp> = Vec::new();
        match self {
            Effect::PathCreate { path } => {
                ops.push(FsOp::RemoveAny { path: path.clone() });
                assert(op_views(ops@) =~= self@.inverse_ops());
            },
            Effect::File { path, prev_blob, meta } => {
                push_file_ops(&mut ops, path, prev_blob, *meta);
                assert(op_views(ops@) =~= self@.inverse_ops());
            },
            Effect::Symlink { path, target } => {
                ops.push(FsOp::RemoveAny { path: path.clone() });
                ops.push(FsOp::CreateParentDirs { path: path.clone() });
                ops.push(FsOp::Symlink { target: target.clone(), path: path.clone() });
                assert(op_views(ops@) =~= self@.inverse_ops());
            },
            Effect::Dir { path, mode, entries } => {
                ops.push(FsOp::CreateDirAll { path: path.clone() });
                push_mode_op(&mut ops, path, *mode);
                let ghost mid = op_views(ops@);
                ops.push(FsOp::PruneDir { path: path.clone(), keep: copy_names(entries) });
                assert(op_views(ops@) =~= mid.push(
                    FsOpV::PruneDir { path: path@, keep: views(entries@) },
                ));
                assert(op_views(ops@) =~= self@.inverse_ops());
            },
            _ => {
                assert(op_views(ops@) =~= self@.inverse_ops());
            },
        }
        ops
    }

    /// The report line for a successful reversal, if the effect is reversible.
    pub fn revert_message(&self) -> (m: Option<String>)
        ensures
            opt_view(m) == self@.revert_message(),
    {
        match self {
            Effect::PathCreate { path } => Some(concat2("removed  ", path.as_str())),
            Effect::File { path, .. } => Some(concat2("restored ", path.as_str())),
            Effect::Symlink { path, .. } => Some(concat2("relinked ", path.as_str())),
            Effect::Dir { path, .. } => Some(concat2("dir      ", path.as_str())),
            _ => None,
        }
    }
}

impl AfterSnap {
    /// The filesystem operations that restore this after-state.
    pub fn restore_ops(&self) -> (ops: Vec<FsOp>)
        ensures
            op_views(ops@) == self@.restore_ops(),
    {
        let mut ops: Vec<FsOp> = Vec::new();
        let path = &self.path;
        match &self.state {
            AfterState::Absent => {
                ops.push(FsOp::RemoveAny { path: path.clone() });
                assert(op_views(ops@) =~= self@.restore_ops());
            },
            AfterState::File { blob, meta } => {
                push_file_ops(&mut ops, path, blob, *meta);
                assert(op_views(ops@) =~= self@.restore_ops());
            },
            AfterState::Symlink { target } => {
                ops.push(FsOp::RemoveAny { path: path.clone() });
                ops.push(FsOp::Symlink { target: target.clone(), path: path.clone() });
                assert(op_views(ops@) =~= self@.restore_ops());
            },
            AfterState::Dir { mode } => {
                ops.push(FsOp::CreateDirAll { path: path.clone() });
                push_mode_op(&mut ops, path, *mode);
                assert(op_views(ops@) =~= self@.restore_ops());
            },
        }
        ops
    }

    /// The report line for a successful restore.
    pub fn restore_message(&self) -> (m: String)
        ensures
            m@ == self@.restore_message(),
    {
        match &self.state {
            AfterState::Absent => concat2("removed  ", self.path.as_str()),
            AfterState::File { .. } => concat2("restored ", self.path.as_str()),
            AfterState::Symlink { .. } => concat2("relinked ", self.path.as_str()),
            AfterState::Dir { .. } => concat2("dir      ", self.path.as_str()),
        }
    }
}

// ---- which checkpoint, which effects ----------------------------------------------

/// Index of the first checkpoint row with id `id`.
pub open spec fn first_checkpoint_with(rows: Seq<RowV>, id: Seq<char>) -> Option<int>
    decreases rows.len(),
{
    if rows.len() == 0 {
        None
    } else {
        match first_checkpoint_with(rows.drop_last(), id) {
            Some(i) => Some(i),
            None => match rows.last() {
                RowV::Checkpoint { id: cid, .. } => if cid == id {
                    Some(rows.len() - 1)
                } else {
                    None
                },
                _ => None,
            },
        }
    }
}

/// Index of the last checkpoint row.
pub open spec fn last_checkpoint(rows: Seq<RowV>) -> Option<int>
    decreases rows.len(),
{
    if rows.len() == 0 {
        None
    } else if rows.last() is Checkpoint {
        Some(rows.len() - 1)
    } else {
        last_checkpoint(rows.drop_last())
    }
}

/// The checkpoint a rollback rewinds to: the first one named `target`, or
/// the latest one when no target is given.
pub open spec fn rollback_index(rows: Seq<RowV>, target: Option<Seq<char>>) -> Option<int> {
    match target {
        Some(id) => first_checkpoint_with(rows, id),
        None => last_checkpoint(rows),
    }
}

/// The effects among `rows`, in order.
pub open spec fn effects_in(rows: Seq<RowV>) -> Seq<EffectV>
    decreases rows.len(),
{
    if rows.len() == 0 {
        seq![]
    } else {
        match rows.last() {
            RowV::Effect { effect, .. } => effects_in(rows.drop_last()).push(effect),
            _ => effects_in(rows.drop_last()),
        }
    }
}

pub open spec fn checkpoint_id_of(r: RowV) -> Seq<char> {
    match r {
        RowV::Checkpoint { id, .. } => id,
        _ => seq![],
    }
}

proof fn lemma_first_checkpoint_with(rows: Seq<RowV>, id: Seq<char>)
    ensures
        first_checkpoint_with(rows, id) matches Some(i) ==> 0 <= i < rows.len() && rows[i] is Checkpoint
            && checkpoint_id_of(rows[i]) == id,
    decreases rows.len(),
{
    if rows.len() > 0 {
        lemma_first_checkpoint_with(rows.drop_last(), id);
    }
}

proof fn lemma_last_checkpoint(rows: Seq<RowV>)
    ensures
        last_checkpoint(rows) matches Some(i) ==> 0 <= i < rows.len() && rows[i] is Checkpoint,
    decreases rows.len(),
{
    if rows.len() > 0 {
        lemma_last_checkpoint(rows.drop_last());
    }
}

pub proof fn lemma_rollback_index(rows: Seq<RowV>, target: Option<Seq<char>>)
    ensures
        rollback_index(rows, target) matches Some(i) ==> 0 <= i < rows.len() && rows[i] is Checkpoint
            && (target matches Some(id) ==> checkpoint_id_of(rows[i]) == id),
{
    lemma_first_checkpoint_with(rows, target.unwrap_or(seq![]));
    lemma_last_checkpoint(rows);
}

pub open spec fn opt_str_view(o: Option<&str>) -> Option<Seq<char>> {
    match o {
        Some(s) => Some(s@),
        None => None,
    }
}

/// The checkpoint a rollback goes back to and the effects it reverses.
pub struct RollbackScope {
    /// Position of the checkpoint row in the journal.
    pub index: usize,
    /// Its id.
    pub checkpoint: String,
    /// The effects recorded after it, oldest first (they are reversed newest first).
    pub effects: Vec<Effect>,
}

pub open spec fn no_checkpoint_message() -> Seq<char> {
    "no matching checkpoint to roll back to"@
}

fn find_rollback_index(rows: &Vec<Row>, target: Option<&str>) -> (r: Option<usize>)
    ensures
        match r {
            Some(i) => rollback_index(row_views(rows@), opt_str_view(target)) == Some(i as int),
            None => rollback_index(row_views(rows@), opt_str_view(target)) is None,
        },
{
    let ghost rv = row_views(rows@);
    match target {
        Some(id) => {
            let mut i: usize = 0;
            while i < rows.len()
                invariant
                    i <= rows@.len(),
                    rv == row_views(rows@),
                    target == Some(id),
                    first_checkpoint_with(rv.take(i as int), id@) is None,
                decreases rows@.len() - i,
            {
                assert(rv.take(i + 1).drop_last() =~= rv.take(i as int));
                assert(rv.take(i + 1).last() == rows@[i as int]@);
                match &rows[i] {
                    Row::Checkpoint { id: cid, .. } => {
                        if crate::text::str_eq(cid.as_str(), id) {
                            proof {
                                assert(rv.take(i + 1).len() - 1 == i);
                                assert(first_checkpoint_with(rv.take(i + 1), id@) == Some(i as int));
                                lemma_first_checkpoint_prefix(rv, id@, i as int);
                            }
                            return Some(i);
                        }
                    },
                    _ => {},
                }
                i = i + 1;
            }
            assert(rv.take(rows@.len() as int) =~= rv);
            None
        },
        None => {
            let mut i: usize = rows.len();
            assert(rv.take(rows@.len() as int) =~= rv);
            while i > 0
                invariant
                    i <= rows@.len(),
                    rv == row_views(rows@),
                    target is None,
                    last_checkpoint(rv) == last_checkpoint(rv.take(i as int)),
                decreases i,
            {
                assert(rv.take(i as int).drop_last() =~= rv.take(i - 1));
                assert(rv.take(i as int).last() == rows@[i - 1]@);
                match &rows[i - 1] {
                    Row::Checkpoint { .. } => {
                        assert(last_checkpoint(rv.take(i as int)) == Some(i - 1));
                        return Some(i - 1);
                    },
                    _ => {},
                }
                i = i - 1;
            }
            assert(rv.take(rows@.len() as int) =~= rv);
            None
        },
    }
}

proof fn lemma_first_checkpoint_prefix(rv: Seq<RowV>, id: Seq<char>, i: int)
    requires
        0 <= i < rv.len(),
        first_checkpoint_with(rv.take(i), id) is None,
        first_checkpoint_with(rv.take(i + 1), id) == Some(i),
    ensures
        first_checkpoint_with(rv, id) == Some(i),
    decreases rv.len() - i,
{
    if rv.len() == i + 1 {
        assert(rv.take(i + 1) =~= rv);
    } else {
        assert(rv.drop_last().take(i) =~= rv.take(i));
        assert(rv.drop_last().take(i + 1) =~= rv.take(i + 1));
        lemma_first_checkpoint_prefix(rv.drop_last(), id, i);
    }
}

/// Effects of the rows `rows[from..]`, copied.
fn effects_after(rows: &Vec<Row>, from: usize) -> (r: Vec<Effect>)
    requires
        from <= rows@.len(),
    ensures
        effect_views(r@) == effects_in(row_views(rows@).subrange(from as int, rows@.len() as int)),
{
    let ghost rv = row_views(rows@);
    let mut r: Vec<Effect> = Vec::new();
    let mut i: usize = from;
    assert(rv.subrange(from as int, from as int) =~= Seq::<RowV>::empty());
    assert(effect_views(r@) =~= Seq::<EffectV>::empty());
    while i < rows.len()
        invariant
            from <= i <= rows@.len(),
            rv == row_views(rows@),
            effect_views(r@) == effects_in(rv.subrange(from as int, i as int)),
        decreases rows@.len() - i,
    {
        assert(rv.subrange(from as int, i + 1).drop_last() =~= rv.subrange(from as int, i as int));
        assert(rv.subrange(from as int, i + 1).last() == rows@[i as int]@);
        match &rows[i] {
            Row::Effect { effect, .. } => {
                let ghost old_r = r@;
                r.push(effect.duplicate());
                assert(effect_views(r@) =~= effect_views(old_r).push(effect@));
            },
            _ => {},
        }
        i = i + 1;
    }
    r
}

// ---- the report -------------------------------------------------------------------

pub open spec fn outcome_error(o: Result<(), String>) -> Option<Seq<char>> {
    match o {
        Ok(()) => None,
        Err(e) => Some(e@),
    }
}

pub open spec fn manual_line(e: EffectV) -> Seq<char> {
    e.description() + " (manual)"@
}

pub open spec fn error_line(what: Seq<char>, err: Seq<char>) -> Seq<char> {
    what + " (error: "@ + err + ")"@
}

/// The lines of a rollback report after the first `k` outcomes: reverted,
/// skipped (audit-only) and failed. `effs` is in the order the effects were
/// reversed (newest first).
pub open spec fn rollback_lines(effs: Seq<EffectV>, outs: Seq<Option<Seq<char>>>, k: int) -> (
    Seq<Seq<char>>,
    Seq<Seq<char>>,
    Seq<Seq<char>>,
)
    decreases k,
{
    if k <= 0 {
        (seq![], seq![], seq![])
    } else {
        let (rv, sk, fl) = rollback_lines(effs, outs, k - 1);
        let e = effs[k - 1];
        match e.revert_message() {
            None => (rv, sk.push(manual_line(e)), fl),
            Some(m) => match outs[k - 1] {
                Some(err) => (rv, sk, fl.push(error_line(e.description(), err))),
                None => (rv.push(m), sk, fl),
            },
        }
    }
}

pub open spec fn outcome_views(s: Seq<Result<(), String>>) -> Seq<Option<Seq<char>>> {
    s.map_values(|o: Result<(), String>| outcome_error(o))
}

/// What a rollback did.
#[derive(Clone, Debug, PartialEq, Eq)]
pub struct RollbackReport {
    pub checkpoint: String,
    pub reverted: Vec<String>,
    pub skipped: Vec<String>,
    pub failed: Vec<String>,
}

/// What a redo did.
#[derive(Clone, Debug, PartialEq, Eq)]
pub struct RedoReport {
    pub restored: Vec<String>,
    pub failed: Vec<String>,
}

/// The history after a successful rollback to the checkpoint at `idx`: the
/// journal ends at that checkpoint, the cache is rebuilt from it, and the
/// redo file holds the rows removed and the after-state.
pub open spec fn rolled_back(u: UndoV, idx: int, after: Seq<AfterSnapV>) -> UndoV {
    let kept = u.rows.take(idx + 1);
    UndoV {
        rows: kept,
        state: rebuild(u.state.checkpoint_high, kept),
        redo: RedoSlotV::Pending { rows: u.rows.skip(idx + 1), after },
        ..u
    }
}

impl Undo {
    /// The checkpoint a rollback to `target` (or to the latest checkpoint)
    /// goes back to, and the effects recorded since, oldest first.
    pub fn rollback_scope(&self, target: Option<&str>) -> (r: Result<RollbackScope, UndoError>)
        ensures
            match rollback_index(self@.rows, opt_str_view(target)) {
                None => r matches Err(UndoError::NotFound { message }) && message@
                    == no_checkpoint_message(),
                Some(i) => r matches Ok(s) && {
                    &&& s.index == i
                    &&& s.checkpoint@ == checkpoint_id_of(self@.rows[i])
                    &&& effect_views(s.effects@) == effects_in(self@.rows.skip(i + 1))
                },
            },
    {
        proof {
            lemma_rollback_index(self@.rows, opt_str_view(target));
            assert(self@.rows.len() == self.rows@.len());
        }
        match find_rollback_index(&self.rows, target) {
            None => Err(
                UndoError::NotFound {
                    message: String::from_str("no matching checkpoint to roll back to"),
                },
            ),
            Some(i) => {
                let len = self.rows.len();
                assert(i < len);
                let id = match &self.rows[i] {
                    Row::Checkpoint { id, .. } => id.clone(),
                    _ => String::new(),
                };
                let effects = effects_after(&self.rows, i + 1);
                assert(self@.rows.subrange(i + 1, self@.rows.len() as int) =~= self@.rows.skip(
                    i + 1,
                ));
                Ok(RollbackScope { index: i, checkpoint: id, effects })
            },
        }
    }

    /// The filesystem operations of a rollback to `target` (or to the latest
    /// checkpoint): one step per effect recorded since, newest first, each
    /// the operations reversing that effect. Run one after the other they
    /// are exactly the reversal plan of those effects.
    pub fn rollback_plan(&self, target: Option<&str>) -> (r: Result<Vec<Vec<FsOp>>, UndoError>)
        ensures
            match rollback_index(self@.rows, opt_str_view(target)) {
                None => r matches Err(UndoError::NotFound { message }) && message@
                    == no_checkpoint_message(),
                Some(i) => r matches Ok(steps) && {
                    let effs = effects_in(self@.rows.skip(i + 1));
                    &&& steps@.map_values(|v: Vec<FsOp>| op_views(v@)) == inverse_steps(effs)
                    &&& flat_steps(steps@.map_values(|v: Vec<FsOp>| op_views(v@))) == reversal_plan(effs)
                },
            },
    {
        let scope = match self.rollback_scope(target) {
            Err(e) => {
                return Err(e);
            },
            Ok(s) => s,
        };
        let ghost effs = effect_views(scope.effects@);
        let n = scope.effects.len();
        let mut steps: Vec<Vec<FsOp>> = Vec::new();
        let mut k: usize = 0;
        while k < n
            invariant
                k <= n,
                n == scope.effects@.len(),
                effs == effect_views(scope.effects@),
                steps@.map_values(|v: Vec<FsOp>| op_views(v@)) == inverse_steps(effs).take(k as int),
            decreases n - k,
        {
            let ops = scope.effects[n - 1 - k].inverse_ops();
            assert(effs[n - 1 - k] == scope.effects@[n - 1 - k]@);
            assert(op_views(ops@) == inverse_steps(effs)[k as int]);
            let ghost old_steps = steps@;
            steps.push(ops);
            assert(steps@.map_values(|v: Vec<FsOp>| op_views(v@)) =~= old_steps.map_values(
                |v: Vec<FsOp>| op_views(v@),
            ).push(op_views(ops@)));
            assert(steps@.map_values(|v: Vec<FsOp>| op_views(v@)) =~= inverse_steps(effs).take(
                k + 1,
            ));
            k = k + 1;
        }
        proof {
            assert(inverse_steps(effs).take(n as int) =~= inverse_steps(effs));
            lemma_inverse_steps(effs);
        }
        Ok(steps)
    }

    /// Rewinds everything recorded after the checkpoint `target` (or the
    /// latest one). `walk` is the completed after-state walk from the paths
    /// of the effects being reversed (the state captured before reversing,
    /// one snapshot per path, covering every effect path), and `outcomes[k]`
    /// is how reversing the `k`-th newest effect went. The
    /// journal is only cut back if every reversal succeeded; otherwise the
    /// history is left exactly as it was, so retrying is safe.
    pub fn rollback(
        &mut self,
        target: Option<&str>,
        walk: AfterWalk,
        outcomes: Vec<Result<(), String>>,
    ) -> (r: Result<RollbackReport, UndoError>)
        requires
            rollback_index(old(self)@.rows, opt_str_view(target)) matches Some(i) ==> outcomes@.len()
                == effects_in(old(self)@.rows.skip(i + 1)).len(),
            rollback_index(old(self)@.rows, opt_str_view(target)) matches Some(i) ==> walk.roots@
                == effects_in(old(self)@.rows.skip(i + 1)),
            walk.well_formed(),
            walk.pending@.len() == 0,
        ensures
            match rollback_index(old(self)@.rows, opt_str_view(target)) {
                None => {
                    &&& final(self)@ == old(self)@
                    &&& r matches Err(UndoError::NotFound { message }) && message@
                        == no_checkpoint_message()
                },
                Some(i) => r matches Ok(rep) && {
                    let effs = effects_in(old(self)@.rows.skip(i + 1)).reverse();
                    let outs = outcome_views(outcomes@);
                    let lines = rollback_lines(effs, outs, outs.len() as int);
                    &&& rep.checkpoint@ == checkpoint_id_of(old(self)@.rows[i])
                    &&& views(rep.reverted@) == lines.0
                    &&& views(rep.skipped@) == lines.1
                    &&& views(rep.failed@) == lines.2
                    &&& if lines.2.len() == 0 {
                        final(self)@ == rolled_back(old(self)@, i, snap_views(walk.snaps@))
                    } else {
                        final(self)@ == old(self)@
                    }
                },
            },
            consistent(old(self)@) ==> consistent(final(self)@),
    {
        proof {
            lemma_rollback_index(self@.rows, opt_str_view(target));
            assert(self@.rows.len() == self.rows@.len());
        }
        let scope = match self.rollback_scope(target) {
            Err(e) => {
                return Err(e);
            },
            Ok(s) => s,
        };
        let ghost effs = effect_views(scope.effects@).reverse();
        let ghost outs = outcome_views(outcomes@);
        let n = scope.effects.len();
        let mut reverted: Vec<String> = Vec::new();
        let mut skipped: Vec<String> = Vec::new();
        let mut failed: Vec<String> = Vec::new();
        let mut k: usize = 0;
        proof {
            assert(views(reverted@) =~= Seq::<Seq<char>>::empty());
            assert(views(skipped@) =~= Seq::<Seq<char>>::empty());
            assert(views(failed@) =~= Seq::<Seq<char>>::empty());
        }
        while k < n
            invariant
                k <= n,
                n == scope.effects@.len(),
                n == outcomes@.len(),
                effs == effect_views(scope.effects@).reverse(),
                outs == outcome_views(outcomes@),
                views(reverted@) == rollback_lines(effs, outs, k as int).0,
                views(skipped@) == rollback_lines(effs, outs, k as int).1,
                views(failed@) == rollback_lines(effs, outs, k as int).2,
            decreases n - k,
        {
            let eff = &scope.effects[n - 1 - k];
            assert(effs[k as int] == eff@);
            assert(outs[k as int] == outcome_error(outcomes@[k as int]));
            match eff.revert_message() {
                None => {
                    let d = eff.describe();
                    let line = concat2(d.as_str(), " (manual)");
                    let ghost old_s = skipped@;
                    skipped.push(line);
                    assert(views(skipped@) =~= views(old_s).push(manual_line(eff@)));
                },
                Some(m) => match &outcomes[k] {
                    Err(e) => {
                        let d = eff.describe();
                        let mut line = concat3(d.as_str(), " (error: ", e.as_str());
                        line.append(")");
                        let ghost old_f = failed@;
                        failed.push(line);
                        assert(views(failed@) =~= views(old_f).push(error_line(eff@.description(), e@)));
                    },
                    Ok(()) => {
                        let ghost old_r = reverted@;
                        reverted.push(m);
                        assert(views(reverted@) =~= views(old_r).push(eff@.revert_message()->0));
                    },
                },
            }
            k = k + 1;
        }
        if failed.len() == 0 {
            let i = scope.index;
            let len = self.rows.len();
            assert(i < len);
            let kept = copy_rows(&self.rows, 0, i + 1);
            let removed = copy_rows(&self.rows, i + 1, self.rows.len());
            let st = rebuild_state(self.state.checkpoint_high, kept.as_slice());
            proof {
                assert(row_views(kept@) =~= self@.rows.take(i + 1));
                assert(row_views(removed@) =~= self@.rows.skip(i + 1));
            }
            let ghost h = self.state.checkpoint_high;
            self.rows = kept;
            self.state = st;
            self.redo = RedoSlot::Pending(RedoLog { rows: removed, after: walk.snaps });
            proof {
                lemma_rebuilt_consistent(h, self@);
            }
        }
        Ok(RollbackReport { checkpoint: scope.checkpoint, reverted, skipped, failed })
    }
}

// ---- redo --------------------------------------------------------------------------

/// Number of components of a path.
pub open spec fn depth(p: Seq<char>) -> int {
    components(p).len() as int
}

/// `a` must be restored strictly before `b`: paths that come back to life go
/// first, parents before children; removals go last, children before parents.
pub open spec fn restores_first(a: AfterSnapV, b: AfterSnapV) -> bool {
    let ra = a.state is Absent;
    let rb = b.state is Absent;
    if !ra && rb {
        true
    } else if !ra && !rb {
        depth(a.path) < depth(b.path)
    } else if ra && rb {
        depth(a.path) > depth(b.path)
    } else {
        false
    }
}

/// Index `i` of `s` comes before index `j` in a redo: by [`restores_first`],
/// and in their original order when neither must come first.
pub open spec fn index_before(s: Seq<AfterSnapV>, i: int, j: int) -> bool {
    restores_first(s[i], s[j]) || (!restores_first(s[j], s[i]) && i < j)
}

/// `p` lists every index of `s` once, in redo order (a stable sort).
pub open spec fn is_redo_order(s: Seq<AfterSnapV>, p: Seq<int>) -> bool {
    &&& p.len() == s.len()
    &&& forall|k: int| 0 <= k < p.len() ==> 0 <= #[trigger] p[k] < s.len()
    &&& forall|x: int| 0 <= x < s.len() ==> #[trigger] p.contains(x)
    &&& forall|a: int, b: int| 0 <= a < b < p.len() ==> index_before(s, #[trigger] p[a], #[trigger] p[b])
}

/// The redo order of `s` (it exists and is unique).
pub open spec fn redo_order(s: Seq<AfterSnapV>) -> Seq<int> {
    choose|p: Seq<int>| is_redo_order(s, p)
}

/// `s` rearranged by the index list `p`.
pub open spec fn arranged(s: Seq<AfterSnapV>, p: Seq<int>) -> Seq<AfterSnapV> {
    Seq::new(p.len(), |k: int| s[p[k]])
}

proof fn lemma_index_before_order(s: Seq<AfterSnapV>, i: int, j: int, k: int)
    ensures
        !index_before(s, i, i),
        !(index_before(s, i, j) && index_before(s, j, i)),
        i != j ==> index_before(s, i, j) || index_before(s, j, i),
        index_before(s, i, j) && index_before(s, j, k) ==> index_before(s, i, k),
{
}

/// There is only one redo order.
pub proof fn lemma_redo_order_unique(s: Seq<AfterSnapV>, p: Seq<int>, q: Seq<int>)
    requires
        is_redo_order(s, p),
        is_redo_order(s, q),
    ensures
        p == q,
{
    assert forall|k: int| 0 <= k < p.len() implies p[k] == q[k] by {
        lemma_redo_order_prefix_equal(s, p, q, k);
    }
    assert(p =~= q);
}

proof fn lemma_redo_order_prefix_equal(s: Seq<AfterSnapV>, p: Seq<int>, q: Seq<int>, k: int)
    requires
        is_redo_order(s, p),
        is_redo_order(s, q),
        0 <= k < p.len(),
    ensures
        forall|j: int| 0 <= j <= k ==> p[j] == q[j],
    decreases k,
{
    if k > 0 {
        lemma_redo_order_prefix_equal(s, p, q, k - 1);
    }
    let x = p[k];
    let y = q[k];
    if x != y {
        lemma_index_before_order(s, x, y, x);
        assert(q.contains(x));
        assert(p.contains(y));
        let m = choose|m: int| 0 <= m < q.len() && q[m] == x;
        let n = choose|n: int| 0 <= n < p.len() && p[n] == y;
        if m < k {
            assert(p[m] == q[m]);
            assert(index_before(s, p[m], p[k]));
            lemma_index_before_order(s, x, x, x);
        }
        if n < k {
            assert(p[n] == q[n]);
            assert(index_before(s, q[n], q[k]));
            lemma_index_before_order(s, y, y, y);
        }
        if m > k && n > k {
            assert(index_before(s, q[k], q[m]));
            assert(index_before(s, p[k], p[n]));
        }
    }
}

fn snap_depth(s: &AfterSnap) -> (d: usize)
    ensures
        d == depth(s@.path),
{
    let cs = component_chars(s.path.as_str());
    assert(vviews(cs@).len() == cs@.len());
    cs.len()
}

fn snap_restores_first(a: &AfterSnap, b: &AfterSnap) -> (r: bool)
    ensures
        r == restores_first(a@, b@),
{
    let ra = match a.state {
        AfterState::Absent => true,
        _ => false,
    };
    let rb = match b.state {
        AfterState::Absent => true,
        _ => false,
    };
    let da = snap_depth(a);
    let db = snap_depth(b);
    if !ra && rb {
        true
    } else if !ra && !rb {
        da < db
    } else if ra && rb {
        da > db
    } else {
        false
    }
}

pub open spec fn usize_ints(v: Seq<usize>) -> Seq<int> {
    v.map_values(|x: usize| x as int)
}

/// The redo order of the after-snapshots, as a list of indices.
fn redo_permutation(after: &Vec<AfterSnap>) -> (p: Vec<usize>)
    ensures
        is_redo_order(snap_views(after@), usize_ints(p@)),
{
    let ghost sv = snap_views(after@);
    let mut p: Vec<usize> = Vec::new();
    let mut i: usize = 0;
    while i < after.len()
        invariant
            i <= after@.len(),
            sv == snap_views(after@),
            sv.len() == after@.len(),
            p@.len() == i,
            forall|k: int| 0 <= k < p@.len() ==> 0 <= #[trigger] p@[k] < i,
            forall|x: int| 0 <= x < i ==> #[trigger] usize_ints(p@).contains(x),
            forall|a: int, b: int|
                0 <= a < b < p@.len() ==> index_before(sv, #[trigger] p@[a] as int, #[trigger] p@[b] as int),
        decreases after@.len() - i,
    {
        let mut q: usize = 0;
        while q < p.len() && !snap_restores_first(&after[i], &after[p[q]])
            invariant
                q <= p@.len(),
                i < after@.len(),
                sv == snap_views(after@),
                forall|k: int| 0 <= k < p@.len() ==> 0 <= #[trigger] p@[k] < i,
                forall|k: int| 0 <= k < q ==> !restores_first(sv[i as int], #[trigger] sv[p@[k] as int]),
            decreases p@.len() - q,
        {
            q = q + 1;
        }
        let ghost old_p = p@;
        p.insert(q, i);
        proof {
            assert(p@ =~= old_p.insert(q as int, i));
            if q < old_p.len() {
                assert(restores_first(sv[i as int], sv[old_p[q as int] as int]));
            }
            assert forall|a: int, b: int| 0 <= a < b < p@.len() implies index_before(
                sv,
                #[trigger] p@[a] as int,
                #[trigger] p@[b] as int,
            ) by {
                if b < q {
                    assert(p@[a] == old_p[a] && p@[b] == old_p[b]);
                } else if b == q {
                    assert(p@[a] == old_p[a]);
                    assert(!restores_first(sv[i as int], sv[old_p[a] as int]));
                } else if a < q {
                    assert(p@[a] == old_p[a] && p@[b] == old_p[b - 1]);
                    assert(!restores_first(sv[i as int], sv[old_p[a] as int]));
                    assert(index_before(sv, old_p[q as int] as int, old_p[b - 1] as int) || b - 1 == q);
                    lemma_index_before_order(sv, old_p[a] as int, i as int, old_p[b - 1] as int);
                    if b - 1 > q {
                        lemma_index_before_order(sv, i as int, old_p[q as int] as int, old_p[b - 1] as int);
                    }
                } else if a == q {
                    assert(p@[b] == old_p[b - 1]);
                    if b - 1 > q {
                        lemma_index_before_order(sv, i as int, old_p[q as int] as int, old_p[b - 1] as int);
                    }
                } else {
                    assert(p@[a] == old_p[a - 1] && p@[b] == old_p[b - 1]);
                }
            }
            assert forall|x: int| 0 <= x < i + 1 implies #[trigger] usize_ints(p@).contains(x) by {
                if x == i {
                    assert(usize_ints(p@)[q as int] == x);
                } else {
                    assert(usize_ints(old_p).contains(x));
                    let k = choose|k: int| 0 <= k < old_p.len() && usize_ints(old_p)[k] == x;
                    if k < q {
                        assert(usize_ints(p@)[k] == x);
                    } else {
                        assert(usize_ints(p@)[k + 1] == x);
                    }
                }
            }
        }
        i = i + 1;
    }
    proof {
        let pi = usize_ints(p@);
        assert forall|a: int, b: int| 0 <= a < b < pi.len() implies index_before(
            sv,
            #[trigger] pi[a],
            #[trigger] pi[b],
        ) by {
            assert(pi[a] == p@[a] as int && pi[b] == p@[b] as int);
        }
    }
    p
}

/// The after-snapshots in the order a redo restores them.
pub fn redo_sequence(after: &Vec<AfterSnap>) -> (r: Vec<AfterSnap>)
    ensures
        snap_views(r@) == arranged(snap_views(after@), redo_order(snap_views(after@))),
        is_redo_order(snap_views(after@), redo_order(snap_views(after@))),
{
    let p = redo_permutation(after);
    let ghost sv = snap_views(after@);
    proof {
        lemma_redo_order_unique(sv, usize_ints(p@), redo_order(sv));
    }
    let mut r: Vec<AfterSnap> = Vec::new();
    let mut k: usize = 0;
    while k < p.len()
        invariant
            k <= p@.len(),
            sv == snap_views(after@),
            is_redo_order(sv, usize_ints(p@)),
            r@.len() == k,
            forall|j: int| 0 <= j < k ==> (#[trigger] r@[j])@ == sv[p@[j] as int],
        decreases p@.len() - k,
    {
        assert(usize_ints(p@)[k as int] == p@[k as int] as int);
        r.push(after[p[k]].duplicate());
        k = k + 1;
    }
    assert(snap_views(r@) =~= arranged(sv, usize_ints(p@)));
    r
}

pub open spec fn nothing_to_redo_message() -> Seq<char> {
    "nothing to redo"@
}

/// The lines of a redo report after the first `k` outcomes: restored, failed.
pub open spec fn redo_lines(snaps: Seq<AfterSnapV>, outs: Seq<Option<Seq<char>>>, k: int) -> (
    Seq<Seq<char>>,
    Seq<Seq<char>>,
)
    decreases k,
{
    if k <= 0 {
        (seq![], seq![])
    } else {
        let (rs, fl) = redo_lines(snaps, outs, k - 1);
        match outs[k - 1] {
            Some(err) => (rs, fl.push(error_line(snaps[k - 1].path, err))),
            None => (rs.push(snaps[k - 1].restore_message()), fl),
        }
    }
}

/// The history after a successful redo: the rows the rollback removed are
/// appended again, the cache is rebuilt, and the redo file is gone.
pub open spec fn redone(u: UndoV) -> UndoV {
    match u.redo {
        RedoSlotV::Pending { rows, .. } => UndoV {
            rows: u.rows + rows,
            state: rebuild(u.state.checkpoint_high, u.rows + rows),
            redo: RedoSlotV::Absent,
            ..u
        },
        _ => u,
    }
}

impl Undo {
    /// The after-state a redo restores, in the order it restores it.
    pub fn redo_scope(&self) -> (r: Result<Vec<AfterSnap>, UndoError>)
        ensures
            match self@.redo {
                RedoSlotV::Pending { after, .. } => r matches Ok(v) && snap_views(v@) == arranged(
                    after,
                    redo_order(after),
                ) && is_redo_order(after, redo_order(after)),
                _ => r matches Err(UndoError::NotFound { message }) && message@
                    == nothing_to_redo_message(),
            },
    {
        match &self.redo {
            RedoSlot::Pending(log) => Ok(redo_sequence(&log.after)),
            _ => Err(UndoError::NotFound { message: String::from_str("nothing to redo") }),
        }
    }

    /// The filesystem operations of a redo: one step per after-snapshot, in
    /// redo order, each the operations restoring it. Run one after the other
    /// they are exactly the redo plan of those snapshots.
    pub fn redo_steps(&self) -> (r: Result<Vec<Vec<FsOp>>, UndoError>)
        ensures
            match self@.redo {
                RedoSlotV::Pending { after, .. } => r matches Ok(steps) && {
                    let t = arranged(after, redo_order(after));
                    &&& steps@.map_values(|v: Vec<FsOp>| op_views(v@)) == t.map_values(
                        |s: AfterSnapV| s.restore_ops(),
                    )
                    &&& flat_steps(steps@.map_values(|v: Vec<FsOp>| op_views(v@))) == redo_plan(t)
                },
                _ => r matches Err(UndoError::NotFound { message }) && message@
                    == nothing_to_redo_message(),
            },
    {
        let snaps = match self.redo_scope() {
            Err(e) => {
                return Err(e);
            },
            Ok(s) => s,
        };
        let ghost t = snap_views(snaps@);
        let mut steps: Vec<Vec<FsOp>> = Vec::new();
        let mut k: usize = 0;
        while k < snaps.len()
            invariant
                k <= snaps@.len(),
                t == snap_views(snaps@),
                steps@.map_values(|v: Vec<FsOp>| op_views(v@)) == t.take(k as int).map_values(
                    |s: AfterSnapV| s.restore_ops(),
                ),
            decreases snaps@.len() - k,
        {
            let ops = snaps[k].restore_ops();
            assert(t[k as int] == snaps@[k as int]@);
            let ghost old_steps = steps@;
            steps.push(ops);
            assert(steps@.map_values(|v: Vec<FsOp>| op_views(v@)) =~= old_steps.map_values(
                |v: Vec<FsOp>| op_views(v@),
            ).push(op_views(ops@)));
            assert(t.take(k + 1) =~= t.take(k as int).push(t[k as int]));
            assert(steps@.map_values(|v: Vec<FsOp>| op_views(v@)) =~= t.take(k + 1).map_values(
                |s: AfterSnapV| s.restore_ops(),
            ));
            k = k + 1;
        }
        proof {
            assert(t.take(snaps@.len() as int) =~= t);
            lemma_restore_steps(t);
        }
        Ok(steps)
    }

    /// Undoes the last rollback. `outcomes[k]` is how restoring the `k`-th
    /// after-snapshot (in redo order) went. Only if every restore succeeded
    /// is the journal re-extended (so it can be rolled back again) and the
    /// redo file dropped; otherwise the history is left as it was.
    pub fn redo(&mut self, outcomes: Vec<Result<(), String>>) -> (r: Result<RedoReport, UndoError>)
        requires
            old(self)@.redo matches RedoSlotV::Pending { after, .. } ==> outcomes@.len()
                == after.len(),
        ensures
            match old(self)@.redo {
                RedoSlotV::Pending { after, .. } => r matches Ok(rep) && {
                    let snaps = arranged(after, redo_order(after));
                    let outs = outcome_views(outcomes@);
                    let lines = redo_lines(snaps, outs, outs.len() as int);
                    &&& views(rep.restored@) == lines.0
                    &&& views(rep.failed@) == lines.1
                    &&& if lines.1.len() == 0 {
                        final(self)@ == redone(old(self)@)
                    } else {
                        final(self)@ == old(self)@
                    }
                },
                _ => {
                    &&& final(self)@ == old(self)@
                    &&& r matches Err(UndoError::NotFound { message }) && message@
                        == nothing_to_redo_message()
                },
            },
            consistent(old(self)@) ==> consistent(final(self)@),
    {
        let snaps = match self.redo_scope() {
            Err(e) => {
                return Err(e);
            },
            Ok(v) => v,
        };
        let ghost sv = snap_views(snaps@);
        let ghost outs = outcome_views(outcomes@);
        proof {
            assert(sv.len() == snaps@.len());
            if let RedoSlotV::Pending { after, .. } = self@.redo {
                assert(redo_order(after).len() == after.len());
            }
        }
        let n = snaps.len();
        let mut restored: Vec<String> = Vec::new();
        let mut failed: Vec<String> = Vec::new();
        proof {
            assert(views(restored@) =~= Seq::<Seq<char>>::empty());
            assert(views(failed@) =~= Seq::<Seq<char>>::empty());
        }
        let mut k: usize = 0;
        while k < n
            invariant
                k <= n,
                n == snaps@.len(),
                n == outcomes@.len(),
                sv == snap_views(snaps@),
                outs == outcome_views(outcomes@),
                views(restored@) == redo_lines(sv, outs, k as int).0,
                views(failed@) == redo_lines(sv, outs, k as int).1,
            decreases n - k,
        {
            let s = &snaps[k];
            assert(sv[k as int] == s@);
            assert(outs[k as int] == outcome_error(outcomes@[k as int]));
            match &outcomes[k] {
                Err(e) => {
                    let mut line = concat3(s.path.as_str(), " (error: ", e.as_str());
                    line.append(")");
                    let ghost old_f = failed@;
                    failed.push(line);
                    assert(views(failed@) =~= views(old_f).push(error_line(s@.path, e@)));
                },
                Ok(()) => {
                    let ghost old_r = restored@;
                    restored.push(s.restore_message());
                    assert(views(restored@) =~= views(old_r).push(s@.restore_message()));
                },
            }
            k = k + 1;
        }
        if failed.len() == 0 {
            let mut removed: Vec<Row> = match &self.redo {
                RedoSlot::Pending(log) => copy_rows(&log.rows, 0, log.rows.len()),
                _ => Vec::new(),
            };
            proof {
                if let RedoSlotV::Pending { rows, .. } = self@.redo {
                    assert(row_views(removed@) == rows);
                }
            }
            let ghost old_rows = row_views(self.rows@);
            let ghost rr = row_views(removed@);
            self.rows.append(&mut removed);
            assert(row_views(self.rows@) =~= old_rows + rr);
            let ghost h = self.state.checkpoint_high;
            let st = rebuild_state(self.state.checkpoint_high, self.rows.as_slice());
            self.state = st;
            self.redo = RedoSlot::Absent;
            proof {
                lemma_rebuilt_consistent(h, self@);
            }
        }
        Ok(RedoReport { restored, failed })
    }
}

// ---- selective revert ------------------------------------------------------------

/// The first of `effs` that concerns exactly the path `p`.
pub open spec fn first_effect_on(effs: Seq<EffectV>, p: Seq<char>) -> Option<EffectV>
    decreases effs.len(),
{
    if effs.len() == 0 {
        None
    } else if effs[0].fs_path() == Some(p) {
        Some(effs[0])
    } else {
        first_effect_on(effs.drop_first(), p)
    }
}

impl Undo {
    /// The effect a selective revert of `path` reverses: the earliest one
    /// captured for exactly that path since the last checkpoint, if any.
    pub fn revert_target(&self, path: &str) -> (r: Option<Effect>)
        ensures
            match r {
                Some(e) => first_effect_on(
                    crate::journal::status_of(self@.rows).1,
                    crate::paths::resolve(self@.workdir, path@),
                ) == Some(e@),
                None => first_effect_on(
                    crate::journal::status_of(self@.rows).1,
                    crate::paths::resolve(self@.workdir, path@),
                ) is None,
            },
    {
        let abs = crate::paths::resolve_path(self.workdir.as_str(), path);
        let st = self.status();
        let ghost effs = effect_views(st.effects@);
        let mut i: usize = 0;
        assert(effs.skip(0) =~= effs);
        while i < st.effects.len()
            invariant
                i <= st.effects@.len(),
                effs == effect_views(st.effects@),
                effs == crate::journal::status_of(self@.rows).1,
                abs@ == crate::paths::resolve(self@.workdir, path@),
                first_effect_on(effs, abs@) == first_effect_on(effs.skip(i as int), abs@),
            decreases st.effects@.len() - i,
        {
            let e = &st.effects[i];
            assert(effs.skip(i as int)[0] == e@);
            match e.path() {
                Some(p) => {
                    if crate::text::str_eq(p.as_str(), abs.as_str()) {
                        return Some(e.duplicate());
                    }
                },
                None => {},
            }
            assert(effs.skip(i as int).drop_first() =~= effs.skip(i + 1));
            i = i + 1;
        }
        None
    }
}

} // verus!
