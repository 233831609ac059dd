//! The append-only journal of checkpoints and effects, the state cache derived
//! from it, and the decisions of checkpoint / track / record / status.
//!
//! A [`Undo`] value is the in-memory image of one project's history: its
//! working directory, the journal rows (in order), the state cache, and the
//! pending redo log, if any. Every operation here is a pure transition of that
//! image; reading and writing the files that hold it is the caller's part.

use vstd::prelude::*;
use crate::effect::{copy_effects, copy_opt_string, effect_views, opt_view, Effect, EffectV};
use crate::meta::Meta;
use crate::order::{insert_sorted, sorted_set_of, strictly_sorted};
use crate::paths::{
    component_chars, components, components_start_with, is_prefix_of, join, join_path, normalize,
    normalize_components, resolve, resolve_path, vviews,
};
use crate::text::{
    chars_of, concat2, decimal, has_prefix, lemma_zero_pad_value, parse_u64, parse_u64_exec,
    push_zero_padded, string_of, views, zero_pad,
};

verus! {

broadcast use vstd::string::group_string_axioms;

/// One line in the journal.
#[derive(Clone, Debug, PartialEq, Eq)]
pub enum Row {
    Checkpoint { id: String, label: String, ts: u64 },
    Effect { seq: u64, checkpoint: String, ts: u64, agent: Option<String>, effect: Effect },
}

/// Mathematical model of a [`Row`].
pub enum RowV {
    Checkpoint { id: Seq<char>, label: Seq<char>, ts: u64 },
    Effect {
        seq: u64,
        checkpoint: Seq<char>,
        ts: u64,
        agent: Option<Seq<char>>,
        effect: EffectV,
    },
}

impl View for Row {
    type V = RowV;

    open spec fn view(&self) -> RowV {
        match self {
            Row::Checkpoint { id, label, ts } => RowV::Checkpoint {
                id: id@,
                label: label@,
                ts: *ts,
            },
            Row::Effect { seq, checkpoint, ts, agent, effect } => RowV::Effect {
                seq: *seq,
                checkpoint: checkpoint@,
                ts: *ts,
                agent: opt_view(*agent),
                effect: effect@,
            },
        }
    }
}

pub open spec fn row_views(s: Seq<Row>) -> Seq<RowV> {
    s.map_values(|r: Row| r@)
}

impl Row {
    pub fn duplicate(&self) -> (r: Self)
        ensures
            r@ == self@,
    {
        match self {
            Row::Checkpoint { id, label, ts } => Row::Checkpoint {
                id: id.clone(),
                label: label.clone(),
                ts: *ts,
            },
            Row::Effect { seq, checkpoint, ts, agent, effect } => Row::Effect {
                seq: *seq,
                checkpoint: checkpoint.clone(),
                ts: *ts,
                agent: copy_opt_string(agent),
                effect: effect.duplicate(),
            },
        }
    }
}

/// Copies `rows[from..to]`, keeping every model.
pub fn copy_rows(rows: &Vec<Row>, from: usize, to: usize) -> (r: Vec<Row>)
    requires
        from <= to <= rows@.len(),
    ensures
        row_views(r@) == row_views(rows@).subrange(from as int, to as int),
{
    let mut r: Vec<Row> = Vec::new();
    let mut i: usize = from;
    while i < to
        invariant
            from <= i <= to <= rows@.len(),
            r@.len() == i - from,
            forall|k: int| 0 <= k < i - from ==> (#[trigger] r@[k])@ == rows@[from + k]@,
        decreases to - i,
    {
        r.push(rows[i].duplicate());
        i = i + 1;
    }
    assert(row_views(r@) =~= row_views(rows@).subrange(from as int, to as int));
    r
}

/// Small cache derived from the journal so common operations don't re-read it.
#[derive(Clone, Debug, PartialEq, Eq)]
pub struct State {
    /// Highest effect sequence number issued.
    pub seq: u64,
    /// High-water mark for checkpoint numbers; never lowered.
    pub checkpoint_high: u64,
    /// The checkpoint new effects attach to.
    pub current_checkpoint: Option<String>,
    /// Paths already captured under the current checkpoint.
    pub captured: Vec<String>,
}

/// Mathematical model of a [`State`].
pub struct StateV {
    pub seq: u64,
    pub checkpoint_high: u64,
    pub current_checkpoint: Option<Seq<char>>,
    pub captured: Seq<Seq<char>>,
}

impl View for State {
    type V = StateV;

    open spec fn view(&self) -> StateV {
        StateV {
            seq: self.seq,
            checkpoint_high: self.checkpoint_high,
            current_checkpoint: opt_view(self.current_checkpoint),
            captured: views(self.captured@),
        }
    }
}

impl Default for State {
    fn default() -> (s: State)
        ensures
            s@ == (StateV {
                seq: 0,
                checkpoint_high: 0,
                current_checkpoint: None,
                captured: Seq::empty(),
            }),
    {
        let s = State { seq: 0, checkpoint_high: 0, current_checkpoint: None, captured: Vec::new() };
        assert(views(s.captured@) =~= Seq::<Seq<char>>::empty());
        s
    }
}

// ---- checkpoint ids ---------------------------------------------------------

/// The id of checkpoint number `n`: `cp` and at least three decimal digits.
pub open spec fn cp_id(n: nat) -> Seq<char> {
    seq!['c', 'p'] + zero_pad(decimal(n), 3)
}

/// The number in a checkpoint id, if it is `cp` followed by a `u64`.
pub open spec fn spec_parse_cp(id: Seq<char>) -> Option<u64> {
    if has_prefix(id, seq!['c', 'p']) {
        parse_u64(id.skip(2))
    } else {
        None
    }
}

/// Formats checkpoint number `n` as its id (`cp001`, `cp042`, `cp1234`).
pub fn format_cp(n: u64) -> (id: String)
    ensures
        id@ == cp_id(n as nat),
{
    let mut cs: Vec<char> = Vec::new();
    cs.push('c');
    cs.push('p');
    push_zero_padded(&mut cs, n, 3);
    assert(cs@ =~= cp_id(n as nat));
    string_of(cs.as_slice())
}

/// Reads the number back out of a checkpoint id.
pub fn parse_cp(id: &str) -> (r: Option<u64>)
    ensures
        r == spec_parse_cp(id@),
{
    let cs = chars_of(id);
    if cs.len() >= 2 && cs[0] == 'c' && cs[1] == 'p' {
        assert(id@.subrange(0, 2) =~= seq!['c', 'p']);
        let mut rest: Vec<char> = Vec::new();
        let mut k: usize = 2;
        while k < cs.len()
            invariant
                2 <= k <= cs@.len(),
                rest@ == cs@.subrange(2, k as int),
            decreases cs@.len() - k,
        {
            rest.push(cs[k]);
            k = k + 1;
            assert(rest@ =~= cs@.subrange(2, k as int));
        }
        assert(rest@ =~= id@.skip(2));
        let s = string_of(rest.as_slice());
        parse_u64_exec(s.as_str())
    } else {
        proof {
            if has_prefix(id@, seq!['c', 'p']) {
                assert(id@.subrange(0, 2)[0] == 'c');
                assert(id@.subrange(0, 2)[1] == 'p');
            }
        }
        None
    }
}

/// Every checkpoint id reads back as the number it was made from.
pub proof fn lemma_cp_id_roundtrip(n: u64)
    ensures
        spec_parse_cp(cp_id(n as nat)) == Some(n),
{
    lemma_zero_pad_value(n as nat, 3);
    let id = cp_id(n as nat);
    assert(id.subrange(0, 2) =~= seq!['c', 'p']);
    assert(id.skip(2) =~= zero_pad(decimal(n as nat), 3));
}

// ---- the state cache, rebuilt from rows --------------------------------------

pub open spec fn max_u64(a: u64, b: u64) -> u64 {
    if a >= b { a } else { b }
}

/// The cache after reading one more row.
pub open spec fn state_step(st: StateV, r: RowV) -> StateV {
    match r {
        RowV::Checkpoint { id, .. } => StateV {
            current_checkpoint: Some(id),
            captured: Seq::empty(),
            checkpoint_high: match spec_parse_cp(id) {
                Some(n) => max_u64(st.checkpoint_high, n),
                None => st.checkpoint_high,
            },
            ..st
        },
        RowV::Effect { seq, effect, .. } => StateV {
            seq: max_u64(st.seq, seq),
            captured: match effect.fs_path() {
                Some(p) => st.captured.push(p),
                None => st.captured,
            },
            ..st
        },
    }
}

/// The cache recomputed from the journal, keeping the checkpoint high-water
/// mark `high` (checkpoint numbers are never reused).
pub open spec fn rebuild(high: u64, rows: Seq<RowV>) -> StateV
    decreases rows.len(),
{
    if rows.len() == 0 {
        StateV { seq: 0, checkpoint_high: high, current_checkpoint: None, captured: Seq::empty() }
    } else {
        state_step(rebuild(high, rows.drop_last()), rows.last())
    }
}

/// Recomputes the state cache from `rows`, keeping `prev_high` as the floor of
/// the checkpoint high-water mark.
pub fn rebuild_state(prev_high: u64, rows: &[Row]) -> (st: State)
    ensures
        st@ == rebuild(prev_high, row_views(rows@)),
{
    let mut st = State {
        seq: 0,
        checkpoint_high: prev_high,
        current_checkpoint: None,
        captured: Vec::new(),
    };
    let ghost rv = row_views(rows@);
    assert(views(st.captured@) =~= Seq::<Seq<char>>::empty());
    assert(rv.take(0) =~= Seq::<RowV>::empty());
    assert(st@ =~= rebuild(prev_high, rv.take(0)));
    let mut i: usize = 0;
    while i < rows.len()
        invariant
            i <= rows@.len(),
            rv == row_views(rows@),
            st@ == rebuild(prev_high, rv.take(i as int)),
        decreases rows@.len() - i,
    {
        assert(rv.take(i + 1).drop_last() =~= rv.take(i as int));
        assert(rv.take(i + 1).last() == rows@[i as int]@);
        match &rows[i] {
            Row::Checkpoint { id, .. } => {
                st.current_checkpoint = Some(id.clone());
                st.captured = Vec::new();
                match parse_cp(id.as_str()) {
                    Some(n) => {
                        if n > st.checkpoint_high {
                            st.checkpoint_high = n;
                        }
                    },
                    None => {},
                }
                assert(views(st.captured@) =~= Seq::<Seq<char>>::empty());
            },
            Row::Effect { seq, effect, .. } => {
                if *seq > st.seq {
                    st.seq = *seq;
                }
                match effect.path() {
                    Some(p) => {
                        let ghost old_t = st.captured@;
                        st.captured.push(p.clone());
                        assert(views(st.captured@) =~= views(old_t).push(p@));
                    },
                    None => {},
                }
            },
        }
        i = i + 1;
        assert(st@ =~= rebuild(prev_high, rv.take(i as int)));
    }
    assert(rv.take(rows@.len() as int) =~= rv);
    st
}

// ---- status --------------------------------------------------------------------

/// The last checkpoint `(id, label)` and the effects recorded after it (all
/// effects when there is no checkpoint).
pub open spec fn status_of(rows: Seq<RowV>) -> (Option<(Seq<char>, Seq<char>)>, Seq<EffectV>)
    decreases rows.len(),
{
    if rows.len() == 0 {
        (None, Seq::empty())
    } else {
        let (cp, effects) = status_of(rows.drop_last());
        match rows.last() {
            RowV::Checkpoint { id, label, .. } => (Some((id, label)), Seq::empty()),
            RowV::Effect { effect, .. } => (cp, effects.push(effect)),
        }
    }
}

/// What's changed since the last checkpoint.
#[derive(Clone, Debug)]
pub struct Status {
    pub checkpoint: Option<(String, String)>,
    pub effects: Vec<Effect>,
}

pub open spec fn pair_view(p: Option<(String, String)>) -> Option<(Seq<char>, Seq<char>)> {
    match p {
        Some((a, b)) => Some((a@, b@)),
        None => None,
    }
}

/// The latest checkpoint and everything recorded since.
pub fn status_from(rows: &Vec<Row>) -> (st: Status)
    ensures
        pair_view(st.checkpoint) == status_of(row_views(rows@)).0,
        effect_views(st.effects@) == status_of(row_views(rows@)).1,
{
    let ghost rv = row_views(rows@);
    let mut checkpoint: Option<(String, String)> = None;
    let mut effects: Vec<Effect> = Vec::new();
    assert(rv.take(0) =~= Seq::<RowV>::empty());
    assert(effect_views(effects@) =~= Seq::<EffectV>::empty());
    let mut i: usize = 0;
    while i < rows.len()
        invariant
            i <= rows@.len(),
            rv == row_views(rows@),
            pair_view(checkpoint) == status_of(rv.take(i as int)).0,
            effect_views(effects@) == status_of(rv.take(i as int)).1,
        decreases rows@.len() - i,
    {
        assert(rv.take(i + 1).drop_last() =~= rv.take(i as int));
        assert(rv.take(i + 1).last() == rows@[i as int]@);
        match &rows[i] {
            Row::Checkpoint { id, label, .. } => {
                checkpoint = Some((id.clone(), label.clone()));
                effects = Vec::new();
                assert(effect_views(effects@) =~= Seq::<EffectV>::empty());
            },
            Row::Effect { effect, .. } => {
                let ghost old_e = effects@;
                effects.push(effect.duplicate());
                assert(effect_views(effects@) =~= effect_views(old_e).push(effect@));
            },
        }
        i = i + 1;
    }
    assert(rv.take(rows@.len() as int) =~= rv);
    Status { checkpoint, effects }
}

/// Is `s` one of the strings of `v`?
pub fn contains_string(v: &Vec<String>, s: &String) -> (r: bool)
    ensures
        r == views(v@).contains(s@),
{
    let mut i: usize = 0;
    while i < v.len()
        invariant
            i <= v@.len(),
            forall|k: int| 0 <= k < i ==> v@[k]@ != s@,
        decreases v@.len() - i,
    {
        if v[i] == *s {
            assert(views(v@)[i as int] == s@);
            return true;
        }
        i = i + 1;
    }
    assert(!views(v@).contains(s@)) by {
        if views(v@).contains(s@) {
            let k = choose|k: int| 0 <= k < views(v@).len() && views(v@)[k] == s@;
            assert(v@[k]@ == s@);
        }
    }
    false
}

// ---- errors -------------------------------------------------------------------

/// Why an operation was refused.
#[derive(Clone, Debug, PartialEq, Eq)]
pub enum UndoError {
    /// Nothing to act on (no such checkpoint, nothing to redo).
    NotFound { message: String },
    /// The path lies outside the project, or inside its `.undo` directory.
    PermissionDenied { message: String },
}

// ---- redo data ------------------------------------------------------------------

/// The state of a path just before a rollback touched it.
#[derive(Clone, Debug, PartialEq, Eq)]
pub enum AfterState {
    File { blob: String, meta: Meta },
    Symlink { target: String },
    Dir { mode: u32 },
    Absent,
}

pub enum AfterStateV {
    File { blob: Seq<char>, meta: Meta },
    Symlink { target: Seq<char> },
    Dir { mode: u32 },
    Absent,
}

impl View for AfterState {
    type V = AfterStateV;

    open spec fn view(&self) -> AfterStateV {
        match self {
            AfterState::File { blob, meta } => AfterStateV::File { blob: blob@, meta: *meta },
            AfterState::Symlink { target } => AfterStateV::Symlink { target: target@ },
            AfterState::Dir { mode } => AfterStateV::Dir { mode: *mode },
            AfterState::Absent => AfterStateV::Absent,
        }
    }
}

/// A path and its state captured at rollback time.
#[derive(Clone, Debug, PartialEq, Eq)]
pub struct AfterSnap {
    pub path: String,
    pub state: AfterState,
}

pub struct AfterSnapV {
    pub path: Seq<char>,
    pub state: AfterStateV,
}

impl View for AfterSnap {
    type V = AfterSnapV;

    open spec fn view(&self) -> AfterSnapV {
        AfterSnapV { path: self.path@, state: self.state@ }
    }
}

pub open spec fn snap_views(s: Seq<AfterSnap>) -> Seq<AfterSnapV> {
    s.map_values(|a: AfterSnap| a@)
}

impl AfterSnap {
    pub fn duplicate(&self) -> (r: Self)
        ensures
            r@ == self@,
    {
        AfterSnap {
            path: self.path.clone(),
            state: match &self.state {
                AfterState::File { blob, meta } => AfterState::File { blob: blob.clone(), meta: *meta },
                AfterState::Symlink { target } => AfterState::Symlink { target: target.clone() },
                AfterState::Dir { mode } => AfterState::Dir { mode: *mode },
                AfterState::Absent => AfterState::Absent,
            },
        }
    }
}

/// What a rollback removed from the journal, and the after-state of every
/// path it touched, so that the rollback can itself be undone.
#[derive(Clone, Debug, PartialEq, Eq)]
pub struct RedoLog {
    pub rows: Vec<Row>,
    pub after: Vec<AfterSnap>,
}

/// The redo file: missing, present but unreadable, or holding a redo log.
#[derive(Clone, Debug, PartialEq, Eq)]
pub enum RedoSlot {
    Absent,
    Unreadable,
    Pending(RedoLog),
}

pub enum RedoSlotV {
    Absent,
    Unreadable,
    Pending { rows: Seq<RowV>, after: Seq<AfterSnapV> },
}

impl View for RedoSlot {
    type V = RedoSlotV;

    open spec fn view(&self) -> RedoSlotV {
        match self {
            RedoSlot::Absent => RedoSlotV::Absent,
            RedoSlot::Unreadable => RedoSlotV::Unreadable,
            RedoSlot::Pending(log) => RedoSlotV::Pending {
                rows: row_views(log.rows@),
                after: snap_views(log.after@),
            },
        }
    }
}

// ---- the history of one project ---------------------------------------------------

/// The history of one project: its working directory, the journal rows in
/// order, the state cache, and the redo file.
pub struct Undo {
    pub workdir: String,
    pub rows: Vec<Row>,
    pub state: State,
    pub redo: RedoSlot,
}

pub struct UndoV {
    pub workdir: Seq<char>,
    pub rows: Seq<RowV>,
    pub state: StateV,
    pub redo: RedoSlotV,
}

impl View for Undo {
    type V = UndoV;

    open spec fn view(&self) -> UndoV {
        UndoV {
            workdir: self.workdir@,
            rows: row_views(self.rows@),
            state: self.state@,
            redo: self.redo@,
        }
    }
}

/// The name of the directory that holds a project's history.
pub open spec fn undo_dir_name() -> Seq<char> {
    seq!['.', 'u', 'n', 'd', 'o']
}

/// `<workdir>/.undo`.
pub open spec fn undo_root(workdir: Seq<char>) -> Seq<char> {
    join(workdir, undo_dir_name())
}

/// The lexically normalized components of a path.
pub open spec fn norm(p: Seq<char>) -> Seq<Seq<char>> {
    normalize(components(p))
}

/// `abs` lies within the project rooted at `workdir`, comparing components
/// with `.` and `..` resolved (both paths given with symlinks resolved).
pub open spec fn within_project(workdir: Seq<char>, abs: Seq<char>) -> bool {
    is_prefix_of(norm(workdir), norm(abs))
}

/// `abs` lies within the project's own `.undo` directory, comparing
/// components with `.` and `..` resolved.
pub open spec fn within_undo_dir(workdir: Seq<char>, abs: Seq<char>) -> bool {
    is_prefix_of(norm(undo_root(workdir)), norm(abs))
}

pub open spec fn outside_message(abs: Seq<char>) -> Seq<char> {
    "refusing to track a path outside the project: "@ + abs
}

pub open spec fn own_dir_message() -> Seq<char> {
    "refusing to track undo's own .undo directory"@
}

/// The label of a checkpoint created implicitly.
pub open spec fn auto_label() -> Seq<char> {
    "auto"@
}

/// The history with a current checkpoint: unchanged if there is one,
/// otherwise with a new "auto" checkpoint appended.
pub open spec fn with_checkpoint(u: UndoV, ts: u64) -> UndoV {
    if u.state.current_checkpoint is Some {
        u
    } else {
        let n = (u.state.checkpoint_high + 1) as u64;
        let id = cp_id(n as nat);
        UndoV {
            rows: u.rows.push(RowV::Checkpoint { id, label: auto_label(), ts }),
            state: StateV {
                checkpoint_high: n,
                current_checkpoint: Some(id),
                captured: Seq::empty(),
                ..u.state
            },
            ..u
        }
    }
}

/// The key under which a captured effect is remembered: its path, or empty.
pub open spec fn capture_key(e: EffectV) -> Seq<char> {
    match e.fs_path() {
        Some(p) => p,
        None => Seq::empty(),
    }
}

/// Keys already captured: the earlier ones plus those of `es`.
pub open spec fn seen_after(seen: Set<Seq<char>>, es: Seq<EffectV>) -> Set<Seq<char>> {
    seen.union(es.map_values(|e: EffectV| capture_key(e)).to_set())
}

/// The effects of `es` that get recorded: each one whose key was not
/// captured before, neither earlier nor by a preceding effect of `es`.
pub open spec fn newly_captured(seen: Set<Seq<char>>, es: Seq<EffectV>) -> Seq<EffectV>
    decreases es.len(),
{
    if es.len() == 0 {
        Seq::empty()
    } else {
        let prev = es.drop_last();
        if seen_after(seen, prev).contains(capture_key(es.last())) {
            newly_captured(seen, prev)
        } else {
            newly_captured(seen, prev).push(es.last())
        }
    }
}

/// The journal rows for recorded effects, numbered from `seq0 + 1`.
pub open spec fn effect_rows(seq0: u64, cp: Seq<char>, ts: u64, es: Seq<EffectV>) -> Seq<RowV> {
    Seq::new(
        es.len(),
        |k: int|
            RowV::Effect {
                seq: (seq0 + k + 1) as u64,
                checkpoint: cp,
                ts,
                agent: None,
                effect: es[k],
            },
    )
}

// ---- the cache agrees with the journal -----------------------------------

/// The largest checkpoint number among the rows (0 if none).
pub open spec fn ids_max(rows: Seq<RowV>) -> u64
    decreases rows.len(),
{
    if rows.len() == 0 {
        0
    } else {
        let m = ids_max(rows.drop_last());
        match rows.last() {
            RowV::Checkpoint { id, .. } => match spec_parse_cp(id) {
                Some(n) => max_u64(m, n),
                None => m,
            },
            _ => m,
        }
    }
}

/// The id of the last checkpoint row, if any.
pub open spec fn last_checkpoint_id(rows: Seq<RowV>) -> Option<Seq<char>> {
    match status_of(rows).0 {
        Some((id, _)) => Some(id),
        None => None,
    }
}

/// Rebuilding with floor `h` gives the same cache whatever `h`, but for the
/// high-water mark, which is the larger of `h` and the largest checkpoint
/// number; the current checkpoint is the last one.
pub proof fn lemma_rebuild_parts(h: u64, rows: Seq<RowV>)
    ensures
        rebuild(h, rows).checkpoint_high == max_u64(h, ids_max(rows)),
        rebuild(h, rows) == (StateV { checkpoint_high: rebuild(h, rows).checkpoint_high, ..rebuild(0, rows) }),
        rebuild(h, rows).current_checkpoint == last_checkpoint_id(rows),
    decreases rows.len(),
{
    if rows.len() > 0 {
        lemma_rebuild_parts(h, rows.drop_last());
        lemma_rebuild_parts(0, rows.drop_last());
    }
}

/// The cache `state` is what rebuilding it from the journal gives (its set
/// of captured paths taken as a set), and its high-water mark is at least
/// every checkpoint number of the journal.
pub open spec fn consistent(u: UndoV) -> bool {
    let r = rebuild(u.state.checkpoint_high, u.rows);
    &&& r.checkpoint_high == u.state.checkpoint_high
    &&& r.seq == u.state.seq
    &&& r.current_checkpoint == u.state.current_checkpoint
    &&& r.captured.to_set() == u.state.captured.to_set()
}

/// A cache rebuilt from the journal agrees with it.
pub proof fn lemma_rebuilt_consistent(h: u64, u: UndoV)
    requires
        u.state == rebuild(h, u.rows),
    ensures
        consistent(u),
{
    lemma_rebuild_parts(h, u.rows);
    lemma_rebuild_parts(u.state.checkpoint_high, u.rows);
}

/// Starting a checkpoint numbered one past the high-water mark keeps the
/// cache in agreement with the journal.
pub proof fn lemma_checkpoint_consistent(u: UndoV, label: Seq<char>, ts: u64)
    requires
        consistent(u),
        u.state.checkpoint_high < u64::MAX,
    ensures
        ({
            let n = (u.state.checkpoint_high + 1) as u64;
            let id = cp_id(n as nat);
            consistent(UndoV {
                rows: u.rows.push(RowV::Checkpoint { id, label, ts }),
                state: StateV {
                    checkpoint_high: n,
                    current_checkpoint: Some(id),
                    captured: Seq::empty(),
                    ..u.state
                },
                ..u
            })
        }),
{
    let n = (u.state.checkpoint_high + 1) as u64;
    let id = cp_id(n as nat);
    let rows = u.rows.push(RowV::Checkpoint { id, label, ts });
    lemma_rebuild_parts(u.state.checkpoint_high, u.rows);
    lemma_rebuild_parts(n, u.rows);
    lemma_rebuild_parts(n, rows);
    lemma_cp_id_roundtrip(n);
    assert(rows.drop_last() =~= u.rows);
}

/// Appending the rows of a capture keeps the cache in agreement with the
/// journal, counting their paths as captured.
pub proof fn lemma_effect_rows_rebuild(h: u64, rows: Seq<RowV>, cp: Seq<char>, ts: u64, rec: Seq<EffectV>)
    requires
        rebuild(h, rows).seq + rec.len() <= u64::MAX,
        forall|k: int| 0 <= k < rec.len() ==> (#[trigger] rec[k]).fs_path() is Some,
    ensures
        ({
            let r = rebuild(h, rows);
            let after = rebuild(h, rows + effect_rows(r.seq, cp, ts, rec));
            &&& after.seq == r.seq + rec.len()
            &&& after.checkpoint_high == r.checkpoint_high
            &&& after.current_checkpoint == r.current_checkpoint
            &&& after.captured.to_set() == r.captured.to_set().union(
                rec.map_values(|e: EffectV| capture_key(e)).to_set(),
            )
        }),
    decreases rec.len(),
{
    let r = rebuild(h, rows);
    if rec.len() == 0 {
        assert(rows + effect_rows(r.seq, cp, ts, rec) =~= rows);
        assert(rec.map_values(|e: EffectV| capture_key(e)).to_set() =~= Set::empty());
        assert(r.captured.to_set().union(Set::empty()) =~= r.captured.to_set());
    } else {
        let d = rec.drop_last();
        lemma_effect_rows_rebuild(h, rows, cp, ts, d);
        let all = rows + effect_rows(r.seq, cp, ts, rec);
        assert(all.drop_last() =~= rows + effect_rows(r.seq, cp, ts, d));
        let prev = rebuild(h, all.drop_last());
        let e = rec.last();
        assert(all.last() == RowV::Effect {
            seq: (r.seq + rec.len()) as u64,
            checkpoint: cp,
            ts,
            agent: None,
            effect: e,
        });
        assert(rec.map_values(|e: EffectV| capture_key(e)) =~= d.map_values(
            |e: EffectV| capture_key(e),
        ).push(capture_key(e)));
        prev.captured.lemma_push_to_set_commute(capture_key(e));
        d.map_values(|e: EffectV| capture_key(e)).lemma_push_to_set_commute(capture_key(e));
        assert(rebuild(h, all).captured.to_set() =~= r.captured.to_set().union(
            rec.map_values(|e: EffectV| capture_key(e)).to_set(),
        ));
    }
}

/// What a capture records, with what was captured before, covers every
/// path of the snapshot.
pub proof fn lemma_newly_captured_keys(seen: Set<Seq<char>>, es: Seq<EffectV>)
    ensures
        seen.union(newly_captured(seen, es).map_values(|e: EffectV| capture_key(e)).to_set())
            == seen_after(seen, es),
        forall|k: int|
            0 <= k < newly_captured(seen, es).len() ==> es.contains(
                #[trigger] newly_captured(seen, es)[k],
            ),
    decreases es.len(),
{
    if es.len() == 0 {
        assert(newly_captured(seen, es).map_values(|e: EffectV| capture_key(e)).to_set()
            =~= Set::empty());
        assert(es.map_values(|e: EffectV| capture_key(e)).to_set() =~= Set::empty());
        assert(seen.union(Set::empty()) =~= seen);
        assert(seen_after(seen, es) =~= seen);
    } else {
        let d = es.drop_last();
        let e = es.last();
        lemma_newly_captured_keys(seen, d);
        assert(es.map_values(|x: EffectV| capture_key(x)) =~= d.map_values(
            |x: EffectV| capture_key(x),
        ).push(capture_key(e)));
        d.map_values(|x: EffectV| capture_key(x)).lemma_push_to_set_commute(capture_key(e));
        let nd = newly_captured(seen, d);
        assert(nd.push(e).map_values(|x: EffectV| capture_key(x)) =~= nd.map_values(
            |x: EffectV| capture_key(x),
        ).push(capture_key(e)));
        nd.map_values(|x: EffectV| capture_key(x)).lemma_push_to_set_commute(capture_key(e));
        assert(seen_after(seen, es) =~= seen_after(seen, d).insert(capture_key(e)));
        if seen_after(seen, d).contains(capture_key(e)) {
            assert(newly_captured(seen, es) == nd);
            assert(seen_after(seen, es) =~= seen_after(seen, d));
        } else {
            assert(newly_captured(seen, es) == nd.push(e));
            assert(seen.union(nd.map_values(|x: EffectV| capture_key(x)).to_set().insert(
                capture_key(e),
            )) =~= seen.union(nd.map_values(|x: EffectV| capture_key(x)).to_set()).insert(
                capture_key(e),
            ));
        }
        assert(seen.union(newly_captured(seen, es).map_values(|x: EffectV| capture_key(x)).to_set())
            =~= seen_after(seen, es));
        assert forall|k: int| 0 <= k < newly_captured(seen, es).len() implies es.contains(
            #[trigger] newly_captured(seen, es)[k],
        ) by {
            if k < nd.len() {
                assert(d.contains(nd[k]));
                let j = choose|j: int| 0 <= j < d.len() && d[j] == nd[k];
                assert(es[j] == d[j]);
            } else {
                assert(es[es.len() - 1] == e);
            }
        }
    }
}

impl Undo {
    /// The name of the history directory inside a project.
    pub fn dir_name() -> (r: &'static str)
        ensures
            r@ == undo_dir_name(),
    {
        proof {
            reveal_strlit(".undo");
        }
        ".undo"
    }

    /// A history for `workdir` with the given journal, state and redo file.
    pub fn open(workdir: String, rows: Vec<Row>, state: State, redo: RedoSlot) -> (u: Undo)
        ensures
            u.workdir@ == workdir@,
            u@.rows == row_views(rows@),
            u@.state == state@,
            u@.redo == redo@,
    {
        Undo { workdir, rows, state, redo }
    }

    /// The project root (the directory containing `.undo`).
    pub fn workdir(&self) -> (r: &String)
        ensures
            r@ == self@.workdir,
    {
        &self.workdir
    }

    /// `<workdir>/.undo`.
    pub fn root(&self) -> (r: String)
        ensures
            r@ == undo_root(self@.workdir),
    {
        join_path(self.workdir.as_str(), Undo::dir_name())
    }

    /// The checkpoint new effects attach to.
    pub fn current_checkpoint(&self) -> (r: Option<String>)
        ensures
            opt_view(r) == self@.state.current_checkpoint,
    {
        copy_opt_string(&self.state.current_checkpoint)
    }

    /// Every journal row, oldest first.
    pub fn log(&self) -> (r: Vec<Row>)
        ensures
            row_views(r@) == self@.rows,
    {
        copy_rows(&self.rows, 0, self.rows.len())
    }

    /// What's changed since the last checkpoint.
    pub fn status(&self) -> (st: Status)
        ensures
            pair_view(st.checkpoint) == status_of(self@.rows).0,
            effect_views(st.effects@) == status_of(self@.rows).1,
    {
        status_from(&self.rows)
    }

    /// Is there a redo file (from the last rollback)?
    pub fn can_redo(&self) -> (r: bool)
        ensures
            r == !(self@.redo is Absent),
    {
        match self.redo {
            RedoSlot::Absent => false,
            _ => true,
        }
    }

    /// Ensures a current checkpoint exists, appending an "auto" one if needed.
    /// Returns its id.
    fn ensure_cp(&mut self, ts: u64) -> (id: String)
        requires
            old(self)@.state.current_checkpoint is None ==> old(self)@.state.checkpoint_high
                < u64::MAX,
        ensures
            final(self)@ == with_checkpoint(old(self)@, ts),
            final(self)@.state.current_checkpoint == Some(id@),
    {
        match &self.state.current_checkpoint {
            Some(id) => {
                return id.clone();
            },
            None => {},
        }
        let n = self.state.checkpoint_high + 1;
        let id = format_cp(n);
        self.state.checkpoint_high = n;
        self.state.current_checkpoint = Some(id.clone());
        self.state.captured = Vec::new();
        let label = String::from_str("auto");
        let ghost old_rows = self.rows@;
        self.rows.push(Row::Checkpoint { id: id.clone(), label, ts });
        assert(views(self.state.captured@) =~= Seq::<Seq<char>>::empty());
        assert(row_views(self.rows@) =~= row_views(old_rows).push(
            RowV::Checkpoint { id: id@, label: auto_label(), ts },
        ));
        id
    }

    /// Marks a point in time; returns the new checkpoint's id. New forward
    /// activity invalidates any pending redo.
    pub fn checkpoint(&mut self, label: &str, ts: u64) -> (id: String)
        requires
            old(self)@.state.checkpoint_high < u64::MAX,
        ensures
            id@ == cp_id((old(self)@.state.checkpoint_high + 1) as nat),
            final(self)@ == (UndoV {
                rows: old(self)@.rows.push(RowV::Checkpoint { id: id@, label: label@, ts }),
                state: StateV {
                    checkpoint_high: (old(self)@.state.checkpoint_high + 1) as u64,
                    current_checkpoint: Some(id@),
                    captured: Seq::empty(),
                    ..old(self)@.state
                },
                redo: RedoSlotV::Absent,
                ..old(self)@
            }),
            consistent(old(self)@) ==> consistent(final(self)@),
    {
        proof {
            if consistent(self@) {
                lemma_checkpoint_consistent(self@, label@, ts);
            }
        }
        self.redo = RedoSlot::Absent;
        let n = self.state.checkpoint_high + 1;
        let id = format_cp(n);
        self.state.checkpoint_high = n;
        self.state.current_checkpoint = Some(id.clone());
        self.state.captured = Vec::new();
        let ghost old_rows = self.rows@;
        self.rows.push(Row::Checkpoint { id: id.clone(), label: String::from_str(label), ts });
        assert(views(self.state.captured@) =~= Seq::<Seq<char>>::empty());
        assert(row_views(self.rows@) =~= row_views(old_rows).push(
            RowV::Checkpoint { id: id@, label: label@, ts },
        ));
        id
    }

    /// Refuses paths outside the project root, or inside `.undo`. The
    /// comparison is of components, `.` and `..` resolved; `abs` and the
    /// root are expected with their symlinks resolved, so that the answer is
    /// about where the path really lies.
    pub fn guard(&self, abs: &str) -> (r: Result<(), UndoError>)
        ensures
            match r {
                Ok(()) => within_project(self@.workdir, abs@) && !within_undo_dir(
                    self@.workdir,
                    abs@,
                ),
                Err(UndoError::PermissionDenied { message }) => if !within_project(
                    self@.workdir,
                    abs@,
                ) {
                    message@ == outside_message(abs@)
                } else {
                    within_undo_dir(self@.workdir, abs@) && message@ == own_dir_message()
                },
                Err(UndoError::NotFound { .. }) => false,
            },
    {
        let n = normalize_components(&component_chars(abs));
        let wd = normalize_components(&component_chars(self.workdir.as_str()));
        if !components_start_with(&n, &wd) {
            return Err(
                UndoError::PermissionDenied {
                    message: concat2("refusing to track a path outside the project: ", abs),
                },
            );
        }
        let root = self.root();
        let rn = normalize_components(&component_chars(root.as_str()));
        if components_start_with(&n, &rn) {
            return Err(
                UndoError::PermissionDenied {
                    message: String::from_str("refusing to track undo's own .undo directory"),
                },
            );
        }
        Ok(())
    }

    /// First half of capturing a path. `resolved` is the path as the caller
    /// found it on disk: every symlink among its ancestors resolved (the path
    /// itself is not followed; a symlink is captured as one). It is taken
    /// against the project root (itself given with its symlinks resolved), and
    /// the guard applies to that resolved path: it is refused if it lies
    /// outside the project or inside `.undo`, so a path that reaches outside
    /// through a symlinked directory is refused. Answers `None` if the path is
    /// already captured under the current checkpoint, and otherwise makes sure
    /// a checkpoint exists and returns the absolute path to snapshot. Always
    /// invalidates a pending redo.
    pub fn track_start(&mut self, resolved: &str, ts: u64) -> (r: Result<Option<String>, UndoError>)
        requires
            old(self)@.state.current_checkpoint is None ==> old(self)@.state.checkpoint_high
                < u64::MAX,
        ensures
            final(self)@.redo == RedoSlotV::Absent,
            consistent(old(self)@) ==> consistent(final(self)@),
            final(self)@.workdir == old(self)@.workdir,
            ({
                let abs = resolve(old(self)@.workdir, resolved@);
                let base = UndoV { redo: RedoSlotV::Absent, ..old(self)@ };
                match r {
                    Err(UndoError::PermissionDenied { message }) => {
                        &&& final(self)@ == base
                        &&& if !within_project(old(self)@.workdir, abs) {
                            message@ == outside_message(abs)
                        } else {
                            within_undo_dir(old(self)@.workdir, abs) && message@ == own_dir_message()
                        }
                    },
                    Err(UndoError::NotFound { .. }) => false,
                    Ok(None) => {
                        &&& within_project(old(self)@.workdir, abs)
                        &&& !within_undo_dir(old(self)@.workdir, abs)
                        &&& old(self)@.state.captured.contains(abs)
                        &&& final(self)@ == base
                    },
                    Ok(Some(a)) => {
                        &&& a@ == abs
                        &&& within_project(old(self)@.workdir, abs)
                        &&& !within_undo_dir(old(self)@.workdir, abs)
                        &&& !old(self)@.state.captured.contains(abs)
                        &&& final(self)@ == with_checkpoint(base, ts)
                    },
                }
            }),
    {
        proof {
            let b = UndoV { redo: RedoSlotV::Absent, ..self@ };
            if consistent(b) && b.state.current_checkpoint is None {
                lemma_checkpoint_consistent(b, auto_label(), ts);
            }
        }
        self.redo = RedoSlot::Absent;
        let abs = resolve_path(self.workdir.as_str(), resolved);
        match self.guard(abs.as_str()) {
            Err(e) => {
                return Err(e);
            },
            Ok(()) => {},
        }
        if contains_string(&self.state.captured, &abs) {
            return Ok(None);
        }
        self.ensure_cp(ts);
        Ok(Some(abs))
    }

    /// Second half of capturing a path: records the effects of the snapshot
    /// of `path` (taken after [`Undo::track_start`], its first effect being on
    /// `path` itself) under the current checkpoint, each path at most once per
    /// checkpoint. Returns the effects recorded. Afterwards `path` counts as
    /// captured, so tracking it again under this checkpoint records nothing.
    pub fn track(&mut self, path: &str, snapshot: Vec<Effect>, ts: u64) -> (recorded: Vec<Effect>)
        requires
            old(self)@.state.current_checkpoint is Some,
            old(self)@.state.seq + snapshot@.len() <= u64::MAX,
            snapshot@.len() >= 1,
            snapshot@[0]@.fs_path() == Some(path@),
            forall|k: int| 0 <= k < snapshot@.len() ==> (#[trigger] snapshot@[k])@.fs_path() is Some,
        ensures
            final(self)@.state.captured.contains(path@),
            consistent(old(self)@) ==> consistent(final(self)@),
            ({
                let o = old(self)@;
                let seen = o.state.captured.to_set();
                let es = effect_views(snapshot@);
                let rec = newly_captured(seen, es);
                &&& effect_views(recorded@) == rec
                &&& final(self)@ == (UndoV {
                    rows: o.rows + effect_rows(
                        o.state.seq,
                        o.state.current_checkpoint->0,
                        ts,
                        rec,
                    ),
                    state: StateV {
                        seq: (o.state.seq + rec.len()) as u64,
                        captured: final(self)@.state.captured,
                        ..o.state
                    },
                    ..o
                })
                &&& strictly_sorted(final(self)@.state.captured)
                &&& final(self)@.state.captured.to_set() == seen_after(seen, es)
            }),
    {
        let ghost o = self@;
        let ghost seen = o.state.captured.to_set();
        let ghost es = effect_views(snapshot@);
        let cp = match &self.state.current_checkpoint {
            Some(c) => c.clone(),
            None => String::new(),
        };
        let mut set = sorted_set_of(&self.state.captured);
        let mut recorded: Vec<Effect> = Vec::new();
        let mut i: usize = 0;
        proof {
            assert(es.take(0) =~= Seq::<EffectV>::empty());
            assert(es.take(0).map_values(|e: EffectV| capture_key(e)).to_set() =~= Set::empty());
            assert(seen_after(seen, es.take(0)) =~= seen);
            assert(effect_views(recorded@) =~= Seq::<EffectV>::empty());
            assert(row_views(self.rows@) =~= o.rows + effect_rows(o.state.seq, cp@, ts, Seq::empty()));
        }
        while i < snapshot.len()
            invariant
                i <= snapshot@.len(),
                es == effect_views(snapshot@),
                o.state.seq + snapshot@.len() <= u64::MAX,
                cp@ == o.state.current_checkpoint->0,
                o.state.current_checkpoint is Some,
                strictly_sorted(views(set@)),
                views(set@).to_set() == seen_after(seen, es.take(i as int)),
                effect_views(recorded@) == newly_captured(seen, es.take(i as int)),
                recorded@.len() <= i,
                self@ == (UndoV {
                    rows: o.rows + effect_rows(o.state.seq, cp@, ts, effect_views(recorded@)),
                    state: StateV { seq: (o.state.seq + recorded@.len()) as u64, ..o.state },
                    ..o
                }),
            decreases snapshot@.len() - i,
        {
            let e = &snapshot[i];
            let key = match e.path() {
                Some(p) => p.clone(),
                None => String::new(),
            };
            let ghost prev = es.take(i as int);
            proof {
                assert(es.take(i + 1).drop_last() =~= prev);
                assert(es.take(i + 1).last() == e@);
                assert(key@ == capture_key(e@));
                assert(es.take(i + 1).map_values(|e: EffectV| capture_key(e)) =~= prev.map_values(
                    |e: EffectV| capture_key(e),
                ).push(capture_key(e@)));
                prev.map_values(|e: EffectV| capture_key(e)).lemma_push_to_set_commute(
                    capture_key(e@),
                );
                assert(seen_after(seen, es.take(i + 1)) =~= seen_after(seen, prev).insert(
                    capture_key(e@),
                ));
            }
            let added = insert_sorted(&mut set, key);
            if added {
                let seq = self.state.seq + 1;
                self.state.seq = seq;
                let ghost old_rows = self.rows@;
                let ghost old_rec = effect_views(recorded@);
                self.rows.push(
                    Row::Effect {
                        seq,
                        checkpoint: cp.clone(),
                        ts,
                        agent: None,
                        effect: e.duplicate(),
                    },
                );
                recorded.push(e.duplicate());
                proof {
                    assert(effect_views(recorded@) =~= old_rec.push(e@));
                    assert(row_views(self.rows@) =~= row_views(old_rows).push(
                        RowV::Effect { seq, checkpoint: cp@, ts, agent: None, effect: e@ },
                    ));
                    assert(effect_rows(o.state.seq, cp@, ts, old_rec.push(e@)) =~= effect_rows(
                        o.state.seq,
                        cp@,
                        ts,
                        old_rec,
                    ).push(RowV::Effect { seq, checkpoint: cp@, ts, agent: None, effect: e@ }));
                    assert(row_views(self.rows@) =~= o.rows + effect_rows(
                        o.state.seq,
                        cp@,
                        ts,
                        effect_views(recorded@),
                    ));
                }
            }
            i = i + 1;
        }
        assert(es.take(snapshot@.len() as int) =~= es);
        self.state.captured = set;
        proof {
            let keys = es.map_values(|e: EffectV| capture_key(e));
            assert(keys[0] == path@);
            assert(keys.contains(path@));
            assert(keys.to_set().contains(path@));
            assert(self@.state.captured.to_set().contains(path@));
            lemma_newly_captured_keys(seen, es);
            if consistent(o) {
                let rec = newly_captured(seen, es);
                assert forall|k: int| 0 <= k < rec.len() implies (#[trigger] rec[k]).fs_path() is Some by {
                    assert(es.contains(rec[k]));
                    let j = choose|j: int| 0 <= j < es.len() && es[j] == rec[k];
                    assert(es[j] == snapshot@[j]@);
                }
                lemma_effect_rows_rebuild(o.state.checkpoint_high, o.rows, o.state.current_checkpoint->0, ts, rec);
            }
        }
        recorded
    }

    /// Records an arbitrary effect (an http mutation or a command, typically)
    /// under the current checkpoint. Invalidates a pending redo.
    pub fn record(&mut self, effect: Effect, agent: Option<String>, ts: u64)
        requires
            old(self)@.state.current_checkpoint is None ==> old(self)@.state.checkpoint_high
                < u64::MAX,
            old(self)@.state.seq < u64::MAX,
        ensures
            ({
                let b = with_checkpoint(UndoV { redo: RedoSlotV::Absent, ..old(self)@ }, ts);
                final(self)@ == (UndoV {
                    rows: b.rows.push(
                        RowV::Effect {
                            seq: (b.state.seq + 1) as u64,
                            checkpoint: b.state.current_checkpoint->0,
                            ts,
                            agent: opt_view(agent),
                            effect: effect@,
                        },
                    ),
                    state: StateV { seq: (b.state.seq + 1) as u64, ..b.state },
                    ..b
                })
            }),
            consistent(old(self)@) && effect@.fs_path() is None ==> consistent(final(self)@),
    {
        proof {
            let b0 = UndoV { redo: RedoSlotV::Absent, ..self@ };
            if consistent(b0) && b0.state.current_checkpoint is None {
                lemma_checkpoint_consistent(b0, auto_label(), ts);
            }
        }
        self.redo = RedoSlot::Absent;
        let cp = self.ensure_cp(ts);
        let ghost mid = self@;
        let seq = self.state.seq + 1;
        self.state.seq = seq;
        let ghost old_rows = self.rows@;
        let ghost ev = effect@;
        let ghost av = opt_view(agent);
        self.rows.push(Row::Effect { seq, checkpoint: cp, ts, agent, effect });
        assert(row_views(self.rows@) =~= row_views(old_rows).push(
            RowV::Effect { seq, checkpoint: self@.state.current_checkpoint->0, ts, agent: av, effect: ev },
        ));
        proof {
            assert(self@.rows.drop_last() =~= mid.rows);
        }
    }
}

} // verus!
