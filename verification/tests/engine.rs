use undo_core::cli::{
    checkpoint_label, entry_command, entry_is_ours, hook_command, hook_installed,
    make_compensator, run_command, sanitize, session_label, settings_path, track_summary,
    watch_once,
};
use undo_core::diff::{diff_effects, make, DiffInput};
use undo_core::gitignore::gitignore_update;
use undo_core::journal::{format_cp, parse_cp, rebuild_state};
use undo_core::meta::{capture_meta, mtime_parts, MtimeReading};
use undo_core::order::{insert_sorted, sort_strings};
use undo_core::paths::{join_path, path_components, resolve_path};
use undo_core::report::{redo_summary, render_diff, rollback_summary, text_lines};
use undo_core::snapshot::{AfterWalk, CaptureWalk, Found};
use undo_core::rollback::{redo_sequence, FsOp, RedoReport, RollbackReport};
use undo_core::DiffEntry;
use undo_core::{
    path_is_ignored, AfterSnap, AfterState, Effect, HttpCompensator, Meta, RedoSlot, Row, State,
    Store, Undo, UndoError,
};

fn s(x: &str) -> String {
    x.to_string()
}

fn fresh() -> Undo {
    Undo::open(s("/tmp/proj"), vec![], State::default(), RedoSlot::Absent)
}

fn file_effect(path: &str, blob: &str) -> Effect {
    Effect::File {
        path: s(path),
        prev_blob: s(blob),
        meta: Meta { mode: 0o644, mtime_s: 10, mtime_ns: 5 },
    }
}

/// Runs the after-state walk for a rollback to `target`, answering each look
/// with `look(path, expanded)`.
fn walk_all(u: &Undo, target: Option<&str>, look: impl Fn(&str, bool) -> Found) -> AfterWalk {
    let scope = u.rollback_scope(target).unwrap();
    let mut w = AfterWalk::from_effects(&scope.effects);
    while let Some((p, expanded)) = w.next() {
        let found = if w.looks_next() { look(&p, expanded) } else { Found::Missing };
        w.step(u, found);
    }
    w
}

fn all_missing(_: &str, _: bool) -> Found {
    Found::Missing
}

/// Tracks `path` with the given snapshot, the way the front end does.
fn track(u: &mut Undo, path: &str, snapshot: Vec<Effect>) -> Vec<Effect> {
    match u.track_start(path, 7).unwrap() {
        None => vec![],
        Some(abs) => u.track(&abs, snapshot, 7),
    }
}

#[test]
fn checkpoint_ids_are_zero_padded_and_parse_back() {
    assert_eq!(format_cp(1), "cp001");
    assert_eq!(format_cp(42), "cp042");
    assert_eq!(format_cp(1234), "cp1234");
    assert_eq!(parse_cp("cp007"), Some(7));
    assert_eq!(parse_cp(&format_cp(98765)), Some(98765));
    assert_eq!(parse_cp("cp+5"), Some(5));
    assert_eq!(parse_cp("cp"), None);
    assert_eq!(parse_cp("cpx1"), None);
    assert_eq!(parse_cp("xp1"), None);
    assert_eq!(parse_cp("cp-1"), None);
    assert_eq!(parse_cp("cp18446744073709551615"), Some(u64::MAX));
    assert_eq!(parse_cp("cp18446744073709551616"), None);
}

#[test]
fn effects_describe_themselves() {
    assert_eq!(Effect::PathCreate { path: s("/p/a") }.describe(), "created  /p/a");
    assert_eq!(file_effect("/p/f", "h").describe(), "captured /p/f");
    assert_eq!(
        Effect::Symlink { path: s("/p/l"), target: s("t") }.describe(),
        "symlink  /p/l"
    );
    assert_eq!(
        Effect::Dir { path: s("/p/d"), mode: 0o755, entries: vec![] }.describe(),
        "dir      /p/d"
    );
    let http = Effect::HttpMutation { method: s("POST"), url: s("https://x/charges"), compensator: None };
    assert_eq!(http.describe(), "POST     https://x/charges");
    let long = Effect::HttpMutation { method: s("CUSTOMVERB"), url: s("u"), compensator: None };
    assert_eq!(long.describe(), "CUSTOMVERB u");
    assert_eq!(Effect::Exec { command: s("ls"), cwd: s("/p") }.describe(), "ran      ls");
}

#[test]
fn only_path_effects_are_reversible() {
    assert!(Effect::PathCreate { path: s("/a") }.reversible());
    assert!(file_effect("/a", "h").reversible());
    assert_eq!(file_effect("/a", "h").path(), Some(&s("/a")));
    let http = Effect::HttpMutation { method: s("DELETE"), url: s("u"), compensator: None };
    assert!(!http.reversible());
    assert_eq!(http.path(), None);
    assert!(!Effect::Exec { command: s("x"), cwd: s("/") }.reversible());
}

#[test]
fn ignored_paths_by_component() {
    assert!(path_is_ignored("/proj/node_modules/x.js"));
    assert!(path_is_ignored("/proj/.git"));
    assert!(path_is_ignored("src/target/debug"));
    assert!(!path_is_ignored("/proj/src/main.rs"));
    assert!(!path_is_ignored("/proj/node_modules.txt"));
    assert!(!path_is_ignored("/proj/targets/x"));
}

#[test]
fn path_components_and_joins() {
    assert_eq!(path_components("/a//b/./c/"), vec![s("/"), s("a"), s("b"), s("c")]);
    assert_eq!(path_components("./a/../b"), vec![s("."), s("a"), s(".."), s("b")]);
    assert_eq!(path_components(""), Vec::<String>::new());
    assert_eq!(join_path("/proj", "a/b"), "/proj/a/b");
    assert_eq!(join_path("/proj/", "a"), "/proj/a");
    assert_eq!(join_path("/proj", "/etc/hosts"), "/etc/hosts");
    assert_eq!(join_path("", "a"), "a");
    assert_eq!(resolve_path("/proj", "x.txt"), "/proj/x.txt");
    assert_eq!(resolve_path("/proj", "/abs"), "/abs");
}

#[test]
fn checkpoint_starts_a_fresh_capture_set() {
    let mut u = fresh();
    let id = u.checkpoint("before agent", 100);
    assert_eq!(id, "cp001");
    assert_eq!(u.current_checkpoint(), Some(s("cp001")));
    assert_eq!(
        u.log(),
        vec![Row::Checkpoint { id: s("cp001"), label: s("before agent"), ts: 100 }]
    );
    let id2 = u.checkpoint("again", 101);
    assert_eq!(id2, "cp002");
    assert_eq!(u.state.checkpoint_high, 2);
    assert!(u.state.captured.is_empty());
}

#[test]
fn checkpoint_clears_a_pending_redo() {
    let mut u = fresh();
    u.redo = RedoSlot::Unreadable;
    assert!(u.can_redo());
    u.checkpoint("c", 1);
    assert!(!u.can_redo());
}

#[test]
fn tracking_refuses_paths_outside_the_project() {
    let mut u = fresh();
    u.checkpoint("c", 1);
    match u.track_start("/etc/hosts", 2) {
        Err(UndoError::PermissionDenied { message }) => assert_eq!(
            message,
            "refusing to track a path outside the project: /etc/hosts"
        ),
        other => panic!("expected refusal, got {:?}", other),
    }
    assert!(u.track_start("../../../etc/hosts", 2).is_err());
    assert!(u.track_start("/tmp/projector/x", 2).is_err());
    match u.track_start(".undo/journal.jsonl", 2) {
        Err(UndoError::PermissionDenied { message }) => {
            assert_eq!(message, "refusing to track undo's own .undo directory")
        }
        other => panic!("expected refusal, got {:?}", other),
    }
    assert_eq!(u.rows.len(), 1);
    assert_eq!(u.track_start("sub/../ok.txt", 2).unwrap(), Some(s("/tmp/proj/sub/../ok.txt")));
}

#[test]
fn double_tracking_keeps_the_earliest_snapshot() {
    let mut u = fresh();
    u.checkpoint("c", 1);
    let first = track(&mut u, "a.txt", vec![file_effect("/tmp/proj/a.txt", "v1")]);
    assert_eq!(first.len(), 1);
    let again = track(&mut u, "a.txt", vec![file_effect("/tmp/proj/a.txt", "v2")]);
    assert!(again.is_empty());
    let effects = u.status().effects;
    assert_eq!(effects, vec![file_effect("/tmp/proj/a.txt", "v1")]);
}

#[test]
fn tracking_without_a_checkpoint_creates_one() {
    let mut u = fresh();
    let rec = track(&mut u, "/tmp/proj/n.txt", vec![Effect::PathCreate { path: s("/tmp/proj/n.txt") }]);
    assert_eq!(rec.len(), 1);
    assert_eq!(u.rows[0], Row::Checkpoint { id: s("cp001"), label: s("auto"), ts: 7 });
    assert_eq!(u.current_checkpoint(), Some(s("cp001")));
}

#[test]
fn tracked_paths_get_unique_increasing_sequence_numbers() {
    let mut u = fresh();
    u.checkpoint("c", 1);
    let snap = vec![
        Effect::Dir { path: s("/tmp/proj/d"), mode: 0o755, entries: vec![s("x"), s("y")] },
        file_effect("/tmp/proj/d/y", "hy"),
        file_effect("/tmp/proj/d/x", "hx"),
        file_effect("/tmp/proj/d/x", "dup"),
    ];
    let rec = track(&mut u, "d", snap);
    assert_eq!(rec.len(), 3);
    let seqs: Vec<u64> = u
        .rows
        .iter()
        .filter_map(|r| match r {
            Row::Effect { seq, .. } => Some(*seq),
            _ => None,
        })
        .collect();
    assert_eq!(seqs, vec![1, 2, 3]);
    assert_eq!(u.state.seq, 3);
    assert_eq!(
        u.state.captured,
        vec![s("/tmp/proj/d"), s("/tmp/proj/d/x"), s("/tmp/proj/d/y")]
    );
}

#[test]
fn record_attaches_to_the_current_checkpoint() {
    let mut u = fresh();
    u.checkpoint("c", 1);
    let comp = HttpCompensator { method: s("POST"), url: s("/refunds"), body: None };
    let e = Effect::HttpMutation { method: s("POST"), url: s("/charges"), compensator: Some(comp) };
    u.record(e.clone(), Some(s("agent")), 9);
    assert_eq!(
        u.rows[1],
        Row::Effect { seq: 1, checkpoint: s("cp001"), ts: 9, agent: Some(s("agent")), effect: e.clone() }
    );
    let st = u.status();
    assert_eq!(st.checkpoint, Some((s("cp001"), s("c"))));
    assert_eq!(st.effects, vec![e]);
}

#[test]
fn status_lists_only_effects_since_the_last_checkpoint() {
    let mut u = fresh();
    let st0 = u.status();
    assert_eq!(st0.checkpoint, None);
    assert!(st0.effects.is_empty());
    u.checkpoint("one", 1);
    track(&mut u, "a", vec![file_effect("/tmp/proj/a", "h")]);
    u.checkpoint("two", 2);
    track(&mut u, "b", vec![file_effect("/tmp/proj/b", "h")]);
    let st = u.status();
    assert_eq!(st.checkpoint, Some((s("cp002"), s("two"))));
    assert_eq!(st.effects, vec![file_effect("/tmp/proj/b", "h")]);
}

fn history_with_two_effects() -> Undo {
    let mut u = fresh();
    u.checkpoint("before", 1);
    track(&mut u, "keep.txt", vec![file_effect("/tmp/proj/keep.txt", "orig")]);
    track(&mut u, "nested/new.txt", vec![Effect::PathCreate { path: s("/tmp/proj/nested/new.txt") }]);
    u.record(Effect::Exec { command: s("make"), cwd: s("/tmp/proj") }, None, 3);
    u
}

#[test]
fn rollback_scope_lists_effects_since_the_checkpoint() {
    let u = history_with_two_effects();
    let scope = u.rollback_scope(None).unwrap();
    assert_eq!(scope.index, 0);
    assert_eq!(scope.checkpoint, "cp001");
    assert_eq!(scope.effects.len(), 3);
    match u.rollback_scope(Some("cp999")) {
        Err(UndoError::NotFound { message }) => {
            assert_eq!(message, "no matching checkpoint to roll back to")
        }
        _ => panic!("expected NotFound"),
    }
}

#[test]
fn rollback_reverses_newest_first_and_redo_restores_the_journal() {
    let mut u = history_with_two_effects();
    let before = u.log();
    let walk = walk_all(&u, None, all_missing);
    let after = walk.snaps.clone();
    assert_eq!(
        after,
        vec![
            AfterSnap { path: s("/tmp/proj/keep.txt"), state: AfterState::Absent },
            AfterSnap { path: s("/tmp/proj/nested/new.txt"), state: AfterState::Absent },
        ]
    );
    let rep = u.rollback(None, walk, vec![Ok(()), Ok(()), Ok(())]).unwrap();
    assert_eq!(rep.checkpoint, "cp001");
    assert_eq!(rep.skipped, vec![s("ran      make (manual)")]);
    assert_eq!(
        rep.reverted,
        vec![s("removed  /tmp/proj/nested/new.txt"), s("restored /tmp/proj/keep.txt")]
    );
    assert!(rep.failed.is_empty());
    assert_eq!(u.log(), vec![before[0].clone()]);
    assert_eq!(u.state.seq, 0);
    assert_eq!(u.current_checkpoint(), Some(s("cp001")));
    assert!(u.can_redo());

    let order = u.redo_scope().unwrap();
    assert_eq!(order, vec![after[1].clone(), after[0].clone()]);
    let redo = u.redo(vec![Ok(()), Ok(())]).unwrap();
    assert_eq!(
        redo.restored,
        vec![s("removed  /tmp/proj/nested/new.txt"), s("removed  /tmp/proj/keep.txt")]
    );
    assert!(redo.failed.is_empty());
    assert_eq!(u.log(), before);
    assert_eq!(u.state.seq, 3);
    assert!(!u.can_redo());
}

#[test]
fn failed_rollback_leaves_the_journal_intact() {
    let mut u = history_with_two_effects();
    let before = u.log();
    let walk = walk_all(&u, Some("cp001"), all_missing);
    let rep = u
        .rollback(Some("cp001"), walk, vec![Ok(()), Err(s("disk full")), Ok(())])
        .unwrap();
    assert_eq!(rep.failed, vec![s("created  /tmp/proj/nested/new.txt (error: disk full)")]);
    assert_eq!(u.log(), before);
    assert!(!u.can_redo());
}

#[test]
fn redo_without_a_rollback_is_refused() {
    let mut u = fresh();
    match u.redo(vec![]) {
        Err(UndoError::NotFound { message }) => assert_eq!(message, "nothing to redo"),
        _ => panic!("expected NotFound"),
    }
    u.redo = RedoSlot::Unreadable;
    assert!(u.can_redo());
    assert!(u.redo_scope().is_err());
}

#[test]
fn failed_redo_keeps_the_redo_pending() {
    let mut u = history_with_two_effects();
    let walk = walk_all(&u, None, all_missing);
    u.rollback(None, walk, vec![Ok(()), Ok(()), Ok(())]).unwrap();
    let rows = u.log();
    let rep = u.redo(vec![Err(s("busy")), Ok(())]).unwrap();
    assert_eq!(rep.failed, vec![s("/tmp/proj/nested/new.txt (error: busy)")]);
    assert_eq!(rep.restored, vec![s("removed  /tmp/proj/keep.txt")]);
    assert_eq!(u.log(), rows);
    assert!(u.can_redo());
}

#[test]
fn checkpoint_after_rollback_never_reuses_an_id() {
    let mut u = fresh();
    u.checkpoint("a", 1);
    u.checkpoint("b", 2);
    u.checkpoint("c", 3);
    let walk = walk_all(&u, Some("cp001"), all_missing);
    assert!(walk.snaps.is_empty());
    u.rollback(Some("cp001"), walk, vec![]).unwrap();
    assert_eq!(u.log().len(), 1);
    assert_eq!(u.checkpoint("d", 4), "cp004");
}

#[test]
fn rebuilding_the_state_from_rows() {
    let rows = vec![
        Row::Checkpoint { id: s("cp005"), label: s("x"), ts: 0 },
        Row::Effect { seq: 4, checkpoint: s("cp005"), ts: 0, agent: None, effect: file_effect("/p/a", "h") },
        Row::Effect { seq: 2, checkpoint: s("cp005"), ts: 0, agent: None, effect: file_effect("/p/a", "h") },
        Row::Effect {
            seq: 3,
            checkpoint: s("cp005"),
            ts: 0,
            agent: None,
            effect: Effect::Exec { command: s("x"), cwd: s("/") },
        },
    ];
    let st = rebuild_state(2, &rows);
    assert_eq!(st.checkpoint_high, 5);
    assert_eq!(st.seq, 4);
    assert_eq!(st.current_checkpoint, Some(s("cp005")));
    assert_eq!(st.captured, vec![s("/p/a"), s("/p/a")]);
    let st2 = rebuild_state(9, &rows[..1]);
    assert_eq!(st2.checkpoint_high, 9);
    assert_eq!(st2.seq, 0);
}

#[test]
fn redo_restores_parents_first_and_removes_children_first() {
    let snaps = vec![
        AfterSnap { path: s("/p/a/b/c"), state: AfterState::Absent },
        AfterSnap { path: s("/p/a/f"), state: AfterState::File { blob: s("h"), meta: Meta::default() } },
        AfterSnap { path: s("/p/a"), state: AfterState::Dir { mode: 0o755 } },
        AfterSnap { path: s("/p/a/b"), state: AfterState::Absent },
        AfterSnap { path: s("/p/z"), state: AfterState::Dir { mode: 0o700 } },
    ];
    let order: Vec<String> = redo_sequence(&snaps).into_iter().map(|a| a.path).collect();
    assert_eq!(order, vec![s("/p/a"), s("/p/z"), s("/p/a/f"), s("/p/a/b/c"), s("/p/a/b")]);
}

#[test]
fn inverse_operations_of_each_effect() {
    let f = file_effect("/p/f", "blob1");
    assert_eq!(
        f.inverse_ops(),
        vec![
            FsOp::CreateParentDirs { path: s("/p/f") },
            FsOp::RemoveIfIncompatible { path: s("/p/f") },
            FsOp::WriteBlob { path: s("/p/f"), blob: s("blob1") },
            FsOp::SetMode { path: s("/p/f"), mode: 0o644 },
            FsOp::SetMtime { path: s("/p/f"), secs: 10, nanos: 5 },
        ]
    );
    let d = Effect::Dir { path: s("/p/d"), mode: 0, entries: vec![s("a")] };
    assert_eq!(
        d.inverse_ops(),
        vec![
            FsOp::CreateDirAll { path: s("/p/d") },
            FsOp::PruneDir { path: s("/p/d"), keep: vec![s("a")] },
        ]
    );
    let l = Effect::Symlink { path: s("/p/l"), target: s("real.txt") };
    assert_eq!(l.revert_message(), Some(s("relinked /p/l")));
    assert_eq!(
        l.inverse_ops(),
        vec![
            FsOp::RemoveAny { path: s("/p/l") },
            FsOp::CreateParentDirs { path: s("/p/l") },
            FsOp::Symlink { target: s("real.txt"), path: s("/p/l") },
        ]
    );
    let x = Effect::Exec { command: s("x"), cwd: s("/") };
    assert!(x.inverse_ops().is_empty());
    assert_eq!(x.revert_message(), None);
    let a = AfterSnap { path: s("/p/l"), state: AfterState::Symlink { target: s("t") } };
    assert_eq!(
        a.restore_ops(),
        vec![FsOp::RemoveAny { path: s("/p/l") }, FsOp::Symlink { target: s("t"), path: s("/p/l") }]
    );
    assert_eq!(a.restore_message(), "relinked /p/l");
}

#[test]
fn directory_snapshots_skip_undo_and_noise_and_sort_entries() {
    let u = fresh();
    let children = vec![
        (s("/tmp/proj/zeta.txt"), s("zeta.txt")),
        (s("/tmp/proj/.undo"), s(".undo")),
        (s("/tmp/proj/node_modules"), s("node_modules")),
        (s("/tmp/proj/alpha"), s("alpha")),
    ];
    let (eff, next) = u.dir_snapshot(s("/tmp/proj"), 0o755, children);
    assert_eq!(
        eff,
        Effect::Dir { path: s("/tmp/proj"), mode: 0o755, entries: vec![s("alpha"), s("zeta.txt")] }
    );
    assert_eq!(next, vec![s("/tmp/proj/zeta.txt"), s("/tmp/proj/alpha")]);
    assert!(u.skips_child("/tmp/proj/.undo", ".undo"));
    assert!(u.skips_child("/tmp/proj//.undo/", "whatever"));
    assert!(u.keeps_child("/tmp/proj/a.txt", &s("a.txt"), &vec![s("a.txt")]));
    assert!(!u.keeps_child("/tmp/proj/sneaky.txt", &s("sneaky.txt"), &vec![s("a.txt")]));
}

#[test]
fn selective_revert_finds_the_earliest_capture() {
    let mut u = fresh();
    u.checkpoint("c", 1);
    track(&mut u, "a.txt", vec![file_effect("/tmp/proj/a.txt", "first")]);
    assert_eq!(u.revert_target("a.txt"), Some(file_effect("/tmp/proj/a.txt", "first")));
    assert_eq!(u.revert_target("/tmp/proj/b.txt"), None);
}

#[test]
fn gitignore_gets_the_undo_entry_once() {
    let g = gitignore_update("").unwrap();
    assert!(g.contains(".undo/"));
    assert_eq!(
        g,
        "# agent-undo: snapshots of your files (may contain secrets) — never commit\n.undo/\n"
    );
    assert_eq!(gitignore_update(&g), None);
    let g2 = gitignore_update("target").unwrap();
    assert!(g2.starts_with("target\n# agent-undo"));
    assert_eq!(gitignore_update("node_modules\n  /.undo  \n"), None);
    assert_eq!(gitignore_update(".undo"), None);
    assert!(gitignore_update(".undo.bak\n").is_some());
}

#[test]
fn store_hashes_are_sha256_hex() {
    assert_eq!(
        Store::hash_hex(b"abc"),
        "ba7816bf8f01cfea414140de5dae2223b00361a396177a9cb410ff61f20015ad"
    );
    assert_eq!(
        Store::hash_hex(b""),
        "e3b0c44298fc1c149afbf4c8996fb92427ae41e4649b934ca495991b7852b855"
    );
    let st = Store::new(s("/p/.undo/objects"));
    assert_eq!(st.object_path("ab"), "/p/.undo/objects/ab");
}

#[test]
fn text_diffs_count_lines() {
    let e = make("f.txt", b"a\nb\nc\n", b"a\nB\nc\nd\n", "modified");
    assert_eq!(e.status, "modified");
    assert_eq!(e.added, 2);
    assert_eq!(e.removed, 1);
    assert!(e.hunk.contains("-b\n"));
    assert!(e.hunk.contains("+B\n"));
    assert!(e.hunk.starts_with("@@"));
    let bin = make("x.bin", &[0xff, 0xfe], b"text", "modified");
    assert_eq!(bin.status, "binary");
    assert_eq!(bin.hunk, "(binary file changed)");
    assert_eq!((bin.added, bin.removed), (0, 0));
}

#[test]
fn diff_of_effects() {
    let effects = vec![
        file_effect("/p/same", "h"),
        file_effect("/p/gone", "h"),
        Effect::PathCreate { path: s("/p/new") },
        Effect::PathCreate { path: s("/p/never") },
        Effect::Symlink { path: s("/p/link"), target: s("real.txt") },
        Effect::Dir { path: s("/p"), mode: 0o755, entries: vec![] },
    ];
    let inputs = vec![
        DiffInput { before: b"x\n".to_vec(), after: Some(b"x\n".to_vec()) },
        DiffInput { before: b"x\ny\n".to_vec(), after: None },
        DiffInput { before: vec![], after: Some(b"n\n".to_vec()) },
        DiffInput { before: vec![], after: None },
        DiffInput { before: vec![], after: None },
        DiffInput { before: vec![], after: None },
    ];
    let d = diff_effects(&effects, &inputs);
    assert_eq!(d.len(), 3);
    assert_eq!((d[0].path.as_str(), d[0].status.as_str(), d[0].added, d[0].removed), ("/p/gone", "deleted", 0, 2));
    assert_eq!((d[1].path.as_str(), d[1].status.as_str(), d[1].added, d[1].removed), ("/p/new", "created", 1, 0));
    assert_eq!(d[2].status, "symlink");
    assert_eq!(d[2].hunk, "→ real.txt");
}

#[test]
fn command_line_shapes() {
    assert_eq!(checkpoint_label(&[]), "checkpoint");
    assert_eq!(checkpoint_label(&[s("before"), s("the"), s("agent")]), "before the agent");
    assert_eq!(run_command(&[s("--"), s("sh"), s("-c")]), vec![s("sh"), s("-c")]);
    assert_eq!(run_command(&[s("ls")]), vec![s("ls")]);
    assert!(watch_once(&[s("--once")]));
    assert!(!watch_once(&[s("--twice")]));
    assert_eq!(sanitize("a-b c/9"), "a_b_c_9");
    assert_eq!(session_label("agent session ", "s1"), "agent session s1");
    assert_eq!(session_label("agent session ", "abcdefghij"), "agent session abcdefgh");
    assert_eq!(session_label("", "ab\u{e9}cdefgh"), "ab\u{e9}cdef");
    assert_eq!(settings_path("/p", ".agent"), "/p/.agent/settings.local.json");
    assert_eq!(hook_command("/bin/undo"), "\"/bin/undo\" hook");
}

#[test]
fn hook_entries_are_recognised() {
    let cmds = vec![None, Some(s("\"/bin/undo\" hook")), Some(s("other"))];
    assert_eq!(entry_command(&cmds), Some(s("\"/bin/undo\" hook")));
    assert_eq!(entry_command(&[None]), None);
    assert!(entry_is_ours(&cmds, "/bin/undo"));
    assert!(!entry_is_ours(&[Some(s("/bin/undo run"))], "/bin/undo"));
    assert!(hook_installed(&[None, Some(s("\"/bin/undo\" hook"))], "\"/bin/undo\" hook"));
    assert!(!hook_installed(&[Some(s("x"))], "\"/bin/undo\" hook"));
}

#[test]
fn bridge_summaries() {
    assert_eq!(track_summary("a.txt", &vec![]), "a.txt (already tracked)");
    let effs = vec![file_effect("/p/a", "h"), Effect::PathCreate { path: s("/p/b") }];
    assert_eq!(track_summary("p", &effs), "captured /p/a\ncreated  /p/b");
    assert_eq!(make_compensator(Some(s("DELETE")), None, None), None);
    assert_eq!(
        make_compensator(Some(s("DELETE")), Some(s("/x/1")), Some(s("{}"))),
        Some(HttpCompensator { method: s("DELETE"), url: s("/x/1"), body: Some(s("{}")) })
    );
}

#[test]
fn metadata_times() {
    assert_eq!(mtime_parts(MtimeReading::After { secs: 5, nanos: 7 }), (5, 7));
    assert_eq!(mtime_parts(MtimeReading::Before { secs: 5 }), (-5, 0));
    assert_eq!(mtime_parts(MtimeReading::Unavailable), (0, 0));
    let m = capture_meta(0o600, MtimeReading::After { secs: 1, nanos: 2 });
    assert_eq!(m, Meta { mode: 0o600, mtime_s: 1, mtime_ns: 2 });
}

#[test]
fn sorted_sets_and_sorting() {
    let mut v = vec![];
    assert!(insert_sorted(&mut v, s("b")));
    assert!(insert_sorted(&mut v, s("a")));
    assert!(!insert_sorted(&mut v, s("b")));
    assert!(insert_sorted(&mut v, s("ab")));
    assert_eq!(v, vec![s("a"), s("ab"), s("b")]);
    assert_eq!(sort_strings(&vec![s("z"), s("Z"), s("a"), s("a")]), vec![s("Z"), s("a"), s("a"), s("z")]);
}

#[test]
fn audit_only_effects_are_skipped_whatever_their_outcome() {
    let mut u = history_with_two_effects();
    let walk = walk_all(&u, None, all_missing);
    let rep = u.rollback(None, walk, vec![Err(s("no inverse")), Ok(()), Ok(())]).unwrap();
    assert_eq!(rep.skipped, vec![s("ran      make (manual)")]);
    assert!(rep.failed.is_empty());
    assert_eq!(rep.reverted.len(), 2);
    assert!(u.can_redo());
}

#[test]
fn rollback_plan_reverses_newest_first() {
    let u = history_with_two_effects();
    let plan = u.rollback_plan(None).unwrap();
    assert_eq!(plan.len(), 3);
    assert!(plan[0].is_empty());
    assert_eq!(plan[1], vec![FsOp::RemoveAny { path: s("/tmp/proj/nested/new.txt") }]);
    assert_eq!(plan[2][0], FsOp::CreateParentDirs { path: s("/tmp/proj/keep.txt") });
    assert_eq!(plan[2][2], FsOp::WriteBlob { path: s("/tmp/proj/keep.txt"), blob: s("orig") });
    assert!(u.rollback_plan(Some("cp404")).is_err());
}

#[test]
fn redo_steps_restore_parents_before_children() {
    let mut u = fresh();
    u.checkpoint("before", 1);
    track(
        &mut u,
        "e",
        vec![
            Effect::Dir { path: s("/tmp/proj/e"), mode: 0o755, entries: vec![s("g")] },
            Effect::Symlink { path: s("/tmp/proj/e/g"), target: s("old") },
        ],
    );
    track(&mut u, "d/f", vec![Effect::PathCreate { path: s("/tmp/proj/d/f") }]);
    let walk = walk_all(&u, None, |p: &str, expanded: bool| {
        if expanded {
            return Found::Dir { mode: 0o755, children: vec![] };
        }
        match p {
            "/tmp/proj/e" => Found::Dir { mode: 0o755, children: vec![(s("/tmp/proj/e/g"), s("g"))] },
            "/tmp/proj/e/g" => Found::Link { target: s("t") },
            _ => Found::Missing,
        }
    });
    assert_eq!(
        walk.snaps,
        vec![
            AfterSnap { path: s("/tmp/proj/e/g"), state: AfterState::Symlink { target: s("t") } },
            AfterSnap { path: s("/tmp/proj/e"), state: AfterState::Dir { mode: 0o755 } },
            AfterSnap { path: s("/tmp/proj/d/f"), state: AfterState::Absent },
        ]
    );
    u.rollback(None, walk, vec![Ok(()), Ok(()), Ok(())]).unwrap();
    let steps = u.redo_steps().unwrap();
    assert_eq!(steps[0][0], FsOp::CreateDirAll { path: s("/tmp/proj/e") });
    assert_eq!(steps[1][1], FsOp::Symlink { target: s("t"), path: s("/tmp/proj/e/g") });
    assert_eq!(steps[2], vec![FsOp::RemoveAny { path: s("/tmp/proj/d/f") }]);
}

#[test]
fn the_after_walk_takes_each_path_once_and_a_directory_after_its_children() {
    let u = fresh();
    let effects = vec![
        Effect::Dir { path: s("/tmp/proj/d"), mode: 0o700, entries: vec![] },
        file_effect("/tmp/proj/d/a", "h"),
        Effect::Exec { command: s("make"), cwd: s("/tmp/proj") },
    ];
    let mut w = AfterWalk::from_effects(&effects);
    assert_eq!(w.next(), Some((s("/tmp/proj/d"), false)));
    assert!(w.looks_next());
    w.step(
        &u,
        Found::Dir {
            mode: 0o700,
            children: vec![
                (s("/tmp/proj/d/a"), s("a")),
                (s("/tmp/proj/d/.git"), s(".git")),
                (s("/tmp/proj/d/b"), s("b")),
            ],
        },
    );
    assert_eq!(w.next(), Some((s("/tmp/proj/d/a"), false)));
    w.step(&u, Found::File { blob: s("h2"), meta: Meta { mode: 0o600, mtime_s: 1, mtime_ns: 2 } });
    assert_eq!(w.next(), Some((s("/tmp/proj/d/b"), false)));
    w.step(&u, Found::Missing);
    assert_eq!(w.next(), Some((s("/tmp/proj/d"), true)));
    assert!(w.looks_next());
    w.step(&u, Found::Dir { mode: 0o750, children: vec![] });
    assert_eq!(w.next(), Some((s("/tmp/proj/d/a"), false)));
    assert!(!w.looks_next());
    w.step(&u, Found::Missing);
    assert_eq!(w.next(), None);
    assert_eq!(
        w.snaps,
        vec![
            AfterSnap {
                path: s("/tmp/proj/d/a"),
                state: AfterState::File { blob: s("h2"), meta: Meta { mode: 0o600, mtime_s: 1, mtime_ns: 2 } },
            },
            AfterSnap { path: s("/tmp/proj/d/b"), state: AfterState::Absent },
            AfterSnap { path: s("/tmp/proj/d"), state: AfterState::Dir { mode: 0o750 } },
        ]
    );
    assert_eq!(w.seen, vec![s("/tmp/proj/d"), s("/tmp/proj/d/a"), s("/tmp/proj/d/b")]);
}

#[test]
fn rollback_and_redo_summaries() {
    let mut u = history_with_two_effects();
    let walk = walk_all(&u, None, all_missing);
    let rep = u.rollback(None, walk, vec![Ok(()), Ok(()), Ok(())]).unwrap();
    let (lines, code) = rollback_summary(&rep);
    assert_eq!(code, 0);
    assert_eq!(lines[0], "\x1b[32m✓\x1b[0m rewound to \x1b[1mcp001\x1b[0m");
    assert_eq!(lines[1], "  \x1b[32m⟲\x1b[0m removed  /tmp/proj/nested/new.txt");
    assert_eq!(lines[3], "  \x1b[33m•\x1b[0m ran      make (manual)");
    assert_eq!(lines[4], "\n  \x1b[2mchanged your mind? `undo redo`\x1b[0m");
    let failed = RollbackReport {
        checkpoint: s("cp002"),
        reverted: vec![],
        skipped: vec![],
        failed: vec![s("x (error: e)")],
    };
    let (lines, code) = rollback_summary(&failed);
    assert_eq!(code, 1);
    assert_eq!(lines.len(), 2);
    assert!(lines[0].contains("incomplete"));
    let empty = RollbackReport { checkpoint: s("cp001"), reverted: vec![], skipped: vec![], failed: vec![] };
    assert_eq!(rollback_summary(&empty).0[1], "  (nothing to undo)");
    let (lines, code) = redo_summary(&RedoReport { restored: vec![s("dir      /a")], failed: vec![] });
    assert_eq!(code, 0);
    assert_eq!(lines, vec![s("\x1b[32m✓\x1b[0m redid the last rollback"), s("  \x1b[32m⟲\x1b[0m dir      /a")]);
}

#[test]
fn diff_rendering() {
    assert_eq!(render_diff(&vec![]), vec![s("(no changes since the checkpoint)")]);
    let entries = vec![
        DiffEntry { path: s("a.txt"), status: s("modified"), added: 1, removed: 2, hunk: s("@@ -1 +1 @@\n-x\r\n+y\n z") },
        DiffEntry { path: s("n.txt"), status: s("created"), added: 3, removed: 0, hunk: s("") },
    ];
    let lines = render_diff(&entries);
    assert_eq!(lines[0], "\n\x1b[1ma.txt\x1b[0m  \x1b[33mmodified\x1b[0m  \x1b[32m+1\x1b[0m \x1b[31m-2\x1b[0m");
    assert_eq!(lines[1], "  \x1b[36m@@ -1 +1 @@\x1b[0m");
    assert_eq!(lines[2], "  \x1b[31m-x\x1b[0m");
    assert_eq!(lines[3], "  \x1b[32m+y\x1b[0m");
    assert_eq!(lines[4], "   z");
    assert_eq!(lines[5], "\n\x1b[1mn.txt\x1b[0m  \x1b[32mnew\x1b[0m  \x1b[32m+3\x1b[0m \x1b[31m-0\x1b[0m");
    assert_eq!(lines[6], "\n\x1b[1m2\x1b[0m file(s) changed, \x1b[32m+4\x1b[0m \x1b[31m-2\x1b[0m");
    assert_eq!(lines.len(), 7);
    assert_eq!(text_lines("a\n\nb\n"), vec![s("a"), s(""), s("b")]);
    assert_eq!(text_lines("x\ry"), vec![s("x\ry")]);
}

#[test]
fn a_captured_path_is_not_captured_again() {
    let mut u = fresh();
    u.checkpoint("c", 1);
    let abs = u.track_start("a.txt", 2).unwrap().unwrap();
    u.track(&abs, vec![file_effect("/tmp/proj/a.txt", "v1")], 2);
    assert_eq!(u.track_start("a.txt", 3).unwrap(), None);
    assert!(u.state.captured.contains(&abs));
}

#[test]
fn a_path_resolved_outside_the_project_is_refused() {
    let mut u = fresh();
    u.checkpoint("c", 1);
    match u.track_start("/elsewhere/f", 2) {
        Err(UndoError::PermissionDenied { message }) => {
            assert_eq!(message, "refusing to track a path outside the project: /elsewhere/f")
        }
        _ => panic!("expected PermissionDenied"),
    }
}

#[test]
fn the_capture_walk_visits_a_directory_before_its_children() {
    let u = fresh();
    let mut w = CaptureWalk::new(s("/tmp/proj/d"));
    assert_eq!(w.next(), Some(s("/tmp/proj/d")));
    w.step(
        &u,
        Found::Dir {
            mode: 0o755,
            children: vec![
                (s("/tmp/proj/d/b"), s("b")),
                (s("/tmp/proj/d/node_modules"), s("node_modules")),
                (s("/tmp/proj/d/a"), s("a")),
            ],
        },
    );
    assert_eq!(w.next(), Some(s("/tmp/proj/d/b")));
    w.step(&u, Found::File { blob: s("h"), meta: Meta { mode: 0o644, mtime_s: 10, mtime_ns: 5 } });
    assert_eq!(w.next(), Some(s("/tmp/proj/d/a")));
    w.step(&u, Found::Link { target: s("x") });
    assert_eq!(w.next(), None);
    assert_eq!(
        w.effects,
        vec![
            Effect::Dir { path: s("/tmp/proj/d"), mode: 0o755, entries: vec![s("a"), s("b")] },
            file_effect("/tmp/proj/d/b", "h"),
            Effect::Symlink { path: s("/tmp/proj/d/a"), target: s("x") },
        ]
    );
}
