//! A model of the filesystem that rollback and redo act on: a map from a
//! path's components to what is there, and what each [`FsOp`] does to it
//! (or that it fails). The laws about restoring a path are stated over it.
//!
//! A file is its stored blob, and the mode and modification time that were
//! set on it since it was written (`None`: whatever the system gave it). A
//! failure of the system that the model does not foresee (permissions, a
//! full disk) shows up as a failed operation in practice, never as a
//! different successful outcome.
//!
//! [`FsOp`]: crate::rollback::FsOp

use vstd::prelude::*;
use crate::journal::undo_root;
use crate::paths::{components, is_ignored_name, is_prefix_of};
use crate::meta::Meta;
use crate::rollback::{file_ops, mode_ops, FsOpV};

verus! {

/// What a path holds.
pub enum Node {
    File { blob: Seq<char>, mode: Option<u32>, mtime: Option<(i64, u32)> },
    Link { target: Seq<char> },
    Dir { mode: Option<u32> },
}

/// A filesystem: each present path, by its components, and what it holds.
pub type Tree = Map<Seq<Seq<char>>, Node>;

/// `k` is `c` or lies below it.
pub open spec fn at_or_below(k: Seq<Seq<char>>, c: Seq<Seq<char>>) -> bool {
    is_prefix_of(c, k)
}

/// `k` is a proper ancestor of `c`.
pub open spec fn above(k: Seq<Seq<char>>, c: Seq<Seq<char>>) -> bool {
    1 <= k.len() < c.len() && is_prefix_of(k, c)
}

/// The tree without `c` and everything below it.
pub open spec fn cut(fs: Tree, c: Seq<Seq<char>>) -> Tree {
    Map::new(|k: Seq<Seq<char>>| fs.contains_key(k) && !at_or_below(k, c), |k: Seq<Seq<char>>| fs[k])
}

/// Each of the first `n` ancestors-or-self of `c` (the prefixes of length
/// 1 to `n`) that is present is a directory.
pub open spec fn dirs_clear(fs: Tree, c: Seq<Seq<char>>, n: int) -> bool {
    forall|i: int|
        1 <= i <= n ==> (fs.contains_key(#[trigger] c.take(i)) ==> fs[c.take(i)] is Dir)
}

/// The tree with each missing prefix of `c` of length 1 to `n` made a
/// directory.
pub open spec fn with_dirs(fs: Tree, c: Seq<Seq<char>>, n: int) -> Tree {
    Map::new(
        |k: Seq<Seq<char>>| fs.contains_key(k) || (1 <= k.len() <= n && k == c.take(k.len() as int)),
        |k: Seq<Seq<char>>|
            if fs.contains_key(k) {
                fs[k]
            } else {
                Node::Dir { mode: None }
            },
    )
}

/// A new entry can be made at `c`: its parent is a directory (a single
/// component lives in the current directory).
pub open spec fn parent_ready(fs: Tree, c: Seq<Seq<char>>) -> bool {
    c.len() == 1 || (c.len() > 1 && fs.contains_key(c.drop_last()) && fs[c.drop_last()] is Dir)
}

/// A child of a directory that pruning keeps: the project's own `.undo`
/// directory, an ignored name, or one of the names in `keep`.
pub open spec fn kept_child(workdir: Seq<char>, child: Seq<Seq<char>>, keep: Seq<Seq<char>>) -> bool {
    child == components(undo_root(workdir)) || is_ignored_name(child.last()) || keep.contains(
        child.last(),
    )
}

/// The tree with every child of `c` that is not kept removed, with all that
/// lies below it.
pub open spec fn pruned(workdir: Seq<char>, fs: Tree, c: Seq<Seq<char>>, keep: Seq<Seq<char>>) -> Tree {
    Map::new(
        |k: Seq<Seq<char>>|
            fs.contains_key(k) && !(at_or_below(k, c) && k.len() > c.len() && !kept_child(
                workdir,
                k.take(c.len() + 1 as int),
                keep,
            )),
        |k: Seq<Seq<char>>| fs[k],
    )
}

/// The outcome of one operation on `fs`: the new tree, or `None` where it
/// fails. `workdir` is the project root (pruning never removes its `.undo`).
pub open spec fn apply_op(workdir: Seq<char>, fs: Tree, op: FsOpV) -> Option<Tree> {
    match op {
        FsOpV::RemoveAny { path } => Some(cut(fs, components(path))),
        FsOpV::CreateParentDirs { path } => {
            let c = components(path);
            if dirs_clear(fs, c, c.len() - 1) {
                Some(with_dirs(fs, c, c.len() - 1))
            } else {
                None
            }
        },
        FsOpV::CreateDirAll { path } => {
            let c = components(path);
            if dirs_clear(fs, c, c.len() as int) {
                Some(with_dirs(fs, c, c.len() as int))
            } else {
                None
            }
        },
        FsOpV::RemoveIfIncompatible { path } => {
            let c = components(path);
            if fs.contains_key(c) && !(fs[c] is File) {
                Some(cut(fs, c))
            } else {
                Some(fs)
            }
        },
        FsOpV::WriteBlob { path, blob } => {
            let c = components(path);
            if parent_ready(fs, c) && !(fs.contains_key(c) && fs[c] is Dir) {
                Some(fs.insert(c, Node::File { blob, mode: None, mtime: None }))
            } else {
                None
            }
        },
        FsOpV::SetMode { path, mode } => {
            let c = components(path);
            if !fs.contains_key(c) {
                None
            } else {
                match fs[c] {
                    Node::File { blob, mtime, .. } => Some(
                        fs.insert(c, Node::File { blob, mode: Some(mode), mtime }),
                    ),
                    Node::Dir { .. } => Some(fs.insert(c, Node::Dir { mode: Some(mode) })),
                    Node::Link { .. } => None,
                }
            }
        },
        FsOpV::SetMtime { path, secs, nanos } => {
            let c = components(path);
            if fs.contains_key(c) && fs[c] is File {
                Some(
                    fs.insert(
                        c,
                        Node::File {
                            blob: fs[c]->File_blob,
                            mode: fs[c]->File_mode,
                            mtime: Some((secs, nanos)),
                        },
                    ),
                )
            } else {
                Some(fs)
            }
        },
        FsOpV::Symlink { target, path } => {
            let c = components(path);
            if !fs.contains_key(c) && parent_ready(fs, c) {
                Some(fs.insert(c, Node::Link { target }))
            } else {
                None
            }
        },
        FsOpV::PruneDir { path, keep } => {
            let c = components(path);
            if fs.contains_key(c) && fs[c] is Dir {
                Some(pruned(workdir, fs, c, keep))
            } else {
                None
            }
        },
    }
}

/// The outcome of running `ops` in order, stopping at the first failure.
pub open spec fn apply_ops(workdir: Seq<char>, fs: Tree, ops: Seq<FsOpV>) -> Option<Tree>
    decreases ops.len(),
{
    if ops.len() == 0 {
        Some(fs)
    } else {
        match apply_op(workdir, fs, ops[0]) {
            Some(next) => apply_ops(workdir, next, ops.drop_first()),
            None => None,
        }
    }
}

pub proof fn lemma_apply_one(workdir: Seq<char>, fs: Tree, op: FsOpV)
    ensures
        apply_ops(workdir, fs, seq![op]) == apply_op(workdir, fs, op),
{
    let s = seq![op];
    assert(s.drop_first() =~= Seq::<FsOpV>::empty());
    match apply_op(workdir, fs, op) {
        Some(next) => {
            assert(apply_ops(workdir, next, s.drop_first()) == Some(next));
        },
        None => {},
    }
}

/// Running `a + b` is running `a`, then `b` on what it gave.
pub proof fn lemma_apply_concat(workdir: Seq<char>, fs: Tree, a: Seq<FsOpV>, b: Seq<FsOpV>)
    ensures
        apply_ops(workdir, fs, a + b) == match apply_ops(workdir, fs, a) {
            Some(mid) => apply_ops(workdir, mid, b),
            None => None,
        },
    decreases a.len(),
{
    if a.len() == 0 {
        assert(a + b =~= b);
    } else {
        assert((a + b)[0] == a[0]);
        assert((a + b).drop_first() =~= a.drop_first() + b);
        match apply_op(workdir, fs, a[0]) {
            Some(next) => {
                lemma_apply_concat(workdir, next, a.drop_first(), b);
            },
            None => {},
        }
    }
}


/// Outside `c`, what lies below it and its ancestors, `b` is `a`.
pub open spec fn unchanged_beside(a: Tree, b: Tree, c: Seq<Seq<char>>) -> bool {
    forall|k: Seq<Seq<char>>|
        !at_or_below(k, c) && !above(k, c) ==> (#[trigger] b.contains_key(k) == a.contains_key(k)
            && (a.contains_key(k) ==> b[k] == a[k]))
}

/// Every ancestor of `c` is a directory in `b`, as it was in `a` where it
/// was there.
pub open spec fn ancestors_dirs(a: Tree, b: Tree, c: Seq<Seq<char>>) -> bool {
    forall|i: int|
        1 <= i < c.len() ==> b.contains_key(#[trigger] c.take(i)) && b[c.take(i)] is Dir && (
        a.contains_key(c.take(i)) ==> b[c.take(i)] == a[c.take(i)])
}

/// Where `c` holds a regular file or nothing, nothing lies below it.
pub open spec fn clean_at(fs: Tree, c: Seq<Seq<char>>) -> bool {
    (!fs.contains_key(c) || fs[c] is File) ==> nothing_below(fs, c)
}

/// Nothing lies strictly below `c`.
pub open spec fn nothing_below(fs: Tree, c: Seq<Seq<char>>) -> bool {
    forall|k: Seq<Seq<char>>| #[trigger] fs.contains_key(k) && at_or_below(k, c) ==> k == c
}

/// What a restored regular file holds: its blob, its mode where one was
/// captured, and its captured modification time.
pub open spec fn restored_file(blob: Seq<char>, meta: Meta) -> Node {
    Node::File {
        blob,
        mode: if meta.mode != 0 {
            Some(meta.mode)
        } else {
            None
        },
        mtime: Some((meta.mtime_s, meta.mtime_ns)),
    }
}

/// Putting a regular file back from the blob store succeeds exactly when
/// no ancestor of the path is anything but a directory, and then leaves the
/// file there with its captured mode and time, its ancestors directories,
/// and everything else as it was.
pub proof fn lemma_file_ops(workdir: Seq<char>, fs: Tree, path: Seq<char>, blob: Seq<char>, meta: Meta)
    ensures
        ({
            let c = components(path);
            let r = apply_ops(workdir, fs, file_ops(path, blob, meta));
            &&& (r is Some <==> c.len() >= 1 && dirs_clear(fs, c, c.len() - 1))
            &&& (r matches Some(fs2) ==> {
                &&& fs2.contains_key(c)
                &&& fs2[c] == restored_file(blob, meta)
                &&& ancestors_dirs(fs, fs2, c)
                &&& unchanged_beside(fs, fs2, c)
                &&& (clean_at(fs, c) ==> nothing_below(fs2, c))
            })
        }),
{
    let c = components(path);
    assert(c.subrange(0, c.len() as int) =~= c);
    let a1 = FsOpV::CreateParentDirs { path };
    let a2 = FsOpV::RemoveIfIncompatible { path };
    let a3 = FsOpV::WriteBlob { path, blob };
    let mt = FsOpV::SetMtime { path, secs: meta.mtime_s, nanos: meta.mtime_ns };
    let mo = mode_ops(path, meta.mode);
    let ops = file_ops(path, blob, meta);
    assert(ops =~= seq![a1] + (seq![a2] + (seq![a3] + (mo + seq![mt]))));
    lemma_apply_concat(workdir, fs, seq![a1], seq![a2] + (seq![a3] + (mo + seq![mt])));
    lemma_apply_one(workdir, fs, a1);
    if !dirs_clear(fs, c, c.len() - 1) {
        return;
    }
    let s1 = with_dirs(fs, c, c.len() - 1);
    lemma_apply_concat(workdir, s1, seq![a2], seq![a3] + (mo + seq![mt]));
    lemma_apply_one(workdir, s1, a2);
    let s2 = if s1.contains_key(c) && !(s1[c] is File) {
        cut(s1, c)
    } else {
        s1
    };
    assert(apply_op(workdir, s1, a2) == Some(s2));
    lemma_apply_concat(workdir, s2, seq![a3], mo + seq![mt]);
    lemma_apply_one(workdir, s2, a3);
    if c.len() == 0 {
        assert(!parent_ready(s2, c));
        return;
    }
    if c.len() > 1 {
        assert(c.drop_last() == c.take(c.len() - 1));
        assert(s1.contains_key(c.take(c.len() - 1)));
        assert(!at_or_below(c.drop_last(), c));
        assert(s2.contains_key(c.drop_last()));
    }
    assert(parent_ready(s2, c));
    assert(!(s2.contains_key(c) && s2[c] is Dir));
    let s3 = s2.insert(c, Node::File { blob, mode: None, mtime: None });
    assert(apply_op(workdir, s2, a3) == Some(s3));
    lemma_apply_concat(workdir, s3, mo, seq![mt]);
    let s4 = if meta.mode != 0 {
        s3.insert(c, Node::File { blob, mode: Some(meta.mode), mtime: None })
    } else {
        s3
    };
    if meta.mode != 0 {
        lemma_apply_one(workdir, s3, FsOpV::SetMode { path, mode: meta.mode });
    } else {
        assert(mo =~= Seq::<FsOpV>::empty());
    }
    assert(apply_ops(workdir, s3, mo) == Some(s4));
    lemma_apply_one(workdir, s4, mt);
    let s5 = s4.insert(c, restored_file(blob, meta));
    assert(apply_op(workdir, s4, mt) == Some(s5));
    if clean_at(fs, c) {
        assert forall|k: Seq<Seq<char>>| #[trigger] s5.contains_key(k) && at_or_below(k, c) implies k
            == c by {
            if k != c {
                assert(s2.contains_key(k));
                if 1 <= k.len() <= c.len() - 1 && k == c.take(k.len() as int) {
                    assert(false);
                }
                assert(s1.contains_key(k));
                assert(fs.contains_key(k));
            }
        }
    }
    assert forall|i: int| 1 <= i < c.len() implies s5.contains_key(#[trigger] c.take(i)) && s5[c.take(
        i,
    )] is Dir && (fs.contains_key(c.take(i)) ==> s5[c.take(i)] == fs[c.take(i)]) by {
        assert(c.take(i).len() == i);
        assert(c.take(i) == c.take(c.take(i).len() as int));
        assert(!at_or_below(c.take(i), c));
        assert(c.take(i) != c);
    }
    assert forall|k: Seq<Seq<char>>| !at_or_below(k, c) && !above(k, c) implies (
    #[trigger] s5.contains_key(k) == fs.contains_key(k) && (fs.contains_key(k) ==> s5[k] == fs[k])) by {
        if 1 <= k.len() <= c.len() - 1 && k == c.take(k.len() as int) {
            assert(is_prefix_of(k, c));
        }
        assert(k != c);
    }
}

/// Removing a path takes it and all below it away and touches nothing else.
pub proof fn lemma_remove_op(workdir: Seq<char>, fs: Tree, path: Seq<char>)
    ensures
        ({
            let c = components(path);
            let r = apply_ops(workdir, fs, seq![FsOpV::RemoveAny { path }]);
            &&& r is Some
            &&& forall|k: Seq<Seq<char>>| #[trigger] r->0.contains_key(k) ==> !at_or_below(k, c)
            &&& forall|k: Seq<Seq<char>>|
                !at_or_below(k, c) ==> (#[trigger] r->0.contains_key(k) == fs.contains_key(k) && (
                fs.contains_key(k) ==> r->0[k] == fs[k]))
        }),
{
    lemma_apply_one(workdir, fs, FsOpV::RemoveAny { path });
}

/// Making a symlink at `path` after clearing it succeeds exactly when its
/// parent is a directory, and leaves the link there with nothing below it
/// and everything else as it was.
pub proof fn lemma_relink_ops(workdir: Seq<char>, fs: Tree, path: Seq<char>, target: Seq<char>)
    ensures
        ({
            let c = components(path);
            let r = apply_ops(
                workdir,
                fs,
                seq![FsOpV::RemoveAny { path }, FsOpV::Symlink { target, path }],
            );
            &&& (r is Some <==> parent_ready(fs, c))
            &&& (r matches Some(fs2) ==> {
                &&& fs2.contains_key(c)
                &&& fs2[c] == (Node::Link { target })
                &&& nothing_below(fs2, c)
                &&& forall|k: Seq<Seq<char>>|
                    !at_or_below(k, c) ==> (#[trigger] fs2.contains_key(k) == fs.contains_key(k)
                        && (fs.contains_key(k) ==> fs2[k] == fs[k]))
            })
        }),
{
    let c = components(path);
    assert(c.subrange(0, c.len() as int) =~= c);
    let a1 = FsOpV::RemoveAny { path };
    let a2 = FsOpV::Symlink { target, path };
    assert(seq![a1, a2] =~= seq![a1] + seq![a2]);
    lemma_apply_concat(workdir, fs, seq![a1], seq![a2]);
    lemma_apply_one(workdir, fs, a1);
    let s1 = cut(fs, c);
    lemma_apply_one(workdir, s1, a2);
    if c.len() > 1 {
        assert(!at_or_below(c.drop_last(), c));
    }
    assert(parent_ready(s1, c) == parent_ready(fs, c));
    assert forall|k: Seq<Seq<char>>| #[trigger]
        s1.insert(c, Node::Link { target }).contains_key(k) && at_or_below(k, c) implies k == c by {}
}

/// Putting a directory back: create it (and its ancestors), set its mode
/// when one was captured, and remove every child that is not among its
/// captured entries. This succeeds exactly when no ancestor, nor the path
/// itself, is anything but a directory; then the directory is there with
/// the captured mode (or the mode it had), its children are the kept ones
/// it had, untouched, and everything else is as it was.
/// Making `path` a directory with `mode` (when not 0), and, given the names
/// to keep, pruning its other children.
pub open spec fn dir_plan(path: Seq<char>, mode: u32, keep: Option<Seq<Seq<char>>>) -> Seq<FsOpV> {
    let base = seq![FsOpV::CreateDirAll { path }] + mode_ops(path, mode);
    match keep {
        Some(names) => base.push(FsOpV::PruneDir { path, keep: names }),
        None => base,
    }
}

pub proof fn lemma_dir_ops(
    workdir: Seq<char>,
    fs: Tree,
    path: Seq<char>,
    mode: u32,
    keep: Option<Seq<Seq<char>>>,
)
    requires
        components(path).len() >= 1,
    ensures
        ({
            let c = components(path);
            let r = apply_ops(workdir, fs, dir_plan(path, mode, keep));
            &&& (r is Some <==> dirs_clear(fs, c, c.len() as int))
            &&& (r matches Some(fs2) ==> {
                &&& fs2.contains_key(c)
                &&& fs2[c] == (Node::Dir {
                    mode: if mode != 0 {
                        Some(mode)
                    } else if fs.contains_key(c) {
                        fs[c]->Dir_mode
                    } else {
                        None
                    },
                })
                &&& ancestors_dirs(fs, fs2, c)
                &&& unchanged_beside(fs, fs2, c)
                &&& forall|k: Seq<Seq<char>>|
                    at_or_below(k, c) && k.len() > c.len() ==> (#[trigger] fs2.contains_key(k) == (
                    fs.contains_key(k) && match keep {
                        Some(names) => kept_child(workdir, k.take(c.len() + 1 as int), names),
                        None => true,
                    }) && (fs2.contains_key(k) ==> fs2[k] == fs[k]))
            })
        }),
{
    let c = components(path);
    assert(c.subrange(0, c.len() as int) =~= c);
    assert(c.take(c.len() as int) =~= c);
    let a1 = FsOpV::CreateDirAll { path };
    let mo = mode_ops(path, mode);
    let base = seq![a1] + mo;
    lemma_apply_concat(workdir, fs, seq![a1], mo);
    lemma_apply_one(workdir, fs, a1);
    if !dirs_clear(fs, c, c.len() as int) {
        match keep {
            Some(names) => {
                assert(base.push(FsOpV::PruneDir { path, keep: names }) =~= base + seq![
                    FsOpV::PruneDir { path, keep: names },
                ]);
                lemma_apply_concat(workdir, fs, base, seq![FsOpV::PruneDir { path, keep: names }]);
            },
            None => {},
        }
        return;
    }
    let s1 = with_dirs(fs, c, c.len() as int);
    assert(s1.contains_key(c));
    assert(s1[c] is Dir);
    let s2 = if mode != 0 {
        s1.insert(c, Node::Dir { mode: Some(mode) })
    } else {
        s1
    };
    if mode != 0 {
        lemma_apply_one(workdir, s1, FsOpV::SetMode { path, mode });
    } else {
        assert(mo =~= Seq::<FsOpV>::empty());
    }
    assert(apply_ops(workdir, fs, base) == Some(s2));
    assert forall|i: int| 1 <= i < c.len() implies s2.contains_key(#[trigger] c.take(i)) && s2[c.take(
        i,
    )] is Dir && (fs.contains_key(c.take(i)) ==> s2[c.take(i)] == fs[c.take(i)]) by {
        assert(c.take(i).len() == i);
        assert(c.take(i) == c.take(c.take(i).len() as int));
        assert(c.take(i) != c);
    }
    assert forall|k: Seq<Seq<char>>| !at_or_below(k, c) && !above(k, c) implies (
    #[trigger] s2.contains_key(k) == fs.contains_key(k) && (fs.contains_key(k) ==> s2[k] == fs[k])) by {
        if 1 <= k.len() <= c.len() && k == c.take(k.len() as int) {
            assert(is_prefix_of(k, c));
        }
        assert(k != c);
    }
    assert forall|k: Seq<Seq<char>>| at_or_below(k, c) && k.len() > c.len() implies (
    #[trigger] s2.contains_key(k) == fs.contains_key(k) && (s2.contains_key(k) ==> s2[k] == fs[k])) by {
        assert(k != c);
        if 1 <= k.len() <= c.len() {
        }
    }
    match keep {
        Some(names) => {
            let a3 = FsOpV::PruneDir { path, keep: names };
            assert(base.push(a3) =~= base + seq![a3]);
            lemma_apply_concat(workdir, fs, base, seq![a3]);
            lemma_apply_one(workdir, s2, a3);
            let s3 = pruned(workdir, s2, c, names);
            assert(apply_op(workdir, s2, a3) == Some(s3));
            assert(s3.contains_key(c) && s3[c] == s2[c]);
            assert forall|i: int| 1 <= i < c.len() implies s3.contains_key(#[trigger] c.take(i))
                && s3[c.take(i)] is Dir && (fs.contains_key(c.take(i)) ==> s3[c.take(i)] == fs[c.take(
                i,
            )]) by {
                assert(c.take(i).len() == i);
                assert(s2.contains_key(c.take(i)));
            }
            assert forall|k: Seq<Seq<char>>| !at_or_below(k, c) && !above(k, c) implies (
            #[trigger] s3.contains_key(k) == fs.contains_key(k) && (fs.contains_key(k) ==> s3[k]
                == fs[k])) by {
                assert(s2.contains_key(k) == fs.contains_key(k));
            }
            assert forall|k: Seq<Seq<char>>| at_or_below(k, c) && k.len() > c.len() implies (
            #[trigger] s3.contains_key(k) == (fs.contains_key(k) && kept_child(
                workdir,
                k.take(c.len() + 1 as int),
                names,
            )) && (s3.contains_key(k) ==> s3[k] == fs[k])) by {
                assert(s2.contains_key(k) == fs.contains_key(k));
            }
        },
        None => {},
    }
}

/// Clearing `path`, creating its ancestors, and linking it to `target`.
pub open spec fn symlink_plan(path: Seq<char>, target: Seq<char>) -> Seq<FsOpV> {
    seq![
        FsOpV::RemoveAny { path },
        FsOpV::CreateParentDirs { path },
        FsOpV::Symlink { target, path },
    ]
}

/// Clearing `path`, creating its ancestors and making it a symlink succeeds
/// exactly when no ancestor is anything but a directory, and then leaves
/// the link there with nothing below it, the ancestors directories, and
/// everything else as it was.
pub proof fn lemma_symlink_ops(
    workdir: Seq<char>,
    fs: Tree,
    path: Seq<char>,
    target: Seq<char>,
)
    ensures
        ({
            let c = components(path);
            let r = apply_ops(workdir, fs, symlink_plan(path, target));
            &&& (r is Some <==> c.len() >= 1 && dirs_clear(fs, c, c.len() - 1))
            &&& (r matches Some(fs2) ==> {
                &&& fs2.contains_key(c)
                &&& fs2[c] == (Node::Link { target })
                &&& nothing_below(fs2, c)
                &&& ancestors_dirs(fs, fs2, c)
                &&& unchanged_beside(fs, fs2, c)
            })
        }),
{
    let c = components(path);
    assert(c.subrange(0, c.len() as int) =~= c);
    let a1 = FsOpV::RemoveAny { path };
    let a2 = FsOpV::CreateParentDirs { path };
    let a3 = FsOpV::Symlink { target, path };
    let ops = symlink_plan(path, target);
    assert(ops =~= seq![a1] + (seq![a2] + seq![a3]));
    lemma_apply_concat(workdir, fs, seq![a1], seq![a2] + seq![a3]);
    lemma_apply_one(workdir, fs, a1);
    let s1 = cut(fs, c);
    lemma_apply_concat(workdir, s1, seq![a2], seq![a3]);
    lemma_apply_one(workdir, s1, a2);
    assert forall|i: int| 1 <= i <= c.len() - 1 implies (s1.contains_key(#[trigger] c.take(i))
        == fs.contains_key(c.take(i)) && (fs.contains_key(c.take(i)) ==> s1[c.take(i)] == fs[c.take(
        i,
    )])) by {
        assert(c.take(i).len() == i);
        assert(!at_or_below(c.take(i), c));
    }
    assert(dirs_clear(s1, c, c.len() - 1) == dirs_clear(fs, c, c.len() - 1));
    if !dirs_clear(fs, c, c.len() - 1) {
        return;
    }
    let s2 = with_dirs(s1, c, c.len() - 1);
    lemma_apply_one(workdir, s2, a3);
    assert(!s2.contains_key(c));
    if c.len() == 0 {
        assert(!parent_ready(s2, c));
        return;
    }
    if c.len() > 1 {
        assert(c.drop_last() == c.take(c.len() - 1));
        assert(s2.contains_key(c.take(c.len() - 1)));
    }
    assert(parent_ready(s2, c));
    let s3 = s2.insert(c, Node::Link { target });
    assert(apply_ops(workdir, fs, ops) == Some(s3));
    assert forall|k: Seq<Seq<char>>| #[trigger] s3.contains_key(k) && at_or_below(k, c) implies k
        == c by {
        if k != c && s2.contains_key(k) {
            assert(!s1.contains_key(k) || !at_or_below(k, c));
        }
    }
    assert forall|i: int| 1 <= i < c.len() implies s3.contains_key(#[trigger] c.take(i)) && s3[c.take(
        i,
    )] is Dir && (fs.contains_key(c.take(i)) ==> s3[c.take(i)] == fs[c.take(i)]) by {
        assert(c.take(i).len() == i);
        assert(c.take(i) == c.take(c.take(i).len() as int));
        assert(c.take(i) != c);
    }
    assert forall|k: Seq<Seq<char>>| !at_or_below(k, c) && !above(k, c) implies (
    #[trigger] s3.contains_key(k) == fs.contains_key(k) && (fs.contains_key(k) ==> s3[k] == fs[k])) by {
        if 1 <= k.len() <= c.len() - 1 && k == c.take(k.len() as int) {
            assert(is_prefix_of(k, c));
        }
        assert(k != c);
    }
}

} // verus!
