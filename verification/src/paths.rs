//! Lexical path handling for `/`-separated paths: components, joining,
//! normalization, prefix tests, and the directories that are never captured.

use vstd::prelude::*;
use crate::text::{chars_of, concat2, str_eq, string_of, views};

verus! {

broadcast use vstd::string::group_string_axioms;

/// The character views of a sequence of character vectors.
pub open spec fn vviews(v: Seq<Vec<char>>) -> Seq<Seq<char>> {
    v.map_values(|x: Vec<char>| x@)
}

pub open spec fn root_text() -> Seq<char> {
    seq!['/']
}

pub open spec fn cur_text() -> Seq<char> {
    seq!['.']
}

pub open spec fn parent_text() -> Seq<char> {
    seq!['.', '.']
}

/// A path is absolute when it starts with the separator.
pub open spec fn is_rooted(s: Seq<char>) -> bool {
    s.len() > 0 && s[0] == '/'
}

/// A relative path whose first component is `.`.
pub open spec fn starts_cur(s: Seq<char>) -> bool {
    !is_rooted(s) && s.len() > 0 && s[0] == '.' && (s.len() == 1 || s[1] == '/')
}

/// Adds a finished piece between separators, unless it is empty or `.`.
pub open spec fn emit(done: Seq<Seq<char>>, cur: Seq<char>) -> Seq<Seq<char>> {
    if cur.len() > 0 && cur != cur_text() {
        done.push(cur)
    } else {
        done
    }
}

/// Left-to-right scan: the pieces finished so far and the piece in progress.
pub open spec fn scan(s: Seq<char>) -> (Seq<Seq<char>>, Seq<char>)
    decreases s.len(),
{
    if s.len() == 0 {
        (seq![], seq![])
    } else {
        let (d, c) = scan(s.drop_last());
        if s.last() == '/' {
            (emit(d, c), seq![])
        } else {
            (d, c.push(s.last()))
        }
    }
}

/// The components of a path, each as its text (`/` for the root, `.` for a
/// leading current-directory component, `..` for a parent component), as
/// `Path::components` yields them.
pub open spec fn components(s: Seq<char>) -> Seq<Seq<char>> {
    let head = if is_rooted(s) {
        seq![root_text()]
    } else if starts_cur(s) {
        seq![cur_text()]
    } else {
        seq![]
    };
    head + emit(scan(s).0, scan(s).1)
}

/// A component that is a plain name (not root, `.` or `..`).
pub open spec fn is_normal(c: Seq<char>) -> bool {
    c != root_text() && c != cur_text() && c != parent_text()
}

/// Lexical resolution of `.` and `..` over a component list: `..` drops the
/// previous name (never the root), `.` disappears, the root restarts the path.
pub open spec fn normalize(cs: Seq<Seq<char>>) -> Seq<Seq<char>>
    decreases cs.len(),
{
    if cs.len() == 0 {
        seq![]
    } else {
        let out = normalize(cs.drop_last());
        let c = cs.last();
        if c == parent_text() {
            if out.len() > 0 && out.last() != root_text() {
                out.drop_last()
            } else {
                out
            }
        } else if c == cur_text() {
            out
        } else if c == root_text() {
            seq![root_text()]
        } else {
            out.push(c)
        }
    }
}

pub open spec fn is_prefix_of<A>(p: Seq<A>, s: Seq<A>) -> bool {
    p.len() <= s.len() && s.subrange(0, p.len() as int) == p
}

/// `PathBuf::join` on `/`-separated paths.
pub open spec fn join(base: Seq<char>, p: Seq<char>) -> Seq<char> {
    if is_rooted(p) {
        p
    } else if base.len() == 0 || base.last() == '/' {
        base + p
    } else {
        base + seq!['/'] + p
    }
}

/// A path taken relative to `workdir` unless it is already absolute.
pub open spec fn resolve(workdir: Seq<char>, p: Seq<char>) -> Seq<char> {
    if is_rooted(p) {
        p
    } else {
        join(workdir, p)
    }
}

/// Path equality (`Path == Path` compares components).
pub open spec fn same_path(a: Seq<char>, b: Seq<char>) -> bool {
    components(a) == components(b)
}

/// The names of directories that are never captured nor pruned.
pub open spec fn is_ignored_name(n: Seq<char>) -> bool {
    n == ".git"@ || n == ".undo"@ || n == "node_modules"@ || n == "target"@ || n == "dist"@
        || n == "build"@ || n == ".next"@ || n == ".nuxt"@ || n == ".svelte-kit"@ || n == ".turbo"@
        || n == ".venv"@ || n == "venv"@ || n == "__pycache__"@ || n == ".mypy_cache"@
        || n == ".pytest_cache"@ || n == ".gradle"@ || n == ".idea"@ || n == ".cargo"@
        || n == "vendor"@
}

/// Some plain-name component of the path is an ignored directory name.
pub open spec fn spec_path_is_ignored(s: Seq<char>) -> bool {
    exists|i: int|
        0 <= i < components(s).len() && is_normal(#[trigger] components(s)[i])
            && is_ignored_name(components(s)[i])
}

// ---- exec ------------------------------------------------------------------

fn chars_eq(a: &Vec<char>, b: &Vec<char>) -> (r: bool)
    ensures
        r == (a@ == b@),
{
    if a.len() != b.len() {
        return false;
    }
    let mut i: usize = 0;
    while i < a.len()
        invariant
            a@.len() == b@.len(),
            i <= a@.len(),
            forall|k: int| 0 <= k < i ==> a@[k] == b@[k],
        decreases a@.len() - i,
    {
        if a[i] != b[i] {
            return false;
        }
        i = i + 1;
    }
    assert(a@ =~= b@);
    true
}

fn is_cur(c: &Vec<char>) -> (r: bool)
    ensures
        r == (c@ == cur_text()),
{
    let r = c.len() == 1 && c[0] == '.';
    assert(r ==> c@ =~= cur_text());
    r
}

fn is_parent(c: &Vec<char>) -> (r: bool)
    ensures
        r == (c@ == parent_text()),
{
    let r = c.len() == 2 && c[0] == '.' && c[1] == '.';
    assert(r ==> c@ =~= parent_text());
    r
}

fn is_root(c: &Vec<char>) -> (r: bool)
    ensures
        r == (c@ == root_text()),
{
    let r = c.len() == 1 && c[0] == '/';
    assert(r ==> c@ =~= root_text());
    r
}

/// The components of a path, as character vectors.
pub fn component_chars(s: &str) -> (r: Vec<Vec<char>>)
    ensures
        vviews(r@) == components(s@),
{
    let cs = chars_of(s);
    let mut out: Vec<Vec<char>> = Vec::new();
    let rooted = cs.len() > 0 && cs[0] == '/';
    if rooted {
        let r = vec!['/'];
        assert(r@ =~= root_text());
        out.push(r);
    } else if cs.len() > 0 && cs[0] == '.' && (cs.len() == 1 || cs[1] == '/') {
        let d = vec!['.'];
        assert(d@ =~= cur_text());
        out.push(d);
    }
    let ghost head = vviews(out@);
    assert(head =~= (if is_rooted(s@) {
        seq![root_text()]
    } else if starts_cur(s@) {
        seq![cur_text()]
    } else {
        seq![]
    }));
    let mut cur: Vec<char> = Vec::new();
    let mut i: usize = 0;
    while i < cs.len()
        invariant
            i <= cs@.len(),
            cs@ == s@,
            head.len() <= out@.len(),
            vviews(out@).subrange(0, head.len() as int) == head,
            vviews(out@).subrange(head.len() as int, out@.len() as int) == scan(
                cs@.take(i as int),
            ).0,
            cur@ == scan(cs@.take(i as int)).1,
        decreases cs@.len() - i,
    {
        let c = cs[i];
        let ghost pre = cs@.take(i as int);
        assert(cs@.take(i + 1).drop_last() =~= pre);
        assert(cs@.take(i + 1).last() == c);
        if c == '/' {
            if cur.len() > 0 && !is_cur(&cur) {
                let piece = cur;
                out.push(piece);
                cur = Vec::new();
            } else {
                cur = Vec::new();
            }
        } else {
            cur.push(c);
        }
        i = i + 1;
        assert(vviews(out@).subrange(0, head.len() as int) =~= head);
        assert(vviews(out@).subrange(head.len() as int, out@.len() as int) =~= scan(
            cs@.take(i as int),
        ).0);
    }
    if cur.len() > 0 && !is_cur(&cur) {
        out.push(cur);
    }
    assert(cs@.take(cs@.len() as int) =~= cs@);
    assert(vviews(out@) =~= components(s@)) by {
        let v = vviews(out@);
        assert(v =~= v.subrange(0, head.len() as int) + v.subrange(head.len() as int, v.len() as int));
    }
    out
}

/// The components of a path, as strings.
pub fn path_components(s: &str) -> (r: Vec<String>)
    ensures
        views(r@) == components(s@),
{
    let cs = component_chars(s);
    let mut r: Vec<String> = Vec::new();
    let mut i: usize = 0;
    while i < cs.len()
        invariant
            i <= cs@.len(),
            views(r@) == vviews(cs@).take(i as int),
        decreases cs@.len() - i,
    {
        let piece = string_of(cs[i].as_slice());
        assert(piece@ == vviews(cs@)[i as int]);
        let ghost old_r = r@;
        assert(views(old_r).len() == old_r.len());
        assert(old_r.len() == i);
        r.push(piece);
        assert(r@ == old_r.push(piece));
        assert forall|k: int| 0 <= k < i + 1 implies #[trigger] views(r@)[k] == vviews(cs@)[k] by {
            if k < i {
                assert(views(old_r)[k] == vviews(cs@).take(i as int)[k]);
                assert(r@[k] == old_r[k]);
            }
        }
        i = i + 1;
        assert(views(r@) =~= vviews(cs@).take(i as int));
    }
    assert(vviews(cs@).take(cs@.len() as int) =~= vviews(cs@));
    r
}

/// Lexical normalization of a component list.
pub fn normalize_components(cs: &Vec<Vec<char>>) -> (r: Vec<Vec<char>>)
    ensures
        vviews(r@) == normalize(vviews(cs@)),
{
    let mut out: Vec<Vec<char>> = Vec::new();
    let mut i: usize = 0;
    while i < cs.len()
        invariant
            i <= cs@.len(),
            vviews(out@) == normalize(vviews(cs@).take(i as int)),
        decreases cs@.len() - i,
    {
        let ghost pre = vviews(cs@).take(i as int);
        assert(vviews(cs@).take(i + 1).drop_last() =~= pre);
        let c = &cs[i];
        if is_parent(c) {
            if out.len() > 0 && !is_root(&out[out.len() - 1]) {
                out.pop();
            }
        } else if is_cur(c) {
        } else if is_root(c) {
            out = Vec::new();
            let r = vec!['/'];
            assert(r@ =~= root_text());
            out.push(r);
        } else {
            out.push(c.clone());
        }
        i = i + 1;
        assert(vviews(out@) =~= normalize(vviews(cs@).take(i as int)));
    }
    assert(vviews(cs@).take(cs@.len() as int) =~= vviews(cs@));
    out
}

/// Component-wise prefix test (`Path::starts_with`).
pub fn components_start_with(a: &Vec<Vec<char>>, b: &Vec<Vec<char>>) -> (r: bool)
    ensures
        r == is_prefix_of(vviews(b@), vviews(a@)),
{
    if b.len() > a.len() {
        return false;
    }
    let mut i: usize = 0;
    while i < b.len()
        invariant
            b@.len() <= a@.len(),
            i <= b@.len(),
            forall|k: int| 0 <= k < i ==> a@[k]@ == b@[k]@,
        decreases b@.len() - i,
    {
        if !chars_eq(&a[i], &b[i]) {
            assert(vviews(a@).subrange(0, b@.len() as int)[i as int] != vviews(b@)[i as int]);
            return false;
        }
        i = i + 1;
    }
    assert(vviews(a@).subrange(0, b@.len() as int) =~= vviews(b@));
    true
}

/// Component-wise equality of two component lists.
pub fn components_equal(a: &Vec<Vec<char>>, b: &Vec<Vec<char>>) -> (r: bool)
    ensures
        r == (vviews(a@) == vviews(b@)),
{
    if a.len() != b.len() {
        assert(vviews(a@).len() != vviews(b@).len());
        return false;
    }
    let r = components_start_with(a, b);
    proof {
        if r {
            assert(vviews(a@).subrange(0, b@.len() as int) =~= vviews(a@));
        } else {
            if vviews(a@) == vviews(b@) {
                assert(vviews(a@).subrange(0, b@.len() as int) =~= vviews(a@));
            }
        }
    }
    r
}

/// `PathBuf::join`.
pub fn join_path(base: &str, p: &str) -> (r: String)
    ensures
        r@ == join(base@, p@),
{
    let pc = chars_of(p);
    if pc.len() > 0 && pc[0] == '/' {
        return String::from_str(p);
    }
    let bc = chars_of(base);
    if bc.len() == 0 || bc[bc.len() - 1] == '/' {
        concat2(base, p)
    } else {
        let mut r = String::from_str(base);
        r.push('/');
        r.append(p);
        r
    }
}

/// A path relative to `workdir` unless already absolute.
pub fn resolve_path(workdir: &str, p: &str) -> (r: String)
    ensures
        r@ == resolve(workdir@, p@),
{
    let pc = chars_of(p);
    if pc.len() > 0 && pc[0] == '/' {
        String::from_str(p)
    } else {
        join_path(workdir, p)
    }
}

/// Path equality by components.
pub fn paths_equal(a: &str, b: &str) -> (r: bool)
    ensures
        r == same_path(a@, b@),
{
    let ac = component_chars(a);
    let bc = component_chars(b);
    components_equal(&ac, &bc)
}

/// Is `n` one of the directory names that are never captured?
pub fn is_ignored_name_exec(n: &str) -> (r: bool)
    ensures
        r == is_ignored_name(n@),
{
    str_eq(n, ".git") || str_eq(n, ".undo") || str_eq(n, "node_modules") || str_eq(n, "target")
        || str_eq(n, "dist") || str_eq(n, "build") || str_eq(n, ".next") || str_eq(n, ".nuxt")
        || str_eq(n, ".svelte-kit") || str_eq(n, ".turbo") || str_eq(n, ".venv") || str_eq(
        n,
        "venv",
    ) || str_eq(n, "__pycache__") || str_eq(n, ".mypy_cache") || str_eq(n, ".pytest_cache")
        || str_eq(n, ".gradle") || str_eq(n, ".idea") || str_eq(n, ".cargo") || str_eq(n, "vendor")
}

/// True if any component of `path` is an ignored directory (e.g.
/// `node_modules`, `.git`, `.undo`).
pub fn path_is_ignored(path: &str) -> (r: bool)
    ensures
        r == spec_path_is_ignored(path@),
{
    let cs = component_chars(path);
    let mut i: usize = 0;
    while i < cs.len()
        invariant
            i <= cs@.len(),
            vviews(cs@) == components(path@),
            forall|k: int|
                0 <= k < i ==> !(is_normal(#[trigger] components(path@)[k]) && is_ignored_name(
                    components(path@)[k],
                )),
        decreases cs@.len() - i,
    {
        let c = &cs[i];
        assert(c@ == components(path@)[i as int]);
        if !is_root(c) && !is_cur(c) && !is_parent(c) {
            let name = string_of(c.as_slice());
            if is_ignored_name_exec(name.as_str()) {
                return true;
            }
        }
        i = i + 1;
    }
    false
}

} // verus!
