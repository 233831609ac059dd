//! Keeping the project's `.gitignore` from letting captured snapshots (which
//! may contain secrets) be committed.

use vstd::prelude::*;
use crate::text::{chars_of, concat2, str_eq, string_of, trim, trim_chars};

verus! {

broadcast use vstd::string::group_string_axioms;

/// `s[i..j]` is one line of `s`: it starts the text or follows a newline,
/// ends the text or is followed by one, and holds no newline.
pub open spec fn is_line(s: Seq<char>, i: int, j: int) -> bool {
    &&& 0 <= i <= j <= s.len()
    &&& (i == 0 || s[i - 1] == '\n')
    &&& (j == s.len() || s[j] == '\n')
    &&& forall|k: int| i <= k < j ==> s[k] != '\n'
}

/// A `.gitignore` line that already covers the `.undo` directory.
pub open spec fn is_undo_entry(t: Seq<char>) -> bool {
    t == ".undo"@ || t == ".undo/"@ || t == "/.undo"@ || t == "/.undo/"@
}

/// Some line, trimmed, already ignores `.undo`.
pub open spec fn ignores_undo(s: Seq<char>) -> bool {
    exists|i: int, j: int| is_line(s, i, j) && is_undo_entry(#[trigger] trim(s.subrange(i, j)))
}

/// The block appended to `.gitignore`.
pub open spec fn gitignore_block() -> Seq<char> {
    "# agent-undo: snapshots of your files (may contain secrets) — never commit\n.undo/\n"@
}

/// The new `.gitignore` contents, or `None` when `.undo` is already ignored:
/// the block is appended, on a line of its own.
pub open spec fn spec_gitignore_update(contents: Seq<char>) -> Option<Seq<char>> {
    if ignores_undo(contents) {
        None
    } else if contents.len() > 0 && contents.last() != '\n' {
        Some(contents + seq!['\n'] + gitignore_block())
    } else {
        Some(contents + gitignore_block())
    }
}

fn is_undo_entry_exec(t: &Vec<char>) -> (r: bool)
    ensures
        r == is_undo_entry(t@),
{
    let s = string_of(t.as_slice());
    str_eq(s.as_str(), ".undo") || str_eq(s.as_str(), ".undo/") || str_eq(s.as_str(), "/.undo")
        || str_eq(s.as_str(), "/.undo/")
}

proof fn lemma_line_start_unique(s: Seq<char>, start: int, i: int, k: int)
    requires
        0 <= start <= k <= s.len(),
        start == 0 || s[start - 1] == '\n',
        forall|m: int| start <= m < k ==> s[m] != '\n',
        is_line(s, i, k),
    ensures
        i == start,
{
    if i < start {
        assert(s[start - 1] != '\n');
    } else if i > start {
        assert(s[i - 1] != '\n');
    }
}

/// Does some line of `contents`, trimmed, already ignore `.undo`?
pub fn ignores_undo_exec(contents: &str) -> (r: bool)
    ensures
        r == ignores_undo(contents@),
{
    let s = chars_of(contents);
    let ghost sv = s@;
    let mut start: usize = 0;
    let mut k: usize = 0;
    while k < s.len()
        invariant
            sv == s@,
            sv == contents@,
            start <= k <= s@.len(),
            start == 0 || sv[start - 1] == '\n',
            forall|m: int| start <= m < k ==> sv[m] != '\n',
            forall|i: int, j: int|
                is_line(sv, i, j) && j < k ==> !is_undo_entry(#[trigger] trim(sv.subrange(i, j))),
        decreases s@.len() - k,
    {
        if s[k] == '\n' {
            let t = trim_chars(&s, start, k);
            if is_undo_entry_exec(&t) {
                assert(is_line(sv, start as int, k as int));
                assert(trim(sv.subrange(start as int, k as int)) == t@);
                return true;
            }
            proof {
                assert forall|i: int, j: int|
                    is_line(sv, i, j) && j < k + 1 implies !is_undo_entry(
                    #[trigger] trim(sv.subrange(i, j)),
                ) by {
                    if j == k {
                        lemma_line_start_unique(sv, start as int, i, k as int);
                    }
                }
            }
            start = k + 1;
        } else {
            proof {
                assert forall|i: int, j: int|
                    is_line(sv, i, j) && j < k + 1 implies !is_undo_entry(
                    #[trigger] trim(sv.subrange(i, j)),
                ) by {
                    if j == k {
                        assert(sv[j] != '\n');
                    }
                }
            }
        }
        k = k + 1;
    }
    let t = trim_chars(&s, start, k);
    if is_undo_entry_exec(&t) {
        assert(is_line(sv, start as int, k as int));
        return true;
    }
    proof {
        assert forall|i: int, j: int| is_line(sv, i, j) implies !is_undo_entry(
            #[trigger] trim(sv.subrange(i, j)),
        ) by {
            if j == k {
                lemma_line_start_unique(sv, start as int, i, k as int);
            }
        }
    }
    false
}

/// The new `.gitignore` contents that make git ignore `.undo`, or `None`
/// when a line already does.
pub fn gitignore_update(contents: &str) -> (r: Option<String>)
    ensures
        match r {
            Some(s) => spec_gitignore_update(contents@) == Some(s@),
            None => spec_gitignore_update(contents@) is None,
        },
{
    if ignores_undo_exec(contents) {
        return None;
    }
    let s = chars_of(contents);
    let mut next = String::from_str(contents);
    if s.len() > 0 && s[s.len() - 1] != '\n' {
        next.push('\n');
    }
    next.append(
        "# agent-undo: snapshots of your files (may contain secrets) — never commit\n.undo/\n",
    );
    Some(next)
}

/// Adding the block is enough: the updated contents already ignore `.undo`,
/// so a second update changes nothing.
pub proof fn law_gitignore_update_idempotent(contents: Seq<char>)
    ensures
        spec_gitignore_update(contents) matches Some(next) ==> spec_gitignore_update(next) is None,
{
    reveal_strlit("# agent-undo: snapshots of your files (may contain secrets) — never commit\n.undo/\n");
    reveal_strlit(".undo/");
    if let Some(next) = spec_gitignore_update(contents) {
        let b = gitignore_block();
        let n = next.len();
        assert(next.subrange(n - b.len(), n as int) =~= b);
        let i = n - 7;
        let j = n - 1;
        assert(next[i - 1] == b[b.len() - 8]);
        assert(next[j] == b[b.len() - 1]);
        assert forall|k: int| i <= k < j implies next[k] != '\n' by {
            assert(next[k] == b[k - (n - b.len())]);
        }
        assert(is_line(next, i, j));
        let line = next.subrange(i, j);
        assert(line =~= ".undo/"@);
        assert(crate::text::lead_ws(line) == 0);
        assert(line.skip(0) =~= line);
        assert(crate::text::trail_ws(line) == 0);
        assert(line.take(line.len() as int) =~= line);
        assert(trim(line) == line);
        assert(is_undo_entry(trim(next.subrange(i, j))));
    }
}

} // verus!
