//! What the command line shows: the lines of a rollback, a redo and a
//! diff, and the exit status they end with.

use vstd::prelude::*;
use crate::diff::{entry_views, DiffEntry, DiffEntryV};
use crate::rollback::{RedoReport, RollbackReport};
use crate::text::{chars_of, concat2, concat3, decimal, push_decimal, str_eq, string_of, views};

verus! {

broadcast use vstd::string::group_string_axioms;

/// Each of `items` after `prefix`.
pub open spec fn prefixed(prefix: Seq<char>, items: Seq<Seq<char>>) -> Seq<Seq<char>> {
    items.map_values(|x: Seq<char>| prefix + x)
}

fn push_prefixed(out: &mut Vec<String>, prefix: &str, items: &Vec<String>)
    ensures
        views(final(out)@) == views(old(out)@) + prefixed(prefix@, views(items@)),
{
    let ghost start = views(out@);
    let mut i: usize = 0;
    while i < items.len()
        invariant
            i <= items@.len(),
            views(out@) == start + prefixed(prefix@, views(items@)).take(i as int),
        decreases items@.len() - i,
    {
        let ghost before = views(out@);
        out.push(concat2(prefix, items[i].as_str()));
        assert(views(out@) =~= before.push(prefix@ + items@[i as int]@));
        assert(prefixed(prefix@, views(items@)).take(i + 1) =~= prefixed(
            prefix@,
            views(items@),
        ).take(i as int).push(prefix@ + items@[i as int]@));
        i = i + 1;
    }
    assert(prefixed(prefix@, views(items@)).take(items@.len() as int) =~= prefixed(
        prefix@,
        views(items@),
    ));
}

pub open spec fn reverted_mark() -> Seq<char> {
    "  \x1b[32m⟲\x1b[0m "@
}

pub open spec fn skipped_mark() -> Seq<char> {
    "  \x1b[33m•\x1b[0m "@
}

pub open spec fn failed_mark() -> Seq<char> {
    "  \x1b[31m✗\x1b[0m "@
}

/// The lines a rollback prints for its report: whether it rewound or is
/// incomplete, each reverted, skipped and failed line, then either that
/// there was nothing to undo or, when nothing failed, the hint to redo.
pub open spec fn spec_rollback_summary(
    checkpoint: Seq<char>,
    reverted: Seq<Seq<char>>,
    skipped: Seq<Seq<char>>,
    failed: Seq<Seq<char>>,
) -> Seq<Seq<char>> {
    let head = if failed.len() == 0 {
        "\x1b[32m✓\x1b[0m rewound to \x1b[1m"@ + checkpoint + "\x1b[0m"@
    } else {
        "\x1b[31m✗\x1b[0m rollback to \x1b[1m"@ + checkpoint
            + "\x1b[0m incomplete — journal left intact, safe to retry"@
    };
    let tail = if reverted.len() == 0 && skipped.len() == 0 && failed.len() == 0 {
        seq!["  (nothing to undo)"@]
    } else if failed.len() == 0 {
        seq!["\n  \x1b[2mchanged your mind? `undo redo`\x1b[0m"@]
    } else {
        seq![]
    };
    seq![head] + prefixed(reverted_mark(), reverted) + prefixed(skipped_mark(), skipped) + prefixed(
        failed_mark(),
        failed,
    ) + tail
}

/// The lines shown after a rollback, and the exit status: 0 exactly when
/// nothing failed, so success is never reported while a path was left
/// unrestored.
pub fn rollback_summary(report: &RollbackReport) -> (r: (Vec<String>, i32))
    ensures
        r.1 == (if report.failed@.len() == 0 {
            0i32
        } else {
            1i32
        }),
        views(r.0@) == spec_rollback_summary(
            report.checkpoint@,
            views(report.reverted@),
            views(report.skipped@),
            views(report.failed@),
        ),
{
    let mut out: Vec<String> = Vec::new();
    let ok = report.failed.len() == 0;
    if ok {
        out.push(concat3("\x1b[32m✓\x1b[0m rewound to \x1b[1m", report.checkpoint.as_str(), "\x1b[0m"));
    } else {
        out.push(
            concat3(
                "\x1b[31m✗\x1b[0m rollback to \x1b[1m",
                report.checkpoint.as_str(),
                "\x1b[0m incomplete — journal left intact, safe to retry",
            ),
        );
    }
    push_prefixed(&mut out, "  \x1b[32m⟲\x1b[0m ", &report.reverted);
    push_prefixed(&mut out, "  \x1b[33m•\x1b[0m ", &report.skipped);
    push_prefixed(&mut out, "  \x1b[31m✗\x1b[0m ", &report.failed);
    let ghost body = views(out@);
    if report.reverted.len() == 0 && report.skipped.len() == 0 && ok {
        out.push(String::from_str("  (nothing to undo)"));
        assert(views(out@) =~= body + seq!["  (nothing to undo)"@]);
    } else if ok {
        out.push(String::from_str("\n  \x1b[2mchanged your mind? `undo redo`\x1b[0m"));
        assert(views(out@) =~= body + seq!["\n  \x1b[2mchanged your mind? `undo redo`\x1b[0m"@]);
    } else {
        assert(views(out@) =~= body + Seq::<Seq<char>>::empty());
    }
    let code: i32 = if ok {
        0
    } else {
        1
    };
    (out, code)
}

/// The lines a redo prints for its report.
pub open spec fn spec_redo_summary(restored: Seq<Seq<char>>, failed: Seq<Seq<char>>) -> Seq<
    Seq<char>,
> {
    let head = if failed.len() == 0 {
        "\x1b[32m✓\x1b[0m redid the last rollback"@
    } else {
        "\x1b[31m✗\x1b[0m redo incomplete"@
    };
    seq![head] + prefixed(reverted_mark(), restored) + prefixed(failed_mark(), failed)
}

/// The lines shown after a redo, and the exit status: 0 exactly when
/// nothing failed.
pub fn redo_summary(report: &RedoReport) -> (r: (Vec<String>, i32))
    ensures
        r.1 == (if report.failed@.len() == 0 {
            0i32
        } else {
            1i32
        }),
        views(r.0@) == spec_redo_summary(views(report.restored@), views(report.failed@)),
{
    let mut out: Vec<String> = Vec::new();
    let ok = report.failed.len() == 0;
    if ok {
        out.push(String::from_str("\x1b[32m✓\x1b[0m redid the last rollback"));
    } else {
        out.push(String::from_str("\x1b[31m✗\x1b[0m redo incomplete"));
    }
    push_prefixed(&mut out, "  \x1b[32m⟲\x1b[0m ", &report.restored);
    push_prefixed(&mut out, "  \x1b[31m✗\x1b[0m ", &report.failed);
    let code: i32 = if ok {
        0
    } else {
        1
    };
    (out, code)
}

// ---- diff ----------------------------------------------------------------

/// A line without the carriage return that ended it, if any.
pub open spec fn strip_cr(l: Seq<char>) -> Seq<char> {
    if l.len() > 0 && l.last() == '\r' {
        l.drop_last()
    } else {
        l
    }
}

/// Left-to-right scan of a text: the lines finished so far and the line in
/// progress.
pub open spec fn line_scan(s: Seq<char>) -> (Seq<Seq<char>>, Seq<char>)
    decreases s.len(),
{
    if s.len() == 0 {
        (seq![], seq![])
    } else {
        let (done, cur) = line_scan(s.drop_last());
        if s.last() == '\n' {
            (done.push(strip_cr(cur)), seq![])
        } else {
            (done, cur.push(s.last()))
        }
    }
}

/// The lines of a text, as `str::lines` gives them: split at `\n` (and a
/// `\r\n`), the last line ending optional.
pub open spec fn lines_of(s: Seq<char>) -> Seq<Seq<char>> {
    let (done, cur) = line_scan(s);
    if cur.len() > 0 {
        done.push(cur)
    } else {
        done
    }
}

/// The coloured label of a diff entry's status.
pub open spec fn badge(status: Seq<char>) -> Seq<char> {
    if status == "created"@ {
        "\x1b[32mnew\x1b[0m"@
    } else if status == "deleted"@ {
        "\x1b[31mdeleted\x1b[0m"@
    } else if status == "binary"@ {
        "\x1b[33mbinary\x1b[0m"@
    } else if status == "symlink"@ {
        "\x1b[36msymlink\x1b[0m"@
    } else {
        "\x1b[33mmodified\x1b[0m"@
    }
}

/// A hunk line coloured by its kind: additions green, removals red, hunk
/// headers cyan, context as it is.
pub open spec fn colored(l: Seq<char>) -> Seq<char> {
    if l.len() > 0 && l[0] == '+' {
        "\x1b[32m"@ + l + "\x1b[0m"@
    } else if l.len() > 0 && l[0] == '-' {
        "\x1b[31m"@ + l + "\x1b[0m"@
    } else if l.len() > 1 && l[0] == '@' && l[1] == '@' {
        "\x1b[36m"@ + l + "\x1b[0m"@
    } else {
        l
    }
}

/// The header line of one diff entry: its path, badge and counts.
pub open spec fn entry_header(e: DiffEntryV) -> Seq<char> {
    "\n\x1b[1m"@ + e.path + "\x1b[0m  "@ + badge(e.status) + "  \x1b[32m+"@ + decimal(e.added)
        + "\x1b[0m \x1b[31m-"@ + decimal(e.removed) + "\x1b[0m"@
}

/// The lines of one diff entry: its header, then each hunk line coloured
/// and indented.
pub open spec fn entry_lines(e: DiffEntryV) -> Seq<Seq<char>> {
    seq![entry_header(e)] + lines_of(e.hunk).map_values(|l: Seq<char>| "  "@ + colored(l))
}

/// The lines of the first `n` entries, one entry after the other.
pub open spec fn entries_lines(es: Seq<DiffEntryV>, n: int) -> Seq<Seq<char>>
    decreases n,
{
    if n <= 0 || n > es.len() {
        seq![]
    } else {
        entries_lines(es, n - 1) + entry_lines(es[n - 1])
    }
}

pub open spec fn sum_added(es: Seq<DiffEntryV>) -> nat
    decreases es.len(),
{
    if es.len() == 0 {
        0
    } else {
        sum_added(es.drop_last()) + es.last().added
    }
}

pub open spec fn sum_removed(es: Seq<DiffEntryV>) -> nat
    decreases es.len(),
{
    if es.len() == 0 {
        0
    } else {
        sum_removed(es.drop_last()) + es.last().removed
    }
}

/// The totals line: how many files changed, lines added and removed.
pub open spec fn totals_line(files: nat, added: nat, removed: nat) -> Seq<char> {
    "\n\x1b[1m"@ + decimal(files) + "\x1b[0m file(s) changed, \x1b[32m+"@ + decimal(added)
        + "\x1b[0m \x1b[31m-"@ + decimal(removed) + "\x1b[0m"@
}

/// The lines `diff` prints for its entries.
pub open spec fn spec_render_diff(es: Seq<DiffEntryV>) -> Seq<Seq<char>> {
    if es.len() == 0 {
        seq!["(no changes since the checkpoint)"@]
    } else {
        entries_lines(es, es.len() as int) + seq![
            totals_line(es.len(), sum_added(es), sum_removed(es)),
        ]
    }
}

proof fn lemma_sums_prefix(es: Seq<DiffEntryV>, i: int)
    requires
        0 <= i <= es.len(),
    ensures
        sum_added(es.take(i)) <= sum_added(es),
        sum_removed(es.take(i)) <= sum_removed(es),
    decreases es.len() - i,
{
    if i < es.len() {
        lemma_sums_prefix(es, i + 1);
        assert(es.take(i + 1).drop_last() =~= es.take(i));
    } else {
        assert(es.take(i) =~= es);
    }
}

fn decimal_string(n: u64) -> (s: String)
    ensures
        s@ == decimal(n as nat),
{
    let mut v: Vec<char> = Vec::new();
    push_decimal(&mut v, n);
    assert(v@ =~= decimal(n as nat));
    string_of(v.as_slice())
}

/// The lines of a text, as `str::lines` gives them.
pub fn text_lines(s: &str) -> (r: Vec<String>)
    ensures
        views(r@) == lines_of(s@),
{
    let cs = chars_of(s);
    let mut done: Vec<String> = Vec::new();
    let mut cur: Vec<char> = Vec::new();
    let mut i: usize = 0;
    while i < cs.len()
        invariant
            i <= cs@.len(),
            cs@ == s@,
            (views(done@), cur@) == line_scan(s@.take(i as int)),
        decreases cs@.len() - i,
    {
        assert(s@.take(i + 1).drop_last() =~= s@.take(i as int));
        let c = cs[i];
        if c == '\n' {
            let n = cur.len();
            if n > 0 && cur[n - 1] == '\r' {
                cur.pop();
            }
            let ghost before = views(done@);
            done.push(string_of(cur.as_slice()));
            assert(views(done@) =~= before.push(cur@));
            cur = Vec::new();
        } else {
            cur.push(c);
        }
        i = i + 1;
    }
    assert(s@.take(cs@.len() as int) =~= s@);
    if cur.len() > 0 {
        let ghost before = views(done@);
        done.push(string_of(cur.as_slice()));
        assert(views(done@) =~= before.push(cur@));
    }
    done
}

fn colored_line(l: &String) -> (r: String)
    ensures
        r@ == "  "@ + colored(l@),
{
    let cs = chars_of(l.as_str());
    if cs.len() > 0 && cs[0] == '+' {
        concat2("  ", concat3("\x1b[32m", l.as_str(), "\x1b[0m").as_str())
    } else if cs.len() > 0 && cs[0] == '-' {
        concat2("  ", concat3("\x1b[31m", l.as_str(), "\x1b[0m").as_str())
    } else if cs.len() > 1 && cs[0] == '@' && cs[1] == '@' {
        concat2("  ", concat3("\x1b[36m", l.as_str(), "\x1b[0m").as_str())
    } else {
        concat2("  ", l.as_str())
    }
}

fn badge_exec(status: &str) -> (r: &'static str)
    ensures
        r@ == badge(status@),
{
    if str_eq(status, "created") {
        "\x1b[32mnew\x1b[0m"
    } else if str_eq(status, "deleted") {
        "\x1b[31mdeleted\x1b[0m"
    } else if str_eq(status, "binary") {
        "\x1b[33mbinary\x1b[0m"
    } else if str_eq(status, "symlink") {
        "\x1b[36msymlink\x1b[0m"
    } else {
        "\x1b[33mmodified\x1b[0m"
    }
}

fn push_entry_lines(out: &mut Vec<String>, e: &DiffEntry)
    ensures
        views(final(out)@) == views(old(out)@) + entry_lines(e@),
{
    let ghost start = views(out@);
    let mut h = concat3("\n\x1b[1m", e.path.as_str(), "\x1b[0m  ");
    h.append(badge_exec(e.status.as_str()));
    h.append("  \x1b[32m+");
    let a = decimal_string(e.added as u64);
    h.append(a.as_str());
    h.append("\x1b[0m \x1b[31m-");
    let r = decimal_string(e.removed as u64);
    h.append(r.as_str());
    h.append("\x1b[0m");
    assert(h@ == entry_header(e@));
    out.push(h);
    let lines = text_lines(e.hunk.as_str());
    let ghost ls = lines_of(e.hunk@);
    let mut i: usize = 0;
    while i < lines.len()
        invariant
            i <= lines@.len(),
            views(lines@) == ls,
            ls == lines_of(e.hunk@),
            views(out@) == start + seq![entry_header(e@)] + ls.take(i as int).map_values(
                |l: Seq<char>| "  "@ + colored(l),
            ),
        decreases lines@.len() - i,
    {
        let ghost before = views(out@);
        let cl = colored_line(&lines[i]);
        out.push(cl);
        assert(views(out@) =~= before.push("  "@ + colored(ls[i as int])));
        assert(ls.take(i + 1).map_values(|l: Seq<char>| "  "@ + colored(l)) =~= ls.take(
            i as int,
        ).map_values(|l: Seq<char>| "  "@ + colored(l)).push("  "@ + colored(ls[i as int])));
        i = i + 1;
    }
    assert(ls.take(lines@.len() as int) =~= ls);
    assert(views(out@) =~= start + entry_lines(e@));
}

/// The lines `diff` prints for its entries: a note when nothing changed;
/// otherwise each entry's header (path, status badge, lines added and
/// removed) and its hunk lines coloured, then the number of files changed
/// and the totals.
pub fn render_diff(entries: &Vec<DiffEntry>) -> (lines: Vec<String>)
    requires
        sum_added(entry_views(entries@)) <= usize::MAX,
        sum_removed(entry_views(entries@)) <= usize::MAX,
    ensures
        views(lines@) == spec_render_diff(entry_views(entries@)),
{
    let ghost es = entry_views(entries@);
    let mut out: Vec<String> = Vec::new();
    if entries.len() == 0 {
        out.push(String::from_str("(no changes since the checkpoint)"));
        assert(views(out@) =~= seq!["(no changes since the checkpoint)"@]);
        return out;
    }
    let mut added: usize = 0;
    let mut removed: usize = 0;
    let mut i: usize = 0;
    assert(views(out@) =~= entries_lines(es, 0));
    while i < entries.len()
        invariant
            i <= entries@.len(),
            es == entry_views(entries@),
            sum_added(es) <= usize::MAX,
            sum_removed(es) <= usize::MAX,
            views(out@) == entries_lines(es, i as int),
            added == sum_added(es.take(i as int)),
            removed == sum_removed(es.take(i as int)),
        decreases entries@.len() - i,
    {
        proof {
            lemma_sums_prefix(es, i + 1);
            assert(es.take(i + 1).drop_last() =~= es.take(i as int));
            assert(es[i as int] == entries@[i as int]@);
        }
        added = added + entries[i].added;
        removed = removed + entries[i].removed;
        push_entry_lines(&mut out, &entries[i]);
        i = i + 1;
    }
    assert(es.take(entries@.len() as int) =~= es);
    let mut t = concat3("\n\x1b[1m", decimal_string(entries.len() as u64).as_str(), "\x1b[0m file(s) changed, \x1b[32m+");
    t.append(decimal_string(added as u64).as_str());
    t.append("\x1b[0m \x1b[31m-");
    t.append(decimal_string(removed as u64).as_str());
    t.append("\x1b[0m");
    assert(t@ == totals_line(es.len(), sum_added(es), sum_removed(es)));
    let ghost body = views(out@);
    out.push(t);
    assert(views(out@) =~= body + seq![totals_line(es.len(), sum_added(es), sum_removed(es))]);
    out
}

} // verus!
