//! A PR-style view of exactly what was changed: every captured file compared
//! with what is on disk now, sourced from the blob store's before-snapshots.

use vstd::prelude::*;
use similar::{ChangeTag, TextDiff};
use vstd::utf8::{decode_utf8, encode_utf8_decode_utf8, valid_utf8};
use vstd::string::StringSliceAdditionalSpecFns;
use crate::effect::{Effect, EffectV};
use crate::text::concat2;

verus! {

broadcast use vstd::string::group_string_axioms;

/// The kinds of the line changes `similar` finds between two texts, in order:
/// 0 equal, 1 delete, 2 insert.
pub uninterp spec fn line_change_tags(before: Seq<char>, after: Seq<char>) -> Seq<u8>;

/// The unified diff `similar` renders for two texts, with 3 lines of context.
pub uninterp spec fn unified_diff_text(before: Seq<char>, after: Seq<char>) -> Seq<char>;

/// `similar::TextDiff::from_lines(before, after).iter_all_changes()`: the
/// kind of every change, in order (0 equal, 1 delete, 2 insert).
#[verifier::external_body]
fn change_tags(before: &str, after: &str) -> (r: Vec<u8>)
    ensures
        r@ == line_change_tags(before@, after@),
        forall|i: int| 0 <= i < r@.len() ==> r@[i] <= 2,
{
    let mut tags: Vec<u8> = Vec::new();
    for c in TextDiff::from_lines(before, after).iter_all_changes() {
        tags.push(match c.tag() {
            ChangeTag::Equal => 0,
            ChangeTag::Delete => 1,
            ChangeTag::Insert => 2,
        });
    }
    tags
}

/// `similar::TextDiff::from_lines(before, after).unified_diff()`, with 3
/// lines of context, rendered as text.
#[verifier::external_body]
fn unified_diff(before: &str, after: &str) -> (r: String)
    ensures
        r@ == unified_diff_text(before@, after@),
{
    TextDiff::from_lines(before, after).unified_diff().context_radius(3).to_string()
}

/// `std::str::from_utf8`: the text of `bytes` if they are valid UTF-8.
#[verifier::external_body]
fn utf8_text(bytes: &[u8]) -> (r: Option<&str>)
    ensures
        r is Some <==> valid_utf8(bytes@),
        r matches Some(s) ==> s.spec_bytes() == bytes@,
{
    std::str::from_utf8(bytes).ok()
}

/// One changed path in the diff.
#[derive(Clone, Debug, PartialEq, Eq)]
pub struct DiffEntry {
    pub path: String,
    /// created | modified | deleted | binary | symlink
    pub status: String,
    pub added: usize,
    pub removed: usize,
    /// Unified-diff text (for a symlink or a binary file, a note instead).
    pub hunk: String,
}

pub struct DiffEntryV {
    pub path: Seq<char>,
    pub status: Seq<char>,
    pub added: nat,
    pub removed: nat,
    pub hunk: Seq<char>,
}

impl View for DiffEntry {
    type V = DiffEntryV;

    open spec fn view(&self) -> DiffEntryV {
        DiffEntryV {
            path: self.path@,
            status: self.status@,
            added: self.added as nat,
            removed: self.removed as nat,
            hunk: self.hunk@,
        }
    }
}

pub open spec fn entry_views(s: Seq<DiffEntry>) -> Seq<DiffEntryV> {
    s.map_values(|e: DiffEntry| e@)
}

/// Number of occurrences of `t` in `tags`.
pub open spec fn count_tag(tags: Seq<u8>, t: u8) -> nat
    decreases tags.len(),
{
    if tags.len() == 0 {
        0
    } else {
        count_tag(tags.drop_last(), t) + if tags.last() == t { 1nat } else { 0nat }
    }
}

proof fn lemma_count_tag_bound(tags: Seq<u8>, t: u8)
    ensures
        count_tag(tags, t) <= tags.len(),
    decreases tags.len(),
{
    if tags.len() > 0 {
        lemma_count_tag_bound(tags.drop_last(), t);
    }
}

/// The entry for a text change: inserted and deleted line counts from the
/// change kinds, and the unified diff.
pub open spec fn text_entry(path: Seq<char>, status: Seq<char>, tags: Seq<u8>, hunk: Seq<char>) -> DiffEntryV {
    DiffEntryV { path, status, added: count_tag(tags, 2), removed: count_tag(tags, 1), hunk }
}

/// The entry for a change where either side is not UTF-8 text.
pub open spec fn binary_entry(path: Seq<char>) -> DiffEntryV {
    DiffEntryV {
        path,
        status: "binary"@,
        added: 0,
        removed: 0,
        hunk: "(binary file changed)"@,
    }
}

/// The entry comparing `before` with `after`.
pub open spec fn spec_make(path: Seq<char>, before: Seq<u8>, after: Seq<u8>, status: Seq<char>) -> DiffEntryV {
    if valid_utf8(before) && valid_utf8(after) {
        let b = decode_utf8(before);
        let a = decode_utf8(after);
        text_entry(path, status, line_change_tags(b, a), unified_diff_text(b, a))
    } else {
        binary_entry(path)
    }
}

/// A text diff entry from the change kinds and the rendered hunk.
pub fn diff_entry_from(path: &str, status: &str, tags: &[u8], hunk: String) -> (e: DiffEntry)
    ensures
        e@ == text_entry(path@, status@, tags@, hunk@),
{
    let mut added: usize = 0;
    let mut removed: usize = 0;
    let mut i: usize = 0;
    while i < tags.len()
        invariant
            i <= tags@.len(),
            added == count_tag(tags@.take(i as int), 2),
            removed == count_tag(tags@.take(i as int), 1),
        decreases tags@.len() - i,
    {
        proof {
            assert(tags@.take(i + 1).drop_last() =~= tags@.take(i as int));
            lemma_count_tag_bound(tags@.take(i as int), 2);
            lemma_count_tag_bound(tags@.take(i as int), 1);
        }
        if tags[i] == 2 {
            added = added + 1;
        } else if tags[i] == 1 {
            removed = removed + 1;
        }
        i = i + 1;
    }
    assert(tags@.take(tags@.len() as int) =~= tags@);
    DiffEntry {
        path: String::from_str(path),
        status: String::from_str(status),
        added,
        removed,
        hunk,
    }
}

/// Diffs `before` against `after` for `path`.
pub fn make(path: &str, before: &[u8], after: &[u8], status: &str) -> (e: DiffEntry)
    ensures
        e@ == spec_make(path@, before@, after@, status@),
{
    let b = utf8_text(before);
    let a = utf8_text(after);
    match (b, a) {
        (Some(b), Some(a)) => {
            proof {
                encode_utf8_decode_utf8(b@);
                encode_utf8_decode_utf8(a@);
            }
            let tags = change_tags(b, a);
            let hunk = unified_diff(b, a);
            diff_entry_from(path, status, tags.as_slice(), hunk)
        },
        _ => DiffEntry {
            path: String::from_str(path),
            status: String::from_str("binary"),
            added: 0,
            removed: 0,
            hunk: String::from_str("(binary file changed)"),
        },
    }
}

/// What was read for one effect: the stored before-contents (empty when the
/// blob could not be read) and the current contents, if the path could be read.
#[derive(Clone, Debug, PartialEq, Eq)]
pub struct DiffInput {
    pub before: Vec<u8>,
    pub after: Option<Vec<u8>>,
}

pub open spec fn bytes_view(o: Option<Vec<u8>>) -> Option<Seq<u8>> {
    match o {
        Some(v) => Some(v@),
        None => None,
    }
}

/// The diff entry for one effect, if it shows up in the diff: a captured file
/// that changed (or vanished), a created path that now exists, or a symlink.
/// Directories are reflected by their files; network and command effects are
/// not part of the file diff.
pub open spec fn effect_diff(e: EffectV, before: Seq<u8>, after: Option<Seq<u8>>) -> Option<DiffEntryV> {
    match e {
        EffectV::File { path, .. } => match after {
            Some(a) => if a == before {
                None
            } else {
                Some(spec_make(path, before, a, "modified"@))
            },
            None => Some(spec_make(path, before, seq![], "deleted"@)),
        },
        EffectV::PathCreate { path } => match after {
            Some(a) => Some(spec_make(path, seq![], a, "created"@)),
            None => None,
        },
        EffectV::Symlink { path, target } => Some(
            DiffEntryV {
                path,
                status: "symlink"@,
                added: 0,
                removed: 0,
                hunk: "→ "@ + target,
            },
        ),
        _ => None,
    }
}

/// The entries of the diff, in effect order.
pub open spec fn spec_diff(effects: Seq<EffectV>, before: Seq<Seq<u8>>, after: Seq<Option<Seq<u8>>>) -> Seq<DiffEntryV>
    decreases effects.len(),
{
    if effects.len() == 0 {
        seq![]
    } else {
        let n = effects.len() - 1;
        let rest = spec_diff(effects.drop_last(), before.take(n), after.take(n));
        match effect_diff(effects[n], before[n], after[n]) {
            Some(d) => rest.push(d),
            None => rest,
        }
    }
}

fn bytes_equal(a: &[u8], b: &[u8]) -> (r: bool)
    ensures
        r == (a@ == b@),
{
    if a.len() != b.len() {
        return false;
    }
    let mut i: usize = 0;
    while i < a.len()
        invariant
            a@.len() == b@.len(),
            i <= a@.len(),
            forall|k: int| 0 <= k < i ==> a@[k] == b@[k],
        decreases a@.len() - i,
    {
        if a[i] != b[i] {
            return false;
        }
        i = i + 1;
    }
    assert(a@ =~= b@);
    true
}

fn diff_one(e: &Effect, input: &DiffInput) -> (r: Option<DiffEntry>)
    ensures
        match r {
            Some(d) => effect_diff(e@, input.before@, bytes_view(input.after)) == Some(d@),
            None => effect_diff(e@, input.before@, bytes_view(input.after)) is None,
        },
{
    match e {
        Effect::File { path, .. } => match &input.after {
            Some(a) => {
                if bytes_equal(a.as_slice(), input.before.as_slice()) {
                    None
                } else {
                    Some(make(path.as_str(), input.before.as_slice(), a.as_slice(), "modified"))
                }
            },
            None => {
                let empty: Vec<u8> = Vec::new();
                assert(empty@ =~= Seq::<u8>::empty());
                Some(make(path.as_str(), input.before.as_slice(), empty.as_slice(), "deleted"))
            },
        },
        Effect::PathCreate { path } => match &input.after {
            Some(a) => {
                let empty: Vec<u8> = Vec::new();
                assert(empty@ =~= Seq::<u8>::empty());
                Some(make(path.as_str(), empty.as_slice(), a.as_slice(), "created"))
            },
            None => None,
        },
        Effect::Symlink { path, target } => Some(
            DiffEntry {
                path: path.clone(),
                status: String::from_str("symlink"),
                added: 0,
                removed: 0,
                hunk: concat2("→ ", target.as_str()),
            },
        ),
        _ => None,
    }
}

pub open spec fn input_befores(s: Seq<DiffInput>) -> Seq<Seq<u8>> {
    s.map_values(|d: DiffInput| d.before@)
}

pub open spec fn input_afters(s: Seq<DiffInput>) -> Seq<Option<Seq<u8>>> {
    s.map_values(|d: DiffInput| bytes_view(d.after))
}

/// Diffs every captured file effect against what was read for it now;
/// `inputs[k]` holds what was read for `effects[k]`.
pub fn diff_effects(effects: &[Effect], inputs: &[DiffInput]) -> (r: Vec<DiffEntry>)
    requires
        inputs@.len() == effects@.len(),
    ensures
        entry_views(r@) == spec_diff(
            crate::effect::effect_views(effects@),
            input_befores(inputs@),
            input_afters(inputs@),
        ),
{
    let ghost ev = crate::effect::effect_views(effects@);
    let ghost bv = input_befores(inputs@);
    let ghost av = input_afters(inputs@);
    let mut out: Vec<DiffEntry> = Vec::new();
    let mut i: usize = 0;
    proof {
        assert(ev.take(0) =~= Seq::<EffectV>::empty());
        assert(entry_views(out@) =~= Seq::<DiffEntryV>::empty());
    }
    while i < effects.len()
        invariant
            i <= effects@.len(),
            inputs@.len() == effects@.len(),
            ev == crate::effect::effect_views(effects@),
            bv == input_befores(inputs@),
            av == input_afters(inputs@),
            entry_views(out@) == spec_diff(ev.take(i as int), bv.take(i as int), av.take(i as int)),
        decreases effects@.len() - i,
    {
        proof {
            assert(ev.take(i + 1).drop_last() =~= ev.take(i as int));
            assert(bv.take(i + 1).take(i as int) =~= bv.take(i as int));
            assert(av.take(i + 1).take(i as int) =~= av.take(i as int));
            assert(ev.take(i + 1)[i as int] == effects@[i as int]@);
            assert(bv.take(i + 1)[i as int] == inputs@[i as int].before@);
            assert(av.take(i + 1)[i as int] == bytes_view(inputs@[i as int].after));
        }
        match diff_one(&effects[i], &inputs[i]) {
            Some(d) => {
                let ghost old_out = out@;
                out.push(d);
                assert(entry_views(out@) =~= entry_views(old_out).push(d@));
            },
            None => {},
        }
        i = i + 1;
    }
    assert(ev.take(effects@.len() as int) =~= ev);
    assert(bv.take(effects@.len() as int) =~= bv);
    assert(av.take(effects@.len() as int) =~= av);
    out
}

} // verus!
