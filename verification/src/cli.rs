//! The decisions behind the command-line and hook front ends: labels,
//! argument shapes, the agent's pre-tool-use hook entry, and the one-line summaries
//! handed to the agent bridge.

use vstd::prelude::*;
use vstd::utf8::{decode_utf8, encode_utf8_decode_utf8};
use vstd::string::StringSliceAdditionalSpecFns;
use crate::effect::{effect_views, Effect, EffectV, HttpCompensator, HttpCompensatorV, opt_view};
use crate::paths::{join, join_path};
use crate::text::{concat2, concat3, contains, has_substring, join_strings, join_with, str_eq, views};

verus! {

broadcast use vstd::string::group_string_axioms;

/// The label of `checkpoint` given its words: the words joined by spaces, or
/// `checkpoint` when there are none.
pub open spec fn spec_checkpoint_label(rest: Seq<Seq<char>>) -> Seq<char> {
    if rest.len() == 0 {
        "checkpoint"@
    } else {
        join_with(rest, " "@)
    }
}

pub fn checkpoint_label(rest: &[String]) -> (r: String)
    ensures
        r@ == spec_checkpoint_label(views(rest@)),
{
    if rest.len() == 0 {
        String::from_str("checkpoint")
    } else {
        join_strings(rest, " ")
    }
}

/// The command of `run`: the arguments, without a leading `--`.
pub open spec fn spec_run_command(rest: Seq<Seq<char>>) -> Seq<Seq<char>> {
    if rest.len() > 0 && rest[0] == "--"@ {
        rest.drop_first()
    } else {
        rest
    }
}

pub fn run_command(rest: &[String]) -> (r: Vec<String>)
    ensures
        views(r@) == spec_run_command(views(rest@)),
{
    let mut start: usize = 0;
    if rest.len() > 0 && str_eq(rest[0].as_str(), "--") {
        start = 1;
    }
    let mut r: Vec<String> = Vec::new();
    let mut i: usize = start;
    while i < rest.len()
        invariant
            start <= i <= rest@.len(),
            views(r@) == views(rest@).subrange(start as int, i as int),
        decreases rest@.len() - i,
    {
        let ghost old_r = r@;
        r.push(rest[i].clone());
        assert(views(r@) =~= views(old_r).push(rest@[i as int]@));
        i = i + 1;
        assert(views(r@) =~= views(rest@).subrange(start as int, i as int));
    }
    assert(views(rest@).subrange(start as int, rest@.len() as int) =~= spec_run_command(
        views(rest@),
    ));
    r
}

/// `watch --once`: take the baseline and return.
pub fn watch_once(rest: &[String]) -> (r: bool)
    ensures
        r == views(rest@).contains("--once"@),
{
    let mut i: usize = 0;
    while i < rest.len()
        invariant
            i <= rest@.len(),
            forall|k: int| 0 <= k < i ==> views(rest@)[k] != "--once"@,
        decreases rest@.len() - i,
    {
        if str_eq(rest[i].as_str(), "--once") {
            assert(views(rest@)[i as int] == "--once"@);
            return true;
        }
        i = i + 1;
    }
    false
}

pub open spec fn is_ascii_alnum(c: char) -> bool {
    ('a' <= c && c <= 'z') || ('A' <= c && c <= 'Z') || ('0' <= c && c <= '9')
}

/// Every character that is not an ASCII letter or digit becomes `_`.
pub open spec fn spec_sanitize(s: Seq<char>) -> Seq<char> {
    Seq::new(s.len(), |i: int| if is_ascii_alnum(s[i]) { s[i] } else { '_' })
}

/// A session id made safe as a file name.
pub fn sanitize(s: &str) -> (r: String)
    ensures
        r@ == spec_sanitize(s@),
{
    let cs = crate::text::chars_of(s);
    let mut out: Vec<char> = Vec::new();
    let mut i: usize = 0;
    while i < cs.len()
        invariant
            i <= cs@.len(),
            cs@ == s@,
            out@ == spec_sanitize(s@).take(i as int),
        decreases cs@.len() - i,
    {
        let c = cs[i];
        if ('a' <= c && c <= 'z') || ('A' <= c && c <= 'Z') || ('0' <= c && c <= '9') {
            out.push(c);
        } else {
            out.push('_');
        }
        i = i + 1;
        assert(out@ =~= spec_sanitize(s@).take(i as int));
    }
    assert(spec_sanitize(s@).take(cs@.len() as int) =~= spec_sanitize(s@));
    crate::text::string_of(out.as_slice())
}

/// The number of bytes of a session id used in its checkpoint label.
pub open spec fn short_len(session: &str) -> int {
    if session.len() < 8 {
        session.len() as int
    } else {
        8
    }
}

/// The checkpoint label for an agent session: `prefix` and the first 8 bytes
/// of the session id.
pub fn session_label(prefix: &str, session: &str) -> (r: String)
    requires
        vstd::utf8::is_char_boundary(session.spec_bytes(), short_len(session)),
    ensures
        r@ == prefix@ + decode_utf8(session.spec_bytes().take(short_len(session))),
{
    let n = if session.len() < 8 {
        session.len()
    } else {
        8
    };
    let (short, _) = session.split_at(n);
    proof {
        encode_utf8_decode_utf8(short@);
        assert(short.spec_bytes() =~= session.spec_bytes().take(short_len(session)));
    }
    concat2(prefix, short)
}

/// `<root>/<agent_dir>/settings.local.json`: the agent's machine-local
/// settings file, never committed.
pub fn settings_path(root: &str, agent_dir: &str) -> (r: String)
    ensures
        r@ == join(join(root@, agent_dir@), "settings.local.json"@),
{
    let dir = join_path(root, agent_dir);
    join_path(dir.as_str(), "settings.local.json")
}

/// The hook command: the binary, quoted, and `hook`.
pub fn hook_command(exe: &str) -> (r: String)
    ensures
        r@ == "\""@ + exe@ + "\" hook"@,
{
    concat3("\"", exe, "\" hook")
}

pub open spec fn opt_views(s: Seq<Option<String>>) -> Seq<Option<Seq<char>>> {
    s.map_values(|o: Option<String>| opt_view(o))
}

/// The first command string among the hooks of a PreToolUse entry.
pub open spec fn first_command(cmds: Seq<Option<Seq<char>>>) -> Option<Seq<char>>
    decreases cmds.len(),
{
    if cmds.len() == 0 {
        None
    } else if cmds[0] is Some {
        cmds[0]
    } else {
        first_command(cmds.drop_first())
    }
}

/// The first command string of an entry, given the `command` of each of its
/// hooks (`None` where a hook has no string command).
pub fn entry_command(commands: &[Option<String>]) -> (r: Option<String>)
    ensures
        opt_view(r) == first_command(opt_views(commands@)),
{
    let ghost cv = opt_views(commands@);
    let mut i: usize = 0;
    assert(cv.skip(0) =~= cv);
    while i < commands.len()
        invariant
            i <= commands@.len(),
            cv == opt_views(commands@),
            first_command(cv) == first_command(cv.skip(i as int)),
        decreases commands@.len() - i,
    {
        assert(cv.skip(i as int)[0] == opt_view(commands@[i as int]));
        match &commands[i] {
            Some(c) => {
                return Some(c.clone());
            },
            None => {},
        }
        assert(cv.skip(i as int).drop_first() =~= cv.skip(i + 1));
        i = i + 1;
    }
    assert(cv.skip(i as int) =~= Seq::<Option<Seq<char>>>::empty());
    None
}

/// A hook command that mentions the binary and `hook`.
pub open spec fn command_is_ours(o: Option<Seq<char>>, exe: Seq<char>) -> bool {
    match o {
        Some(c) => has_substring(c, exe) && has_substring(c, "hook"@),
        None => false,
    }
}

/// Some hook command of the entry mentions the binary and `hook`.
pub open spec fn spec_entry_is_ours(cmds: Seq<Option<Seq<char>>>, exe: Seq<char>) -> bool {
    exists|k: int| 0 <= k < cmds.len() && command_is_ours(#[trigger] cmds[k], exe)
}

/// Is this PreToolUse entry the hook this tool installed?
pub fn entry_is_ours(commands: &[Option<String>], exe: &str) -> (r: bool)
    ensures
        r == spec_entry_is_ours(opt_views(commands@), exe@),
{
    let ghost cv = opt_views(commands@);
    let mut i: usize = 0;
    while i < commands.len()
        invariant
            i <= commands@.len(),
            cv == opt_views(commands@),
            forall|k: int| 0 <= k < i ==> !command_is_ours(#[trigger] cv[k], exe@),
        decreases commands@.len() - i,
    {
        assert(cv[i as int] == opt_view(commands@[i as int]));
        match &commands[i] {
            Some(c) => {
                if contains(c.as_str(), exe) && contains(c.as_str(), "hook") {
                    return true;
                }
            },
            None => {},
        }
        i = i + 1;
    }
    false
}

/// Is the hook `command` already installed, i.e. the first command of one of
/// the PreToolUse entries?
pub fn hook_installed(entry_commands: &[Option<String>], command: &str) -> (r: bool)
    ensures
        r == exists|k: int|
            0 <= k < entry_commands@.len() && #[trigger] opt_view(entry_commands@[k]) == Some(
                command@,
            ),
{
    let mut i: usize = 0;
    while i < entry_commands.len()
        invariant
            i <= entry_commands@.len(),
            forall|k: int| 0 <= k < i ==> #[trigger] opt_view(entry_commands@[k]) != Some(command@),
        decreases entry_commands@.len() - i,
    {
        match &entry_commands[i] {
            Some(c) => {
                if str_eq(c.as_str(), command) {
                    assert(opt_view(entry_commands@[i as int]) == Some(command@));
                    return true;
                }
            },
            None => {},
        }
        i = i + 1;
    }
    false
}

/// What the agent bridge reports after capturing `path`: one description
/// per recorded effect, or a note that it was already captured.
pub open spec fn spec_track_summary(path: Seq<char>, effects: Seq<EffectV>) -> Seq<char> {
    if effects.len() == 0 {
        path + " (already tracked)"@
    } else {
        join_with(effects.map_values(|e: EffectV| e.description()), "\n"@)
    }
}

pub fn track_summary(path: &str, effects: &Vec<Effect>) -> (r: String)
    ensures
        r@ == spec_track_summary(path@, effect_views(effects@)),
{
    if effects.len() == 0 {
        return concat2(path, " (already tracked)");
    }
    let mut lines: Vec<String> = Vec::new();
    let mut i: usize = 0;
    while i < effects.len()
        invariant
            i <= effects@.len(),
            views(lines@) == effect_views(effects@).take(i as int).map_values(
                |e: EffectV| e.description(),
            ),
        decreases effects@.len() - i,
    {
        let ghost old_l = lines@;
        lines.push(effects[i].describe());
        proof {
            assert(views(lines@) =~= views(old_l).push(effects@[i as int]@.description()));
            assert(effect_views(effects@).take(i + 1) =~= effect_views(effects@).take(i as int).push(
                effects@[i as int]@,
            ));
            assert(effect_views(effects@).take(i + 1).map_values(|e: EffectV| e.description())
                =~= effect_views(effects@).take(i as int).map_values(|e: EffectV| e.description()).push(
                effects@[i as int]@.description(),
            ));
        }
        i = i + 1;
    }
    assert(effect_views(effects@).take(effects@.len() as int) =~= effect_views(effects@));
    join_strings(lines.as_slice(), "\n")
}

/// The compensating request of a recorded network mutation: present only
/// when both its method and its url are given.
pub fn make_compensator(
    method: Option<String>,
    url: Option<String>,
    body: Option<String>,
) -> (r: Option<HttpCompensator>)
    ensures
        match (method, url) {
            (Some(m), Some(u)) => r matches Some(c) && c@ == (HttpCompensatorV {
                method: m@,
                url: u@,
                body: opt_view(body),
            }),
            _ => r is None,
        },
{
    match (method, url) {
        (Some(m), Some(u)) => Some(HttpCompensator { method: m, url: u, body }),
        _ => None,
    }
}

} // verus!
