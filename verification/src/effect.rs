//! An `Effect` is a single change an agent made to the world, paired with
//! enough information to reverse it.

use vstd::prelude::*;
use crate::meta::Meta;
use crate::text::{concat2, concat3, pad_right, pad_right_exec, views};

verus! {

broadcast use vstd::string::group_string_axioms;

/// The request that reverses an `HttpMutation`.
#[derive(Clone, Debug, PartialEq, Eq)]
pub struct HttpCompensator {
    pub method: String,
    pub url: String,
    pub body: Option<String>,
}

/// Mathematical model of an [`HttpCompensator`].
pub struct HttpCompensatorV {
    pub method: Seq<char>,
    pub url: Seq<char>,
    pub body: Option<Seq<char>>,
}

pub open spec fn opt_view(o: Option<String>) -> Option<Seq<char>> {
    match o {
        Some(s) => Some(s@),
        None => None,
    }
}

impl View for HttpCompensator {
    type V = HttpCompensatorV;

    open spec fn view(&self) -> HttpCompensatorV {
        HttpCompensatorV { method: self.method@, url: self.url@, body: opt_view(self.body) }
    }
}

pub fn copy_opt_string(o: &Option<String>) -> (r: Option<String>)
    ensures
        opt_view(r) == opt_view(*o),
{
    match o {
        Some(s) => Some(s.clone()),
        None => None,
    }
}

pub fn copy_strings(v: &Vec<String>) -> (r: Vec<String>)
    ensures
        views(r@) == views(v@),
        r@.len() == v@.len(),
{
    let mut r: Vec<String> = Vec::new();
    let mut i: usize = 0;
    while i < v.len()
        invariant
            i <= v@.len(),
            r@.len() == i,
            forall|k: int| 0 <= k < i ==> (#[trigger] r@[k])@ == v@[k]@,
        decreases v@.len() - i,
    {
        r.push(v[i].clone());
        i = i + 1;
    }
    assert(views(r@) =~= views(v@));
    r
}

impl HttpCompensator {
    pub fn duplicate(&self) -> (r: Self)
        ensures
            r@ == self@,
    {
        HttpCompensator {
            method: self.method.clone(),
            url: self.url.clone(),
            body: copy_opt_string(&self.body),
        }
    }
}

/// A reversible (or at least auditable) side effect.
///
/// The `PathCreate` / `File` / `Symlink` / `Dir` variants are fully
/// reversible. `HttpMutation` and `Exec` are recorded for audit and carry the
/// shape needed to reverse them later, but are not auto-reversed.
#[derive(Clone, Debug, PartialEq, Eq)]
pub enum Effect {
    /// A path that did not exist when captured. Inverse: delete whatever is
    /// now there (file, symlink, or whole directory tree).
    PathCreate { path: String },
    /// A regular file whose prior contents + metadata were captured.
    /// Inverse: restore the contents and re-apply mode/mtime.
    File { path: String, prev_blob: String, meta: Meta },
    /// A symlink that existed at capture time. Inverse: recreate it pointing
    /// at `target`.
    Symlink { path: String, target: String },
    /// A directory that existed at capture time, plus the names of its
    /// immediate children. Inverse: ensure the directory exists with its mode,
    /// and prune any children that weren't here originally.
    Dir { path: String, mode: u32, entries: Vec<String> },
    /// A network mutation. The `compensator` is the request that reverses it.
    HttpMutation { method: String, url: String, compensator: Option<HttpCompensator> },
    /// A shell command. Audit-only.
    Exec { command: String, cwd: String },
}

/// Mathematical model of an [`Effect`].
pub enum EffectV {
    PathCreate { path: Seq<char> },
    File { path: Seq<char>, prev_blob: Seq<char>, meta: Meta },
    Symlink { path: Seq<char>, target: Seq<char> },
    Dir { path: Seq<char>, mode: u32, entries: Seq<Seq<char>> },
    HttpMutation { method: Seq<char>, url: Seq<char>, compensator: Option<HttpCompensatorV> },
    Exec { command: Seq<char>, cwd: Seq<char> },
}

impl View for Effect {
    type V = EffectV;

    open spec fn view(&self) -> EffectV {
        match self {
            Effect::PathCreate { path } => EffectV::PathCreate { path: path@ },
            Effect::File { path, prev_blob, meta } => EffectV::File {
                path: path@,
                prev_blob: prev_blob@,
                meta: *meta,
            },
            Effect::Symlink { path, target } => EffectV::Symlink { path: path@, target: target@ },
            Effect::Dir { path, mode, entries } => EffectV::Dir {
                path: path@,
                mode: *mode,
                entries: views(entries@),
            },
            Effect::HttpMutation { method, url, compensator } => EffectV::HttpMutation {
                method: method@,
                url: url@,
                compensator: match compensator {
                    Some(c) => Some(c@),
                    None => None,
                },
            },
            Effect::Exec { command, cwd } => EffectV::Exec { command: command@, cwd: cwd@ },
        }
    }
}

impl EffectV {
    /// Fully reversible by the rollback executor.
    pub open spec fn is_reversible(self) -> bool {
        self is PathCreate || self is File || self is Symlink || self is Dir
    }

    /// The filesystem path the effect concerns, if any.
    pub open spec fn fs_path(self) -> Option<Seq<char>> {
        match self {
            EffectV::PathCreate { path } => Some(path),
            EffectV::File { path, .. } => Some(path),
            EffectV::Symlink { path, .. } => Some(path),
            EffectV::Dir { path, .. } => Some(path),
            _ => None,
        }
    }

    /// The one-line, log-friendly description.
    pub open spec fn description(self) -> Seq<char> {
        match self {
            EffectV::PathCreate { path } => "created  "@ + path,
            EffectV::File { path, .. } => "captured "@ + path,
            EffectV::Symlink { path, .. } => "symlink  "@ + path,
            EffectV::Dir { path, .. } => "dir      "@ + path,
            EffectV::HttpMutation { method, url, .. } => pad_right(method, 8) + " "@ + url,
            EffectV::Exec { command, .. } => "ran      "@ + command,
        }
    }
}

/// The models of a sequence of effects.
pub open spec fn effect_views(s: Seq<Effect>) -> Seq<EffectV> {
    s.map_values(|e: Effect| e@)
}

impl Effect {
    /// Can this effect be reversed automatically?
    pub fn reversible(&self) -> (r: bool)
        ensures
            r == self@.is_reversible(),
    {
        match self {
            Effect::PathCreate { .. } | Effect::File { .. } | Effect::Symlink { .. } | Effect::Dir {
                ..
            } => true,
            _ => false,
        }
    }

    /// The filesystem path this effect concerns, if any.
    pub fn path(&self) -> (r: Option<&String>)
        ensures
            match r {
                Some(p) => self@.fs_path() == Some(p@),
                None => self@.fs_path() is None,
            },
    {
        match self {
            Effect::PathCreate { path } => Some(path),
            Effect::File { path, .. } => Some(path),
            Effect::Symlink { path, .. } => Some(path),
            Effect::Dir { path, .. } => Some(path),
            _ => None,
        }
    }

    /// A short, human-readable, log-friendly description.
    pub fn describe(&self) -> (s: String)
        ensures
            s@ == self@.description(),
    {
        match self {
            Effect::PathCreate { path } => concat2("created  ", path.as_str()),
            Effect::File { path, .. } => concat2("captured ", path.as_str()),
            Effect::Symlink { path, .. } => concat2("symlink  ", path.as_str()),
            Effect::Dir { path, .. } => concat2("dir      ", path.as_str()),
            Effect::HttpMutation { method, url, .. } => {
                let m = pad_right_exec(method.as_str(), 8);
                concat3(m.as_str(), " ", url.as_str())
            },
            Effect::Exec { command, .. } => concat2("ran      ", command.as_str()),
        }
    }

    /// A copy with the same model.
    pub fn duplicate(&self) -> (r: Self)
        ensures
            r@ == self@,
    {
        match self {
            Effect::PathCreate { path } => Effect::PathCreate { path: path.clone() },
            Effect::File { path, prev_blob, meta } => Effect::File {
                path: path.clone(),
                prev_blob: prev_blob.clone(),
                meta: *meta,
            },
            Effect::Symlink { path, target } => Effect::Symlink {
                path: path.clone(),
                target: target.clone(),
            },
            Effect::Dir { path, mode, entries } => Effect::Dir {
                path: path.clone(),
                mode: *mode,
                entries: copy_strings(entries),
            },
            Effect::HttpMutation { method, url, compensator } => Effect::HttpMutation {
                method: method.clone(),
                url: url.clone(),
                compensator: match compensator {
                    Some(c) => Some(c.duplicate()),
                    None => None,
                },
            },
            Effect::Exec { command, cwd } => Effect::Exec {
                command: command.clone(),
                cwd: cwd.clone(),
            },
        }
    }
}

/// Copies a list of effects, keeping every model.
pub fn copy_effects(v: &Vec<Effect>) -> (r: Vec<Effect>)
    ensures
        effect_views(r@) == effect_views(v@),
{
    let mut r: Vec<Effect> = Vec::new();
    let mut i: usize = 0;
    while i < v.len()
        invariant
            i <= v@.len(),
            r@.len() == i,
            forall|k: int| 0 <= k < i ==> (#[trigger] r@[k])@ == v@[k]@,
        decreases v@.len() - i,
    {
        r.push(v[i].duplicate());
        i = i + 1;
    }
    assert(effect_views(r@) =~= effect_views(v@));
    r
}

} // verus!
