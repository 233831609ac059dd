//! The metadata captured for a regular file or directory: unix mode and
//! modification time.

use vstd::prelude::*;

verus! {

/// Unix permission bits and modification time of a captured path.
#[derive(Clone, Copy, Debug, PartialEq, Eq, Structural)]
pub struct Meta {
    /// Unix permission bits (0 on platforms without them).
    pub mode: u32,
    /// Modification time, whole seconds since the unix epoch.
    pub mtime_s: i64,
    /// Sub-second nanoseconds of the modification time.
    pub mtime_ns: u32,
}

impl Default for Meta {
    fn default() -> (m: Meta)
        ensures
            m == (Meta { mode: 0, mtime_s: 0, mtime_ns: 0 }),
    {
        Meta { mode: 0, mtime_s: 0, mtime_ns: 0 }
    }
}

/// How a modification time relates to the unix epoch.
#[derive(Clone, Copy, Debug, PartialEq, Eq, Structural)]
pub enum MtimeReading {
    /// The platform could not report a modification time.
    Unavailable,
    /// `secs` + `nanos` after the epoch.
    After { secs: u64, nanos: u32 },
    /// `secs` (+ a sub-second part that is dropped) before the epoch.
    Before { secs: u64 },
}

/// The `(mtime_s, mtime_ns)` pair recorded for a reading.
pub open spec fn spec_mtime_parts(r: MtimeReading) -> (i64, u32) {
    match r {
        MtimeReading::Unavailable => (0, 0),
        MtimeReading::After { secs, nanos } => (secs as i64, nanos),
        MtimeReading::Before { secs } => ((-(secs as i64)) as i64, 0),
    }
}

/// Whole seconds and nanoseconds of a modification time; times before the
/// epoch become negative seconds.
pub fn mtime_parts(r: MtimeReading) -> (p: (i64, u32))
    requires
        r matches MtimeReading::Before { secs } ==> secs as i64 != i64::MIN,
    ensures
        p == spec_mtime_parts(r),
{
    match r {
        MtimeReading::Unavailable => (0, 0),
        MtimeReading::After { secs, nanos } => (secs as i64, nanos),
        MtimeReading::Before { secs } => {
            let s = secs as i64;
            (-s, 0)
        },
    }
}

/// The metadata recorded for a path with unix mode `mode` and the given
/// modification-time reading.
pub fn capture_meta(mode: u32, r: MtimeReading) -> (m: Meta)
    requires
        r matches MtimeReading::Before { secs } ==> secs as i64 != i64::MIN,
    ensures
        m.mode == mode,
        (m.mtime_s, m.mtime_ns) == spec_mtime_parts(r),
{
    let (mtime_s, mtime_ns) = mtime_parts(r);
    Meta { mode, mtime_s, mtime_ns }
}

} // verus!
