//! Reversible side-effect journal: the verified core.

pub mod text;
pub mod paths;
pub mod meta;
pub mod effect;
pub mod journal;
pub mod order;
pub mod rollback;
pub mod snapshot;
pub mod gitignore;
pub mod store;
pub mod diff;
pub mod cli;
pub mod fsmodel;
pub mod roundtrip;
pub mod report;
pub mod laws;
pub mod walks;

pub use cli::{entry_command, entry_is_ours, sanitize, settings_path};
pub use diff::{diff_effects, DiffEntry, DiffInput};
pub use effect::{Effect, HttpCompensator};
pub use journal::{AfterSnap, AfterState, RedoLog, RedoSlot, Row, State, Status, Undo, UndoError};
pub use meta::Meta;
pub use paths::path_is_ignored;
pub use rollback::{FsOp, RedoReport, RollbackReport, RollbackScope};
pub use store::Store;
