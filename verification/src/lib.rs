//! Inventory of git command aliases, ranked by how often and how recently
//! they show up in the user's shell history.
//!
//! The aggregator (`aliases`) turns the external tool's raw output into
//! records, sorts them by case-insensitive name and asks the ranking engine
//! (`ranking`) for a score per alias, fed by a time-windowed cache of
//! shell-history frequencies (`history`). Around them stand the command
//! validator (`validate`), the known-repository registry (`repos`), the
//! snapshot rules (`export`) and the settings store (`settings`). All file
//! reading, process running and JSON encoding of snapshots happens in the
//! surrounding application; this crate owns the rules and proves them.
pub mod aliases;
pub mod clock;
pub mod export;
pub mod history;
pub mod ranking;
pub mod repos;
pub mod settings;
pub mod text;
pub mod validate;

use vstd::prelude::*;

verus! {

/// Seconds a rebuilt history cache stays fresh before the next
/// score request triggers another rebuild.
pub const CACHE_TTL_SECONDS: u64 = 5;

} // verus!
