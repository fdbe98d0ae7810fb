//! Change detection for incremental workspace builds: file snapshots and
//! their diff, the staleness rule, package resolution, and the retry ledger
//! that carries failed packages from one run to the next.

pub mod timestamp;
pub mod paths;
pub mod snapshot;
pub mod resolve;
pub mod ledger;
