//! Verified core of a tool that tells the user when SSH sessions and wrapped
//! commands finish: session tracking across process-table snapshots, the
//! text of the notifications, and the configuration it reads.

pub mod text;
pub mod util;
pub mod wrap;
pub mod config;
pub mod daemon;
pub mod notify;
