//! Locates Windows Spotlight lock-screen cache images, filters them by
//! format and minimum resolution, plans copies of qualifying ones into a
//! target directory (deduplicating by destination filename), and plans the
//! relocation of year-old files into per-year subdirectories.
//!
//! Every decision the tool makes is computed and verified here, over plain
//! snapshots of what the filesystem holds; the thin binary around this
//! library performs the directory scans and executes the planned copies,
//! directory creations and removals in order.
use vstd::prelude::*;

pub mod archive;
pub mod config;
pub mod dates;
pub mod discover;
pub mod formats;
pub mod run;
pub mod save;

verus! {

pub use config::Config;
pub use run::run;

} // verus!
