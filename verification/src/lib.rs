//! A make-like build library: named targets produce output files from input
//! files by running shell commands, and may depend on other targets.
//!
//! The heart of the library is the target graph. Raw targets, as a format
//! front end produces them, refer to one another by name and may mix input
//! files and dependency names in one list. Finalization resolves those
//! references, detects cycles and duplicate names, and yields a validated,
//! acyclic map of targets. The updater walks that map, decides staleness from
//! file modification times, and drives command execution in dependency order.

pub mod errstr;
pub mod file;
pub mod finalize;
pub mod rule;
pub mod target;
pub mod update;

pub use crate::errstr::ErrStr;
pub use crate::file::File;
pub use crate::finalize::FinalizeError;
pub use crate::finalize::TargetMap;
pub use crate::rule::Rule;
pub use crate::rule::UpdateReq;
pub use crate::target::MixedDeps;
pub use crate::target::Target;
pub use crate::target::TargetExtra;
pub use crate::update::ExitOutcome;
pub use crate::update::StatResult;
pub use crate::update::UpdateError;
