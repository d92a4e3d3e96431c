//! Lockfile update policy and change reporting for a package manager.
//!
//! Given the dependency graph recorded by an earlier resolution and a request
//! to update some or all packages, this crate decides which recorded
//! selections a solver must not reuse, and, once the solver has answered,
//! reports how the new graph differs from the old one.

pub mod closure;
pub mod diff;
pub mod lockfile;
pub mod package;
pub mod policy;
pub mod report;
pub mod resolve;
pub mod source;
pub mod text;
