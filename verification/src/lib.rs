//! The core of `vex`, a small source package manager: the `.vex` configuration
//! language, the lock file, install manifests, dependency resolution and the
//! other rules that decide what gets fetched, built, upgraded and removed.

pub mod text;
pub mod vex_lang;
pub mod lockfile;
pub mod manifest;
pub mod resolve;
pub mod fetch;
pub mod cache;
pub mod install;
pub mod snapshot;
pub mod serve;
pub mod print;
pub mod cli;
