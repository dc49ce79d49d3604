//! Installation orchestration for a sketching environment: resolving the
//! installation root, planning archive extraction and tree copies, locating
//! the installed executable and generating the shortcut and association
//! commands. Everything that touches the disk or spawns a process is left to
//! the caller, which hands the library plain values and performs the plans.
pub mod error;
pub mod paths;
pub mod archive;
pub mod bundle;
pub mod layout;
pub mod copy;
pub mod shell;
