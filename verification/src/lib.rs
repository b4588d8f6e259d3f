//! Periodic, size-bounded backups of watched directories.
//!
//! Each configured target names a source root with pick and exclude rules, a
//! save directory, an interval, a retention count and a compression flag.
//! The library holds everything that can be decided away from the
//! filesystem: resolving configuration defaults ([`config_types`]), walking
//! the source tree by pick and exclude rules ([`walk`]), encoding and
//! decoding the timestamped backup names ([`codec`]), evaluating a save
//! directory into a [`backup_types::BackupState`] ([`file_data`]), and
//! planning each cycle's backup, eviction and sleep ([`run`]). The caller
//! reads directories, copies bytes and sleeps; the one outside reading the
//! library takes itself is the local clock ([`clock`]).

pub mod backup_types;
pub mod clock;
pub mod codec;
pub mod config_types;
pub mod file_data;
pub mod paths;
pub mod run;
pub mod walk;
