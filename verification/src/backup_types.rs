//! The state derived from one look at a target's files and save directory.

use vstd::prelude::*;

verus! {

/// What one evaluation of a target reports: the newest source modification
/// time, the newest backup time, the path of the oldest backup, and how many
/// backups there are. Recomputed every cycle, never cached.
#[derive(Debug)]
pub struct BackupState {
    pub last_modified_time: i64,
    pub latest_backup_time: i64,
    pub oldest_backup_path: Option<String>,
    pub backup_count: u64,
}

impl BackupState {
    /// There is an oldest backup exactly when there is any backup.
    pub open spec fn wf(self) -> bool {
        (self.oldest_backup_path is None) <==> (self.backup_count == 0)
    }

    /// Bundles the four facts of one evaluation.
    pub fn new(
        last_modified_time: i64,
        latest_backup_time: i64,
        oldest_backup_path: Option<String>,
        backup_count: u64,
    ) -> (r: Self)
        ensures
            r.last_modified_time == last_modified_time,
            r.latest_backup_time == latest_backup_time,
            r.oldest_backup_path == oldest_backup_path,
            r.backup_count == backup_count,
    {
        Self { last_modified_time, latest_backup_time, oldest_backup_path, backup_count }
    }
}

impl PartialEq for BackupState {
    fn eq(&self, other: &BackupState) -> (r: bool) {
        self.last_modified_time == other.last_modified_time && self.latest_backup_time
            == other.latest_backup_time && self.backup_count == other.backup_count && match (
            &self.oldest_backup_path,
            &other.oldest_backup_path,
        ) {
            (None, None) => true,
            (Some(a), Some(b)) => a.eq(b),
            _ => false,
        }
    }
}

impl vstd::std_specs::cmp::PartialEqSpecImpl for BackupState {
    open spec fn obeys_eq_spec() -> bool {
        true
    }

    open spec fn eq_spec(&self, other: &BackupState) -> bool {
        self.last_modified_time == other.last_modified_time && self.latest_backup_time
            == other.latest_backup_time && self.backup_count == other.backup_count
            && self.oldest_backup_path.deep_view() == other.oldest_backup_path.deep_view()
    }
}

} // verus!
