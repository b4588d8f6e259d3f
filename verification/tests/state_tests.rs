use save_backup::backup_types::BackupState;
use save_backup::codec::{encode, to_unix, BackupTime};
use save_backup::file_data::get_backup_state;
use save_backup::run::plan_cycle;

#[test]
fn test_backup_state() {
    let name = "thing".to_string();
    let save_dir = "./test/test_backup/dst".to_string();
    let entries = vec![
        "thing_2022-04-15_21-02-01+1000.zip".to_string(),
        "thing_2022-04-15_21-01-41+1000.zip".to_string(),
        "another_file.txt".to_string(),
    ];
    let mtimes = vec![1650000000, 1649000000];
    let state = get_backup_state(&name, &save_dir, &entries, &mtimes);
    assert_eq!(
        state,
        BackupState::new(
            1650000000,
            1650020521,
            Some("./test/test_backup/dst/thing_2022-04-15_21-01-41+1000.zip".to_string()),
            2
        )
    );
}

#[test]
fn reports_oldest_latest_and_count() {
    let name = "X".to_string();
    let save_dir = "saves/X".to_string();
    let entries = vec![
        "X_2022-01-02_00-00-00+0000".to_string(),
        "X_2022-01-01_00-00-00+0000".to_string(),
        "X_2022-01-03_00-00-00+0000".to_string(),
        "unrelated".to_string(),
    ];
    let mtimes = vec![];
    let state = get_backup_state(&name, &save_dir, &entries, &mtimes);
    assert_eq!(state.backup_count, 3);
    assert_eq!(state.latest_backup_time, 1641168000);
    assert_eq!(
        state.oldest_backup_path,
        Some("saves/X/X_2022-01-01_00-00-00+0000".to_string())
    );
    assert_eq!(state.last_modified_time, 0);
}

#[test]
fn empty_save_dir_reports_no_backups() {
    let state = get_backup_state(
        &"X".to_string(),
        &"saves/X".to_string(),
        &vec![],
        &vec![3, 1, 2],
    );
    assert_eq!(state.backup_count, 0);
    assert_eq!(state.oldest_backup_path, None);
    assert_eq!(state.latest_backup_time, 0);
    assert_eq!(state.last_modified_time, 3);
}

#[test]
fn evaluate_is_idempotent() {
    let name = "X".to_string();
    let save_dir = "saves/X".to_string();
    let entries = vec![
        "X_2022-01-02_00-00-00+0000".to_string(),
        "X_2022-01-01_00-00-00+0000".to_string(),
        "stray.txt".to_string(),
    ];
    let mtimes = vec![7, 9, 8];
    let first = get_backup_state(&name, &save_dir, &entries, &mtimes);
    let second = get_backup_state(&name, &save_dir, &entries, &mtimes);
    assert_eq!(first, second);
}

#[test]
fn retention_cycle_evicts_oldest_and_creates() {
    let name = "X".to_string();
    let save_dir = "saves/X".to_string();
    let entries = vec![
        "X_2022-01-01_00-00-00+0000".to_string(),
        "X_2022-01-02_00-00-00+0000".to_string(),
    ];
    let mtimes = vec![1700000000];
    let state = get_backup_state(&name, &save_dir, &entries, &mtimes);
    assert_eq!(state.backup_count, 2);

    let plan = plan_cycle(&state, 2, 30);
    assert!(plan.make_backup);
    assert_eq!(
        plan.evict,
        Some("saves/X/X_2022-01-01_00-00-00+0000".to_string())
    );

    // carry the decided actions out against the listing
    let now = BackupTime { year: 2022, month: 1, day: 5, hour: 0, minute: 0, second: 0, offset_minutes: 0 };
    let new_entry = encode("X", &now);
    let entries_after: Vec<String> = entries
        .iter()
        .filter(|e| plan.evict != Some(format!("{}/{}", save_dir, e)))
        .cloned()
        .chain(std::iter::once(new_entry))
        .collect();

    let after = get_backup_state(&name, &save_dir, &entries_after, &mtimes);
    // exactly one prior backup is gone, the one with the smallest timestamp,
    // and the new backup with the current timestamp exists
    assert_eq!(after.backup_count, 2);
    assert_eq!(
        after.oldest_backup_path,
        Some("saves/X/X_2022-01-02_00-00-00+0000".to_string())
    );
    assert_eq!(after.latest_backup_time, to_unix(&now));
}

#[test]
fn below_retention_count_nothing_is_evicted() {
    let state = BackupState::new(10, 5, Some("saves/X/X_2022-01-01_00-00-00+0000".to_string()), 1);
    let plan = plan_cycle(&state, 2, 30);
    assert!(plan.make_backup);
    assert_eq!(plan.evict, None);
    assert_eq!(plan.sleep_seconds, 1800);
}

#[test]
fn unchanged_sources_need_no_backup() {
    let state = BackupState::new(100, 100, Some("p".to_string()), 1);
    let plan = plan_cycle(&state, 5, 60);
    assert!(!plan.make_backup);
    assert_eq!(plan.evict, None);
}
