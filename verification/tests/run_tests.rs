use save_backup::run::{plan_backup, removal_kind, startup_sleep_seconds, RemovalKind};

#[test]
fn removal_kind_by_extension() {
    assert_eq!(
        removal_kind(&"saves/X/X_2022-01-01_00-00-00+0000.zip".to_string()),
        RemovalKind::ZipFile
    );
    assert_eq!(
        removal_kind(&"saves/X/X_2022-01-01_00-00-00+0000".to_string()),
        RemovalKind::Directory
    );
    assert_eq!(removal_kind(&"saves/X/backup.tar".to_string()), RemovalKind::Untouched);
    assert_eq!(removal_kind(&"saves/X/.zip".to_string()), RemovalKind::Directory);
    assert_eq!(removal_kind(&"a.b/plain".to_string()), RemovalKind::Directory);
}

#[test]
fn startup_sleep_covers_the_rest_of_the_interval() {
    // ten minutes since the newest backup, with a thirty-minute interval
    assert_eq!(startup_sleep_seconds(1650001200, 1650000600, 30), 1200);
    // the backup is older than one interval
    assert_eq!(startup_sleep_seconds(1650010000, 1650000600, 30), 0);
    // no backup at all: the epoch is long past
    assert_eq!(startup_sleep_seconds(1650000000, 0, 30), 0);
    // a backup seemingly from the future still waits out the interval
    assert_eq!(startup_sleep_seconds(1650000000, 1650000090, 30), 1860);
}

#[test]
fn plan_preserves_relative_paths() {
    let files = vec!["./src/a.txt".to_string(), "./src/sub/b.txt".to_string()];
    let steps = plan_backup(
        &files,
        &"./src".to_string(),
        &"saves/X".to_string(),
        &"X_2022-01-05_00-00-00+0000".to_string(),
    )
    .unwrap();
    assert_eq!(steps.len(), 2);
    assert_eq!(steps[0].source, "./src/a.txt");
    assert_eq!(steps[0].relative, "a.txt");
    assert_eq!(steps[0].destination, "saves/X/X_2022-01-05_00-00-00+0000/a.txt");
    assert_eq!(steps[1].relative, "sub/b.txt");
    assert_eq!(steps[1].destination, "saves/X/X_2022-01-05_00-00-00+0000/sub/b.txt");
}

#[test]
fn plan_refuses_files_outside_the_root() {
    let files = vec!["elsewhere/a.txt".to_string()];
    let r = plan_backup(
        &files,
        &"./src".to_string(),
        &"saves/X".to_string(),
        &"X_2022-01-05_00-00-00+0000".to_string(),
    );
    assert!(r.is_err());
}
