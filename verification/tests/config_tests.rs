use save_backup::config_types::{FileList, GameConfig, SharedConfig};
use save_backup::paths::normalize;

#[test]
fn test_wtf() {
    let path1 = normalize("/");
    let path2 = normalize("\\");
    assert_eq!(path1, path2)
}

#[test]
fn shared_config_fills_missing_fields() {
    let shared = SharedConfig::new(None, None, None, None);
    assert_eq!(shared.save_root, "./save-backups");
    assert!(shared.zip);
    assert_eq!(shared.count, 5);
    assert_eq!(shared.interval, 30);
}

#[test]
fn shared_config_keeps_given_fields() {
    let shared = SharedConfig::new(Some("~/backups"), Some(false), Some(9), Some(45));
    assert_eq!(shared.save_root, "~/backups");
    assert!(!shared.zip);
    assert_eq!(shared.count, 9);
    assert_eq!(shared.interval, 45);
}

#[test]
fn test_config_no_defaults() {
    let shared = SharedConfig::new(Some("~/save-game-backups"), Some(true), Some(10), Some(60));
    let config = GameConfig::with_defaults(
        "elden-ring",
        Some("~/Documents/elden-ring-backups/"),
        None,
        "%APPDATA%/EldenRing/12345",
        Some(vec!["ER0000.sl2".to_owned()]),
        None,
        Some(30),
        Some(6),
        &shared,
    );
    assert_eq!(
        config,
        GameConfig {
            name: "elden-ring".to_owned(),
            save_dir: "~/Documents/elden-ring-backups/elden-ring".to_owned(),
            zip: true,
            file_list: FileList::new(
                "%APPDATA%/EldenRing/12345",
                Some(vec!["ER0000.sl2".to_owned()]),
                None
            ),
            interval: 30,
            count: 6
        }
    );
}

#[test]
fn test_config_all_defaults() {
    let shared = SharedConfig::new(Some("~/save-game-backups"), Some(true), Some(10), Some(60));
    let config = GameConfig::with_defaults(
        "elden-ring",
        None,
        None,
        "%APPDATA%/EldenRing/12345",
        None,
        None,
        None,
        None,
        &shared,
    );
    assert_eq!(
        config,
        GameConfig {
            name: "elden-ring".to_owned(),
            save_dir: "~/save-game-backups/elden-ring".to_owned(),
            zip: true,
            file_list: FileList::new("%APPDATA%/EldenRing/12345", None, None),
            interval: 60,
            count: 10
        }
    );
}
