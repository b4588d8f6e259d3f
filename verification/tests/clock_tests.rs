use save_backup::clock::{now_backup_time, time_now};
use save_backup::codec::{decode, encode, to_unix};

#[test]
fn present_time_is_well_formed_and_round_trips() {
    let now = now_backup_time();
    assert!(now.month >= 1 && now.month <= 12);
    assert!(now.day >= 1 && now.day <= 31);
    assert!(now.hour <= 23 && now.minute <= 59 && now.second <= 59);
    assert!(now.offset_minutes.abs() <= 1439);
    let name = encode("clock", &now);
    assert_eq!(decode("clock", &name), Ok(now));
}

#[test]
fn unix_seconds_agree_with_the_civil_reading() {
    let civil = now_backup_time();
    let unix = time_now();
    // the two readings come from the same clock moments apart
    assert!((unix - to_unix(&civil)).abs() <= 60);
}
