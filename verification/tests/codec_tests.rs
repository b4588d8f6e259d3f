use save_backup::codec::{decode, encode, get_backup_time, to_unix, BackupTime};

fn t(year: u32, month: u32, day: u32, hour: u32, minute: u32, second: u32, offset_minutes: i32) -> BackupTime {
    BackupTime { year, month, day, hour, minute, second, offset_minutes }
}

#[test]
fn encode_writes_fixed_grammar() {
    let ts = t(2022, 4, 15, 21, 1, 41, 600);
    assert_eq!(encode("thing", &ts), "thing_2022-04-15_21-01-41+1000");
}

#[test]
fn encode_negative_offset() {
    let ts = t(1999, 12, 31, 23, 59, 59, -330);
    assert_eq!(encode("x", &ts), "x_1999-12-31_23-59-59-0530");
}

#[test]
fn decode_round_trip() {
    let samples = vec![
        t(2022, 4, 15, 21, 1, 41, 600),
        t(0, 1, 1, 0, 0, 0, 0),
        t(9999, 12, 31, 23, 59, 59, 1439),
        t(1970, 1, 1, 0, 0, 0, -1439),
        t(2024, 2, 29, 12, 30, 0, -600),
    ];
    for ts in samples {
        let name = encode("target", &ts);
        assert_eq!(decode("target", &name), Ok(ts));
    }
}

#[test]
fn decode_strips_zip_suffix() {
    let ts = t(2022, 4, 15, 21, 2, 1, 600);
    assert_eq!(decode("thing", "thing_2022-04-15_21-02-01+1000.zip"), Ok(ts));
}

#[test]
fn decode_rejects_wrong_prefix() {
    assert!(decode("thing", "Xthing_2022-04-15_21-02-01+1000").is_err());
    assert!(decode("thing", "thin_2022-04-15_21-02-01+1000").is_err());
    assert!(decode("thing", "thing-2022-04-15_21-02-01+1000").is_err());
    assert!(decode("thing", "thing").is_err());
}

#[test]
fn decode_rejects_malformed_timestamps() {
    assert!(decode("t", "t_2022-04-15_21-02-01").is_err());
    assert!(decode("t", "t_2022-13-15_21-02-01+1000").is_err());
    assert!(decode("t", "t_2022-00-15_21-02-01+1000").is_err());
    assert!(decode("t", "t_2022-04-32_21-02-01+1000").is_err());
    assert!(decode("t", "t_2022-04-15_24-02-01+1000").is_err());
    assert!(decode("t", "t_2022-04-15_21-61-01+1000").is_err());
    assert!(decode("t", "t_2022-04-15_21-02-01+2500").is_err());
    assert!(decode("t", "t_2022-04-15_21-02-01-0000").is_err());
    assert!(decode("t", "t_2022-04-15 21-02-01+1000").is_err());
    assert!(decode("t", "t_abcd-04-15_21-02-01+1000").is_err());
}

#[test]
fn backup_time_unix_values() {
    assert_eq!(
        get_backup_time("thing", "thing_2022-04-15_21-02-01+1000.zip"),
        Ok(1650020521)
    );
    assert_eq!(
        get_backup_time("thing", "thing_2022-04-15_21-01-41+1000.zip"),
        Ok(1650020501)
    );
    assert_eq!(get_backup_time("t", "t_1970-01-01_00-00-00+0000"), Ok(0));
    assert_eq!(get_backup_time("t", "t_1969-12-31_19-00-00-0500"), Ok(0));
    assert_eq!(get_backup_time("t", "t_2022-01-01_00-00-00+0000"), Ok(1640995200));
}

#[test]
fn to_unix_handles_leap_years() {
    assert_eq!(to_unix(&t(2024, 2, 29, 0, 0, 0, 0)), 1709164800);
    assert_eq!(to_unix(&t(2000, 3, 1, 0, 0, 0, 0)), 951868800);
    assert_eq!(to_unix(&t(1900, 3, 1, 0, 0, 0, 0)), -2203891200);
}
