use chrono::Datelike;
use voltcraft::data::{ParseError, VoltcraftData};

const TESTDATA: [u8; 17] = [
    // Header (magic number)
    0xE0, 0xC5, 0xEA, // Power data
    0x09, 0x0B, 0x0E, 0x12, 0x2B, 0x08, 0xC6, 0x01, 0xBE, 0x57, // End of power data
    0xFF, 0xFF, 0xFF, 0xFF,
];

/// Minutes from midnight of January 1, 1 CE to the given date and time.
fn minutes_of(year: i32, month: u32, day: u32, hour: u64, minute: u64) -> u64 {
    let days = chrono::NaiveDate::from_ymd_opt(year, month, day)
        .unwrap()
        .num_days_from_ce() as u64;
    days * 1440 + hour * 60 + minute
}

#[test]
fn lib_voltcraft_timestamp() {
    let vd = VoltcraftData::from_raw(TESTDATA.to_vec());
    let offset_timestamp = 3;
    let ts = vd.decode_timestamp(offset_timestamp).unwrap();
    assert_eq!(ts.minutes, minutes_of(2014, 9, 11, 18, 43));
}

#[test]
fn data_voltcraft_timestamp() {
    let vd = VoltcraftData::from_raw(TESTDATA.to_vec());
    let offset_timestamp = 3;
    let ts = vd.decode_timestamp(offset_timestamp).unwrap();
    assert_eq!(ts.minutes, minutes_of(2014, 9, 11, 18, 43));
}

#[test]
fn lib_voltcraft_poweritem() {
    let vd = VoltcraftData::from_raw(TESTDATA.to_vec());
    let offset_poweritem = 8;
    let pw = vd.decode_power(offset_poweritem);
    assert_eq!(pw.0 as f64 / 10.0, 224.6);
    assert_eq!(pw.1 as f64 / 1000.0, 0.446);
    assert_eq!(pw.2 as f64 / 100.0, 0.87);
}

#[test]
fn data_voltcraft_poweritem() {
    let vd = VoltcraftData::from_raw(TESTDATA.to_vec());
    let offset_poweritem = 8;
    let pw = vd.decode_power(offset_poweritem);
    assert_eq!(pw.0 as f64 / 10.0, 224.6);
    assert_eq!(pw.1 as f64 / 1000.0, 0.446);
    assert_eq!(pw.2 as f64 / 100.0, 0.87);
}

#[test]
fn parse_single_event_scenario() {
    let vd = VoltcraftData::from_raw(TESTDATA.to_vec());
    let events = vd.parse().unwrap();
    assert_eq!(events.len(), 1);
    let e = events[0];
    assert_eq!(e.timestamp.minutes, minutes_of(2014, 9, 11, 18, 43));
    assert_eq!(e.voltage_dv, 2246);
    assert_eq!(e.current_ma, 446);
    assert_eq!(e.power_factor_c, 87);
    assert_eq!(e.power_uw, 2246 * 446 * 87);
    assert_eq!(e.apparent_power_uva, 2246 * 446 * 100);
    // Derived powers in engineering units.
    assert!((e.power_uw as f64 / 1e9 - 0.0874).abs() < 0.0005);
    assert!((e.apparent_power_uva as f64 / 1e9 - 0.1002).abs() < 0.0005);
}

#[test]
fn parse_bad_header_fails_invalid_format() {
    let vd = VoltcraftData::from_raw(vec![0x00, 0xC5, 0xEA, 0xFF, 0xFF, 0xFF, 0xFF]);
    assert_eq!(vd.parse(), Err(ParseError::InvalidFormat));
}

#[test]
fn parse_empty_buffer_fails_invalid_format() {
    let vd = VoltcraftData::from_raw(Vec::new());
    assert_eq!(vd.parse(), Err(ParseError::InvalidFormat));
}

#[test]
fn parse_header_then_end_yields_no_events() {
    let buf = vec![
        0xE0, 0xC5, 0xEA, // header
        0x09, 0x0B, 0x0E, 0x12, 0x2B, // timestamp 2014-09-11 18:43
        0xFF, 0xFF, 0xFF, 0xFF, // end of data
    ];
    let vd = VoltcraftData::from_raw(buf);
    let events = vd.parse().unwrap();
    assert_eq!(events.len(), 0);
}

#[test]
fn parse_counts_records_and_increments_minutes() {
    let buf = vec![
        0xE0, 0xC5, 0xEA, // header
        0x01, 0x02, 0x17, 0x00, 0x00, // timestamp 2023-01-02 00:00
        0x08, 0xC6, 0x01, 0xBE, 0x57, // record 0
        0x08, 0xD0, 0x01, 0xC2, 0x58, // record 1
        0x08, 0xDA, 0x01, 0xC6, 0x59, // record 2
        0xFF, 0xFF, 0xFF, 0xFF, // end of data
    ];
    let vd = VoltcraftData::from_raw(buf);
    let events = vd.parse().unwrap();
    assert_eq!(events.len(), 3);
    let start = minutes_of(2023, 1, 2, 0, 0);
    for (i, e) in events.iter().enumerate() {
        assert_eq!(e.timestamp.minutes, start + i as u64);
    }
}

#[test]
fn parse_second_block_resets_clock() {
    let buf = vec![
        0xE0, 0xC5, 0xEA, // first block header
        0x01, 0x02, 0x17, 0x00, 0x00, // timestamp 2023-01-02 00:00
        0x08, 0xC6, 0x01, 0xBE, 0x57, // record
        0x08, 0xC6, 0x01, 0xBE, 0x57, // record
        0xE0, 0xC5, 0xEA, // second block header
        0x01, 0x02, 0x17, 0x0C, 0x00, // timestamp 2023-01-02 12:00
        0x08, 0xC6, 0x01, 0xBE, 0x57, // record
        0xFF, 0xFF, 0xFF, 0xFF, // end of data
    ];
    let vd = VoltcraftData::from_raw(buf);
    let events = vd.parse().unwrap();
    assert_eq!(events.len(), 3);
    assert_eq!(events[0].timestamp.minutes, minutes_of(2023, 1, 2, 0, 0));
    assert_eq!(events[1].timestamp.minutes, minutes_of(2023, 1, 2, 0, 1));
    assert_eq!(events[2].timestamp.minutes, minutes_of(2023, 1, 2, 12, 0));
}

#[test]
fn parse_truncated_record_fails() {
    let buf = vec![
        0xE0, 0xC5, 0xEA, // header
        0x01, 0x02, 0x17, 0x00, 0x00, // timestamp
        0x08, 0xC6, 0x01, // record cut short, no end marker possible
    ];
    let vd = VoltcraftData::from_raw(buf);
    assert_eq!(vd.parse(), Err(ParseError::Truncated));
}

#[test]
fn parse_header_without_timestamp_fails_truncated() {
    let vd = VoltcraftData::from_raw(vec![0xE0, 0xC5, 0xEA, 0x01, 0x02]);
    assert_eq!(vd.parse(), Err(ParseError::Truncated));
}

#[test]
fn parse_missing_end_marker_fails_truncated() {
    let buf = vec![
        0xE0, 0xC5, 0xEA, // header
        0x01, 0x02, 0x17, 0x00, 0x00, // timestamp
        0x08, 0xC6, 0x01, 0xBE, 0x57, // record, then nothing
    ];
    let vd = VoltcraftData::from_raw(buf);
    assert_eq!(vd.parse(), Err(ParseError::Truncated));
}

#[test]
fn parse_invalid_month_fails_invalid_timestamp() {
    let buf = vec![
        0xE0, 0xC5, 0xEA, // header
        0x0D, 0x02, 0x17, 0x00, 0x00, // month 13: no such date
        0xFF, 0xFF, 0xFF, 0xFF, // end of data
    ];
    let vd = VoltcraftData::from_raw(buf);
    assert_eq!(vd.parse(), Err(ParseError::InvalidTimestamp));
}

#[test]
fn decode_timestamp_rejects_bad_time() {
    // Hour 24 and minute 60 name no real time of day.
    let vd = VoltcraftData::from_raw(vec![0x01, 0x02, 0x17, 0x18, 0x00]);
    assert!(vd.decode_timestamp(0).is_none());
    let vd = VoltcraftData::from_raw(vec![0x01, 0x02, 0x17, 0x00, 0x3C]);
    assert!(vd.decode_timestamp(0).is_none());
    // February 29 only exists in leap years: 2023 is none.
    let vd = VoltcraftData::from_raw(vec![0x02, 0x1D, 0x17, 0x00, 0x00]);
    assert!(vd.decode_timestamp(0).is_none());
    let vd = VoltcraftData::from_raw(vec![0x02, 0x1D, 0x18, 0x00, 0x00]);
    assert!(vd.decode_timestamp(0).is_some());
}

#[test]
fn plausible_voltage_range_is_open() {
    let vd = VoltcraftData::from_raw(TESTDATA.to_vec());
    let events = vd.parse().unwrap();
    assert!(events[0].has_plausible_voltage());
    let mut low = events[0];
    low.voltage_dv = 1500;
    assert!(!low.has_plausible_voltage());
    let mut high = events[0];
    high.voltage_dv = 2500;
    assert!(!high.has_plausible_voltage());
}
