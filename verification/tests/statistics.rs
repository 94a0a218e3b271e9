use chrono::Datelike;
use voltcraft::data::PowerEvent;
use voltcraft::stats::{is_well_formed_series, StatsError, VoltcraftStatistics};
use voltcraft::time::Timestamp;

/// Minutes from midnight of January 1, 1 CE to the given date and time.
fn minutes_of(year: i32, month: u32, day: u32, hour: u64, minute: u64) -> u64 {
    let days = chrono::NaiveDate::from_ymd_opt(year, month, day)
        .unwrap()
        .num_days_from_ce() as u64;
    days * 1440 + hour * 60 + minute
}

/// An event at the given minute with the given raw voltage, current and
/// power factor, its powers derived as the decoder derives them.
fn ev(minutes: u64, voltage_dv: u16, current_ma: u16, power_factor_c: u8) -> PowerEvent {
    PowerEvent {
        timestamp: Timestamp { minutes },
        voltage_dv,
        current_ma,
        power_factor_c,
        power_uw: voltage_dv as u64 * current_ma as u64 * power_factor_c as u64,
        apparent_power_uva: voltage_dv as u64 * current_ma as u64 * 100,
    }
}

#[test]
fn compute_stats_exact_sums_and_extremes() {
    let m0 = minutes_of(2023, 1, 2, 0, 0);
    let events = vec![
        ev(m0, 2300, 500, 90),
        ev(m0 + 1, 2200, 1000, 80),
        ev(m0 + 2, 2400, 200, 95),
    ];
    let stats = VoltcraftStatistics::compute_stats(&events);
    assert_eq!(stats.event_count, 3);
    assert_eq!(
        stats.active_power_sum_uw,
        (2300u128 * 500 * 90) + (2200u128 * 1000 * 80) + (2400u128 * 200 * 95)
    );
    assert_eq!(
        stats.apparent_power_sum_uva,
        (2300u128 * 500 * 100) + (2200u128 * 1000 * 100) + (2400u128 * 200 * 100)
    );
    assert_eq!(stats.voltage_sum_dv, 2300 + 2200 + 2400);
    // 2200*1000*80 = 176e6 uW is the greatest active power.
    assert_eq!(stats.max_active_power.timestamp.minutes, m0 + 1);
    assert_eq!(stats.max_apparent_power.timestamp.minutes, m0 + 1);
    assert_eq!(stats.min_voltage.timestamp.minutes, m0 + 1);
    assert_eq!(stats.max_voltage.timestamp.minutes, m0 + 2);
    assert_eq!(stats.total_duration_min, 3);
}

#[test]
fn compute_stats_ties_pick_last_occurrence() {
    let m0 = minutes_of(2023, 1, 2, 0, 0);
    // All three events identical but for the timestamp: every extreme is a
    // three-way tie, and the last event must be picked each time.
    let events = vec![ev(m0, 2300, 500, 90), ev(m0 + 1, 2300, 500, 90), ev(m0 + 2, 2300, 500, 90)];
    let stats = VoltcraftStatistics::compute_stats(&events);
    assert_eq!(stats.max_active_power.timestamp.minutes, m0 + 2);
    assert_eq!(stats.max_apparent_power.timestamp.minutes, m0 + 2);
    assert_eq!(stats.min_voltage.timestamp.minutes, m0 + 2);
    assert_eq!(stats.max_voltage.timestamp.minutes, m0 + 2);
}

#[test]
fn compute_stats_single_event_counts_its_own_minute() {
    let m0 = minutes_of(2023, 1, 2, 0, 0);
    let events = vec![ev(m0, 2300, 500, 90)];
    let stats = VoltcraftStatistics::compute_stats(&events);
    assert_eq!(stats.event_count, 1);
    // The sample interval itself counts: one event covers one minute.
    assert_eq!(stats.total_duration_min, 1);
    assert_eq!(stats.max_active_power.timestamp.minutes, m0);
    assert_eq!(stats.min_voltage.timestamp.minutes, m0);
}

#[test]
fn blackout_stats_needs_two_events_for_a_gap() {
    let empty: Vec<PowerEvent> = Vec::new();
    let stats = VoltcraftStatistics::new(&empty);
    assert_eq!(stats.blackout_stats().blackout_count, 0);
    let single = vec![ev(minutes_of(2023, 1, 2, 0, 0), 2300, 500, 90)];
    let stats = VoltcraftStatistics::new(&single);
    let info = stats.blackout_stats();
    assert_eq!(info.blackout_count, 0);
    assert_eq!(info.total_blackout_duration_min, 0);
}

#[test]
fn overall_stats_empty_input_is_an_error() {
    let events: Vec<PowerEvent> = Vec::new();
    let stats = VoltcraftStatistics::new(&events);
    assert_eq!(stats.overall_stats().unwrap_err(), StatsError::EmptyInput);
}

#[test]
fn overall_stats_short_span_has_no_daily_average() {
    let m0 = minutes_of(2023, 1, 2, 0, 0);
    // Span of 1439 minutes: one short of a full day.
    let events = vec![ev(m0, 2300, 500, 90), ev(m0 + 1439, 2310, 510, 91)];
    let stats = VoltcraftStatistics::new(&events);
    let overall = stats.overall_stats().unwrap();
    assert_eq!(overall.start.minutes, m0);
    assert_eq!(overall.end.minutes, m0 + 1439);
    assert!(overall.avg_daily_power_consumption.is_none());
}

#[test]
fn overall_stats_full_day_span_has_exact_daily_average() {
    let m0 = minutes_of(2023, 1, 2, 0, 0);
    let events = vec![ev(m0, 2300, 500, 90), ev(m0 + 1440, 2310, 510, 91)];
    let stats = VoltcraftStatistics::new(&events);
    let overall = stats.overall_stats().unwrap();
    let avg = overall.avg_daily_power_consumption.unwrap();
    assert_eq!(avg.active_energy_uw_min, overall.stats.active_power_sum_uw);
    assert_eq!(avg.span_min, 1440);
    // The quotient of the two fields is the average in engineering units:
    // kWh per day.
    let kwh_per_day =
        avg.active_energy_uw_min as f64 / 60_000_000_000.0 / (avg.span_min as f64 / 1440.0);
    let total_kwh = overall.stats.active_power_sum_uw as f64 / 60_000_000_000.0;
    assert!((kwh_per_day - total_kwh).abs() < 1e-9);
}

#[test]
fn blackout_stats_contiguous_series_has_none() {
    let m0 = minutes_of(2023, 1, 2, 0, 0);
    let events =
        vec![ev(m0, 2300, 500, 90), ev(m0 + 1, 2300, 500, 90), ev(m0 + 2, 2300, 500, 90)];
    let stats = VoltcraftStatistics::new(&events);
    let info = stats.blackout_stats();
    assert_eq!(info.blackout_count, 0);
    assert_eq!(info.total_blackout_duration_min, 0);
    assert!(info.blackouts.is_empty());
}

#[test]
fn blackout_stats_reports_gap_start_and_duration() {
    let m0 = minutes_of(2023, 1, 2, 0, 0);
    // A five-minute gap between consecutive samples: the blackout starts one
    // minute after the earlier sample and lasts four minutes.
    let events = vec![ev(m0, 2300, 500, 90), ev(m0 + 5, 2300, 500, 90)];
    let stats = VoltcraftStatistics::new(&events);
    let info = stats.blackout_stats();
    assert_eq!(info.blackout_count, 1);
    assert_eq!(info.blackouts[0].timestamp.minutes, m0 + 1);
    assert_eq!(info.blackouts[0].duration_min, 4);
    assert_eq!(info.total_blackout_duration_min, 4);
}

#[test]
fn blackout_stats_sums_all_gaps() {
    let m0 = minutes_of(2023, 1, 2, 0, 0);
    let events = vec![
        ev(m0, 2300, 500, 90),
        ev(m0 + 3, 2300, 500, 90), // two minutes dark
        ev(m0 + 4, 2300, 500, 90),
        ev(m0 + 14, 2300, 500, 90), // nine minutes dark
    ];
    let stats = VoltcraftStatistics::new(&events);
    let info = stats.blackout_stats();
    assert_eq!(info.blackout_count, 2);
    assert_eq!(info.blackouts[0].timestamp.minutes, m0 + 1);
    assert_eq!(info.blackouts[0].duration_min, 2);
    assert_eq!(info.blackouts[1].timestamp.minutes, m0 + 5);
    assert_eq!(info.blackouts[1].duration_min, 9);
    assert_eq!(info.total_blackout_duration_min, 11);
}

#[test]
fn distinct_days_ascending_and_unique() {
    let d1 = minutes_of(2023, 1, 2, 23, 58);
    let d2 = minutes_of(2023, 1, 3, 0, 0);
    let events = vec![
        ev(d1, 2300, 500, 90),
        ev(d1 + 1, 2300, 500, 90),
        ev(d2, 2300, 500, 90),
        ev(d2 + 1, 2300, 500, 90),
    ];
    let stats = VoltcraftStatistics::new(&events);
    let days = stats.distinct_days();
    let day1 = chrono::NaiveDate::from_ymd_opt(2023, 1, 2).unwrap().num_days_from_ce() as u64;
    let day2 = chrono::NaiveDate::from_ymd_opt(2023, 1, 3).unwrap().num_days_from_ce() as u64;
    assert_eq!(days, vec![day1, day2]);
}

#[test]
fn daily_stats_partitions_the_series_by_day() {
    let d1 = minutes_of(2023, 1, 2, 23, 58);
    let d2 = minutes_of(2023, 1, 3, 0, 0);
    let events = vec![
        ev(d1, 2300, 500, 90),
        ev(d1 + 1, 2310, 510, 91),
        ev(d2, 2320, 520, 92),
        ev(d2 + 1, 2330, 530, 93),
        ev(d2 + 2, 2340, 540, 94),
    ];
    let stats = VoltcraftStatistics::new(&events);
    let daily = stats.daily_stats();
    assert_eq!(daily.len(), 2);
    let day1 = chrono::NaiveDate::from_ymd_opt(2023, 1, 2).unwrap().num_days_from_ce() as u64;
    let day2 = chrono::NaiveDate::from_ymd_opt(2023, 1, 3).unwrap().num_days_from_ce() as u64;
    assert_eq!(daily[0].date, day1);
    assert_eq!(daily[1].date, day2);
    // The two day groups cover all five events exactly once.
    assert_eq!(daily[0].stats.event_count, 2);
    assert_eq!(daily[1].stats.event_count, 3);
    // Each group aggregates only its own day's events.
    assert_eq!(daily[0].stats.voltage_sum_dv, 2300 + 2310);
    assert_eq!(daily[1].stats.voltage_sum_dv, 2320 + 2330 + 2340);
    assert_eq!(daily[0].stats.max_voltage.timestamp.minutes, d1 + 1);
    assert_eq!(daily[1].stats.max_voltage.timestamp.minutes, d2 + 2);
    // Within each day the duration counts that day's covered minutes.
    assert_eq!(daily[0].stats.total_duration_min, 2);
    assert_eq!(daily[1].stats.total_duration_min, 3);
}

#[test]
fn duration_parts_splits_days_hours_minutes() {
    // 2 days, 3 hours, 5 minutes.
    let (d, h, m) = voltcraft::time::duration_parts(2 * 1440 + 3 * 60 + 5);
    assert_eq!((d, h, m), (2, 3, 5));
    assert_eq!(voltcraft::time::duration_parts(0), (0, 0, 0));
    assert_eq!(voltcraft::time::duration_parts(1439), (0, 23, 59));
    assert_eq!(voltcraft::time::duration_parts(1440), (1, 0, 0));
}

#[test]
fn well_formed_series_checks_order_and_duplicates() {
    let m0 = minutes_of(2023, 1, 2, 0, 0);
    let sorted = vec![ev(m0, 2300, 500, 90), ev(m0 + 1, 2300, 500, 90)];
    assert!(is_well_formed_series(&sorted));
    let unsorted = vec![ev(m0 + 1, 2300, 500, 90), ev(m0, 2300, 500, 90)];
    assert!(!is_well_formed_series(&unsorted));
    let duplicated = vec![ev(m0, 2300, 500, 90), ev(m0, 2300, 500, 90)];
    assert!(!is_well_formed_series(&duplicated));
    let empty: Vec<PowerEvent> = Vec::new();
    assert!(is_well_formed_series(&empty));
}
