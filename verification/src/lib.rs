//! Decoder and statistics engine for binary logs of a Voltcraft power-quality
//! recorder.
//!
//! The decoder walks a byte buffer made of self-delimited data blocks, each
//! opening with a magic header and a five-byte start timestamp, followed by
//! five-byte measurement records (one per minute) and closed by an explicit
//! end-of-data marker. The statistics engine aggregates the decoded events
//! into overall, per-day and blackout summaries.
//!
//! All quantities are exact scaled integers: voltage in tenths of a volt,
//! current in milliamperes, power factor in hundredths, active power in
//! microwatts and apparent power in micro-volt-amperes. Timestamps are
//! minutes counted from midnight of January 1, 1 CE.

pub mod data;
pub mod stats;
pub mod time;

pub use data::{ParseError, PowerEvent, VoltcraftData};
pub use stats::{
    is_well_formed_series, BlackoutInfo, DailyAverage, DailyPowerInfo, OverallPowerInfo,
    PowerBlackout, PowerStats, StatsError, VoltcraftStatistics,
};
pub use time::Timestamp;
