//! Decoder for the recorder's binary log format.
//!
//! A log is one or more concatenated data blocks. A block opens with the
//! three-byte magic header, followed by a five-byte start timestamp (month,
//! day, year minus 2000, hour, minute — one unsigned byte each). After the
//! header come five-byte measurement records: voltage as two big-endian
//! bytes in tenths of a volt, current as two big-endian bytes in
//! milliamperes, and the power factor as one byte in hundredths. Each record
//! is implicitly one minute after the previous one of its block; a new block
//! header resets the clock to its own start timestamp. The four-byte
//! end-of-data marker closes the log.

use crate::time::{days_of, days_from_civil, valid_date, Timestamp};
use vstd::prelude::*;

verus! {

/// First byte of the block header (magic number).
pub const MAGIC_0: u8 = 0xE0;

/// Second byte of the block header (magic number).
pub const MAGIC_1: u8 = 0xC5;

/// Third byte of the block header (magic number).
pub const MAGIC_2: u8 = 0xEA;

/// The end-of-data marker is four repetitions of this byte.
pub const END_MARKER: u8 = 0xFF;

/// One decoded measurement: a minute-resolution sample of the recorded
/// electrical parameters, in exact scaled integers.
///
/// The derived powers come from the decoded fields alone:
/// `power_uw == voltage_dv * current_ma * power_factor_c` (microwatts) and
/// `apparent_power_uva == voltage_dv * current_ma * 100` (micro-volt-amperes).
#[derive(Clone, Copy, Debug, PartialEq, Eq, Structural)]
pub struct PowerEvent {
    /// When the sample was taken.
    pub timestamp: Timestamp,
    /// Voltage in tenths of a volt.
    pub voltage_dv: u16,
    /// Current in milliamperes.
    pub current_ma: u16,
    /// Power factor (cos phi) in hundredths.
    pub power_factor_c: u8,
    /// Active power in microwatts.
    pub power_uw: u64,
    /// Apparent power in micro-volt-amperes.
    pub apparent_power_uva: u64,
}

/// Why a buffer failed to decode.
#[derive(Clone, Copy, Debug, PartialEq, Eq, Structural)]
pub enum ParseError {
    /// The buffer does not start with the block header.
    InvalidFormat,
    /// The buffer ended before the end-of-data marker.
    Truncated,
    /// A block's start timestamp is not a real calendar date and time.
    InvalidTimestamp,
}

/// A raw log file held in memory.
pub struct VoltcraftData {
    raw_data: Vec<u8>,
}

impl PowerEvent {
    /// Whether the voltage lies in the physically plausible mains range,
    /// strictly between 150 V and 250 V. Out-of-range voltage is a data
    /// quality concern, not a structural one: decoding never rejects it, and
    /// callers apply their own policy with this check.
    pub fn has_plausible_voltage(&self) -> (r: bool)
        ensures
            r == (1500 < self.voltage_dv < 2500),
    {
        1500 < self.voltage_dv && self.voltage_dv < 2500
    }
}

/// Whether the three bytes at `off` are the block header.
pub open spec fn magic_at(b: Seq<u8>, off: int) -> bool {
    &&& 0 <= off
    &&& off + 3 <= b.len()
    &&& b[off] == MAGIC_0
    &&& b[off + 1] == MAGIC_1
    &&& b[off + 2] == MAGIC_2
}

/// Whether the four bytes at `off` are the end-of-data marker.
pub open spec fn eod_at(b: Seq<u8>, off: int) -> bool {
    &&& 0 <= off
    &&& off + 4 <= b.len()
    &&& b[off] == END_MARKER
    &&& b[off + 1] == END_MARKER
    &&& b[off + 2] == END_MARKER
    &&& b[off + 3] == END_MARKER
}

/// Whether the five timestamp bytes at `off` hold a real date and time.
pub open spec fn block_ts_valid(b: Seq<u8>, off: int) -> bool {
    &&& valid_date(2000 + b[off + 2], b[off] as int, b[off + 1] as int)
    &&& b[off + 3] < 24
    &&& b[off + 4] < 60
}

/// The minute count encoded by the five timestamp bytes at `off`:
/// month, day, year minus 2000, hour, minute.
pub open spec fn block_start_minutes(b: Seq<u8>, off: int) -> int {
    days_of(2000 + b[off + 2], b[off] as int, b[off + 1] as int) * 1440 + b[off + 3] * 60 + b[
        off + 4]
}

/// The measurement record encoded by the five bytes at `off`, stamped with
/// the minute count `ts_min`.
pub open spec fn record_at(b: Seq<u8>, off: int, ts_min: int) -> PowerEvent {
    let v = b[off] * 256 + b[off + 1];
    let c = b[off + 2] * 256 + b[off + 3];
    let p = b[off + 4] as int;
    PowerEvent {
        timestamp: Timestamp { minutes: ts_min as u64 },
        voltage_dv: v as u16,
        current_ma: c as u16,
        power_factor_c: p as u8,
        power_uw: (v * c * p) as u64,
        apparent_power_uva: (v * c * 100) as u64,
    }
}

/// The events encoded from offset `off` to the end-of-data marker, given
/// that the enclosing block started at minute `start` and has already
/// yielded `k` records. Mirrors the decoding algorithm step by step.
pub open spec fn parse_from(b: Seq<u8>, off: int, start: int, k: int) -> Result<
    Seq<PowerEvent>,
    ParseError,
>
    decreases b.len() - off,
{
    if magic_at(b, off) {
        if off + 8 <= b.len() {
            if block_ts_valid(b, off + 3) {
                parse_from(b, off + 8, block_start_minutes(b, off + 3), 0)
            } else {
                Err(ParseError::InvalidTimestamp)
            }
        } else {
            Err(ParseError::Truncated)
        }
    } else if eod_at(b, off) {
        Ok(Seq::empty())
    } else if 0 <= off && off + 5 <= b.len() {
        match parse_from(b, off + 5, start, k + 1) {
            Ok(tail) => Ok(seq![record_at(b, off, start + k)] + tail),
            Err(e) => Err(e),
        }
    } else {
        Err(ParseError::Truncated)
    }
}

/// What decoding a whole buffer yields: the event sequence, or the error.
/// A buffer that does not open with the block header is `InvalidFormat`.
pub open spec fn parse_spec(b: Seq<u8>) -> Result<Seq<PowerEvent>, ParseError> {
    if magic_at(b, 0) {
        parse_from(b, 0, 0, 0)
    } else {
        Err(ParseError::InvalidFormat)
    }
}

/// Prefixing the accumulated events onto the outcome of the remaining input.
pub open spec fn glue(pre: Seq<PowerEvent>, r: Result<Seq<PowerEvent>, ParseError>) -> Result<
    Seq<PowerEvent>,
    ParseError,
> {
    match r {
        Ok(tail) => Ok(pre + tail),
        Err(e) => Err(e),
    }
}

/// Whether the bytes of the `i`-th record position of a single-block buffer
/// begin neither like a block header nor like the end-of-data marker.
pub open spec fn record_position_clear(b: Seq<u8>, i: int) -> bool {
    !magic_at(b, 8 + 5 * i) && !eod_at(b, 8 + 5 * i)
}

/// A buffer that holds the block header, a valid start timestamp, `n`
/// measurement records none of which begins like a header or like the end
/// marker, and then the end-of-data marker.
pub open spec fn single_block(b: Seq<u8>, n: int) -> bool {
    &&& 0 <= n
    &&& 8 + 5 * n + 4 <= b.len()
    &&& magic_at(b, 0)
    &&& block_ts_valid(b, 3)
    &&& (forall|i: int| 0 <= i < n ==> #[trigger] record_position_clear(b, i))
    &&& eod_at(b, 8 + 5 * n)
}

proof fn lemma_parse_single_block_from(b: Seq<u8>, n: int, k: int)
    requires
        single_block(b, n),
        0 <= k <= n,
    ensures
        ({
            let start = block_start_minutes(b, 3);
            let r = parse_from(b, 8 + 5 * k, start, k);
            &&& r is Ok
            &&& r->Ok_0.len() == n - k
            &&& forall|i: int|
                0 <= i < n - k ==> r->Ok_0[i] == record_at(b, 8 + 5 * (k + i), start + k + i)
        }),
    decreases n - k,
{
    let start = block_start_minutes(b, 3);
    let off = 8 + 5 * k;
    if k == n {
        assert(!magic_at(b, off));
    } else {
        assert(record_position_clear(b, k));
        lemma_parse_single_block_from(b, n, k + 1);
        let r = parse_from(b, off, start, k);
        let tail = parse_from(b, off + 5, start, k + 1)->Ok_0;
        assert forall|i: int| 0 <= i < n - k implies r->Ok_0[i] == record_at(
            b,
            8 + 5 * (k + i),
            start + k + i,
        ) by {
            if i > 0 {
                assert(r->Ok_0[i] == tail[i - 1]);
            }
        }
    }
}

/// Decoding law for one well-shaped block: a buffer made of the header, a
/// valid start timestamp, `n` records and the end marker decodes to exactly
/// `n` events, and the event at position `i` is the record at byte offset
/// `8 + 5*i`, stamped with the block start plus `i` minutes.
pub proof fn lemma_parse_single_block(b: Seq<u8>, n: int)
    requires
        single_block(b, n),
    ensures
        ({
            let start = block_start_minutes(b, 3);
            let r = parse_spec(b);
            &&& r is Ok
            &&& r->Ok_0.len() == n
            &&& forall|i: int|
                0 <= i < n ==> r->Ok_0[i] == record_at(b, 8 + 5 * i, start + i)
            &&& forall|i: int|
                0 <= i < n ==> (#[trigger] r->Ok_0[i]).timestamp == (Timestamp {
                    minutes: (start + i) as u64,
                })
        }),
{
    lemma_parse_single_block_from(b, n, 0);
}

/// A buffer that is only a header, a valid start timestamp and the end
/// marker decodes to no events and no error.
pub proof fn lemma_header_then_end_is_empty(b: Seq<u8>)
    requires
        magic_at(b, 0),
        block_ts_valid(b, 3),
        eod_at(b, 8),
    ensures
        parse_spec(b) == Ok::<Seq<PowerEvent>, ParseError>(Seq::empty()),
{
    lemma_parse_single_block(b, 0);
    assert(parse_spec(b)->Ok_0 =~= Seq::<PowerEvent>::empty());
}

impl View for VoltcraftData {
    type V = Seq<u8>;

    closed spec fn view(&self) -> Seq<u8> {
        self.raw_data@
    }
}

impl VoltcraftData {
    /// Wraps an in-memory byte buffer for decoding.
    pub fn from_raw(raw_data: Vec<u8>) -> (r: VoltcraftData)
        ensures
            r@ == raw_data@,
    {
        VoltcraftData { raw_data }
    }

    /// Whether the block header stands at `off`.
    pub fn is_datablock(&self, off: usize) -> (r: bool)
        requires
            off + 3 <= self@.len(),
        ensures
            r == magic_at(self@, off as int),
    {
        proof {
            assert(off + 3 <= self.raw_data.len());
        }
        self.raw_data[off] == MAGIC_0 && self.raw_data[off + 1] == MAGIC_1 && self.raw_data[off + 2]
            == MAGIC_2
    }

    /// Whether the end-of-data marker stands at `off`.
    pub fn is_endofdata(&self, off: usize) -> (r: bool)
        requires
            off + 4 <= self@.len(),
        ensures
            r == eod_at(self@, off as int),
    {
        proof {
            assert(off + 4 <= self.raw_data.len());
        }
        self.raw_data[off] == END_MARKER && self.raw_data[off + 1] == END_MARKER
            && self.raw_data[off + 2] == END_MARKER && self.raw_data[off + 3] == END_MARKER
    }

    /// Decodes the five timestamp bytes at `off`, or `None` when they do not
    /// name a real calendar date and time.
    pub fn decode_timestamp(&self, off: usize) -> (r: Option<Timestamp>)
        requires
            off + 5 <= self@.len(),
        ensures
            r is Some <==> block_ts_valid(self@, off as int),
            r is Some ==> r->Some_0.minutes == block_start_minutes(self@, off as int),
            r is Some ==> r->Some_0.minutes < 0x400_0000_0000,
    {
        proof {
            assert(off + 5 <= self.raw_data.len());
        }
        let month = self.raw_data[off];
        let day = self.raw_data[off + 1];
        let year = self.raw_data[off + 2];
        let hour = self.raw_data[off + 3];
        let minute = self.raw_data[off + 4];
        if hour >= 24 || minute >= 60 {
            return None;
        }
        match days_from_civil(2000 + year as i32, month, day) {
            None => None,
            Some(days) => {
                let minutes: u64 = days as u64 * 1440 + hour as u64 * 60 + minute as u64;
                Some(Timestamp { minutes })
            },
        }
    }

    /// Decodes the five measurement bytes at `off` into voltage (tenths of a
    /// volt), current (milliamperes), power factor (hundredths), and the
    /// derived active power (microwatts) and apparent power
    /// (micro-volt-amperes).
    pub fn decode_power(&self, off: usize) -> (r: (u16, u16, u8, u64, u64))
        requires
            off + 5 <= self@.len(),
        ensures
            r.0 == self@[off as int] * 256 + self@[off as int + 1],
            r.1 == self@[off as int + 2] * 256 + self@[off as int + 3],
            r.2 == self@[off as int + 4],
            r.3 == r.0 * r.1 * r.2,
            r.4 == r.0 * r.1 * 100,
    {
        proof {
            assert(off + 5 <= self.raw_data.len());
        }
        let voltage: u16 = (self.raw_data[off] as u16) * 256 + (self.raw_data[off + 1] as u16);
        let current: u16 = (self.raw_data[off + 2] as u16) * 256 + (self.raw_data[off + 3] as u16);
        let power_factor: u8 = self.raw_data[off + 4];
        proof {
            assert(voltage * current * power_factor <= 65535 * 65535 * 255) by (nonlinear_arith)
                requires
                    voltage <= 65535,
                    current <= 65535,
                    power_factor <= 255,
            ;
            assert(voltage * current * 100 <= 65535 * 65535 * 100) by (nonlinear_arith)
                requires
                    voltage <= 65535,
                    current <= 65535,
            ;
        }
        let power: u64 = voltage as u64 * current as u64 * power_factor as u64;
        let apparent_power: u64 = voltage as u64 * current as u64 * 100;
        (voltage, current, power_factor, power, apparent_power)
    }

    /// Decodes the whole buffer into its ordered event sequence.
    ///
    /// Fails with `InvalidFormat` exactly when the buffer does not open with
    /// the block header, with `Truncated` when it ends before the end-of-data
    /// marker, and with `InvalidTimestamp` when a block's start timestamp is
    /// not a real date and time. Every returned timestamp is well formed.
    pub fn parse(&self) -> (r: Result<Vec<PowerEvent>, ParseError>)
        ensures
            match r {
                Ok(events) => parse_spec(self@) == Ok::<Seq<PowerEvent>, ParseError>(events@)
                    && forall|i: int|
                    0 <= i < events@.len() ==> (#[trigger] events@[i]).timestamp.wf(),
                Err(e) => parse_spec(self@) == Err::<Seq<PowerEvent>, ParseError>(e),
            },
    {
        let n = self.raw_data.len();
        let mut events: Vec<PowerEvent> = Vec::new();
        let mut offset: usize = 0;
        let mut start: u64 = 0;
        let mut k: u64 = 0;

        if !(3 <= n && self.is_datablock(0)) {
            return Err(ParseError::InvalidFormat);
        }
        proof {
            assert(Seq::<PowerEvent>::empty() + parse_from(self@, 0, 0, 0)->Ok_0 =~= parse_from(
                self@,
                0,
                0,
                0,
            )->Ok_0);
        }
        loop
            invariant
                n == self@.len(),
                offset <= n,
                start < 0x400_0000_0000,
                5 * k <= offset,
                glue(events@, parse_from(self@, offset as int, start as int, k as int))
                    == parse_spec(self@),
                forall|i: int| 0 <= i < events@.len() ==> (#[trigger] events@[i]).timestamp.wf(),
            decreases n - offset,
        {
            if n - offset >= 3 && self.is_datablock(offset) {
                if n - offset < 8 {
                    return Err(ParseError::Truncated);
                }
                match self.decode_timestamp(offset + 3) {
                    None => {
                        return Err(ParseError::InvalidTimestamp);
                    },
                    Some(t) => {
                        start = t.minutes;
                        k = 0;
                        offset = offset + 8;
                    },
                }
            } else if n - offset >= 4 && self.is_endofdata(offset) {
                proof {
                    assert(events@ + Seq::<PowerEvent>::empty() =~= events@);
                }
                return Ok(events);
            } else if n - offset >= 5 {
                let (voltage, current, power_factor, power, apparent_power) = self.decode_power(
                    offset,
                );
                let ts: u64 = start + k;
                let event = PowerEvent {
                    timestamp: Timestamp { minutes: ts },
                    voltage_dv: voltage,
                    current_ma: current,
                    power_factor_c: power_factor,
                    power_uw: power,
                    apparent_power_uva: apparent_power,
                };
                proof {
                    assert(event == record_at(self@, offset as int, start as int + k as int));
                    let tail_r = parse_from(
                        self@,
                        offset as int + 5,
                        start as int,
                        k as int + 1,
                    );
                    if tail_r is Ok {
                        assert(events@.push(event) + tail_r->Ok_0 =~= events@ + (seq![event]
                            + tail_r->Ok_0));
                    }
                }
                events.push(event);
                offset = offset + 5;
                k = k + 1;
            } else {
                return Err(ParseError::Truncated);
            }
        }
    }
}

} // verus!

