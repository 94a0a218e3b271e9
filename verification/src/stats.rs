//! Statistics over a decoded event series: overall and per-day aggregates,
//! and blackout (recording-gap) detection.
//!
//! Every operation takes the event series chronologically sorted with at most
//! one event per timestamp; sorting and deduplication are the caller's step
//! between decoding and statistics.
//!
//! Aggregates are exact: sums of the scaled-integer samples, the event count,
//! and the extreme events themselves. When several events tie for an extreme
//! value, the last one in iteration order is chosen, for maxima and minima
//! alike. Averages and unit conversions are left to the consumer, which has
//! the exact sums and counts to hand.

use crate::data::PowerEvent;
use crate::time::Timestamp;
use vstd::arithmetic::div_mod::lemma_div_is_ordered;
use vstd::prelude::*;

verus! {

/// Why a statistics request failed.
#[derive(Clone, Copy, Debug, PartialEq, Eq, Structural)]
pub enum StatsError {
    /// Statistics were requested over zero events.
    EmptyInput,
}

/// Exact aggregates over a non-empty run of events.
#[derive(Clone, Copy, Debug, PartialEq, Eq, Structural)]
pub struct PowerStats {
    /// Sum of the events' active power, in microwatts. Numerically this is
    /// also the active energy of the run in microwatt-minutes, one sample
    /// standing for one minute; divide by 60 000 000 000 for kilowatt-hours.
    pub active_power_sum_uw: u128,
    /// Sum of the events' apparent power, in micro-volt-amperes.
    pub apparent_power_sum_uva: u128,
    /// Sum of the events' voltage, in tenths of a volt.
    pub voltage_sum_dv: u128,
    /// How many events the run holds.
    pub event_count: usize,
    /// The event of greatest active power (last one among ties).
    pub max_active_power: PowerEvent,
    /// The event of greatest apparent power (last one among ties).
    pub max_apparent_power: PowerEvent,
    /// The event of least voltage (last one among ties).
    pub min_voltage: PowerEvent,
    /// The event of greatest voltage (last one among ties).
    pub max_voltage: PowerEvent,
    /// Minutes from the earliest to the latest event, plus the one minute
    /// the first sample itself stands for.
    pub total_duration_min: u64,
}

/// An inferred interval with no recorded data: it begins one minute after
/// the last event before the gap and lasts `duration_min` minutes.
#[derive(Clone, Copy, Debug, PartialEq, Eq, Structural)]
pub struct PowerBlackout {
    /// Start of the blackout.
    pub timestamp: Timestamp,
    /// Length of the blackout in minutes; always positive.
    pub duration_min: u64,
}

/// Aggregates over the events of one calendar day.
#[derive(Clone, Copy, Debug, PartialEq, Eq, Structural)]
pub struct DailyPowerInfo {
    /// The day, as a day count from January 1, 1 CE.
    pub date: u64,
    /// Aggregates over that day's events.
    pub stats: PowerStats,
}

/// The average daily energy consumption, as an exact ratio: the active
/// energy of the whole run in microwatt-minutes over the span of the run in
/// minutes. Kilowatt-hours per day = `active_energy_uw_min` / 60 000 000 000
/// / (`span_min` / 1440).
#[derive(Clone, Copy, Debug, PartialEq, Eq, Structural)]
pub struct DailyAverage {
    /// Active energy of the whole run, in microwatt-minutes.
    pub active_energy_uw_min: u128,
    /// Minutes from the first to the last event; at least a full day.
    pub span_min: u64,
}

/// Aggregates over the whole event series.
#[derive(Clone, Copy, Debug, PartialEq, Eq, Structural)]
pub struct OverallPowerInfo {
    /// Timestamp of the first event.
    pub start: Timestamp,
    /// Timestamp of the last event.
    pub end: Timestamp,
    /// Aggregates over all events.
    pub stats: PowerStats,
    /// Average daily consumption; present exactly when the series spans at
    /// least one full day.
    pub avg_daily_power_consumption: Option<DailyAverage>,
}

/// All blackouts of the series, oldest first, with their count and the sum
/// of their lengths.
#[derive(Debug)]
pub struct BlackoutInfo {
    /// How many blackouts were found.
    pub blackout_count: usize,
    /// Sum of all blackout lengths, in minutes.
    pub total_blackout_duration_min: u64,
    /// The blackouts, in chronological order.
    pub blackouts: Vec<PowerBlackout>,
}

/// The statistics engine: a read-only borrow of a decoded, sorted and
/// deduplicated event series.
pub struct VoltcraftStatistics<'a> {
    power_data: &'a Vec<PowerEvent>,
}

/// The event's active power, in microwatts.
pub open spec fn key_active() -> spec_fn(PowerEvent) -> int {
    |e: PowerEvent| e.power_uw as int
}

/// The event's apparent power, in micro-volt-amperes.
pub open spec fn key_apparent() -> spec_fn(PowerEvent) -> int {
    |e: PowerEvent| e.apparent_power_uva as int
}

/// The event's voltage, in tenths of a volt.
pub open spec fn key_voltage() -> spec_fn(PowerEvent) -> int {
    |e: PowerEvent| e.voltage_dv as int
}

/// The event's timestamp, in minutes.
pub open spec fn key_minutes() -> spec_fn(PowerEvent) -> int {
    |e: PowerEvent| e.timestamp.minutes as int
}

/// Sum of `key` over the events of `s`.
pub open spec fn sum_of(s: Seq<PowerEvent>, key: spec_fn(PowerEvent) -> int) -> int
    decreases s.len(),
{
    if s.len() == 0 {
        0
    } else {
        sum_of(s.drop_last(), key) + key(s.last())
    }
}

/// Index of the event with the greatest `key`; among ties, the last one.
pub open spec fn last_max_idx(s: Seq<PowerEvent>, key: spec_fn(PowerEvent) -> int) -> int
    decreases s.len(),
{
    if s.len() <= 1 {
        0
    } else {
        let r = last_max_idx(s.drop_last(), key);
        if key(s.last()) >= key(s[r]) {
            s.len() - 1
        } else {
            r
        }
    }
}

/// Index of the event with the least `key`; among ties, the last one.
pub open spec fn last_min_idx(s: Seq<PowerEvent>, key: spec_fn(PowerEvent) -> int) -> int
    decreases s.len(),
{
    if s.len() <= 1 {
        0
    } else {
        let r = last_min_idx(s.drop_last(), key);
        if key(s.last()) <= key(s[r]) {
            s.len() - 1
        } else {
            r
        }
    }
}

/// The timestamps strictly ascend: the series is chronologically sorted and
/// holds at most one event per timestamp.
pub open spec fn chronological(s: Seq<PowerEvent>) -> bool {
    forall|i: int, j: int|
        #![trigger s[i], s[j]]
        0 <= i < j < s.len() ==> s[i].timestamp.minutes < s[j].timestamp.minutes
}

/// Every timestamp of the series is well formed.
pub open spec fn events_wf(s: Seq<PowerEvent>) -> bool {
    forall|i: int| 0 <= i < s.len() ==> (#[trigger] s[i]).timestamp.wf()
}

/// The precondition of the statistics engine: sorted, deduplicated,
/// well-formed timestamps.
pub open spec fn well_formed_series(s: Seq<PowerEvent>) -> bool {
    chronological(s) && events_wf(s)
}

/// The calendar day an event falls on, as a day count from January 1, 1 CE.
pub open spec fn day_of_event(e: PowerEvent) -> int {
    e.timestamp.day()
}

/// Whether an event falls on day `d`.
pub open spec fn on_day(d: int) -> spec_fn(PowerEvent) -> bool {
    |e: PowerEvent| day_of_event(e) == d
}

/// The distinct days of the series, in order of first appearance with
/// consecutive repetitions collapsed. For a chronologically sorted series
/// this is exactly its distinct calendar days, ascending.
pub open spec fn distinct_days_spec(s: Seq<PowerEvent>) -> Seq<int>
    decreases s.len(),
{
    if s.len() == 0 {
        Seq::empty()
    } else {
        let p = distinct_days_spec(s.drop_last());
        if p.len() > 0 && p.last() == day_of_event(s.last()) {
            p
        } else {
            p.push(day_of_event(s.last()))
        }
    }
}

/// The minute gap between an event and the one after it.
pub open spec fn gap_at(s: Seq<PowerEvent>, i: int) -> int {
    s[i + 1].timestamp.minutes - s[i].timestamp.minutes
}

/// The blackouts inferred from the series: one for each pair of consecutive
/// events more than one minute apart, starting one minute after the earlier
/// event of the pair and lasting one minute less than the gap.
pub open spec fn blackouts_of(s: Seq<PowerEvent>) -> Seq<PowerBlackout>
    decreases s.len(),
{
    if s.len() < 2 {
        Seq::empty()
    } else {
        let prev = s[s.len() - 2].timestamp.minutes as int;
        let gap = gap_at(s, s.len() - 2);
        blackouts_of(s.drop_last()) + if gap > 1 {
            seq![
                PowerBlackout {
                    timestamp: Timestamp { minutes: (prev + 1) as u64 },
                    duration_min: (gap - 1) as u64,
                },
            ]
        } else {
            Seq::empty()
        }
    }
}

/// Sum of the blackout lengths, in minutes.
pub open spec fn total_blackout_minutes(bs: Seq<PowerBlackout>) -> int
    decreases bs.len(),
{
    if bs.len() == 0 {
        0
    } else {
        total_blackout_minutes(bs.drop_last()) + bs.last().duration_min
    }
}

/// The exact aggregates of a non-empty run: what `compute_stats` returns.
pub open spec fn power_stats_of(s: Seq<PowerEvent>) -> PowerStats {
    let first_min = key_minutes()(s[last_min_idx(s, key_minutes())]);
    let last_min = key_minutes()(s[last_max_idx(s, key_minutes())]);
    PowerStats {
        active_power_sum_uw: sum_of(s, key_active()) as u128,
        apparent_power_sum_uva: sum_of(s, key_apparent()) as u128,
        voltage_sum_dv: sum_of(s, key_voltage()) as u128,
        event_count: s.len() as usize,
        max_active_power: s[last_max_idx(s, key_active())],
        max_apparent_power: s[last_max_idx(s, key_apparent())],
        min_voltage: s[last_min_idx(s, key_voltage())],
        max_voltage: s[last_max_idx(s, key_voltage())],
        total_duration_min: (last_min - first_min + 1) as u64,
    }
}

/// The chosen maximum lies in the run, no key exceeds it, and everything
/// after it is strictly below it: ties go to the last occurrence.
pub proof fn lemma_last_max_idx_props(s: Seq<PowerEvent>, key: spec_fn(PowerEvent) -> int)
    requires
        s.len() > 0,
    ensures
        0 <= last_max_idx(s, key) < s.len(),
        forall|i: int| 0 <= i < s.len() ==> key(#[trigger] s[i]) <= key(s[last_max_idx(s, key)]),
        forall|i: int|
            last_max_idx(s, key) < i < s.len() ==> key(#[trigger] s[i]) < key(
                s[last_max_idx(s, key)],
            ),
    decreases s.len(),
{
    if s.len() > 1 {
        lemma_last_max_idx_props(s.drop_last(), key);
        assert(forall|i: int| 0 <= i < s.len() - 1 ==> s.drop_last()[i] == s[i]);
    }
}

/// The chosen minimum lies in the run, no key is below it, and everything
/// after it is strictly above it: ties go to the last occurrence.
pub proof fn lemma_last_min_idx_props(s: Seq<PowerEvent>, key: spec_fn(PowerEvent) -> int)
    requires
        s.len() > 0,
    ensures
        0 <= last_min_idx(s, key) < s.len(),
        forall|i: int| 0 <= i < s.len() ==> key(#[trigger] s[i]) >= key(s[last_min_idx(s, key)]),
        forall|i: int|
            last_min_idx(s, key) < i < s.len() ==> key(#[trigger] s[i]) > key(
                s[last_min_idx(s, key)],
            ),
    decreases s.len(),
{
    if s.len() > 1 {
        lemma_last_min_idx_props(s.drop_last(), key);
        assert(forall|i: int| 0 <= i < s.len() - 1 ==> s.drop_last()[i] == s[i]);
    }
}

/// A sum of keys that all lie in `0 ..= bound` lies in `0 ..= len * bound`.
proof fn lemma_sum_of_bounds(s: Seq<PowerEvent>, key: spec_fn(PowerEvent) -> int, bound: int)
    requires
        forall|i: int| 0 <= i < s.len() ==> 0 <= key(#[trigger] s[i]) <= bound,
    ensures
        0 <= sum_of(s, key) <= s.len() * bound,
    decreases s.len(),
{
    if s.len() > 0 {
        assert(forall|i: int| 0 <= i < s.len() - 1 ==> s.drop_last()[i] == s[i]);
        lemma_sum_of_bounds(s.drop_last(), key, bound);
        assert(0 <= key(s.last()) <= bound);
        assert((s.len() - 1) * bound + bound == s.len() * bound) by (nonlinear_arith);
    }
}

proof fn lemma_minutes_increase(s: Seq<PowerEvent>, i: int, j: int)
    requires
        forall|k: int| 0 <= k < s.len() - 1 ==> #[trigger] gap_at(s, k) >= 1,
        0 <= i < j < s.len(),
    ensures
        s[i].timestamp.minutes < s[j].timestamp.minutes,
    decreases j - i,
{
    if j == i + 1 {
        assert(gap_at(s, i) >= 1);
    } else {
        lemma_minutes_increase(s, i, j - 1);
        assert(gap_at(s, j - 1) >= 1);
    }
}

/// A series whose consecutive timestamps each strictly increase is
/// chronological as a whole.
proof fn lemma_adjacent_sorted(s: Seq<PowerEvent>)
    requires
        forall|k: int| 0 <= k < s.len() - 1 ==> #[trigger] gap_at(s, k) >= 1,
    ensures
        chronological(s),
{
    assert forall|i: int, j: int|
        #![trigger s[i], s[j]]
        0 <= i < j < s.len() implies s[i].timestamp.minutes < s[j].timestamp.minutes by {
        lemma_minutes_increase(s, i, j);
    }
}

/// Whether the series meets the statistics engine's precondition: strictly
/// ascending timestamps (sorted, at most one event per timestamp), each well
/// formed. The caller's sort-and-deduplicate step is checked here, not
/// trusted.
pub fn is_well_formed_series(events: &Vec<PowerEvent>) -> (r: bool)
    ensures
        r == well_formed_series(events@),
{
    let n = events.len();
    let mut i: usize = 0;
    while i < n
        invariant
            i <= n,
            n == events@.len(),
            forall|j: int| 0 <= j < i ==> (#[trigger] events@[j]).timestamp.wf(),
            forall|j: int| 0 <= j < i - 1 ==> #[trigger] gap_at(events@, j) >= 1,
        decreases n - i,
    {
        if events[i].timestamp.minutes > 0x4000_0000_0000_0000 {
            proof {
                assert(!events@[i as int].timestamp.wf());
            }
            return false;
        }
        if i > 0 && events[i - 1].timestamp.minutes >= events[i].timestamp.minutes {
            proof {
                assert(events@[i - 1].timestamp.minutes >= events@[i as int].timestamp.minutes);
                assert(!chronological(events@));
            }
            return false;
        }
        proof {
            if i > 0 {
                assert(gap_at(events@, i - 1) >= 1);
            }
        }
        i = i + 1;
    }
    proof {
        lemma_adjacent_sorted(events@);
    }
    true
}

proof fn lemma_distinct_days_last(s: Seq<PowerEvent>)
    requires
        s.len() > 0,
    ensures
        distinct_days_spec(s).len() > 0,
        distinct_days_spec(s).last() == day_of_event(s.last()),
{
}

/// Every element of a filtered sequence comes from the original sequence and
/// satisfies the predicate.
proof fn lemma_filter_elems(s: Seq<PowerEvent>, pred: spec_fn(PowerEvent) -> bool)
    ensures
        forall|j: int|
            0 <= j < s.filter(pred).len() ==> s.contains(#[trigger] s.filter(pred)[j]) && pred(
                s.filter(pred)[j],
            ),
    decreases s.len(),
{
    reveal(Seq::filter);
    if s.len() > 0 {
        let t = s.drop_last();
        lemma_filter_elems(t, pred);
        assert(forall|i: int| 0 <= i < t.len() ==> t[i] == s[i]);
        assert forall|x: PowerEvent| t.contains(x) implies s.contains(x) by {
            let w = choose|w: int| 0 <= w < t.len() && t[w] == x;
            assert(s[w] == x);
        }
        assert(s.contains(s.last()));
        assert forall|j: int|
            0 <= j < s.filter(pred).len() implies s.contains(#[trigger] s.filter(pred)[j]) && pred(
            s.filter(pred)[j],
        ) by {
            if pred(s.last()) && j == s.filter(pred).len() - 1 {
                assert(s.filter(pred)[j] == s.last());
            } else {
                assert(s.filter(pred)[j] == t.filter(pred)[j]);
                assert(t.contains(t.filter(pred)[j]));
            }
        }
    }
}

/// Every event's day is listed among the distinct days, and every listed day
/// has at least one event: no day group is empty.
proof fn lemma_distinct_days_cover(s: Seq<PowerEvent>)
    ensures
        forall|j: int|
            0 <= j < s.len() ==> distinct_days_spec(s).contains(day_of_event(#[trigger] s[j])),
        forall|k: int|
            0 <= k < distinct_days_spec(s).len() ==> s.filter(
                on_day(#[trigger] distinct_days_spec(s)[k]),
            ).len() > 0,
    decreases s.len(),
{
    reveal(Seq::filter);
    if s.len() > 0 {
        let t = s.drop_last();
        let p = distinct_days_spec(t);
        let ds = distinct_days_spec(s);
        lemma_distinct_days_cover(t);
        assert(forall|i: int| 0 <= i < t.len() ==> t[i] == s[i]);
        // The old day list is a prefix of the new one.
        assert(forall|k: int| 0 <= k < p.len() ==> p[k] == ds[k]);
        assert forall|d: int| p.contains(d) implies ds.contains(d) by {
            let w = choose|w: int| 0 <= w < p.len() && p[w] == d;
            assert(ds[w] == d);
        }
        // The last event's day is listed.
        lemma_distinct_days_last(s);
        assert(ds.contains(day_of_event(s.last()))) by {
            assert(ds[ds.len() - 1] == day_of_event(s.last()));
        }
        // Old filters only grow; the possibly new day's group holds the last
        // event.
        assert forall|k: int|
            0 <= k < ds.len() implies s.filter(on_day(#[trigger] ds[k])).len() > 0 by {
            let d = ds[k];
            assert(on_day(d)(s.last()) == (day_of_event(s.last()) == d));
            if day_of_event(s.last()) == d {
                assert(s.filter(on_day(d)).len() > 0);
            } else {
                assert(k < p.len());
                assert(s.filter(on_day(d)) == t.filter(on_day(d)));
            }
        }
    }
}

/// For a sorted series the distinct days strictly ascend.
proof fn lemma_distinct_days_sorted(s: Seq<PowerEvent>)
    requires
        chronological(s),
    ensures
        forall|k1: int, k2: int|
            0 <= k1 < k2 < distinct_days_spec(s).len() ==> #[trigger] distinct_days_spec(s)[k1]
                < #[trigger] distinct_days_spec(s)[k2],
    decreases s.len(),
{
    if s.len() > 0 {
        let t = s.drop_last();
        let p = distinct_days_spec(t);
        let ds = distinct_days_spec(s);
        assert(forall|i: int| 0 <= i < t.len() ==> t[i] == s[i]);
        lemma_distinct_days_sorted(t);
        if !(p.len() > 0 && p.last() == day_of_event(s.last())) && t.len() > 0 {
            // A new day was pushed: it lies strictly after every listed day.
            lemma_distinct_days_last(t);
            assert(t.last().timestamp.minutes < s.last().timestamp.minutes);
            lemma_div_is_ordered(
                t.last().timestamp.minutes as int,
                s.last().timestamp.minutes as int,
                1440,
            );
            assert(p.last() <= day_of_event(s.last()));
        }
    }
}

/// The day groups partition the series: the days strictly ascend, every
/// event lies in the group of its own day and in no other, and no group is
/// empty.
pub proof fn lemma_daily_partition(s: Seq<PowerEvent>)
    requires
        chronological(s),
    ensures
        forall|k1: int, k2: int|
            0 <= k1 < k2 < distinct_days_spec(s).len() ==> #[trigger] distinct_days_spec(s)[k1]
                < #[trigger] distinct_days_spec(s)[k2],
        forall|x: PowerEvent| #[trigger]
            s.contains(x) <==> exists|k: int|
                0 <= k < distinct_days_spec(s).len() && #[trigger] s.filter(
                    on_day(distinct_days_spec(s)[k]),
                ).contains(x),
        forall|k: int, x: PowerEvent|
            0 <= k < distinct_days_spec(s).len() && #[trigger] s.filter(
                on_day(distinct_days_spec(s)[k]),
            ).contains(x) ==> day_of_event(x) == distinct_days_spec(s)[k],
        forall|k: int|
            0 <= k < distinct_days_spec(s).len() ==> s.filter(
                on_day(#[trigger] distinct_days_spec(s)[k]),
            ).len() > 0,
{
    let ds = distinct_days_spec(s);
    lemma_distinct_days_sorted(s);
    lemma_distinct_days_cover(s);
    assert forall|k: int, x: PowerEvent|
        0 <= k < ds.len() && #[trigger] s.filter(on_day(ds[k])).contains(x) implies day_of_event(x)
        == ds[k] by {
        lemma_filter_elems(s, on_day(ds[k]));
        let j = choose|j: int|
            0 <= j < s.filter(on_day(ds[k])).len() && s.filter(on_day(ds[k]))[j] == x;
        assert(on_day(ds[k])(x));
    }
    assert forall|x: PowerEvent| #[trigger]
        s.contains(x) implies exists|k: int|
        0 <= k < ds.len() && #[trigger] s.filter(on_day(ds[k])).contains(x) by {
        let j = choose|j: int| 0 <= j < s.len() && s[j] == x;
        assert(ds.contains(day_of_event(s[j])));
        let k = choose|k: int| 0 <= k < ds.len() && ds[k] == day_of_event(x);
        assert(on_day(ds[k])(s[j]));
        s.lemma_filter_contains(on_day(ds[k]), j);
        assert(s.filter(on_day(ds[k])).contains(x));
    }
    assert forall|x: PowerEvent|
        (exists|k: int|
            0 <= k < ds.len() && #[trigger] s.filter(on_day(ds[k])).contains(x)) implies s.contains(
        x,
    ) by {
        let k = choose|k: int| 0 <= k < ds.len() && s.filter(on_day(ds[k])).contains(x);
        lemma_filter_elems(s, on_day(ds[k]));
        let j = choose|j: int|
            0 <= j < s.filter(on_day(ds[k])).len() && s.filter(on_day(ds[k]))[j] == x;
        assert(s.contains(x));
    }
}

/// Every blackout of a sorted series lasts at least one minute: durations
/// are strictly positive.
pub proof fn lemma_blackout_durations_positive(s: Seq<PowerEvent>)
    requires
        chronological(s),
    ensures
        forall|k: int|
            0 <= k < blackouts_of(s).len() ==> (#[trigger] blackouts_of(s)[k]).duration_min >= 1,
    decreases s.len(),
{
    if s.len() >= 2 {
        let t = s.drop_last();
        assert(forall|i: int| 0 <= i < t.len() ==> t[i] == s[i]);
        lemma_blackout_durations_positive(t);
        let pre = blackouts_of(t);
        assert(forall|k: int| 0 <= k < pre.len() ==> blackouts_of(s)[k] == pre[k]);
    }
}

/// A sorted, deduplicated series has no blackouts exactly when every pair of
/// consecutive events is exactly one minute apart.
pub proof fn lemma_no_blackouts_iff_contiguous(s: Seq<PowerEvent>)
    requires
        chronological(s),
    ensures
        blackouts_of(s).len() == 0 <==> (forall|i: int|
            0 <= i < s.len() - 1 ==> #[trigger] gap_at(s, i) == 1),
    decreases s.len(),
{
    if s.len() < 2 {
        assert(blackouts_of(s).len() == 0);
    } else {
        let t = s.drop_last();
        assert(forall|i: int| 0 <= i < t.len() ==> t[i] == s[i]);
        lemma_no_blackouts_iff_contiguous(t);
        let last_gap = gap_at(s, s.len() - 2);
        assert(last_gap >= 1);
        assert(forall|i: int| 0 <= i < t.len() - 1 ==> #[trigger] gap_at(t, i) == gap_at(s, i));
        if blackouts_of(s).len() == 0 {
            assert(blackouts_of(t).len() == 0);
            assert(last_gap == 1);
            assert forall|i: int| 0 <= i < s.len() - 1 implies #[trigger] gap_at(s, i) == 1 by {
                if i < s.len() - 2 {
                    assert(gap_at(t, i) == 1);
                }
            }
        } else {
            if (forall|i: int| 0 <= i < s.len() - 1 ==> #[trigger] gap_at(s, i) == 1) {
                assert(gap_at(s, s.len() - 2) == 1);
                assert(forall|i: int| 0 <= i < t.len() - 1 ==> #[trigger] gap_at(t, i) == 1);
                assert(blackouts_of(t).len() == 0);
                assert(blackouts_of(s).len() == 0);
            }
        }
    }
}

impl<'a> VoltcraftStatistics<'a> {
    /// Wraps a borrowed event series for statistics.
    pub fn new(power_data: &'a Vec<PowerEvent>) -> (r: VoltcraftStatistics<'a>)
        ensures
            r@ == power_data@,
    {
        VoltcraftStatistics { power_data }
    }

    /// Exact aggregates over a non-empty run of events: the sums of active
    /// power, apparent power and voltage, the event count, the extreme
    /// events (each the last among ties), and the covered duration — from
    /// the earliest to the latest event plus the one minute the first sample
    /// stands for.
    pub fn compute_stats(power_items: &Vec<PowerEvent>) -> (r: PowerStats)
        requires
            power_items@.len() > 0,
            events_wf(power_items@),
        ensures
            r == power_stats_of(power_items@),
    {
        let s = power_items;
        let n = s.len();
        let mut sum_active: u128 = s[0].power_uw as u128;
        let mut sum_apparent: u128 = s[0].apparent_power_uva as u128;
        let mut sum_voltage: u128 = s[0].voltage_dv as u128;
        let mut idx_max_active: usize = 0;
        let mut idx_max_apparent: usize = 0;
        let mut idx_min_voltage: usize = 0;
        let mut idx_max_voltage: usize = 0;
        let mut idx_first: usize = 0;
        let mut idx_last: usize = 0;
        let mut i: usize = 1;
        proof {
            let t = s@.take(1);
            assert(t.drop_last() =~= Seq::<PowerEvent>::empty());
            assert(t.last() == s@[0]);
            assert(sum_of(Seq::<PowerEvent>::empty(), key_active()) == 0);
            assert(sum_of(Seq::<PowerEvent>::empty(), key_apparent()) == 0);
            assert(sum_of(Seq::<PowerEvent>::empty(), key_voltage()) == 0);
            assert(sum_of(t, key_active()) == key_active()(s@[0]));
            assert(sum_of(t, key_apparent()) == key_apparent()(s@[0]));
            assert(sum_of(t, key_voltage()) == key_voltage()(s@[0]));
            assert(key_active()(s@[0]) == s@[0].power_uw as int);
            assert(key_apparent()(s@[0]) == s@[0].apparent_power_uva as int);
            assert(key_voltage()(s@[0]) == s@[0].voltage_dv as int);
        }
        while i < n
            invariant
                1 <= i <= n,
                n == s@.len(),
                events_wf(s@),
                sum_active == sum_of(s@.take(i as int), key_active()),
                sum_apparent == sum_of(s@.take(i as int), key_apparent()),
                sum_voltage == sum_of(s@.take(i as int), key_voltage()),
                idx_max_active == last_max_idx(s@.take(i as int), key_active()),
                idx_max_apparent == last_max_idx(s@.take(i as int), key_apparent()),
                idx_min_voltage == last_min_idx(s@.take(i as int), key_voltage()),
                idx_max_voltage == last_max_idx(s@.take(i as int), key_voltage()),
                idx_first == last_min_idx(s@.take(i as int), key_minutes()),
                idx_last == last_max_idx(s@.take(i as int), key_minutes()),
                idx_max_active < i,
                idx_max_apparent < i,
                idx_min_voltage < i,
                idx_max_voltage < i,
                idx_first < i,
                idx_last < i,
            decreases n - i,
        {
            proof {
                let t = s@.take(i as int);
                let t1 = s@.take(i as int + 1);
                assert(t1.drop_last() =~= t);
                assert(t1.last() == s@[i as int]);
                assert(forall|j: int| 0 <= j < t.len() ==> t[j] == s@[j]);
                assert(forall|j: int| 0 <= j < t1.len() ==> t1[j] == s@[j]);
                lemma_sum_of_bounds(t, key_active(), u64::MAX as int);
                lemma_sum_of_bounds(t, key_apparent(), u64::MAX as int);
                lemma_sum_of_bounds(t, key_voltage(), u64::MAX as int);
                assert(i as int * (u64::MAX as int) + u64::MAX as int <= u128::MAX as int)
                    by (nonlinear_arith)
                    requires
                        i as int <= u64::MAX as int,
                ;
            }
            let e = s[i];
            sum_active = sum_active + e.power_uw as u128;
            sum_apparent = sum_apparent + e.apparent_power_uva as u128;
            sum_voltage = sum_voltage + e.voltage_dv as u128;
            if e.power_uw >= s[idx_max_active].power_uw {
                idx_max_active = i;
            }
            if e.apparent_power_uva >= s[idx_max_apparent].apparent_power_uva {
                idx_max_apparent = i;
            }
            if e.voltage_dv <= s[idx_min_voltage].voltage_dv {
                idx_min_voltage = i;
            }
            if e.voltage_dv >= s[idx_max_voltage].voltage_dv {
                idx_max_voltage = i;
            }
            if e.timestamp.minutes <= s[idx_first].timestamp.minutes {
                idx_first = i;
            }
            if e.timestamp.minutes >= s[idx_last].timestamp.minutes {
                idx_last = i;
            }
            i = i + 1;
        }
        proof {
            assert(s@.take(n as int) =~= s@);
            lemma_last_min_idx_props(s@, key_minutes());
            lemma_last_max_idx_props(s@, key_minutes());
            assert(key_minutes()(s@[idx_last as int]) >= key_minutes()(s@[idx_first as int]));
            assert(s@[idx_last as int].timestamp.wf());
        }
        let first_minutes = s[idx_first].timestamp.minutes;
        let last_minutes = s[idx_last].timestamp.minutes;
        PowerStats {
            active_power_sum_uw: sum_active,
            apparent_power_sum_uva: sum_apparent,
            voltage_sum_dv: sum_voltage,
            event_count: n,
            max_active_power: s[idx_max_active],
            max_apparent_power: s[idx_max_apparent],
            min_voltage: s[idx_min_voltage],
            max_voltage: s[idx_max_voltage],
            total_duration_min: last_minutes - first_minutes + 1,
        }
    }
}

impl<'a> VoltcraftStatistics<'a> {
    /// The distinct calendar days of the series (day counts from January 1,
    /// 1 CE), collapsing consecutive repetitions; ascending for a sorted
    /// series.
    pub fn distinct_days(&self) -> (r: Vec<u64>)
        ensures
            r@.len() == distinct_days_spec(self@).len(),
            forall|k: int| 0 <= k < r@.len() ==> r@[k] as int == distinct_days_spec(self@)[k],
    {
        let s = self.power_data;
        let n = s.len();
        let mut days: Vec<u64> = Vec::new();
        let mut i: usize = 0;
        proof {
            assert(s@.take(0) =~= Seq::<PowerEvent>::empty());
        }
        while i < n
            invariant
                i <= n,
                n == s@.len(),
                days@.len() == distinct_days_spec(s@.take(i as int)).len(),
                forall|k: int|
                    0 <= k < days@.len() ==> days@[k] as int == distinct_days_spec(
                        s@.take(i as int),
                    )[k],
            decreases n - i,
        {
            proof {
                let t1 = s@.take(i as int + 1);
                assert(t1.drop_last() =~= s@.take(i as int));
                assert(t1.last() == s@[i as int]);
            }
            let day: u64 = s[i].timestamp.minutes / 1440;
            if days.len() == 0 {
                days.push(day);
            } else {
                let last_day = days[days.len() - 1];
                if last_day != day {
                    days.push(day);
                }
            }
            i = i + 1;
        }
        proof {
            assert(s@.take(n as int) =~= s@);
        }
        days
    }

    /// The events of the series that fall on day `day`, in order.
    pub fn filter_power_data(&self, day: u64) -> (r: Vec<PowerEvent>)
        ensures
            r@ == self@.filter(on_day(day as int)),
            forall|j: int| 0 <= j < r@.len() ==> self@.contains(#[trigger] r@[j]),
    {
        let s = self.power_data;
        let n = s.len();
        let mut out: Vec<PowerEvent> = Vec::new();
        let mut i: usize = 0;
        proof {
            reveal(Seq::filter);
            assert(s@.take(0) =~= Seq::<PowerEvent>::empty());
        }
        while i < n
            invariant
                i <= n,
                n == s@.len(),
                out@ == s@.take(i as int).filter(on_day(day as int)),
                forall|j: int| 0 <= j < out@.len() ==> s@.contains(#[trigger] out@[j]),
            decreases n - i,
        {
            proof {
                reveal(Seq::filter);
                let t1 = s@.take(i as int + 1);
                assert(t1.drop_last() =~= s@.take(i as int));
                assert(t1.last() == s@[i as int]);
                assert(on_day(day as int)(s@[i as int]) == (day_of_event(s@[i as int]) == day
                    as int));
            }
            if s[i].timestamp.minutes / 1440 == day {
                out.push(s[i]);
            }
            i = i + 1;
        }
        proof {
            assert(s@.take(n as int) =~= s@);
        }
        out
    }

    /// Aggregates per calendar day: one entry per distinct day of the
    /// series, ascending, each with the exact aggregates over that day's
    /// events.
    pub fn daily_stats(&self) -> (r: Vec<DailyPowerInfo>)
        requires
            well_formed_series(self@),
        ensures
            r@.len() == distinct_days_spec(self@).len(),
            forall|k: int|
                0 <= k < r@.len() ==> (#[trigger] r@[k]).date as int == distinct_days_spec(self@)[k]
                    && r@[k].stats == power_stats_of(
                    self@.filter(on_day(distinct_days_spec(self@)[k])),
                ),
    {
        let days = self.distinct_days();
        let mut out: Vec<DailyPowerInfo> = Vec::new();
        let mut k: usize = 0;
        while k < days.len()
            invariant
                well_formed_series(self@),
                k <= days@.len(),
                days@.len() == distinct_days_spec(self@).len(),
                forall|j: int| 0 <= j < days@.len() ==> days@[j] as int == distinct_days_spec(self@)[j],
                out@.len() == k,
                forall|j: int|
                    0 <= j < k ==> (#[trigger] out@[j]).date == days@[j] && out@[j].stats
                        == power_stats_of(self@.filter(on_day(days@[j] as int))),
            decreases days@.len() - k,
        {
            let group = self.filter_power_data(days[k]);
            proof {
                lemma_distinct_days_cover(self@);
                assert(self@.filter(on_day(distinct_days_spec(self@)[k as int])).len() > 0);
                assert forall|j: int|
                    0 <= j < group@.len() implies (#[trigger] group@[j]).timestamp.wf() by {
                    assert(self@.contains(group@[j]));
                    let w = choose|w: int| 0 <= w < self@.len() && self@[w] == group@[j];
                    assert(self@[w].timestamp.wf());
                }
            }
            let stats = VoltcraftStatistics::compute_stats(&group);
            out.push(DailyPowerInfo { date: days[k], stats });
            k = k + 1;
        }
        out
    }

    /// Aggregates over the whole series: its first and last timestamp, the
    /// exact aggregates of all events, and — when the series spans at least
    /// one full day — the average daily consumption as an exact ratio.
    /// Requested over zero events, it fails with `EmptyInput`.
    pub fn overall_stats(&self) -> (r: Result<OverallPowerInfo, StatsError>)
        requires
            well_formed_series(self@),
        ensures
            match r {
                Ok(o) => {
                    let span = self@.last().timestamp.minutes - self@[0].timestamp.minutes;
                    &&& self@.len() > 0
                    &&& o.start == self@[0].timestamp
                    &&& o.end == self@.last().timestamp
                    &&& o.stats == power_stats_of(self@)
                    &&& (o.avg_daily_power_consumption is Some <==> span >= 1440)
                    &&& (o.avg_daily_power_consumption is Some
                        ==> o.avg_daily_power_consumption->Some_0 == DailyAverage {
                        active_energy_uw_min: power_stats_of(self@).active_power_sum_uw,
                        span_min: span as u64,
                    })
                },
                Err(e) => e == StatsError::EmptyInput && self@.len() == 0,
            },
    {
        let s = self.power_data;
        let n = s.len();
        if n == 0 {
            return Err(StatsError::EmptyInput);
        }
        let stats = VoltcraftStatistics::compute_stats(s);
        let start = s[0].timestamp;
        let end = s[n - 1].timestamp;
        proof {
            if n >= 2 {
                assert(s@[0].timestamp.minutes < s@[n - 1].timestamp.minutes);
            }
        }
        let span = end.minutes - start.minutes;
        let avg_daily_power_consumption = if span >= 1440 {
            Some(
                DailyAverage {
                    active_energy_uw_min: stats.active_power_sum_uw,
                    span_min: span,
                },
            )
        } else {
            None
        };
        Ok(
            OverallPowerInfo {
                start,
                end,
                stats,
                avg_daily_power_consumption,
            },
        )
    }

    /// Scans consecutive event pairs of the sorted series and reports every
    /// gap of more than one minute as a blackout, with their count and the
    /// sum of their lengths. A gap of exactly one minute — the sampling
    /// cadence — is never a blackout.
    pub fn blackout_stats(&self) -> (r: BlackoutInfo)
        requires
            chronological(self@),
        ensures
            r.blackouts@ == blackouts_of(self@),
            r.blackout_count == blackouts_of(self@).len(),
            r.total_blackout_duration_min == total_blackout_minutes(blackouts_of(self@)),
    {
        let s = self.power_data;
        let n = s.len();
        let mut blackouts: Vec<PowerBlackout> = Vec::new();
        let mut total: u64 = 0;
        if n == 0 {
            return BlackoutInfo {
                blackout_count: 0,
                total_blackout_duration_min: 0,
                blackouts,
            };
        }
        let mut i: usize = 1;
        while i < n
            invariant
                1 <= i <= n,
                n == s@.len(),
                chronological(s@),
                blackouts@ == blackouts_of(s@.take(i as int)),
                total == total_blackout_minutes(blackouts@),
                total <= s@[i - 1].timestamp.minutes - s@[0].timestamp.minutes,
            decreases n - i,
        {
            proof {
                let t1 = s@.take(i as int + 1);
                assert(t1.drop_last() =~= s@.take(i as int));
                assert(forall|j: int| 0 <= j < t1.len() ==> t1[j] == s@[j]);
                assert(s@[i - 1].timestamp.minutes < s@[i as int].timestamp.minutes);
                assert(s@[0].timestamp.minutes <= s@[i - 1].timestamp.minutes);
                assert(chronological(t1));
                assert(gap_at(t1, i - 1) == s@[i as int].timestamp.minutes as int - s@[i
                    - 1].timestamp.minutes as int);
            }
            let prev = s[i - 1].timestamp.minutes;
            let cur = s[i].timestamp.minutes;
            if cur - prev > 1 {
                let b = PowerBlackout {
                    timestamp: Timestamp { minutes: prev + 1 },
                    duration_min: cur - prev - 1,
                };
                proof {
                    let t1 = s@.take(i as int + 1);
                    let pre = blackouts_of(s@.take(i as int));
                    assert(blackouts_of(t1) =~= pre.push(b));
                    assert(pre.push(b).drop_last() =~= pre);
                }
                blackouts.push(b);
                total = total + (cur - prev - 1);
            } else {
                proof {
                    let t1 = s@.take(i as int + 1);
                    assert(blackouts_of(t1) =~= blackouts_of(s@.take(i as int)));
                }
            }
            i = i + 1;
        }
        proof {
            assert(s@.take(n as int) =~= s@);
        }
        BlackoutInfo {
            blackout_count: blackouts.len(),
            total_blackout_duration_min: total,
            blackouts,
        }
    }
}

impl<'a> View for VoltcraftStatistics<'a> {
    type V = Seq<PowerEvent>;

    closed spec fn view(&self) -> Seq<PowerEvent> {
        self.power_data@
    }
}

} // verus!
