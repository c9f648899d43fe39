//! Timestamps and chunk intervals.
//!
//! Absolute timestamps count from the Unix epoch with one-microsecond
//! resolution. Within a chunk, records carry compact timestamps measured in
//! microseconds from the chunk's whole-second base time. A chunk interval is
//! the half-open wall-clock range `[start, end)` that one chunk is
//! responsible for.

use vstd::prelude::*;

verus! {

/// Number of microseconds in one second.
pub const MICROS_PER_SEC: u64 = 1_000_000;

/// A timestamp measured from the Unix epoch.
///
/// Valid values keep the sub-second component strictly below one second.
#[derive(Debug, Clone, Copy, Hash, PartialEq, Eq, Structural)]
pub struct AbsTimestamp {
    /// Whole seconds component of the timestamp, measured from the Unix epoch.
    pub secs: u64,
    /// Sub-second component of the timestamp, measured in microseconds.
    pub subsec_micros: u32,
}

impl AbsTimestamp {
    /// A valid timestamp's sub-second component is less than one second.
    pub open spec fn is_valid(&self) -> bool {
        self.subsec_micros < MICROS_PER_SEC
    }

    /// The timestamp as a total number of microseconds since the Unix epoch.
    pub open spec fn as_micros_spec(&self) -> int {
        self.secs * MICROS_PER_SEC + self.subsec_micros
    }

    /// Whether `self` is at or before `other` in wall-clock order.
    pub open spec fn le_spec(&self, other: &AbsTimestamp) -> bool {
        self.as_micros_spec() <= other.as_micros_spec()
    }

    /// Compare two timestamps in wall-clock order.
    pub fn le(&self, other: &AbsTimestamp) -> (r: bool)
        requires
            self.is_valid(),
            other.is_valid(),
        ensures
            r == self.le_spec(other),
    {
        proof {
            assert(self.le_spec(other) <==> (self.secs < other.secs || (self.secs
                == other.secs && self.subsec_micros <= other.subsec_micros)))
                by (nonlinear_arith)
                requires
                    self.subsec_micros < MICROS_PER_SEC,
                    other.subsec_micros < MICROS_PER_SEC,
            ;
        }
        self.secs < other.secs || (self.secs == other.secs && self.subsec_micros
            <= other.subsec_micros)
    }
}

/// A timestamp measured from the Unix epoch, in whole seconds.
///
/// Used as the base time of a chunk: every record assigned to the chunk
/// occurs at or after this time.
#[derive(Debug, Clone, Copy, Hash, PartialEq, Eq, Structural)]
pub struct AbsTimestampSecs {
    /// Whole seconds component of the timestamp, measured from the Unix epoch.
    pub secs: u64,
}

impl AbsTimestampSecs {
    /// The base time at the epoch itself.
    pub fn zero() -> (r: AbsTimestampSecs)
        ensures
            r.secs == 0,
    {
        AbsTimestampSecs { secs: 0 }
    }

    /// Truncate an absolute timestamp to its whole-second component.
    pub fn from_timestamp(value: &AbsTimestamp) -> (r: AbsTimestampSecs)
        ensures
            r.secs == value.secs,
    {
        AbsTimestampSecs { secs: value.secs }
    }

    /// The base time as microseconds since the Unix epoch.
    pub fn as_micros(&self) -> (r: u64)
        requires
            self.secs * MICROS_PER_SEC <= u64::MAX,
        ensures
            r == self.secs * MICROS_PER_SEC,
    {
        self.secs * MICROS_PER_SEC
    }
}

/// A timestamp within a chunk.
///
/// A chunk timestamp represents the time of a record with respect to the
/// chunk's base time. It is stored as the number of microseconds since the
/// base time. All records within a chunk occur at the base time or afterwards.
#[derive(Debug, Clone, Copy, Hash, PartialEq, Eq, Structural)]
pub struct ChunkTimestamp {
    /// Microseconds since the chunk's base time.
    pub micros: u64,
}

impl ChunkTimestamp {
    /// The chunk timestamp at the chunk's base time itself.
    pub fn zero() -> (r: ChunkTimestamp)
        ensures
            r.micros == 0,
    {
        ChunkTimestamp { micros: 0 }
    }

    /// Create a chunk timestamp a number of microseconds after the base time.
    pub fn new(micros: u64) -> (r: ChunkTimestamp)
        ensures
            r.micros == micros,
    {
        ChunkTimestamp { micros }
    }

    /// The chunk-relative value of `timestamp` with respect to `base_time`.
    pub open spec fn from_base_spec(base_time: AbsTimestampSecs, timestamp: AbsTimestamp) -> int {
        (timestamp.secs - base_time.secs) * MICROS_PER_SEC + timestamp.subsec_micros
    }

    /// Create a new chunk timestamp from a base time and an absolute timestamp.
    ///
    /// The timestamp must not lie before the base time, and the distance
    /// between the two must fit in a `u64` number of microseconds.
    pub fn from_base_and_timestamp(base_time: AbsTimestampSecs, timestamp: &AbsTimestamp) -> (r:
        ChunkTimestamp)
        requires
            timestamp.secs >= base_time.secs,
            Self::from_base_spec(base_time, *timestamp) <= u64::MAX,
        ensures
            r.micros == Self::from_base_spec(base_time, *timestamp),
    {
        let secs: u64 = timestamp.secs - base_time.secs;
        proof {
            assert(secs * MICROS_PER_SEC + timestamp.subsec_micros == Self::from_base_spec(
                base_time, *timestamp)) by (nonlinear_arith)
                requires
                    secs == timestamp.secs - base_time.secs,
            ;
        }
        ChunkTimestamp { micros: secs * MICROS_PER_SEC + timestamp.subsec_micros as u64 }
    }

    /// The absolute timestamp denoted by a chunk timestamp over `base_time`.
    pub open spec fn to_abs_spec(&self, base_time: AbsTimestampSecs) -> AbsTimestamp {
        AbsTimestamp {
            secs: (base_time.secs + self.micros / MICROS_PER_SEC) as u64,
            subsec_micros: (self.micros % MICROS_PER_SEC) as u32,
        }
    }

    /// Convert to an absolute timestamp, given the base time of this chunk.
    pub fn to_abs_timestamp(&self, base_time: AbsTimestampSecs) -> (r: AbsTimestamp)
        requires
            base_time.secs + self.micros / MICROS_PER_SEC <= u64::MAX,
        ensures
            r == self.to_abs_spec(base_time),
            r.is_valid(),
    {
        AbsTimestamp {
            secs: base_time.secs + self.micros / MICROS_PER_SEC,
            subsec_micros: (self.micros % MICROS_PER_SEC) as u32,
        }
    }
}

/// Converting an absolute timestamp to a chunk timestamp and back returns the
/// original timestamp, for any valid timestamp at or after the base time.
pub proof fn lemma_chunk_timestamp_round_trip(base_time: AbsTimestampSecs, timestamp: AbsTimestamp)
    requires
        timestamp.is_valid(),
        timestamp.secs >= base_time.secs,
        ChunkTimestamp::from_base_spec(base_time, timestamp) <= u64::MAX,
    ensures
        (ChunkTimestamp {
            micros: ChunkTimestamp::from_base_spec(base_time, timestamp) as u64,
        }).to_abs_spec(base_time) == timestamp,
{
    let delta = (timestamp.secs - base_time.secs) as int;
    let micros = ChunkTimestamp::from_base_spec(base_time, timestamp);
    assert(micros == delta * MICROS_PER_SEC + timestamp.subsec_micros);
    assert(micros / MICROS_PER_SEC as int == delta && micros % MICROS_PER_SEC as int
        == timestamp.subsec_micros) by (nonlinear_arith)
        requires
            micros == delta * MICROS_PER_SEC + timestamp.subsec_micros,
            0 <= timestamp.subsec_micros < MICROS_PER_SEC,
            delta >= 0,
    ;
}

/// A timestamp measured from the beginning of a recording window, in
/// microseconds.
#[derive(Debug, Clone, Copy, Hash, PartialEq, Eq, Structural)]
pub struct WinTimestamp {
    /// The total number of microseconds since the beginning of the window.
    pub micros: u64,
}

impl WinTimestamp {
    /// The window timestamp at the start of the window itself.
    pub fn zero() -> (r: WinTimestamp)
        ensures
            r.micros == 0,
    {
        WinTimestamp { micros: 0 }
    }

    /// The window timestamp as a number of microseconds.
    pub fn as_micros(&self) -> (r: u64)
        ensures
            r == self.micros,
    {
        self.micros
    }
}

/// The half-open wall-clock range `[start, end)` that one chunk is
/// responsible for.
///
/// The interval is anchored at a whole-second base time; its start and end
/// are chunk timestamps over that base. Two intervals are equal exactly when
/// all three fields match.
#[derive(Debug, Clone, Copy, Hash, PartialEq, Eq, Structural)]
pub struct ChunkInterval {
    /// The whole-second base time that the chunk timestamps are measured from.
    pub base_time: AbsTimestampSecs,
    /// The start of the interval, relative to the base time.
    pub start_time: ChunkTimestamp,
    /// The end of the interval, relative to the base time.
    pub end_time: ChunkTimestamp,
}

impl ChunkInterval {
    /// The whole-second base time that the interval's chunk timestamps are
    /// measured from.
    pub fn base_time(&self) -> (r: AbsTimestampSecs)
        ensures
            r == self.base_time,
    {
        self.base_time
    }

    /// The start of the interval, relative to the base time.
    pub fn start_time(&self) -> (r: ChunkTimestamp)
        ensures
            r == self.start_time,
    {
        self.start_time
    }

    /// The end of the interval, relative to the base time.
    pub fn end_time(&self) -> (r: ChunkTimestamp)
        ensures
            r == self.end_time,
    {
        self.end_time
    }

    /// A valid chunk period either divides one second evenly or is a
    /// multiple of whole seconds.
    pub open spec fn valid_period(period_micros: u64) -> bool {
        period_micros > 0 && (if period_micros >= MICROS_PER_SEC {
            period_micros % MICROS_PER_SEC == 0
        } else {
            MICROS_PER_SEC % period_micros == 0
        })
    }

    /// The interval that `timestamp` falls into, for the given period.
    ///
    /// When the period is longer than one second the base time is aligned
    /// downward to a multiple of the period and the start offset is zero;
    /// otherwise the base time is the whole-second floor of the timestamp and
    /// the start offset is the sub-second floor aligned to the period.
    pub open spec fn interval_spec(timestamp: AbsTimestamp, period_micros: u64) -> ChunkInterval {
        if period_micros > MICROS_PER_SEC {
            let period_secs = period_micros / MICROS_PER_SEC;
            let base = (timestamp.secs - timestamp.secs % period_secs) as u64;
            ChunkInterval {
                base_time: AbsTimestampSecs { secs: base },
                start_time: ChunkTimestamp { micros: 0 },
                end_time: ChunkTimestamp { micros: period_micros },
            }
        } else {
            let start = (timestamp.subsec_micros - timestamp.subsec_micros % (
            period_micros as u32)) as u64;
            ChunkInterval {
                base_time: AbsTimestampSecs { secs: timestamp.secs },
                start_time: ChunkTimestamp { micros: start },
                end_time: ChunkTimestamp { micros: (start + period_micros) as u64 },
            }
        }
    }

    /// Compute the interval that an absolute timestamp falls into, for a
    /// configured chunk period.
    pub fn from_timestamp_and_period(timestamp: AbsTimestamp, period_micros: u64) -> (r:
        ChunkInterval)
        requires
            timestamp.is_valid(),
            Self::valid_period(period_micros),
        ensures
            r == Self::interval_spec(timestamp, period_micros),
    {
        if period_micros > MICROS_PER_SEC {
            let period_secs: u64 = period_micros / MICROS_PER_SEC;
            proof {
                assert(period_micros / MICROS_PER_SEC >= 1) by (nonlinear_arith)
                    requires
                        period_micros >= MICROS_PER_SEC,
                ;
                vstd::arithmetic::div_mod::lemma_mod_decreases(timestamp.secs as nat,
                    period_secs as nat);
            }
            let base: u64 = timestamp.secs - timestamp.secs % period_secs;
            ChunkInterval {
                base_time: AbsTimestampSecs { secs: base },
                start_time: ChunkTimestamp { micros: 0 },
                end_time: ChunkTimestamp { micros: period_micros },
            }
        } else {
            proof {
                vstd::arithmetic::div_mod::lemma_mod_decreases(timestamp.subsec_micros as nat,
                    period_micros as nat);
            }
            let start: u64 = (timestamp.subsec_micros - timestamp.subsec_micros % (
            period_micros as u32)) as u64;
            ChunkInterval {
                base_time: AbsTimestampSecs { secs: timestamp.secs },
                start_time: ChunkTimestamp { micros: start },
                end_time: ChunkTimestamp { micros: start + period_micros },
            }
        }
    }

    /// The start time of the interval as an absolute timestamp.
    pub fn abs_start_time(&self) -> (r: AbsTimestamp)
        requires
            self.base_time.secs + self.start_time.micros / MICROS_PER_SEC <= u64::MAX,
        ensures
            r == self.start_time.to_abs_spec(self.base_time),
            r.is_valid(),
    {
        self.start_time.to_abs_timestamp(self.base_time)
    }

    /// The end time of the interval as an absolute timestamp.
    pub fn abs_end_time(&self) -> (r: AbsTimestamp)
        requires
            self.base_time.secs + self.end_time.micros / MICROS_PER_SEC <= u64::MAX,
        ensures
            r == self.end_time.to_abs_spec(self.base_time),
            r.is_valid(),
    {
        self.end_time.to_abs_timestamp(self.base_time)
    }
}

/// The interval computed for a timestamp contains that timestamp in
/// chunk-relative terms: the timestamp's offset from the interval's base
/// lies within `[start, end)`.
pub proof fn lemma_interval_contains_rel(timestamp: AbsTimestamp, period_micros: u64)
    requires
        timestamp.is_valid(),
        ChunkInterval::valid_period(period_micros),
    ensures
        ({
            let interval = ChunkInterval::interval_spec(timestamp, period_micros);
            let rel = ChunkTimestamp::from_base_spec(interval.base_time, timestamp);
            interval.base_time.secs <= timestamp.secs && interval.start_time.micros <= rel
                < interval.end_time.micros && interval.end_time.micros <= period_micros
                + MICROS_PER_SEC
        }),
{
    let interval = ChunkInterval::interval_spec(timestamp, period_micros);
    let rel = ChunkTimestamp::from_base_spec(interval.base_time, timestamp);
    let secs = timestamp.secs as int;
    let sub = timestamp.subsec_micros as int;
    let m1: int = MICROS_PER_SEC as int;
    if period_micros > MICROS_PER_SEC {
        let ps = (period_micros / MICROS_PER_SEC) as int;
        vstd::arithmetic::div_mod::lemma_fundamental_div_mod(period_micros as int, m1);
        assert(ps * m1 == period_micros);
        let r = secs % ps;
        vstd::arithmetic::div_mod::lemma_mod_division_less_than_divisor(secs, ps);
        vstd::arithmetic::div_mod::lemma_mod_decreases(secs as nat, ps as nat);
        assert(interval.base_time.secs == secs - r);
        assert(rel == r * m1 + sub);
        assert(r * m1 >= 0) by (nonlinear_arith)
            requires
                r >= 0,
                m1 >= 0,
        ;
        vstd::arithmetic::mul::lemma_mul_inequality(r + 1, ps, m1);
        vstd::arithmetic::mul::lemma_mul_is_distributive_add_other_way(m1, r, 1);
        assert(rel < (r + 1) * m1);
    } else {
        let p = period_micros as int;
        let r2 = sub % p;
        vstd::arithmetic::div_mod::lemma_mod_division_less_than_divisor(sub, p);
        vstd::arithmetic::div_mod::lemma_mod_decreases(sub as nat, p as nat);
        assert(rel == sub);
        assert(interval.start_time.micros == sub - r2);
        assert(interval.end_time.micros == sub - r2 + p);
    }
}

/// The interval computed for a timestamp contains that timestamp: converted
/// back to absolute time, `start <= timestamp < end`.
pub proof fn lemma_interval_contains_timestamp(timestamp: AbsTimestamp, period_micros: u64)
    requires
        timestamp.is_valid(),
        ChunkInterval::valid_period(period_micros),
        timestamp.secs + period_micros <= u64::MAX,
    ensures
        ({
            let interval = ChunkInterval::interval_spec(timestamp, period_micros);
            let start = interval.start_time.to_abs_spec(interval.base_time);
            let end = interval.end_time.to_abs_spec(interval.base_time);
            start.as_micros_spec() <= timestamp.as_micros_spec() < end.as_micros_spec()
        }),
{
    let interval = ChunkInterval::interval_spec(timestamp, period_micros);
    let start = interval.start_time.to_abs_spec(interval.base_time);
    let end = interval.end_time.to_abs_spec(interval.base_time);
    let m1: int = MICROS_PER_SEC as int;
    let secs = timestamp.secs as int;
    let sub = timestamp.subsec_micros as int;
    if period_micros > MICROS_PER_SEC {
        let ps = (period_micros / MICROS_PER_SEC) as int;
        vstd::arithmetic::div_mod::lemma_fundamental_div_mod(period_micros as int, m1);
        assert(ps * m1 == period_micros);
        let r = secs % ps;
        vstd::arithmetic::div_mod::lemma_mod_division_less_than_divisor(secs, ps);
        vstd::arithmetic::div_mod::lemma_mod_decreases(secs as nat, ps as nat);
        let base = secs - r;
        // start is at the base time itself, so it cannot exceed the timestamp
        vstd::arithmetic::div_mod::lemma_basic_div(0, m1);
        vstd::arithmetic::div_mod::lemma_small_mod(0, MICROS_PER_SEC as nat);
        assert(start.as_micros_spec() == base * m1);
        vstd::arithmetic::mul::lemma_mul_inequality(base, secs, m1);
        // the end lies a full period after the base, which is past the timestamp
        vstd::arithmetic::div_mod::lemma_mod_is_zero(period_micros as nat, MICROS_PER_SEC as nat);
        assert(period_micros % MICROS_PER_SEC == 0);
        vstd::arithmetic::div_mod::lemma_fundamental_div_mod(period_micros as int, m1);
        assert(end.as_micros_spec() == (base + ps) * m1);
        vstd::arithmetic::mul::lemma_mul_is_distributive_add_other_way(m1, base, ps);
        assert((base + ps) * m1 == base * m1 + ps * m1);
        vstd::arithmetic::mul::lemma_mul_inequality(secs + 1, base + ps, m1);
        vstd::arithmetic::mul::lemma_mul_is_distributive_add_other_way(m1, secs, 1);
        assert(timestamp.as_micros_spec() < (secs + 1) * m1);
    } else {
        let p = period_micros as int;
        let r = sub % p;
        vstd::arithmetic::div_mod::lemma_mod_division_less_than_divisor(sub, p);
        vstd::arithmetic::div_mod::lemma_mod_decreases(sub as nat, p as nat);
        let start_off = sub - r;
        // the start offset is the largest multiple of the period at or below
        // the sub-second component, so one more period stays within a second
        vstd::arithmetic::div_mod::lemma_fundamental_div_mod(sub, p);
        assert(start_off == p * (sub / p));
        vstd::arithmetic::div_mod::lemma_fundamental_div_mod(m1, p);
        assert(m1 == p * (m1 / p));
        vstd::arithmetic::div_mod::lemma_multiply_divide_lt(sub, p, m1 / p);
        assert(sub / p < m1 / p);
        vstd::arithmetic::mul::lemma_mul_inequality(sub / p + 1, m1 / p, p);
        vstd::arithmetic::mul::lemma_mul_is_commutative(sub / p + 1, p);
        vstd::arithmetic::mul::lemma_mul_is_commutative(m1 / p, p);
        vstd::arithmetic::mul::lemma_mul_is_distributive_add(p, sub / p, 1);
        assert(start_off + p <= m1);
        if start_off + p < m1 {
            vstd::arithmetic::div_mod::lemma_basic_div(start_off, m1);
            vstd::arithmetic::div_mod::lemma_small_mod(start_off as nat, MICROS_PER_SEC as nat);
            vstd::arithmetic::div_mod::lemma_basic_div(start_off + p, m1);
            vstd::arithmetic::div_mod::lemma_small_mod((start_off + p) as nat,
                MICROS_PER_SEC as nat);
            assert(start.as_micros_spec() == secs * m1 + start_off);
            assert(end.as_micros_spec() == secs * m1 + start_off + p);
        } else {
            vstd::arithmetic::div_mod::lemma_basic_div(start_off, m1);
            vstd::arithmetic::div_mod::lemma_small_mod(start_off as nat, MICROS_PER_SEC as nat);
            assert(start.as_micros_spec() == secs * m1 + start_off);
            vstd::arithmetic::div_mod::lemma_div_by_self(m1);
            vstd::arithmetic::div_mod::lemma_mod_self_0(m1);
            assert(end.as_micros_spec() == (secs + 1) * m1);
            vstd::arithmetic::mul::lemma_mul_is_distributive_add_other_way(m1, secs, 1);
            assert(end.as_micros_spec() == secs * m1 + start_off + p);
        }
        assert(start.as_micros_spec() <= timestamp.as_micros_spec());
        assert(timestamp.as_micros_spec() < end.as_micros_spec());
    }
}

} // verus!
