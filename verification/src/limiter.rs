//! Rate-limit setpoints and the per-group sub-limiter model.

use vstd::prelude::*;

use crate::arith::{cap64, mul_div, sat_add, sat_sub};

verus! {

/// The two resource dimensions the loop adjusts, processed independently.
/// CPU is measured in microseconds per second, I/O in bytes per second.
#[derive(Clone, Copy, PartialEq, Eq, Structural, Debug)]
pub enum ResourceType {
    Cpu,
    Io,
}

impl ResourceType {
    /// Lower-case tag of the dimension, as used in warnings.
    pub fn name(&self) -> (r: &'static str)
        ensures
            *self is Cpu ==> r@ == "cpu"@,
            *self is Io ==> r@ == "io"@,
    {
        match *self {
            ResourceType::Cpu => "cpu",
            ResourceType::Io => "io",
        }
    }

    /// The other dimension.
    pub open spec fn spec_other(self) -> ResourceType {
        match self {
            ResourceType::Cpu => ResourceType::Io,
            ResourceType::Io => ResourceType::Cpu,
        }
    }
}

/// Process-wide measurement of one dimension: the configured cap and the
/// amount currently in use, both in the dimension's base unit per second.
/// `total_quota == 0` means the dimension is unbounded at the system level.
#[derive(Clone, Copy, PartialEq, Eq, Structural, Debug)]
pub struct ResourceUsageStats {
    pub total_quota: u64,
    pub current_used: u64,
}

/// Cumulative consumption counters reported by a sub-limiter. Both counters
/// are monotone while the limiter lives; the adjuster only consumes deltas.
#[derive(Clone, Copy, PartialEq, Eq, Structural, Debug)]
pub struct GroupStatistics {
    pub total_consumed: u64,
    pub total_wait_dur_us: u64,
}

impl GroupStatistics {
    /// The all-zero counter pair.
    pub fn zero() -> (r: GroupStatistics)
        ensures
            r.total_consumed == 0,
            r.total_wait_dur_us == 0,
    {
        GroupStatistics { total_consumed: 0, total_wait_dur_us: 0 }
    }

    /// Pointwise difference against an earlier sample, clamped at zero: a
    /// counter that appears to have decreased signals a limiter reset and
    /// contributes no delta for this tick.
    pub fn saturating_delta(&self, prev: &GroupStatistics) -> (r: GroupStatistics)
        ensures
            r == spec_saturating_delta(*self, *prev),
    {
        GroupStatistics {
            total_consumed: sat_sub(self.total_consumed, prev.total_consumed),
            total_wait_dur_us: sat_sub(self.total_wait_dur_us, prev.total_wait_dur_us),
        }
    }

    /// Pointwise scaling of a delta into a per-second rate, given the time
    /// that passed in milliseconds.
    pub fn per_second(&self, dur_ms: u64) -> (r: GroupStatistics)
        requires
            dur_ms > 0,
        ensures
            r == spec_per_second(*self, dur_ms as int),
    {
        GroupStatistics {
            total_consumed: mul_div(self.total_consumed, 1000, dur_ms),
            total_wait_dur_us: mul_div(self.total_wait_dur_us, 1000, dur_ms),
        }
    }
}

/// `GroupStatistics::saturating_delta` as a mathematical function.
pub open spec fn spec_saturating_delta(cur: GroupStatistics, prev: GroupStatistics) -> GroupStatistics {
    GroupStatistics {
        total_consumed: if cur.total_consumed >= prev.total_consumed {
            (cur.total_consumed - prev.total_consumed) as u64
        } else {
            0u64
        },
        total_wait_dur_us: if cur.total_wait_dur_us >= prev.total_wait_dur_us {
            (cur.total_wait_dur_us - prev.total_wait_dur_us) as u64
        } else {
            0u64
        },
    }
}

/// `GroupStatistics::per_second` as a mathematical function.
pub open spec fn spec_per_second(d: GroupStatistics, dur_ms: int) -> GroupStatistics {
    GroupStatistics {
        total_consumed: cap64(d.total_consumed as int * 1000 / dur_ms) as u64,
        total_wait_dur_us: cap64(d.total_wait_dur_us as int * 1000 / dur_ms) as u64,
    }
}

/// A per-second allowance written to a sub-limiter. `Unlimited` means
/// uncapped; a `Limited` setpoint is always a finite non-negative amount.
#[derive(Clone, Copy, PartialEq, Eq, Structural, Debug)]
pub enum RateLimit {
    Unlimited,
    Limited(u64),
}

impl RateLimit {
    /// The rate used when pricing throttled time: an uncapped limiter
    /// contributes nothing, so `Unlimited` counts as zero.
    pub open spec fn spec_cost_rate(self) -> int {
        match self {
            RateLimit::Unlimited => 0,
            RateLimit::Limited(v) => v as int,
        }
    }

    /// Executable form of `spec_cost_rate`.
    pub fn cost_rate(&self) -> (r: u64)
        ensures
            r as int == self.spec_cost_rate(),
    {
        match *self {
            RateLimit::Unlimited => 0,
            RateLimit::Limited(v) => v,
        }
    }
}

/// One sub-limiter: the current setpoint plus cumulative counters. The
/// adjuster reads the counters and writes the setpoint; `consume` models
/// the work that the rest of the system reports to the limiter.
#[derive(Clone, Copy, PartialEq, Eq, Structural, Debug)]
pub struct QuotaLimiter {
    pub rate_limit: RateLimit,
    pub statistics: GroupStatistics,
}

impl QuotaLimiter {
    /// A fresh sub-limiter: uncapped, with zeroed counters.
    pub fn new() -> (r: QuotaLimiter)
        ensures
            r.rate_limit == RateLimit::Unlimited,
            r.statistics.total_consumed == 0,
            r.statistics.total_wait_dur_us == 0,
    {
        QuotaLimiter { rate_limit: RateLimit::Unlimited, statistics: GroupStatistics::zero() }
    }

    /// Current setpoint.
    pub fn get_rate_limit(&self) -> (r: RateLimit)
        ensures
            r == self.rate_limit,
    {
        self.rate_limit
    }

    /// Writes a new setpoint; the counters are untouched.
    pub fn set_rate_limit(&mut self, l: RateLimit)
        ensures
            final(self).rate_limit == l,
            final(self).statistics == old(self).statistics,
    {
        self.rate_limit = l;
    }

    /// Cumulative counters.
    pub fn get_statistics(&self) -> (r: GroupStatistics)
        ensures
            r == self.statistics,
    {
        self.statistics
    }

    /// Records `v` units of work: the consumed counter grows by `v`
    /// (saturating), and if the limiter is capped the wait counter grows by
    /// the time, in microseconds, that `v` units take at the current rate.
    /// A capped rate of zero stalls the consumer indefinitely, so the wait
    /// counter saturates.
    pub fn consume(&mut self, v: u64)
        ensures
            *final(self) == spec_consume(*old(self), v),
    {
        self.statistics.total_consumed = sat_add(self.statistics.total_consumed, v);
        match self.rate_limit {
            RateLimit::Unlimited => {
            },
            RateLimit::Limited(rl) => {
                if rl > 0 {
                    let wait: u64 = mul_div(v, 1_000_000, rl);
                    self.statistics.total_wait_dur_us = sat_add(
                        self.statistics.total_wait_dur_us,
                        wait,
                    );
                } else {
                    self.statistics.total_wait_dur_us = u64::MAX;
                }
            },
        }
    }
}

/// `QuotaLimiter::consume` as a mathematical function.
pub open spec fn spec_consume(q: QuotaLimiter, v: u64) -> QuotaLimiter {
    let consumed = cap64(q.statistics.total_consumed + v) as u64;
    let wait = match q.rate_limit {
        RateLimit::Unlimited => q.statistics.total_wait_dur_us,
        RateLimit::Limited(rl) => if rl > 0 {
            cap64(q.statistics.total_wait_dur_us + cap64(v as int * 1_000_000 / rl as int)) as u64
        } else {
            u64::MAX
        },
    };
    QuotaLimiter {
        rate_limit: q.rate_limit,
        statistics: GroupStatistics { total_consumed: consumed, total_wait_dur_us: wait },
    }
}

/// A fresh limiter value: both dimensions uncapped with zeroed counters.
pub open spec fn spec_fresh_limiter() -> ResourceLimiter {
    ResourceLimiter {
        cpu_limiter: QuotaLimiter {
            rate_limit: RateLimit::Unlimited,
            statistics: GroupStatistics { total_consumed: 0, total_wait_dur_us: 0 },
        },
        io_limiter: QuotaLimiter {
            rate_limit: RateLimit::Unlimited,
            statistics: GroupStatistics { total_consumed: 0, total_wait_dur_us: 0 },
        },
    }
}

/// A group's limiter handle: one sub-limiter per resource dimension.
#[derive(Clone, Copy, PartialEq, Eq, Structural, Debug)]
pub struct ResourceLimiter {
    pub cpu_limiter: QuotaLimiter,
    pub io_limiter: QuotaLimiter,
}

impl ResourceLimiter {
    /// A fresh limiter: both dimensions uncapped with zeroed counters.
    pub fn new() -> (r: ResourceLimiter)
        ensures
            r == spec_fresh_limiter(),
    {
        ResourceLimiter { cpu_limiter: QuotaLimiter::new(), io_limiter: QuotaLimiter::new() }
    }

    /// The sub-limiter of one dimension.
    pub open spec fn spec_sub(self, t: ResourceType) -> QuotaLimiter {
        match t {
            ResourceType::Cpu => self.cpu_limiter,
            ResourceType::Io => self.io_limiter,
        }
    }

    /// Reads the setpoint of one dimension.
    pub fn get_rate_limit(&self, t: ResourceType) -> (r: RateLimit)
        ensures
            r == self.spec_sub(t).rate_limit,
    {
        match t {
            ResourceType::Cpu => self.cpu_limiter.get_rate_limit(),
            ResourceType::Io => self.io_limiter.get_rate_limit(),
        }
    }

    /// Writes the setpoint of one dimension; everything else is untouched.
    pub fn set_rate_limit(&mut self, t: ResourceType, l: RateLimit)
        ensures
            final(self).spec_sub(t).rate_limit == l,
            final(self).spec_sub(t).statistics == old(self).spec_sub(t).statistics,
            final(self).spec_sub(t.spec_other()) == old(self).spec_sub(t.spec_other()),
    {
        match t {
            ResourceType::Cpu => self.cpu_limiter.set_rate_limit(l),
            ResourceType::Io => self.io_limiter.set_rate_limit(l),
        }
    }

    /// Reads the cumulative counters of one dimension.
    pub fn get_statistics(&self, t: ResourceType) -> (r: GroupStatistics)
        ensures
            r == self.spec_sub(t).statistics,
    {
        match t {
            ResourceType::Cpu => self.cpu_limiter.get_statistics(),
            ResourceType::Io => self.io_limiter.get_statistics(),
        }
    }

    /// Records work against both dimensions: `cpu_dur_us` microseconds of
    /// CPU time and `io_bytes` bytes of I/O.
    pub fn consume(&mut self, cpu_dur_us: u64, io_bytes: u64)
        ensures
            final(self).cpu_limiter == spec_consume(old(self).cpu_limiter, cpu_dur_us),
            final(self).io_limiter == spec_consume(old(self).io_limiter, io_bytes),
    {
        self.cpu_limiter.consume(cpu_dur_us);
        self.io_limiter.consume(io_bytes);
    }
}

} // verus!
