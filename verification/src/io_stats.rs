//! The I/O side of measurement: turning raw per-type byte counters into a
//! bytes-per-second usage figure.

use vstd::prelude::*;

use crate::arith::{cap64, mul_div, sat_add, sat_sub};

verus! {

/// Raw byte counters of one I/O type, cumulative since process start.
#[derive(Clone, Copy, PartialEq, Eq, Structural, Debug)]
pub struct IoBytes {
    pub read: u64,
    pub write: u64,
}

/// What one I/O type contributes between two samples: read plus write
/// growth, each clamped at zero.
pub open spec fn spec_io_delta(prev: IoBytes, cur: IoBytes) -> int {
    let dr = if cur.read >= prev.read {
        cur.read - prev.read
    } else {
        0
    };
    let dw = if cur.write >= prev.write {
        cur.write - prev.write
    } else {
        0
    };
    dr + dw
}

/// Total growth across all I/O types, accumulated saturating.
pub open spec fn spec_io_total(prev: Seq<IoBytes>, cur: Seq<IoBytes>, n: int) -> int
    decreases n,
{
    if n <= 0 {
        0
    } else {
        cap64(spec_io_total(prev, cur, n - 1) + spec_io_delta(prev[n - 1], cur[n - 1]))
    }
}

/// Tracks the last-seen I/O byte counters and when they were seen, and
/// turns a new sample into a per-second usage figure.
#[derive(Debug)]
pub struct IoRateTracker {
    pub prev_io_bytes: Vec<IoBytes>,
    pub prev_ts_ms: u64,
}

impl IoRateTracker {
    /// A fresh tracker, baselined at the given counters and time.
    pub fn new(initial: Vec<IoBytes>, now_ms: u64) -> (r: IoRateTracker)
        ensures
            r.prev_io_bytes == initial,
            r.prev_ts_ms == now_ms,
    {
        IoRateTracker { prev_io_bytes: initial, prev_ts_ms: now_ms }
    }

    /// Feeds a new sample. Under the minimum sampling interval of 100 ms
    /// the call reports zero usage and leaves the baseline alone;
    /// otherwise it reports the clamped counter growth divided by the
    /// elapsed time and advances the baseline.
    pub fn observe(&mut self, now_ms: u64, cur: &Vec<IoBytes>) -> (used: u64)
        requires
            cur@.len() == old(self).prev_io_bytes@.len(),
        ensures
            ({
                let dur = if now_ms >= old(self).prev_ts_ms {
                    now_ms - old(self).prev_ts_ms
                } else {
                    0
                };
                if dur < 100 {
                    &&& used == 0
                    &&& *final(self) == *old(self)
                } else {
                    &&& used as int == cap64(
                        spec_io_total(
                            old(self).prev_io_bytes@,
                            cur@,
                            cur@.len() as int,
                        ) * 1000 / dur as int,
                    )
                    &&& final(self).prev_io_bytes@ == cur@
                    &&& final(self).prev_ts_ms == now_ms
                }
            }),
    {
        let dur_ms = if now_ms >= self.prev_ts_ms {
            now_ms - self.prev_ts_ms
        } else {
            0
        };
        if dur_ms < 100 {
            return 0;
        }
        let n = cur.len();
        let mut total: u64 = 0;
        let mut i: usize = 0;
        while i < n
            invariant
                n == cur@.len(),
                n == self.prev_io_bytes@.len(),
                i <= n,
                total as int == spec_io_total(self.prev_io_bytes@, cur@, i as int),
                *self == *old(self),
            decreases n - i,
        {
            let p = self.prev_io_bytes[i];
            let c = cur[i];
            let dr = sat_sub(c.read, p.read);
            let dw = sat_sub(c.write, p.write);
            let d = sat_add(dr, dw);
            proof {
                assert(dr + dw <= u64::MAX ==> d as int == spec_io_delta(p, c));
                assert(dr + dw > u64::MAX ==> d as int == u64::MAX);
            }
            let prev_total = total;
            total = sat_add(total, d);
            proof {
                if dr + dw > u64::MAX {
                    assert(cap64(prev_total + spec_io_delta(p, c)) == u64::MAX as int);
                }
            }
            i = i + 1;
        }
        let mut new_prev: Vec<IoBytes> = Vec::new();
        let mut j: usize = 0;
        while j < n
            invariant
                n == cur@.len(),
                j <= n,
                new_prev@ == cur@.take(j as int),
            decreases n - j,
        {
            new_prev.push(cur[j]);
            proof {
                assert(cur@.take(j as int + 1) =~= cur@.take(j as int).push(cur@[j as int]));
            }
            j = j + 1;
        }
        proof {
            assert(cur@.take(n as int) =~= cur@);
        }
        self.prev_io_bytes = new_prev;
        self.prev_ts_ms = now_ms;
        mul_div(total, 1000, dur_ms)
    }
}

} // verus!
