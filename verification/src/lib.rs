//! Background resource quota adjuster.
//!
//! A periodic control loop that re-computes per-resource-group rate limits
//! for background workloads. It consumes process-wide CPU and I/O
//! measurements together with per-group cumulative consumption counters and
//! produces new rate-limit setpoints so that background work fills whatever
//! headroom foreground traffic leaves unused.
//!
//! All quantities are integers in base units: CPU in microseconds per
//! second, I/O in bytes per second, durations in milliseconds. Weighted
//! shares are compared exactly by cross-multiplication, so the allocation
//! needs no floating point and every step of the loop is verified.

pub mod arith;
pub mod io_stats;
pub mod laws;
pub mod limiter;
pub mod prev_stats;
pub mod registry;
pub mod worker;




