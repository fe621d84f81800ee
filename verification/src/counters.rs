//! Scaling of multiplexed hardware-counter samples.
//!
//! A hardware performance counter is not always scheduled on the PMU for the
//! whole measurement window; the kernel reports, next to the raw count, how
//! long the counter was enabled and how long it actually ran. When the two
//! times differ, the raw count is extrapolated to the full window.

use vstd::prelude::*;

verus! {

/// A raw sample read from one hardware counter: the event count together
/// with the time the counter was enabled and the time it was actually
/// scheduled on the PMU. All three are non-negative integers in the
/// counter's native units.
#[derive(Clone, Copy, Debug, PartialEq, Eq, Structural)]
pub struct RawCount {
    pub count: u64,
    pub time_enabled: u64,
    pub time_running: u64,
}

/// One measurement record: the two scaled counter values for a single run of
/// the measured command, and the enabled time of the reference-cycles
/// counter (not scaled), treated as milliseconds for display.
#[derive(Clone, Copy, Debug, PartialEq, Eq, Structural)]
pub struct Measure {
    pub ref_cycles: u64,
    pub instructions: u64,
    pub cpu_time: u64,
}

/// Scaling of a multiplexed counter sample.
///
/// When the counter ran for the whole enabled window the count is exact and
/// is returned unchanged. When it ran for only part of the window the count
/// is extrapolated as `count * time_enabled / time_running`, computed in
/// wide arithmetic and truncated to the counter's 64-bit width. A counter
/// that was enabled but never scheduled (`time_running == 0` with
/// `time_enabled > 0`) produced no data at all; the sample scales to `0`.
pub open spec fn spec_scale(c: RawCount) -> u64 {
    if c.time_running < c.time_enabled {
        if c.time_running == 0 {
            0u64
        } else {
            (((c.count * c.time_enabled) / (c.time_running as int)) % 0x1_0000_0000_0000_0000) as u64
        }
    } else {
        c.count
    }
}

/// Extrapolates a raw counter sample to the full measurement window.
pub fn scale(c: RawCount) -> (r: u64)
    ensures
        r == spec_scale(c),
{
    if c.time_running < c.time_enabled {
        if c.time_running == 0 {
            0
        } else {
            proof {
                assert(c.count as int * c.time_enabled as int <= u64::MAX as int * u64::MAX as int)
                    by (nonlinear_arith)
                    requires
                        c.count <= u64::MAX,
                        c.time_enabled <= u64::MAX,
                ;
            }
            let prod: u128 = (c.count as u128) * (c.time_enabled as u128);
            let wide: u128 = prod / (c.time_running as u128);
            (wide % 0x1_0000_0000_0000_0000u128) as u64
        }
    } else {
        c.count
    }
}

/// Scaling identity: a sample whose counter ran for the whole enabled window
/// scales to its raw count unchanged.
pub proof fn lemma_scale_identity(c: RawCount)
    requires
        c.time_running == c.time_enabled,
    ensures
        spec_scale(c) == c.count,
{
}

/// Scaling extrapolation: a sample whose counter ran for only part of the
/// window scales to `floor(count * time_enabled / time_running)`, exactly,
/// whenever that quotient fits the counter's 64-bit width; the wide
/// intermediate product never overflows.
pub proof fn lemma_scale_extrapolation(c: RawCount)
    requires
        0 < c.time_running < c.time_enabled,
        c.count * c.time_enabled / (c.time_running as int) <= u64::MAX,
    ensures
        spec_scale(c) == c.count * c.time_enabled / (c.time_running as int),
{
}

/// Builds one measurement record from the raw samples of the two counters,
/// read after both were disabled at the end of the measured run: each count
/// is scaled independently, and the record's `cpu_time` is the raw enabled
/// time of the reference-cycles counter.
pub fn measure_from_raw(ref_cycles: RawCount, instructions: RawCount) -> (m: Measure)
    ensures
        m.ref_cycles == spec_scale(ref_cycles),
        m.instructions == spec_scale(instructions),
        m.cpu_time == ref_cycles.time_enabled,
{
    Measure {
        ref_cycles: scale(ref_cycles),
        instructions: scale(instructions),
        cpu_time: ref_cycles.time_enabled,
    }
}

} // verus!
