use perfdiff::counters::{measure_from_raw, scale};
use perfdiff::RawCount;

#[test]
fn identity_when_fully_scheduled() {
    let c = RawCount { count: 12345, time_enabled: 777, time_running: 777 };
    assert_eq!(scale(c), 12345);
}

#[test]
fn identity_with_zero_times() {
    let c = RawCount { count: 42, time_enabled: 0, time_running: 0 };
    assert_eq!(scale(c), 42);
}

#[test]
fn extrapolates_partial_scheduling() {
    let c = RawCount { count: 100, time_enabled: 1000, time_running: 250 };
    assert_eq!(scale(c), 400);
}

#[test]
fn extrapolation_floors() {
    let c = RawCount { count: 1, time_enabled: 3, time_running: 2 };
    assert_eq!(scale(c), 1);
}

#[test]
fn extrapolation_wide_arithmetic() {
    // count * time_enabled overflows u64 but not the wide intermediate.
    let c = RawCount { count: u64::MAX / 2, time_enabled: 4, time_running: 2 };
    assert_eq!(scale(c), (u64::MAX / 2) * 2);
}

#[test]
fn extrapolation_truncates_to_counter_width() {
    let c = RawCount { count: u64::MAX, time_enabled: 2, time_running: 1 };
    // (2^64 - 1) * 2 truncated to 64 bits is 2^64 - 2.
    assert_eq!(scale(c), u64::MAX - 1);
}

#[test]
fn never_scheduled_scales_to_zero() {
    let c = RawCount { count: 5, time_enabled: 10, time_running: 0 };
    assert_eq!(scale(c), 0);
}

#[test]
fn measure_takes_enabled_time_of_ref_cycles() {
    let rc = RawCount { count: 100, time_enabled: 1000, time_running: 500 };
    let ins = RawCount { count: 30, time_enabled: 900, time_running: 900 };
    let m = measure_from_raw(rc, ins);
    assert_eq!(m.ref_cycles, 200);
    assert_eq!(m.instructions, 30);
    assert_eq!(m.cpu_time, 1000);
}
