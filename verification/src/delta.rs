//! The relative-difference comparison between two result sets.
//!
//! For every key of the base set that the compared set also holds, the
//! report gives, per metric, the percentage change `(compared - base) /
//! base * 100`. The change is computed exactly, in integer arithmetic, as a
//! signed whole number of tenths of a percent, rounded to nearest with ties
//! away from zero. A zero base count makes the change undefined; such a
//! value is reported as the sentinel `n/a` rather than a platform-dependent
//! infinity, and is classed as a regression when the compared count grew
//! from zero, neutral when both counts are zero.

use vstd::prelude::*;
use crate::counters::Measure;
use crate::digits::dec_digits;
use crate::digits::to_dec;
use crate::result_set::Entries;
use crate::result_set::ResultSet;
use crate::result_set::spec_get;

verus! {

/// One metric's relative difference: a signed count of tenths of a percent,
/// or undefined when the base count is zero.
#[derive(Clone, Copy, Debug, PartialEq, Eq, Structural)]
pub enum Delta {
    Finite { tenths: i128 },
    Undefined,
}

/// Presentation class of one metric's change: grown by more than a tenth of
/// a percent, shrunk by more than a tenth of a percent, or neither.
#[derive(Clone, Copy, Debug, PartialEq, Eq, Structural)]
pub enum DeltaClass {
    Regression,
    Improvement,
    Neutral,
}

/// `diff * 1000 / base` rounded to nearest, ties away from zero.
pub open spec fn rounded_tenths(base: nat, diff: nat) -> nat
    recommends
        base > 0,
{
    (diff * 1000 + base / 2) / base
}

/// The relative difference of one metric, in tenths of a percent.
pub open spec fn spec_rel_diff(base: u64, compared: u64) -> Delta {
    if base == 0 {
        Delta::Undefined
    } else if compared >= base {
        Delta::Finite { tenths: rounded_tenths(base as nat, (compared - base) as nat) as i128 }
    } else {
        Delta::Finite {
            tenths: (-(rounded_tenths(base as nat, (base - compared) as nat) as int)) as i128,
        }
    }
}

/// The presentation class of one metric's change: a regression when the
/// exact change exceeds +0.1%, an improvement when it falls below -0.1%. A
/// growth from a zero base is a regression; zero to zero is neutral.
pub open spec fn spec_classify(base: u64, compared: u64) -> DeltaClass {
    if base == 0 {
        if compared > 0 {
            DeltaClass::Regression
        } else {
            DeltaClass::Neutral
        }
    } else if compared >= base && (compared - base) * 1000 > base {
        DeltaClass::Regression
    } else if base > compared && (base - compared) * 1000 > base {
        DeltaClass::Improvement
    } else {
        DeltaClass::Neutral
    }
}

/// Computes one metric's relative difference.
pub fn rel_diff(base: u64, compared: u64) -> (d: Delta)
    ensures
        d == spec_rel_diff(base, compared),
{
    if base == 0 {
        Delta::Undefined
    } else if compared >= base {
        let t: u128 = (((compared - base) as u128) * 1000 + (base as u128) / 2) / (base as u128);
        proof {
            lemma_div_le((((compared - base) as u128) * 1000 + (base as u128) / 2) as int, base as int);
        }
        Delta::Finite { tenths: t as i128 }
    } else {
        let t: u128 = (((base - compared) as u128) * 1000 + (base as u128) / 2) / (base as u128);
        proof {
            lemma_div_le((((base - compared) as u128) * 1000 + (base as u128) / 2) as int, base as int);
        }
        Delta::Finite { tenths: -(t as i128) }
    }
}

/// A non-negative value does not grow when divided by a positive one.
proof fn lemma_div_le(x: int, d: int)
    requires
        0 <= x,
        1 <= d,
    ensures
        0 <= x / d <= x,
{
    vstd::arithmetic::div_mod::lemma_div_is_ordered_by_denominator(x, 1, d);
    vstd::arithmetic::div_mod::lemma_div_basics(x);
}

/// Classifies one metric's change for presentation.
pub fn classify(base: u64, compared: u64) -> (c: DeltaClass)
    ensures
        c == spec_classify(base, compared),
{
    if base == 0 {
        if compared > 0 {
            DeltaClass::Regression
        } else {
            DeltaClass::Neutral
        }
    } else if compared >= base && ((compared - base) as u128) * 1000 > (base as u128) {
        DeltaClass::Regression
    } else if base > compared && ((base - compared) as u128) * 1000 > (base as u128) {
        DeltaClass::Improvement
    } else {
        DeltaClass::Neutral
    }
}

/// The display form of one metric's change: an explicit sign, the whole
/// percents, one decimal digit of tenths, and a percent sign; `n/a` for an
/// undefined change.
pub open spec fn spec_format_delta(d: Delta) -> Seq<u8> {
    match d {
        Delta::Undefined => seq![110u8, 47u8, 97u8],
        Delta::Finite { tenths } => {
            let sign: Seq<u8> = if tenths >= 0 {
                seq![43u8]
            } else {
                seq![45u8]
            };
            let mag = if tenths >= 0 {
                tenths as nat
            } else {
                (-tenths) as nat
            };
            sign + dec_digits(mag / 10) + seq![46u8] + seq![(48 + mag % 10) as u8] + seq![37u8]
        },
    }
}

/// Renders one metric's change, e.g. `+10.0%`, `-0.3%`, or `n/a`.
pub fn format_delta(d: &Delta) -> (r: Vec<u8>)
    ensures
        r@ == spec_format_delta(*d),
{
    match d {
        Delta::Undefined => {
            let r = vec![110u8, 47u8, 97u8];
            proof {
                assert(r@ =~= spec_format_delta(Delta::Undefined));
            }
            r
        },
        Delta::Finite { tenths } => {
            let t: i128 = *tenths;
            let mut out: Vec<u8> = Vec::new();
            let mag: u128;
            if t >= 0 {
                out.push(43u8);
                mag = t as u128;
            } else {
                out.push(45u8);
                mag = ((-(t + 1)) as u128) + 1;
            }
            proof {
                assert(mag == if t >= 0 { t as nat } else { (-t) as nat });
            }
            let mut whole = to_dec(mag / 10);
            out.append(&mut whole);
            out.push(46u8);
            out.push(48u8 + (mag % 10) as u8);
            out.push(37u8);
            proof {
                assert(out@ =~= spec_format_delta(*d));
            }
            out
        },
    }
}

/// One metric in one row of the delta report: the change and its class.
#[derive(Clone, Copy, Debug, PartialEq, Eq, Structural)]
pub struct MetricDelta {
    pub delta: Delta,
    pub class: DeltaClass,
}

/// Both facets of one metric's comparison.
pub open spec fn spec_metric(base: u64, compared: u64) -> MetricDelta {
    MetricDelta { delta: spec_rel_diff(base, compared), class: spec_classify(base, compared) }
}

/// Computes both facets of one metric's comparison.
pub fn metric_delta(base: u64, compared: u64) -> (md: MetricDelta)
    ensures
        md == spec_metric(base, compared),
{
    MetricDelta { delta: rel_diff(base, compared), class: classify(base, compared) }
}

/// One row of the delta report: a key present in both result sets and the
/// per-metric changes of its record.
pub struct DeltaRow {
    pub key: Vec<u8>,
    pub ref_cycles: MetricDelta,
    pub instructions: MetricDelta,
    pub cpu_time: MetricDelta,
}

impl View for DeltaRow {
    type V = (Seq<u8>, MetricDelta, MetricDelta, MetricDelta);

    open spec fn view(&self) -> (Seq<u8>, MetricDelta, MetricDelta, MetricDelta) {
        (self.key@, self.ref_cycles, self.instructions, self.cpu_time)
    }
}

/// The row the report holds for key `k`, base record `b`, compared record `c`.
pub open spec fn spec_row(k: Seq<u8>, b: Measure, c: Measure) -> (Seq<
    u8,
>, MetricDelta, MetricDelta, MetricDelta) {
    (
        k,
        spec_metric(b.ref_cycles, c.ref_cycles),
        spec_metric(b.instructions, c.instructions),
        spec_metric(b.cpu_time, c.cpu_time),
    )
}

/// The delta report of two result sets: one row per key of the base set
/// that the compared set also holds, in the base set's order; keys present
/// in only one set are silently dropped.
pub open spec fn spec_report(base: Entries, compared: Entries) -> Seq<
    (Seq<u8>, MetricDelta, MetricDelta, MetricDelta),
>
    decreases base.len(),
{
    if base.len() == 0 {
        Seq::empty()
    } else {
        let rest = spec_report(base.drop_first(), compared);
        match spec_get(compared, base[0].0) {
            Some(cm) => seq![spec_row(base[0].0, base[0].1, cm)] + rest,
            None => rest,
        }
    }
}

/// The views of a sequence of report rows.
pub open spec fn rows_view(rows: Seq<DeltaRow>) -> Seq<
    (Seq<u8>, MetricDelta, MetricDelta, MetricDelta),
> {
    Seq::new(rows.len(), |i: int| rows[i]@)
}

/// Computes the delta report of two result sets.
pub fn compare_sets(base: &ResultSet, compared: &ResultSet) -> (report: Vec<DeltaRow>)
    ensures
        rows_view(report@) == spec_report(base@, compared@),
{
    let mut out: Vec<DeltaRow> = Vec::new();
    let n = base.len();
    let mut i: usize = 0;
    proof {
        assert(base@.skip(0) =~= base@);
        assert(rows_view(out@) =~= Seq::empty());
    }
    while i < n
        invariant
            n == base@.len(),
            i <= n,
            spec_report(base@, compared@) == rows_view(out@) + spec_report(
                base@.skip(i as int),
                compared@,
            ),
        decreases n - i,
    {
        proof {
            assert(base@.skip(i as int)[0] == base@[i as int]);
            assert(base@.skip(i as int).drop_first() =~= base@.skip(i as int + 1));
        }
        let ghost out0 = out@;
        let key = base.key_at(i);
        match compared.get(key) {
            Some(cm) => {
                let bm = base.measure_at(i);
                let row = DeltaRow {
                    key: clone_bytes(key),
                    ref_cycles: metric_delta(bm.ref_cycles, cm.ref_cycles),
                    instructions: metric_delta(bm.instructions, cm.instructions),
                    cpu_time: metric_delta(bm.cpu_time, cm.cpu_time),
                };
                proof {
                    assert(row@ == spec_row(base@[i as int].0, base@[i as int].1, cm));
                }
                out.push(row);
                proof {
                    assert(rows_view(out@) =~= rows_view(out0) + seq![row@]);
                    assert(rows_view(out0) + (seq![row@] + spec_report(
                        base@.skip(i as int + 1),
                        compared@,
                    )) =~= (rows_view(out0) + seq![row@]) + spec_report(
                        base@.skip(i as int + 1),
                        compared@,
                    ));
                }
            },
            None => {},
        }
        i += 1;
    }
    proof {
        assert(base@.skip(n as int) =~= Seq::<(Seq<u8>, Measure)>::empty());
        assert(rows_view(out@) + Seq::empty() =~= rows_view(out@));
    }
    out
}

/// Copies a byte-string key.
pub fn clone_bytes(a: &Vec<u8>) -> (r: Vec<u8>)
    ensures
        r@ == a@,
{
    let mut r: Vec<u8> = Vec::new();
    let n = a.len();
    let mut i: usize = 0;
    while i < n
        invariant
            n == a@.len(),
            i <= n,
            r@ == a@.take(i as int),
        decreases n - i,
    {
        r.push(a[i]);
        proof {
            assert(a@.take(i as int).push(a@[i as int]) =~= a@.take(i as int + 1));
        }
        i += 1;
    }
    proof {
        assert(a@.take(n as int) =~= a@);
    }
    r
}

} // verus!
