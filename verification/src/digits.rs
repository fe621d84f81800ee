//! Decimal numerals as ASCII byte strings.
//!
//! The persisted artifact and the delta report both render non-negative
//! integers in plain decimal. Formatting and reading are exact inverses,
//! which the round-trip lemma below states.

use vstd::prelude::*;

verus! {

/// Whether `b` is an ASCII decimal digit.
pub open spec fn is_digit(b: u8) -> bool {
    48 <= b <= 57
}

/// Whether every byte of `s` is an ASCII decimal digit.
pub open spec fn all_digits(s: Seq<u8>) -> bool {
    forall|i: int| 0 <= i < s.len() ==> is_digit(#[trigger] s[i])
}

/// The decimal numeral of `n`: its digits as ASCII bytes, most significant
/// first, with no leading zero (`0` itself is the single byte `48`).
pub open spec fn dec_digits(n: nat) -> Seq<u8>
    decreases n,
{
    if n < 10 {
        seq![(48 + n) as u8]
    } else {
        dec_digits(n / 10).push((48 + n % 10) as u8)
    }
}

/// The value of a digit string, most significant digit first.
pub open spec fn dec_value(s: Seq<u8>) -> nat
    decreases s.len(),
{
    if s.len() == 0 {
        0
    } else {
        dec_value(s.drop_last()) * 10 + ((s.last() - 48) as nat)
    }
}

/// The numeral of `n` is made of digits, is never empty, and starts with a
/// zero only for `n == 0` itself.
pub proof fn lemma_dec_digits_shape(n: nat)
    ensures
        all_digits(dec_digits(n)),
        dec_digits(n).len() >= 1,
        dec_digits(n)[0] == 48 ==> n == 0,
    decreases n,
{
    if n >= 10 {
        lemma_dec_digits_shape(n / 10);
        assert forall|i: int| 0 <= i < dec_digits(n).len() implies is_digit(
            #[trigger] dec_digits(n)[i],
        ) by {
            if i < dec_digits(n / 10).len() {
                assert(dec_digits(n)[i] == dec_digits(n / 10)[i]);
            }
        }
    }
}

/// Reading a numeral back gives the number it was formatted from.
pub proof fn lemma_dec_round_trip(n: nat)
    ensures
        dec_value(dec_digits(n)) == n,
    decreases n,
{
    if n < 10 {
        assert(dec_digits(n) == seq![(48 + n) as u8]);
        assert(dec_digits(n).len() == 1);
        assert(dec_digits(n).drop_last() =~= Seq::<u8>::empty());
        assert(dec_value(dec_digits(n).drop_last()) == 0);
        assert(dec_digits(n).last() == (48 + n) as u8);
        assert(dec_value(dec_digits(n)) == 0 * 10 + (((48 + n) as u8 - 48) as nat));
    } else {
        lemma_dec_round_trip(n / 10);
        assert(dec_digits(n) == dec_digits(n / 10).push((48 + n % 10) as u8));
        assert(dec_digits(n).drop_last() =~= dec_digits(n / 10));
        assert(dec_digits(n).last() == (48 + n % 10) as u8);
        assert(dec_value(dec_digits(n)) == (n / 10) * 10 + n % 10);
        vstd::arithmetic::div_mod::lemma_fundamental_div_mod(n as int, 10);
    }
}

/// A digit string is worth at least as much as any of its prefixes.
pub proof fn lemma_dec_value_prefix_le(s: Seq<u8>, i: int)
    requires
        0 <= i <= s.len(),
    ensures
        dec_value(s.take(i)) <= dec_value(s),
    decreases s.len(),
{
    if i < s.len() {
        assert(s.drop_last().take(i) =~= s.take(i));
        lemma_dec_value_prefix_le(s.drop_last(), i);
        assert(dec_value(s.drop_last()) * 10 >= dec_value(s.drop_last())) by (nonlinear_arith);
    } else {
        assert(s.take(i) =~= s);
    }
}

/// Formats `n` as its decimal numeral.
pub fn to_dec(n: u128) -> (r: Vec<u8>)
    ensures
        r@ == dec_digits(n as nat),
{
    if n == 0 {
        let r = vec![48u8];
        proof {
            assert(r@ =~= dec_digits(0));
        }
        return r;
    }
    let mut r: Vec<u8> = Vec::new();
    let mut m: u128 = n;
    proof {
        assert(dec_digits(n as nat) =~= dec_digits(m as nat) + r@);
    }
    while m > 0
        invariant
            m > 0 ==> dec_digits(n as nat) == dec_digits(m as nat) + r@,
            m == 0 ==> dec_digits(n as nat) == r@,
        decreases m,
    {
        let ghost m0 = m as nat;
        let ghost r0 = r@;
        let d: u8 = (m % 10) as u8 + 48;
        r.insert(0, d);
        m = m / 10;
        proof {
            assert(r@ =~= seq![d] + r0);
            if m0 >= 10 {
                assert(dec_digits(m0) == dec_digits(m0 / 10).push(d));
                assert(dec_digits(m0 / 10) + (seq![d] + r0) =~= dec_digits(m0 / 10).push(d) + r0);
            } else {
                assert(dec_digits(m0) =~= seq![d]);
                assert(seq![d] + r0 =~= dec_digits(m0) + r0);
            }
        }
    }
    r
}

/// Reads the digit string `s[from .. to]` as a number.
///
/// Returns `None` exactly when the value does not fit `u64`.
pub fn dec_slice_to_u64(s: &Vec<u8>, from: usize, to: usize) -> (r: Option<u64>)
    requires
        from <= to <= s@.len(),
        all_digits(s@.subrange(from as int, to as int)),
    ensures
        match r {
            Some(v) => v == dec_value(s@.subrange(from as int, to as int)),
            None => dec_value(s@.subrange(from as int, to as int)) > u64::MAX,
        },
{
    let ghost whole = s@.subrange(from as int, to as int);
    let mut acc: u64 = 0;
    let mut i: usize = from;
    proof {
        assert(s@.subrange(from as int, from as int) =~= Seq::<u8>::empty());
    }
    while i < to
        invariant
            from <= i <= to <= s@.len(),
            whole == s@.subrange(from as int, to as int),
            all_digits(whole),
            acc == dec_value(s@.subrange(from as int, i as int)),
        decreases to - i,
    {
        let ghost pre = s@.subrange(from as int, i as int);
        proof {
            assert(whole[i - from] == s@[i as int]);
        }
        let d: u8 = s[i] - 48;
        let wide: u128 = (acc as u128) * 10 + (d as u128);
        proof {
            assert(s@.subrange(from as int, i as int + 1).drop_last() =~= pre);
            assert(s@.subrange(from as int, i as int + 1).last() == s@[i as int]);
        }
        if wide > 0xffff_ffff_ffff_ffff {
            proof {
                assert(dec_value(s@.subrange(from as int, i as int + 1)) == acc * 10 + d);
                assert(s@.subrange(from as int, i as int + 1) =~= whole.take(i - from + 1));
                lemma_dec_value_prefix_le(whole, i - from + 1);
            }
            return None;
        }
        acc = wide as u64;
        i += 1;
    }
    proof {
        assert(s@.subrange(from as int, to as int) =~= whole);
    }
    Some(acc)
}

} // verus!
