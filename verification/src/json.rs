//! The persisted artifact format.
//!
//! A result set is stored as a pretty-printed JSON object mapping each
//! file-path key to an object with exactly the three numeric fields
//! `ref_cycles`, `instructions` and `cpu_time`. Integer values are written
//! in plain decimal, so the round trip is exact; keys are JSON strings with
//! the quote and backslash escaped and control bytes written as `\u00..`.
//!
//! The writer emits one canonical form, stated byte for byte by
//! [`spec_ser`]. The reader accepts that form with arbitrary blank space
//! between tokens, the common short escapes, and `\u00..` escapes; any
//! other input is a fatal parse error.

use vstd::prelude::*;
use crate::counters::Measure;
use crate::digits::all_digits;
use crate::digits::dec_digits;
use crate::digits::dec_slice_to_u64;
use crate::digits::is_digit;
use crate::digits::to_dec;
use crate::result_set::Entries;
use crate::result_set::ResultSet;

verus! {

/// The ASCII hexadecimal digit for `n` (lower case).
pub open spec fn hex_digit(n: u8) -> u8 {
    if n < 10 {
        (48 + n) as u8
    } else {
        (87 + n) as u8
    }
}

/// The JSON-string encoding of one key byte: quote and backslash get a
/// backslash escape, control bytes become `\u00..`, all others stand as
/// themselves.
pub open spec fn esc_byte(b: u8) -> Seq<u8> {
    if b == 34 || b == 92 {
        seq![92u8, b]
    } else if b < 32 {
        seq![92u8, 117u8, 48u8, 48u8, hex_digit((b / 16) as u8), hex_digit((b % 16) as u8)]
    } else {
        seq![b]
    }
}

/// The JSON-string encoding of a whole key.
pub open spec fn esc_bytes(s: Seq<u8>) -> Seq<u8>
    decreases s.len(),
{
    if s.len() == 0 {
        Seq::empty()
    } else {
        esc_byte(s[0]) + esc_bytes(s.drop_first())
    }
}

/// Escaping a concatenation escapes the parts.
pub proof fn lemma_esc_bytes_append(a: Seq<u8>, b: Seq<u8>)
    ensures
        esc_bytes(a + b) == esc_bytes(a) + esc_bytes(b),
    decreases a.len(),
{
    if a.len() == 0 {
        assert(a + b =~= b);
        assert(esc_bytes(a) + esc_bytes(b) =~= esc_bytes(b));
    } else {
        assert((a + b).drop_first() =~= a.drop_first() + b);
        lemma_esc_bytes_append(a.drop_first(), b);
        assert(esc_byte(a[0]) + (esc_bytes(a.drop_first()) + esc_bytes(b)) =~= (esc_byte(a[0])
            + esc_bytes(a.drop_first())) + esc_bytes(b));
    }
}

/// The field name `ref_cycles`.
pub open spec fn key_ref_cycles() -> Seq<u8> {
    seq![114u8, 101u8, 102u8, 95u8, 99u8, 121u8, 99u8, 108u8, 101u8, 115u8]
}

/// The field name `instructions`.
pub open spec fn key_instructions() -> Seq<u8> {
    seq![105u8, 110u8, 115u8, 116u8, 114u8, 117u8, 99u8, 116u8, 105u8, 111u8, 110u8, 115u8]
}

/// The field name `cpu_time`.
pub open spec fn key_cpu_time() -> Seq<u8> {
    seq![99u8, 112u8, 117u8, 95u8, 116u8, 105u8, 109u8, 101u8]
}

/// One serialized field line, indented four spaces: `"name": value`.
pub open spec fn ser_field(name: Seq<u8>, value: u64) -> Seq<u8> {
    seq![32u8, 32u8, 32u8, 32u8, 34u8] + name + seq![34u8, 58u8, 32u8] + dec_digits(value as nat)
}

/// One serialized measurement record, as a three-field JSON object.
pub open spec fn ser_measure(m: Measure) -> Seq<u8> {
    seq![123u8, 10u8] + ser_field(key_ref_cycles(), m.ref_cycles) + seq![44u8, 10u8] + ser_field(
        key_instructions(),
        m.instructions,
    ) + seq![44u8, 10u8] + ser_field(key_cpu_time(), m.cpu_time) + seq![10u8, 32u8, 32u8, 125u8]
}

/// One serialized result-set entry: the escaped key and its record,
/// indented two spaces.
pub open spec fn ser_entry(k: Seq<u8>, m: Measure) -> Seq<u8> {
    seq![32u8, 32u8, 34u8] + esc_bytes(k) + seq![34u8, 58u8, 32u8] + ser_measure(m)
}

/// The serialized entry list, entries separated by `,\n`.
pub open spec fn ser_entries(s: Entries) -> Seq<u8>
    decreases s.len(),
{
    if s.len() == 0 {
        Seq::empty()
    } else if s.len() == 1 {
        ser_entry(s[0].0, s[0].1)
    } else {
        ser_entry(s[0].0, s[0].1) + seq![44u8, 10u8] + ser_entries(s.drop_first())
    }
}

/// The canonical serialized form of a result set: `{}` when empty, else the
/// entry list wrapped in braces, one entry per line.
pub open spec fn spec_ser(s: Entries) -> Seq<u8> {
    if s.len() == 0 {
        seq![123u8, 125u8]
    } else {
        seq![123u8, 10u8] + ser_entries(s) + seq![10u8, 125u8]
    }
}

/// Appends the JSON-string encoding of `k` to `out`.
fn append_escaped(out: &mut Vec<u8>, k: &Vec<u8>)
    ensures
        final(out)@ == old(out)@ + esc_bytes(k@),
{
    let ghost orig = out@;
    let n = k.len();
    let mut j: usize = 0;
    proof {
        assert(k@.take(0) =~= Seq::<u8>::empty());
        assert(orig + esc_bytes(k@.take(0)) =~= orig);
    }
    while j < n
        invariant
            n == k@.len(),
            j <= n,
            out@ == orig + esc_bytes(k@.take(j as int)),
        decreases n - j,
    {
        let ghost o0 = out@;
        let b = k[j];
        if b == 34 || b == 92 {
            out.push(92);
            out.push(b);
        } else if b < 32 {
            out.push(92);
            out.push(117);
            out.push(48);
            out.push(48);
            out.push(hex_digit_of(b / 16));
            out.push(hex_digit_of(b % 16));
        } else {
            out.push(b);
        }
        proof {
            assert(out@ =~= o0 + esc_byte(k@[j as int]));
            assert(k@.take(j as int + 1) =~= k@.take(j as int) + seq![k@[j as int]]);
            lemma_esc_bytes_append(k@.take(j as int), seq![k@[j as int]]);
            assert(seq![k@[j as int]].drop_first() =~= Seq::<u8>::empty());
            assert(esc_bytes(seq![k@[j as int]]) == esc_byte(k@[j as int]) + esc_bytes(
                Seq::<u8>::empty(),
            ));
            assert(esc_byte(k@[j as int]) + Seq::<u8>::empty() =~= esc_byte(k@[j as int]));
            assert(orig + (esc_bytes(k@.take(j as int)) + esc_byte(k@[j as int])) =~= (orig
                + esc_bytes(k@.take(j as int))) + esc_byte(k@[j as int]));
        }
        j += 1;
    }
    proof {
        assert(k@.take(n as int) =~= k@);
    }
}

/// The ASCII hexadecimal digit for `n` (lower case).
fn hex_digit_of(n: u8) -> (r: u8)
    requires
        n < 16,
    ensures
        r == hex_digit(n),
{
    if n < 10 {
        48 + n
    } else {
        87 + n
    }
}

/// Appends one field line.
fn append_field(out: &mut Vec<u8>, name: &Vec<u8>, value: u64)
    ensures
        final(out)@ == old(out)@ + ser_field(name@, value),
{
    let ghost orig = out@;
    out.extend_from_slice([32u8, 32u8, 32u8, 32u8, 34u8].as_slice());
    proof {
        assert(out@ =~= orig + seq![32u8, 32u8, 32u8, 32u8, 34u8]);
    }
    let ghost o1 = out@;
    out.extend_from_slice(name.as_slice());
    proof {
        assert(out@ =~= o1 + name@);
    }
    let ghost o2 = out@;
    out.extend_from_slice([34u8, 58u8, 32u8].as_slice());
    proof {
        assert(out@ =~= o2 + seq![34u8, 58u8, 32u8]);
    }
    let ghost o3 = out@;
    let mut d = to_dec(value as u128);
    out.append(&mut d);
    proof {
        assert(out@ == o3 + dec_digits(value as nat));
        assert(out@ =~= orig + ser_field(name@, value));
    }
}

/// Appends one serialized measurement record.
fn append_measure(out: &mut Vec<u8>, m: Measure)
    ensures
        final(out)@ == old(out)@ + ser_measure(m),
{
    let ghost orig = out@;
    out.push(123);
    out.push(10);
    proof {
        assert(out@ =~= orig + seq![123u8, 10u8]);
    }
    let ghost o1 = out@;
    let name_rc = key_ref_cycles_vec();
    append_field(out, &name_rc, m.ref_cycles);
    let ghost o2 = out@;
    out.push(44);
    out.push(10);
    proof {
        assert(out@ =~= o2 + seq![44u8, 10u8]);
    }
    let ghost o3 = out@;
    let name_ins = key_instructions_vec();
    append_field(out, &name_ins, m.instructions);
    let ghost o4 = out@;
    out.push(44);
    out.push(10);
    proof {
        assert(out@ =~= o4 + seq![44u8, 10u8]);
    }
    let ghost o5 = out@;
    let name_ct = key_cpu_time_vec();
    append_field(out, &name_ct, m.cpu_time);
    let ghost o6 = out@;
    out.push(10);
    out.push(32);
    out.push(32);
    out.push(125);
    proof {
        assert(out@ =~= o6 + seq![10u8, 32u8, 32u8, 125u8]);
        assert(out@ =~= orig + ser_measure(m));
    }
}

/// The bytes of the field name `ref_cycles`.
fn key_ref_cycles_vec() -> (r: Vec<u8>)
    ensures
        r@ == key_ref_cycles(),
{
    let mut r: Vec<u8> = Vec::new();
    r.extend_from_slice(
        [114u8, 101u8, 102u8, 95u8, 99u8, 121u8, 99u8, 108u8, 101u8, 115u8].as_slice(),
    );
    proof {
        assert(r@ =~= key_ref_cycles());
    }
    r
}

/// The bytes of the field name `instructions`.
fn key_instructions_vec() -> (r: Vec<u8>)
    ensures
        r@ == key_instructions(),
{
    let mut r: Vec<u8> = Vec::new();
    r.extend_from_slice(
        [105u8, 110u8, 115u8, 116u8, 114u8, 117u8, 99u8, 116u8, 105u8, 111u8, 110u8, 115u8].as_slice(),
    );
    proof {
        assert(r@ =~= key_instructions());
    }
    r
}

/// The bytes of the field name `cpu_time`.
fn key_cpu_time_vec() -> (r: Vec<u8>)
    ensures
        r@ == key_cpu_time(),
{
    let mut r: Vec<u8> = Vec::new();
    r.extend_from_slice([99u8, 112u8, 117u8, 95u8, 116u8, 105u8, 109u8, 101u8].as_slice());
    proof {
        assert(r@ =~= key_cpu_time());
    }
    r
}

/// Serializes a result set into its canonical persisted form.
pub fn to_json(rs: &ResultSet) -> (out: Vec<u8>)
    ensures
        out@ == spec_ser(rs@),
{
    let mut out: Vec<u8> = Vec::new();
    let n = rs.len();
    if n == 0 {
        out.push(123);
        out.push(125);
        proof {
            assert(out@ =~= spec_ser(rs@));
        }
        return out;
    }
    out.push(123);
    out.push(10);
    proof {
        assert(out@ =~= seq![123u8, 10u8]);
        assert(rs@.skip(0) =~= rs@);
    }
    let mut i: usize = 0;
    while i < n
        invariant
            n == rs@.len(),
            n > 0,
            i <= n,
            i < n ==> out@ + ser_entries(rs@.skip(i as int)) + seq![10u8, 125u8] == spec_ser(rs@),
            i == n ==> out@ + seq![10u8, 125u8] == spec_ser(rs@),
        decreases n - i,
    {
        let ghost rest = rs@.skip(i as int);
        proof {
            assert(rest[0] == rs@[i as int]);
            assert(rest.drop_first() =~= rs@.skip(i as int + 1));
        }
        let ghost o0 = out@;
        out.push(32);
        out.push(32);
        out.push(34);
        proof {
            assert(out@ =~= o0 + seq![32u8, 32u8, 34u8]);
        }
        let key = rs.key_at(i);
        append_escaped(&mut out, key);
        let ghost o1 = out@;
        out.push(34);
        out.push(58);
        out.push(32);
        proof {
            assert(out@ =~= o1 + seq![34u8, 58u8, 32u8]);
        }
        let m = rs.measure_at(i);
        append_measure(&mut out, m);
        proof {
            assert(out@ =~= o0 + ser_entry(rs@[i as int].0, rs@[i as int].1));
        }
        if i + 1 < n {
            let ghost o2 = out@;
            out.push(44);
            out.push(10);
            proof {
                assert(out@ =~= o2 + seq![44u8, 10u8]);
                assert(rest.len() >= 2);
                assert(ser_entries(rest) == ser_entry(rest[0].0, rest[0].1) + seq![44u8, 10u8]
                    + ser_entries(rest.drop_first()));
                assert(out@ + ser_entries(rs@.skip(i as int + 1)) =~= o0 + ser_entries(rest));
                assert((out@ + ser_entries(rs@.skip(i as int + 1))) + seq![10u8, 125u8] =~= (o0
                    + ser_entries(rest)) + seq![10u8, 125u8]);
            }
        } else {
            proof {
                assert(rest.len() == 1);
                assert(ser_entries(rest) == ser_entry(rest[0].0, rest[0].1));
                assert(out@ =~= o0 + ser_entries(rest));
            }
        }
        i += 1;
    }
    out.push(10);
    out.push(125);
    proof {
        assert(out@ =~= spec_ser(rs@));
    }
    out
}

/// Why an artifact failed to parse: it ended inside a value, held a byte or
/// a field that the format does not allow where it stood, or held a numeral
/// that does not fit a 64-bit counter.
#[derive(Clone, Copy, Debug, PartialEq, Eq, Structural)]
pub enum JsonError {
    Truncated,
    Unexpected,
    NumberTooLarge,
}

/// Whether `b` is JSON blank space.
pub open spec fn is_ws_byte(b: u8) -> bool {
    b == 32 || b == 9 || b == 10 || b == 13
}

/// Advances past blank space.
fn skip_ws(s: &Vec<u8>, i: usize) -> (r: usize)
    requires
        i <= s@.len(),
    ensures
        i <= r <= s@.len(),
        forall|j: int| i <= j < r ==> is_ws_byte(#[trigger] s@[j]),
        r < s@.len() ==> !is_ws_byte(s@[r as int]),
{
    let n = s.len();
    let mut r: usize = i;
    while r < n
        invariant
            i <= r <= n == s@.len(),
            forall|j: int| i <= j < r ==> is_ws_byte(#[trigger] s@[j]),
        decreases n - r,
    {
        let b = s[r];
        if !(b == 32 || b == 9 || b == 10 || b == 13) {
            return r;
        }
        r += 1;
    }
    r
}

/// Demands the byte `b` at position `i`.
fn expect_byte(s: &Vec<u8>, i: usize, b: u8) -> (r: Result<usize, JsonError>)
    requires
        i <= s@.len(),
    ensures
        match r {
            Ok(j) => j == i + 1 && i < s@.len() && s@[i as int] == b,
            Err(e) => e == JsonError::Truncated && i == s@.len() || e == JsonError::Unexpected && i
                < s@.len() && s@[i as int] != b,
        },
{
    if i >= s.len() {
        Err(JsonError::Truncated)
    } else if s[i] == b {
        Ok(i + 1)
    } else {
        Err(JsonError::Unexpected)
    }
}

/// The value of an ASCII hexadecimal digit, `None` for any other byte.
pub open spec fn spec_hex_value(b: u8) -> Option<u8> {
    if 48 <= b <= 57 {
        Some((b - 48) as u8)
    } else if 97 <= b <= 102 {
        Some((b - 87) as u8)
    } else if 65 <= b <= 70 {
        Some((b - 55) as u8)
    } else {
        None
    }
}

/// Reading back the hexadecimal digit the writer emits gives the value it
/// was written from.
pub proof fn lemma_hex_digit_round_trip(x: u8)
    requires
        x < 16,
    ensures
        spec_hex_value(hex_digit(x)) == Some(x),
{
}

/// The value of an ASCII hexadecimal digit, `None` for any other byte.
fn hex_value(b: u8) -> (r: Option<u8>)
    ensures
        r == spec_hex_value(b),
        r matches Some(v) ==> v < 16,
{
    if 48 <= b && b <= 57 {
        Some(b - 48)
    } else if 97 <= b && b <= 102 {
        Some(b - 87)
    } else if 65 <= b && b <= 70 {
        Some(b - 55)
    } else {
        None
    }
}

/// Whether the input from position `i` on is a quoted, escaped key
/// followed by `rest`: the shape the canonical serializer emits for a key.
pub open spec fn at_string(s: Seq<u8>, i: int, k: Seq<u8>, rest: Seq<u8>) -> bool {
    s.skip(i) == seq![34u8] + esc_bytes(k) + seq![34u8] + rest
}

/// Mid-parse state over a canonical key: `p` bytes of the key are decoded
/// into `out`, and `j` stands right after their escaped form.
pub open spec fn str_state(s: Seq<u8>, i: int, k: Seq<u8>, p: int, j: int, out: Seq<u8>) -> bool {
    0 <= p <= k.len() && out == k.take(p) && j == i + 1 + esc_bytes(k.take(p)).len()
}

/// What the input holds at a mid-parse state over a canonical key: the
/// escaped form of the key's next byte, or the closing quote.
proof fn lemma_at_string_state(s: Seq<u8>, i: int, k: Seq<u8>, rest: Seq<u8>, p: int)
    requires
        0 <= i <= s.len(),
        at_string(s, i, k, rest),
        0 <= p <= k.len(),
    ensures
        ({
            let j = i + 1 + esc_bytes(k.take(p)).len();
            &&& esc_bytes(k.take(p)).len() <= esc_bytes(k).len()
            &&& i + 2 + esc_bytes(k).len() + rest.len() == s.len()
            &&& (p == k.len() ==> j == i + 1 + esc_bytes(k).len() && s[j] == 34)
            &&& (p < k.len() ==> ({
                let eb = esc_byte(k[p]);
                &&& esc_bytes(k.take(p + 1)).len() == esc_bytes(k.take(p)).len() + eb.len()
                &&& k.take(p + 1) == k.take(p).push(k[p])
                &&& j + eb.len() <= i + 1 + esc_bytes(k).len()
                &&& forall|q: int| 0 <= q < eb.len() ==> s[j + q] == eb[q]
            }))
        }),
{
    let t = k.take(p);
    let u = k.skip(p);
    assert(k =~= t + u);
    lemma_esc_bytes_append(t, u);
    assert(s.skip(i).len() == s.len() - i);
    let whole = seq![34u8] + esc_bytes(k) + seq![34u8] + rest;
    assert forall|w: int| 0 <= w < esc_bytes(k).len() implies s[i + 1 + w] == esc_bytes(k)[w] by {
        assert(s.skip(i)[1 + w] == s[i + 1 + w]);
        assert(whole[1 + w] == esc_bytes(k)[w]);
    }
    assert(s.skip(i)[1 + esc_bytes(k).len() as int] == s[i + 1 + esc_bytes(k).len()]);
    assert(whole[1 + esc_bytes(k).len() as int] == 34);
    if p == k.len() {
        assert(t =~= k);
    } else {
        assert(u =~= seq![k[p]] + k.skip(p + 1));
        lemma_esc_bytes_append(seq![k[p]], k.skip(p + 1));
        assert(seq![k[p]].drop_first() =~= Seq::<u8>::empty());
        assert(esc_bytes(seq![k[p]]) == esc_byte(k[p]) + esc_bytes(Seq::<u8>::empty()));
        assert(esc_byte(k[p]) + Seq::<u8>::empty() =~= esc_byte(k[p]));
        assert(k.take(p + 1) =~= k.take(p).push(k[p]));
        assert(k.take(p) + seq![k[p]] =~= k.take(p + 1));
        lemma_esc_bytes_append(k.take(p), seq![k[p]]);
        let eb = esc_byte(k[p]);
        assert(esc_bytes(k) == esc_bytes(t) + (eb + esc_bytes(k.skip(p + 1))));
        assert forall|q: int| 0 <= q < eb.len() implies s[i + 1 + esc_bytes(t).len() + q]
            == eb[q] by {
            assert(esc_bytes(k)[esc_bytes(t).len() + q] == eb[q]);
        }
    }
}

/// Reads a JSON string starting at the opening quote at `i`; returns the
/// decoded bytes and the position after the closing quote. Accepts the
/// short escapes and `\u00..`; an escape above `ÿ` is refused, since
/// keys are held as raw bytes. On the canonical shape the serializer
/// emits, it returns exactly the escaped key and consumes exactly its
/// quoted form.
fn parse_string(s: &Vec<u8>, i: usize) -> (r: Result<(Vec<u8>, usize), JsonError>)
    requires
        i <= s@.len(),
    ensures
        match r {
            Ok((k, j)) => i < j <= s@.len(),
            Err(_) => true,
        },
        forall|k: Seq<u8>, rest: Seq<u8>|
            #[trigger] at_string(s@, i as int, k, rest) ==> (r matches Ok(p) && p.0@ == k && p.1
                == i + 2 + esc_bytes(k).len()),
{
    let n = s.len();
    let mut j = match expect_byte(s, i, 34) {
        Ok(j) => j,
        Err(e) => {
            proof {
                assert forall|k: Seq<u8>, rest: Seq<u8>| #[trigger]
                    at_string(s@, i as int, k, rest) implies false by {
                    lemma_at_string_state(s@, i as int, k, rest, 0);
                    assert(s@.skip(i as int)[0] == s@[i as int]);
                    assert((seq![34u8] + esc_bytes(k) + seq![34u8] + rest)[0] == 34);
                }
            }
            return Err(e);
        },
    };
    let mut out: Vec<u8> = Vec::new();
    proof {
        assert forall|k: Seq<u8>, rest: Seq<u8>| #[trigger]
            at_string(s@, i as int, k, rest) implies exists|p: int|
            str_state(s@, i as int, k, p, j as int, out@) by {
            assert(k.take(0) =~= Seq::<u8>::empty());
            assert(esc_bytes(k.take(0)).len() == 0);
            assert(str_state(s@, i as int, k, 0, j as int, out@));
        }
    }
    while j < n
        invariant
            i < j <= n == s@.len(),
            forall|k: Seq<u8>, rest: Seq<u8>|
                #[trigger] at_string(s@, i as int, k, rest) ==> exists|p: int|
                    str_state(s@, i as int, k, p, j as int, out@),
        decreases n - j,
    {
        let ghost j0 = j as int;
        let ghost out0 = out@;
        let b = s[j];
        if b == 34 {
            proof {
                assert forall|k: Seq<u8>, rest: Seq<u8>| #[trigger]
                    at_string(s@, i as int, k, rest) implies out0 == k && j0 + 1 == i + 2
                    + esc_bytes(k).len() by {
                    let p = choose|p: int| str_state(s@, i as int, k, p, j0, out0);
                    lemma_at_string_state(s@, i as int, k, rest, p);
                    if p < k.len() {
                        assert(s@[j0] == esc_byte(k[p])[0]);
                        assert(esc_byte(k[p])[0] != 34);
                    }
                    assert(p == k.len());
                    assert(k.take(p) =~= k);
                }
            }
            return Ok((out, j + 1));
        } else if b == 92 {
            proof {
                assert forall|k: Seq<u8>, rest: Seq<u8>| #[trigger]
                    at_string(s@, i as int, k, rest) implies exists|p: int|
                    (str_state(s@, i as int, k, p, j0, out0) && p < k.len() && (k[p] == 34 || k[p]
                        == 92 || k[p] < 32)) by {
                    let p = choose|p: int| str_state(s@, i as int, k, p, j0, out0);
                    lemma_at_string_state(s@, i as int, k, rest, p);
                    if p == k.len() {
                        assert(s@[j0] == 34);
                    }
                    assert(p < k.len());
                    assert(s@[j0] == esc_byte(k[p])[0]);
                    if !(k[p] == 34 || k[p] == 92 || k[p] < 32) {
                        assert(esc_byte(k[p])[0] == k[p]);
                    }
                }
            }
            if j + 1 >= n {
                proof {
                    assert forall|k: Seq<u8>, rest: Seq<u8>| #[trigger]
                        at_string(s@, i as int, k, rest) implies false by {
                        let p = choose|p: int|
                            (str_state(s@, i as int, k, p, j0, out0) && p < k.len() && (k[p] == 34
                                || k[p] == 92 || k[p] < 32));
                        lemma_at_string_state(s@, i as int, k, rest, p);
                        assert(j0 + esc_byte(k[p]).len() <= i + 1 + esc_bytes(k).len() < n);
                        assert(esc_byte(k[p]).len() >= 2);
                    }
                }
                return Err(JsonError::Truncated);
            }
            let e = s[j + 1];
            if e == 34 || e == 92 || e == 47 {
                out.push(e);
                j += 2;
                proof {
                    assert forall|k: Seq<u8>, rest: Seq<u8>| #[trigger]
                        at_string(s@, i as int, k, rest) implies exists|p: int|
                        str_state(s@, i as int, k, p, j as int, out@) by {
                        let p = choose|p: int|
                            (str_state(s@, i as int, k, p, j0, out0) && p < k.len() && (k[p] == 34
                                || k[p] == 92 || k[p] < 32));
                        lemma_at_string_state(s@, i as int, k, rest, p);
                        if k[p] < 32 {
                            assert(s@[j0 + 1] == esc_byte(k[p])[1]);
                            assert(esc_byte(k[p])[1] == 117);
                            assert(false);
                        }
                        assert(s@[j0 + 1] == esc_byte(k[p])[1]);
                        assert(esc_byte(k[p])[1] == k[p]);
                        assert(out@ =~= k.take(p + 1));
                        assert(str_state(s@, i as int, k, p + 1, j as int, out@));
                    }
                }
            } else if e == 98 || e == 102 || e == 110 || e == 114 || e == 116 {
                let decoded: u8 = if e == 98 {
                    8
                } else if e == 102 {
                    12
                } else if e == 110 {
                    10
                } else if e == 114 {
                    13
                } else {
                    9
                };
                out.push(decoded);
                j += 2;
                proof {
                    assert forall|k: Seq<u8>, rest: Seq<u8>| #[trigger]
                        at_string(s@, i as int, k, rest) implies false by {
                        let p = choose|p: int|
                            (str_state(s@, i as int, k, p, j0, out0) && p < k.len() && (k[p] == 34
                                || k[p] == 92 || k[p] < 32));
                        lemma_at_string_state(s@, i as int, k, rest, p);
                        assert(s@[j0 + 1] == esc_byte(k[p])[1]);
                    }
                }
            } else if e == 117 {
                if n - j <= 5 {
                    proof {
                        assert forall|k: Seq<u8>, rest: Seq<u8>| #[trigger]
                            at_string(s@, i as int, k, rest) implies false by {
                            let p = choose|p: int|
                                (str_state(s@, i as int, k, p, j0, out0) && p < k.len() && (k[p]
                                    == 34 || k[p] == 92 || k[p] < 32));
                            lemma_at_string_state(s@, i as int, k, rest, p);
                            assert(s@[j0 + 1] == esc_byte(k[p])[1]);
                            assert(k[p] < 32);
                            assert(esc_byte(k[p]).len() == 6);
                            assert(j0 + 6 <= i + 1 + esc_bytes(k).len() < n);
                        }
                    }
                    return Err(JsonError::Truncated);
                }
                let h1 = hex_value(s[j + 2]);
                let h2 = hex_value(s[j + 3]);
                let h3 = hex_value(s[j + 4]);
                let h4 = hex_value(s[j + 5]);
                proof {
                    assert forall|k: Seq<u8>, rest: Seq<u8>| #[trigger]
                        at_string(s@, i as int, k, rest) implies exists|p: int|
                        (str_state(s@, i as int, k, p, j0, out0) && p < k.len() && k[p] < 32 && h1
                            == Some(0u8) && h2 == Some(0u8) && h3 == Some((k[p] / 16) as u8) && h4
                            == Some((k[p] % 16) as u8)) by {
                        let p = choose|p: int|
                            (str_state(s@, i as int, k, p, j0, out0) && p < k.len() && (k[p] == 34
                                || k[p] == 92 || k[p] < 32));
                        lemma_at_string_state(s@, i as int, k, rest, p);
                        assert(s@[j0 + 1] == esc_byte(k[p])[1]);
                        assert(k[p] < 32);
                        assert(s@[j0 + 2] == esc_byte(k[p])[2]);
                        assert(s@[j0 + 3] == esc_byte(k[p])[3]);
                        assert(s@[j0 + 4] == esc_byte(k[p])[4]);
                        assert(s@[j0 + 5] == esc_byte(k[p])[5]);
                        lemma_hex_digit_round_trip((k[p] / 16) as u8);
                        lemma_hex_digit_round_trip((k[p] % 16) as u8);
                        assert(spec_hex_value(48) == Some(0u8));
                    }
                }
                match (h1, h2, h3, h4) {
                    (Some(a), Some(bb), Some(c), Some(d)) => {
                        if a != 0 || bb != 0 {
                            proof {
                                assert forall|k: Seq<u8>, rest: Seq<u8>| #[trigger]
                                    at_string(s@, i as int, k, rest) implies false by {
                                    let p = choose|p: int|
                                        (str_state(s@, i as int, k, p, j0, out0) && p < k.len()
                                            && k[p] < 32 && h1 == Some(0u8) && h2 == Some(0u8));
                                }
                            }
                            return Err(JsonError::Unexpected);
                        }
                        out.push(c * 16 + d);
                        j += 6;
                        proof {
                            assert forall|k: Seq<u8>, rest: Seq<u8>| #[trigger]
                                at_string(s@, i as int, k, rest) implies exists|p: int|
                                str_state(s@, i as int, k, p, j as int, out@) by {
                                let p = choose|p: int|
                                    (str_state(s@, i as int, k, p, j0, out0) && p < k.len() && k[p]
                                        < 32 && h1 == Some(0u8) && h2 == Some(0u8) && h3 == Some(
                                        (k[p] / 16) as u8,
                                    ) && h4 == Some((k[p] % 16) as u8));
                                lemma_at_string_state(s@, i as int, k, rest, p);
                                assert(c == k[p] / 16 && d == k[p] % 16);
                                assert(c * 16 + d == k[p]) by {
                                    vstd::arithmetic::div_mod::lemma_fundamental_div_mod(
                                        k[p] as int,
                                        16,
                                    );
                                };
                                assert(out@ =~= k.take(p + 1));
                                assert(esc_byte(k[p]).len() == 6);
                                assert(str_state(s@, i as int, k, p + 1, j as int, out@));
                            }
                        }
                    },
                    _ => {
                        proof {
                            assert forall|k: Seq<u8>, rest: Seq<u8>| #[trigger]
                                at_string(s@, i as int, k, rest) implies false by {
                                let p = choose|p: int|
                                    (str_state(s@, i as int, k, p, j0, out0) && p < k.len() && k[p]
                                        < 32 && h1 == Some(0u8) && h2 == Some(0u8) && h3 == Some(
                                        (k[p] / 16) as u8,
                                    ) && h4 == Some((k[p] % 16) as u8));
                            }
                        }
                        return Err(JsonError::Unexpected);
                    },
                }
            } else {
                proof {
                    assert forall|k: Seq<u8>, rest: Seq<u8>| #[trigger]
                        at_string(s@, i as int, k, rest) implies false by {
                        let p = choose|p: int|
                            (str_state(s@, i as int, k, p, j0, out0) && p < k.len() && (k[p] == 34
                                || k[p] == 92 || k[p] < 32));
                        lemma_at_string_state(s@, i as int, k, rest, p);
                        assert(s@[j0 + 1] == esc_byte(k[p])[1]);
                    }
                }
                return Err(JsonError::Unexpected);
            }
        } else {
            out.push(b);
            j += 1;
            proof {
                assert forall|k: Seq<u8>, rest: Seq<u8>| #[trigger]
                    at_string(s@, i as int, k, rest) implies exists|p: int|
                    str_state(s@, i as int, k, p, j as int, out@) by {
                    let p = choose|p: int| str_state(s@, i as int, k, p, j0, out0);
                    lemma_at_string_state(s@, i as int, k, rest, p);
                    if p == k.len() {
                        assert(s@[j0] == 34);
                        assert(false);
                    }
                    assert(s@[j0] == esc_byte(k[p])[0]);
                    if k[p] == 34 || k[p] == 92 || k[p] < 32 {
                        assert(esc_byte(k[p])[0] == 92);
                        assert(false);
                    }
                    assert(esc_byte(k[p])[0] == k[p]);
                    assert(out@ =~= k.take(p + 1));
                    assert(esc_byte(k[p]).len() == 1);
                    assert(str_state(s@, i as int, k, p + 1, j as int, out@));
                }
            }
        }
    }
    proof {
        assert forall|k: Seq<u8>, rest: Seq<u8>| #[trigger]
            at_string(s@, i as int, k, rest) implies false by {
            let p = choose|p: int| str_state(s@, i as int, k, p, j as int, out@);
            lemma_at_string_state(s@, i as int, k, rest, p);
            assert(j == i + 1 + esc_bytes(k.take(p)).len() <= i + 1 + esc_bytes(k).len() < n);
        }
    }
    Err(JsonError::Truncated)
}

/// `v`'s decimal numeral followed by `rest`.
pub open spec fn numeral_then(v: u64, rest: Seq<u8>) -> Seq<u8> {
    dec_digits(v as nat) + rest
}

/// Whether the input from position `i` on is some numeral followed by a
/// non-digit: the shape the canonical serializer emits for a field value.
pub open spec fn at_numeral(s: Seq<u8>, i: int, v: u64, rest: Seq<u8>) -> bool {
    s.skip(i) == numeral_then(v, rest) && (rest.len() == 0 || !is_digit(rest[0]))
}

/// Whether the byte at `j` is a decimal digit.
fn digit_at(s: &Vec<u8>, j: usize) -> (r: bool)
    requires
        j < s@.len(),
    ensures
        r == is_digit(s@[j as int]),
{
    let b = s[j];
    48 <= b && b <= 57
}

/// Reads the decimal numeral starting at `i`; returns its value and the
/// position after its last digit. A numeral above `u64::MAX` is refused.
/// On the canonical shape — a numeral followed by a non-digit — it returns
/// exactly the numeral's value and consumes exactly the numeral.
fn parse_number(s: &Vec<u8>, i: usize) -> (r: Result<(u64, usize), JsonError>)
    requires
        i <= s@.len(),
    ensures
        match r {
            Ok((v, j)) => i < j <= s@.len() && all_digits(s@.subrange(i as int, j as int)) && v
                == crate::digits::dec_value(s@.subrange(i as int, j as int)),
            Err(_) => true,
        },
        forall|v: u64, rest: Seq<u8>|
            #[trigger] at_numeral(s@, i as int, v, rest) ==> (r matches Ok(p) && p.0 == v && p.1
                == i + dec_digits(v as nat).len()),
{
    let n = s.len();
    let mut j: usize = i;
    while j < n && digit_at(s, j)
        invariant
            i <= j <= n == s@.len(),
            forall|p: int| i <= p < j ==> is_digit(#[trigger] s@[p]),
        decreases n - j,
    {
        j += 1;
    }
    proof {
        assert forall|v: u64, rest: Seq<u8>| #[trigger]
            at_numeral(s@, i as int, v, rest) implies j == i + dec_digits(v as nat).len() by {
            let dd = dec_digits(v as nat);
            crate::digits::lemma_dec_digits_shape(v as nat);
            assert(s@.skip(i as int).len() == n - i);
            assert(i + dd.len() + rest.len() == n);
            assert forall|p: int| 0 <= p < dd.len() implies is_digit(#[trigger] s@[i + p]) by {
                assert(s@.skip(i as int)[p] == s@[i + p]);
                assert(s@.skip(i as int)[p] == dd[p]);
            }
            if (j as int) < i + dd.len() {
                assert(j < n);
                assert(!is_digit(s@[j as int]));
                assert(s@[i + (j - i)] == s@[j as int]);
                assert(false);
            }
            if (j as int) > i + dd.len() {
                assert(rest.len() > 0);
                assert(s@.skip(i as int)[dd.len() as int] == rest[0]);
                assert(s@[i + dd.len()] == rest[0]);
                assert(is_digit(s@[i + dd.len()]));
                assert(false);
            }
        }
    }
    if j == i {
        proof {
            assert forall|v: u64, rest: Seq<u8>| #[trigger]
                at_numeral(s@, i as int, v, rest) implies false by {
                crate::digits::lemma_dec_digits_shape(v as nat);
            }
        }
        if j < n {
            return Err(JsonError::Unexpected);
        } else {
            return Err(JsonError::Truncated);
        }
    }
    proof {
        assert(all_digits(s@.subrange(i as int, j as int)));
        assert forall|v: u64, rest: Seq<u8>| #[trigger]
            at_numeral(s@, i as int, v, rest) implies crate::digits::dec_value(
            s@.subrange(i as int, j as int),
        ) == v by {
            let dd = dec_digits(v as nat);
            assert(j == i + dd.len());
            assert forall|p: int| 0 <= p < dd.len() implies s@.subrange(i as int, j as int)[p]
                == dd[p] by {
                assert(s@.skip(i as int)[p] == dd[p]);
            }
            assert(s@.subrange(i as int, j as int) =~= dd);
            crate::digits::lemma_dec_round_trip(v as nat);
        }
    }
    match dec_slice_to_u64(s, i, j) {
        Some(v) => Ok((v, j)),
        None => Err(JsonError::NumberTooLarge),
    }
}

/// Whether the input from position `i` on is a space, one canonical
/// serialized record, and then `rest`.
pub open spec fn at_measure(s: Seq<u8>, i: int, m: Measure, rest: Seq<u8>) -> bool {
    s.skip(i) == seq![32u8] + ser_measure(m) + rest
}

/// What the canonical record shape pins at each position: the opening
/// brace, the three field lines with their separators, and the closing
/// brace on its own indented line.
proof fn lemma_at_measure_facts(s: Seq<u8>, i: int, m: Measure, rest: Seq<u8>)
    requires
        0 <= i <= s.len(),
        at_measure(s, i, m, rest),
    ensures
        ({
            let f1 = ser_field(key_ref_cycles(), m.ref_cycles);
            let f2 = ser_field(key_instructions(), m.instructions);
            let f3 = ser_field(key_cpu_time(), m.cpu_time);
            let tail_c = seq![10u8, 32u8, 32u8, 125u8];
            &&& s.len() == i + 1 + ser_measure(m).len() + rest.len()
            &&& ser_measure(m).len() == 10 + f1.len() + f2.len() + f3.len()
            &&& s[i] == 32
            &&& s[i + 1] == 123
            &&& at_field(
                s,
                i + 2,
                key_ref_cycles(),
                m.ref_cycles,
                seq![44u8, 10u8] + f2 + seq![44u8, 10u8] + f3 + tail_c + rest,
            )
            &&& s[i + 3 + f1.len()] == 44
            &&& at_field(
                s,
                i + 4 + f1.len(),
                key_instructions(),
                m.instructions,
                seq![44u8, 10u8] + f3 + tail_c + rest,
            )
            &&& s[i + 5 + f1.len() + f2.len()] == 44
            &&& at_field(s, i + 6 + f1.len() + f2.len(), key_cpu_time(), m.cpu_time, tail_c + rest)
            &&& s[i + 7 + f1.len() + f2.len() + f3.len()] == 10
            &&& s[i + 8 + f1.len() + f2.len() + f3.len()] == 32
            &&& s[i + 9 + f1.len() + f2.len() + f3.len()] == 32
            &&& s[i + 10 + f1.len() + f2.len() + f3.len()] == 125
        }),
{
    let f1 = ser_field(key_ref_cycles(), m.ref_cycles);
    let f2 = ser_field(key_instructions(), m.instructions);
    let f3 = ser_field(key_cpu_time(), m.cpu_time);
    let tail_c = seq![10u8, 32u8, 32u8, 125u8];
    let t = seq![32u8] + ser_measure(m) + rest;
    lemma_skip_index(s, i, t);
    assert(s[i + 0] == t[0]);
    assert(s[i + 1] == t[1]);
    assert(s[i + 3 + f1.len()] == t[3 + f1.len() as int]);
    assert(s[i + 5 + f1.len() + f2.len()] == t[5 + (f1.len() + f2.len()) as int]);
    assert(s[i + 7 + f1.len() + f2.len() + f3.len()] == t[7 + (f1.len() + f2.len()
        + f3.len()) as int]);
    assert(s[i + 8 + f1.len() + f2.len() + f3.len()] == t[8 + (f1.len() + f2.len()
        + f3.len()) as int]);
    assert(s[i + 9 + f1.len() + f2.len() + f3.len()] == t[9 + (f1.len() + f2.len()
        + f3.len()) as int]);
    assert(s[i + 10 + f1.len() + f2.len() + f3.len()] == t[10 + (f1.len() + f2.len()
        + f3.len()) as int]);
    crate::digits::lemma_dec_digits_shape(m.ref_cycles as nat);
    crate::digits::lemma_dec_digits_shape(m.instructions as nat);
    crate::digits::lemma_dec_digits_shape(m.cpu_time as nat);
    assert(s.skip(i + 2) =~= seq![10u8] + f1 + (seq![44u8, 10u8] + f2 + seq![44u8, 10u8] + f3
        + tail_c + rest)) by {
        assert forall|w: int| 0 <= w < s.len() - (i + 2) implies #[trigger] s.skip(i + 2)[w] == t[w
            + 2] by {
            assert(s.skip(i + 2)[w] == s[i + 2 + w]);
        }
    }
    assert(s.skip(i + 4 + f1.len()) =~= seq![10u8] + f2 + (seq![44u8, 10u8] + f3 + tail_c
        + rest)) by {
        assert forall|w: int| 0 <= w < s.len() - (i + 4 + f1.len()) implies #[trigger] s.skip(
            i + 4 + f1.len(),
        )[w] == t[w + 4 + f1.len() as int] by {
            assert(s.skip(i + 4 + f1.len())[w] == s[i + 4 + f1.len() + w]);
        }
    }
    assert(s.skip(i + 6 + f1.len() + f2.len()) =~= seq![10u8] + f3 + (tail_c + rest)) by {
        assert forall|w: int| 0 <= w < s.len() - (i + 6 + f1.len() + f2.len()) implies #[trigger] s.skip(
            i + 6 + f1.len() + f2.len(),
        )[w] == t[w + 6 + (f1.len() + f2.len()) as int] by {
            assert(s.skip(i + 6 + f1.len() + f2.len())[w] == s[i + 6 + f1.len() + f2.len() + w]);
        }
    }
}

/// The three field names hold only plain bytes.
proof fn lemma_field_names_plain()
    ensures
        plain_bytes(key_ref_cycles()),
        plain_bytes(key_instructions()),
        plain_bytes(key_cpu_time()),
{
}

/// Reads one measurement record: a JSON object with exactly the fields
/// `ref_cycles`, `instructions` and `cpu_time`, in that order. On the
/// canonical record shape it returns exactly the written record and
/// consumes exactly the leading space and the record.
fn parse_measure(s: &Vec<u8>, i: usize) -> (r: Result<(Measure, usize), JsonError>)
    requires
        i <= s@.len(),
    ensures
        match r {
            Ok((m, j)) => i <= j <= s@.len(),
            Err(_) => true,
        },
        forall|m: Measure, rest: Seq<u8>|
            #[trigger] at_measure(s@, i as int, m, rest) ==> (r matches Ok(p) && p.0 == m && p.1
                == i + 1 + ser_measure(m).len()),
{
    let mut pos = skip_ws(s, i);
    proof {
        lemma_field_names_plain();
        assert forall|m: Measure, rest: Seq<u8>| #[trigger]
            at_measure(s@, i as int, m, rest) implies pos == i + 1 by {
            lemma_at_measure_facts(s@, i as int, m, rest);
        }
    }
    pos = match expect_byte(s, pos, 123) {
        Ok(p) => p,
        Err(e) => {
            proof {
                assert forall|m: Measure, rest: Seq<u8>| #[trigger]
                    at_measure(s@, i as int, m, rest) implies false by {
                    lemma_at_measure_facts(s@, i as int, m, rest);
                }
            }
            return Err(e);
        },
    };
    let name_rc = key_ref_cycles_vec();
    let ref_cycles = match parse_field(s, pos, &name_rc) {
        Ok((v, p)) => {
            pos = p;
            v
        },
        Err(e) => {
            proof {
                assert forall|m: Measure, rest: Seq<u8>| #[trigger]
                    at_measure(s@, i as int, m, rest) implies false by {
                    lemma_at_measure_facts(s@, i as int, m, rest);
                }
            }
            return Err(e);
        },
    };
    proof {
        assert forall|m: Measure, rest: Seq<u8>| #[trigger]
            at_measure(s@, i as int, m, rest) implies ref_cycles == m.ref_cycles && pos == i + 3
            + ser_field(key_ref_cycles(), m.ref_cycles).len() && s@[pos as int] == 44 by {
            lemma_at_measure_facts(s@, i as int, m, rest);
        }
    }
    pos = skip_ws(s, pos);
    pos = match expect_byte(s, pos, 44) {
        Ok(p) => p,
        Err(e) => {
            proof {
                assert forall|m: Measure, rest: Seq<u8>| #[trigger]
                    at_measure(s@, i as int, m, rest) implies false by {
                    lemma_at_measure_facts(s@, i as int, m, rest);
                }
            }
            return Err(e);
        },
    };
    let name_ins = key_instructions_vec();
    let instructions = match parse_field(s, pos, &name_ins) {
        Ok((v, p)) => {
            pos = p;
            v
        },
        Err(e) => {
            proof {
                assert forall|m: Measure, rest: Seq<u8>| #[trigger]
                    at_measure(s@, i as int, m, rest) implies false by {
                    lemma_at_measure_facts(s@, i as int, m, rest);
                }
            }
            return Err(e);
        },
    };
    proof {
        assert forall|m: Measure, rest: Seq<u8>| #[trigger]
            at_measure(s@, i as int, m, rest) implies instructions == m.instructions && pos == i + 5
            + ser_field(key_ref_cycles(), m.ref_cycles).len() + ser_field(
            key_instructions(),
            m.instructions,
        ).len() && s@[pos as int] == 44 by {
            lemma_at_measure_facts(s@, i as int, m, rest);
        }
    }
    pos = skip_ws(s, pos);
    pos = match expect_byte(s, pos, 44) {
        Ok(p) => p,
        Err(e) => {
            proof {
                assert forall|m: Measure, rest: Seq<u8>| #[trigger]
                    at_measure(s@, i as int, m, rest) implies false by {
                    lemma_at_measure_facts(s@, i as int, m, rest);
                }
            }
            return Err(e);
        },
    };
    let name_ct = key_cpu_time_vec();
    let cpu_time = match parse_field(s, pos, &name_ct) {
        Ok((v, p)) => {
            pos = p;
            v
        },
        Err(e) => {
            proof {
                assert forall|m: Measure, rest: Seq<u8>| #[trigger]
                    at_measure(s@, i as int, m, rest) implies false by {
                    lemma_at_measure_facts(s@, i as int, m, rest);
                }
            }
            return Err(e);
        },
    };
    proof {
        assert forall|m: Measure, rest: Seq<u8>| #[trigger]
            at_measure(s@, i as int, m, rest) implies cpu_time == m.cpu_time && pos == i + 7
            + ser_field(key_ref_cycles(), m.ref_cycles).len() + ser_field(
            key_instructions(),
            m.instructions,
        ).len() + ser_field(key_cpu_time(), m.cpu_time).len() && s@[pos as int] == 10 by {
            lemma_at_measure_facts(s@, i as int, m, rest);
        }
    }
    pos = skip_ws(s, pos);
    proof {
        assert forall|m: Measure, rest: Seq<u8>| #[trigger]
            at_measure(s@, i as int, m, rest) implies pos == i + 10 + ser_field(
            key_ref_cycles(),
            m.ref_cycles,
        ).len() + ser_field(key_instructions(), m.instructions).len() + ser_field(
            key_cpu_time(),
            m.cpu_time,
        ).len() && s@[pos as int] == 125 by {
            lemma_at_measure_facts(s@, i as int, m, rest);
        }
    }
    pos = match expect_byte(s, pos, 125) {
        Ok(p) => p,
        Err(e) => {
            proof {
                assert forall|m: Measure, rest: Seq<u8>| #[trigger]
                    at_measure(s@, i as int, m, rest) implies false by {
                    lemma_at_measure_facts(s@, i as int, m, rest);
                }
            }
            return Err(e);
        },
    };
    Ok((Measure { ref_cycles, instructions, cpu_time }, pos))
}

/// Bytes that a JSON string holds as themselves, with no escape.
pub open spec fn plain_bytes(n: Seq<u8>) -> bool {
    forall|w: int| 0 <= w < n.len() ==> 32 <= #[trigger] n[w] && n[w] != 34 && n[w] != 92
}

/// A key of plain bytes is its own escaped form.
pub proof fn lemma_esc_bytes_plain(n: Seq<u8>)
    requires
        plain_bytes(n),
    ensures
        esc_bytes(n) == n,
    decreases n.len(),
{
    if n.len() > 0 {
        assert(plain_bytes(n.drop_first())) by {
            assert(forall|w: int|
                0 <= w < n.drop_first().len() ==> n.drop_first()[w] == n[#[trigger] (w + 1)]);
        }
        lemma_esc_bytes_plain(n.drop_first());
        assert(esc_byte(n[0]) =~= seq![n[0]]);
        assert(seq![n[0]] + n.drop_first() =~= n);
    }
}

/// Index transfer: what a known tail says about the whole input.
proof fn lemma_skip_index(s: Seq<u8>, i: int, t: Seq<u8>)
    requires
        0 <= i <= s.len(),
        s.skip(i) == t,
    ensures
        s.len() == i + t.len(),
        forall|w: int| 0 <= w < t.len() ==> s[i + w] == t[w],
{
    assert forall|w: int| 0 <= w < t.len() implies s[i + w] == t[w] by {
        assert(s.skip(i)[w] == s[i + w]);
    }
}

/// Whether the input from position `i` on is a newline, one field line of
/// the canonical record form, and then `rest`.
pub open spec fn at_field(s: Seq<u8>, i: int, name: Seq<u8>, v: u64, rest: Seq<u8>) -> bool {
    s.skip(i) == seq![10u8] + ser_field(name, v) + rest && (rest.len() == 0 || !is_digit(rest[0]))
}

/// What the canonical field shape pins at each position: the newline, the
/// indent, the quoted name, the separator, and the numeral.
proof fn lemma_at_field_facts(s: Seq<u8>, i: int, name: Seq<u8>, v: u64, rest: Seq<u8>)
    requires
        0 <= i <= s.len(),
        at_field(s, i, name, v, rest),
        plain_bytes(name),
    ensures
        s.len() == i + 1 + ser_field(name, v).len() + rest.len(),
        ser_field(name, v).len() == 8 + name.len() + dec_digits(v as nat).len(),
        esc_bytes(name) == name,
        s[i] == 10,
        s[i + 1] == 32 && s[i + 2] == 32 && s[i + 3] == 32 && s[i + 4] == 32,
        s[i + 5] == 34,
        at_string(s, i + 5, name, seq![58u8, 32u8] + dec_digits(v as nat) + rest),
        s[i + 7 + name.len()] == 58,
        s[i + 8 + name.len()] == 32,
        is_digit(s[i + 9 + name.len()]),
        at_numeral(s, i + 9 + name.len(), v, rest),
{
    let sf = ser_field(name, v);
    let dd = dec_digits(v as nat);
    let t = seq![10u8] + sf + rest;
    lemma_skip_index(s, i, t);
    lemma_esc_bytes_plain(name);
    crate::digits::lemma_dec_digits_shape(v as nat);
    assert(s[i + 0] == t[0]);
    assert(s[i + 1] == t[1]);
    assert(s[i + 2] == t[2]);
    assert(s[i + 3] == t[3]);
    assert(s[i + 4] == t[4]);
    assert(s[i + 5] == t[5]);
    assert(s[i + 7 + name.len()] == t[7 + name.len() as int]);
    assert(s[i + 8 + name.len()] == t[8 + name.len() as int]);
    assert(s[i + 9 + name.len()] == t[9 + name.len() as int]);
    assert(s.skip(i + 5) =~= seq![34u8] + esc_bytes(name) + seq![34u8] + (seq![58u8, 32u8] + dd
        + rest)) by {
        assert forall|w: int| 0 <= w < s.len() - (i + 5) implies #[trigger] s.skip(i + 5)[w] == t[w
            + 5] by {
            assert(s.skip(i + 5)[w] == s[i + 5 + w]);
        }
    }
    assert(s.skip(i + 9 + name.len()) =~= dd + rest) by {
        assert forall|w: int| 0 <= w < s.len() - (i + 9 + name.len()) implies #[trigger] s.skip(
            i + 9 + name.len(),
        )[w] == t[w + 9 + name.len()] by {
            assert(s.skip(i + 9 + name.len())[w] == s[i + 9 + name.len() + w]);
        }
    }
    assert(t[7 + name.len() as int] == 58);
    assert(t[8 + name.len() as int] == 32);
    assert(t[9 + name.len() as int] == dd[0]);
}

/// Reads one `"name": value` field, demanding the given field name. On the
/// canonical field shape it returns exactly the written value and consumes
/// exactly the newline and the field line.
fn parse_field(s: &Vec<u8>, i: usize, name: &Vec<u8>) -> (r: Result<(u64, usize), JsonError>)
    requires
        i <= s@.len(),
        plain_bytes(name@),
    ensures
        match r {
            Ok((v, j)) => i <= j <= s@.len(),
            Err(_) => true,
        },
        forall|v: u64, rest: Seq<u8>|
            #[trigger] at_field(s@, i as int, name@, v, rest) ==> (r matches Ok(p) && p.0 == v
                && p.1 == i + 1 + ser_field(name@, v).len()),
{
    let mut pos = skip_ws(s, i);
    proof {
        assert forall|v: u64, rest: Seq<u8>| #[trigger]
            at_field(s@, i as int, name@, v, rest) implies pos == i + 5 by {
            lemma_at_field_facts(s@, i as int, name@, v, rest);
        }
    }
    let key = match parse_string(s, pos) {
        Ok((k, p)) => {
            pos = p;
            k
        },
        Err(e) => {
            proof {
                assert forall|v: u64, rest: Seq<u8>| #[trigger]
                    at_field(s@, i as int, name@, v, rest) implies false by {
                    lemma_at_field_facts(s@, i as int, name@, v, rest);
                }
            }
            return Err(e);
        },
    };
    proof {
        assert forall|v: u64, rest: Seq<u8>| #[trigger]
            at_field(s@, i as int, name@, v, rest) implies key@ == name@ && pos == i + 7
            + name@.len() by {
            lemma_at_field_facts(s@, i as int, name@, v, rest);
        }
    }
    if !crate::result_set::bytes_eq(&key, name) {
        proof {
            assert forall|v: u64, rest: Seq<u8>| #[trigger]
                at_field(s@, i as int, name@, v, rest) implies false by {
                lemma_at_field_facts(s@, i as int, name@, v, rest);
            }
        }
        return Err(JsonError::Unexpected);
    }
    pos = skip_ws(s, pos);
    proof {
        assert forall|v: u64, rest: Seq<u8>| #[trigger]
            at_field(s@, i as int, name@, v, rest) implies pos == i + 7 + name@.len() && s@[pos as int]
            == 58 by {
            lemma_at_field_facts(s@, i as int, name@, v, rest);
        }
    }
    pos = match expect_byte(s, pos, 58) {
        Ok(p) => p,
        Err(e) => {
            proof {
                assert forall|v: u64, rest: Seq<u8>| #[trigger]
                    at_field(s@, i as int, name@, v, rest) implies false by {
                    lemma_at_field_facts(s@, i as int, name@, v, rest);
                }
            }
            return Err(e);
        },
    };
    pos = skip_ws(s, pos);
    proof {
        assert forall|v: u64, rest: Seq<u8>| #[trigger]
            at_field(s@, i as int, name@, v, rest) implies pos == i + 9 + name@.len() && at_numeral(
            s@,
            pos as int,
            v,
            rest,
        ) by {
            lemma_at_field_facts(s@, i as int, name@, v, rest);
        }
    }
    parse_number(s, pos)
}

/// The canonical serialization from the first unconsumed entry's opening
/// quote to the end of the artifact.
pub open spec fn ser_tail(rem: Entries) -> Seq<u8>
    decreases rem.len(),
{
    if rem.len() == 0 {
        seq![10u8, 125u8]
    } else {
        seq![34u8] + esc_bytes(rem[0].0) + seq![34u8, 58u8, 32u8] + ser_measure(rem[0].1) + (
        if rem.len() == 1 {
            seq![10u8, 125u8]
        } else {
            seq![44u8, 10u8, 32u8, 32u8] + ser_tail(rem.drop_first())
        })
    }
}

/// The entry list with its first indent equals the quote-to-end form with
/// the closing line.
proof fn lemma_ser_tail_entries(e: Entries)
    requires
        e.len() >= 1,
    ensures
        seq![32u8, 32u8] + ser_tail(e) == ser_entries(e) + seq![10u8, 125u8],
    decreases e.len(),
{
    if e.len() == 1 {
        assert(seq![32u8, 32u8] + ser_tail(e) =~= ser_entries(e) + seq![10u8, 125u8]);
    } else {
        lemma_ser_tail_entries(e.drop_first());
        assert(seq![32u8, 32u8] + ser_tail(e) =~= (ser_entry(e[0].0, e[0].1) + seq![44u8, 10u8]) + (
        seq![32u8, 32u8] + ser_tail(e.drop_first())));
        assert((ser_entry(e[0].0, e[0].1) + seq![44u8, 10u8]) + (ser_entries(e.drop_first()) + seq![
            10u8,
            125u8,
        ]) =~= ser_entries(e) + seq![10u8, 125u8]);
    }
}

/// Mid-parse state over a canonical artifact: the first `c` entries are
/// read into `cur`, and `pos` stands at the next entry's opening quote.
pub open spec fn ent_state(s: Seq<u8>, pos: int, e: Entries, c: int, cur: Entries) -> bool {
    0 <= c < e.len() && cur == e.take(c) && s.skip(pos) == ser_tail(e.skip(c))
}

/// What the canonical artifact pins at a mid-parse state: the quoted key,
/// the record, and the separator or closing line after them.
proof fn lemma_ent_facts(s: Seq<u8>, pos: int, e: Entries, c: int)
    requires
        0 <= pos <= s.len(),
        0 <= c < e.len(),
        s.skip(pos) == ser_tail(e.skip(c)),
    ensures
        ({
            let k = e[c].0;
            let m = e[c].1;
            let kq = 2 + esc_bytes(k).len();
            let q = pos + kq + 2 + ser_measure(m).len();
            let rest_m = if c + 1 == e.len() {
                seq![10u8, 125u8]
            } else {
                seq![44u8, 10u8, 32u8, 32u8] + ser_tail(e.skip(c + 1))
            };
            &&& at_string(s, pos, k, seq![58u8, 32u8] + ser_measure(m) + rest_m)
            &&& s[pos + kq] == 58
            &&& at_measure(s, pos + kq + 1, m, rest_m)
            &&& q + rest_m.len() == s.len()
            &&& (c + 1 == e.len() ==> q + 2 == s.len() && s[q] == 10 && s[q + 1] == 125)
            &&& (c + 1 < e.len() ==> s[q] == 44 && s[q + 1] == 10 && s[q + 2] == 32 && s[q + 3]
                == 32 && s.skip(q + 4) == ser_tail(e.skip(c + 1)))
        }),
{
    let k = e[c].0;
    let m = e[c].1;
    let kq = 2 + esc_bytes(k).len();
    let q = pos + kq + 2 + ser_measure(m).len();
    let rest_m = if c + 1 == e.len() {
        seq![10u8, 125u8]
    } else {
        seq![44u8, 10u8, 32u8, 32u8] + ser_tail(e.skip(c + 1))
    };
    let rem = e.skip(c);
    assert(rem[0] == e[c]);
    assert(rem.drop_first() =~= e.skip(c + 1));
    assert(rem.len() == e.len() - c);
    let t = ser_tail(rem);
    assert(t == seq![34u8] + esc_bytes(k) + seq![34u8, 58u8, 32u8] + ser_measure(m) + rest_m);
    lemma_skip_index(s, pos, t);
    assert(s.skip(pos) =~= seq![34u8] + esc_bytes(k) + seq![34u8] + (seq![58u8, 32u8]
        + ser_measure(m) + rest_m));
    assert(s[pos + kq] == t[kq as int]);
    assert(t[kq as int] == 58);
    assert(s.skip(pos + kq + 1) =~= seq![32u8] + ser_measure(m) + rest_m) by {
        assert forall|w: int| 0 <= w < s.len() - (pos + kq + 1) implies #[trigger] s.skip(
            pos + kq + 1,
        )[w] == t[w + kq + 1] by {
            assert(s.skip(pos + kq + 1)[w] == s[pos + kq + 1 + w]);
        }
    }
    assert(s[q] == t[q - pos]);
    assert(s[q + 1] == t[q - pos + 1]);
    if c + 1 < e.len() {
        assert(s[q + 2] == t[q - pos + 2]);
        assert(s[q + 3] == t[q - pos + 3]);
        assert(s.skip(q + 4) =~= ser_tail(e.skip(c + 1))) by {
            assert forall|w: int| 0 <= w < s.len() - (q + 4) implies #[trigger] s.skip(q + 4)[w]
                == t[w + (q + 4 - pos)] by {
                assert(s.skip(q + 4)[w] == s[q + 4 + w]);
            }
        }
    }
}

/// A key from beyond the consumed prefix of a uniquely keyed entry list is
/// not yet present in it.
proof fn lemma_fresh_key(e: Entries, c: int)
    requires
        crate::result_set::unique_keys(e),
        0 <= c < e.len(),
    ensures
        !crate::result_set::contains_key(e.take(c), e[c].0),
{
    if crate::result_set::contains_key(e.take(c), e[c].0) {
        crate::result_set::lemma_get_witness(e.take(c), e[c].0);
        let w = crate::result_set::key_index(e.take(c), e[c].0);
        assert(e.take(c)[w] == e[w]);
        assert(false);
    }
}

/// Parses a persisted artifact back into a result set.
///
/// The reader accepts the canonical form the writer emits, with arbitrary
/// blank space between tokens; a later entry with a repeated key replaces
/// the earlier one. Any malformed input is refused with the reason. The
/// result set returned is always well formed, and the round trip is exact:
/// on the canonical serialization of any uniquely keyed entry list, the
/// parse succeeds and returns exactly those entries, in order.
#[verifier::rlimit(80)]
pub fn from_json(s: &Vec<u8>) -> (r: Result<ResultSet, JsonError>)
    ensures
        match r {
            Ok(rs) => rs.wf(),
            Err(_) => true,
        },
        forall|e: Entries|
            (crate::result_set::unique_keys(e) && s@ == #[trigger] spec_ser(e)) ==> (r matches Ok(
                rs,
            ) && rs@ == e),
{
    let n = s.len();
    let mut rs = ResultSet::new();
    let mut pos = skip_ws(s, 0);
    proof {
        assert forall|e: Entries|
            crate::result_set::unique_keys(e) && s@ == #[trigger] spec_ser(e) implies pos == 0
            && s@[0] == 123 by {
            assert(s@[0] == spec_ser(e)[0]);
            assert(s@.skip(0) =~= s@);
        }
    }
    pos = match expect_byte(s, pos, 123) {
        Ok(p) => p,
        Err(e) => {
            return Err(e);
        },
    };
    pos = skip_ws(s, pos);
    proof {
        assert forall|e: Entries|
            crate::result_set::unique_keys(e) && s@ == #[trigger] spec_ser(e) implies (e.len() == 0
                ==> pos == 1 && s@[1] == 125 && s@.len() == 2) && (e.len() > 0 ==> pos == 4
                && s@[4] == 34 && ent_state(s@, 4, e, 0, rs@)) by {
            if e.len() == 0 {
                assert(s@.len() == 2);
                assert(s@[1] == spec_ser(e)[1]);
                assert(pos == 1);
            } else {
                lemma_ser_tail_entries(e);
                assert(s@ =~= seq![123u8, 10u8] + (ser_entries(e) + seq![10u8, 125u8]));
                assert(seq![123u8, 10u8] + (seq![32u8, 32u8] + ser_tail(e)) =~= seq![
                    123u8,
                    10u8,
                    32u8,
                    32u8,
                ] + ser_tail(e));
                assert(s@ == seq![123u8, 10u8, 32u8, 32u8] + ser_tail(e));
                assert(s@.skip(0) =~= s@);
                lemma_skip_index(s@, 0, s@);
                assert(s@[1] == 10 && s@[2] == 32 && s@[3] == 32);
                assert(ser_tail(e)[0] == 34);
                assert(s@[4] == 34);
                assert(s@.skip(4) =~= ser_tail(e)) by {
                    assert forall|w: int| 0 <= w < s@.len() - 4 implies #[trigger] s@.skip(4)[w]
                        == ser_tail(e)[w] by {
                        assert(s@.skip(4)[w] == s@[4 + w]);
                        assert(s@[4 + w] == (seq![123u8, 10u8, 32u8, 32u8] + ser_tail(e))[4 + w]);
                    }
                }
                assert(e.take(0) =~= Seq::<(Seq<u8>, Measure)>::empty());
                assert(rs@ == e.take(0));
                assert(e.skip(0) =~= e);
                assert(s@.len() > 4);
                assert(pos == 4);
                assert(ent_state(s@, 4, e, 0, rs@));
            }
        }
    }
    let ghost pos_open = pos as int;
    if pos < n && s[pos] == 125 {
        pos += 1;
        proof {
            assert forall|e: Entries|
                crate::result_set::unique_keys(e) && s@ == #[trigger] spec_ser(e) implies rs@ == e
                && pos == s@.len() by {
                if e.len() > 0 {
                    assert(s@[pos_open] == 125);
                    assert(false);
                }
                assert(rs@ =~= e);
            }
        }
    } else {
        loop
            invariant_except_break
                forall|e: Entries|
                    (crate::result_set::unique_keys(e) && s@ == #[trigger] spec_ser(e)) ==> (0
                        <= rs@.len() < e.len() && ent_state(s@, pos as int, e, rs@.len() as int, rs@)),
            invariant
                rs.wf(),
                pos <= n == s@.len(),
            ensures
                rs.wf(),
                pos <= n == s@.len(),
                forall|e: Entries|
                    (crate::result_set::unique_keys(e) && s@ == #[trigger] spec_ser(e)) ==> (rs@
                        == e && pos == s@.len()),
            decreases n - pos,
        {
            let ghost pos0 = pos as int;
            let ghost rs0 = rs@;
            let ghost c0 = rs0.len() as int;
            let key = match parse_string(s, pos) {
                Ok((k, p)) => {
                    pos = p;
                    k
                },
                Err(e) => {
                    proof {
                        assert forall|e2: Entries|
                            crate::result_set::unique_keys(e2) && s@ == #[trigger] spec_ser(
                                e2,
                            ) implies false by {
                            lemma_ent_facts(s@, pos0, e2, c0);
                        }
                    }
                    return Err(e);
                },
            };
            let ghost pos_a = pos as int;
            pos = skip_ws(s, pos);
            let ghost pos_b = pos as int;
            pos = match expect_byte(s, pos, 58) {
                Ok(p) => p,
                Err(e) => {
                    proof {
                        assert forall|e2: Entries|
                            crate::result_set::unique_keys(e2) && s@ == #[trigger] spec_ser(
                                e2,
                            ) implies false by {
                            lemma_ent_facts(s@, pos0, e2, c0);
                            assert(pos_a == pos0 + 2 + esc_bytes(e2[c0].0).len());
                            assert(s@[pos_a] == 58);
                            assert(pos_b == pos_a);
                        }
                    }
                    return Err(e);
                },
            };
            let ghost pos_c = pos as int;
            let m = match parse_measure(s, pos) {
                Ok((m, p)) => {
                    pos = p;
                    m
                },
                Err(e) => {
                    proof {
                        assert forall|e2: Entries|
                            crate::result_set::unique_keys(e2) && s@ == #[trigger] spec_ser(
                                e2,
                            ) implies false by {
                            lemma_ent_facts(s@, pos0, e2, c0);
                            assert(pos_a == pos0 + 2 + esc_bytes(e2[c0].0).len());
                            assert(s@[pos_a] == 58);
                            assert(pos_b == pos_a);
                            assert(pos_c == pos_a + 1);
                        }
                    }
                    return Err(e);
                },
            };
            let ghost pos_d = pos as int;
            proof {
                assert forall|e2: Entries|
                    crate::result_set::unique_keys(e2) && s@ == #[trigger] spec_ser(
                        e2,
                    ) implies key@ == e2[c0].0 && m == e2[c0].1 && !crate::result_set::contains_key(
                    rs0,
                    key@,
                ) && pos_d == pos0 + 2 + esc_bytes(e2[c0].0).len() + 2 + ser_measure(
                    e2[c0].1,
                ).len() by {
                    lemma_ent_facts(s@, pos0, e2, c0);
                    assert(pos_a == pos0 + 2 + esc_bytes(e2[c0].0).len());
                    assert(pos_b == pos_a);
                    assert(pos_c == pos_a + 1);
                    lemma_fresh_key(e2, c0);
                }
            }
            rs.insert(key, m);
            pos = skip_ws(s, pos);
            let ghost pos_e = pos as int;
            if pos >= n {
                proof {
                    assert forall|e2: Entries|
                        crate::result_set::unique_keys(e2) && s@ == #[trigger] spec_ser(
                            e2,
                        ) implies false by {
                        lemma_ent_facts(s@, pos0, e2, c0);
                        assert(pos_a == pos0 + 2 + esc_bytes(e2[c0].0).len());
                        assert(pos_b == pos_a);
                        assert(pos_c == pos_a + 1);
                        let q = pos0 + 2 + esc_bytes(e2[c0].0).len() + 2 + ser_measure(
                            e2[c0].1,
                        ).len();
                        assert(pos_d == q);
                        if c0 + 1 == e2.len() {
                            assert(s@[q] == 10 && s@[q + 1] == 125);
                            assert(pos_e <= q + 1);
                        } else {
                            assert(s@[q] == 44);
                            assert(pos_e <= q);
                        }
                    }
                }
                return Err(JsonError::Truncated);
            }
            let b = s[pos];
            if b == 44 {
                pos += 1;
                pos = skip_ws(s, pos);
                proof {
                    assert(pos > pos0);
                    assert forall|e2: Entries|
                        crate::result_set::unique_keys(e2) && s@ == #[trigger] spec_ser(
                            e2,
                        ) implies (0 <= rs@.len() < e2.len() && ent_state(
                        s@,
                        pos as int,
                        e2,
                        rs@.len() as int,
                        rs@,
                    )) by {
                        lemma_ent_facts(s@, pos0, e2, c0);
                        assert(pos_a == pos0 + 2 + esc_bytes(e2[c0].0).len());
                        assert(pos_b == pos_a);
                        assert(pos_c == pos_a + 1);
                        let q = pos0 + 2 + esc_bytes(e2[c0].0).len() + 2 + ser_measure(
                            e2[c0].1,
                        ).len();
                        assert(pos_d == q);
                        assert(rs@ =~= e2.take(c0 + 1));
                        if c0 + 1 == e2.len() {
                            assert(s@[q] == 10);
                            assert(pos_e == q + 1);
                            assert(s@[pos_e] == 125);
                            assert(false);
                        }
                        assert(s@[q] == 44);
                        assert(pos_e == q);
                        assert(s@.skip(q + 4) == ser_tail(e2.skip(c0 + 1)));
                        assert(ser_tail(e2.skip(c0 + 1))[0] == 34);
                        assert(s@[q + 4] == 34);
                        assert(s@[q + 1] == 10 && s@[q + 2] == 32 && s@[q + 3] == 32);
                        assert(pos == q + 4);
                        assert(rs@.len() == c0 + 1);
                    }
                }
            } else if b == 125 {
                pos += 1;
                proof {
                    assert forall|e2: Entries|
                        crate::result_set::unique_keys(e2) && s@ == #[trigger] spec_ser(
                            e2,
                        ) implies rs@ == e2 && pos == s@.len() by {
                        lemma_ent_facts(s@, pos0, e2, c0);
                        assert(pos_a == pos0 + 2 + esc_bytes(e2[c0].0).len());
                        assert(pos_b == pos_a);
                        assert(pos_c == pos_a + 1);
                        let q = pos0 + 2 + esc_bytes(e2[c0].0).len() + 2 + ser_measure(
                            e2[c0].1,
                        ).len();
                        assert(pos_d == q);
                        assert(rs@ =~= e2.take(c0 + 1));
                        if c0 + 1 < e2.len() {
                            assert(s@[q] == 44);
                            assert(pos_e == q);
                            assert(s@[pos_e] == 44);
                            assert(false);
                        }
                        assert(s@[q] == 10 && s@[q + 1] == 125);
                        assert(pos_e == q + 1);
                        assert(pos == q + 2 == s@.len());
                        assert(e2.take(c0 + 1) =~= e2);
                    }
                }
                break ;
            } else {
                proof {
                    assert forall|e2: Entries|
                        crate::result_set::unique_keys(e2) && s@ == #[trigger] spec_ser(
                            e2,
                        ) implies false by {
                        lemma_ent_facts(s@, pos0, e2, c0);
                        assert(pos_a == pos0 + 2 + esc_bytes(e2[c0].0).len());
                        assert(pos_b == pos_a);
                        assert(pos_c == pos_a + 1);
                        let q = pos0 + 2 + esc_bytes(e2[c0].0).len() + 2 + ser_measure(
                            e2[c0].1,
                        ).len();
                        assert(pos_d == q);
                        if c0 + 1 == e2.len() {
                            assert(s@[q] == 10 && s@[q + 1] == 125);
                            assert(pos_e == q + 1);
                            assert(s@[pos_e] == 125);
                        } else {
                            assert(s@[q] == 44);
                            assert(pos_e == q);
                            assert(s@[pos_e] == 44);
                        }
                    }
                }
                return Err(JsonError::Unexpected);
            }
        }
    }
    let ghost pos_done = pos as int;
    pos = skip_ws(s, pos);
    if pos != n {
        proof {
            assert forall|e: Entries|
                crate::result_set::unique_keys(e) && s@ == #[trigger] spec_ser(e) implies false by {
                assert(pos_done == s@.len());
            }
        }
        return Err(JsonError::Unexpected);
    }
    Ok(rs)
}

} // verus!
