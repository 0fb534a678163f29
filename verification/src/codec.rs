//! Persistence codec: the store's records as a structured text file.
//!
//! The on-disk form is a JSON array of objects, one per record, holding the
//! two sample bit patterns and the Unix-seconds timestamp as plain integers:
//! `[{"temperature_bits":N,"humidity_bits":N,"timestamp":N}]`. Writing and
//! reading are both verified here, and decoding provably inverts encoding
//! for every record sequence that fits the store, so a persisted history
//! reloads field-for-field.

use vstd::prelude::*;

use crate::data::{Reading, Record};
use crate::store::CAP;

verus! {

/// ASCII decimal digit.
pub open spec fn is_digit(c: u8) -> bool {
    48 <= c <= 57
}

/// Every byte of `s` is an ASCII decimal digit.
pub open spec fn is_digit_seq(s: Seq<u8>) -> bool {
    forall|k: int| 0 <= k < s.len() ==> is_digit(s[k])
}

/// Decimal digits of `n`, most significant first.
pub open spec fn u64_dec(n: nat) -> Seq<u8>
    decreases n,
{
    if n < 10 {
        seq![(48 + n) as u8]
    } else {
        u64_dec(n / 10).push((48 + n % 10) as u8)
    }
}

/// Decimal form of `v`: a leading minus sign for negative values.
pub open spec fn i64_dec(v: int) -> Seq<u8> {
    if v < 0 {
        seq![45u8] + u64_dec((-v) as nat)
    } else {
        u64_dec(v as nat)
    }
}

/// Numeric value of a digit string (most significant digit first).
pub open spec fn dec_val(s: Seq<u8>) -> int
    decreases s.len(),
{
    if s.len() == 0 {
        0
    } else {
        10 * dec_val(s.drop_last()) + s.last() - 48
    }
}

/// The bytes of `{"temperature_bits":`.
pub open spec fn temp_key() -> Seq<u8> {
    seq![123u8, 34, 116, 101, 109, 112, 101, 114, 97, 116, 117, 114, 101, 95, 98, 105, 116, 115, 34, 58]
}

/// The bytes of `,"humidity_bits":`.
pub open spec fn humi_key() -> Seq<u8> {
    seq![44u8, 34, 104, 117, 109, 105, 100, 105, 116, 121, 95, 98, 105, 116, 115, 34, 58]
}

/// The bytes of `,"timestamp":`.
pub open spec fn ts_key() -> Seq<u8> {
    seq![44u8, 34, 116, 105, 109, 101, 115, 116, 97, 109, 112, 34, 58]
}

/// The encoding of one record: a JSON object with the three integer fields.
pub open spec fn enc_rec(r: Record) -> Seq<u8> {
    temp_key() + u64_dec(r.value.temperature_bits as nat) + humi_key() + u64_dec(
        r.value.humidity_bits as nat,
    ) + ts_key() + i64_dec(r.date as int) + seq![125u8]
}

/// The encoding that remains after the opening bracket and the first `i`
/// records (with their separators) have been emitted.
pub open spec fn enc_rest(rs: Seq<Record>, i: int) -> Seq<u8>
    decreases rs.len() - i,
{
    if i >= rs.len() {
        seq![93u8]
    } else {
        seq![44u8] + enc_rec(rs[i]) + enc_rest(rs, i + 1)
    }
}

/// The full encoding of a record sequence: a JSON array.
pub open spec fn enc_records(rs: Seq<Record>) -> Seq<u8> {
    if rs.len() == 0 {
        seq![91u8, 93u8]
    } else {
        seq![91u8] + enc_rec(rs[0]) + enc_rest(rs, 1)
    }
}

/// The bytes of `b` from position `p` on are exactly `t`, then anything.
pub open spec fn starts_at(b: Seq<u8>, p: int, t: Seq<u8>) -> bool {
    0 <= p && p + t.len() <= b.len() && b.subrange(p, p + t.len()) == t
}

/// Position `q` of `b` is the end of the input or holds a non-digit.
pub open spec fn nondigit_after(b: Seq<u8>, q: int) -> bool {
    q == b.len() || (0 <= q < b.len() && !is_digit(b[q]))
}

/// The bytes of `b` from position `p` to the end.
pub open spec fn rem(b: Seq<u8>, p: int) -> Seq<u8> {
    b.subrange(p, b.len() as int)
}

/// Element-wise reading of a known prefix: each byte of `t` sits at its
/// offset from `p` in `b`.
pub proof fn lemma_starts_at_index(b: Seq<u8>, p: int, t: Seq<u8>)
    requires
        starts_at(b, p, t),
    ensures
        forall|k: int| 0 <= k < t.len() ==> b[p + k] == #[trigger] t[k],
{
    assert forall|k: int| 0 <= k < t.len() implies b[p + k] == t[k] by {
        assert(b.subrange(p, p + t.len() as int)[k] == t[k]);
    }
}

/// Splitting a known remainder: if everything from `p` on reads `x + y`,
/// then `x` sits at `p` and everything from `p + |x|` on reads `y`.
pub proof fn lemma_rem_split(b: Seq<u8>, p: int, x: Seq<u8>, y: Seq<u8>)
    requires
        0 <= p <= b.len(),
        rem(b, p) == x + y,
    ensures
        starts_at(b, p, x),
        rem(b, p + x.len()) == y,
{
    assert(rem(b, p).len() == b.len() - p);
    assert(x.len() + y.len() == b.len() - p);
    assert forall|k: int| 0 <= k < x.len() implies #[trigger] b.subrange(
        p,
        p + x.len() as int,
    )[k] == x[k] by {
        assert(rem(b, p)[k] == (x + y)[k]);
        assert(rem(b, p)[k] == b[p + k]);
        assert(b.subrange(p, p + x.len() as int)[k] == b[p + k]);
    }
    assert(b.subrange(p, p + x.len() as int) =~= x);
    assert forall|k: int| 0 <= k < y.len() implies #[trigger] rem(b, p + x.len())[k] == y[k] by {
        assert(rem(b, p)[x.len() + k] == (x + y)[x.len() + k]);
        assert(rem(b, p)[x.len() + k] == b[p + x.len() + k]);
        assert(rem(b, p + x.len())[k] == b[p + x.len() + k]);
    }
    assert(rem(b, p + x.len()) =~= y);
}

/// Splitting a known prefix: if `x + y` sits at `p`, then `x` sits at `p`
/// and `y` sits at `p + |x|`.
pub proof fn lemma_starts_split(b: Seq<u8>, p: int, x: Seq<u8>, y: Seq<u8>)
    requires
        starts_at(b, p, x + y),
    ensures
        starts_at(b, p, x),
        starts_at(b, p + x.len(), y),
{
    lemma_starts_at_index(b, p, x + y);
    assert forall|k: int| 0 <= k < x.len() implies #[trigger] b.subrange(
        p,
        p + x.len() as int,
    )[k] == x[k] by {
        assert((x + y)[k] == x[k]);
        assert(b[p + k] == (x + y)[k]);
        assert(b.subrange(p, p + x.len() as int)[k] == b[p + k]);
    }
    assert(b.subrange(p, p + x.len() as int) =~= x);
    assert forall|k: int| 0 <= k < y.len() implies #[trigger] b.subrange(
        p + x.len(),
        p + x.len() + y.len() as int,
    )[k] == y[k] by {
        assert((x + y)[x.len() + k] == y[k]);
        assert(b[p + x.len() + k] == (x + y)[x.len() + k]);
        assert(b.subrange(p + x.len(), p + x.len() + y.len() as int)[k] == b[p + x.len() + k]);
    }
    assert(b.subrange(p + x.len(), p + x.len() + y.len() as int) =~= y);
}

/// The decimal digits of `n` are digits, and there is at least one.
pub proof fn lemma_u64_dec_digits(n: nat)
    ensures
        u64_dec(n).len() >= 1,
        is_digit_seq(u64_dec(n)),
    decreases n,
{
    if n >= 10 {
        lemma_u64_dec_digits(n / 10);
        assert forall|k: int| 0 <= k < u64_dec(n).len() implies is_digit(u64_dec(n)[k]) by {
            if k < u64_dec(n / 10).len() {
                assert(u64_dec(n)[k] == u64_dec(n / 10)[k]);
            }
        }
    }
}

/// Reading the digits of `n` back gives `n`.
pub proof fn lemma_u64_dec_val(n: nat)
    ensures
        dec_val(u64_dec(n)) == n,
    decreases n,
{
    if n < 10 {
        assert(u64_dec(n).drop_last() =~= Seq::<u8>::empty());
        assert(dec_val(Seq::<u8>::empty()) == 0);
        assert(u64_dec(n).last() == (48 + n) as u8);
        assert((48 + n) as u8 == 48 + n);
    } else {
        lemma_u64_dec_val(n / 10);
        assert(u64_dec(n).drop_last() =~= u64_dec(n / 10));
        assert(u64_dec(n).last() == (48 + n % 10) as u8);
        assert((48 + n % 10) as u8 == 48 + n % 10);
        assert(n == 10 * (n / 10) + n % 10) by (nonlinear_arith);
    }
}

/// A digit string's value is non-negative.
pub proof fn lemma_dec_val_nonneg(s: Seq<u8>)
    requires
        is_digit_seq(s),
    ensures
        dec_val(s) >= 0,
    decreases s.len(),
{
    if s.len() > 0 {
        assert(is_digit_seq(s.drop_last()));
        lemma_dec_val_nonneg(s.drop_last());
    }
}

/// A prefix of a digit string never exceeds the whole string's value.
pub proof fn lemma_dec_val_prefix(s: Seq<u8>, i: int)
    requires
        is_digit_seq(s),
        0 <= i <= s.len(),
    ensures
        dec_val(s.take(i)) <= dec_val(s),
    decreases s.len() - i,
{
    if i < s.len() {
        lemma_dec_val_prefix(s, i + 1);
        assert(s.take(i + 1).drop_last() =~= s.take(i));
        assert(is_digit_seq(s.take(i)));
        lemma_dec_val_nonneg(s.take(i));
        assert(dec_val(s.take(i + 1)) == 10 * dec_val(s.take(i)) + s[i] - 48);
    } else {
        assert(s.take(i) =~= s);
    }
}

/// The digits of a positive value never start with a zero.
pub proof fn lemma_u64_dec_first(n: nat)
    ensures
        n >= 1 ==> u64_dec(n)[0] != 48,
    decreases n,
{
    if n >= 10 {
        lemma_u64_dec_first(n / 10);
        lemma_u64_dec_digits(n / 10);
        assert(u64_dec(n)[0] == u64_dec(n / 10)[0]);
    }
}

/// A digit string with a non-zero leading digit has a positive value.
pub proof fn lemma_dec_val_pos(t: Seq<u8>)
    requires
        is_digit_seq(t),
        t.len() >= 1,
        t[0] != 48,
    ensures
        dec_val(t) >= 1,
    decreases t.len(),
{
    if t.len() == 1 {
        assert(t.drop_last() =~= Seq::<u8>::empty());
        assert(dec_val(Seq::<u8>::empty()) == 0);
        assert(t.last() == t[0]);
    } else {
        let head = t.drop_last();
        assert forall|k: int| 0 <= k < head.len() implies is_digit(head[k]) by {
            assert(head[k] == t[k]);
        }
        assert(head[0] == t[0]);
        lemma_dec_val_pos(head);
        assert(t.last() >= 48);
    }
}

/// A canonical digit string — non-empty, no leading zero unless it is the
/// single digit zero — is exactly the digit string of its value.
pub proof fn lemma_dec_unique(t: Seq<u8>)
    requires
        is_digit_seq(t),
        t.len() >= 1,
        t.len() > 1 ==> t[0] != 48,
    ensures
        t =~= u64_dec(dec_val(t) as nat),
    decreases t.len(),
{
    lemma_dec_val_nonneg(t);
    let v = dec_val(t) as nat;
    if t.len() == 1 {
        assert(t.drop_last() =~= Seq::<u8>::empty());
        assert(dec_val(Seq::<u8>::empty()) == 0);
        assert(t.last() == t[0]);
        assert(v == t[0] - 48);
        assert(u64_dec(v) == seq![(48 + v) as u8]);
        assert((48 + v) as u8 == t[0]);
    } else {
        let head = t.drop_last();
        assert forall|k: int| 0 <= k < head.len() implies is_digit(head[k]) by {
            assert(head[k] == t[k]);
        }
        assert(head[0] == t[0]);
        lemma_dec_val_pos(head);
        lemma_dec_val_nonneg(head);
        let hv = dec_val(head);
        let d = t.last() - 48;
        assert(0 <= d <= 9);
        assert(v == 10 * hv + d);
        assert(v >= 10);
        assert(v / 10 == hv && v % 10 == d) by (nonlinear_arith)
            requires
                v == 10 * hv + d,
                0 <= d <= 9,
                hv >= 1,
        ;
        lemma_dec_unique(head);
        assert(u64_dec(v) == u64_dec(v / 10).push((48 + v % 10) as u8));
        assert(u64_dec(v / 10) =~= head);
        assert((48 + v % 10) as u8 == t.last());
        assert(t =~= head.push(t.last()));
        assert(t =~= u64_dec(v));
    }
}

/// Joining two known adjacent prefixes into one.
pub proof fn lemma_starts_join(b: Seq<u8>, p: int, x: Seq<u8>, y: Seq<u8>)
    requires
        starts_at(b, p, x),
        starts_at(b, p + x.len(), y),
    ensures
        starts_at(b, p, x + y),
{
    lemma_starts_at_index(b, p, x);
    lemma_starts_at_index(b, p + x.len(), y);
    assert forall|k: int| 0 <= k < (x + y).len() implies #[trigger] b.subrange(
        p,
        p + (x + y).len() as int,
    )[k] == (x + y)[k] by {
        assert(b.subrange(p, p + (x + y).len() as int)[k] == b[p + k]);
        if k < x.len() {
            assert(b[p + k] == x[k]);
        } else {
            assert(b[p + x.len() + (k - x.len())] == y[k - x.len()]);
        }
    }
    assert(b.subrange(p, p + (x + y).len() as int) =~= x + y);
}

/// A range of bytes reads as its two halves, concatenated.
pub proof fn lemma_subrange_concat(b: Seq<u8>, p: int, q: int, r: int)
    requires
        0 <= p <= q <= r <= b.len(),
    ensures
        b.subrange(p, r) =~= b.subrange(p, q) + b.subrange(q, r),
{
    assert forall|k: int| 0 <= k < r - p implies #[trigger] b.subrange(p, r)[k] == (b.subrange(
        p,
        q,
    ) + b.subrange(q, r))[k] by {
        assert(b.subrange(p, r)[k] == b[p + k]);
        if k < q - p {
            assert(b.subrange(p, q)[k] == b[p + k]);
        } else {
            assert(b.subrange(q, r)[k - (q - p)] == b[q + (k - (q - p))]);
        }
    }
}

/// Append the decimal digits of `n` to `out`.
fn push_u64_dec(out: &mut Vec<u8>, n: u64)
    ensures
        final(out)@ == old(out)@ + u64_dec(n as nat),
    decreases n,
{
    if n < 10 {
        out.push(48 + n as u8);
        assert(out@ =~= old(out)@ + u64_dec(n as nat));
    } else {
        push_u64_dec(out, n / 10);
        out.push(48 + (n % 10) as u8);
        assert(out@ =~= old(out)@ + u64_dec(n as nat));
    }
}

/// Append the decimal form of `v` to `out`, minus sign included.
fn push_i64_dec(out: &mut Vec<u8>, v: i64)
    ensures
        final(out)@ == old(out)@ + i64_dec(v as int),
{
    if v >= 0 {
        push_u64_dec(out, v as u64);
    } else {
        out.push(45);
        let m: u64 = (-(v + 1)) as u64 + 1;
        assert(m as nat == (-(v as int)) as nat);
        push_u64_dec(out, m);
        assert(out@ =~= old(out)@ + i64_dec(v as int));
    }
}

/// Scan a run of decimal digits at the cursor and return its value.
/// Whenever the input at the cursor reads the canonical digits of some
/// `n: u64` followed by a non-digit, the scan yields exactly `n` and stops
/// exactly at that boundary.
fn parse_u64(b: &Vec<u8>, pos: &mut usize) -> (r: Option<u64>)
    requires
        *old(pos) <= b@.len(),
    ensures
        *old(pos) <= *final(pos) <= b@.len(),
        forall|n: u64|
            (starts_at(b@, *old(pos) as int, u64_dec(n as nat)) && nondigit_after(
                b@,
                *old(pos) + u64_dec(n as nat).len(),
            )) ==> r == Some(n) && *final(pos) == *old(pos) + u64_dec(n as nat).len(),
        r matches Some(n) ==> starts_at(b@, *old(pos) as int, u64_dec(n as nat)) && *final(pos)
            == *old(pos) + u64_dec(n as nat).len() && nondigit_after(b@, *final(pos) as int),
{
    let len = b.len();
    let start = *pos;
    let mut val: u64 = 0;
    while *pos < len && 48 <= b[*pos] && b[*pos] <= 57
        invariant
            start <= *pos <= len,
            len == b@.len(),
            start == *old(pos),
            forall|k: int| start <= k < *pos ==> is_digit(b@[k]),
            val == dec_val(b@.subrange(start as int, *pos as int)),
        decreases len - *pos,
    {
        let d = b[*pos] - 48;
        if val > u64::MAX / 10 || (val == u64::MAX / 10 && d > 5) {
            proof {
                assert forall|n: u64|
                    (starts_at(b@, start as int, u64_dec(n as nat)) && nondigit_after(
                        b@,
                        start + u64_dec(n as nat).len(),
                    )) implies false by {
                    let dn = u64_dec(n as nat);
                    lemma_u64_dec_digits(n as nat);
                    lemma_u64_dec_val(n as nat);
                    lemma_starts_at_index(b@, start as int, dn);
                    let i = *pos - start;
                    assert(i < dn.len()) by {
                        if i >= dn.len() {
                            if start + dn.len() == b@.len() {
                                assert(*pos < b@.len());
                            } else {
                                assert(!is_digit(b@[start + dn.len()]));
                                if i == dn.len() {
                                    assert(is_digit(b@[*pos as int]));
                                } else {
                                    assert(is_digit(b@[start + dn.len()]));
                                }
                            }
                        }
                    }
                    let scanned = b@.subrange(start as int, *pos as int);
                    assert forall|k: int| 0 <= k < i implies scanned[k] == dn.take(i)[k] by {
                        assert(scanned[k] == b@[start + k]);
                        assert(b@[start + k] == dn[k]);
                    }
                    assert(scanned =~= dn.take(i));
                    assert(dn.take(i + 1).drop_last() =~= dn.take(i));
                    assert(dn.take(i + 1).last() == dn[i]);
                    assert(dn[i] == b@[*pos as int]);
                    assert(dec_val(dn.take(i)) == val);
                    assert(dec_val(dn.take(i + 1)) == 10 * val + (b@[*pos as int] - 48));
                    lemma_dec_val_prefix(dn, i + 1);
                    assert(dec_val(dn) == n);
                    assert(10 * val + (b@[*pos as int] - 48) > u64::MAX);
                }
            }
            return None;
        }
        val = val * 10 + d as u64;
        *pos += 1;
        proof {
            let sub = b@.subrange(start as int, *pos as int);
            assert(sub.drop_last() =~= b@.subrange(start as int, *pos - 1));
            assert(sub.last() == b@[*pos - 1]);
        }
    }
    if *pos == start {
        proof {
            assert forall|n: u64|
                (starts_at(b@, start as int, u64_dec(n as nat)) && nondigit_after(
                    b@,
                    start + u64_dec(n as nat).len(),
                )) implies false by {
                let dn = u64_dec(n as nat);
                lemma_u64_dec_digits(n as nat);
                lemma_starts_at_index(b@, start as int, dn);
                assert(b@[start as int] == dn[0]);
                assert(is_digit(dn[0]));
                assert(start < b@.len());
            }
        }
        return None;
    }
    if *pos - start > 1 && b[start] == 48 {
        proof {
            assert forall|n: u64|
                (starts_at(b@, start as int, u64_dec(n as nat)) && nondigit_after(
                    b@,
                    start + u64_dec(n as nat).len(),
                )) implies false by {
                let dn = u64_dec(n as nat);
                lemma_u64_dec_digits(n as nat);
                lemma_u64_dec_first(n as nat);
                lemma_starts_at_index(b@, start as int, dn);
                assert(b@[start as int + 0] == dn[0]);
                // a leading zero forces n == 0, whose digit run ends at once
                assert(n == 0);
                assert(dn.len() == 1);
                assert(is_digit(b@[start + 1]));
            }
        }
        return None;
    }
    proof {
        let scanned = b@.subrange(start as int, *pos as int);
        assert forall|k: int| 0 <= k < scanned.len() implies is_digit(scanned[k]) by {
            assert(scanned[k] == b@[start + k]);
        }
        if scanned.len() > 1 {
            assert(scanned[0] == b@[start as int]);
        }
        lemma_dec_unique(scanned);
        assert(scanned =~= u64_dec(val as nat));
        assert(starts_at(b@, start as int, u64_dec(val as nat)));
        assert(nondigit_after(b@, *pos as int));
        assert forall|n: u64|
            (starts_at(b@, start as int, u64_dec(n as nat)) && nondigit_after(
                b@,
                start + u64_dec(n as nat).len(),
            )) implies Some(val) == Some::<u64>(n) && *pos == start + u64_dec(n as nat).len() by {
            let dn = u64_dec(n as nat);
            lemma_u64_dec_digits(n as nat);
            lemma_u64_dec_val(n as nat);
            lemma_starts_at_index(b@, start as int, dn);
            let i = *pos - start;
            assert(i == dn.len()) by {
                if i < dn.len() {
                    assert(b@[start + i] == dn[i]);
                    assert(is_digit(dn[i]));
                    assert(start + i < b@.len());
                }
                if i > dn.len() {
                    assert(is_digit(b@[start + dn.len()]));
                    if start + dn.len() < b@.len() {
                        assert(!is_digit(b@[start + dn.len()]));
                    }
                }
            }
            let scanned = b@.subrange(start as int, *pos as int);
            assert forall|k: int| 0 <= k < i implies scanned[k] == dn[k] by {
                assert(scanned[k] == b@[start + k]);
                assert(b@[start + k] == dn[k]);
            }
            assert(scanned =~= dn);
            assert(val == dec_val(dn));
        }
    }
    Some(val)
}

/// Scan an optionally signed decimal integer at the cursor. Whenever the
/// input at the cursor reads the canonical decimal form of some `m: i64`
/// followed by a non-digit, the scan yields exactly `m` and stops exactly
/// at that boundary.
fn parse_i64(b: &Vec<u8>, pos: &mut usize) -> (r: Option<i64>)
    requires
        *old(pos) <= b@.len(),
    ensures
        *old(pos) <= *final(pos) <= b@.len(),
        forall|m: i64|
            (starts_at(b@, *old(pos) as int, i64_dec(m as int)) && nondigit_after(
                b@,
                *old(pos) + i64_dec(m as int).len(),
            )) ==> r == Some(m) && *final(pos) == *old(pos) + i64_dec(m as int).len(),
        r matches Some(m) ==> starts_at(b@, *old(pos) as int, i64_dec(m as int)) && *final(pos)
            == *old(pos) + i64_dec(m as int).len() && nondigit_after(b@, *final(pos) as int),
{
    let ghost start = *pos as int;
    if *pos < b.len() && b[*pos] == 45 {
        *pos += 1;
        let parsed = parse_u64(b, pos);
        proof {
            assert forall|m: i64|
                (starts_at(b@, start, i64_dec(m as int)) && nondigit_after(
                    b@,
                    start + i64_dec(m as int).len(),
                )) implies m < 0 && parsed == Some((-(m as int)) as u64) && *pos == start
                + i64_dec(m as int).len() by {
                if m < 0 {
                    let mn = (-(m as int)) as nat;
                    assert(i64_dec(m as int) == seq![45u8] + u64_dec(mn));
                    lemma_starts_split(b@, start, seq![45u8], u64_dec(mn));
                    let nu = (-(m as int)) as u64;
                    assert(nu as nat == mn);
                    assert(starts_at(b@, start + 1, u64_dec(nu as nat)));
                    assert(nondigit_after(b@, start + 1 + u64_dec(nu as nat).len()));
                } else {
                    lemma_u64_dec_digits(m as nat);
                    lemma_starts_at_index(b@, start, i64_dec(m as int));
                    assert(b@[start] == i64_dec(m as int)[0]);
                    assert(is_digit(i64_dec(m as int)[0]));
                }
            }
        }
        let mag = match parsed {
            Some(v) => v,
            None => {
                return None;
            },
        };
        if mag > 9223372036854775808 {
            return None;
        }
        if mag == 0 {
            return None;
        }
        let r = if mag == 9223372036854775808 {
            i64::MIN
        } else {
            -(mag as i64)
        };
        proof {
            let mn = mag as nat;
            assert(starts_at(b@, start + 1, u64_dec(mn)));
            assert(b@.subrange(start, start + 1) =~= seq![45u8]) by {
                assert(b@.subrange(start, start + 1)[0] == b@[start + 0]);
            }
            assert(starts_at(b@, start, seq![45u8]));
            lemma_starts_join(b@, start, seq![45u8], u64_dec(mn));
            assert(r < 0);
            assert(-(r as int) == mag);
            assert((-(r as int)) as nat == mn);
            assert(i64_dec(r as int) == seq![45u8] + u64_dec(mn));
        }
        Some(r)
    } else {
        let parsed = parse_u64(b, pos);
        proof {
            assert forall|m: i64|
                (starts_at(b@, start, i64_dec(m as int)) && nondigit_after(
                    b@,
                    start + i64_dec(m as int).len(),
                )) implies m >= 0 && parsed == Some(m as u64) && *pos == start + i64_dec(
                m as int,
            ).len() by {
                if m < 0 {
                    let mn = (-(m as int)) as nat;
                    assert(i64_dec(m as int) == seq![45u8] + u64_dec(mn));
                    lemma_starts_split(b@, start, seq![45u8], u64_dec(mn));
                    lemma_starts_at_index(b@, start, seq![45u8]);
                    assert(seq![45u8][0] == 45u8);
                    assert(b@[start + 0] == seq![45u8][0]);
                    assert(b@[start] == 45);
                    lemma_u64_dec_digits(mn);
                    assert(start < b@.len());
                } else {
                    assert(starts_at(b@, start, u64_dec(m as nat)));
                    assert(nondigit_after(b@, start + u64_dec(m as nat).len()));
                }
            }
        }
        let mag = match parsed {
            Some(v) => v,
            None => {
                return None;
            },
        };
        if mag > 9223372036854775807 {
            return None;
        }
        proof {
            assert(starts_at(b@, start, u64_dec(mag as nat)));
            assert((mag as i64) as int >= 0);
            assert(i64_dec((mag as i64) as int) == u64_dec(mag as nat));
        }
        Some(mag as i64)
    }
}


/// One persisted byte sequence decodes to one record sequence: `b` is the
/// encoding of `s`, and `s` fits the store.
pub open spec fn persisted_form(b: Seq<u8>, s: Seq<Record>) -> bool {
    b == enc_records(s) && s.len() <= CAP
}

/// Where each piece of one encoded record sits, reading from position `p`.
pub proof fn lemma_enc_rec_parts(b: Seq<u8>, p: int, rec: Record)
    requires
        starts_at(b, p, enc_rec(rec)),
    ensures
        starts_at(b, p, temp_key()),
        starts_at(b, p + 20, u64_dec(rec.value.temperature_bits as nat)),
        nondigit_after(b, p + 20 + u64_dec(rec.value.temperature_bits as nat).len()),
        starts_at(b, p + 20 + u64_dec(rec.value.temperature_bits as nat).len(), humi_key()),
        starts_at(
            b,
            p + 37 + u64_dec(rec.value.temperature_bits as nat).len(),
            u64_dec(rec.value.humidity_bits as nat),
        ),
        nondigit_after(
            b,
            p + 37 + u64_dec(rec.value.temperature_bits as nat).len() + u64_dec(
                rec.value.humidity_bits as nat,
            ).len(),
        ),
        starts_at(
            b,
            p + 37 + u64_dec(rec.value.temperature_bits as nat).len() + u64_dec(
                rec.value.humidity_bits as nat,
            ).len(),
            ts_key(),
        ),
        starts_at(
            b,
            p + 50 + u64_dec(rec.value.temperature_bits as nat).len() + u64_dec(
                rec.value.humidity_bits as nat,
            ).len(),
            i64_dec(rec.date as int),
        ),
        nondigit_after(
            b,
            p + 50 + u64_dec(rec.value.temperature_bits as nat).len() + u64_dec(
                rec.value.humidity_bits as nat,
            ).len() + i64_dec(rec.date as int).len(),
        ),
        b[p + 50 + u64_dec(rec.value.temperature_bits as nat).len() + u64_dec(
            rec.value.humidity_bits as nat,
        ).len() + i64_dec(rec.date as int).len()] == 125,
        enc_rec(rec).len() == 51 + u64_dec(rec.value.temperature_bits as nat).len() + u64_dec(
            rec.value.humidity_bits as nat,
        ).len() + i64_dec(rec.date as int).len(),
{
    let t1 = temp_key();
    let d1 = u64_dec(rec.value.temperature_bits as nat);
    let t2 = humi_key();
    let d2 = u64_dec(rec.value.humidity_bits as nat);
    let t3 = ts_key();
    let d3 = i64_dec(rec.date as int);
    let cl = seq![125u8];
    assert(enc_rec(rec) =~= t1 + (d1 + (t2 + (d2 + (t3 + (d3 + cl))))));
    lemma_starts_split(b, p, t1, d1 + (t2 + (d2 + (t3 + (d3 + cl)))));
    lemma_starts_split(b, p + 20, d1, t2 + (d2 + (t3 + (d3 + cl))));
    lemma_starts_split(b, p + 20 + d1.len(), t2, d2 + (t3 + (d3 + cl)));
    lemma_starts_split(b, p + 37 + d1.len(), d2, t3 + (d3 + cl));
    lemma_starts_split(b, p + 37 + d1.len() + d2.len(), t3, d3 + cl);
    lemma_starts_split(b, p + 50 + d1.len() + d2.len(), d3, cl);
    lemma_starts_at_index(b, p + 20 + d1.len(), t2);
    assert(t2[0] == 44u8);
    assert(b[p + 20 + d1.len() + 0] == t2[0]);
    lemma_starts_at_index(b, p + 37 + d1.len() + d2.len(), t3);
    assert(t3[0] == 44u8);
    assert(b[p + 37 + d1.len() + d2.len() + 0] == t3[0]);
    lemma_starts_at_index(b, p + 50 + d1.len() + d2.len() + d3.len(), cl);
    assert(cl[0] == 125u8);
    assert(b[p + 50 + d1.len() + d2.len() + d3.len() + 0] == cl[0]);
}

/// The bytes of `{"temperature_bits":` as a vector.
fn temp_key_vec() -> (k: Vec<u8>)
    ensures
        k@ == temp_key(),
{
    let mut k: Vec<u8> = Vec::new();
    k.push(123);
    k.push(34);
    k.push(116);
    k.push(101);
    k.push(109);
    k.push(112);
    k.push(101);
    k.push(114);
    k.push(97);
    k.push(116);
    k.push(117);
    k.push(114);
    k.push(101);
    k.push(95);
    k.push(98);
    k.push(105);
    k.push(116);
    k.push(115);
    k.push(34);
    k.push(58);
    assert(k@ =~= temp_key());
    k
}

/// The bytes of `,"humidity_bits":` as a vector.
fn humi_key_vec() -> (k: Vec<u8>)
    ensures
        k@ == humi_key(),
{
    let mut k: Vec<u8> = Vec::new();
    k.push(44);
    k.push(34);
    k.push(104);
    k.push(117);
    k.push(109);
    k.push(105);
    k.push(100);
    k.push(105);
    k.push(116);
    k.push(121);
    k.push(95);
    k.push(98);
    k.push(105);
    k.push(116);
    k.push(115);
    k.push(34);
    k.push(58);
    assert(k@ =~= humi_key());
    k
}

/// The bytes of `,"timestamp":` as a vector.
fn ts_key_vec() -> (k: Vec<u8>)
    ensures
        k@ == ts_key(),
{
    let mut k: Vec<u8> = Vec::new();
    k.push(44);
    k.push(34);
    k.push(116);
    k.push(105);
    k.push(109);
    k.push(101);
    k.push(115);
    k.push(116);
    k.push(97);
    k.push(109);
    k.push(112);
    k.push(34);
    k.push(58);
    assert(k@ =~= ts_key());
    k
}

/// Append the bytes of `t` to `out`.
fn push_seq(out: &mut Vec<u8>, t: &Vec<u8>)
    ensures
        final(out)@ == old(out)@ + t@,
{
    let n = t.len();
    let mut i: usize = 0;
    while i < n
        invariant
            n == t@.len(),
            0 <= i <= n,
            out@ == old(out)@ + t@.take(i as int),
        decreases n - i,
    {
        out.push(t[i]);
        assert(out@ =~= old(out)@ + t@.take(i + 1));
        i += 1;
    }
    assert(out@ =~= old(out)@ + t@);
}

/// Append the encoding of one record to `out`.
fn push_rec(out: &mut Vec<u8>, rec: &Record)
    ensures
        final(out)@ == old(out)@ + enc_rec(*rec),
{
    let tk = temp_key_vec();
    push_seq(out, &tk);
    push_u64_dec(out, rec.value.temperature_bits as u64);
    let hk = humi_key_vec();
    push_seq(out, &hk);
    push_u64_dec(out, rec.value.humidity_bits as u64);
    let sk = ts_key_vec();
    push_seq(out, &sk);
    push_i64_dec(out, rec.date);
    out.push(125);
    assert(out@ =~= old(out)@ + enc_rec(*rec));
}

/// Serialize the whole record sequence to its persisted byte form.
#[verifier::rlimit(100)]
pub fn save_records(records: &Vec<Record>) -> (out: Vec<u8>)
    ensures
        out@ == enc_records(records@),
{
    let mut out: Vec<u8> = Vec::new();
    out.push(91);
    let n = records.len();
    if n == 0 {
        out.push(93);
        assert(out@ =~= enc_records(records@));
        return out;
    }
    let first = records[0];
    push_rec(&mut out, &first);
    assert(enc_records(records@) =~= out@ + enc_rest(records@, 1));
    let mut i: usize = 1;
    while i < n
        invariant
            1 <= i <= n,
            n == records@.len(),
            enc_records(records@) == out@ + enc_rest(records@, i as int),
        decreases n - i,
    {
        let ghost prev = out@;
        out.push(44);
        let r = records[i];
        push_rec(&mut out, &r);
        proof {
            assert(enc_rest(records@, i as int) =~= seq![44u8] + enc_rec(records@[i as int])
                + enc_rest(records@, i + 1));
            assert(out@ =~= prev + (seq![44u8] + enc_rec(records@[i as int])));
            assert(prev + enc_rest(records@, i as int) =~= out@ + enc_rest(records@, i + 1));
        }
        i += 1;
    }
    out.push(93);
    proof {
        assert(enc_rest(records@, n as int) =~= seq![93u8]);
        assert(out@ =~= enc_records(records@));
    }
    out
}

/// Match the exact bytes of `t` at the cursor, advancing past them.
fn eat_bytes(b: &Vec<u8>, pos: &mut usize, t: &Vec<u8>) -> (ok: bool)
    requires
        *old(pos) <= b@.len(),
    ensures
        *old(pos) <= *final(pos) <= b@.len(),
        ok == starts_at(b@, *old(pos) as int, t@),
        ok ==> *final(pos) == *old(pos) + t@.len(),
        !ok ==> *final(pos) == *old(pos),
{
    let tl = t.len();
    let bl = b.len();
    if bl - *pos < tl {
        return false;
    }
    let mut i: usize = 0;
    while i < tl
        invariant
            *pos + tl <= bl,
            bl == b@.len(),
            tl == t@.len(),
            0 <= i <= tl,
            *pos == *old(pos),
            forall|k: int| 0 <= k < i ==> b@[*pos + k] == t@[k],
        decreases tl - i,
    {
        if b[*pos + i] != t[i] {
            proof {
                if starts_at(b@, *pos as int, t@) {
                    lemma_starts_at_index(b@, *pos as int, t@);
                    assert(b@[*pos + i as int] == t@[i as int]);
                }
            }
            return false;
        }
        i += 1;
    }
    proof {
        assert forall|k: int| 0 <= k < tl implies #[trigger] b@.subrange(
            *pos as int,
            *pos + tl as int,
        )[k] == t@[k] by {
            assert(b@.subrange(*pos as int, *pos + tl as int)[k] == b@[*pos + k]);
        }
        assert(b@.subrange(*pos as int, *pos + tl as int) =~= t@);
    }
    *pos += tl;
    true
}

/// Parse one encoded record at the cursor. Whenever the input at the cursor
/// reads the encoding of some record, the parse yields exactly that record
/// and stops exactly past its closing brace.
#[verifier::rlimit(100)]
fn parse_record(b: &Vec<u8>, pos: &mut usize) -> (r: Option<Record>)
    requires
        *old(pos) <= b@.len(),
    ensures
        *old(pos) <= *final(pos) <= b@.len(),
        forall|rec: Record|
            starts_at(b@, *old(pos) as int, enc_rec(rec)) ==> r == Some(rec) && *final(pos)
                == *old(pos) + enc_rec(rec).len(),
        r matches Some(rec) ==> starts_at(b@, *old(pos) as int, enc_rec(rec)) && *final(pos)
            == *old(pos) + enc_rec(rec).len(),
{
    let ghost p0 = *pos as int;
    let tk = temp_key_vec();
    if !eat_bytes(b, pos, &tk) {
        proof {
            assert forall|rec: Record| starts_at(b@, p0, enc_rec(rec)) implies false by {
                lemma_enc_rec_parts(b@, p0, rec);
            }
        }
        return None;
    }
    let ghost p1 = *pos as int;
    let tb = match parse_u64(b, pos) {
        Some(v) => v,
        None => {
            proof {
                assert forall|rec: Record| starts_at(b@, p0, enc_rec(rec)) implies false by {
                    lemma_enc_rec_parts(b@, p0, rec);
                }
            }
            return None;
        },
    };
    if tb > 4294967295 {
        proof {
            assert forall|rec: Record| starts_at(b@, p0, enc_rec(rec)) implies false by {
                lemma_enc_rec_parts(b@, p0, rec);
                assert(tb == rec.value.temperature_bits as u64);
            }
        }
        return None;
    }
    let ghost p2 = *pos as int;
    let hk = humi_key_vec();
    if !eat_bytes(b, pos, &hk) {
        proof {
            assert forall|rec: Record| starts_at(b@, p0, enc_rec(rec)) implies false by {
                lemma_enc_rec_parts(b@, p0, rec);
                assert(tb == rec.value.temperature_bits as u64);
            }
        }
        return None;
    }
    let ghost p3 = *pos as int;
    let hb = match parse_u64(b, pos) {
        Some(v) => v,
        None => {
            proof {
                assert forall|rec: Record| starts_at(b@, p0, enc_rec(rec)) implies false by {
                    lemma_enc_rec_parts(b@, p0, rec);
                    assert(tb == rec.value.temperature_bits as u64);
                }
            }
            return None;
        },
    };
    if hb > 4294967295 {
        proof {
            assert forall|rec: Record| starts_at(b@, p0, enc_rec(rec)) implies false by {
                lemma_enc_rec_parts(b@, p0, rec);
                assert(tb == rec.value.temperature_bits as u64);
                assert(hb == rec.value.humidity_bits as u64);
            }
        }
        return None;
    }
    let ghost p4 = *pos as int;
    let sk = ts_key_vec();
    if !eat_bytes(b, pos, &sk) {
        proof {
            assert forall|rec: Record| starts_at(b@, p0, enc_rec(rec)) implies false by {
                lemma_enc_rec_parts(b@, p0, rec);
                assert(tb == rec.value.temperature_bits as u64);
                assert(hb == rec.value.humidity_bits as u64);
            }
        }
        return None;
    }
    let ghost p5 = *pos as int;
    let ts = match parse_i64(b, pos) {
        Some(v) => v,
        None => {
            proof {
                assert forall|rec: Record| starts_at(b@, p0, enc_rec(rec)) implies false by {
                    lemma_enc_rec_parts(b@, p0, rec);
                    assert(tb == rec.value.temperature_bits as u64);
                    assert(hb == rec.value.humidity_bits as u64);
                }
            }
            return None;
        },
    };
    let ghost p6 = *pos as int;
    if *pos < b.len() && b[*pos] == 125 {
        *pos += 1;
        let rec = Record {
            value: Reading { temperature_bits: tb as u32, humidity_bits: hb as u32 },
            date: ts,
        };
        proof {
            let t1 = temp_key();
            let d1 = u64_dec(tb as nat);
            let t2 = humi_key();
            let d2 = u64_dec(hb as nat);
            let t3 = ts_key();
            let d3 = i64_dec(ts as int);
            let cl = seq![125u8];
            assert(starts_at(b@, p0, t1));
            assert(starts_at(b@, p1, d1));
            assert(starts_at(b@, p2, t2));
            assert(starts_at(b@, p3, d2));
            assert(starts_at(b@, p4, t3));
            assert(starts_at(b@, p5, d3));
            assert(b@.subrange(p6, p6 + 1) =~= cl) by {
                assert(b@.subrange(p6, p6 + 1)[0] == b@[p6 + 0]);
            }
            assert(starts_at(b@, p6, cl));
            lemma_starts_join(b@, p0, t1, d1);
            lemma_starts_join(b@, p0, t1 + d1, t2);
            lemma_starts_join(b@, p0, t1 + d1 + t2, d2);
            lemma_starts_join(b@, p0, t1 + d1 + t2 + d2, t3);
            lemma_starts_join(b@, p0, t1 + d1 + t2 + d2 + t3, d3);
            lemma_starts_join(b@, p0, t1 + d1 + t2 + d2 + t3 + d3, cl);
            assert(u64_dec(rec.value.temperature_bits as nat) == d1);
            assert(u64_dec(rec.value.humidity_bits as nat) == d2);
            assert(i64_dec(rec.date as int) == d3);
            assert(starts_at(b@, p0, enc_rec(rec)));
            assert(*pos == p0 + enc_rec(rec).len());
        }
        proof {
            assert forall|r2: Record| starts_at(b@, p0, enc_rec(r2)) implies Some(rec)
                == Some::<Record>(r2) && *pos == p0 + enc_rec(r2).len() by {
                lemma_enc_rec_parts(b@, p0, r2);
                assert(tb == r2.value.temperature_bits as u64);
                assert(hb == r2.value.humidity_bits as u64);
                assert(ts == r2.date);
            }
        }
        Some(rec)
    } else {
        proof {
            assert forall|rec: Record| starts_at(b@, p0, enc_rec(rec)) implies false by {
                lemma_enc_rec_parts(b@, p0, rec);
                assert(tb == rec.value.temperature_bits as u64);
                assert(hb == rec.value.humidity_bits as u64);
                assert(ts == rec.date);
            }
        }
        None
    }
}


/// Concatenation of sequences is associative.
proof fn lemma_concat_assoc(a: Seq<u8>, x: Seq<u8>, y: Seq<u8>)
    ensures
        (a + x) + y =~= a + (x + y),
{
}

/// The head of a valid non-empty encoding: the opening bracket, the first
/// record right behind it, and the first byte of its key.
#[verifier::rlimit(100)]
proof fn lemma_decode_head_nonempty(b: Seq<u8>, s: Seq<Record>)
    requires
        persisted_form(b, s),
        s.len() > 0,
    ensures
        b.len() >= 2,
        b[0] == 91,
        starts_at(b, 1, enc_rec(s[0])),
        rem(b, 1 + enc_rec(s[0]).len() as int) == enc_rest(s, 1),
        b[1] == 123,
{
    let a = seq![91u8];
    let x = enc_rec(s[0]);
    let y = enc_rest(s, 1);
    assert(b == (a + x) + y);
    lemma_concat_assoc(a, x, y);
    assert(rem(b, 0) =~= b);
    assert(rem(b, 0) == a + (x + y));
    lemma_rem_split(b, 0, a, x + y);
    lemma_starts_at_index(b, 0, a);
    assert(b[0int + 0] == a[0]);
    lemma_rem_split(b, 1, x, y);
    lemma_first_key_byte(b, 1, s[0]);
}

/// The first byte of an encoded record is the opening brace of its key.
proof fn lemma_first_key_byte(b: Seq<u8>, p: int, rec: Record)
    requires
        starts_at(b, p, enc_rec(rec)),
    ensures
        b[p] == 123,
{
    lemma_enc_rec_parts(b, p, rec);
    lemma_starts_at_index(b, p, temp_key());
    assert(b[p + 0] == temp_key()[0]);
}

/// What the head of a valid encoding forces: the opening bracket, the
/// overall length, and the first byte after the bracket.
#[verifier::rlimit(100)]
proof fn lemma_decode_head(b: Seq<u8>, s: Seq<Record>)
    requires
        persisted_form(b, s),
    ensures
        b.len() >= 2,
        b[0] == 91,
        s.len() == 0 ==> b.len() == 2 && b[1] == 93,
        s.len() > 0 ==> starts_at(b, 1, enc_rec(s[0])) && rem(b, 1 + enc_rec(s[0]).len() as int)
            == enc_rest(s, 1) && b[1] == 123,
{
    if s.len() == 0 {
        assert(b[0] == enc_records(s)[0]);
        assert(b[1] == enc_records(s)[1]);
    } else {
        lemma_decode_head_nonempty(b, s);
    }
}

/// What one separator step of a valid encoding forces: a comma, then the
/// next record, then the rest.
proof fn lemma_decode_step(b: Seq<u8>, s: Seq<Record>, k: int, p: int)
    requires
        0 <= p <= b.len(),
        0 <= k < s.len(),
        rem(b, p) == enc_rest(s, k),
    ensures
        p < b.len(),
        b[p] == 44,
        starts_at(b, p + 1, enc_rec(s[k])),
        rem(b, p + 1 + enc_rec(s[k]).len()) == enc_rest(s, k + 1),
        p + 1 + enc_rec(s[k]).len() <= b.len(),
{
    let a = seq![44u8];
    let x = enc_rec(s[k]);
    let y = enc_rest(s, k + 1);
    assert(enc_rest(s, k) == (a + x) + y);
    lemma_concat_assoc(a, x, y);
    lemma_rem_split(b, p, a, x + y);
    lemma_rem_split(b, p + 1, x, y);
    lemma_starts_at_index(b, p, a);
    assert(b[p + 0] == a[0]);
}

/// What the tail of a valid encoding forces once every record has been
/// consumed: a closing bracket as the very last byte.
proof fn lemma_decode_tail(b: Seq<u8>, s: Seq<Record>, p: int)
    requires
        0 <= p <= b.len(),
        rem(b, p) == enc_rest(s, s.len() as int),
    ensures
        p + 1 == b.len(),
        b[p] == 93,
{
    assert(rem(b, p) =~= seq![93u8]);
    assert(rem(b, p).len() == b.len() - p);
    assert(b[p] == rem(b, p)[0]);
}

/// The remaining encoding is never empty: it ends with the closing bracket.
proof fn lemma_enc_rest_len(s: Seq<Record>, k: int)
    ensures
        enc_rest(s, k).len() >= 1,
{
}

/// Appending one record extends the remaining encoding before the closing
/// bracket: the bracket is replaced by a separator, the new record, and a
/// new bracket.
proof fn lemma_enc_rest_push(s: Seq<Record>, r: Record, k: int)
    requires
        1 <= k <= s.len(),
    ensures
        enc_rest(s.push(r), k) =~= enc_rest(s, k).drop_last() + (seq![44u8] + enc_rec(r)
            + seq![93u8]),
    decreases s.len() - k,
{
    let tail3 = seq![44u8] + enc_rec(r) + seq![93u8];
    if k == s.len() {
        assert(enc_rest(s, k) =~= seq![93u8]);
        assert(enc_rest(s, k).drop_last() =~= Seq::<u8>::empty());
        assert(s.push(r)[k] == r);
        assert(enc_rest(s.push(r), k) == seq![44u8] + enc_rec(r) + enc_rest(s.push(r), k + 1));
        assert(enc_rest(s.push(r), k + 1) =~= seq![93u8]);
        assert(enc_rest(s.push(r), k) =~= enc_rest(s, k).drop_last() + tail3);
    } else {
        lemma_enc_rest_push(s, r, k + 1);
        lemma_enc_rest_len(s, k + 1);
        assert(s.push(r)[k] == s[k]);
        assert(enc_rest(s, k) == seq![44u8] + enc_rec(s[k]) + enc_rest(s, k + 1));
        assert(enc_rest(s, k).drop_last() =~= seq![44u8] + enc_rec(s[k]) + enc_rest(
            s,
            k + 1,
        ).drop_last());
        assert(enc_rest(s.push(r), k) == seq![44u8] + enc_rec(s[k]) + enc_rest(s.push(r), k + 1));
        assert(enc_rest(s.push(r), k) =~= enc_rest(s, k).drop_last() + tail3);
    }
}

/// Appending one record to a non-empty sequence rewrites only the tail of
/// its encoding: the closing bracket becomes separator, record, bracket.
proof fn lemma_enc_records_push(s: Seq<Record>, r: Record)
    requires
        s.len() >= 1,
    ensures
        enc_records(s.push(r)) =~= enc_records(s).drop_last() + (seq![44u8] + enc_rec(r)
            + seq![93u8]),
{
    let tail3 = seq![44u8] + enc_rec(r) + seq![93u8];
    lemma_enc_rest_push(s, r, 1);
    lemma_enc_rest_len(s, 1);
    assert(s.push(r)[0] == s[0]);
    assert(enc_records(s.push(r)) == seq![91u8] + enc_rec(s[0]) + enc_rest(s.push(r), 1));
    assert(enc_records(s) == seq![91u8] + enc_rec(s[0]) + enc_rest(s, 1));
    assert(enc_records(s).drop_last() =~= seq![91u8] + enc_rec(s[0]) + enc_rest(
        s,
        1,
    ).drop_last());
    assert(enc_records(s.push(r)) =~= enc_records(s).drop_last() + tail3);
}

/// Parse a full persisted byte sequence. Whenever the input is the encoding
/// of a record sequence that fits the store, the parse yields exactly that
/// sequence; any successful parse fits the store.
#[verifier::rlimit(100)]
fn decode_records(b: &Vec<u8>) -> (r: Option<Vec<Record>>)
    ensures
        r matches Some(v) ==> v@.len() <= CAP && b@ == enc_records(v@),
        forall|s: Seq<Record>|
            #[trigger] persisted_form(b@, s) ==> (r matches Some(v) && v@ == s),
{
    let n = b.len();
    if n == 0 {
        proof {
            assert forall|s: Seq<Record>| persisted_form(b@, s) implies false by {
                lemma_decode_head(b@, s);
            }
        }
        return None;
    }
    if b[0] != 91 {
        proof {
            assert forall|s: Seq<Record>| persisted_form(b@, s) implies false by {
                lemma_decode_head(b@, s);
            }
        }
        return None;
    }
    let mut pos: usize = 1;
    if pos < n && b[pos] == 93 {
        if pos + 1 == n {
            let empty: Vec<Record> = Vec::new();
            proof {
                assert forall|s: Seq<Record>| #[trigger] persisted_form(b@, s) implies empty@
                    == s by {
                    lemma_decode_head(b@, s);
                }
                assert(b@ =~= seq![91u8, 93u8]) by {
                    assert(b@[0] == 91);
                    assert(b@[1] == 93);
                }
                assert(b@ == enc_records(empty@));
            }
            return Some(empty);
        } else {
            proof {
                assert forall|s: Seq<Record>| #[trigger] persisted_form(b@, s) implies false by {
                    lemma_decode_head(b@, s);
                }
            }
            return None;
        }
    }
    let first = match parse_record(b, &mut pos) {
        Some(rec) => rec,
        None => {
            proof {
                assert forall|s: Seq<Record>| #[trigger] persisted_form(b@, s) implies false by {
                    lemma_decode_head(b@, s);
                }
            }
            return None;
        },
    };
    let mut out: Vec<Record> = Vec::new();
    out.push(first);
    proof {
        assert forall|s: Seq<Record>| #[trigger] persisted_form(b@, s) implies out@.len()
            <= s.len() && out@ == s.take(out@.len() as int) && rem(b@, pos as int) == enc_rest(
            s,
            out@.len() as int,
        ) by {
            lemma_decode_head(b@, s);
            assert(first == s[0]);
            assert(out@ =~= s.take(1));
        }
        assert(starts_at(b@, 1, enc_rec(first)));
        assert(pos == 1 + enc_rec(first).len());
        lemma_subrange_concat(b@, 0, 1, pos as int);
        assert(b@.subrange(0, 1) =~= seq![91u8]) by {
            assert(b@.subrange(0, 1)[0] == b@[0int + 0]);
        }
        assert(b@.subrange(1, pos as int) == enc_rec(first));
        assert(out@[0] == first);
        assert(enc_rest(out@, 1) =~= seq![93u8]);
        assert(enc_records(out@) =~= b@.subrange(0, pos as int) + seq![93u8]);
    }
    while pos < n && b[pos] == 44
        invariant
            pos <= n,
            n == b@.len(),
            1 <= out@.len(),
            enc_records(out@) == b@.subrange(0, pos as int) + seq![93u8],
            forall|s: Seq<Record>|
                #[trigger] persisted_form(b@, s) ==> out@.len() <= s.len() && out@ == s.take(
                    out@.len() as int,
                ) && rem(b@, pos as int) == enc_rest(s, out@.len() as int),
        decreases n - pos,
    {
        let ghost pold = pos as int;
        pos += 1;
        let rec = match parse_record(b, &mut pos) {
            Some(rec) => rec,
            None => {
                proof {
                    assert forall|s: Seq<Record>| #[trigger] persisted_form(b@, s) implies
                    false by {
                        let k = out@.len() as int;
                        if k == s.len() {
                            lemma_decode_tail(b@, s, pold);
                        } else {
                            lemma_decode_step(b@, s, k, pold);
                        }
                    }
                }
                return None;
            },
        };
        let ghost out_old = out@;
        out.push(rec);
        proof {
            assert forall|s: Seq<Record>| #[trigger] persisted_form(b@, s) implies out@.len()
                <= s.len() && out@ == s.take(out@.len() as int) && rem(b@, pos as int)
                == enc_rest(s, out@.len() as int) by {
                let k = out@.len() - 1;
                if k == s.len() {
                    lemma_decode_tail(b@, s, pold);
                } else {
                    lemma_decode_step(b@, s, k, pold);
                    assert(rec == s[k]);
                    assert(out@ =~= s.take(k + 1));
                }
            }
            assert(b@[pold] == 44);
            assert(starts_at(b@, pold + 1, enc_rec(rec)));
            assert(pos == pold + 1 + enc_rec(rec).len());
            lemma_subrange_concat(b@, 0, pold, pos as int);
            lemma_subrange_concat(b@, pold, pold + 1, pos as int);
            assert(b@.subrange(pold, pold + 1) =~= seq![44u8]) by {
                assert(b@.subrange(pold, pold + 1)[0] == b@[pold + 0]);
            }
            assert(b@.subrange(pold + 1, pos as int) == enc_rec(rec));
            assert(out@ == out_old.push(rec));
            lemma_enc_records_push(out_old, rec);
            assert(enc_records(out_old).drop_last() =~= b@.subrange(0, pold));
            assert(enc_records(out@) =~= b@.subrange(0, pos as int) + seq![93u8]);
        }
    }
    if pos < n && b[pos] == 93 && pos + 1 == n && out.len() <= CAP {
        proof {
            assert forall|s: Seq<Record>| #[trigger] persisted_form(b@, s) implies out@ == s by {
                let k = out@.len() as int;
                if k < s.len() {
                    lemma_decode_step(b@, s, k, pos as int);
                }
                assert(out@ =~= s);
            }
            lemma_subrange_concat(b@, 0, pos as int, n as int);
            assert(b@.subrange(pos as int, n as int) =~= seq![93u8]) by {
                assert(b@.subrange(pos as int, n as int)[0] == b@[pos as int + 0]);
            }
            assert(b@.subrange(0, n as int) =~= b@);
            assert(b@ =~= b@.subrange(0, pos as int) + seq![93u8]);
            assert(b@ == enc_records(out@));
        }
        Some(out)
    } else {
        proof {
            assert forall|s: Seq<Record>| #[trigger] persisted_form(b@, s) implies false by {
                let k = out@.len() as int;
                if k < s.len() {
                    lemma_decode_step(b@, s, k, pos as int);
                } else {
                    lemma_decode_tail(b@, s, pos as int);
                }
            }
        }
        None
    }
}

/// Rebuild the record sequence from a persisted file's bytes. A missing,
/// truncated or otherwise corrupt file yields the empty history; the exact
/// encoding of any record sequence that fits the store yields that sequence
/// back, field-for-field.
pub fn load_records(content: &Vec<u8>) -> (records: Vec<Record>)
    ensures
        records@.len() <= CAP,
        forall|s: Seq<Record>| #[trigger] persisted_form(content@, s) ==> records@ == s,
        records@.len() == 0 || persisted_form(content@, records@),
{
    match decode_records(content) {
        Some(v) => v,
        None => Vec::new(),
    }
}

} // verus!
