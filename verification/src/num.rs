//! Decimal representations of timestamps.
//!
//! Transaction record names carry a timestamp as a fixed-width, zero-padded
//! decimal, so that the numeric order of timestamps and the order of record
//! names agree and "most recent" can be recomputed from names alone.
use vstd::prelude::*;
use vstd::arithmetic::div_mod::*;

verus! {

/// Exclusive upper bound on timestamps (seconds since the Unix epoch); every
/// timestamp below it fits in exactly 15 decimal digits when zero-padded.
pub const TS_LIMIT: u64 = 1000000000000000;

/// Number of digits in a padded timestamp.
pub const TS_DIGITS: usize = 15;

pub open spec fn is_digit(b: u8) -> bool {
    48 <= b <= 57
}

pub open spec fn digit_val(b: u8) -> int {
    b - 48
}

pub open spec fn all_digits(s: Seq<u8>) -> bool {
    forall|i: int| 0 <= i < s.len() ==> is_digit(#[trigger] s[i])
}

/// Numeric value of a digit string, most significant digit first.
pub open spec fn digits_val(s: Seq<u8>) -> int
    decreases s.len(),
{
    if s.len() == 0 {
        0
    } else {
        digits_val(s.drop_last()) * 10 + digit_val(s.last())
    }
}

pub open spec fn pow10(n: nat) -> int
    decreases n,
{
    if n == 0 {
        1
    } else {
        10 * pow10((n - 1) as nat)
    }
}

/// Unpadded decimal representation of `v`.
pub open spec fn dec_rep(v: nat) -> Seq<u8>
    decreases v,
{
    if v < 10 {
        seq![(48 + v) as u8]
    } else {
        dec_rep(v / 10).push((48 + v % 10) as u8)
    }
}

pub open spec fn zeros(n: nat) -> Seq<u8> {
    Seq::new(n, |i: int| 48u8)
}

/// `v` as exactly 15 digits, zero-padded on the left.
pub open spec fn padded_ts(v: nat) -> Seq<u8> {
    zeros((TS_DIGITS - dec_rep(v).len()) as nat) + dec_rep(v)
}

pub proof fn lemma_pow10_mono(a: nat, b: nat)
    requires
        a <= b,
    ensures
        0 < pow10(a) <= pow10(b),
    decreases b,
{
    if b == 0 {
    } else if a == b {
        lemma_pow10_mono(0, (b - 1) as nat);
    } else {
        lemma_pow10_mono(a, (b - 1) as nat);
    }
}

pub proof fn lemma_pow10_15()
    ensures
        pow10(15) == TS_LIMIT,
{
    reveal_with_fuel(pow10, 17);
}

/// Basic facts about the unpadded decimal representation.
pub proof fn lemma_dec_rep(v: nat)
    ensures
        dec_rep(v).len() >= 1,
        all_digits(dec_rep(v)),
        digits_val(dec_rep(v)) == v,
        v < pow10(dec_rep(v).len()),
        dec_rep(v).len() > 1 ==> v >= pow10((dec_rep(v).len() - 1) as nat),
    decreases v,
{
    if v < 10 {
        let s = dec_rep(v);
        assert(s.drop_last() =~= Seq::<u8>::empty());
        assert(digits_val(s) == digits_val(s.drop_last()) * 10 + digit_val(s.last()));
    } else {
        lemma_div_decreases(v as int, 10);
        lemma_fundamental_div_mod(v as int, 10);
        lemma_mod_bound(v as int, 10);
        lemma_dec_rep(v / 10);
        let p = dec_rep(v / 10);
        let s = dec_rep(v);
        assert(s.drop_last() =~= p);
        assert(digits_val(s) == (v / 10) * 10 + v % 10);
        let l = p.len();
        assert(v / 10 < pow10(l));
        assert(10 * (v / 10) < 10 * pow10(l)) by (nonlinear_arith)
            requires
                v / 10 < pow10(l),
        ;
        assert(v < pow10(s.len()));
        // lower bound: v >= 10 * (v / 10) and v / 10 >= pow10(l - 1) (or l == 1)
        if l > 1 {
            assert(v / 10 >= pow10((l - 1) as nat));
            assert(10 * (v / 10) >= 10 * pow10((l - 1) as nat)) by (nonlinear_arith)
                requires
                    v / 10 >= pow10((l - 1) as nat),
            ;
        } else {
            assert(v / 10 >= 1) by {
                lemma_div_is_ordered(10, v as int, 10);
            }
        }
    }
}

pub proof fn lemma_digits_val_bound(s: Seq<u8>)
    requires
        all_digits(s),
    ensures
        0 <= digits_val(s) < pow10(s.len()),
    decreases s.len(),
{
    if s.len() == 0 {
    } else {
        lemma_digits_val_bound(s.drop_last());
        let l = (s.len() - 1) as nat;
        assert(digits_val(s.drop_last()) * 10 <= (pow10(l) - 1) * 10) by (nonlinear_arith)
            requires
                digits_val(s.drop_last()) <= pow10(l) - 1,
        ;
        assert(digits_val(s.drop_last()) * 10 >= 0) by (nonlinear_arith)
            requires
                digits_val(s.drop_last()) >= 0,
        ;
    }
}

proof fn lemma_digits_val_zeros(k: nat)
    ensures
        digits_val(zeros(k)) == 0,
    decreases k,
{
    if k == 0 {
        assert(zeros(0).len() == 0);
    } else {
        assert(zeros(k).drop_last() =~= zeros((k - 1) as nat));
        lemma_digits_val_zeros((k - 1) as nat);
    }
}

proof fn lemma_digits_val_zeros_prefix(k: nat, s: Seq<u8>)
    ensures
        digits_val(zeros(k) + s) == digits_val(s),
    decreases s.len(),
{
    if s.len() == 0 {
        assert(zeros(k) + s =~= zeros(k));
        lemma_digits_val_zeros(k);
    } else {
        assert((zeros(k) + s).drop_last() =~= zeros(k) + s.drop_last());
        assert((zeros(k) + s).last() == s.last());
        lemma_digits_val_zeros_prefix(k, s.drop_last());
    }
}

/// A timestamp below the limit pads to exactly 15 digits with the same value.
pub proof fn lemma_padded_ts(v: nat)
    requires
        v < TS_LIMIT,
    ensures
        padded_ts(v).len() == TS_DIGITS,
        all_digits(padded_ts(v)),
        digits_val(padded_ts(v)) == v,
{
    lemma_dec_rep(v);
    lemma_pow10_15();
    let l = dec_rep(v).len();
    if l > 15 {
        lemma_pow10_mono(15, (l - 1) as nat);
        assert(v >= pow10((l - 1) as nat));
        assert(false);
    }
    lemma_digits_val_zeros_prefix((TS_DIGITS - l) as nat, dec_rep(v));
}

/// Digit strings of one length with one value are equal.
pub proof fn lemma_digits_val_injective(a: Seq<u8>, b: Seq<u8>)
    requires
        all_digits(a),
        all_digits(b),
        a.len() == b.len(),
        digits_val(a) == digits_val(b),
    ensures
        a == b,
    decreases a.len(),
{
    if a.len() == 0 {
        assert(a =~= b);
    } else {
        let da = digit_val(a.last());
        let db = digit_val(b.last());
        let va = digits_val(a.drop_last());
        let vb = digits_val(b.drop_last());
        assert(is_digit(a[a.len() - 1]));
        assert(is_digit(b[b.len() - 1]));
        assert(va == vb && da == db) by (nonlinear_arith)
            requires
                va * 10 + da == vb * 10 + db,
                0 <= da < 10,
                0 <= db < 10,
        ;
        lemma_digits_val_injective(a.drop_last(), b.drop_last());
        assert(a =~= b) by {
            assert(forall|t: int|
                0 <= t < a.len() - 1 ==> a[t] == a.drop_last()[t] && b[t] == b.drop_last()[t]);
            assert(a.last() == b.last());
        }
    }
}

/// Unpadded decimal representation, executable form.
pub fn u128_to_dec(v: u128) -> (r: Vec<u8>)
    ensures
        r@ == dec_rep(v as nat),
    decreases v,
{
    if v < 10 {
        let mut r: Vec<u8> = Vec::new();
        r.push(48 + (v as u8));
        assert(r@ =~= dec_rep(v as nat));
        r
    } else {
        proof {
            lemma_div_decreases(v as int, 10);
            lemma_mod_bound(v as int, 10);
        }
        let mut r = u128_to_dec(v / 10);
        r.push(48 + ((v % 10) as u8));
        assert(r@ =~= dec_rep(v as nat));
        r
    }
}

/// `v` as exactly 15 digits, zero-padded on the left, executable form.
pub fn ts_to_padded(v: u64) -> (r: Vec<u8>)
    requires
        v < TS_LIMIT,
    ensures
        r@ == padded_ts(v as nat),
        r@.len() == TS_DIGITS,
{
    proof {
        lemma_padded_ts(v as nat);
    }
    let mut digits = u128_to_dec(v as u128);
    let pad = TS_DIGITS - digits.len();
    let mut r: Vec<u8> = Vec::new();
    let mut i: usize = 0;
    while i < pad
        invariant
            i <= pad,
            r@ =~= zeros(i as nat),
        decreases pad - i,
    {
        r.push(48);
        assert(r@ =~= zeros((i + 1) as nat));
        i += 1;
    }
    r.append(&mut digits);
    assert(r@ =~= padded_ts(v as nat));
    r
}

/// Reads the 15-digit number at `pos`; `None` iff a byte there is no digit.
pub fn parse_padded_ts(s: &Vec<u8>, pos: usize) -> (r: Option<u64>)
    requires
        pos + TS_DIGITS <= s.len(),
    ensures
        match r {
            Some(v) => {
                &&& all_digits(s@.subrange(pos as int, pos + TS_DIGITS))
                &&& v == digits_val(s@.subrange(pos as int, pos + TS_DIGITS))
                &&& v < TS_LIMIT
            },
            None => !all_digits(s@.subrange(pos as int, pos + TS_DIGITS)),
        },
{
    let ghost sub = s@.subrange(pos as int, pos + TS_DIGITS);
    let mut acc: u64 = 0;
    let mut j: usize = 0;
    while j < TS_DIGITS
        invariant
            j <= TS_DIGITS,
            pos + TS_DIGITS <= s.len(),
            sub == s@.subrange(pos as int, pos + TS_DIGITS),
            all_digits(sub.take(j as int)),
            acc == digits_val(sub.take(j as int)),
            acc < pow10(j as nat),
        decreases TS_DIGITS - j,
    {
        let b = s[pos + j];
        if !(48 <= b && b <= 57) {
            assert(sub[j as int] == b);
            return None;
        }
        proof {
            assert(sub.take(j + 1).drop_last() =~= sub.take(j as int));
            assert(sub.take(j + 1).last() == sub[j as int]);
            lemma_pow10_mono((j + 1) as nat, 15);
            lemma_pow10_15();
            assert(acc * 10 + digit_val(b) < pow10((j + 1) as nat)) by (nonlinear_arith)
                requires
                    acc < pow10(j as nat),
                    pow10((j + 1) as nat) == 10 * pow10(j as nat),
                    digit_val(b) < 10,
            ;
        }
        acc = acc * 10 + ((b - 48) as u64);
        j += 1;
    }
    proof {
        assert(sub.take(TS_DIGITS as int) =~= sub);
        lemma_pow10_15();
    }
    Some(acc)
}

} // verus!
