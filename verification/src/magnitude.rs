//! The range of doubles: whether the magnitude of a number literal is
//! beyond what a double can hold. The question is settled on the
//! digits of the literal, without floating point.

use vstd::prelude::*;
use crate::charutils::is_digit;
use crate::numberparse::{digits_value, lemma_digits_value_grows};

verus! {

/// The number of digits of the limit.
pub const LIMIT_LEN: usize = 309;

/// The decimal digits of the smallest magnitude that rounds to
/// infinity, 2^1024 - 2^970: half a step above the largest double.
pub const LIMIT_DIGITS: [u8; 309] = [
    49, 55, 57, 55, 54, 57, 51, 49, 51, 52, 56, 54, 50, 51, 49, 53, 56, 48, 55, 57,
    51, 55, 50, 56, 57, 55, 49, 52, 48, 53, 51, 48, 51, 52, 49, 53, 48, 55, 57, 57,
    51, 52, 49, 51, 50, 55, 49, 48, 48, 51, 55, 56, 50, 54, 57, 51, 54, 49, 55, 51,
    55, 55, 56, 57, 56, 48, 52, 52, 52, 57, 54, 56, 50, 57, 50, 55, 54, 52, 55, 53,
    48, 57, 52, 54, 54, 52, 57, 48, 49, 55, 57, 55, 55, 53, 56, 55, 50, 48, 55, 48,
    57, 54, 51, 51, 48, 50, 56, 54, 52, 49, 54, 54, 57, 50, 56, 56, 55, 57, 49, 48,
    57, 52, 54, 53, 53, 53, 53, 52, 55, 56, 53, 49, 57, 52, 48, 52, 48, 50, 54, 51,
    48, 54, 53, 55, 52, 56, 56, 54, 55, 49, 53, 48, 53, 56, 50, 48, 54, 56, 49, 57,
    48, 56, 57, 48, 50, 48, 48, 48, 55, 48, 56, 51, 56, 51, 54, 55, 54, 50, 55, 51,
    56, 53, 52, 56, 52, 53, 56, 49, 55, 55, 49, 49, 53, 51, 49, 55, 54, 52, 52, 55,
    53, 55, 51, 48, 50, 55, 48, 48, 54, 57, 56, 53, 53, 53, 55, 49, 51, 54, 54, 57,
    53, 57, 54, 50, 50, 56, 52, 50, 57, 49, 52, 56, 49, 57, 56, 54, 48, 56, 51, 52,
    57, 51, 54, 52, 55, 53, 50, 57, 50, 55, 49, 57, 48, 55, 52, 49, 54, 56, 52, 52,
    52, 51, 54, 53, 53, 49, 48, 55, 48, 52, 51, 52, 50, 55, 49, 49, 53, 53, 57, 54,
    57, 57, 53, 48, 56, 48, 57, 51, 48, 52, 50, 56, 56, 48, 49, 55, 55, 57, 48, 52,
    49, 55, 52, 52, 57, 55, 55, 57, 50,
];

/// Ten to the power `n`.
pub open spec fn pow10(n: nat) -> nat
    decreases n,
{
    if n == 0 {
        1
    } else {
        10 * pow10((n - 1) as nat)
    }
}

/// The number that the decimal digits of `s` spell.
pub open spec fn seq_value(s: Seq<u8>) -> nat
    decreases s.len(),
{
    if s.len() == 0 {
        0
    } else {
        seq_value(s.drop_last()) * 10 + (s.last() - 0x30) as nat
    }
}

pub open spec fn all_digits(s: Seq<u8>) -> bool {
    forall|i: int| 0 <= i < s.len() ==> is_digit(#[trigger] s[i])
}

/// The smallest magnitude that rounds to infinity.
pub open spec fn double_limit() -> nat {
    seq_value(LIMIT_DIGITS@)
}

/// The number `d * 10^e` is at least `limit`.
pub open spec fn reaches(d: nat, e: int, limit: nat) -> bool {
    if e >= 0 {
        d * pow10(e as nat) >= limit
    } else {
        d >= limit * pow10((-e) as nat)
    }
}

/// The literal whose digits before and after the point are `digits`,
/// of which `fraction` stand after the point, and whose exponent is
/// `exponent`, is beyond the range of doubles.
pub open spec fn exceeds_double(digits: Seq<u8>, fraction: nat, exponent: int) -> bool {
    reaches(seq_value(digits), exponent - fraction, double_limit())
}

pub proof fn lemma_pow10_positive(n: nat)
    ensures
        pow10(n) >= 1,
    decreases n,
{
    if n > 0 {
        lemma_pow10_positive((n - 1) as nat);
    }
}

pub proof fn lemma_pow10_add(a: nat, b: nat)
    ensures
        pow10(a + b) == pow10(a) * pow10(b),
    decreases a,
{
    if a > 0 {
        lemma_pow10_add((a - 1) as nat, b);
        assert(10 * (pow10((a - 1) as nat) * pow10(b)) == (10 * pow10((a - 1) as nat)) * pow10(b))
            by (nonlinear_arith);
    } else {
        assert(1 * pow10(b) == pow10(b));
    }
}

pub proof fn lemma_pow10_grows(a: nat, b: nat)
    requires
        a <= b,
    ensures
        pow10(a) <= pow10(b),
    decreases b,
{
    if a < b {
        lemma_pow10_grows(a, (b - 1) as nat);
    }
}

pub proof fn lemma_all_digits_parts(s: Seq<u8>, i: int, j: int)
    requires
        all_digits(s),
        0 <= i <= j <= s.len(),
    ensures
        all_digits(s.subrange(i, j)),
{
    assert forall|x: int| 0 <= x < j - i implies is_digit(#[trigger] s.subrange(i, j)[x]) by {
        assert(s.subrange(i, j)[x] == s[i + x]);
    }
}

/// The digits `a` followed by the digits `c` spell the number of `a`,
/// shifted by the length of `c`, plus the number of `c`.
pub proof fn lemma_seq_value_concat(a: Seq<u8>, c: Seq<u8>)
    ensures
        seq_value(a + c) == seq_value(a) * pow10(c.len()) + seq_value(c),
    decreases c.len(),
{
    if c.len() == 0 {
        assert(a + c =~= a);
        assert(seq_value(a) * 1 == seq_value(a)) by (nonlinear_arith);
    } else {
        let c0 = c.drop_last();
        assert((a + c).drop_last() =~= a + c0);
        assert((a + c).last() == c.last());
        lemma_seq_value_concat(a, c0);
        let d = (c.last() - 0x30) as nat;
        let va = seq_value(a);
        let p = pow10(c0.len());
        let vc = seq_value(c0);
        assert(pow10(c.len()) == 10 * p);
        assert((va * p + vc) * 10 + d == va * (10 * p) + (vc * 10 + d)) by (nonlinear_arith);
    }
}

/// A number of `n` digits lies below `10^n`, and at or above
/// `10^(n-1)` if its first digit is not zero.
pub proof fn lemma_seq_value_bounds(s: Seq<u8>)
    requires
        all_digits(s),
    ensures
        seq_value(s) < pow10(s.len()),
        s.len() > 0 && s[0] != 0x30 ==> seq_value(s) >= pow10((s.len() - 1) as nat),
    decreases s.len(),
{
    if s.len() > 0 {
        let s0 = s.drop_last();
        lemma_all_digits_parts(s, 0, s.len() - 1);
        lemma_seq_value_bounds(s0);
        assert(is_digit(s[s.len() - 1]));
        if s.len() > 1 {
            assert(s0[0] == s[0]);
        }
    }
}

/// Zeros in front do not count.
pub proof fn lemma_seq_value_leading_zeros(s: Seq<u8>, z: int)
    requires
        0 <= z <= s.len(),
        forall|i: int| 0 <= i < z ==> s[i] == 0x30,
    ensures
        seq_value(s) == seq_value(s.skip(z)),
    decreases z,
{
    if z > 0 {
        lemma_seq_value_leading_zeros(s, z - 1);
        let t = s.skip(z - 1);
        assert(t =~= seq![0x30u8] + s.skip(z));
        lemma_seq_value_concat(seq![0x30u8], s.skip(z));
        assert(seq![0x30u8].drop_last() =~= Seq::<u8>::empty());
        assert(seq_value(Seq::<u8>::empty()) == 0);
        assert(seq![0x30u8].last() == 0x30u8);
        assert(seq_value(seq![0x30u8]) == 0);
        assert(0 * pow10(s.skip(z).len()) == 0) by (nonlinear_arith);
    } else {
        assert(s.skip(0) =~= s);
    }
}

pub proof fn lemma_digits_value_is_seq_value(b: Seq<u8>, i: int, j: int)
    requires
        0 <= i <= j <= b.len(),
    ensures
        digits_value(b, i, j) == seq_value(b.subrange(i, j)),
    decreases j - i,
{
    if i < j {
        lemma_digits_value_is_seq_value(b, i, j - 1);
        assert(b.subrange(i, j).drop_last() =~= b.subrange(i, j - 1));
    }
}

/// Of two numbers of equal length that agree up to a digit, the one
/// with the larger digit there is the larger.
pub proof fn lemma_first_difference(q: Seq<u8>, t: Seq<u8>, i: int)
    requires
        q.len() == t.len(),
        all_digits(q),
        all_digits(t),
        0 <= i < q.len(),
        q.take(i) == t.take(i),
        q[i] > t[i],
    ensures
        seq_value(q) > seq_value(t),
{
    let r = (q.len() - i - 1) as nat;
    assert(q =~= q.take(i + 1) + q.skip(i + 1));
    assert(t =~= t.take(i + 1) + t.skip(i + 1));
    lemma_seq_value_concat(q.take(i + 1), q.skip(i + 1));
    lemma_seq_value_concat(t.take(i + 1), t.skip(i + 1));
    assert(q.take(i + 1).drop_last() =~= q.take(i));
    assert(t.take(i + 1).drop_last() =~= t.take(i));
    lemma_all_digits_parts(t, i + 1, t.len() as int);
    assert(t.skip(i + 1) =~= t.subrange(i + 1, t.len() as int));
    lemma_seq_value_bounds(t.skip(i + 1));
    let head = seq_value(q.take(i));
    let dq = (q[i] - 0x30) as nat;
    let dt = (t[i] - 0x30) as nat;
    let p = pow10(r);
    assert(is_digit(q[i]) && is_digit(t[i]));
    assert((head * 10 + dq) * p >= (head * 10 + dt) * p + p) by (nonlinear_arith)
        requires
            dq >= dt + 1,
    ;
}

/// By its number of digits alone a magnitude is beyond the limit or
/// below it, unless it has as many digits as the limit.
pub proof fn lemma_reaches_by_length(d: nat, n: nat, e: int, limit: nat)
    requires
        n >= 1,
        pow10((n - 1) as nat) <= d < pow10(n),
        pow10(308) <= limit < pow10(309),
    ensures
        n + e > 309 ==> reaches(d, e, limit),
        n + e < 309 ==> !reaches(d, e, limit),
{
    lemma_pow10_positive(n);
    if e >= 0 {
        let pe = pow10(e as nat);
        lemma_pow10_positive(e as nat);
        lemma_pow10_add((n - 1) as nat, e as nat);
        lemma_pow10_add(n, e as nat);
        if n + e > 309 {
            lemma_pow10_grows(309, (n - 1 + e) as nat);
            assert(d * pe >= pow10((n - 1) as nat) * pe) by (nonlinear_arith)
                requires
                    d >= pow10((n - 1) as nat),
                    pe >= 0,
            ;
        }
        if n + e < 309 {
            lemma_pow10_grows((n + e) as nat, 308);
            assert(d * pe < pow10(n) * pe) by (nonlinear_arith)
                requires
                    d < pow10(n),
                    pe >= 1,
            ;
        }
    } else {
        let k = (-e) as nat;
        let pk = pow10(k);
        lemma_pow10_positive(k);
        if n + e > 309 {
            // 10^(n-1) = 10^(n-1-k) * 10^k with n-1-k >= 309
            lemma_pow10_add((n - 1 - k) as nat, k);
            lemma_pow10_grows(309, (n - 1 - k) as nat);
            assert(limit * pk <= pow10((n - 1 - k) as nat) * pk) by (nonlinear_arith)
                requires
                    limit <= pow10((n - 1 - k) as nat),
                    pk >= 0,
            ;
        }
        if n + e < 309 {
            // 10^n <= 10^(308 + k) = 10^308 * 10^k <= limit * 10^k
            lemma_pow10_add(308, k);
            lemma_pow10_grows(n, 308 + k);
            assert(pow10(308) * pk <= limit * pk) by (nonlinear_arith)
                requires
                    pow10(308) <= limit,
                    pk >= 0,
            ;
        }
    }
}

/// The first `LIMIT_LEN` digits of `s`, with zeros where `s` has none.
pub open spec fn leading_digits(s: Seq<u8>) -> Seq<u8> {
    Seq::new(
        LIMIT_LEN as nat,
        |x: int|
            if x < s.len() {
                s[x]
            } else {
                0x30u8
            },
    )
}

pub proof fn lemma_zeros_value(k: nat)
    ensures
        seq_value(Seq::new(k, |x: int| 0x30u8)) == 0,
    decreases k,
{
    if k > 0 {
        lemma_zeros_value((k - 1) as nat);
        assert(Seq::new(k, |x: int| 0x30u8).drop_last() =~= Seq::new(
            (k - 1) as nat,
            |x: int| 0x30u8,
        ));
    }
}

/// A magnitude with as many digits as the limit reaches it exactly
/// when its leading digits do.
pub proof fn lemma_reaches_by_digits(s: Seq<u8>, e: int, limit: nat)
    requires
        all_digits(s),
        s.len() >= 1,
        s.len() + e == 309,
    ensures
        reaches(seq_value(s), e, limit) == (seq_value(leading_digits(s)) >= limit),
{
    let q = leading_digits(s);
    if e >= 0 {
        let zeros = Seq::new(e as nat, |x: int| 0x30u8);
        assert(q =~= s + zeros);
        lemma_seq_value_concat(s, zeros);
        lemma_zeros_value(e as nat);
    } else {
        let k = (-e) as nat;
        assert(q =~= s.take(309));
        assert(s =~= s.take(309) + s.skip(309));
        lemma_seq_value_concat(s.take(309), s.skip(309));
        lemma_all_digits_parts(s, 309, s.len() as int);
        assert(s.skip(309) =~= s.subrange(309, s.len() as int));
        lemma_seq_value_bounds(s.skip(309));
        let p = seq_value(q);
        let r = seq_value(s.skip(309));
        let pk = pow10(k);
        assert(s.skip(309).len() == k);
        if p >= limit {
            assert(p * pk >= limit * pk) by (nonlinear_arith)
                requires
                    p >= limit,
                    pk >= 0,
            ;
        } else {
            assert((p + 1) * pk <= limit * pk) by (nonlinear_arith)
                requires
                    p + 1 <= limit,
                    pk >= 0,
            ;
            assert((p + 1) * pk == p * pk + pk) by (nonlinear_arith);
        }
    }
}

/// The limit has 309 digits, of which the first is not zero.
pub proof fn lemma_limit_digits()
    ensures
        all_digits(LIMIT_DIGITS@),
        LIMIT_DIGITS@.len() == 309,
        LIMIT_DIGITS@[0] != 0x30,
        pow10(308) <= double_limit() < pow10(309),
{
    assert(LIMIT_DIGITS@.len() == 309);
    assert forall|i: int| 0 <= i < 309 implies is_digit(#[trigger] LIMIT_DIGITS@[i]) by {
        lemma_limit_digit(i);
    }
    lemma_limit_digit(0);
    lemma_seq_value_bounds(LIMIT_DIGITS@);
}

proof fn lemma_limit_digit(i: int)
    requires
        0 <= i < 309,
    ensures
        is_digit(LIMIT_DIGITS@[i]),
        i == 0 ==> LIMIT_DIGITS@[i] == 0x31,
{
}

/// The digits of a literal before and after the point, as one run.
pub open spec fn joined(b: Seq<u8>, i0: int, i1: int, f0: int, f1: int) -> Seq<u8> {
    b.subrange(i0, i1) + b.subrange(f0, f1)
}

/// The exponent that the digits in `[e0, e1)` spell, with its sign.
pub open spec fn signed_exponent(b: Seq<u8>, negative: bool, e0: int, e1: int) -> int {
    if negative {
        -(digits_value(b, e0, e1) as int)
    } else {
        digits_value(b, e0, e1) as int
    }
}

/// The digit at position `x` of the joined run.
fn digit_at(buf: &[u8], i0: usize, i1: usize, f0: usize, f1: usize, x: usize) -> (d: u8)
    requires
        i0 <= i1 <= f0 <= f1 <= buf@.len(),
        x < (i1 - i0) + (f1 - f0),
    ensures
        d == joined(buf@, i0 as int, i1 as int, f0 as int, f1 as int)[x as int],
{
    if x < i1 - i0 {
        buf[i0 + x]
    } else {
        buf[f0 + (x - (i1 - i0))]
    }
}

/// The value of the digits in `[e0, e1)`, unless it is above `cap`.
fn value_up_to(buf: &[u8], e0: usize, e1: usize, cap: u128) -> (r: Option<u128>)
    requires
        e0 <= e1 <= buf@.len(),
        forall|x: int| e0 <= x < e1 ==> is_digit(buf@[x]),
        cap < 0x1_0000_0000_0000_0000_0000,
    ensures
        match r {
            Some(v) => v == digits_value(buf@, e0 as int, e1 as int) && v <= cap,
            None => digits_value(buf@, e0 as int, e1 as int) > cap,
        },
{
    let mut acc: u128 = 0;
    let mut x = e0;
    while x < e1
        invariant
            e0 <= x <= e1 <= buf@.len(),
            forall|z: int| e0 <= z < e1 ==> is_digit(buf@[z]),
            cap < 0x1_0000_0000_0000_0000_0000,
            acc == digits_value(buf@, e0 as int, x as int),
            acc <= cap,
        decreases e1 - x,
    {
        let d: u128 = (buf[x] - 0x30) as u128;
        let next = acc * 10 + d;
        if next > cap {
            proof {
                lemma_digits_value_grows(buf@, e0 as int, x + 1, e1 as int);
            }
            return None;
        }
        acc = next;
        x = x + 1;
    }
    Some(acc)
}

/// Whether the leading digits of the joined run from `z` on reach the
/// limit: the digits are compared with those of the limit, first
/// difference decides.
fn leading_digits_reach(buf: &[u8], i0: usize, i1: usize, f0: usize, f1: usize, z: usize) -> (r:
    bool)
    requires
        i0 <= i1 <= f0 <= f1 <= buf@.len(),
        z < (i1 - i0) + (f1 - f0),
        all_digits(joined(buf@, i0 as int, i1 as int, f0 as int, f1 as int)),
    ensures
        r == (seq_value(
            leading_digits(joined(buf@, i0 as int, i1 as int, f0 as int, f1 as int).skip(z as int)),
        ) >= double_limit()),
{
    let len = (i1 - i0) + (f1 - f0);
    let ghost s = joined(buf@, i0 as int, i1 as int, f0 as int, f1 as int).skip(z as int);
    let ghost q = leading_digits(s);
    proof {
        lemma_limit_digits();
        assert forall|x: int| 0 <= x < q.len() implies is_digit(#[trigger] q[x]) by {
            if x < s.len() {
                assert(s[x] == joined(buf@, i0 as int, i1 as int, f0 as int, f1 as int)[z + x]);
            }
        }
    }
    let mut x: usize = 0;
    while x < LIMIT_LEN
        invariant
            x <= LIMIT_LEN,
            i0 <= i1 <= f0 <= f1 <= buf@.len(),
            len == (i1 - i0) + (f1 - f0),
            z < len,
            s == joined(buf@, i0 as int, i1 as int, f0 as int, f1 as int).skip(z as int),
            q == leading_digits(s),
            all_digits(q),
            all_digits(LIMIT_DIGITS@),
            q.take(x as int) =~= LIMIT_DIGITS@.take(x as int),
        decreases LIMIT_LEN - x,
    {
        let d: u8 = if x < len - z {
            digit_at(buf, i0, i1, f0, f1, z + x)
        } else {
            0x30
        };
        let t = LIMIT_DIGITS[x];
        assert(d == q[x as int]);
        if d > t {
            proof {
                lemma_first_difference(q, LIMIT_DIGITS@, x as int);
            }
            return true;
        }
        if d < t {
            proof {
                lemma_first_difference(LIMIT_DIGITS@, q, x as int);
            }
            return false;
        }
        assert(q.take(x + 1) =~= q.take(x as int).push(q[x as int]));
        assert(LIMIT_DIGITS@.take(x + 1) =~= LIMIT_DIGITS@.take(x as int).push(
            LIMIT_DIGITS@[x as int],
        ));
        x = x + 1;
    }
    proof {
        assert(q.take(309) =~= q);
        assert(LIMIT_DIGITS@.take(309) =~= LIMIT_DIGITS@);
    }
    true
}

/// Whether the literal with the integer digits `[i0, i1)`, the
/// fraction digits `[f0, f1)` and the exponent digits `[e0, e1)` is
/// beyond the range of doubles. Leading zeros are passed over; then
/// the number of digits and the exponent settle the question, or, if
/// the magnitude has as many digits as the limit, its leading digits.
pub fn exceeds_double_range(
    buf: &[u8],
    i0: usize,
    i1: usize,
    f0: usize,
    f1: usize,
    exp_negative: bool,
    e0: usize,
    e1: usize,
) -> (r: bool)
    requires
        i0 <= i1 <= f0 <= f1 <= e0 <= e1 <= buf@.len(),
        forall|x: int| i0 <= x < i1 ==> is_digit(buf@[x]),
        forall|x: int| f0 <= x < f1 ==> is_digit(buf@[x]),
        forall|x: int| e0 <= x < e1 ==> is_digit(buf@[x]),
    ensures
        r == exceeds_double(
            joined(buf@, i0 as int, i1 as int, f0 as int, f1 as int),
            (f1 - f0) as nat,
            signed_exponent(buf@, exp_negative, e0 as int, e1 as int),
        ),
{
    let len: usize = (i1 - i0) + (f1 - f0);
    let ghost s = joined(buf@, i0 as int, i1 as int, f0 as int, f1 as int);
    let ghost exponent = signed_exponent(buf@, exp_negative, e0 as int, e1 as int);
    let ghost e = exponent - (f1 - f0);
    proof {
        lemma_limit_digits();
        assert forall|x: int| 0 <= x < s.len() implies is_digit(#[trigger] s[x]) by {
            if x < i1 - i0 {
                assert(s[x] == buf@[i0 + x]);
            } else {
                assert(s[x] == buf@[f0 + (x - (i1 - i0))]);
            }
        }
    }
    let mut z: usize = 0;
    while z < len && digit_at(buf, i0, i1, f0, f1, z) == 0x30
        invariant
            i0 <= i1 <= f0 <= f1 <= buf@.len(),
            len == (i1 - i0) + (f1 - f0),
            z <= len,
            s == joined(buf@, i0 as int, i1 as int, f0 as int, f1 as int),
            forall|x: int| 0 <= x < z ==> s[x] == 0x30,
        decreases len - z,
    {
        z = z + 1;
    }
    proof {
        lemma_seq_value_leading_zeros(s, z as int);
    }
    if z == len {
        proof {
            assert(s.skip(z as int) =~= Seq::<u8>::empty());
            assert(seq_value(s) == 0);
            if e >= 0 {
                assert(0 * pow10(e as nat) == 0) by (nonlinear_arith);
            } else {
                lemma_pow10_positive((-e) as nat);
                assert(double_limit() * pow10((-e) as nat) >= 1) by (nonlinear_arith)
                    requires
                        double_limit() >= 1,
                        pow10((-e) as nat) >= 1,
                ;
            }
            lemma_pow10_positive(308);
        }
        return false;
    }
    let ghost t = s.skip(z as int);
    proof {
        lemma_all_digits_parts(s, z as int, s.len() as int);
        assert(t =~= s.subrange(z as int, s.len() as int));
        assert(t[0] == s[z as int]);
        lemma_seq_value_bounds(t);
        lemma_reaches_by_length(seq_value(t), t.len(), e, double_limit());
        if t.len() + e == 309 {
            lemma_reaches_by_digits(t, e, double_limit());
        }
    }
    let cap: u128 = len as u128 + 400;
    let magnitude: i128 = match value_up_to(buf, e0, e1, cap) {
        None => {
            return !exp_negative;
        },
        Some(v) => {
            let signed: i128 = if exp_negative { -(v as i128) } else { v as i128 };
            (len - z) as i128 + signed - (f1 - f0) as i128
        },
    };
    if magnitude > 309 {
        true
    } else if magnitude < 309 {
        false
    } else {
        leading_digits_reach(buf, i0, i1, f0, f1, z)
    }
}

} // verus!
