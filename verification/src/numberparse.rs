//! Numbers: the literal grammar, and the parser that tells integers
//! from the literals that need a double.

use vstd::prelude::*;
use vstd::slice::{slice_subrange, slice_to_vec};
use crate::charutils::{byte_is_digit, byte_is_operator, byte_is_whitespace, is_digit, is_operator, is_whitespace};
use crate::error::ErrorType;
use crate::magnitude::{exceeds_double, exceeds_double_range, joined, signed_exponent};

verus! {

/// A number that does not fit the integer tag, held as the text of its
/// literal: an optional sign, digits, and a fraction or an exponent
/// where the source had one.
#[derive(Debug, PartialEq, Clone)]
pub struct Float {
    pub literal: Vec<u8>,
}

impl View for Float {
    type V = Seq<u8>;

    open spec fn view(&self) -> Seq<u8> {
        self.literal@
    }
}

/// A parsed number.
#[derive(Debug, PartialEq, Clone)]
pub enum Number {
    I64(i64),
    F64(Float),
}

/// What a number is: an integer, or the text of a literal.
pub enum Num {
    I64(i64),
    F64(Seq<u8>),
}

impl View for Number {
    type V = Num;

    open spec fn view(&self) -> Num {
        match self {
            Number::I64(i) => Num::I64(*i),
            Number::F64(f) => Num::F64(f@),
        }
    }
}

/// Where the run of digits that starts at `i` ends.
pub open spec fn digits_end(b: Seq<u8>, i: int) -> int
    decreases b.len() - i,
{
    if 0 <= i < b.len() && is_digit(b[i]) {
        digits_end(b, i + 1)
    } else {
        i
    }
}

/// The number that the decimal digits in `[i, j)` spell.
pub open spec fn digits_value(b: Seq<u8>, i: int, j: int) -> nat
    decreases j - i,
{
    if j <= i {
        0
    } else {
        digits_value(b, i, j - 1) * 10 + (b[j - 1] - 0x30) as nat
    }
}

/// A number may end only at the end of the input, at whitespace or at
/// an operator.
pub open spec fn is_terminator(b: Seq<u8>, i: int) -> bool {
    i >= b.len() || is_whitespace(b[i]) || is_operator(b[i])
}

/// The end of the integer part that starts at `i`: a single zero, or a
/// run of digits that starts with a non-zero digit.
pub open spec fn int_part_end(b: Seq<u8>, i: int) -> Option<int> {
    if 0 <= i < b.len() && is_digit(b[i]) {
        Some(if b[i] == 0x30 { i + 1 } else { digits_end(b, i) })
    } else {
        None
    }
}

/// The digits of the fraction that may start at `i`; a point must be
/// followed by a digit. Without a point the range is empty.
pub open spec fn frac_part(b: Seq<u8>, i: int) -> Option<(int, int)> {
    if 0 <= i < b.len() && b[i] == 0x2e {
        if i + 1 < b.len() && is_digit(b[i + 1]) {
            Some((i + 1, digits_end(b, i + 1)))
        } else {
            None
        }
    } else {
        Some((i, i))
    }
}

/// Where the digits of the exponent that is marked at `i` start.
pub open spec fn exp_digits_start(b: Seq<u8>, i: int) -> int {
    if i + 1 < b.len() && (b[i + 1] == 0x2b || b[i + 1] == 0x2d) {
        i + 2
    } else {
        i + 1
    }
}

/// The sign and the digits of the exponent that may start at `i`; the
/// marker and the optional sign must be followed by a digit. Without
/// a marker the range is empty.
pub open spec fn exp_part(b: Seq<u8>, i: int) -> Option<(bool, int, int)> {
    if 0 <= i < b.len() && (b[i] == 0x65 || b[i] == 0x45) {
        let j = exp_digits_start(b, i);
        if j < b.len() && is_digit(b[j]) {
            Some((j == i + 2 && b[i + 1] == 0x2d, j, digits_end(b, j)))
        } else {
            None
        }
    } else {
        Some((false, i, i))
    }
}

/// The parts of a literal that follows the grammar: the ranges of its
/// digits, the sign of its exponent, and its end.
pub struct Shape {
    pub int_start: int,
    pub int_end: int,
    pub frac_start: int,
    pub frac_end: int,
    pub exp_negative: bool,
    pub exp_start: int,
    pub exp_end: int,
}

/// The parts of the literal at `k`, if it follows the grammar and ends
/// at a terminator. `negative` says that a minus sign stands at `k`.
pub open spec fn number_shape(b: Seq<u8>, k: int, negative: bool) -> Option<Shape> {
    let i0 = if negative { k + 1 } else { k };
    match int_part_end(b, i0) {
        None => None,
        Some(i1) => match frac_part(b, i1) {
            None => None,
            Some((f0, f1)) => match exp_part(b, f1) {
                None => None,
                Some((exp_negative, e0, e1)) => if is_terminator(b, e1) {
                    Some(
                        Shape {
                            int_start: i0,
                            int_end: i1,
                            frac_start: f0,
                            frac_end: f1,
                            exp_negative,
                            exp_start: e0,
                            exp_end: e1,
                        },
                    )
                } else {
                    None
                },
            },
        },
    }
}

/// The literal of shape `s` is beyond the range of doubles.
pub open spec fn shape_exceeds(b: Seq<u8>, s: Shape) -> bool {
    exceeds_double(
        joined(b, s.int_start, s.int_end, s.frac_start, s.frac_end),
        (s.frac_end - s.frac_start) as nat,
        signed_exponent(b, s.exp_negative, s.exp_start, s.exp_end),
    )
}

/// The number at `k`: an integer if the literal has neither fraction
/// nor exponent and fits `i64` with its sign; else the literal's text,
/// unless its magnitude is beyond the range of doubles.
pub open spec fn number_at(b: Seq<u8>, k: int, negative: bool) -> Result<Num, ErrorType> {
    match number_shape(b, k, negative) {
        None => Err(ErrorType::InvalidNumber),
        Some(s) => {
            let v = digits_value(b, s.int_start, s.int_end);
            if s.exp_end == s.int_end && !negative && v <= 0x7fff_ffff_ffff_ffff {
                Ok(Num::I64(v as i64))
            } else if s.exp_end == s.int_end && negative && v <= 0x8000_0000_0000_0000 {
                Ok(Num::I64((-v) as i64))
            } else if shape_exceeds(b, s) {
                Err(ErrorType::NumberOverflow)
            } else {
                Ok(Num::F64(b.subrange(k, s.exp_end)))
            }
        },
    }
}

pub proof fn lemma_digits_end(b: Seq<u8>, i: int)
    requires
        0 <= i,
    ensures
        i <= digits_end(b, i),
        i <= b.len() ==> digits_end(b, i) <= b.len(),
        forall|x: int| i <= x < digits_end(b, i) ==> is_digit(b[x]),
        digits_end(b, i) < b.len() ==> !is_digit(b[digits_end(b, i)]),
    decreases b.len() - i,
{
    if i < b.len() && is_digit(b[i]) {
        lemma_digits_end(b, i + 1);
    }
}

/// Appending digits never makes the value smaller.
pub proof fn lemma_digits_value_grows(b: Seq<u8>, i: int, x: int, y: int)
    requires
        0 <= i <= x <= y <= b.len(),
        forall|z: int| i <= z < y ==> is_digit(b[z]),
    ensures
        digits_value(b, i, x) <= digits_value(b, i, y),
    decreases y - x,
{
    if x < y {
        lemma_digits_value_grows(b, i, x, y - 1);
    }
}

pub proof fn lemma_digits_end_local(a: Seq<u8>, b: Seq<u8>, i: int)
    requires
        a.len() == b.len(),
        0 <= i,
        forall|j: int| i <= j < a.len() ==> a[j] == b[j],
    ensures
        digits_end(a, i) == digits_end(b, i),
    decreases a.len() - i,
{
    if i < a.len() && is_digit(a[i]) {
        lemma_digits_end_local(a, b, i + 1);
    }
}

pub proof fn lemma_digits_value_local(a: Seq<u8>, b: Seq<u8>, i: int, j: int)
    requires
        a.len() == b.len(),
        0 <= i,
        j <= a.len(),
        forall|x: int| i <= x < a.len() ==> a[x] == b[x],
    ensures
        digits_value(a, i, j) == digits_value(b, i, j),
    decreases j - i,
{
    if i < j {
        lemma_digits_value_local(a, b, i, j - 1);
    }
}

/// A number is read from the bytes at and after its start alone.
pub proof fn lemma_number_at_local(a: Seq<u8>, b: Seq<u8>, k: int, negative: bool)
    requires
        a.len() == b.len(),
        0 <= k < a.len(),
        forall|j: int| k <= j < a.len() ==> a[j] == b[j],
    ensures
        number_at(a, k, negative) == number_at(b, k, negative),
{
    let i0 = if negative { k + 1 } else { k };
    lemma_digits_end_local(a, b, i0);
    lemma_digits_end(a, i0);
    match int_part_end(a, i0) {
        None => {},
        Some(i1) => {
            lemma_digits_end_local(a, b, i1 + 1);
            lemma_digits_end(a, i1 + 1);
            match frac_part(a, i1) {
                None => {},
                Some((f0, f1)) => {
                    let j = exp_digits_start(a, f1);
                    lemma_digits_end_local(a, b, j);
                    lemma_digits_end(a, j);
                    match exp_part(a, f1) {
                        None => {},
                        Some((neg, e0, e1)) => {
                            if e1 <= a.len() {
                                lemma_digits_value_local(a, b, i0, i1);
                                lemma_digits_value_local(a, b, e0, e1);
                                assert(a.subrange(k, e1) =~= b.subrange(k, e1));
                                assert(joined(a, i0, i1, f0, f1) =~= joined(b, i0, i1, f0, f1));
                            }
                        },
                    }
                },
            }
        },
    }
}

/// Where the run of digits that starts at `i` ends.
fn scan_digits(buf: &[u8], i: usize) -> (j: usize)
    requires
        i <= buf@.len(),
    ensures
        j == digits_end(buf@, i as int),
        i <= j <= buf@.len(),
{
    let n = buf.len();
    let mut j = i;
    while j < n && byte_is_digit(buf[j])
        invariant
            i <= j <= n == buf@.len(),
            digits_end(buf@, i as int) == digits_end(buf@, j as int),
        decreases n - j,
    {
        j = j + 1;
    }
    j
}

/// The value of the digits in `[i, j)`, unless it is beyond `u64`.
fn accumulate(buf: &[u8], i: usize, j: usize) -> (r: Option<u64>)
    requires
        i <= j <= buf@.len(),
        forall|x: int| i <= x < j ==> is_digit(buf@[x]),
    ensures
        match r {
            Some(v) => v == digits_value(buf@, i as int, j as int),
            None => digits_value(buf@, i as int, j as int) > u64::MAX,
        },
{
    let mut acc: u64 = 0;
    let mut x = i;
    while x < j
        invariant
            i <= x <= j <= buf@.len(),
            forall|z: int| i <= z < j ==> is_digit(buf@[z]),
            acc == digits_value(buf@, i as int, x as int),
        decreases j - x,
    {
        let d: u64 = (buf[x] - 0x30) as u64;
        let next = match acc.checked_mul(10) {
            Some(m) => m.checked_add(d),
            None => None,
        };
        match next {
            Some(v) => {
                acc = v;
            },
            None => {
                proof {
                    lemma_digits_value_grows(buf@, i as int, x + 1, j as int);
                }
                return None;
            },
        }
        x = x + 1;
    }
    Some(acc)
}

fn at_terminator(buf: &[u8], i: usize) -> (r: bool)
    requires
        i <= buf@.len(),
    ensures
        r == is_terminator(buf@, i as int),
{
    i >= buf.len() || byte_is_whitespace(buf[i]) || byte_is_operator(buf[i])
}

/// The parts of a literal, as offsets.
pub struct Parts {
    pub int_start: usize,
    pub int_end: usize,
    pub frac_start: usize,
    pub frac_end: usize,
    pub exp_negative: bool,
    pub exp_start: usize,
    pub exp_end: usize,
}

impl View for Parts {
    type V = Shape;

    open spec fn view(&self) -> Shape {
        Shape {
            int_start: self.int_start as int,
            int_end: self.int_end as int,
            frac_start: self.frac_start as int,
            frac_end: self.frac_end as int,
            exp_negative: self.exp_negative,
            exp_start: self.exp_start as int,
            exp_end: self.exp_end as int,
        }
    }
}

/// The parts of the literal at `k`, if the literal follows the
/// grammar.
fn scan_number(buf: &[u8], k: usize, negative: bool) -> (r: Option<Parts>)
    requires
        k < buf@.len(),
    ensures
        match number_shape(buf@, k as int, negative) {
            Some(s) => {
                &&& r matches Some(p)
                &&& p@ == s
                &&& k <= p.int_start < p.int_end <= p.frac_start <= p.frac_end <= p.exp_start
                    <= p.exp_end <= buf@.len()
                &&& forall|x: int| p.int_start <= x < p.int_end ==> is_digit(buf@[x])
                &&& forall|x: int| p.frac_start <= x < p.frac_end ==> is_digit(buf@[x])
                &&& forall|x: int| p.exp_start <= x < p.exp_end ==> is_digit(buf@[x])
            },
            None => r is None,
        },
{
    let n = buf.len();
    let i0 = if negative { k + 1 } else { k };
    if i0 >= n || !byte_is_digit(buf[i0]) {
        return None;
    }
    proof {
        lemma_digits_end(buf@, i0 as int);
    }
    let i1 = if buf[i0] == 0x30 { i0 + 1 } else { scan_digits(buf, i0) };
    let (f0, f1) = if i1 < n && buf[i1] == 0x2e {
        if n - i1 > 1 && byte_is_digit(buf[i1 + 1]) {
            proof {
                lemma_digits_end(buf@, i1 + 1);
            }
            (i1 + 1, scan_digits(buf, i1 + 1))
        } else {
            return None;
        }
    } else {
        (i1, i1)
    };
    let (exp_negative, e0, e1) = if f1 < n && (buf[f1] == 0x65 || buf[f1] == 0x45) {
        let signed = n - f1 > 1 && (buf[f1 + 1] == 0x2b || buf[f1 + 1] == 0x2d);
        let j = if signed { f1 + 2 } else { f1 + 1 };
        if j < n && byte_is_digit(buf[j]) {
            proof {
                lemma_digits_end(buf@, j as int);
            }
            (signed && buf[f1 + 1] == 0x2d, j, scan_digits(buf, j))
        } else {
            return None;
        }
    } else {
        (false, f1, f1)
    };
    if at_terminator(buf, e1) {
        Some(
            Parts {
                int_start: i0,
                int_end: i1,
                frac_start: f0,
                frac_end: f1,
                exp_negative,
                exp_start: e0,
                exp_end: e1,
            },
        )
    } else {
        None
    }
}

/// Parses the number whose first byte stands at `k`. `negative` says
/// that this byte is a minus sign.
pub fn parse_number(buf: &[u8], k: usize, negative: bool) -> (r: Result<Number, ErrorType>)
    requires
        k < buf@.len(),
    ensures
        match number_at(buf@, k as int, negative) {
            Ok(n) => r matches Ok(x) && x@ == n,
            Err(e) => r == Err::<Number, ErrorType>(e),
        },
{
    let p = match scan_number(buf, k, negative) {
        Some(p) => p,
        None => {
            return Err(ErrorType::InvalidNumber);
        },
    };
    if p.exp_end == p.int_end {
        match accumulate(buf, p.int_start, p.int_end) {
            Some(v) => {
                if !negative && v <= 0x7fff_ffff_ffff_ffff {
                    return Ok(Number::I64(v as i64));
                }
                if negative && v < 0x8000_0000_0000_0000 {
                    return Ok(Number::I64(-(v as i64)));
                }
                if negative && v == 0x8000_0000_0000_0000 {
                    return Ok(Number::I64(i64::MIN));
                }
            },
            None => {},
        }
    }
    if exceeds_double_range(
        buf,
        p.int_start,
        p.int_end,
        p.frac_start,
        p.frac_end,
        p.exp_negative,
        p.exp_start,
        p.exp_end,
    ) {
        return Err(ErrorType::NumberOverflow);
    }
    Ok(Number::F64(Float { literal: slice_to_vec(slice_subrange(buf, k, p.exp_end)) }))
}

} // verus!
