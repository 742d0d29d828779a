//! Lane vectors and the operations on them that need no hardware.

use vstd::prelude::*;

verus! {

/// Sixteen packed `u8` lanes.
#[allow(non_camel_case_types)]
#[derive(Copy, Clone, Debug)]
pub struct uint8x16_t(
    pub u8, pub u8, pub u8, pub u8, pub u8, pub u8, pub u8, pub u8,
    pub u8, pub u8, pub u8, pub u8, pub u8, pub u8, pub u8, pub u8,
);

/// Sixteen packed `i8` lanes.
#[allow(non_camel_case_types)]
#[derive(Copy, Clone, Debug)]
pub struct int8x16_t(
    pub i8, pub i8, pub i8, pub i8, pub i8, pub i8, pub i8, pub i8,
    pub i8, pub i8, pub i8, pub i8, pub i8, pub i8, pub i8, pub i8,
);

/// Four packed `i32` lanes.
#[allow(non_camel_case_types)]
#[derive(Copy, Clone, Debug)]
pub struct int32x4_t(pub i32, pub i32, pub i32, pub i32);

/// Two packed `u64` lanes.
#[allow(non_camel_case_types)]
#[derive(Copy, Clone, Debug)]
pub struct uint64x2_t(pub u64, pub u64);

/// Two packed `u32` lanes.
#[allow(non_camel_case_types)]
#[derive(Copy, Clone, Debug)]
pub struct uint32x2_t(pub u32, pub u32);

impl View for uint8x16_t {
    type V = Seq<u8>;

    /// The lanes, lowest first.
    open spec fn view(&self) -> Seq<u8> {
        seq![
            self.0, self.1, self.2, self.3, self.4, self.5, self.6, self.7,
            self.8, self.9, self.10, self.11, self.12, self.13, self.14, self.15,
        ]
    }
}

impl View for int8x16_t {
    type V = Seq<i8>;

    /// The lanes, lowest first.
    open spec fn view(&self) -> Seq<i8> {
        seq![
            self.0, self.1, self.2, self.3, self.4, self.5, self.6, self.7,
            self.8, self.9, self.10, self.11, self.12, self.13, self.14, self.15,
        ]
    }
}

impl View for int32x4_t {
    type V = Seq<i32>;

    /// The lanes, lowest first.
    open spec fn view(&self) -> Seq<i32> {
        seq![self.0, self.1, self.2, self.3]
    }
}

impl View for uint64x2_t {
    type V = Seq<u64>;

    /// The lanes, lowest first.
    open spec fn view(&self) -> Seq<u64> {
        seq![self.0, self.1]
    }
}

impl View for uint32x2_t {
    type V = Seq<u32>;

    /// The lanes, lowest first.
    open spec fn view(&self) -> Seq<u32> {
        seq![self.0, self.1]
    }
}

impl uint8x16_t {
    /// The vector whose lanes are the arguments, in order.
    pub fn new(
        a: u8, b: u8, c: u8, d: u8, e: u8, f: u8, g: u8, h: u8,
        i: u8, j: u8, k: u8, l: u8, m: u8, n: u8, o: u8, p: u8,
    ) -> (r: uint8x16_t)
        ensures
            r@ == seq![a, b, c, d, e, f, g, h, i, j, k, l, m, n, o, p],
    {
        uint8x16_t(a, b, c, d, e, f, g, h, i, j, k, l, m, n, o, p)
    }
}

impl int8x16_t {
    /// The vector whose lanes are the arguments, in order.
    pub fn new(
        a: i8, b: i8, c: i8, d: i8, e: i8, f: i8, g: i8, h: i8,
        i: i8, j: i8, k: i8, l: i8, m: i8, n: i8, o: i8, p: i8,
    ) -> (r: int8x16_t)
        ensures
            r@ == seq![a, b, c, d, e, f, g, h, i, j, k, l, m, n, o, p],
    {
        int8x16_t(a, b, c, d, e, f, g, h, i, j, k, l, m, n, o, p)
    }
}

impl int32x4_t {
    /// The vector whose lanes are the arguments, in order.
    pub fn new(a: i32, b: i32, c: i32, d: i32) -> (r: int32x4_t)
        ensures
            r@ == seq![a, b, c, d],
    {
        int32x4_t(a, b, c, d)
    }
}

/// Adds with wrap-around and reports the carry out of bit 63. The sum
/// is stored only when it wrapped; otherwise `out` keeps its value.
#[inline]
pub fn add_overflow(a: u64, b: u64, out: &mut u64) -> (did_carry: bool)
    ensures
        did_carry == (a + b > u64::MAX),
        did_carry ==> *final(out) == a + b - 0x1_0000_0000_0000_0000,
        !did_carry ==> *final(out) == *old(out),
{
    match a.checked_add(b) {
        Some(_) => false,
        None => {
            *out = a.wrapping_add(b);
            true
        },
    }
}

/// Every lane holds `a`.
#[inline]
pub fn vdupq_n_s8(a: i8) -> (r: int8x16_t)
    ensures
        r@ == Seq::new(16, |i: int| a),
{
    let r = int8x16_t(a, a, a, a, a, a, a, a, a, a, a, a, a, a, a, a);
    assert(r@ =~= Seq::new(16, |i: int| a));
    r
}

/// Every lane holds zero.
#[inline]
pub fn zeroi8x16() -> (r: int8x16_t)
    ensures
        r@ == Seq::new(16, |i: int| 0i8),
{
    vdupq_n_s8(0)
}

/// Every lane holds `a`.
#[inline]
pub fn vdupq_n_u8(a: u8) -> (r: uint8x16_t)
    ensures
        r@ == Seq::new(16, |i: int| a),
{
    let r = uint8x16_t(a, a, a, a, a, a, a, a, a, a, a, a, a, a, a, a);
    assert(r@ =~= Seq::new(16, |i: int| a));
    r
}

/// Every lane holds `a`.
#[inline]
pub fn vmovq_n_u8(a: u8) -> (r: uint8x16_t)
    ensures
        r@ == Seq::new(16, |i: int| a),
{
    vdupq_n_u8(a)
}

/// Every lane holds zero.
#[inline]
pub fn zerou8x16() -> (r: uint8x16_t)
    ensures
        r@ == Seq::new(16, |i: int| 0u8),
{
    vdupq_n_u8(0)
}

/// The bitwise and of each pair of lanes.
#[inline]
pub fn vandq_u8(a: uint8x16_t, b: uint8x16_t) -> (r: uint8x16_t)
    ensures
        r@ == Seq::new(16, |i: int| a@[i] & b@[i]),
{
    let r = uint8x16_t(
        a.0 & b.0,
        a.1 & b.1,
        a.2 & b.2,
        a.3 & b.3,
        a.4 & b.4,
        a.5 & b.5,
        a.6 & b.6,
        a.7 & b.7,
        a.8 & b.8,
        a.9 & b.9,
        a.10 & b.10,
        a.11 & b.11,
        a.12 & b.12,
        a.13 & b.13,
        a.14 & b.14,
        a.15 & b.15,
    );
    assert(r@ =~= Seq::new(16, |i: int| a@[i] & b@[i]));
    r
}

/// The bitwise or of each pair of lanes.
#[inline]
pub fn vorrq_u8(a: uint8x16_t, b: uint8x16_t) -> (r: uint8x16_t)
    ensures
        r@ == Seq::new(16, |i: int| a@[i] | b@[i]),
{
    let r = uint8x16_t(
        a.0 | b.0,
        a.1 | b.1,
        a.2 | b.2,
        a.3 | b.3,
        a.4 | b.4,
        a.5 | b.5,
        a.6 | b.6,
        a.7 | b.7,
        a.8 | b.8,
        a.9 | b.9,
        a.10 | b.10,
        a.11 | b.11,
        a.12 | b.12,
        a.13 | b.13,
        a.14 | b.14,
        a.15 | b.15,
    );
    assert(r@ =~= Seq::new(16, |i: int| a@[i] | b@[i]));
    r
}

/// The bitwise and of each pair of lanes.
#[inline]
pub fn vandq_s8(a: int8x16_t, b: int8x16_t) -> (r: int8x16_t)
    ensures
        r@ == Seq::new(16, |i: int| a@[i] & b@[i]),
{
    let r = int8x16_t(
        a.0 & b.0,
        a.1 & b.1,
        a.2 & b.2,
        a.3 & b.3,
        a.4 & b.4,
        a.5 & b.5,
        a.6 & b.6,
        a.7 & b.7,
        a.8 & b.8,
        a.9 & b.9,
        a.10 & b.10,
        a.11 & b.11,
        a.12 & b.12,
        a.13 & b.13,
        a.14 & b.14,
        a.15 & b.15,
    );
    assert(r@ =~= Seq::new(16, |i: int| a@[i] & b@[i]));
    r
}

/// The bitwise or of each pair of lanes.
#[inline]
pub fn vorrq_s8(a: int8x16_t, b: int8x16_t) -> (r: int8x16_t)
    ensures
        r@ == Seq::new(16, |i: int| a@[i] | b@[i]),
{
    let r = int8x16_t(
        a.0 | b.0,
        a.1 | b.1,
        a.2 | b.2,
        a.3 | b.3,
        a.4 | b.4,
        a.5 | b.5,
        a.6 | b.6,
        a.7 | b.7,
        a.8 | b.8,
        a.9 | b.9,
        a.10 | b.10,
        a.11 | b.11,
        a.12 | b.12,
        a.13 | b.13,
        a.14 | b.14,
        a.15 | b.15,
    );
    assert(r@ =~= Seq::new(16, |i: int| a@[i] | b@[i]));
    r
}

/// The difference of each pair of lanes, with wrap-around.
#[inline]
pub fn vqsubq_u8(a: uint8x16_t, b: uint8x16_t) -> (r: uint8x16_t)
    ensures
        r@ == Seq::new(16, |i: int| a@[i].wrapping_sub(b@[i])),
{
    let r = uint8x16_t(
        a.0.wrapping_sub(b.0),
        a.1.wrapping_sub(b.1),
        a.2.wrapping_sub(b.2),
        a.3.wrapping_sub(b.3),
        a.4.wrapping_sub(b.4),
        a.5.wrapping_sub(b.5),
        a.6.wrapping_sub(b.6),
        a.7.wrapping_sub(b.7),
        a.8.wrapping_sub(b.8),
        a.9.wrapping_sub(b.9),
        a.10.wrapping_sub(b.10),
        a.11.wrapping_sub(b.11),
        a.12.wrapping_sub(b.12),
        a.13.wrapping_sub(b.13),
        a.14.wrapping_sub(b.14),
        a.15.wrapping_sub(b.15),
    );
    assert(r@ =~= Seq::new(16, |i: int| a@[i].wrapping_sub(b@[i])));
    r
}

/// Narrows each lane to its low 32 bits.
#[inline]
pub fn vqmovn_u64(a: uint64x2_t) -> (r: uint32x2_t)
    ensures
        r@ == seq![(a.0 % 0x1_0000_0000) as u32, (a.1 % 0x1_0000_0000) as u32],
{
    let lo: u64 = a.0;
    let hi: u64 = a.1;
    assert(lo as u32 == lo % 0x1_0000_0000) by (bit_vector);
    assert(hi as u32 == hi % 0x1_0000_0000) by (bit_vector);
    uint32x2_t(#[verifier::truncate] (lo as u32), #[verifier::truncate] (hi as u32))
}

/// The number of zero bits below the lowest set bit; 64 for zero.
#[inline]
pub fn trailingzeroes(a: u64) -> (r: u32)
    ensures
        r == vstd::std_specs::bits::u64_trailing_zeros(a),
{
    a.trailing_zeros()
}

/// The number of set bits among the lowest `i` bits of `a`.
pub open spec fn ones_below(a: u64, i: nat) -> nat
    decreases i,
{
    if i == 0 {
        0
    } else {
        ones_below(a, (i - 1) as nat) + if (a >> ((i - 1) as u64)) & 1 == 1 {
            1nat
        } else {
            0nat
        }
    }
}

/// The number of set bits of `a`.
#[inline]
pub fn hamming(a: u64) -> (r: u32)
    ensures
        r == ones_below(a, 64),
{
    let mut n: u32 = 0;
    let mut i: u64 = 0;
    while i < 64
        invariant
            i <= 64,
            n <= i,
            n == ones_below(a, i as nat),
        decreases 64 - i,
    {
        if (a >> i) & 1 == 1 {
            n = n + 1;
        }
        i = i + 1;
    }
    n
}

} // verus!
