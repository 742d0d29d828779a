//! Stage 1: the structural index. What a structural offset is, is said
//! by a tokenizer that reads the input byte by byte; the scanner
//! computes the same offsets from per-block bitmasks.

use vstd::prelude::*;
use vstd::std_specs::bits::axiom_u64_trailing_zeros;
use vstd::utf8::valid_utf8;
use crate::charutils::{
    byte_classes, is_operator, is_whitespace, OPERATOR_CLASSES, WHITESPACE_CLASSES,
};
use crate::error::ErrorType;
use crate::neon::intrinsics::trailingzeroes;
use crate::stringparse::{str_from_utf8, BACKSLASH, QUOTE};

verus! {

/// What a byte-by-byte tokenizer knows before it reads the next byte.
pub struct ScanState {
    /// The next byte is escaped by a backslash.
    pub escaped: bool,
    /// An opening quote was read and its closing quote was not.
    pub in_string: bool,
    /// The last byte was whitespace, an operator or a closing quote, or
    /// there was none: a scalar may start here.
    pub boundary: bool,
}

pub open spec fn start_state() -> ScanState {
    ScanState { escaped: false, in_string: false, boundary: true }
}

/// A quote that no backslash escapes opens or closes a string.
pub open spec fn is_real_quote(s: ScanState, c: u8) -> bool {
    c == QUOTE && !s.escaped
}

/// The byte `c`, read in state `s`, lies inside a quoted region: after
/// the opening quote and before the closing one.
pub open spec fn is_interior(s: ScanState, c: u8) -> bool {
    s.in_string && !is_real_quote(s, c)
}

/// The state after `c` was read in state `s`.
pub open spec fn step(s: ScanState, c: u8) -> ScanState {
    let quote = is_real_quote(s, c);
    let inside = s.in_string != quote;
    ScanState {
        escaped: c == BACKSLASH && !s.escaped,
        in_string: inside,
        boundary: !inside && (is_whitespace(c) || is_operator(c) || quote),
    }
}

/// The byte `c`, read in state `s`, starts a token: it is an opening
/// quote, an operator outside a string, or the first byte of a scalar.
pub open spec fn starts_token(s: ScanState, c: u8) -> bool {
    let quote = is_real_quote(s, c);
    let inside = s.in_string != quote;
    ||| quote && inside
    ||| is_operator(c) && !inside
    ||| !inside && !quote && !is_whitespace(c) && s.boundary
}

/// The tokenizer's state before it reads byte `i`.
pub open spec fn state_at(b: Seq<u8>, i: int) -> ScanState
    decreases i,
{
    if i <= 0 {
        start_state()
    } else {
        step(state_at(b, i - 1), b[i - 1])
    }
}

/// Byte `i` starts a token.
pub open spec fn is_structural(b: Seq<u8>, i: int) -> bool {
    0 <= i < b.len() && starts_token(state_at(b, i), b[i])
}

/// Byte `i` lies inside a quoted region.
pub open spec fn in_string(b: Seq<u8>, i: int) -> bool {
    0 <= i < b.len() && is_interior(state_at(b, i), b[i])
}

/// The structural offsets below `n`, in ascending order.
pub open spec fn structurals_upto(b: Seq<u8>, n: int) -> Seq<u32>
    decreases n,
{
    if n <= 0 {
        Seq::empty()
    } else if is_structural(b, n - 1) {
        structurals_upto(b, n - 1).push((n - 1) as u32)
    } else {
        structurals_upto(b, n - 1)
    }
}

/// The structural index sequence of `b`.
pub open spec fn structurals(b: Seq<u8>) -> Seq<u32> {
    structurals_upto(b, b.len() as int)
}

/// A sequence of offsets below `n` that strictly ascends.
pub open spec fn is_index(t: Seq<u32>, n: int) -> bool {
    &&& forall|p: int| 0 <= p < t.len() ==> (#[trigger] t[p]) < n
    &&& forall|p: int, q: int| 0 <= p < q < t.len() ==> (#[trigger] t[p]) < (#[trigger] t[q])
}

pub proof fn lemma_structurals_upto(b: Seq<u8>, n: int)
    requires
        0 <= n <= b.len() <= u32::MAX,
    ensures
        is_index(structurals_upto(b, n), n),
        structurals_upto(b, n).len() <= n,
        forall|p: int|
            0 <= p < structurals_upto(b, n).len() ==> is_structural(
                b,
                (#[trigger] structurals_upto(b, n)[p]) as int,
            ),
        forall|i: int|
            0 <= i < n && is_structural(b, i) ==> structurals_upto(b, n).contains(i as u32),
    decreases n,
{
    if n > 0 {
        lemma_structurals_upto(b, n - 1);
        let prev = structurals_upto(b, n - 1);
        let cur = structurals_upto(b, n);
        if is_structural(b, n - 1) {
            assert(cur[cur.len() - 1] == (n - 1) as u32);
            assert forall|i: int| 0 <= i < n && is_structural(b, i) implies cur.contains(
                i as u32,
            ) by {
                if i < n - 1 {
                    let p = choose|p: int| 0 <= p < prev.len() && prev[p] == i as u32;
                    assert(cur[p] == i as u32);
                } else {
                    assert(cur[cur.len() - 1] == i as u32);
                }
            }
        }
    }
}

/// The structural index sequence ascends strictly, stays inside the
/// input, and holds exactly the offsets at which a token starts.
pub proof fn lemma_structurals(b: Seq<u8>)
    requires
        b.len() <= u32::MAX,
    ensures
        is_index(structurals(b), b.len() as int),
        structurals(b).len() <= b.len(),
        forall|p: int|
            0 <= p < structurals(b).len() ==> is_structural(b, (#[trigger] structurals(b)[p]) as int),
        forall|i: int| 0 <= i < b.len() && is_structural(b, i) ==> structurals(b).contains(i as u32),
{
    lemma_structurals_upto(b, b.len() as int);
}

/// No structural offset points at whitespace or into a quoted region.
pub proof fn lemma_structural_offsets(b: Seq<u8>, p: int)
    requires
        b.len() <= u32::MAX,
        0 <= p < structurals(b).len(),
    ensures
        structurals(b)[p] < b.len(),
        !is_whitespace(b[structurals(b)[p] as int]),
        !in_string(b, structurals(b)[p] as int),
{
    lemma_structurals(b);
    assert(is_structural(b, structurals(b)[p] as int));
}


/// The number of bytes that one round of the scanner takes: one bit of
/// each mask stands for one byte of the block, lowest bit first.
pub const BLOCK: usize = 64;

pub const ODD_BITS: u64 = 0xAAAA_AAAA_AAAA_AAAA;

/// Bit `i` of `x`.
pub open spec fn bit(x: u64, i: u64) -> bool {
    (x >> i) & 1 == 1
}

/// The bytes that a backslash escapes, from the backslash bits of a
/// block; `carry` says that the first byte is escaped from the block
/// before. A backslash escapes the byte after it unless it is escaped
/// itself, so of a run of backslashes every other one escapes.
pub open spec fn escaped_mask(backslash: u64, carry: u64) -> u64 {
    let potential = backslash & !carry;
    let maybe_escaped = potential << 1;
    let even_series = (maybe_escaped | ODD_BITS).wrapping_sub(potential);
    (even_series ^ ODD_BITS) ^ (backslash | carry)
}

/// Bit `i` is the exclusive-or of the bits `0..=i` of `x`.
pub open spec fn prefix_xor(x: u64) -> u64 {
    let x1 = x ^ (x << 1);
    let x2 = x1 ^ (x1 << 2);
    let x3 = x2 ^ (x2 << 4);
    let x4 = x3 ^ (x3 << 8);
    let x5 = x4 ^ (x4 << 16);
    x5 ^ (x5 << 32)
}

/// The bytes after which the tokenizer is inside a string, from the
/// bits of the quotes that open or close one; `carry` says that the
/// block starts inside a string.
pub open spec fn string_mask(quotes: u64, carry: u64) -> u64 {
    prefix_xor(quotes) ^ (if carry == 1 { 0xFFFF_FFFF_FFFF_FFFFu64 } else { 0 })
}

/// The bit masks of a block, one bit per byte.
pub struct BlockBits {
    pub backslash: u64,
    pub quote: u64,
    pub whitespace: u64,
    pub op: u64,
}

/// What the scanner carries from one block to the next: one bit each.
pub struct Carry {
    pub escaped: u64,
    pub in_string: u64,
    pub boundary: u64,
}

pub open spec fn carry_of(s: ScanState) -> Carry {
    Carry {
        escaped: if s.escaped { 1 } else { 0 },
        in_string: if s.in_string { 1 } else { 0 },
        boundary: if s.boundary { 1 } else { 0 },
    }
}

pub open spec fn real_quotes(m: BlockBits, c: Carry) -> u64 {
    m.quote & !escaped_mask(m.backslash, c.escaped)
}

pub open spec fn inside_after(m: BlockBits, c: Carry) -> u64 {
    string_mask(real_quotes(m, c), c.in_string)
}

pub open spec fn boundary_after(m: BlockBits, c: Carry) -> u64 {
    (m.whitespace | m.op | real_quotes(m, c)) & !inside_after(m, c)
}

/// The bytes of the block that lie inside a quoted region: after an
/// opening quote and before the closing one, without the quotes.
pub open spec fn in_string_mask(m: BlockBits, c: Carry) -> u64 {
    inside_after(m, c) & !real_quotes(m, c)
}

/// The bytes of the block that start a token.
pub open spec fn token_mask(m: BlockBits, c: Carry) -> u64 {
    let q = real_quotes(m, c);
    let p = inside_after(m, c);
    let follows = (boundary_after(m, c) << 1) | c.boundary;
    (q & p) | (m.op & !p) | (!p & !q & !m.whitespace & follows)
}

/// What is carried out of the block.
pub open spec fn carry_out(m: BlockBits, c: Carry) -> Carry {
    Carry {
        escaped: ((m.backslash & !escaped_mask(m.backslash, c.escaped)) >> 63) & 1,
        in_string: (inside_after(m, c) >> 63) & 1,
        boundary: (boundary_after(m, c) >> 63) & 1,
    }
}

pub open spec fn is_bit(c: u64) -> bool {
    c == 0 || c == 1
}

/// The state that the masks ascribe to byte `i` of the block.
pub open spec fn state_in_block(m: BlockBits, c: Carry, i: u64) -> ScanState {
    ScanState {
        escaped: bit(escaped_mask(m.backslash, c.escaped), i),
        in_string: bit((inside_after(m, c) << 1) | c.in_string, i),
        boundary: bit((boundary_after(m, c) << 1) | c.boundary, i),
    }
}

proof fn lemma_escaped_fixpoint(bs: u64, ce: u64)
    by (bit_vector)
    requires
        ce == 0 || ce == 1,
    ensures
        escaped_mask(bs, ce) == ((bs & !escaped_mask(bs, ce)) << 1) | ce,
{
}

proof fn lemma_prefix_xor_fixpoint(q: u64)
    by (bit_vector)
    ensures
        prefix_xor(q) == q ^ (prefix_xor(q) << 1),
{
}

proof fn lemma_carry_in_string(x: u64, q: u64, cs: u64)
    by (bit_vector)
    requires
        cs == 0 || cs == 1,
        x == q ^ (x << 1),
    ensures
        ({
            let p = x ^ (if cs == 1 { 0xFFFF_FFFF_FFFF_FFFFu64 } else { 0 });
            p == q ^ ((p << 1) | cs)
        }),
{
}

proof fn lemma_string_fixpoint(q: u64, cs: u64)
    requires
        cs == 0 || cs == 1,
    ensures
        string_mask(q, cs) == q ^ ((string_mask(q, cs) << 1) | cs),
{
    lemma_prefix_xor_fixpoint(q);
    lemma_carry_in_string(prefix_xor(q), q, cs);
}

proof fn lemma_bit_ops(x: u64, y: u64, i: u64)
    by (bit_vector)
    requires
        i < 64,
    ensures
        bit(x & y, i) == (bit(x, i) && bit(y, i)),
        bit(x | y, i) == (bit(x, i) || bit(y, i)),
        bit(x ^ y, i) == (bit(x, i) != bit(y, i)),
        bit(!x, i) == !bit(x, i),
{
}

proof fn lemma_bit_shift(x: u64, c: u64, i: u64)
    by (bit_vector)
    requires
        i < 64,
        c == 0 || c == 1,
    ensures
        bit((x << 1) | c, 0) == (c == 1),
        i < 63 ==> bit((x << 1) | c, (i + 1) as u64) == bit(x, i),
        ((x >> 63) & 1 == 1) == bit(x, 63),
        (x >> 63) & 1 == 0 || (x >> 63) & 1 == 1,
{
}

/// The masks follow the tokenizer bit by bit: each bit of a mask is
/// what one step of the tokenizer makes of the bit before it.
proof fn lemma_mask_step(m: BlockBits, c: Carry, i: u64)
    requires
        i < 64,
        is_bit(c.escaped),
        is_bit(c.in_string),
        is_bit(c.boundary),
    ensures
        ({
            let e = escaped_mask(m.backslash, c.escaped);
            let q = real_quotes(m, c);
            let p = inside_after(m, c);
            let pp = (p << 1) | c.in_string;
            let b = boundary_after(m, c);
            let bb = (b << 1) | c.boundary;
            let t = token_mask(m, c);
            &&& bit(e, 0) == (c.escaped == 1)
            &&& bit(pp, 0) == (c.in_string == 1)
            &&& bit(bb, 0) == (c.boundary == 1)
            &&& bit(q, i) == (bit(m.quote, i) && !bit(e, i))
            &&& bit(p, i) == (bit(pp, i) != bit(q, i))
            &&& bit(b, i) == (!bit(p, i) && (bit(m.whitespace, i) || bit(m.op, i) || bit(q, i)))
            &&& bit(t, i) == ((bit(q, i) && bit(p, i)) || (bit(m.op, i) && !bit(p, i)) || (!bit(
                p,
                i,
            ) && !bit(q, i) && !bit(m.whitespace, i) && bit(bb, i)))
            &&& i < 63 ==> bit(e, (i + 1) as u64) == (bit(m.backslash, i) && !bit(e, i))
            &&& i < 63 ==> bit(pp, (i + 1) as u64) == bit(p, i)
            &&& i < 63 ==> bit(bb, (i + 1) as u64) == bit(b, i)
            &&& i == 63 ==> (carry_out(m, c).escaped == 1) == (bit(m.backslash, i) && !bit(e, i))
            &&& i == 63 ==> (carry_out(m, c).in_string == 1) == bit(p, i)
            &&& i == 63 ==> (carry_out(m, c).boundary == 1) == bit(b, i)
            &&& is_bit(carry_out(m, c).escaped)
            &&& is_bit(carry_out(m, c).in_string)
            &&& is_bit(carry_out(m, c).boundary)
        }),
{
    let e = escaped_mask(m.backslash, c.escaped);
    let q = real_quotes(m, c);
    let p = inside_after(m, c);
    let pp = (p << 1) | c.in_string;
    let b = boundary_after(m, c);
    let bb = (b << 1) | c.boundary;
    let t = token_mask(m, c);
    let esc = m.backslash & !e;
    lemma_escaped_fixpoint(m.backslash, c.escaped);
    lemma_string_fixpoint(q, c.in_string);
    assert(e == (esc << 1) | c.escaped);
    assert(p == q ^ pp);
    // the shifted masks
    lemma_bit_shift(esc, c.escaped, i);
    lemma_bit_shift(p, c.in_string, i);
    lemma_bit_shift(b, c.boundary, i);
    // e, q
    lemma_bit_ops(m.backslash, !e, i);
    lemma_bit_ops(e, e, i);
    lemma_bit_ops(m.quote, !e, i);
    // p
    lemma_bit_ops(q, pp, i);
    // b
    lemma_bit_ops(m.whitespace, m.op, i);
    lemma_bit_ops(m.whitespace | m.op, q, i);
    lemma_bit_ops(p, p, i);
    lemma_bit_ops(m.whitespace | m.op | q, !p, i);
    // t
    lemma_bit_ops(q, p, i);
    lemma_bit_ops(m.op, !p, i);
    lemma_bit_ops(q, q, i);
    lemma_bit_ops(m.whitespace, m.whitespace, i);
    lemma_bit_ops(!p, !q, i);
    lemma_bit_ops(!p & !q, !m.whitespace, i);
    lemma_bit_ops(!p & !q & !m.whitespace, bb, i);
    lemma_bit_ops(q & p, m.op & !p, i);
    lemma_bit_ops((q & p) | (m.op & !p), !p & !q & !m.whitespace & bb, i);
}

/// The bits of `m` say of the bytes of the block at `base` what class
/// each is of; what lies beyond the input counts as whitespace.
pub open spec fn classifies(m: BlockBits, b: Seq<u8>, base: int) -> bool {
    forall|i: u64|
        #![trigger bit(m.backslash, i)]
        #![trigger bit(m.quote, i)]
        #![trigger bit(m.whitespace, i)]
        #![trigger bit(m.op, i)]
        i < 64 ==> if base + i < b.len() {
            &&& bit(m.backslash, i) == (b[base + i] == BACKSLASH)
            &&& bit(m.quote, i) == (b[base + i] == QUOTE)
            &&& bit(m.whitespace, i) == is_whitespace(b[base + i])
            &&& bit(m.op, i) == is_operator(b[base + i])
        } else {
            !bit(m.backslash, i) && !bit(m.quote, i) && bit(m.whitespace, i) && !bit(m.op, i)
        }
}

/// Inside the input the masks ascribe to each byte of the block the
/// state that the tokenizer is in before it: they mark the bytes that
/// start a token and the bytes that lie inside a quoted region, and
/// carry the state on to the next block.
pub proof fn lemma_block_states(m: BlockBits, c: Carry, b: Seq<u8>, base: int, i: int)
    requires
        0 <= base,
        0 <= i < 64,
        base + i <= b.len(),
        classifies(m, b, base),
        c == carry_of(state_at(b, base)),
    ensures
        state_at(b, base + i) == state_in_block(m, c, i as u64),
        bit(token_mask(m, c), i as u64) == is_structural(b, base + i),
        base + i < b.len() ==> bit(in_string_mask(m, c), i as u64) == in_string(b, base + i),
        i == 63 && base + 64 <= b.len() ==> carry_out(m, c) == carry_of(state_at(b, base + 64)),
    decreases i,
{
    lemma_bit_ops(inside_after(m, c), !real_quotes(m, c), i as u64);
    lemma_bit_ops(real_quotes(m, c), real_quotes(m, c), i as u64);
    lemma_mask_step(m, c, i as u64);
    if i > 0 {
        lemma_block_states(m, c, b, base, i - 1);
        lemma_mask_step(m, c, (i - 1) as u64);
        assert(bit(m.backslash, (i - 1) as u64) == (b[base + i - 1] == BACKSLASH));
        assert(bit(m.quote, (i - 1) as u64) == (b[base + i - 1] == QUOTE));
        assert(bit(m.whitespace, (i - 1) as u64) == is_whitespace(b[base + i - 1]));
        assert(bit(m.op, (i - 1) as u64) == is_operator(b[base + i - 1]));
    }
    assert(state_at(b, base + i) == state_in_block(m, c, i as u64));
    if base + i < b.len() {
        assert(bit(m.backslash, i as u64) == (b[base + i] == BACKSLASH));
        assert(bit(m.quote, i as u64) == (b[base + i] == QUOTE));
        assert(bit(m.whitespace, i as u64) == is_whitespace(b[base + i]));
        assert(bit(m.op, i as u64) == is_operator(b[base + i]));
    } else {
        assert(!bit(m.quote, i as u64) && bit(m.whitespace, i as u64) && !bit(m.op, i as u64));
    }
}

/// Beyond the input the masks mark nothing.
pub proof fn lemma_block_padding(m: BlockBits, c: Carry, b: Seq<u8>, base: int, i: int)
    requires
        0 <= base,
        0 <= i < 64,
        base + i >= b.len(),
        classifies(m, b, base),
        is_bit(c.escaped),
        is_bit(c.in_string),
        is_bit(c.boundary),
    ensures
        !bit(token_mask(m, c), i as u64),
{
    lemma_mask_step(m, c, i as u64);
    assert(!bit(m.quote, i as u64) && bit(m.whitespace, i as u64) && !bit(m.op, i as u64));
}

/// Where no token starts, the index does not grow.
pub proof fn lemma_structurals_gap(b: Seq<u8>, m: int, n: int)
    requires
        0 <= m <= n,
        forall|i: int| m <= i < n ==> !is_structural(b, i),
    ensures
        structurals_upto(b, n) == structurals_upto(b, m),
    decreases n - m,
{
    if m < n {
        lemma_structurals_gap(b, m, n - 1);
    }
}

proof fn lemma_set_bit(m: u64, i: u64)
    by (bit_vector)
    requires
        i < 64,
    ensures
        forall|j: u64| j < 64 ==> bit(m | (1u64 << i), j) == (bit(m, j) || j == i),
{
}

proof fn lemma_clear_lowest(x: u64, z: u64)
    by (bit_vector)
    requires
        z < 64,
        (x >> z) & 1 == 1,
        x << ((64 - z) as u64) == 0,
    ensures
        x != 0,
        forall|j: u64| j < z ==> !bit(x, j),
        forall|j: u64| j < 64 ==> bit(x & ((x - 1) as u64), j) == (bit(x, j) && j != z),
{
}

proof fn lemma_zero_has_no_bit(j: u64)
    by (bit_vector)
    requires
        j < 64,
    ensures
        !bit(0, j),
{
}

/// `mask` says of the bytes below `upto` of the block whether `hit`
/// holds of them, and has no bit at or above `upto`.
spec fn marks(mask: u64, upto: u64, hit: spec_fn(u64) -> bool) -> bool {
    forall|j: u64| j < 64 ==> #[trigger] bit(mask, j) == (j < upto && hit(j))
}

proof fn lemma_mark(mask: u64, i: u64, taken: bool, hit: spec_fn(u64) -> bool)
    requires
        i < 64,
        marks(mask, i, hit),
        taken == hit(i),
    ensures
        marks(if taken { mask | (1u64 << i) } else { mask }, (i + 1) as u64, hit),
{
    lemma_set_bit(mask, i);
    let after = if taken { mask | (1u64 << i) } else { mask };
    assert forall|j: u64| j < 64 implies #[trigger] bit(after, j) == (j < (i + 1) as u64 && hit(
        j,
    )) by {
        assert(bit(mask, j) == (j < i && hit(j)));
        assert(bit(mask | (1u64 << i), j) == (bit(mask, j) || j == i));
    }
}

/// The class masks of the block at `base`.
fn classify_block(input: &[u8], base: usize) -> (m: BlockBits)
    requires
        base < input@.len(),
    ensures
        classifies(m, input@, base as int),
{
    let n = input.len();
    let mut backslash: u64 = 0;
    let mut quote: u64 = 0;
    let mut whitespace: u64 = 0;
    let mut op: u64 = 0;
    let mut i: u64 = 0;
    let ghost b = input@;
    let ghost is_backslash = |j: u64| base + j < b.len() && b[base + j] == BACKSLASH;
    let ghost is_quote = |j: u64| base + j < b.len() && b[base + j] == QUOTE;
    let ghost is_space = |j: u64| base + j >= b.len() || is_whitespace(b[base + j]);
    let ghost is_op = |j: u64| base + j < b.len() && is_operator(b[base + j]);
    proof {
        assert forall|j: u64| j < 64 implies !bit(0, j) by {
            lemma_zero_has_no_bit(j);
        }
    }
    while i < 64
        invariant
            i <= 64,
            n == b.len(),
            b == input@,
            base < n,
            is_backslash == (|j: u64| base + j < b.len() && b[base + j] == BACKSLASH),
            is_quote == (|j: u64| base + j < b.len() && b[base + j] == QUOTE),
            is_space == (|j: u64| base + j >= b.len() || is_whitespace(b[base + j])),
            is_op == (|j: u64| base + j < b.len() && is_operator(b[base + j])),
            marks(backslash, i, is_backslash),
            marks(quote, i, is_quote),
            marks(whitespace, i, is_space),
            marks(op, i, is_op),
        decreases 64 - i,
    {
        let one: u64 = 1u64 << i;
        let inside = (i as usize) < n - base;
        let c: u8 = if inside { input[base + i as usize] } else { 0x20 };
        let hit_backslash = inside && c == BACKSLASH;
        let hit_quote = inside && c == QUOTE;
        let classes = byte_classes(c);
        let hit_space = classes & WHITESPACE_CLASSES != 0;
        let hit_op = inside && classes & OPERATOR_CLASSES != 0;
        proof {
            lemma_mark(backslash, i, hit_backslash, is_backslash);
            lemma_mark(quote, i, hit_quote, is_quote);
            lemma_mark(whitespace, i, hit_space, is_space);
            lemma_mark(op, i, hit_op, is_op);
        }
        backslash = if hit_backslash { backslash | one } else { backslash };
        quote = if hit_quote { quote | one } else { quote };
        whitespace = if hit_space { whitespace | one } else { whitespace };
        op = if hit_op { op | one } else { op };
        i = i + 1;
    }
    let m = BlockBits { backslash, quote, whitespace, op };
    assert(classifies(m, input@, base as int)) by {
        assert forall|j: u64|
            #![trigger bit(m.backslash, j)]
            #![trigger bit(m.quote, j)]
            #![trigger bit(m.whitespace, j)]
            #![trigger bit(m.op, j)]
            j < 64 implies if base + j < b.len() {
            &&& bit(m.backslash, j) == (b[base + j] == BACKSLASH)
            &&& bit(m.quote, j) == (b[base + j] == QUOTE)
            &&& bit(m.whitespace, j) == is_whitespace(b[base + j])
            &&& bit(m.op, j) == is_operator(b[base + j])
        } else {
            !bit(m.backslash, j) && !bit(m.quote, j) && bit(m.whitespace, j) && !bit(m.op, j)
        } by {
            assert(bit(backslash, j) == (j < 64 && is_backslash(j)));
            assert(bit(quote, j) == (j < 64 && is_quote(j)));
            assert(bit(whitespace, j) == (j < 64 && is_space(j)));
            assert(bit(op, j) == (j < 64 && is_op(j)));
        }
    }
    m
}

/// The exclusive-or of the bits at and below each bit, by a ladder of
/// doubling shifts.
fn compute_prefix_xor(x: u64) -> (r: u64)
    ensures
        r == prefix_xor(x),
{
    let x1 = x ^ (x << 1);
    let x2 = x1 ^ (x1 << 2);
    let x3 = x2 ^ (x2 << 4);
    let x4 = x3 ^ (x3 << 8);
    let x5 = x4 ^ (x4 << 16);
    x5 ^ (x5 << 32)
}

/// The token mask of a block and what it carries on.
fn scan_masks(m: &BlockBits, c: &Carry) -> (r: (u64, Carry))
    requires
        is_bit(c.escaped),
        is_bit(c.in_string),
        is_bit(c.boundary),
    ensures
        r.0 == token_mask(*m, *c),
        r.1 == carry_out(*m, *c),
{
    let potential = m.backslash & !c.escaped;
    let maybe_escaped = potential << 1;
    let even_series = (maybe_escaped | ODD_BITS).wrapping_sub(potential);
    let escaped = (even_series ^ ODD_BITS) ^ (m.backslash | c.escaped);
    let q = m.quote & !escaped;
    let p = compute_prefix_xor(q) ^ (if c.in_string == 1 { 0xFFFF_FFFF_FFFF_FFFFu64 } else { 0 });
    let b = (m.whitespace | m.op | q) & !p;
    let follows = (b << 1) | c.boundary;
    let tokens = (q & p) | (m.op & !p) | (!p & !q & !m.whitespace & follows);
    let out = Carry {
        escaped: ((m.backslash & !escaped) >> 63) & 1,
        in_string: (p >> 63) & 1,
        boundary: (b >> 63) & 1,
    };
    (tokens, out)
}

/// Appends the offsets of the set bits of `tokens`, lowest first: the
/// lowest set bit is found by its trailing zeros and cleared, until
/// none is left.
fn flatten_bits(out: &mut Vec<u32>, base: usize, tokens: u64, Ghost(b): Ghost<Seq<u8>>)
    requires
        b.len() <= u32::MAX,
        base < b.len(),
        old(out)@ == structurals_upto(b, base as int),
        forall|i: u64| i < 64 ==> bit(tokens, i) == is_structural(b, base + i),
    ensures
        final(out)@ == structurals_upto(b, base + 64),
{
    let mut bits = tokens;
    let ghost mut lo: int = 0;
    while bits != 0
        invariant
            b.len() <= u32::MAX,
            base < b.len(),
            0 <= lo <= 64,
            out@ == structurals_upto(b, base + lo),
            forall|i: u64| i < 64 ==> bit(tokens, i) == is_structural(b, base + i),
            forall|i: u64| i < 64 ==> bit(bits, i) == (bit(tokens, i) && i >= lo),
        decreases 64 - lo,
    {
        let z = trailingzeroes(bits);
        proof {
            axiom_u64_trailing_zeros(bits);
            assert(z < 64);
            lemma_clear_lowest(bits, z as u64);
            assert(bit(bits, z as u64));
            assert forall|i: int| base + lo <= i < base + z implies !is_structural(b, i) by {
                let j = (i - base) as u64;
                assert(!bit(bits, j));
                assert(bit(tokens, j) == is_structural(b, base + j));
            }
            lemma_structurals_gap(b, base + lo, base + z);
            assert(is_structural(b, base + z));
        }
        out.push((base + z as usize) as u32);
        let ghost before = bits;
        bits = bits & (bits - 1);
        proof {
            assert forall|i: u64| i < 64 implies bit(bits, i) == (bit(tokens, i) && i >= z + 1) by {
                assert(bit(before & ((before - 1) as u64), i) == (bit(before, i) && i != z));
                assert(bit(before, i) == (bit(tokens, i) && i >= lo));
                if i < z {
                    assert(!bit(before, i));
                }
            }
            lo = z + 1;
        }
    }
    proof {
        assert forall|i: int| base + lo <= i < base + 64 implies !is_structural(b, i) by {
            let j = (i - base) as u64;
            lemma_zero_has_no_bit(j);
            assert(bit(tokens, j) == is_structural(b, base + j));
        }
        lemma_structurals_gap(b, base + lo, base + 64);
    }
}

/// Builds the structural index of `input`: the input is checked to be
/// UTF-8 and then scanned block by block. From the class masks of a
/// block and three carry bits the mask of the bytes that start a token
/// is computed without a branch, and its set bits are appended to the
/// index as offsets.
pub fn find_structural_bits(input: &[u8]) -> (r: Result<Vec<u32>, ErrorType>)
    requires
        input@.len() <= u32::MAX,
    ensures
        valid_utf8(input@) ==> (r matches Ok(v) && v@ == structurals(input@)),
        !valid_utf8(input@) ==> r == Err::<Vec<u32>, ErrorType>(ErrorType::InvalidUtf8),
{
    if str_from_utf8(input).is_none() {
        return Err(ErrorType::InvalidUtf8);
    }
    let n = input.len();
    let mut out: Vec<u32> = Vec::with_capacity(n / 6);
    let mut carry = Carry { escaped: 0, in_string: 0, boundary: 1 };
    let mut base: usize = 0;
    while base < n
        invariant
            valid_utf8(input@),
            n == input@.len() <= u32::MAX,
            base <= n,
            carry == carry_of(state_at(input@, base as int)),
            out@ == structurals_upto(input@, base as int),
        decreases n - base,
    {
        let m = classify_block(input, base);
        let (tokens, next) = scan_masks(&m, &carry);
        proof {
            assert forall|i: u64| i < 64 implies bit(tokens, i) == is_structural(
                input@,
                base + i,
            ) by {
                if base + i < n {
                    lemma_block_states(m, carry, input@, base as int, i as int);
                } else {
                    lemma_block_padding(m, carry, input@, base as int, i as int);
                }
            }
            if base + 64 <= n {
                lemma_block_states(m, carry, input@, base as int, 63);
            }
        }
        flatten_bits(&mut out, base, tokens, Ghost(input@));
        if n - base < BLOCK {
            proof {
                lemma_structurals_gap(input@, n as int, base + 64);
            }
            return Ok(out);
        }
        carry = next;
        base = base + BLOCK;
    }
    Ok(out)
}

} // verus!
