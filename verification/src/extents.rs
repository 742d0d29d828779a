//! What the walk over the index passes over: the bytes that belong to
//! no token are whitespace. The text of a token is its extent: one
//! byte for an operator, the literal for a scalar, and a string up to
//! its closing quote.

use vstd::prelude::*;
use crate::charutils::{is_digit, is_operator, is_whitespace};
use crate::document::{false_literal, is_literal, limit_of, null_literal, true_literal};
use crate::numberparse::{frac_part, int_part_end, is_terminator, lemma_digits_end, number_shape};
use crate::stage1::{is_structural, lemma_structurals, state_at, step, structurals, ScanState};
use crate::stringparse::{escape_at, hex4, unescape, BACKSLASH, QUOTE};

verus! {

/// The state between tokens: outside a string, after whitespace, an
/// operator or a closing quote.
pub open spec fn is_between(s: ScanState) -> bool {
    !s.escaped && !s.in_string && s.boundary
}

/// The state inside a scalar: outside a string, after a byte of the
/// scalar.
pub open spec fn is_within_word(s: ScanState) -> bool {
    !s.escaped && !s.in_string && !s.boundary
}

/// The state inside a string, after a byte that escapes nothing.
pub open spec fn is_within_string(s: ScanState) -> bool {
    !s.escaped && s.in_string && !s.boundary
}

/// A byte that can stand inside a scalar: no whitespace, no operator,
/// no quote and no backslash.
pub open spec fn is_word_byte(c: u8) -> bool {
    !is_whitespace(c) && !is_operator(c) && c != QUOTE && c != BACKSLASH
}

/// Where a scalar may start, nothing is escaped and no string is open.
pub proof fn lemma_boundary_is_between(b: Seq<u8>, i: int)
    requires
        state_at(b, i).boundary,
    ensures
        is_between(state_at(b, i)),
    decreases i,
{
    if i > 0 {
        let s = state_at(b, i - 1);
        assert(state_at(b, i) == step(s, b[i - 1]));
    }
}

/// From between tokens up to the next token there is only whitespace.
pub proof fn lemma_whitespace_until_token(b: Seq<u8>, i: int, j: int)
    requires
        0 <= i <= j <= b.len(),
        is_between(state_at(b, i)),
        forall|x: int| i <= x < j ==> !is_structural(b, x),
    ensures
        forall|x: int| i <= x < j ==> is_whitespace(#[trigger] b[x]),
        is_between(state_at(b, j)),
    decreases j - i,
{
    if i < j {
        lemma_whitespace_until_token(b, i, j - 1);
        assert(!is_structural(b, j - 1));
        assert(state_at(b, j) == step(state_at(b, j - 1), b[j - 1]));
    }
}

/// A run of scalar bytes holds no token start but its first byte.
pub proof fn lemma_word_run(b: Seq<u8>, k: int, e: int)
    requires
        0 <= k < e <= b.len(),
        !state_at(b, k).escaped,
        !state_at(b, k).in_string,
        forall|x: int| k <= x < e ==> is_word_byte(#[trigger] b[x]),
    ensures
        forall|x: int| k < x < e ==> !is_structural(b, x),
        is_within_word(state_at(b, e)),
    decreases e - k,
{
    assert(state_at(b, e) == step(state_at(b, e - 1), b[e - 1]));
    assert(is_word_byte(b[e - 1]));
    if k < e - 1 {
        lemma_word_run(b, k, e - 1);
    }
}

/// After a scalar that ends at a terminator, the next token is the
/// terminator itself or follows after whitespace.
pub proof fn lemma_after_word(b: Seq<u8>, e: int, j: int)
    requires
        0 <= e <= j <= b.len(),
        is_within_word(state_at(b, e)),
        is_terminator(b, e),
        forall|x: int| e <= x < j ==> !is_structural(b, x),
    ensures
        forall|x: int| e <= x < j ==> is_whitespace(#[trigger] b[x]),
{
    if e < j {
        assert(!is_structural(b, e));
        assert(state_at(b, e + 1) == step(state_at(b, e), b[e]));
        assert(is_whitespace(b[e]));
        lemma_whitespace_until_token(b, e + 1, j);
    }
}

/// Where the scan of the string whose body starts at `i` stops: at the
/// closing quote, at an escape that is none, or at `limit`.
pub open spec fn unescape_end(b: Seq<u8>, i: int, limit: int) -> int
    decreases limit - i,
{
    if i < 0 || i >= limit || limit > b.len() {
        limit
    } else if b[i] == QUOTE {
        i
    } else if b[i] == BACKSLASH {
        match escape_at(b, i, limit) {
            Err(e) => i,
            Ok(decoded) => if 0 < decoded.1 <= limit - i {
                unescape_end(b, i + decoded.1, limit)
            } else {
                i
            },
        }
    } else {
        unescape_end(b, i + 1, limit)
    }
}

/// A hex digit is neither quote nor backslash.
proof fn lemma_hex4_bytes(b: Seq<u8>, j: int, limit: int)
    requires
        hex4(b, j, limit) is Some,
    ensures
        forall|x: int| j <= x < j + 4 ==> b[x] != QUOTE && b[x] != BACKSLASH,
        0 <= j,
        j + 4 <= limit <= b.len(),
{
}

/// Bytes inside a string that are neither quote nor backslash keep the
/// tokenizer inside the string, and start no token.
proof fn lemma_plain_bytes_in_string(b: Seq<u8>, i: int, j: int)
    requires
        0 <= i <= j <= b.len(),
        is_within_string(state_at(b, i)),
        forall|x: int| i <= x < j ==> b[x] != QUOTE && b[x] != BACKSLASH,
    ensures
        is_within_string(state_at(b, j)),
        forall|x: int| i <= x < j ==> !is_structural(b, x),
    decreases j - i,
{
    if i < j {
        lemma_plain_bytes_in_string(b, i, j - 1);
        assert(state_at(b, j) == step(state_at(b, j - 1), b[j - 1]));
    }
}

/// A backslash inside a string and the byte that it escapes keep the
/// tokenizer inside the string, and start no token.
proof fn lemma_escape_pair_in_string(b: Seq<u8>, i: int)
    requires
        0 <= i,
        i + 2 <= b.len(),
        is_within_string(state_at(b, i)),
        b[i] == BACKSLASH,
    ensures
        is_within_string(state_at(b, i + 2)),
        !is_structural(b, i),
        !is_structural(b, i + 1),
{
    assert(state_at(b, i + 1) == step(state_at(b, i), b[i]));
    assert(state_at(b, i + 2) == step(state_at(b, i + 1), b[i + 1]));
}

/// An escape inside a string keeps the tokenizer inside the string.
proof fn lemma_escape_in_string(b: Seq<u8>, i: int, limit: int)
    requires
        0 <= i < limit <= b.len(),
        is_within_string(state_at(b, i)),
        b[i] == BACKSLASH,
        escape_at(b, i, limit) is Ok,
    ensures
        ({
            let width = escape_at(b, i, limit)->Ok_0.1;
            &&& (width == 2 || width == 6 || width == 12)
            &&& i + width <= limit
            &&& is_within_string(state_at(b, i + width))
            &&& forall|x: int| i <= x < i + width ==> !is_structural(b, x)
        }),
{
    reveal(escape_at);
    let width = escape_at(b, i, limit)->Ok_0.1;
    lemma_escape_pair_in_string(b, i);
    if b[i + 1] == 0x75 {
        lemma_hex4_bytes(b, i + 2, limit);
        lemma_plain_bytes_in_string(b, i + 2, i + 6);
        if width == 12 {
            lemma_escape_pair_in_string(b, i + 6);
            lemma_hex4_bytes(b, i + 8, limit);
            lemma_plain_bytes_in_string(b, i + 8, i + 12);
        }
    }
}

/// The tokenizer and the string parser agree on where a string ends:
/// a string that decodes ends at a quote before the limit, holds no
/// token start, and leaves the tokenizer between tokens.
pub proof fn lemma_string_extent(b: Seq<u8>, i: int, limit: int, acc: Seq<u8>)
    requires
        0 <= i <= limit <= b.len(),
        is_within_string(state_at(b, i)),
        unescape(b, i, limit, acc) is Ok,
    ensures
        i <= unescape_end(b, i, limit) < limit,
        b[unescape_end(b, i, limit)] == QUOTE,
        forall|x: int| i <= x <= unescape_end(b, i, limit) ==> !is_structural(b, x),
        is_between(state_at(b, unescape_end(b, i, limit) + 1)),
    decreases limit - i,
{
    if b[i] == QUOTE {
        assert(state_at(b, i + 1) == step(state_at(b, i), b[i]));
    } else if b[i] == BACKSLASH {
        lemma_escape_in_string(b, i, limit);
        let decoded = escape_at(b, i, limit)->Ok_0;
        lemma_string_extent(b, i + decoded.1, limit, acc + decoded.0);
    } else {
        lemma_plain_bytes_in_string(b, i, i + 1);
        lemma_string_extent(b, i + 1, limit, acc.push(b[i]));
    }
}

/// The bytes of a number literal are scalar bytes.
pub proof fn lemma_number_bytes(b: Seq<u8>, k: int, negative: bool)
    requires
        0 <= k < b.len(),
        negative == (b[k] == 0x2d),
        number_shape(b, k, negative) is Some,
    ensures
        k < number_shape(b, k, negative)->Some_0.exp_end <= b.len(),
        forall|x: int|
            k <= x < number_shape(b, k, negative)->Some_0.exp_end ==> is_word_byte(#[trigger] b[x]),
        is_terminator(b, number_shape(b, k, negative)->Some_0.exp_end),
{
    let s = number_shape(b, k, negative)->Some_0;
    let i0 = s.int_start;
    lemma_digits_end(b, i0);
    let i1 = int_part_end(b, i0)->Some_0;
    lemma_digits_end(b, i1 + 1);
    let f = frac_part(b, i1)->Some_0;
    let j = crate::numberparse::exp_digits_start(b, f.1);
    lemma_digits_end(b, j);
    assert forall|x: int| k <= x < s.exp_end implies is_word_byte(#[trigger] b[x]) by {
        if x < i0 {
        } else if x < i1 {
            assert(is_digit(b[x]));
        } else if x < f.1 {
            if x >= f.0 {
                assert(is_digit(b[x]));
            }
        } else if x < s.exp_start {
        } else {
            assert(is_digit(b[x]));
        }
    }
}

/// Where the text of token `p` ends, if the token is well formed: an
/// operator is one byte, a scalar its literal, and a string ends after
/// its closing quote.
pub open spec fn extent_end(b: Seq<u8>, t: Seq<u32>, p: int) -> Option<int> {
    let k = t[p] as int;
    let c = b[k];
    if is_operator(c) {
        Some(k + 1)
    } else if c == QUOTE {
        if unescape(b, k + 1, limit_of(b, t, p), Seq::empty()) is Ok {
            Some(unescape_end(b, k + 1, limit_of(b, t, p)) + 1)
        } else {
            None
        }
    } else if c == 0x6e {
        if is_literal(b, k, null_literal()) {
            Some(k + 4)
        } else {
            None
        }
    } else if c == 0x74 {
        if is_literal(b, k, true_literal()) {
            Some(k + 4)
        } else {
            None
        }
    } else if c == 0x66 {
        if is_literal(b, k, false_literal()) {
            Some(k + 5)
        } else {
            None
        }
    } else if c == 0x2d || is_digit(c) {
        match number_shape(b, k, c == 0x2d) {
            Some(s) => Some(s.exp_end),
            None => None,
        }
    } else {
        None
    }
}

/// No token starts between a token and the next.
pub proof fn lemma_no_token_between(b: Seq<u8>, p: int, x: int)
    requires
        b.len() <= u32::MAX,
        0 <= p < structurals(b).len(),
        structurals(b)[p] < x < limit_of(b, structurals(b), p),
    ensures
        !is_structural(b, x),
{
    lemma_structurals(b);
    let t = structurals(b);
    if is_structural(b, x) {
        assert(t.contains(x as u32));
        let q = choose|q: int| 0 <= q < t.len() && t[q] == x as u32;
        if q <= p {
            assert(t[q] <= t[p]);
        } else if q > p + 1 {
            assert(t[p + 1] < t[q]);
        }
    }
}

/// No token starts before the first.
pub proof fn lemma_no_token_before(b: Seq<u8>, x: int)
    requires
        b.len() <= u32::MAX,
        0 <= x < b.len(),
        structurals(b).len() == 0 || x < structurals(b)[0],
    ensures
        !is_structural(b, x),
{
    lemma_structurals(b);
    let t = structurals(b);
    if is_structural(b, x) {
        assert(t.contains(x as u32));
        let q = choose|q: int| 0 <= q < t.len() && t[q] == x as u32;
        assert(t[0] <= t[q]);
    }
}

/// Before the first token there is only whitespace.
pub proof fn lemma_only_whitespace_before_tokens(b: Seq<u8>)
    requires
        b.len() <= u32::MAX,
    ensures
        forall|x: int|
            0 <= x < b.len() && (structurals(b).len() == 0 || x < structurals(b)[0])
                ==> is_whitespace(#[trigger] b[x]),
{
    lemma_structurals(b);
    let t = structurals(b);
    let first = if t.len() == 0 { b.len() as int } else { t[0] as int };
    assert forall|x: int| 0 <= x < first implies !is_structural(b, x) by {
        lemma_no_token_before(b, x);
    }
    lemma_whitespace_until_token(b, 0, first);
}

/// The walk over the index passes over nothing but whitespace: from
/// the end of a well-formed token to the next token, or to the end of
/// the input, every byte is whitespace.
pub proof fn lemma_only_whitespace_between_tokens(b: Seq<u8>, p: int)
    requires
        b.len() <= u32::MAX,
        0 <= p < structurals(b).len(),
        extent_end(b, structurals(b), p) is Some,
    ensures
        structurals(b)[p] < extent_end(b, structurals(b), p)->Some_0 <= limit_of(
            b,
            structurals(b),
            p,
        ),
        forall|x: int|
            extent_end(b, structurals(b), p)->Some_0 <= x < limit_of(b, structurals(b), p)
                ==> is_whitespace(#[trigger] b[x]),
{
    lemma_structurals(b);
    let t = structurals(b);
    let k = t[p] as int;
    let c = b[k];
    let e = extent_end(b, t, p)->Some_0;
    let limit = limit_of(b, t, p);
    let s = state_at(b, k);
    assert(is_structural(b, k));
    assert(k < limit <= b.len());
    assert forall|x: int| k < x < limit implies !is_structural(b, x) by {
        lemma_no_token_between(b, p, x);
    }
    if s.boundary {
        lemma_boundary_is_between(b, k);
    }
    assert(state_at(b, k + 1) == step(s, c));
    if is_operator(c) {
        lemma_whitespace_until_token(b, k + 1, limit);
    } else if c == QUOTE {
        lemma_string_extent(b, k + 1, limit, Seq::empty());
        lemma_whitespace_until_token(b, e, limit);
    } else {
        if c == 0x2d || is_digit(c) {
            lemma_number_bytes(b, k, c == 0x2d);
        } else if c == 0x6e {
            let lit = b.subrange(k, k + 4);
            assert(lit[0] == 0x6e && lit[1] == 0x75 && lit[2] == 0x6c && lit[3] == 0x6c);
            assert forall|x: int| k <= x < e implies is_word_byte(#[trigger] b[x]) by {
                assert(b[x] == lit[x - k]);
            }
        } else if c == 0x74 {
            let lit = b.subrange(k, k + 4);
            assert(lit[0] == 0x74 && lit[1] == 0x72 && lit[2] == 0x75 && lit[3] == 0x65);
            assert forall|x: int| k <= x < e implies is_word_byte(#[trigger] b[x]) by {
                assert(b[x] == lit[x - k]);
            }
        } else {
            let lit = b.subrange(k, k + 5);
            assert(lit[0] == 0x66 && lit[1] == 0x61 && lit[2] == 0x6c && lit[3] == 0x73 && lit[4]
                == 0x65);
            assert forall|x: int| k <= x < e implies is_word_byte(#[trigger] b[x]) by {
                assert(b[x] == lit[x - k]);
            }
        }
        lemma_word_run(b, k, e);
        if e > limit {
            assert(!is_structural(b, limit));
        }
        lemma_after_word(b, e, limit);
    }
}

/// Inside a string, after a byte that escapes nothing, no token
/// starts.
pub proof fn lemma_no_token_within_string(b: Seq<u8>, i: int)
    requires
        is_within_string(state_at(b, i)),
    ensures
        !is_structural(b, i),
{
}

/// The bytes of a string that lie before the next token are all that
/// the string parser reads: a string decodes to the same, or fails
/// the same, whether it is read up to the next token or up to the end
/// of the input.
pub proof fn lemma_unescape_limit(b: Seq<u8>, i: int, limit: int, acc: Seq<u8>)
    requires
        0 <= i <= limit <= b.len(),
        is_within_string(state_at(b, i)),
        forall|x: int| i <= x < limit ==> !is_structural(b, x),
        limit < b.len() ==> is_structural(b, limit),
    ensures
        unescape(b, i, limit, acc) == unescape(b, i, b.len() as int, acc),
        unescape_end(b, i, limit) == unescape_end(b, i, b.len() as int) || unescape(
            b,
            i,
            limit,
            acc,
        ) is Err,
    decreases limit - i,
{
    let end = b.len() as int;
    if i == limit {
        if limit < end {
            lemma_no_token_within_string(b, i);
        }
    } else if b[i] == QUOTE {
    } else if b[i] == BACKSLASH {
        lemma_escape_limit(b, i, limit);
        match escape_at(b, i, limit) {
            Err(e) => {},
            Ok(decoded) => {
                lemma_escape_in_string(b, i, limit);
                lemma_unescape_limit(b, i + decoded.1, limit, acc + decoded.0);
            },
        }
    } else {
        lemma_plain_bytes_in_string(b, i, i + 1);
        lemma_unescape_limit(b, i + 1, limit, acc.push(b[i]));
    }
}

/// If a token starts at `j` and the tokenizer is inside a string at
/// `i` before it, a quote or a backslash stands in between.
proof fn lemma_token_needs_quote(b: Seq<u8>, i: int, j: int)
    requires
        0 <= i <= j < b.len(),
        is_within_string(state_at(b, i)),
        is_structural(b, j),
    ensures
        exists|x: int| i <= x < j && (b[x] == QUOTE || b[x] == BACKSLASH),
{
    if forall|x: int| i <= x < j ==> b[x] != QUOTE && b[x] != BACKSLASH {
        lemma_plain_bytes_in_string(b, i, j);
        lemma_no_token_within_string(b, j);
    }
}

/// Four hex digits are read the same up to the next token and up to
/// the end of the input.
proof fn lemma_hex4_limit(b: Seq<u8>, j: int, limit: int)
    requires
        0 <= j <= limit <= b.len(),
        is_within_string(state_at(b, j)),
        limit < b.len() ==> is_structural(b, limit),
    ensures
        hex4(b, j, limit) == hex4(b, j, b.len() as int),
{
    if j + 4 > limit && j + 4 <= b.len() {
        lemma_token_needs_quote(b, j, limit);
    }
}

/// An escape is read the same up to the next token and up to the end
/// of the input.
proof fn lemma_escape_limit(b: Seq<u8>, i: int, limit: int)
    requires
        0 <= i < limit <= b.len(),
        is_within_string(state_at(b, i)),
        b[i] == BACKSLASH,
        forall|x: int| i <= x < limit ==> !is_structural(b, x),
        limit < b.len() ==> is_structural(b, limit),
    ensures
        escape_at(b, i, limit) == escape_at(b, i, b.len() as int),
{
    reveal(escape_at);
    let end = b.len() as int;
    if i + 1 >= limit {
        if limit < end {
            // the byte after a backslash is escaped: no token starts there
            assert(state_at(b, i + 1) == step(state_at(b, i), b[i]));
            assert(!is_structural(b, i + 1));
        }
    } else {
        lemma_escape_pair_in_string(b, i);
        if b[i + 1] == 0x75 {
            if i + 2 <= limit {
                lemma_hex4_limit(b, i + 2, limit);
            }
            match hex4(b, i + 2, end) {
                None => {},
                Some(cu) => {
                    lemma_hex4_bytes(b, i + 2, end);
                    lemma_plain_bytes_in_string(b, i + 2, i + 6);
                    if i + 6 > limit {
                        lemma_token_needs_quote(b, i + 2, limit);
                    }
                    if i + 6 == limit && limit < end {
                        lemma_no_token_within_string(b, i + 6);
                    }
                    if i + 7 < end && b[i + 6] == BACKSLASH && b[i + 7] == 0x75 {
                        lemma_escape_pair_in_string(b, i + 6);
                        if i + 7 == limit {
                            assert(state_at(b, i + 7) == step(state_at(b, i + 6), b[i + 6]));
                            assert(!is_structural(b, i + 7));
                        }
                        if i + 8 <= limit {
                            lemma_hex4_limit(b, i + 8, limit);
                        }
                    }
                },
            }
        }
    }
}

} // verus!
