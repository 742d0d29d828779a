//! Strings: the escape grammar, and the parser that decodes a string in
//! place, writing the decoded bytes over the escaped ones.

use vstd::prelude::*;
use vstd::utf8::{decode_utf8, encode_scalar, is_scalar, valid_utf8};
use crate::charutils::{byte_hex_value, hex_value};
use crate::error::ErrorType;

verus! {

broadcast use vstd::slice::group_slice_axioms;

pub const QUOTE: u8 = 0x22;

pub const BACKSLASH: u8 = 0x5c;

/// The widest window that the short-string path looks at.
pub const SHORT_WINDOW: usize = 32;

/// The value of the four hex digits at `j`, if four hex digits stand
/// there before `limit`.
pub open spec fn hex4(b: Seq<u8>, j: int, limit: int) -> Option<u32> {
    if 0 <= j && j + 4 <= limit && limit <= b.len() {
        match (hex_value(b[j]), hex_value(b[j + 1]), hex_value(b[j + 2]), hex_value(b[j + 3])) {
            (Some(h0), Some(h1), Some(h2), Some(h3)) => Some(
                (h0 * 0x1000 + h1 * 0x100 + h2 * 0x10 + h3) as u32,
            ),
            _ => None,
        }
    } else {
        None
    }
}

pub open spec fn is_high_surrogate(cu: u32) -> bool {
    0xD800 <= cu <= 0xDBFF
}

pub open spec fn is_low_surrogate(cu: u32) -> bool {
    0xDC00 <= cu <= 0xDFFF
}

/// The scalar that a surrogate pair stands for.
pub open spec fn combine_surrogates(hi: u32, lo: u32) -> u32 {
    (0x10000 + (hi - 0xD800) * 0x400 + (lo - 0xDC00)) as u32
}

/// The byte that a two-byte escape `\c` stands for, if `c` names one.
pub open spec fn simple_escape(c: u8) -> Option<u8> {
    if c == 0x22 || c == 0x5c || c == 0x2f {
        Some(c)
    } else if c == 0x62 {
        Some(0x08u8)
    } else if c == 0x66 {
        Some(0x0cu8)
    } else if c == 0x6e {
        Some(0x0au8)
    } else if c == 0x72 {
        Some(0x0du8)
    } else if c == 0x74 {
        Some(0x09u8)
    } else {
        None
    }
}

/// What the escape whose backslash stands at `i` decodes to, and how
/// many source bytes it takes (2, 6 or 12).
#[verifier::opaque]
pub open spec fn escape_at(b: Seq<u8>, i: int, limit: int) -> Result<(Seq<u8>, int), ErrorType> {
    if i + 1 >= limit {
        Err(ErrorType::UnexpectedEndOfString)
    } else if b[i + 1] == 0x75 {
        match hex4(b, i + 2, limit) {
            None => Err(ErrorType::InvalidUnicodeCodepoint),
            Some(cu) => {
                if is_high_surrogate(cu) {
                    if i + 7 < limit && b[i + 6] == BACKSLASH && b[i + 7] == 0x75 {
                        match hex4(b, i + 8, limit) {
                            Some(lo) => if is_low_surrogate(lo) {
                                Ok((encode_scalar(combine_surrogates(cu, lo)), 12))
                            } else {
                                Err(ErrorType::InvalidUnicodeCodepoint)
                            },
                            None => Err(ErrorType::InvalidUnicodeCodepoint),
                        }
                    } else {
                        Err(ErrorType::InvalidUnicodeCodepoint)
                    }
                } else if is_low_surrogate(cu) {
                    Err(ErrorType::InvalidUnicodeCodepoint)
                } else {
                    Ok((encode_scalar(cu), 6))
                }
            },
        }
    } else {
        match simple_escape(b[i + 1]) {
            Some(x) => Ok((seq![x], 2)),
            None => Err(ErrorType::InvalidEscape),
        }
    }
}

/// The decoded bytes of the string whose body starts at `i`, read up to
/// the first quote that no backslash escapes; `acc` holds what was
/// decoded before `i`. The string has to close before `limit`.
pub open spec fn unescape(b: Seq<u8>, i: int, limit: int, acc: Seq<u8>) -> Result<Seq<u8>, ErrorType>
    decreases limit - i,
{
    if i < 0 || i >= limit || limit > b.len() {
        Err(ErrorType::UnexpectedEndOfString)
    } else if b[i] == QUOTE {
        Ok(acc)
    } else if b[i] == BACKSLASH {
        match escape_at(b, i, limit) {
            Err(e) => Err(e),
            Ok(decoded) => if 0 < decoded.1 <= limit - i {
                unescape(b, i + decoded.1, limit, acc + decoded.0)
            } else {
                Err(ErrorType::InvalidEscape)
            },
        }
    } else {
        unescape(b, i + 1, limit, acc.push(b[i]))
    }
}

/// The content of the string whose opening quote stands at `start`:
/// its decoded bytes, which must be UTF-8.
pub open spec fn string_at(b: Seq<u8>, start: int, limit: int) -> Result<Seq<u8>, ErrorType> {
    match unescape(b, start + 1, limit, Seq::empty()) {
        Err(e) => Err(e),
        Ok(content) => if valid_utf8(content) {
            Ok(content)
        } else {
            Err(ErrorType::InvalidUtf8)
        },
    }
}

/// No quote and no backslash stands in `[i, j)`.
pub open spec fn plain_run(b: Seq<u8>, i: int, j: int) -> bool {
    forall|x: int| i <= x < j ==> b[x] != QUOTE && b[x] != BACKSLASH
}

/// A run without quote or backslash decodes to itself.
pub proof fn lemma_unescape_plain(b: Seq<u8>, i: int, close: int, limit: int, acc: Seq<u8>)
    requires
        0 <= i <= close < limit <= b.len(),
        plain_run(b, i, close),
        b[close] == QUOTE,
    ensures
        unescape(b, i, limit, acc) == Ok::<Seq<u8>, ErrorType>(acc + b.subrange(i, close)),
    decreases close - i,
{
    if i == close {
        assert(acc + b.subrange(i, close) =~= acc);
    } else {
        lemma_unescape_plain(b, i + 1, close, limit, acc.push(b[i]));
        assert(acc.push(b[i]) + b.subrange(i + 1, close) =~= acc + b.subrange(i, close));
    }
}

/// The first position at or after `i` that holds a quote or a
/// backslash, or `limit` if none does before it.
pub open spec fn plain_end(b: Seq<u8>, i: int, limit: int) -> int
    decreases limit - i,
{
    if i < 0 || i >= limit || limit > b.len() {
        limit
    } else if b[i] == QUOTE || b[i] == BACKSLASH {
        i
    } else {
        plain_end(b, i + 1, limit)
    }
}

/// The string that opens at `start` closes before `limit` and holds no
/// backslash.
pub open spec fn is_escape_free(b: Seq<u8>, start: int, limit: int) -> bool {
    let e = plain_end(b, start + 1, limit);
    start + 1 <= e < limit && b[e] == QUOTE
}

pub proof fn lemma_plain_end(b: Seq<u8>, i: int, limit: int)
    requires
        0 <= i <= limit <= b.len(),
    ensures
        i <= plain_end(b, i, limit) <= limit,
        plain_run(b, i, plain_end(b, i, limit)),
        plain_end(b, i, limit) < limit ==> b[plain_end(b, i, limit)] == QUOTE || b[plain_end(
            b,
            i,
            limit,
        )] == BACKSLASH,
    decreases limit - i,
{
    if i < limit && b[i] != QUOTE && b[i] != BACKSLASH {
        lemma_plain_end(b, i + 1, limit);
    }
}

/// A plain run ends at the quote that follows it.
pub proof fn lemma_plain_end_at_quote(b: Seq<u8>, i: int, close: int, limit: int)
    requires
        0 <= i <= close < limit <= b.len(),
        plain_run(b, i, close),
        b[close] == QUOTE,
    ensures
        plain_end(b, i, limit) == close,
    decreases close - i,
{
    if i < close {
        lemma_plain_end_at_quote(b, i + 1, close, limit);
    }
}

pub proof fn lemma_plain_end_local(a: Seq<u8>, b: Seq<u8>, i: int, limit: int)
    requires
        a.len() == b.len(),
        forall|j: int| i <= j < limit ==> a[j] == b[j],
    ensures
        plain_end(a, i, limit) == plain_end(b, i, limit),
    decreases limit - i,
{
    if 0 <= i < limit && limit <= a.len() && a[i] != QUOTE && a[i] != BACKSLASH {
        lemma_plain_end_local(a, b, i + 1, limit);
    }
}

/// Decoding is the identity on escape-free strings: the content of a
/// string without a backslash is the byte range between its quotes.
pub proof fn lemma_escape_free_content(b: Seq<u8>, start: int, limit: int)
    requires
        0 <= start < limit <= b.len(),
        is_escape_free(b, start, limit),
    ensures
        unescape(b, start + 1, limit, Seq::empty()) == Ok::<Seq<u8>, ErrorType>(
            b.subrange(start + 1, plain_end(b, start + 1, limit)),
        ),
{
    lemma_plain_end(b, start + 1, limit);
    let close = plain_end(b, start + 1, limit);
    lemma_unescape_plain(b, start + 1, close, limit, Seq::empty());
    assert(Seq::<u8>::empty() + b.subrange(start + 1, close) =~= b.subrange(start + 1, close));
}

/// `core::str::from_utf8`: the string slice over `bytes`, which is
/// there exactly when the bytes are UTF-8, and then holds the
/// characters that they encode.
#[verifier::external_body]
pub(crate) fn str_from_utf8(bytes: &[u8]) -> (r: Option<&str>)
    ensures
        r is Some <==> valid_utf8(bytes@),
        r matches Some(s) ==> s@ == decode_utf8(bytes@),
{
    match core::str::from_utf8(bytes) {
        Ok(s) => Some(s),
        Err(_) => None,
    }
}

/// Reads the four hex digits at `j`.
fn read_hex4(buf: &[u8], j: usize, limit: usize) -> (r: Option<u32>)
    requires
        limit <= buf@.len(),
    ensures
        r == hex4(buf@, j as int, limit as int),
{
    if j > limit || limit - j < 4 {
        return None;
    }
    let h0 = byte_hex_value(buf[j]);
    let h1 = byte_hex_value(buf[j + 1]);
    let h2 = byte_hex_value(buf[j + 2]);
    let h3 = byte_hex_value(buf[j + 3]);
    match (h0, h1, h2, h3) {
        (Some(a), Some(b), Some(c), Some(d)) => Some(a * 0x1000 + b * 0x100 + c * 0x10 + d),
        _ => None,
    }
}

proof fn lemma_encode_casts(cp: u32)
    by (bit_vector)
    ensures
        cp & 0x7F < 0x100,
        (cp >> 6) & 0x1F < 0x100,
        (cp >> 12) & 0x0F < 0x100,
        (cp >> 18) & 0x7 < 0x100,
        cp & 0x3F < 0x100,
        (cp >> 6) & 0x3F < 0x100,
        (cp >> 12) & 0x3F < 0x100,
{
}

/// Writes the UTF-8 encoding of `cp` at `dst` and returns its length.
fn write_scalar(buf: &mut [u8], dst: usize, cp: u32) -> (n: usize)
    requires
        is_scalar(cp),
        dst + 4 <= old(buf)@.len(),
    ensures
        n == encode_scalar(cp).len(),
        1 <= n <= 4,
        final(buf)@.len() == old(buf)@.len(),
        final(buf)@.subrange(dst as int, dst + n) == encode_scalar(cp),
        forall|j: int|
            0 <= j < old(buf)@.len() && !(dst <= j < dst + n) ==> final(buf)@[j] == old(buf)@[j],
{
    proof {
        lemma_encode_casts(cp);
    }
    if cp <= 0x7F {
        buf[dst] = (cp & 0x7F) as u8;
        assert(buf@.subrange(dst as int, dst + 1) =~= encode_scalar(cp));
        1
    } else if cp <= 0x7FF {
        buf[dst] = 0xC0 | ((cp >> 6) & 0x1F) as u8;
        buf[dst + 1] = 0x80 | (cp & 0x3F) as u8;
        assert(buf@.subrange(dst as int, dst + 2) =~= encode_scalar(cp));
        2
    } else if cp <= 0xFFFF {
        buf[dst] = 0xE0 | ((cp >> 12) & 0x0F) as u8;
        buf[dst + 1] = 0x80 | ((cp >> 6) & 0x3F) as u8;
        buf[dst + 2] = 0x80 | (cp & 0x3F) as u8;
        assert(buf@.subrange(dst as int, dst + 3) =~= encode_scalar(cp));
        3
    } else {
        buf[dst] = 0xF0 | ((cp >> 18) & 0x7) as u8;
        buf[dst + 1] = 0x80 | ((cp >> 12) & 0x3F) as u8;
        buf[dst + 2] = 0x80 | ((cp >> 6) & 0x3F) as u8;
        buf[dst + 3] = 0x80 | (cp & 0x3F) as u8;
        assert(buf@.subrange(dst as int, dst + 4) =~= encode_scalar(cp));
        4
    }
}

/// The scalar that the `\u` escape at `src` spells, alone or with the
/// low surrogate that follows it, and the source bytes that it takes.
fn read_unicode_escape(buf: &[u8], src: usize, limit: usize) -> (r: Result<(u32, usize), ErrorType>)
    requires
        src + 1 < limit <= buf@.len(),
        buf@[src + 1] == 0x75,
    ensures
        match escape_at(buf@, src as int, limit as int) {
            Ok((bytes, width)) => r matches Ok((cp, w)) && is_scalar(cp) && bytes == encode_scalar(cp)
                && w == width && (width == 6 && cp < 0x10000 || width == 12) && src + width <= limit,
            Err(e) => r == Err::<(u32, usize), ErrorType>(e),
        },
{
    reveal(escape_at);
    let cu = match read_hex4(buf, src + 2, limit) {
        Some(cu) => cu,
        None => {
            return Err(ErrorType::InvalidUnicodeCodepoint);
        },
    };
    if 0xD800 <= cu && cu <= 0xDBFF {
        if !(limit - src > 7 && buf[src + 6] == BACKSLASH && buf[src + 7] == 0x75) {
            return Err(ErrorType::InvalidUnicodeCodepoint);
        }
        let lo = match read_hex4(buf, src + 8, limit) {
            Some(lo) => lo,
            None => {
                return Err(ErrorType::InvalidUnicodeCodepoint);
            },
        };
        if !(0xDC00 <= lo && lo <= 0xDFFF) {
            return Err(ErrorType::InvalidUnicodeCodepoint);
        }
        Ok((0x10000 + (cu - 0xD800) * 0x400 + (lo - 0xDC00), 12))
    } else if 0xDC00 <= cu && cu <= 0xDFFF {
        Err(ErrorType::InvalidUnicodeCodepoint)
    } else {
        Ok((cu, 6))
    }
}

/// The byte that the two-byte escape `\e` stands for.
fn read_simple_escape(e: u8) -> (r: Option<u8>)
    ensures
        r == simple_escape(e),
{
    if e == 0x22 || e == 0x5c || e == 0x2f {
        Some(e)
    } else if e == 0x62 {
        Some(0x08)
    } else if e == 0x66 {
        Some(0x0c)
    } else if e == 0x6e {
        Some(0x0a)
    } else if e == 0x72 {
        Some(0x0d)
    } else if e == 0x74 {
        Some(0x09)
    } else {
        None
    }
}

/// Decodes the escape whose backslash stands at `src` and writes the
/// decoded bytes at `dst`. Returns how many bytes were written and how
/// many source bytes the escape took.
fn parse_escape(buf: &mut [u8], src: usize, dst: usize, limit: usize) -> (r: Result<
    (usize, usize),
    ErrorType,
>)
    requires
        dst <= src < limit <= old(buf)@.len(),
    ensures
        final(buf)@.len() == old(buf)@.len(),
        match escape_at(old(buf)@, src as int, limit as int) {
            Ok((bytes, width)) => {
                &&& r == Ok::<(usize, usize), ErrorType>((bytes.len() as usize, width as usize))
                &&& 1 <= bytes.len() <= 4
                &&& 2 <= width
                &&& dst + bytes.len() < src + width <= limit
                &&& final(buf)@.subrange(dst as int, dst + bytes.len()) == bytes
                &&& forall|j: int|
                    0 <= j < old(buf)@.len() && !(dst <= j < dst + bytes.len()) ==> final(buf)@[j]
                        == old(buf)@[j]
            },
            Err(e) => r == Err::<(usize, usize), ErrorType>(e) && final(buf)@ == old(buf)@,
        },
{
    if limit - src <= 1 {
        reveal(escape_at);
        return Err(ErrorType::UnexpectedEndOfString);
    }
    let e = buf[src + 1];
    if e == 0x75 {
        match read_unicode_escape(&*buf, src, limit) {
            Ok((cp, width)) => {
                let n = write_scalar(buf, dst, cp);
                Ok((n, width))
            },
            Err(e) => Err(e),
        }
    } else {
        reveal(escape_at);
        match read_simple_escape(e) {
            Some(x) => {
                buf[dst] = x;
                assert(buf@.subrange(dst as int, dst + 1) =~= seq![x]);
                Ok((1, 2))
            },
            None => Err(ErrorType::InvalidEscape),
        }
    }
}

/// An escape is read from its own bytes alone.
pub proof fn lemma_escape_at_local(a: Seq<u8>, b: Seq<u8>, i: int, limit: int)
    requires
        0 <= i < limit <= a.len(),
        a.len() == b.len(),
        forall|j: int| i <= j < limit ==> a[j] == b[j],
    ensures
        escape_at(a, i, limit) == escape_at(b, i, limit),
{
    reveal(escape_at);
    assert(hex4(a, i + 2, limit) == hex4(b, i + 2, limit));
    assert(hex4(a, i + 8, limit) == hex4(b, i + 8, limit));
}

/// A string is read from the bytes of its own region alone.
pub proof fn lemma_unescape_local(a: Seq<u8>, b: Seq<u8>, i: int, limit: int, acc: Seq<u8>)
    requires
        a.len() == b.len(),
        forall|j: int| i <= j < limit ==> a[j] == b[j],
    ensures
        unescape(a, i, limit, acc) == unescape(b, i, limit, acc),
    decreases limit - i,
{
    if 0 <= i < limit && limit <= a.len() && a[i] != QUOTE {
        if a[i] == BACKSLASH {
            lemma_escape_at_local(a, b, i, limit);
            match escape_at(a, i, limit) {
                Err(e) => {},
                Ok(decoded) => {
                    if 0 < decoded.1 <= limit - i {
                        lemma_unescape_local(a, b, i + decoded.1, limit, acc + decoded.0);
                    }
                },
            }
        } else {
            lemma_unescape_local(a, b, i + 1, limit, acc.push(a[i]));
        }
    }
}

/// Decodes the string whose opening quote stands at `start`, in place:
/// the decoded bytes are written from `start + 1` on, over the escaped
/// ones, and their number is returned. The string has to close before
/// `limit`. Nothing outside `(start, limit)` is written, and nothing
/// at all if the string holds no backslash. Whether the decoded bytes
/// are UTF-8 is left to the caller.
pub fn parse_str(buf: &mut [u8], start: usize, limit: usize) -> (r: Result<usize, ErrorType>)
    requires
        start < limit <= old(buf)@.len(),
    ensures
        final(buf)@.len() == old(buf)@.len(),
        forall|j: int|
            0 <= j < old(buf)@.len() && !(start < j < limit) ==> final(buf)@[j] == old(buf)@[j],
        is_escape_free(old(buf)@, start as int, limit as int) ==> final(buf)@ == old(buf)@ && r
            == Ok::<usize, ErrorType>((plain_end(old(buf)@, start + 1, limit as int) - start - 1) as usize),
        match unescape(old(buf)@, start + 1, limit as int, Seq::empty()) {
            Ok(content) => r == Ok::<usize, ErrorType>(content.len() as usize) && start + 1
                + content.len() < limit && final(buf)@.subrange(
                start + 1,
                start + 1 + content.len(),
            ) == content,
            Err(e) => r == Err::<usize, ErrorType>(e),
        },
{
    proof {
        if is_escape_free(buf@, start as int, limit as int) {
            lemma_escape_free_content(buf@, start as int, limit as int);
        }
    }
    let ghost orig = buf@;
    let ghost mut acc: Seq<u8> = Seq::empty();
    let ghost mut clean: bool = true;
    let mut src: usize = start + 1;
    let mut dst: usize = start + 1;
    assert(acc =~= buf@.subrange(start + 1, dst as int));
    loop
        invariant
            orig == old(buf)@,
            start < dst <= src <= limit <= orig.len(),
            buf@.len() == orig.len(),
            forall|j: int| 0 <= j < orig.len() && (j <= start || j >= src) ==> buf@[j] == orig[j],
            acc == buf@.subrange(start + 1, dst as int),
            unescape(orig, start + 1, limit as int, Seq::empty()) == unescape(
                orig,
                src as int,
                limit as int,
                acc,
            ),
            clean ==> dst == src && buf@ == orig && plain_end(orig, start + 1, limit as int)
                == plain_end(orig, src as int, limit as int),
            !clean ==> !is_escape_free(orig, start as int, limit as int),
        decreases limit - src,
    {
        if src >= limit {
            return Err(ErrorType::UnexpectedEndOfString);
        }
        let c = buf[src];
        if c == QUOTE {
            assert(acc.len() == dst - start - 1);
            return Ok(dst - start - 1);
        }
        let ghost before = buf@;
        if c == BACKSLASH {
            proof {
                if clean {
                    assert(plain_end(orig, src as int, limit as int) == src);
                }
                clean = false;
                lemma_escape_at_local(buf@, orig, src as int, limit as int);
            }
            match parse_escape(buf, src, dst, limit) {
                Err(e) => {
                    return Err(e);
                },
                Ok((n, width)) => {
                    proof {
                        let bytes = buf@.subrange(dst as int, dst + n);
                        assert(buf@.subrange(start + 1, dst + n) =~= before.subrange(
                            start + 1,
                            dst as int,
                        ) + bytes);
                        acc = acc + bytes;
                    }
                    dst = dst + n;
                    src = src + width;
                },
            }
        } else {
            buf[dst] = c;
            proof {
                assert(buf@.subrange(start + 1, dst + 1) =~= before.subrange(
                    start + 1,
                    dst as int,
                ).push(c));
                if clean {
                    assert(buf@ =~= orig);
                    assert(plain_end(orig, src as int, limit as int) == plain_end(
                        orig,
                        src + 1,
                        limit as int,
                    ));
                }
                acc = acc.push(c);
            }
            dst = dst + 1;
            src = src + 1;
        }
    }
}

/// As `parse_str`, for strings that are likely to be short: a window
/// of at most 32 bytes is scanned first, and a string that closes in
/// it without a backslash is done without a write.
pub fn parse_short_str(buf: &mut [u8], start: usize, limit: usize) -> (r: Result<usize, ErrorType>)
    requires
        start < limit <= old(buf)@.len(),
    ensures
        final(buf)@.len() == old(buf)@.len(),
        forall|j: int|
            0 <= j < old(buf)@.len() && !(start < j < limit) ==> final(buf)@[j] == old(buf)@[j],
        is_escape_free(old(buf)@, start as int, limit as int) ==> final(buf)@ == old(buf)@ && r
            == Ok::<usize, ErrorType>((plain_end(old(buf)@, start + 1, limit as int) - start - 1) as usize),
        match unescape(old(buf)@, start + 1, limit as int, Seq::empty()) {
            Ok(content) => r == Ok::<usize, ErrorType>(content.len() as usize) && start + 1
                + content.len() < limit && final(buf)@.subrange(
                start + 1,
                start + 1 + content.len(),
            ) == content,
            Err(e) => r == Err::<usize, ErrorType>(e),
        },
{
    proof {
        if is_escape_free(buf@, start as int, limit as int) {
            lemma_escape_free_content(buf@, start as int, limit as int);
        }
    }
    let window_end: usize = if limit - start - 1 > SHORT_WINDOW {
        start + 1 + SHORT_WINDOW
    } else {
        limit
    };
    let mut i: usize = start + 1;
    while i < window_end
        invariant
            start < i <= window_end <= limit <= buf@.len(),
            buf@ == old(buf)@,
            plain_run(buf@, start + 1, i as int),
        decreases window_end - i,
    {
        let c = buf[i];
        if c == QUOTE {
            proof {
                lemma_plain_end_at_quote(buf@, start + 1, i as int, limit as int);
                lemma_unescape_plain(buf@, start + 1, i as int, limit as int, Seq::empty());
                assert(Seq::<u8>::empty() + buf@.subrange(start + 1, i as int) =~= buf@.subrange(
                    start + 1,
                    i as int,
                ));
            }
            return Ok(i - start - 1);
        }
        if c == BACKSLASH {
            break;
        }
        i = i + 1;
    }
    parse_str(buf, start, limit)
}

} // verus!
