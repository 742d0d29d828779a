//! What a document means, byte by byte: the value that a reader finds
//! who passes over whitespace and reads one value, with no index to
//! help. The walk over the structural index finds the same.

use vstd::prelude::*;
use vstd::utf8::{decode_utf8, valid_utf8};
use crate::charutils::{is_digit, is_operator, is_whitespace};
use crate::document::{
    error_at, false_literal, is_literal, limit_of, member_at, null_literal, parse_document,
    parse_elements, parse_members, parse_scalar, parse_value, token_byte, true_literal, Json,
};
use crate::error::{Error, ErrorType};
use crate::extents::{
    extent_end, is_within_string, lemma_boundary_is_between, lemma_no_token_between,
    lemma_only_whitespace_before_tokens, lemma_only_whitespace_between_tokens,
    lemma_unescape_limit, unescape_end,
};
use crate::numberparse::{number_at, number_shape, Num};
use crate::stage1::{is_structural, lemma_structurals, state_at, step, structurals};
use crate::stringparse::{string_at, QUOTE};

verus! {

/// The first offset at or after `i` that holds no whitespace, or the
/// end of the input.
pub open spec fn skip_whitespace(b: Seq<u8>, i: int) -> int
    decreases b.len() - i,
{
    if 0 <= i < b.len() && is_whitespace(b[i]) {
        skip_whitespace(b, i + 1)
    } else {
        i
    }
}

/// The error of kind `kind` at offset `i`, before which `n` tokens
/// stand. Past the input the place is its end.
pub open spec fn fault(b: Seq<u8>, n: int, i: int, kind: ErrorType) -> Error {
    if 0 <= i < b.len() {
        Error { structural: n as usize, index: i as usize, character: b[i] as char, error: kind }
    } else {
        Error {
            structural: n as usize,
            index: b.len() as usize,
            character: 0u8 as char,
            error: kind,
        }
    }
}

/// The scalar whose first byte stands at `i`, and the offset after its
/// text.
pub open spec fn lexeme_at(b: Seq<u8>, i: int) -> Result<(Json, int), ErrorType> {
    let c = b[i];
    if c == QUOTE {
        match string_at(b, i, b.len() as int) {
            Ok(s) => Ok((Json::String(decode_utf8(s)), unescape_end(b, i + 1, b.len() as int) + 1)),
            Err(e) => Err(e),
        }
    } else if c == 0x6e {
        if is_literal(b, i, null_literal()) {
            Ok((Json::Null, i + 4))
        } else {
            Err(ErrorType::UnexpectedCharacter)
        }
    } else if c == 0x74 {
        if is_literal(b, i, true_literal()) {
            Ok((Json::Bool(true), i + 4))
        } else {
            Err(ErrorType::UnexpectedCharacter)
        }
    } else if c == 0x66 {
        if is_literal(b, i, false_literal()) {
            Ok((Json::Bool(false), i + 5))
        } else {
            Err(ErrorType::UnexpectedCharacter)
        }
    } else if c == 0x2d || is_digit(c) {
        match number_at(b, i, c == 0x2d) {
            Ok(Num::I64(x)) => Ok((Json::I64(x), number_shape(b, i, c == 0x2d)->Some_0.exp_end)),
            Ok(Num::F64(l)) => Ok((Json::F64(l), number_shape(b, i, c == 0x2d)->Some_0.exp_end)),
            Err(e) => Err(e),
        }
    } else {
        Err(ErrorType::UnexpectedCharacter)
    }
}

/// The value whose first byte stands at `i`, the offset after its
/// text, and the number of tokens up to there; `n` tokens stand before
/// `i`, and `depth` containers may still be opened.
pub open spec fn value_of(b: Seq<u8>, i: int, n: int, depth: nat) -> Result<(Json, int, int), Error>
    decreases depth, b.len() - i, 0int,
{
    if i < 0 || i >= b.len() {
        Err(fault(b, n, b.len() as int, ErrorType::UnexpectedEnd))
    } else if b[i] == 0x5b || b[i] == 0x7b {
        let j = skip_whitespace(b, i + 1);
        if depth == 0 {
            Err(fault(b, n, i, ErrorType::UnexpectedCharacter))
        } else if !(i < j < b.len()) {
            Err(fault(b, n + 1, b.len() as int, ErrorType::UnexpectedEnd))
        } else if b[i] == 0x5b {
            if b[j] == 0x5d {
                Ok((Json::Array(Seq::empty()), j + 1, n + 2))
            } else {
                elements_of(b, j, n + 1, (depth - 1) as nat, Seq::empty())
            }
        } else {
            if b[j] == 0x7d {
                Ok((Json::Object(Map::empty()), j + 1, n + 2))
            } else {
                members_of(b, j, n + 1, (depth - 1) as nat, Map::empty())
            }
        }
    } else {
        match lexeme_at(b, i) {
            Ok((v, e)) => Ok((v, e, n + 1)),
            Err(kind) => Err(fault(b, n, i, kind)),
        }
    }
}

/// The array whose next element starts at `j`; `acc` holds the
/// elements before it.
pub open spec fn elements_of(b: Seq<u8>, j: int, n: int, depth: nat, acc: Seq<Json>) -> Result<
    (Json, int, int),
    Error,
>
    decreases depth, b.len() - j, 1int,
{
    match value_of(b, j, n, depth) {
        Err(e) => Err(e),
        Ok((v, e, m)) => {
            let k = skip_whitespace(b, e);
            let next = skip_whitespace(b, k + 1);
            if !(0 <= j < e <= k < b.len()) {
                Err(fault(b, m, b.len() as int, ErrorType::UnexpectedEnd))
            } else if b[k] == 0x2c {
                if k < next <= b.len() {
                    elements_of(b, next, m + 1, depth, acc.push(v))
                } else {
                    Err(fault(b, m + 1, b.len() as int, ErrorType::UnexpectedEnd))
                }
            } else if b[k] == 0x5d {
                Ok((Json::Array(acc.push(v)), k + 1, m + 1))
            } else if b[k] == 0x7d {
                Err(fault(b, m, k, ErrorType::ExpectedArrayClose))
            } else {
                Err(fault(b, m, k, ErrorType::ExpectedComma))
            }
        },
    }
}

/// The member whose key starts at `j`: its key, its value, the offset
/// after its text, and the number of tokens up to there.
pub open spec fn member_of(b: Seq<u8>, j: int, n: int, depth: nat) -> Result<
    ((Seq<char>, Json), int, int),
    Error,
>
    decreases depth, b.len() - j, 1int,
{
    if j < 0 || j >= b.len() {
        Err(fault(b, n, b.len() as int, ErrorType::UnexpectedEnd))
    } else if b[j] != QUOTE {
        Err(fault(b, n, j, ErrorType::ExpectedString))
    } else {
        match string_at(b, j, b.len() as int) {
            Err(kind) => Err(fault(b, n, j, kind)),
            Ok(key) => {
                let colon = skip_whitespace(b, unescape_end(b, j + 1, b.len() as int) + 1);
                let start = skip_whitespace(b, colon + 1);
                if !(j < colon < b.len()) {
                    Err(fault(b, n + 1, b.len() as int, ErrorType::UnexpectedEnd))
                } else if b[colon] != 0x3a {
                    Err(fault(b, n + 1, colon, ErrorType::ExpectedColon))
                } else if !(colon < start <= b.len()) {
                    Err(fault(b, n + 2, b.len() as int, ErrorType::UnexpectedEnd))
                } else {
                    match value_of(b, start, n + 2, depth) {
                        Err(e) => Err(e),
                        Ok((v, e, m)) => Ok(((decode_utf8(key), v), e, m)),
                    }
                }
            },
        }
    }
}

/// The object whose next key starts at `j`; `acc` holds the members
/// before it.
pub open spec fn members_of(
    b: Seq<u8>,
    j: int,
    n: int,
    depth: nat,
    acc: Map<Seq<char>, Json>,
) -> Result<(Json, int, int), Error>
    decreases depth, b.len() - j, 2int,
{
    match member_of(b, j, n, depth) {
        Err(e) => Err(e),
        Ok((member, e, m)) => {
            let k = skip_whitespace(b, e);
            let next = skip_whitespace(b, k + 1);
            if !(0 <= j < e <= k < b.len()) {
                Err(fault(b, m, b.len() as int, ErrorType::UnexpectedEnd))
            } else if b[k] == 0x2c {
                if k < next <= b.len() {
                    members_of(b, next, m + 1, depth, acc.insert(member.0, member.1))
                } else {
                    Err(fault(b, m + 1, b.len() as int, ErrorType::UnexpectedEnd))
                }
            } else if b[k] == 0x7d {
                Ok((Json::Object(acc.insert(member.0, member.1)), k + 1, m + 1))
            } else if b[k] == 0x5d {
                Err(fault(b, m, k, ErrorType::ExpectedObjectClose))
            } else {
                Err(fault(b, m, k, ErrorType::ExpectedComma))
            }
        },
    }
}

/// The value of the document `b`: UTF-8 that holds one value, with
/// nothing but whitespace around it.
pub open spec fn document_value(b: Seq<u8>, depth: nat) -> Result<Json, Error> {
    if !valid_utf8(b) {
        Err(Error::spec_generic(ErrorType::InvalidUtf8))
    } else {
        match value_of(b, skip_whitespace(b, 0), 0, depth) {
            Err(e) => Err(e),
            Ok((v, e, n)) => {
                let k = skip_whitespace(b, e);
                if 0 <= k < b.len() {
                    Err(fault(b, n, k, ErrorType::TrailingData))
                } else {
                    Ok(v)
                }
            },
        }
    }
}

pub proof fn lemma_skip_whitespace(b: Seq<u8>, i: int)
    requires
        0 <= i <= b.len(),
    ensures
        i <= skip_whitespace(b, i) <= b.len(),
        forall|x: int| i <= x < skip_whitespace(b, i) ==> is_whitespace(#[trigger] b[x]),
        skip_whitespace(b, i) < b.len() ==> !is_whitespace(b[skip_whitespace(b, i)]),
    decreases b.len() - i,
{
    if i < b.len() && is_whitespace(b[i]) {
        lemma_skip_whitespace(b, i + 1);
    }
}

/// Whitespace is passed over up to the first byte that is none.
pub proof fn lemma_skip_to(b: Seq<u8>, i: int, j: int)
    requires
        0 <= i <= j <= b.len(),
        forall|x: int| i <= x < j ==> is_whitespace(#[trigger] b[x]),
        j < b.len() ==> !is_whitespace(b[j]),
    ensures
        skip_whitespace(b, i) == j,
    decreases j - i,
{
    if i < j {
        assert(is_whitespace(b[i]));
        lemma_skip_to(b, i + 1, j);
    }
}

/// The offset of token `p`, or the end of the input if there is none.
pub open spec fn offset_of(b: Seq<u8>, t: Seq<u32>, p: int) -> int {
    if 0 <= p < t.len() {
        t[p] as int
    } else {
        b.len() as int
    }
}

/// After the text of a well-formed token, whitespace leads to the next
/// token.
pub proof fn lemma_next_token(b: Seq<u8>, p: int)
    requires
        b.len() <= u32::MAX,
        0 <= p < structurals(b).len(),
        extent_end(b, structurals(b), p) is Some,
    ensures
        ({
            let t = structurals(b);
            let e = extent_end(b, t, p)->Some_0;
            &&& t[p] < e <= offset_of(b, t, p + 1)
            &&& skip_whitespace(b, e) == offset_of(b, t, p + 1)
        }),
{
    let t = structurals(b);
    let e = extent_end(b, t, p)->Some_0;
    lemma_structurals(b);
    lemma_only_whitespace_between_tokens(b, p);
    assert(limit_of(b, t, p) == offset_of(b, t, p + 1));
    if p + 1 < t.len() {
        assert(is_structural(b, t[p + 1] as int));
    }
    lemma_skip_to(b, e, offset_of(b, t, p + 1));
}

/// Whitespace leads from the start of the input to the first token.
pub proof fn lemma_first_token(b: Seq<u8>)
    requires
        b.len() <= u32::MAX,
    ensures
        skip_whitespace(b, 0) == offset_of(b, structurals(b), 0),
{
    let t = structurals(b);
    lemma_structurals(b);
    lemma_only_whitespace_before_tokens(b);
    if t.len() > 0 {
        assert(is_structural(b, t[0] as int));
    }
    lemma_skip_to(b, 0, offset_of(b, t, 0));
}

/// A scalar token reads the same with and without the index.
pub proof fn lemma_scalar_by_bytes(b: Seq<u8>, p: int)
    requires
        b.len() <= u32::MAX,
        0 <= p < structurals(b).len(),
        !is_operator(token_byte(b, structurals(b), p)),
    ensures
        ({
            let t = structurals(b);
            match lexeme_at(b, t[p] as int) {
                Ok((v, e)) => parse_scalar(b, t, p) == Ok::<Json, Error>(v) && extent_end(b, t, p)
                    == Some(e),
                Err(kind) => parse_scalar(b, t, p) == Err::<Json, Error>(error_at(b, t, p, kind)),
            }
        }),
{
    let t = structurals(b);
    let k = t[p] as int;
    lemma_structurals(b);
    assert(is_structural(b, k));
    if b[k] == QUOTE {
        let limit = limit_of(b, t, p);
        let s = state_at(b, k);
        if s.boundary {
            lemma_boundary_is_between(b, k);
        }
        assert(state_at(b, k + 1) == step(s, b[k]));
        assert(is_within_string(state_at(b, k + 1)));
        assert forall|x: int| k + 1 <= x < limit implies !is_structural(b, x) by {
            lemma_no_token_between(b, p, x);
        }
        if p + 1 < t.len() {
            assert(is_structural(b, t[p + 1] as int));
        }
        lemma_unescape_limit(b, k + 1, limit, Seq::empty());
    }
}

/// The walk and the reader agree on the value at token `p`: both find
/// the same value and stand before the same token after it, or both
/// fail with the same error.
pub open spec fn same_value(b: Seq<u8>, p: int, depth: nat) -> bool {
    let t = structurals(b);
    match parse_value(b, t, p, depth) {
        Ok((v, r)) => {
            &&& value_of(b, offset_of(b, t, p), p, depth) matches Ok((w, e, m))
            &&& w == v
            &&& m == r
            &&& p < r <= t.len()
            &&& offset_of(b, t, p) < e <= offset_of(b, t, r)
            &&& skip_whitespace(b, e) == offset_of(b, t, r)
        },
        Err(err) => value_of(b, offset_of(b, t, p), p, depth) == Err::<(Json, int, int), Error>(
            err,
        ),
    }
}

pub open spec fn same_elements(b: Seq<u8>, q: int, depth: nat, acc: Seq<Json>) -> bool {
    let t = structurals(b);
    match parse_elements(b, t, q, depth, acc) {
        Ok((v, r)) => {
            &&& elements_of(b, offset_of(b, t, q), q, depth, acc) matches Ok((w, e, m))
            &&& w == v
            &&& m == r
            &&& q < r <= t.len()
            &&& offset_of(b, t, q) < e <= offset_of(b, t, r)
            &&& skip_whitespace(b, e) == offset_of(b, t, r)
        },
        Err(err) => elements_of(b, offset_of(b, t, q), q, depth, acc) == Err::<
            (Json, int, int),
            Error,
        >(err),
    }
}

pub open spec fn same_member(b: Seq<u8>, q: int, depth: nat) -> bool {
    let t = structurals(b);
    match member_at(b, t, q, depth) {
        Ok((member, r)) => {
            &&& member_of(b, offset_of(b, t, q), q, depth) matches Ok((other, e, m))
            &&& other == member
            &&& m == r
            &&& q < r <= t.len()
            &&& offset_of(b, t, q) < e <= offset_of(b, t, r)
            &&& skip_whitespace(b, e) == offset_of(b, t, r)
        },
        Err(err) => member_of(b, offset_of(b, t, q), q, depth) == Err::<
            ((Seq<char>, Json), int, int),
            Error,
        >(err),
    }
}

pub open spec fn same_members(b: Seq<u8>, q: int, depth: nat, acc: Map<Seq<char>, Json>) -> bool {
    let t = structurals(b);
    match parse_members(b, t, q, depth, acc) {
        Ok((v, r)) => {
            &&& members_of(b, offset_of(b, t, q), q, depth, acc) matches Ok((w, e, m))
            &&& w == v
            &&& m == r
            &&& q < r <= t.len()
            &&& offset_of(b, t, q) < e <= offset_of(b, t, r)
            &&& skip_whitespace(b, e) == offset_of(b, t, r)
        },
        Err(err) => members_of(b, offset_of(b, t, q), q, depth, acc) == Err::<
            (Json, int, int),
            Error,
        >(err),
    }
}

/// What is known of an operator token: it is one byte, and whitespace
/// leads from it to the next token.
proof fn lemma_after_operator(b: Seq<u8>, p: int)
    requires
        b.len() <= u32::MAX,
        0 <= p < structurals(b).len(),
        is_operator(token_byte(b, structurals(b), p)),
    ensures
        skip_whitespace(b, structurals(b)[p] + 1) == offset_of(b, structurals(b), p + 1),
        structurals(b)[p] < offset_of(b, structurals(b), p + 1),
{
    lemma_next_token(b, p);
}

/// What is known of every token: it lies in the input and is no
/// whitespace, and the error that it raises has its offset.
proof fn lemma_token(b: Seq<u8>, p: int)
    requires
        b.len() <= u32::MAX,
        0 <= p < structurals(b).len(),
    ensures
        0 <= structurals(b)[p] < b.len(),
        forall|kind: ErrorType|
            #[trigger] error_at(b, structurals(b), p, kind) == fault(
                b,
                p,
                structurals(b)[p] as int,
                kind,
            ),
{
    lemma_structurals(b);
}

pub proof fn lemma_same_value(b: Seq<u8>, p: int, depth: nat)
    requires
        b.len() <= u32::MAX,
        0 <= p <= structurals(b).len(),
    ensures
        same_value(b, p, depth),
    decreases depth, structurals(b).len() - p, 0int,
{
    let t = structurals(b);
    lemma_structurals(b);
    if p < t.len() {
        let k = t[p] as int;
        lemma_token(b, p);
        if b[k] == 0x5b || b[k] == 0x7b {
            lemma_after_operator(b, p);
            let j = skip_whitespace(b, k + 1);
            if depth > 0 && p + 1 < t.len() {
                lemma_token(b, p + 1);
                if b[k] == 0x5b {
                    if b[j] == 0x5d {
                        lemma_after_operator(b, p + 1);
                    } else {
                        lemma_same_elements(b, p + 1, (depth - 1) as nat, Seq::empty());
                    }
                } else {
                    if b[j] == 0x7d {
                        lemma_after_operator(b, p + 1);
                    } else {
                        lemma_same_members(b, p + 1, (depth - 1) as nat, Map::empty());
                    }
                }
            }
        } else {
            if is_operator(b[k]) {
            } else {
                lemma_scalar_by_bytes(b, p);
                if lexeme_at(b, k) is Ok {
                    lemma_next_token(b, p);
                }
            }
        }
    }
}

pub proof fn lemma_same_elements(b: Seq<u8>, q: int, depth: nat, acc: Seq<Json>)
    requires
        b.len() <= u32::MAX,
        0 <= q <= structurals(b).len(),
    ensures
        same_elements(b, q, depth, acc),
    decreases depth, structurals(b).len() - q, 1int,
{
    let t = structurals(b);
    lemma_structurals(b);
    lemma_same_value(b, q, depth);
    match parse_value(b, t, q, depth) {
        Err(err) => {},
        Ok((v, r)) => {
            if r < t.len() {
                lemma_token(b, r);
                let k = t[r] as int;
                if b[k] == 0x2c {
                    lemma_after_operator(b, r);
                    lemma_same_elements(b, r + 1, depth, acc.push(v));
                } else if b[k] == 0x5d {
                    lemma_after_operator(b, r);
                }
            }
        },
    }
}

pub proof fn lemma_same_member(b: Seq<u8>, q: int, depth: nat)
    requires
        b.len() <= u32::MAX,
        0 <= q <= structurals(b).len(),
    ensures
        same_member(b, q, depth),
    decreases depth, structurals(b).len() - q, 1int,
{
    let t = structurals(b);
    lemma_structurals(b);
    if q < t.len() {
        lemma_token(b, q);
        let j = t[q] as int;
        if b[j] == QUOTE {
            lemma_scalar_by_bytes(b, q);
            if lexeme_at(b, j) is Ok {
                lemma_next_token(b, q);
                if q + 1 < t.len() {
                    lemma_token(b, q + 1);
                    let colon = t[q + 1] as int;
                    if b[colon] == 0x3a {
                        lemma_after_operator(b, q + 1);
                        lemma_same_value(b, q + 2, depth);
                    }
                }
            }
        }
    }
}

pub proof fn lemma_same_members(b: Seq<u8>, q: int, depth: nat, acc: Map<Seq<char>, Json>)
    requires
        b.len() <= u32::MAX,
        0 <= q <= structurals(b).len(),
    ensures
        same_members(b, q, depth, acc),
    decreases depth, structurals(b).len() - q, 2int,
{
    let t = structurals(b);
    lemma_structurals(b);
    lemma_same_member(b, q, depth);
    match member_at(b, t, q, depth) {
        Err(err) => {},
        Ok((member, r)) => {
            if r < t.len() {
                lemma_token(b, r);
                let k = t[r] as int;
                if b[k] == 0x2c {
                    lemma_after_operator(b, r);
                    lemma_same_members(b, r + 1, depth, acc.insert(member.0, member.1));
                } else if b[k] == 0x7d {
                    lemma_after_operator(b, r);
                }
            }
        },
    }
}

/// The index is no more than a help: the walk over the structural
/// index finds in a document what a reader finds who goes through it
/// byte by byte, and where one fails the other fails with the same
/// error.
pub proof fn lemma_document_meaning(b: Seq<u8>, depth: nat)
    requires
        b.len() <= u32::MAX,
    ensures
        parse_document(b, depth) == document_value(b, depth),
{
    let t = structurals(b);
    lemma_structurals(b);
    lemma_first_token(b);
    lemma_same_value(b, 0, depth);
    match parse_value(b, t, 0, depth) {
        Err(err) => {},
        Ok((v, r)) => {
            if r < t.len() {
                lemma_token(b, r);
            }
        },
    }
}

} // verus!
