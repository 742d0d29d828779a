//! What a document means: the value that the tokens of an input spell,
//! or the error that the first offending token raises.

use vstd::prelude::*;
use vstd::utf8::{decode_utf8, valid_utf8};
use crate::charutils::is_digit;
use crate::error::{Error, ErrorType};
use crate::numberparse::{is_terminator, number_at, Num};
use crate::stage1::structurals;
use crate::stringparse::{string_at, QUOTE};

verus! {

/// A JSON value.
pub enum Json {
    Null,
    Bool(bool),
    I64(i64),
    /// A number that is no `i64`, as the text of its literal.
    F64(Seq<u8>),
    String(Seq<char>),
    Array(Seq<Json>),
    /// The members by key; of two members with one key the later stays.
    Object(Map<Seq<char>, Json>),
}

/// The nesting depth that a parser accepts unless it is told otherwise.
pub const DEFAULT_DEPTH_LIMIT: usize = 1024;

pub open spec fn null_literal() -> Seq<u8> {
    seq![0x6eu8, 0x75u8, 0x6cu8, 0x6cu8]
}

pub open spec fn true_literal() -> Seq<u8> {
    seq![0x74u8, 0x72u8, 0x75u8, 0x65u8]
}

pub open spec fn false_literal() -> Seq<u8> {
    seq![0x66u8, 0x61u8, 0x6cu8, 0x73u8, 0x65u8]
}

/// The literal `lit` stands at `k` and ends at a terminator.
pub open spec fn is_literal(b: Seq<u8>, k: int, lit: Seq<u8>) -> bool {
    &&& 0 <= k
    &&& k + lit.len() <= b.len()
    &&& b.subrange(k, k + lit.len()) == lit
    &&& is_terminator(b, k + lit.len())
}

/// The first byte of token `p`.
pub open spec fn token_byte(b: Seq<u8>, t: Seq<u32>, p: int) -> u8 {
    b[t[p] as int]
}

/// Where the region of token `p` ends: at the next token, or at the
/// end of the input.
pub open spec fn limit_of(b: Seq<u8>, t: Seq<u32>, p: int) -> int {
    if p + 1 < t.len() {
        t[p + 1] as int
    } else {
        b.len() as int
    }
}

/// The error of kind `kind` raised by token `p`. Past the last token
/// the place is the end of the input.
pub open spec fn error_at(b: Seq<u8>, t: Seq<u32>, p: int, kind: ErrorType) -> Error {
    if 0 <= p < t.len() {
        Error {
            structural: p as usize,
            index: t[p] as usize,
            character: token_byte(b, t, p) as char,
            error: kind,
        }
    } else {
        Error {
            structural: t.len() as usize,
            index: b.len() as usize,
            character: 0u8 as char,
            error: kind,
        }
    }
}

/// The scalar that token `p` spells.
pub open spec fn parse_scalar(b: Seq<u8>, t: Seq<u32>, p: int) -> Result<Json, Error> {
    let k = t[p] as int;
    let c = b[k];
    if c == QUOTE {
        match string_at(b, k, limit_of(b, t, p)) {
            Ok(s) => Ok(Json::String(decode_utf8(s))),
            Err(e) => Err(error_at(b, t, p, e)),
        }
    } else if c == 0x6e {
        if is_literal(b, k, null_literal()) {
            Ok(Json::Null)
        } else {
            Err(error_at(b, t, p, ErrorType::UnexpectedCharacter))
        }
    } else if c == 0x74 {
        if is_literal(b, k, true_literal()) {
            Ok(Json::Bool(true))
        } else {
            Err(error_at(b, t, p, ErrorType::UnexpectedCharacter))
        }
    } else if c == 0x66 {
        if is_literal(b, k, false_literal()) {
            Ok(Json::Bool(false))
        } else {
            Err(error_at(b, t, p, ErrorType::UnexpectedCharacter))
        }
    } else if c == 0x2d || is_digit(c) {
        match number_at(b, k, c == 0x2d) {
            Ok(Num::I64(i)) => Ok(Json::I64(i)),
            Ok(Num::F64(l)) => Ok(Json::F64(l)),
            Err(e) => Err(error_at(b, t, p, e)),
        }
    } else {
        Err(error_at(b, t, p, ErrorType::UnexpectedCharacter))
    }
}

/// The value that starts at token `p`, and the position of the token
/// after it. `depth` is how many containers may still be opened.
pub open spec fn parse_value(b: Seq<u8>, t: Seq<u32>, p: int, depth: nat) -> Result<(Json, int), Error>
    decreases depth, t.len() - p, 0int,
{
    if p < 0 || p >= t.len() {
        Err(error_at(b, t, t.len() as int, ErrorType::UnexpectedEnd))
    } else if token_byte(b, t, p) == 0x5b {
        if depth == 0 {
            Err(error_at(b, t, p, ErrorType::UnexpectedCharacter))
        } else if p + 1 >= t.len() {
            Err(error_at(b, t, t.len() as int, ErrorType::UnexpectedEnd))
        } else if token_byte(b, t, p + 1) == 0x5d {
            Ok((Json::Array(Seq::empty()), p + 2))
        } else {
            parse_elements(b, t, p + 1, (depth - 1) as nat, Seq::empty())
        }
    } else if token_byte(b, t, p) == 0x7b {
        if depth == 0 {
            Err(error_at(b, t, p, ErrorType::UnexpectedCharacter))
        } else if p + 1 >= t.len() {
            Err(error_at(b, t, t.len() as int, ErrorType::UnexpectedEnd))
        } else if token_byte(b, t, p + 1) == 0x7d {
            Ok((Json::Object(Map::empty()), p + 2))
        } else {
            parse_members(b, t, p + 1, (depth - 1) as nat, Map::empty())
        }
    } else {
        match parse_scalar(b, t, p) {
            Ok(v) => Ok((v, p + 1)),
            Err(e) => Err(e),
        }
    }
}

/// The array whose next element starts at token `q`; `acc` holds the
/// elements before it.
pub open spec fn parse_elements(
    b: Seq<u8>,
    t: Seq<u32>,
    q: int,
    depth: nat,
    acc: Seq<Json>,
) -> Result<(Json, int), Error>
    decreases depth, t.len() - q, 1int,
{
    match parse_value(b, t, q, depth) {
        Err(e) => Err(e),
        Ok((v, r)) => {
            if !(q < r < t.len()) {
                Err(error_at(b, t, t.len() as int, ErrorType::UnexpectedEnd))
            } else if token_byte(b, t, r) == 0x2c {
                parse_elements(b, t, r + 1, depth, acc.push(v))
            } else if token_byte(b, t, r) == 0x5d {
                Ok((Json::Array(acc.push(v)), r + 1))
            } else if token_byte(b, t, r) == 0x7d {
                Err(error_at(b, t, r, ErrorType::ExpectedArrayClose))
            } else {
                Err(error_at(b, t, r, ErrorType::ExpectedComma))
            }
        },
    }
}

/// The member whose key is token `q`: its key, its value, and the
/// position of the token after it.
pub open spec fn member_at(b: Seq<u8>, t: Seq<u32>, q: int, depth: nat) -> Result<
    ((Seq<char>, Json), int),
    Error,
>
    decreases depth, t.len() - q, 1int,
{
    if q < 0 || q >= t.len() {
        Err(error_at(b, t, t.len() as int, ErrorType::UnexpectedEnd))
    } else if token_byte(b, t, q) != QUOTE {
        Err(error_at(b, t, q, ErrorType::ExpectedString))
    } else {
        match string_at(b, t[q] as int, limit_of(b, t, q)) {
            Err(e) => Err(error_at(b, t, q, e)),
            Ok(key) => {
                if q + 1 >= t.len() {
                    Err(error_at(b, t, t.len() as int, ErrorType::UnexpectedEnd))
                } else if token_byte(b, t, q + 1) != 0x3a {
                    Err(error_at(b, t, q + 1, ErrorType::ExpectedColon))
                } else {
                    match parse_value(b, t, q + 2, depth) {
                        Err(e) => Err(e),
                        Ok((v, r)) => Ok(((decode_utf8(key), v), r)),
                    }
                }
            },
        }
    }
}

/// The object whose next key is token `q`; `acc` holds the members
/// before it.
pub open spec fn parse_members(
    b: Seq<u8>,
    t: Seq<u32>,
    q: int,
    depth: nat,
    acc: Map<Seq<char>, Json>,
) -> Result<(Json, int), Error>
    decreases depth, t.len() - q, 2int,
{
    match member_at(b, t, q, depth) {
        Err(e) => Err(e),
        Ok((member, r)) => {
            if !(q < r < t.len()) {
                Err(error_at(b, t, t.len() as int, ErrorType::UnexpectedEnd))
            } else if token_byte(b, t, r) == 0x2c {
                parse_members(b, t, r + 1, depth, acc.insert(member.0, member.1))
            } else if token_byte(b, t, r) == 0x7d {
                Ok((Json::Object(acc.insert(member.0, member.1)), r + 1))
            } else if token_byte(b, t, r) == 0x5d {
                Err(error_at(b, t, r, ErrorType::ExpectedObjectClose))
            } else {
                Err(error_at(b, t, r, ErrorType::ExpectedComma))
            }
        },
    }
}

/// The value of the document whose tokens are `t`: the value that
/// starts at the first token, which no token may follow.
pub open spec fn parse_root(b: Seq<u8>, t: Seq<u32>, depth: nat) -> Result<Json, Error> {
    match parse_value(b, t, 0, depth) {
        Err(e) => Err(e),
        Ok((v, r)) => if 0 <= r < t.len() {
            Err(error_at(b, t, r, ErrorType::TrailingData))
        } else {
            Ok(v)
        },
    }
}

/// The value of the document `b`.
pub open spec fn parse_document(b: Seq<u8>, depth: nat) -> Result<Json, Error> {
    if !valid_utf8(b) {
        Err(Error::spec_generic(ErrorType::InvalidUtf8))
    } else {
        parse_root(b, structurals(b), depth)
    }
}

pub open spec fn is_open(c: u8) -> bool {
    c == 0x5b || c == 0x7b
}

pub open spec fn is_close(c: u8) -> bool {
    c == 0x5d || c == 0x7d
}

/// The commas from token `q` on that stand at nesting level zero,
/// counted up to the close that ends that level.
pub open spec fn count_commas(b: Seq<u8>, t: Seq<u32>, q: int, nesting: nat) -> nat
    decreases t.len() - q,
{
    if q < 0 || q >= t.len() {
        0
    } else if is_open(token_byte(b, t, q)) {
        count_commas(b, t, q + 1, nesting + 1)
    } else if is_close(token_byte(b, t, q)) {
        if nesting == 0 {
            0
        } else {
            count_commas(b, t, q + 1, (nesting - 1) as nat)
        }
    } else if token_byte(b, t, q) == 0x2c && nesting == 0 {
        1 + count_commas(b, t, q + 1, nesting)
    } else {
        count_commas(b, t, q + 1, nesting)
    }
}

/// The number of elements of the container that opens at token `p`:
/// none if it closes at once, else one more than its commas.
pub open spec fn count_elements(b: Seq<u8>, t: Seq<u32>, p: int) -> nat {
    if p + 1 >= t.len() || is_close(token_byte(b, t, p + 1)) {
        0
    } else {
        1 + count_commas(b, t, p + 1, 0)
    }
}

/// A value takes at least one token, and ends inside the index.
pub proof fn lemma_parse_value_advances(b: Seq<u8>, t: Seq<u32>, p: int, depth: nat)
    ensures
        parse_value(b, t, p, depth) matches Ok((_, r)) ==> p < r <= t.len(),
    decreases depth, t.len() - p, 0int,
{
    if 0 <= p < t.len() {
        if token_byte(b, t, p) == 0x5b {
            if depth > 0 && p + 1 < t.len() && token_byte(b, t, p + 1) != 0x5d {
                lemma_parse_elements_advances(b, t, p + 1, (depth - 1) as nat, Seq::empty());
            }
        } else if token_byte(b, t, p) == 0x7b {
            if depth > 0 && p + 1 < t.len() && token_byte(b, t, p + 1) != 0x7d {
                lemma_parse_members_advances(b, t, p + 1, (depth - 1) as nat, Map::empty());
            }
        }
    }
}

pub proof fn lemma_parse_elements_advances(
    b: Seq<u8>,
    t: Seq<u32>,
    q: int,
    depth: nat,
    acc: Seq<Json>,
)
    ensures
        parse_elements(b, t, q, depth, acc) matches Ok((_, r)) ==> q < r <= t.len(),
    decreases depth, t.len() - q, 1int,
{
    lemma_parse_value_advances(b, t, q, depth);
    match parse_value(b, t, q, depth) {
        Err(e) => {},
        Ok((v, r)) => {
            if q < r < t.len() && token_byte(b, t, r) == 0x2c {
                lemma_parse_elements_advances(b, t, r + 1, depth, acc.push(v));
            }
        },
    }
}

pub proof fn lemma_member_at_advances(b: Seq<u8>, t: Seq<u32>, q: int, depth: nat)
    ensures
        member_at(b, t, q, depth) matches Ok((_, r)) ==> q + 2 < r <= t.len(),
    decreases depth, t.len() - q, 1int,
{
    if 0 <= q < t.len() && token_byte(b, t, q) == QUOTE && q + 1 < t.len() {
        lemma_parse_value_advances(b, t, q + 2, depth);
    }
}

pub proof fn lemma_parse_members_advances(
    b: Seq<u8>,
    t: Seq<u32>,
    q: int,
    depth: nat,
    acc: Map<Seq<char>, Json>,
)
    ensures
        parse_members(b, t, q, depth, acc) matches Ok((_, r)) ==> q < r <= t.len(),
    decreases depth, t.len() - q, 2int,
{
    lemma_member_at_advances(b, t, q, depth);
    match member_at(b, t, q, depth) {
        Err(e) => {},
        Ok((member, r)) => {
            if q < r < t.len() && token_byte(b, t, r) == 0x2c {
                lemma_parse_members_advances(b, t, r + 1, depth, acc.insert(member.0, member.1));
            }
        },
    }
}

/// A value leaves the count of commas as it finds it: whatever commas
/// it holds stand at a deeper level.
pub proof fn lemma_value_hides_commas(b: Seq<u8>, t: Seq<u32>, p: int, depth: nat, nesting: nat)
    ensures
        parse_value(b, t, p, depth) matches Ok((_, r)) ==> count_commas(b, t, p, nesting)
            == count_commas(b, t, r, nesting),
    decreases depth, t.len() - p, 0int,
{
    if 0 <= p < t.len() {
        assert(count_commas(b, t, p, nesting) == if is_open(token_byte(b, t, p)) {
            count_commas(b, t, p + 1, nesting + 1)
        } else if is_close(token_byte(b, t, p)) {
            if nesting == 0 {
                0
            } else {
                count_commas(b, t, p + 1, (nesting - 1) as nat)
            }
        } else if token_byte(b, t, p) == 0x2c && nesting == 0 {
            1 + count_commas(b, t, p + 1, nesting)
        } else {
            count_commas(b, t, p + 1, nesting)
        });
        if p + 1 < t.len() {
            assert(is_close(token_byte(b, t, p + 1)) ==> count_commas(b, t, p + 1, nesting + 1)
                == count_commas(b, t, p + 2, nesting));
        }
        if token_byte(b, t, p) == 0x5b {
            if depth > 0 && p + 1 < t.len() && token_byte(b, t, p + 1) != 0x5d {
                lemma_elements_hide_commas(
                    b,
                    t,
                    p + 1,
                    (depth - 1) as nat,
                    nesting + 1,
                    Seq::empty(),
                );
            }
        } else if token_byte(b, t, p) == 0x7b {
            if depth > 0 && p + 1 < t.len() && token_byte(b, t, p + 1) != 0x7d {
                lemma_members_hide_commas(
                    b,
                    t,
                    p + 1,
                    (depth - 1) as nat,
                    nesting + 1,
                    Map::empty(),
                );
            }
        }
    }
}

pub proof fn lemma_elements_hide_commas(
    b: Seq<u8>,
    t: Seq<u32>,
    q: int,
    depth: nat,
    nesting: nat,
    acc: Seq<Json>,
)
    requires
        nesting >= 1,
    ensures
        parse_elements(b, t, q, depth, acc) matches Ok((_, r)) ==> count_commas(b, t, q, nesting)
            == count_commas(b, t, r, (nesting - 1) as nat),
    decreases depth, t.len() - q, 1int,
{
    lemma_value_hides_commas(b, t, q, depth, nesting);
    match parse_value(b, t, q, depth) {
        Err(e) => {},
        Ok((v, r)) => {
            if q < r < t.len() && token_byte(b, t, r) == 0x2c {
                lemma_elements_hide_commas(b, t, r + 1, depth, nesting, acc.push(v));
            }
        },
    }
}

pub proof fn lemma_members_hide_commas(
    b: Seq<u8>,
    t: Seq<u32>,
    q: int,
    depth: nat,
    nesting: nat,
    acc: Map<Seq<char>, Json>,
)
    requires
        nesting >= 1,
    ensures
        parse_members(b, t, q, depth, acc) matches Ok((_, r)) ==> count_commas(b, t, q, nesting)
            == count_commas(b, t, r, (nesting - 1) as nat),
    decreases depth, t.len() - q, 2int,
{
    match member_at(b, t, q, depth) {
        Err(e) => {},
        Ok((member, r)) => {
            lemma_value_hides_commas(b, t, q + 2, depth, nesting);
            assert(count_commas(b, t, q, nesting) == count_commas(b, t, q + 1, nesting));
            assert(count_commas(b, t, q + 1, nesting) == count_commas(b, t, q + 2, nesting));
            if q < r < t.len() && token_byte(b, t, r) == 0x2c {
                lemma_members_hide_commas(
                    b,
                    t,
                    r + 1,
                    depth,
                    nesting,
                    acc.insert(member.0, member.1),
                );
            }
        },
    }
}

pub proof fn lemma_count_along_elements(
    b: Seq<u8>,
    t: Seq<u32>,
    q: int,
    depth: nat,
    acc: Seq<Json>,
)
    ensures
        parse_elements(b, t, q, depth, acc) matches Ok((Json::Array(items), _)) ==> items.len()
            == acc.len() + 1 + count_commas(b, t, q, 0),
        parse_elements(b, t, q, depth, acc) matches Ok((v, _)) ==> v is Array,
    decreases t.len() - q,
{
    lemma_value_hides_commas(b, t, q, depth, 0);
    match parse_value(b, t, q, depth) {
        Err(e) => {},
        Ok((v, r)) => {
            if q < r < t.len() && token_byte(b, t, r) == 0x2c {
                lemma_count_along_elements(b, t, r + 1, depth, acc.push(v));
            }
        },
    }
}

/// The count of elements is right: an array that parses has as many
/// elements as the scan of the index counts for it.
pub proof fn lemma_count_elements_of_array(b: Seq<u8>, t: Seq<u32>, p: int, depth: nat)
    requires
        0 <= p < t.len(),
        token_byte(b, t, p) == 0x5b,
    ensures
        parse_value(b, t, p, depth) matches Ok((Json::Array(items), _)) ==> items.len()
            == count_elements(b, t, p),
        parse_value(b, t, p, depth) matches Ok((v, _)) ==> v is Array,
{
    if depth > 0 && p + 1 < t.len() && token_byte(b, t, p + 1) != 0x5d {
        lemma_count_along_elements(b, t, p + 1, (depth - 1) as nat, Seq::empty());
        if token_byte(b, t, p + 1) == 0x7d {
            assert(parse_value(b, t, p + 1, (depth - 1) as nat) is Err);
        }
    }
}

} // verus!
