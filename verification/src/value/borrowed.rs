//! The tree whose strings are views into the buffer, and the builder
//! that walks the structural index to make it. A string is held as the
//! range of the buffer that its decoded bytes take, so a tree is read
//! together with the buffer that it was parsed from.

use vstd::prelude::*;
use vstd::utf8::{
    decode_utf8, decode_utf8_encode_utf8, encode_utf8, encode_utf8_decode_utf8, valid_utf8,
};
use crate::deserializer::{
    kept_below, lemma_kept_below_twice, only_strings_differ, Deserializer,
};
use crate::document::{
    error_at, lemma_member_at_advances, lemma_parse_value_advances, limit_of, member_at,
    parse_elements, parse_members, parse_root, parse_value, token_byte, Json,
};
use crate::error::{Error, ErrorType};
use crate::numberparse::{Float, Number};
use crate::stage1::structurals;
use crate::stringparse::{string_at, QUOTE, SHORT_WINDOW};

verus! {

/// The bytes `[start, start + len)` of the buffer.
#[derive(Debug, PartialEq, Eq, Clone, Copy)]
pub struct Span {
    pub start: usize,
    pub len: usize,
}

/// A JSON value whose strings lie in the buffer.
#[derive(Debug, PartialEq)]
pub enum Value {
    Null,
    Bool(bool),
    I64(i64),
    F64(Float),
    String(Span),
    Array(Vec<Value>),
    /// The members in source order. Of two members with one key the
    /// later counts.
    Object(Vec<(Span, Value)>),
}

/// The bytes of `buf` that `s` takes.
pub open spec fn span_bytes(s: Span, buf: Seq<u8>) -> Seq<u8> {
    buf.subrange(s.start as int, s.start + s.len)
}

/// The text that `s` holds in `buf`.
pub open spec fn span_text(s: Span, buf: Seq<u8>) -> Seq<char> {
    decode_utf8(span_bytes(s, buf))
}

/// The mapping that a list of members makes when it is read with
/// `buf`: a later member replaces an earlier one with the same key.
pub open spec fn members_model(m: Seq<(Span, Value)>, buf: Seq<u8>) -> Map<Seq<char>, Json>
    decreases m,
{
    if m.len() == 0 {
        Map::empty()
    } else {
        members_model(m.drop_last(), buf).insert(
            span_text(m.last().0, buf),
            m.last().1.model(buf),
        )
    }
}

/// The range lies below `hi` and holds UTF-8 in `buf`.
pub open spec fn span_sound(s: Span, buf: Seq<u8>, hi: int) -> bool {
    s.start + s.len <= hi && valid_utf8(span_bytes(s, buf))
}

/// Every string of the members lies below `hi` and holds UTF-8.
pub open spec fn members_bounded(m: Seq<(Span, Value)>, buf: Seq<u8>, hi: int) -> bool {
    forall|i: int|
        0 <= i < m.len() ==> span_sound((#[trigger] m[i]).0, buf, hi) && m[i].1.bounded(buf, hi)
}

impl Value {
    /// The value that this tree stands for when it is read with `buf`.
    pub open spec fn model(self, buf: Seq<u8>) -> Json
        decreases self,
    {
        match self {
            Value::Null => Json::Null,
            Value::Bool(b) => Json::Bool(b),
            Value::I64(i) => Json::I64(i),
            Value::F64(f) => Json::F64(f@),
            Value::String(s) => Json::String(span_text(s, buf)),
            Value::Array(a) => Json::Array(
                Seq::new(
                    a@.len(),
                    |i: int|
                        if 0 <= i < a@.len() {
                            a@[i].model(buf)
                        } else {
                            Json::Null
                        },
                ),
            ),
            Value::Object(m) => Json::Object(members_model(m@, buf)),
        }
    }

    /// Every string of this tree lies below `hi` in `buf` and holds
    /// UTF-8 there.
    pub open spec fn bounded(self, buf: Seq<u8>, hi: int) -> bool
        decreases self,
    {
        match self {
            Value::String(s) => span_sound(s, buf, hi),
            Value::Array(a) => forall|i: int|
                0 <= i < a@.len() ==> (#[trigger] a@[i]).bounded(buf, hi),
            Value::Object(m) => forall|i: int|
                0 <= i < m@.len() ==> span_sound((#[trigger] m@[i]).0, buf, hi) && m@[i].1.bounded(
                    buf,
                    hi,
                ),
            _ => true,
        }
    }

    pub fn as_array(&self) -> (r: Option<&Vec<Value>>)
        ensures
            match self {
                Value::Array(a) => r == Some(a),
                _ => r is None,
            },
    {
        match self {
            Value::Array(a) => Some(a),
            _ => None,
        }
    }

    /// The members in source order, if this is an object.
    pub fn as_object(&self) -> (r: Option<&Vec<(Span, Value)>>)
        ensures
            match self {
                Value::Object(m) => r == Some(m),
                _ => r is None,
            },
    {
        match self {
            Value::Object(m) => Some(m),
            _ => None,
        }
    }

    pub fn is_null(&self) -> (r: bool)
        ensures
            r == (self is Null),
    {
        match self {
            Value::Null => true,
            _ => false,
        }
    }

    pub fn as_bool(&self) -> (r: Option<bool>)
        ensures
            match self {
                Value::Bool(b) => r == Some(*b),
                _ => r is None,
            },
    {
        match self {
            Value::Bool(b) => Some(*b),
            _ => None,
        }
    }

    pub fn as_i64(&self) -> (r: Option<i64>)
        ensures
            match self {
                Value::I64(i) => r == Some(*i),
                _ => r is None,
            },
    {
        match self {
            Value::I64(i) => Some(*i),
            _ => None,
        }
    }

    /// The literal, if this is a number that is no integer.
    pub fn as_f64(&self) -> (r: Option<&Float>)
        ensures
            match self {
                Value::F64(f) => r == Some(f),
                _ => r is None,
            },
    {
        match self {
            Value::F64(f) => Some(f),
            _ => None,
        }
    }

    /// The text of the string, if this is one, read with `buf`.
    pub fn as_str<'a>(&self, buf: &'a [u8]) -> (r: Option<&'a str>)
        requires
            self.bounded(buf@, buf@.len() as int),
        ensures
            match self {
                Value::String(s) => r matches Some(t) && t@ == span_text(*s, buf@),
                _ => r is None,
            },
    {
        match self {
            Value::String(s) => s.text(buf),
            _ => None,
        }
    }

    /// The value of the member `key`, if this is an object that has
    /// one; of several members with that key the last counts. The
    /// tree is read with `buf`.
    pub fn get(&self, buf: &[u8], key: &str) -> (r: Option<&Value>)
        requires
            self.bounded(buf@, buf@.len() as int),
        ensures
            match self {
                Value::Object(m) => {
                    &&& r is Some <==> members_model(m@, buf@).contains_key(key@)
                    &&& r matches Some(v) ==> v.model(buf@) == members_model(m@, buf@)[key@]
                },
                _ => r is None,
            },
    {
        match self {
            Value::Object(m) => {
                let wanted = key.as_bytes();
                let mut i: usize = m.len();
                while i > 0
                    invariant
                        i <= m@.len(),
                        *self == Value::Object(*m),
                        self.bounded(buf@, buf@.len() as int),
                        wanted@ == encode_utf8(key@),
                        forall|j: int| i <= j < m@.len() ==> span_text(m@[j].0, buf@) != key@,
                    decreases i,
                {
                    i = i - 1;
                    assert(span_sound(m@[i as int].0, buf@, buf@.len() as int));
                    let same = m[i].0.holds(buf, wanted);
                    proof {
                        let bytes = span_bytes(m@[i as int].0, buf@);
                        encode_utf8_decode_utf8(key@);
                        decode_utf8_encode_utf8(bytes);
                    }
                    if same {
                        proof {
                            lemma_member_counts(m@, buf@, i as int);
                        }
                        return Some(&m[i].1);
                    }
                }
                proof {
                    lemma_member_absent(m@, buf@, key@);
                }
                None
            },
            _ => None,
        }
    }

    /// The range of the string, if this is one.
    pub fn as_span(&self) -> (r: Option<Span>)
        ensures
            match self {
                Value::String(s) => r == Some(*s),
                _ => r is None,
            },
    {
        match self {
            Value::String(s) => Some(*s),
            _ => None,
        }
    }

    pub fn is_array(&self) -> (r: bool)
        ensures
            r == (self is Array),
    {
        match self {
            Value::Array(_) => true,
            _ => false,
        }
    }

    pub fn is_object(&self) -> (r: bool)
        ensures
            r == (self is Object),
    {
        match self {
            Value::Object(_) => true,
            _ => false,
        }
    }
}

impl Span {
    /// Whether this range of `buf` holds exactly `bytes`.
    pub fn holds(&self, buf: &[u8], bytes: &[u8]) -> (r: bool)
        requires
            self.start + self.len <= buf@.len(),
        ensures
            r == (span_bytes(*self, buf@) == bytes@),
    {
        proof {
            vstd::slice::axiom_spec_len(buf);
        }
        if bytes.len() != self.len {
            return false;
        }
        let mut i: usize = 0;
        while i < self.len
            invariant
                i <= self.len == bytes@.len(),
                self.start + self.len <= buf@.len() <= usize::MAX,
                forall|j: int| 0 <= j < i ==> buf@[self.start + j] == bytes@[j],
            decreases self.len - i,
        {
            if buf[self.start + i] != bytes[i] {
                assert(span_bytes(*self, buf@)[i as int] != bytes@[i as int]);
                return false;
            }
            i = i + 1;
        }
        assert(span_bytes(*self, buf@) =~= bytes@);
        true
    }

    /// The text that this range holds in `buf`, if the range lies in
    /// `buf` and holds UTF-8.
    pub fn text<'a>(&self, buf: &'a [u8]) -> (r: Option<&'a str>)
        ensures
            r is Some <==> self.start + self.len <= buf@.len() && valid_utf8(span_bytes(*self, buf@)),
            r matches Some(s) ==> s@ == span_text(*self, buf@),
    {
        let n = buf.len();
        if self.start > n || self.len > n - self.start {
            return None;
        }
        crate::stringparse::str_from_utf8(
            vstd::slice::slice_subrange(buf, self.start, self.start + self.len),
        )
    }
}

/// A tree that lies below `hi` lies below every larger bound.
pub proof fn lemma_bounded_grows(v: Value, buf: Seq<u8>, hi: int, more: int)
    requires
        v.bounded(buf, hi),
        hi <= more,
    ensures
        v.bounded(buf, more),
    decreases v,
{
    match v {
        Value::Array(a) => {
            assert forall|i: int| 0 <= i < a@.len() implies (#[trigger] a@[i]).bounded(
                buf,
                more,
            ) by {
                lemma_bounded_grows(a@[i], buf, hi, more);
            }
        },
        Value::Object(m) => {
            assert forall|i: int| 0 <= i < m@.len() implies span_sound(
                (#[trigger] m@[i]).0,
                buf,
                more,
            ) && m@[i].1.bounded(buf, more) by {
                lemma_bounded_grows(m@[i].1, buf, hi, more);
            }
        },
        _ => {},
    }
}

/// A tree reads the same with two buffers that agree below its bound.
pub proof fn lemma_model_stable(v: Value, a: Seq<u8>, b: Seq<u8>, hi: int)
    requires
        v.bounded(a, hi),
        kept_below(b, a, hi),
        hi <= a.len(),
    ensures
        v.model(a) == v.model(b),
        v.bounded(b, hi),
    decreases v,
{
    match v {
        Value::String(s) => {
            assert(span_bytes(s, a) =~= span_bytes(s, b));
            assert(v.model(a) == Json::String(span_text(s, a)));
            assert(v.model(b) == Json::String(span_text(s, b)));
        },
        Value::Array(x) => {
            assert forall|i: int| 0 <= i < x@.len() implies x@[i].model(a) == x@[i].model(b) && (
            #[trigger] x@[i]).bounded(b, hi) by {
                lemma_model_stable(x@[i], a, b, hi);
            }
            assert(v.model(a)->Array_0 =~= v.model(b)->Array_0);
        },
        Value::Object(m) => {
            lemma_members_stable(m@, a, b, hi);
        },
        _ => {},
    }
}

/// Members read the same with two buffers that agree below their
/// bound.
pub proof fn lemma_members_stable(m: Seq<(Span, Value)>, a: Seq<u8>, b: Seq<u8>, hi: int)
    requires
        members_bounded(m, a, hi),
        kept_below(b, a, hi),
        hi <= a.len(),
    ensures
        members_model(m, a) == members_model(m, b),
        members_bounded(m, b, hi),
    decreases m,
{
    if m.len() > 0 {
        let last = m.last();
        let front = m.drop_last();
        assert(m[m.len() - 1] == last);
        assert forall|i: int| 0 <= i < front.len() implies span_sound(
            (#[trigger] front[i]).0,
            a,
            hi,
        ) && front[i].1.bounded(a, hi) by {
            assert(front[i] == m[i]);
        }
        lemma_members_stable(front, a, b, hi);
        lemma_model_stable(last.1, a, b, hi);
        assert(span_bytes(last.0, a) =~= span_bytes(last.0, b));
        assert forall|i: int| 0 <= i < m.len() implies span_sound((#[trigger] m[i]).0, b, hi)
            && m[i].1.bounded(b, hi) by {
            if i < front.len() {
                assert(front[i] == m[i]);
            }
        }
    }
}

/// The trees `res` read with `buf` as the values `acc`, and lie
/// below `bound`.
pub open spec fn elements_hold(res: Seq<Value>, acc: Seq<Json>, buf: Seq<u8>, bound: int) -> bool {
    &&& acc.len() == res.len()
    &&& bound <= buf.len()
    &&& forall|i: int|
        0 <= i < res.len() ==> acc[i] == (#[trigger] res[i]).model(buf) && res[i].bounded(buf, bound)
}

proof fn lemma_elements_carry(
    res: Seq<Value>,
    acc: Seq<Json>,
    a: Seq<u8>,
    b: Seq<u8>,
    bound: int,
    more: int,
)
    requires
        elements_hold(res, acc, a, bound),
        kept_below(b, a, bound),
        bound <= more <= b.len(),
    ensures
        elements_hold(res, acc, b, more),
{
    assert forall|i: int| 0 <= i < res.len() implies acc[i] == (#[trigger] res[i]).model(b)
        && res[i].bounded(b, more) by {
        lemma_model_stable(res[i], a, b, bound);
        lemma_bounded_grows(res[i], b, bound, more);
    }
}

proof fn lemma_elements_push(res: Seq<Value>, acc: Seq<Json>, buf: Seq<u8>, bound: int, v: Value)
    requires
        elements_hold(res, acc, buf, bound),
        v.bounded(buf, bound),
    ensures
        elements_hold(res.push(v), acc.push(v.model(buf)), buf, bound),
{
}

proof fn lemma_elements_model(res: Vec<Value>, acc: Seq<Json>, buf: Seq<u8>, bound: int)
    requires
        elements_hold(res@, acc, buf, bound),
    ensures
        Value::Array(res).model(buf) == Json::Array(acc),
        Value::Array(res).bounded(buf, bound),
{
    assert(Value::Array(res).model(buf)->Array_0 =~= acc);
}

proof fn lemma_members_carry(
    res: Seq<(Span, Value)>,
    a: Seq<u8>,
    b: Seq<u8>,
    bound: int,
    more: int,
)
    requires
        members_bounded(res, a, bound),
        kept_below(b, a, bound),
        bound <= more <= b.len(),
    ensures
        members_bounded(res, b, more),
        members_model(res, a) == members_model(res, b),
{
    lemma_members_stable(res, a, b, bound);
    assert forall|i: int| 0 <= i < res.len() implies span_sound((#[trigger] res[i]).0, b, more)
        && res[i].1.bounded(b, more) by {
        lemma_bounded_grows(res[i].1, b, bound, more);
    }
}

proof fn lemma_members_push(
    res: Seq<(Span, Value)>,
    buf: Seq<u8>,
    bound: int,
    key: Span,
    v: Value,
)
    requires
        members_bounded(res, buf, bound),
        span_sound(key, buf, bound),
        v.bounded(buf, bound),
    ensures
        members_bounded(res.push((key, v)), buf, bound),
        members_model(res.push((key, v)), buf) == members_model(res, buf).insert(
            span_text(key, buf),
            v.model(buf),
        ),
{
    assert(res.push((key, v)).drop_last() =~= res);
}

/// The member at `i` is the one that counts for its key if no later
/// member has that key.
pub proof fn lemma_member_counts(m: Seq<(Span, Value)>, buf: Seq<u8>, i: int)
    requires
        0 <= i < m.len(),
        forall|j: int| i < j < m.len() ==> span_text(m[j].0, buf) != span_text(m[i].0, buf),
    ensures
        members_model(m, buf).contains_key(span_text(m[i].0, buf)),
        members_model(m, buf)[span_text(m[i].0, buf)] == m[i].1.model(buf),
    decreases m.len(),
{
    if i < m.len() - 1 {
        let front = m.drop_last();
        assert(front[i] == m[i]);
        assert forall|j: int| i < j < front.len() implies span_text(front[j].0, buf) != span_text(
            front[i].0,
            buf,
        ) by {
            assert(front[j] == m[j]);
        }
        lemma_member_counts(front, buf, i);
        assert(span_text(m.last().0, buf) != span_text(m[i].0, buf));
    }
}

/// A key that no member has is no key of the mapping.
pub proof fn lemma_member_absent(m: Seq<(Span, Value)>, buf: Seq<u8>, key: Seq<char>)
    requires
        forall|j: int| 0 <= j < m.len() ==> span_text(m[j].0, buf) != key,
    ensures
        !members_model(m, buf).contains_key(key),
    decreases m.len(),
{
    if m.len() > 0 {
        let front = m.drop_last();
        assert forall|j: int| 0 <= j < front.len() implies span_text(front[j].0, buf) != key by {
            assert(front[j] == m[j]);
        }
        lemma_member_absent(front, buf, key);
        assert(span_text(m.last().0, buf) != key);
    }
}

impl<'de> Deserializer<'de> {
    /// Parses the document from its first token on. No token may
    /// follow the root value.
    pub fn to_value_borrowed_root(&mut self) -> (r: Result<Value, Error>)
        requires
            old(self).wf(),
            old(self).idx == 0,
            old(self).depth == 0,
        ensures
            final(self).continues(old(self)),
            final(final(self).input)@ == final(old(self).input)@,
            match parse_root(old(self).source@, old(self).tokens(), old(self).depth_limit as nat) {
                Ok(j) => r matches Ok(v) && v.model(final(self).input@) == j && v.bounded(
                    final(self).input@,
                    final(self).input@.len() as int,
                ),
                Err(e) => r == Err::<Value, Error>(e),
            },
    {
        let v = match self.to_value_borrowed() {
            Ok(v) => v,
            Err(e) => {
                return Err(e);
            },
        };
        if self.idx < self.structural_indexes.len() {
            self.skip();
            return Err(self.error(ErrorType::TrailingData));
        }
        Ok(v)
    }

    /// Parses the value that starts at the next token.
    pub fn to_value_borrowed(&mut self) -> (r: Result<Value, Error>)
        requires
            old(self).wf(),
        ensures
            final(self).continues(old(self)),
            final(final(self).input)@ == final(old(self).input)@,
            kept_below(final(self).input@, old(self).input@, old(self).frontier()),
            match parse_value(
                old(self).source@,
                old(self).tokens(),
                old(self).idx as int,
                old(self).budget(),
            ) {
                Ok((j, next)) => {
                    &&& r matches Ok(v) && v.model(final(self).input@) == j && v.bounded(
                        final(self).input@,
                        final(self).frontier(),
                    )
                    &&& final(self).idx == next
                    &&& final(self).wf()
                    &&& final(self).depth == old(self).depth
                },
                Err(e) => r == Err::<Value, Error>(e),
            },
        decreases old(self).budget(), 1int,
    {
        let c = match self.next() {
            Ok(c) => c,
            Err(e) => {
                return Err(e);
            },
        };
        if c == 0x5b {
            self.parse_array_borrowed()
        } else if c == 0x7b {
            self.parse_map_borrowed()
        } else if c == QUOTE {
            match self.parse_span() {
                Ok(s) => Ok(Value::String(s)),
                Err(e) => Err(e),
            }
        } else if c == 0x6e {
            match self.parse_null_() {
                Ok(_) => Ok(Value::Null),
                Err(e) => Err(e),
            }
        } else if c == 0x74 {
            match self.parse_true_() {
                Ok(b) => Ok(Value::Bool(b)),
                Err(e) => Err(e),
            }
        } else if c == 0x66 {
            match self.parse_false_() {
                Ok(b) => Ok(Value::Bool(b)),
                Err(e) => Err(e),
            }
        } else if c == 0x2d || (0x30 <= c && c <= 0x39) {
            match self.parse_number_(c == 0x2d) {
                Ok(Number::I64(i)) => Ok(Value::I64(i)),
                Ok(Number::F64(f)) => Ok(Value::F64(f)),
                Err(e) => Err(e),
            }
        } else {
            Err(self.error(ErrorType::UnexpectedCharacter))
        }
    }

    /// Parses the string that the current token opens, in place, and
    /// returns the range that its decoded bytes take.
    pub fn parse_span(&mut self) -> (r: Result<Span, Error>)
        requires
            old(self).fresh(),
            token_byte(old(self).source@, old(self).tokens(), old(self).current()) == QUOTE,
        ensures
            final(self).continues(old(self)),
            final(final(self).input)@ == final(old(self).input)@,
            final(self).idx == old(self).idx,
            final(self).depth == old(self).depth,
            kept_below(
                final(self).input@,
                old(self).input@,
                old(self).tokens()[old(self).current()] + 1,
            ),
            match string_at(
                old(self).source@,
                old(self).tokens()[old(self).current()] as int,
                limit_of(old(self).source@, old(self).tokens(), old(self).current()),
            ) {
                Ok(content) => {
                    &&& r matches Ok(s)
                    &&& span_bytes(s, final(self).input@) == content
                    &&& span_sound(s, final(self).input@, final(self).frontier())
                    &&& final(self).wf()
                },
                Err(e) => r == Err::<Span, Error>(
                    error_at(old(self).source@, old(self).tokens(), old(self).current(), e),
                ),
            },
    {
        let k = self.structural_indexes[self.idx - 1] as usize;
        let next = if self.idx < self.structural_indexes.len() {
            self.structural_indexes[self.idx] as usize
        } else {
            self.input.len()
        };
        let ghost content = string_at(self.source@, k as int, next as int);
        let r = if next - k <= SHORT_WINDOW {
            self.parse_short_str_()
        } else {
            self.parse_str_()
        };
        match r {
            Ok(s) => {
                proof {
                    decode_utf8_encode_utf8(content->Ok_0);
                }
                Ok(Span { start: k + 1, len: s.len() })
            },
            Err(e) => Err(e),
        }
    }

    /// Parses the array whose opening bracket is the current token.
    pub fn parse_array_borrowed(&mut self) -> (r: Result<Value, Error>)
        requires
            old(self).fresh(),
            token_byte(old(self).source@, old(self).tokens(), old(self).current()) == 0x5b,
        ensures
            final(self).continues(old(self)),
            final(final(self).input)@ == final(old(self).input)@,
            kept_below(final(self).input@, old(self).input@, old(self).frontier()),
            match parse_value(
                old(self).source@,
                old(self).tokens(),
                old(self).current(),
                old(self).budget(),
            ) {
                Ok((j, next)) => {
                    &&& r matches Ok(v) && v.model(final(self).input@) == j && v.bounded(
                        final(self).input@,
                        final(self).frontier(),
                    )
                    &&& final(self).idx == next
                    &&& final(self).wf()
                    &&& final(self).depth == old(self).depth
                },
                Err(e) => r == Err::<Value, Error>(e),
            },
        decreases old(self).budget(), 0int,
    {
        if self.depth >= self.depth_limit {
            return Err(self.error(ErrorType::UnexpectedCharacter));
        }
        let es = self.count_elements();
        let first = match self.peek() {
            Ok(c) => c,
            Err(e) => {
                return Err(e);
            },
        };
        if first == 0x5d {
            self.skip();
            let res: Vec<Value> = Vec::new();
            assert(Value::Array(res).model(self.input@) == Json::Array(Seq::empty())) by {
                assert(Value::Array(res).model(self.input@)->Array_0 =~= Seq::empty());
            }
            return Ok(Value::Array(res));
        }
        let mut res: Vec<Value> = Vec::with_capacity(es);
        let ghost mut acc: Seq<Json> = Seq::empty();
        let ghost goal = parse_value(
            self.source@,
            self.tokens(),
            self.current(),
            self.budget(),
        );
        self.depth = self.depth + 1;
        loop
            invariant
                self.wf(),
                self.follows(old(self)),
                final(self.input)@ == final(old(self).input)@,
                kept_below(self.input@, old(self).input@, old(self).frontier()),
                old(self).frontier() <= self.frontier(),
                self.depth == old(self).depth + 1,
                elements_hold(res@, acc, self.input@, self.frontier()),
                parse_elements(self.source@, self.tokens(), self.idx as int, self.budget(), acc)
                    == goal,
                goal == parse_value(
                    old(self).source@,
                    old(self).tokens(),
                    old(self).current(),
                    old(self).budget(),
                ),
            decreases self.tokens().len() - self.idx,
        {
            proof {
                lemma_parse_value_advances(
                    self.source@,
                    self.tokens(),
                    self.idx as int,
                    self.budget(),
                );
            }
            let ghost before = self.input@;
            let ghost bound = self.frontier();
            let v = match self.to_value_borrowed() {
                Ok(v) => v,
                Err(e) => {
                    return Err(e);
                },
            };
            proof {
                lemma_elements_carry(res@, acc, before, self.input@, bound, self.frontier());
                lemma_elements_push(res@, acc, self.input@, self.frontier(), v);
                acc = acc.push(v.model(self.input@));
            }
            res.push(v);
            let ghost bound = self.frontier();
            let c = match self.next() {
                Ok(c) => c,
                Err(e) => {
                    return Err(e);
                },
            };
            proof {
                lemma_elements_carry(res@, acc, self.input@, self.input@, bound, self.frontier());
            }
            if c == 0x5d {
                self.depth = self.depth - 1;
                proof {
                    lemma_elements_model(res, acc, self.input@, self.frontier());
                }
                return Ok(Value::Array(res));
            } else if c == 0x7d {
                return Err(self.error(ErrorType::ExpectedArrayClose));
            } else if c != 0x2c {
                return Err(self.error(ErrorType::ExpectedComma));
            }
        }
    }

    /// Parses the object whose opening brace is the current token.
    pub fn parse_map_borrowed(&mut self) -> (r: Result<Value, Error>)
        requires
            old(self).fresh(),
            token_byte(old(self).source@, old(self).tokens(), old(self).current()) == 0x7b,
        ensures
            final(self).continues(old(self)),
            final(final(self).input)@ == final(old(self).input)@,
            kept_below(final(self).input@, old(self).input@, old(self).frontier()),
            match parse_value(
                old(self).source@,
                old(self).tokens(),
                old(self).current(),
                old(self).budget(),
            ) {
                Ok((j, next)) => {
                    &&& r matches Ok(v) && v.model(final(self).input@) == j && v.bounded(
                        final(self).input@,
                        final(self).frontier(),
                    )
                    &&& final(self).idx == next
                    &&& final(self).wf()
                    &&& final(self).depth == old(self).depth
                },
                Err(e) => r == Err::<Value, Error>(e),
            },
        decreases old(self).budget(), 0int,
    {
        if self.depth >= self.depth_limit {
            return Err(self.error(ErrorType::UnexpectedCharacter));
        }
        let es = self.count_elements();
        let first = match self.peek() {
            Ok(c) => c,
            Err(e) => {
                return Err(e);
            },
        };
        if first == 0x7d {
            self.skip();
            let res: Vec<(Span, Value)> = Vec::new();
            assert(members_model(res@, self.input@) == (Map::<Seq<char>, Json>::empty()));
            return Ok(Value::Object(res));
        }
        let mut res: Vec<(Span, Value)> = Vec::with_capacity(es);
        let ghost goal = parse_value(
            self.source@,
            self.tokens(),
            self.current(),
            self.budget(),
        );
        self.depth = self.depth + 1;
        loop
            invariant
                self.wf(),
                self.follows(old(self)),
                final(self.input)@ == final(old(self).input)@,
                kept_below(self.input@, old(self).input@, old(self).frontier()),
                old(self).frontier() <= self.frontier(),
                self.depth == old(self).depth + 1,
                members_bounded(res@, self.input@, self.frontier()),
                parse_members(
                    self.source@,
                    self.tokens(),
                    self.idx as int,
                    self.budget(),
                    members_model(res@, self.input@),
                ) == goal,
                goal == parse_value(
                    old(self).source@,
                    old(self).tokens(),
                    old(self).current(),
                    old(self).budget(),
                ),
            decreases self.tokens().len() - self.idx,
        {
            proof {
                lemma_member_at_advances(
                    self.source@,
                    self.tokens(),
                    self.idx as int,
                    self.budget(),
                );
            }
            let ghost before = self.input@;
            let ghost bound = self.frontier();
            let (key, v) = match self.parse_member_borrowed() {
                Ok(member) => member,
                Err(e) => {
                    return Err(e);
                },
            };
            proof {
                lemma_members_carry(res@, before, self.input@, bound, self.frontier());
                lemma_members_push(res@, self.input@, self.frontier(), key, v);
            }
            res.push((key, v));
            let ghost bound = self.frontier();
            let c = match self.next() {
                Ok(c) => c,
                Err(e) => {
                    return Err(e);
                },
            };
            proof {
                lemma_members_carry(res@, self.input@, self.input@, bound, self.frontier());
            }
            if c == 0x7d {
                self.depth = self.depth - 1;
                return Ok(Value::Object(res));
            } else if c == 0x5d {
                return Err(self.error(ErrorType::ExpectedObjectClose));
            } else if c != 0x2c {
                return Err(self.error(ErrorType::ExpectedComma));
            }
        }
    }

    /// Parses the member whose key is the next token: the key, the
    /// colon and the value.
    pub fn parse_member_borrowed(&mut self) -> (r: Result<(Span, Value), Error>)
        requires
            old(self).wf(),
        ensures
            final(self).continues(old(self)),
            final(final(self).input)@ == final(old(self).input)@,
            kept_below(final(self).input@, old(self).input@, old(self).frontier()),
            match member_at(
                old(self).source@,
                old(self).tokens(),
                old(self).idx as int,
                old(self).budget(),
            ) {
                Ok((member, next)) => {
                    &&& r matches Ok((key, v))
                    &&& span_text(key, final(self).input@) == member.0
                    &&& v.model(final(self).input@) == member.1
                    &&& span_sound(key, final(self).input@, final(self).frontier())
                    &&& v.bounded(final(self).input@, final(self).frontier())
                    &&& final(self).idx == next
                    &&& final(self).wf()
                    &&& final(self).depth == old(self).depth
                },
                Err(e) => r == Err::<(Span, Value), Error>(e),
            },
        decreases old(self).budget(), 2int,
    {
        let c = match self.next() {
            Ok(c) => c,
            Err(e) => {
                return Err(e);
            },
        };
        if c != QUOTE {
            return Err(self.error(ErrorType::ExpectedString));
        }
        let key = match self.parse_span() {
            Ok(s) => s,
            Err(e) => {
                return Err(e);
            },
        };
        let ghost key_bound = self.frontier();
        let c = match self.next() {
            Ok(c) => c,
            Err(e) => {
                return Err(e);
            },
        };
        if c != 0x3a {
            return Err(self.error(ErrorType::ExpectedColon));
        }
        let ghost middle = self.input@;
        let ghost middle_bound = self.frontier();
        proof {
            lemma_parse_value_advances(
                self.source@,
                self.tokens(),
                self.idx as int,
                self.budget(),
            );
            lemma_kept_below_twice(
                middle,
                middle,
                old(self).input@,
                old(self).frontier(),
                old(self).frontier(),
            );
        }
        let r = self.to_value_borrowed();
        proof {
            lemma_kept_below_twice(
                self.input@,
                middle,
                old(self).input@,
                old(self).frontier(),
                middle_bound,
            );
        }
        let v = match r {
            Ok(v) => v,
            Err(e) => {
                return Err(e);
            },
        };
        proof {
            assert(key_bound <= middle_bound <= self.frontier());
            assert(span_bytes(key, middle) =~= span_bytes(key, self.input@));
        }
        Ok((key, v))
    }
}

/// Parses the document in `s` into a tree whose strings are ranges of
/// `s`. The strings of the document are decoded in place, so the tree
/// is read with the buffer as this call leaves it; the buffer needs no
/// padding.
pub fn to_value(s: &mut [u8]) -> (r: Result<Value, Error>)
    requires
        old(s)@.len() <= u32::MAX,
    ensures
        crate::value::borrowed_outcome(old(s)@, final(s)@, r),
        only_strings_differ(final(s)@, old(s)@, structurals(old(s)@)),
{
    proof {
        crate::deserializer::lemma_nothing_differs(s@, structurals(s@));
        crate::grammar::lemma_document_meaning(
            s@,
            crate::document::DEFAULT_DEPTH_LIMIT as nat,
        );
    }
    let mut de = match Deserializer::from_slice(s) {
        Ok(de) => de,
        Err(e) => {
            return Err(e);
        },
    };
    de.to_value_borrowed_root()
}

} // verus!
