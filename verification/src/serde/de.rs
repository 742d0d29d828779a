//! The decisions of a typed deserializer: what the next token starts,
//! and what separates the elements of an array and the members of an
//! object.

use vstd::prelude::*;
use crate::deserializer::Deserializer;
use crate::document::{
    count_elements, error_at, member_at, parse_elements, parse_members, parse_scalar, parse_value,
    token_byte, Json,
};
use crate::error::{Error, ErrorType};
use crate::numberparse::{Float, Number};
use crate::stringparse::{QUOTE, SHORT_WINDOW};

verus! {

/// What the next token starts.
#[derive(Debug, PartialEq)]
pub enum Event<'a> {
    /// The literal `null`.
    Unit,
    Bool(bool),
    I64(i64),
    F64(Float),
    /// A string, decoded in the buffer.
    Str(&'a str),
    /// An array; its opening bracket was consumed.
    Array,
    /// An object; its opening brace was consumed.
    Object,
}

/// What a token starts: a scalar with its value, or a container.
pub enum Heading {
    Scalar(Json),
    Array,
    Object,
}

impl<'a> View for Event<'a> {
    type V = Heading;

    open spec fn view(&self) -> Heading {
        match self {
            Event::Unit => Heading::Scalar(Json::Null),
            Event::Bool(b) => Heading::Scalar(Json::Bool(*b)),
            Event::I64(i) => Heading::Scalar(Json::I64(*i)),
            Event::F64(f) => Heading::Scalar(Json::F64(f@)),
            Event::Str(s) => Heading::Scalar(Json::String(s@)),
            Event::Array => Heading::Array,
            Event::Object => Heading::Object,
        }
    }
}

/// What token `p` starts.
pub open spec fn event_at(b: Seq<u8>, t: Seq<u32>, p: int) -> Result<Heading, Error> {
    if p < 0 || p >= t.len() {
        Err(error_at(b, t, t.len() as int, ErrorType::UnexpectedEnd))
    } else if token_byte(b, t, p) == 0x5b {
        Ok(Heading::Array)
    } else if token_byte(b, t, p) == 0x7b {
        Ok(Heading::Object)
    } else {
        match parse_scalar(b, t, p) {
            Ok(v) => Ok(Heading::Scalar(v)),
            Err(e) => Err(e),
        }
    }
}

/// Whether an absent optional stands at token `p`: the literal `null`,
/// which is consumed; any other token is left for the value.
pub open spec fn option_at(b: Seq<u8>, t: Seq<u32>, p: int) -> Result<(bool, int), Error> {
    if p < 0 || p >= t.len() {
        Err(error_at(b, t, t.len() as int, ErrorType::UnexpectedEnd))
    } else if token_byte(b, t, p) == 0x6e {
        match parse_scalar(b, t, p) {
            Ok(_) => Ok((true, p + 1)),
            Err(e) => Err(e),
        }
    } else {
        Ok((false, p))
    }
}

/// The step before an array element, at token `p`: whether an element
/// follows, and the position of the token that is next then.
pub open spec fn seq_step(b: Seq<u8>, t: Seq<u32>, p: int, first: bool) -> Result<(bool, int), Error> {
    if p < 0 || p >= t.len() {
        Err(error_at(b, t, t.len() as int, ErrorType::UnexpectedEnd))
    } else if token_byte(b, t, p) == 0x5d {
        Ok((false, p + 1))
    } else if first {
        Ok((true, p))
    } else if token_byte(b, t, p) == 0x2c {
        Ok((true, p + 1))
    } else if token_byte(b, t, p) == 0x7d {
        Err(error_at(b, t, p, ErrorType::ExpectedArrayClose))
    } else {
        Err(error_at(b, t, p, ErrorType::ExpectedComma))
    }
}

/// The step before an object key, at token `p`: whether a key follows,
/// and the position of the token that is next then.
pub open spec fn key_step(b: Seq<u8>, t: Seq<u32>, p: int, first: bool) -> Result<(bool, int), Error> {
    if p < 0 || p >= t.len() {
        Err(error_at(b, t, t.len() as int, ErrorType::UnexpectedEnd))
    } else if token_byte(b, t, p) == 0x7d {
        Ok((false, p + 1))
    } else if !first && token_byte(b, t, p) == 0x5d {
        Err(error_at(b, t, p, ErrorType::ExpectedObjectClose))
    } else if !first && token_byte(b, t, p) != 0x2c {
        Err(error_at(b, t, p, ErrorType::ExpectedComma))
    } else {
        let q = if first { p } else { p + 1 };
        if q >= t.len() {
            Err(error_at(b, t, t.len() as int, ErrorType::UnexpectedEnd))
        } else if token_byte(b, t, q) == QUOTE {
            Ok((true, q))
        } else {
            Err(error_at(b, t, q, ErrorType::ExpectedString))
        }
    }
}

/// The step before an object value, at token `p`: a colon, which is
/// consumed.
pub open spec fn value_step(b: Seq<u8>, t: Seq<u32>, p: int) -> Result<int, Error> {
    if p < 0 || p >= t.len() {
        Err(error_at(b, t, t.len() as int, ErrorType::UnexpectedEnd))
    } else if token_byte(b, t, p) == 0x3a {
        Ok(p + 1)
    } else {
        Err(error_at(b, t, p, ErrorType::ExpectedColon))
    }
}

impl<'de> Deserializer<'de> {
    /// Consumes the next token and says what it starts. A scalar is
    /// parsed; of a container only the opening token is consumed.
    pub fn deserialize_any(&mut self) -> (r: Result<Event<'_>, Error>)
        requires
            old(self).wf(),
        ensures
            final(self).continues(old(self)),
            final(final(self).input)@ == final(old(self).input)@,
            final(self).depth == old(self).depth,
            match event_at(old(self).source@, old(self).tokens(), old(self).idx as int) {
                Ok(h) => {
                    &&& r matches Ok(ev) && ev@ == h
                    &&& final(self).idx == old(self).idx + 1
                    &&& final(self).wf()
                },
                Err(e) => r == Err::<Event<'_>, Error>(e),
            },
    {
        let c = match self.next() {
            Ok(c) => c,
            Err(e) => {
                return Err(e);
            },
        };
        if c == 0x5b {
            Ok(Event::Array)
        } else if c == 0x7b {
            Ok(Event::Object)
        } else if c == 0x6e {
            match self.parse_null_() {
                Ok(_) => Ok(Event::Unit),
                Err(e) => Err(e),
            }
        } else if c == 0x74 {
            match self.parse_true_() {
                Ok(b) => Ok(Event::Bool(b)),
                Err(e) => Err(e),
            }
        } else if c == 0x66 {
            match self.parse_false_() {
                Ok(b) => Ok(Event::Bool(b)),
                Err(e) => Err(e),
            }
        } else if c == 0x2d || (0x30 <= c && c <= 0x39) {
            match self.parse_number_(c == 0x2d) {
                Ok(Number::I64(n)) => Ok(Event::I64(n)),
                Ok(Number::F64(n)) => Ok(Event::F64(n)),
                Err(e) => Err(e),
            }
        } else if c == QUOTE {
            let next = if self.idx < self.structural_indexes.len() {
                self.structural_indexes[self.idx] as usize
            } else {
                self.input.len()
            };
            let r = if next - self.structural_indexes[self.idx - 1] as usize <= SHORT_WINDOW {
                self.parse_short_str_()
            } else {
                self.parse_str_()
            };
            match r {
                Ok(s) => Ok(Event::Str(s)),
                Err(e) => Err(e),
            }
        } else {
            Err(self.error(ErrorType::UnexpectedCharacter))
        }
    }

    /// Says whether an absent optional is next: `null` is consumed and
    /// reported as absent; anything else is left for the value.
    pub fn deserialize_option(&mut self) -> (r: Result<bool, Error>)
        requires
            old(self).wf(),
        ensures
            final(self).wf(),
            final(self).moved(old(self)),
            final(final(self).input)@ == final(old(self).input)@,
            match option_at(old(self).source@, old(self).tokens(), old(self).idx as int) {
                Ok((absent, next)) => r == Ok::<bool, Error>(absent) && final(self).idx == next,
                Err(e) => r == Err::<bool, Error>(e),
            },
    {
        let c = match self.peek() {
            Ok(c) => c,
            Err(e) => {
                return Err(e);
            },
        };
        if c == 0x6e {
            self.skip();
            match self.parse_null_() {
                Ok(_) => Ok(true),
                Err(e) => Err(e),
            }
        } else {
            Ok(false)
        }
    }
}

/// The walk through the elements of an array or the members of an
/// object: whether the first of them is still to come.
pub struct CommaSeparated {
    pub first: bool,
}

impl CommaSeparated {
    /// The walk through a container of which nothing was read.
    pub fn new() -> (r: CommaSeparated)
        ensures
            r.first,
    {
        CommaSeparated { first: true }
    }

    /// Steps to the next array element. Returns whether there is one;
    /// the closing bracket and the comma between elements are consumed.
    pub fn next_element_seed(&mut self, de: &mut Deserializer) -> (r: Result<bool, Error>)
        requires
            old(de).wf(),
        ensures
            final(de).wf(),
            final(de).moved(old(de)),
            final(final(de).input)@ == final(old(de).input)@,
            match seq_step(old(de).source@, old(de).tokens(), old(de).idx as int, old(self).first) {
                Ok((more, next)) => {
                    &&& r == Ok::<bool, Error>(more)
                    &&& final(de).idx == next
                    &&& final(self).first == (old(self).first && !more)
                },
                Err(e) => r == Err::<bool, Error>(e),
            },
    {
        let c = match de.peek() {
            Ok(c) => c,
            Err(e) => {
                return Err(e);
            },
        };
        if c == 0x5d {
            de.skip();
            Ok(false)
        } else if self.first {
            self.first = false;
            Ok(true)
        } else if c == 0x2c {
            de.skip();
            Ok(true)
        } else if c == 0x7d {
            de.skip();
            Err(de.error(ErrorType::ExpectedArrayClose))
        } else {
            de.skip();
            Err(de.error(ErrorType::ExpectedComma))
        }
    }

    /// The number of elements of the container that was entered last,
    /// as far as the cursor still stands on its opening token.
    pub fn size_hint(&self, de: &Deserializer) -> (r: Option<usize>)
        requires
            de.wf(),
        ensures
            r == (if de.idx > 0 {
                Some(count_elements(de.source@, de.tokens(), de.current()) as usize)
            } else {
                None
            }),
    {
        if de.idx > 0 {
            Some(de.count_elements())
        } else {
            None
        }
    }

    /// Steps to the next object key. Returns whether there is one, and
    /// then leaves the key's token as the next one; the closing brace
    /// and the comma between members are consumed.
    pub fn next_key_seed(&mut self, de: &mut Deserializer) -> (r: Result<bool, Error>)
        requires
            old(de).wf(),
        ensures
            final(de).wf(),
            final(de).moved(old(de)),
            final(final(de).input)@ == final(old(de).input)@,
            match key_step(old(de).source@, old(de).tokens(), old(de).idx as int, old(self).first) {
                Ok((more, next)) => {
                    &&& r == Ok::<bool, Error>(more)
                    &&& final(de).idx == next
                    &&& final(self).first == (old(self).first && !more)
                },
                Err(e) => r == Err::<bool, Error>(e),
            },
    {
        let c = match de.peek() {
            Ok(c) => c,
            Err(e) => {
                return Err(e);
            },
        };
        if c == 0x7d {
            de.skip();
            return Ok(false);
        }
        let key = if self.first {
            c
        } else if c == 0x2c {
            de.skip();
            match de.peek() {
                Ok(c) => c,
                Err(e) => {
                    return Err(e);
                },
            }
        } else if c == 0x5d {
            de.skip();
            return Err(de.error(ErrorType::ExpectedObjectClose));
        } else {
            de.skip();
            return Err(de.error(ErrorType::ExpectedComma));
        };
        if key == QUOTE {
            self.first = false;
            Ok(true)
        } else {
            de.skip();
            Err(de.error(ErrorType::ExpectedString))
        }
    }

    /// Steps to the value of a member: consumes the colon after its key.
    pub fn next_value_seed(&mut self, de: &mut Deserializer) -> (r: Result<(), Error>)
        requires
            old(de).wf(),
        ensures
            final(de).wf(),
            final(de).moved(old(de)),
            final(final(de).input)@ == final(old(de).input)@,
            final(self).first == old(self).first,
            match value_step(old(de).source@, old(de).tokens(), old(de).idx as int) {
                Ok(next) => r == Ok::<(), Error>(()) && final(de).idx == next,
                Err(e) => r == Err::<(), Error>(e),
            },
    {
        let c = match de.next() {
            Ok(c) => c,
            Err(e) => {
                return Err(e);
            },
        };
        if c != 0x3a {
            return Err(de.error(ErrorType::ExpectedColon));
        }
        Ok(())
    }
}

/// The walk through an array is the array: after an element, the
/// step decides as the tree builder does, so that a walk which parses
/// each element where the steps say builds the array that the builder
/// builds, or fails as it fails.
pub proof fn lemma_elements_by_steps(b: Seq<u8>, t: Seq<u32>, q: int, depth: nat, acc: Seq<Json>)
    ensures
        parse_elements(b, t, q, depth, acc) == (match parse_value(b, t, q, depth) {
            Err(e) => Err(e),
            Ok((v, r)) => if !(q < r) {
                Err(error_at(b, t, t.len() as int, ErrorType::UnexpectedEnd))
            } else {
                match seq_step(b, t, r, false) {
                    Err(e) => Err(e),
                    Ok((true, next)) => parse_elements(b, t, next, depth, acc.push(v)),
                    Ok((false, next)) => Ok((Json::Array(acc.push(v)), next)),
                }
            },
        }),
{
}

/// The walk through an object is the object: after a member, the step
/// to the next key decides as the tree builder does.
pub proof fn lemma_members_by_steps(
    b: Seq<u8>,
    t: Seq<u32>,
    q: int,
    depth: nat,
    acc: Map<Seq<char>, Json>,
)
    ensures
        parse_members(b, t, q, depth, acc) == (match member_at(b, t, q, depth) {
            Err(e) => Err(e),
            Ok((member, r)) => if !(q < r) {
                Err(error_at(b, t, t.len() as int, ErrorType::UnexpectedEnd))
            } else {
                match key_step(b, t, r, false) {
                    Err(e) => Err(e),
                    Ok((true, next)) => parse_members(
                        b,
                        t,
                        next,
                        depth,
                        acc.insert(member.0, member.1),
                    ),
                    Ok((false, next)) => Ok((Json::Object(acc.insert(member.0, member.1)), next)),
                }
            },
        }),
{
    match member_at(b, t, q, depth) {
        Err(e) => {},
        Ok((member, r)) => {
            if q < r < t.len() && token_byte(b, t, r) == 0x2c {
                let next = r + 1;
                let rest = acc.insert(member.0, member.1);
                if !(next < t.len() && token_byte(b, t, next) == QUOTE) {
                    assert(member_at(b, t, next, depth) is Err);
                    assert(parse_members(b, t, next, depth, rest) == Err::<(Json, int), Error>(
                        member_at(b, t, next, depth)->Err_0,
                    ));
                }
            }
        },
    }
}

} // verus!
