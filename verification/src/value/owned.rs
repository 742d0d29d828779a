//! The tree that owns its strings, and the builder that walks the
//! structural index to make it.

use vstd::prelude::*;
use crate::deserializer::{only_strings_differ, Deserializer};
use crate::document::{
    lemma_member_at_advances, lemma_parse_value_advances, member_at, parse_elements,
    parse_members, parse_root, parse_value, token_byte, Json,
};
use crate::error::{Error, ErrorType};
use crate::numberparse::{Float, Number};
use crate::stage1::structurals;
use crate::stringparse::{QUOTE, SHORT_WINDOW};

verus! {

/// The members of an object, by key.
#[verifier::external_body]
#[derive(Debug, PartialEq)]
pub struct Object {
    inner: halfbrown::HashMap<String, Value>,
}

/// What an object holds: the value of each member, by its key.
pub uninterp spec fn object_members(o: Object) -> Map<Seq<char>, Json>;

/// The largest capacity that an object is made with.
pub const MAX_PREALLOCATION: usize = 0x10_0000;

/// A JSON value that owns its strings.
#[derive(Debug, PartialEq)]
pub enum Value {
    Null,
    Bool(bool),
    I64(i64),
    F64(Float),
    String(String),
    Array(Vec<Value>),
    Object(Object),
}

impl Value {
    /// The value that this tree stands for.
    pub open spec fn model(self) -> Json
        decreases self,
    {
        match self {
            Value::Null => Json::Null,
            Value::Bool(b) => Json::Bool(b),
            Value::I64(i) => Json::I64(i),
            Value::F64(f) => Json::F64(f@),
            Value::String(s) => Json::String(s@),
            Value::Array(a) => Json::Array(
                Seq::new(
                    a@.len(),
                    |i: int|
                        if 0 <= i < a@.len() {
                            a@[i].model()
                        } else {
                            Json::Null
                        },
                ),
            ),
            Value::Object(o) => Json::Object(object_members(o)),
        }
    }

    pub fn as_array(&self) -> (r: Option<&Vec<Value>>)
        ensures
            match self {
                Value::Array(a) => r == Some(a),
                _ => r is None,
            },
    {
        match self {
            Value::Array(a) => Some(a),
            _ => None,
        }
    }

    pub fn as_object(&self) -> (r: Option<&Object>)
        ensures
            match self {
                Value::Object(o) => r == Some(o),
                _ => r is None,
            },
    {
        match self {
            Value::Object(m) => Some(m),
            _ => None,
        }
    }

    /// The value of the member `k`, if this is an object that has one.
    pub fn get(&self, k: &str) -> (r: Option<&Value>)
        ensures
            match self {
                Value::Object(o) => {
                    &&& r is Some <==> object_members(*o).contains_key(k@)
                    &&& r matches Some(v) ==> v.model() == object_members(*o)[k@]
                },
                _ => r is None,
            },
    {
        match self {
            Value::Object(m) => m.get(k),
            _ => None,
        }
    }

    pub fn is_null(&self) -> (r: bool)
        ensures
            r == (self is Null),
    {
        match self {
            Value::Null => true,
            _ => false,
        }
    }

    pub fn as_bool(&self) -> (r: Option<bool>)
        ensures
            match self {
                Value::Bool(b) => r == Some(*b),
                _ => r is None,
            },
    {
        match self {
            Value::Bool(b) => Some(*b),
            _ => None,
        }
    }

    pub fn as_i64(&self) -> (r: Option<i64>)
        ensures
            match self {
                Value::I64(i) => r == Some(*i),
                _ => r is None,
            },
    {
        match self {
            Value::I64(i) => Some(*i),
            _ => None,
        }
    }

    /// The integer, if this is one that is not negative.
    pub fn as_u64(&self) -> (r: Option<u64>)
        ensures
            match self {
                Value::I64(i) => if *i >= 0 {
                    r == Some(*i as u64)
                } else {
                    r is None
                },
                _ => r is None,
            },
    {
        match self {
            Value::I64(i) => if *i >= 0 {
                Some(*i as u64)
            } else {
                None
            },
            _ => None,
        }
    }

    /// The literal, if this is a number that is no integer.
    pub fn as_f64(&self) -> (r: Option<&Float>)
        ensures
            match self {
                Value::F64(f) => r == Some(f),
                _ => r is None,
            },
    {
        match self {
            Value::F64(f) => Some(f),
            _ => None,
        }
    }

    /// A copy of the string, if this is one.
    pub fn as_string(&self) -> (r: Option<String>)
        ensures
            match self {
                Value::String(s) => r matches Some(c) && c@ == s@,
                _ => r is None,
            },
    {
        match self {
            Value::String(s) => Some(s.clone()),
            _ => None,
        }
    }

    pub fn is_array(&self) -> (r: bool)
        ensures
            r == (self is Array),
    {
        match self {
            Value::Array(_) => true,
            _ => false,
        }
    }

    pub fn is_object(&self) -> (r: bool)
        ensures
            r == (self is Object),
    {
        match self {
            Value::Object(_) => true,
            _ => false,
        }
    }
}

impl Default for Value {
    fn default() -> (r: Value)
        ensures
            r == Value::Null,
    {
        Value::Null
    }
}

/// `halfbrown::HashMap::new`: a map without members.
#[verifier::external_body]
fn map_new() -> (o: Object)
    ensures
        object_members(o) == (Map::<Seq<char>, Json>::empty()),
{
    Object { inner: halfbrown::HashMap::new() }
}

/// `halfbrown::HashMap::with_capacity`: a map without members, with
/// room for `capacity` of them.
#[verifier::external_body]
fn map_with_capacity(capacity: usize) -> (o: Object)
    requires
        capacity <= MAX_PREALLOCATION,
    ensures
        object_members(o) == (Map::<Seq<char>, Json>::empty()),
{
    Object { inner: halfbrown::HashMap::with_capacity(capacity) }
}

/// `halfbrown::HashMap::insert`: the member `key` now has `value`, the
/// other members are as they were; the value that the key had before
/// is returned.
#[verifier::external_body]
fn map_insert(o: &mut Object, key: String, value: Value) -> (r: Option<Value>)
    ensures
        object_members(*final(o)) == object_members(*old(o)).insert(key@, value.model()),
        r is Some <==> object_members(*old(o)).contains_key(key@),
        r matches Some(v) ==> v.model() == object_members(*old(o))[key@],
{
    o.inner.insert(key, value)
}

/// `halfbrown::HashMap::get`: the value of the member `key`, if there
/// is one.
#[verifier::external_body]
fn map_get<'a>(o: &'a Object, key: &str) -> (r: Option<&'a Value>)
    ensures
        r is Some <==> object_members(*o).contains_key(key@),
        r matches Some(v) ==> v.model() == object_members(*o)[key@],
{
    o.inner.get(key)
}

/// `list` holds each member of `members` once, with its value.
pub open spec fn lists_members(list: Seq<(String, Value)>, members: Map<Seq<char>, Json>) -> bool {
    &&& forall|i: int|
        0 <= i < list.len() ==> members.contains_key((#[trigger] list[i]).0@) && members[list[i].0@]
            == list[i].1.model()
    &&& forall|i: int, j: int|
        0 <= i < j < list.len() ==> (#[trigger] list[i]).0@ != (#[trigger] list[j]).0@
    &&& forall|k: Seq<char>|
        members.contains_key(k) ==> exists|i: int|
            0 <= i < list.len() && (#[trigger] list[i]).0@ == k
}

/// `halfbrown::HashMap::into_iter`, collected: the members, each once,
/// in the order in which the map hands them out.
#[verifier::external_body]
fn map_into_vec(o: Object) -> (r: Vec<(String, Value)>)
    ensures
        lists_members(r@, object_members(o)),
{
    o.inner.into_iter().collect()
}

/// `halfbrown::HashMap::clone`: a map with the same members.
#[verifier::external_body]
fn map_clone(o: &Object) -> (r: Object)
    ensures
        object_members(r) == object_members(*o),
{
    Object { inner: o.inner.clone() }
}

impl Object {
    /// An object without members.
    pub fn new() -> (o: Object)
        ensures
            object_members(o) == (Map::<Seq<char>, Json>::empty()),
    {
        map_new()
    }

    /// An object without members, with room for `capacity` of them, or
    /// for `MAX_PREALLOCATION` if that is less.
    pub fn with_capacity(capacity: usize) -> (o: Object)
        ensures
            object_members(o) == (Map::<Seq<char>, Json>::empty()),
    {
        map_with_capacity(
            if capacity <= MAX_PREALLOCATION {
                capacity
            } else {
                MAX_PREALLOCATION
            },
        )
    }

    /// Gives the member `key` the value `value`, and returns the value
    /// that it had before.
    pub fn insert(&mut self, key: String, value: Value) -> (r: Option<Value>)
        ensures
            object_members(*final(self)) == object_members(*old(self)).insert(key@, value.model()),
            r is Some <==> object_members(*old(self)).contains_key(key@),
            r matches Some(v) ==> v.model() == object_members(*old(self))[key@],
    {
        map_insert(self, key, value)
    }

    /// The value of the member `key`, if there is one.
    pub fn get(&self, key: &str) -> (r: Option<&Value>)
        ensures
            r is Some <==> object_members(*self).contains_key(key@),
            r matches Some(v) ==> v.model() == object_members(*self)[key@],
    {
        map_get(self, key)
    }

    /// The members, each once, in no stated order.
    pub fn into_entries(self) -> (r: Vec<(String, Value)>)
        ensures
            lists_members(r@, object_members(self)),
    {
        map_into_vec(self)
    }
}

impl Clone for Object {
    fn clone(&self) -> (r: Object)
        ensures
            object_members(r) == object_members(*self),
    {
        map_clone(self)
    }
}

/// A copy of each of `items`.
fn clone_items(items: &Vec<Value>) -> (r: Vec<Value>)
    ensures
        r@.len() == items@.len(),
        forall|j: int| 0 <= j < r@.len() ==> (#[trigger] r@[j]).model() == items@[j].model(),
    decreases items,
{
    let mut res: Vec<Value> = Vec::with_capacity(items.len());
    let mut i: usize = 0;
    while i < items.len()
        invariant
            i <= items@.len(),
            res@.len() == i,
            forall|j: int| 0 <= j < i ==> (#[trigger] res@[j]).model() == items@[j].model(),
        decreases items@.len() - i,
    {
        let item = items[i].clone();
        res.push(item);
        i = i + 1;
    }
    res
}

impl Clone for Value {
    /// A tree that stands for the same value.
    fn clone(&self) -> (r: Value)
        ensures
            r.model() == self.model(),
        decreases self,
    {
        match self {
            Value::Null => Value::Null,
            Value::Bool(b) => Value::Bool(*b),
            Value::I64(i) => Value::I64(*i),
            Value::F64(f) => Value::F64(
                Float { literal: vstd::slice::slice_to_vec(f.literal.as_slice()) },
            ),
            Value::String(s) => Value::String(s.clone()),
            Value::Array(a) => {
                let res = clone_items(a);
                assert(Value::Array(res).model()->Array_0 =~= self.model()->Array_0);
                Value::Array(res)
            },
            Value::Object(o) => Value::Object(o.clone()),
        }
    }
}

impl<'de> Deserializer<'de> {
    /// Parses the document from its first token on. No token may
    /// follow the root value.
    pub fn to_value_owned_root(&mut self) -> (r: Result<Value, Error>)
        requires
            old(self).wf(),
            old(self).idx == 0,
            old(self).depth == 0,
        ensures
            final(self).continues(old(self)),
            final(final(self).input)@ == final(old(self).input)@,
            match parse_root(old(self).source@, old(self).tokens(), old(self).depth_limit as nat) {
                Ok(j) => r matches Ok(v) && v.model() == j,
                Err(e) => r == Err::<Value, Error>(e),
            },
    {
        let v = match self.to_value_owned() {
            Ok(v) => v,
            Err(e) => {
                return Err(e);
            },
        };
        if self.idx < self.structural_indexes.len() {
            self.skip();
            return Err(self.error(ErrorType::TrailingData));
        }
        Ok(v)
    }

    /// Parses the value that starts at the next token.
    pub fn to_value_owned(&mut self) -> (r: Result<Value, Error>)
        requires
            old(self).wf(),
        ensures
            final(self).continues(old(self)),
            final(final(self).input)@ == final(old(self).input)@,
            match parse_value(
                old(self).source@,
                old(self).tokens(),
                old(self).idx as int,
                old(self).budget(),
            ) {
                Ok((j, next)) => {
                    &&& r matches Ok(v) && v.model() == j
                    &&& final(self).idx == next
                    &&& final(self).wf()
                    &&& final(self).depth == old(self).depth
                },
                Err(e) => r == Err::<Value, Error>(e),
            },
        decreases old(self).budget(), 1int,
    {
        let c = match self.next() {
            Ok(c) => c,
            Err(e) => {
                return Err(e);
            },
        };
        if c == 0x5b {
            self.parse_array_owned()
        } else if c == 0x7b {
            self.parse_map_owned()
        } else if c == QUOTE {
            let next = if self.idx < self.structural_indexes.len() {
                self.structural_indexes[self.idx] as usize
            } else {
                self.input.len()
            };
            let r = if next - self.structural_indexes[self.idx - 1] as usize <= SHORT_WINDOW {
                self.parse_short_str_()
            } else {
                self.parse_str_()
            };
            match r {
                Ok(s) => Ok(Value::String(s.to_owned())),
                Err(e) => Err(e),
            }
        } else if c == 0x6e {
            match self.parse_null_() {
                Ok(_) => Ok(Value::Null),
                Err(e) => Err(e),
            }
        } else if c == 0x74 {
            match self.parse_true_() {
                Ok(b) => Ok(Value::Bool(b)),
                Err(e) => Err(e),
            }
        } else if c == 0x66 {
            match self.parse_false_() {
                Ok(b) => Ok(Value::Bool(b)),
                Err(e) => Err(e),
            }
        } else if c == 0x2d || (0x30 <= c && c <= 0x39) {
            match self.parse_number_(c == 0x2d) {
                Ok(Number::I64(i)) => Ok(Value::I64(i)),
                Ok(Number::F64(f)) => Ok(Value::F64(f)),
                Err(e) => Err(e),
            }
        } else {
            Err(self.error(ErrorType::UnexpectedCharacter))
        }
    }

    /// Parses the array whose opening bracket is the current token.
    pub fn parse_array_owned(&mut self) -> (r: Result<Value, Error>)
        requires
            old(self).fresh(),
            token_byte(old(self).source@, old(self).tokens(), old(self).current()) == 0x5b,
        ensures
            final(self).continues(old(self)),
            final(final(self).input)@ == final(old(self).input)@,
            match parse_value(
                old(self).source@,
                old(self).tokens(),
                old(self).current(),
                old(self).budget(),
            ) {
                Ok((j, next)) => {
                    &&& r matches Ok(v) && v.model() == j
                    &&& final(self).idx == next
                    &&& final(self).wf()
                    &&& final(self).depth == old(self).depth
                },
                Err(e) => r == Err::<Value, Error>(e),
            },
        decreases old(self).budget(), 0int,
    {
        if self.depth >= self.depth_limit {
            return Err(self.error(ErrorType::UnexpectedCharacter));
        }
        let es = self.count_elements();
        let first = match self.peek() {
            Ok(c) => c,
            Err(e) => {
                return Err(e);
            },
        };
        if first == 0x5d {
            self.skip();
            let res: Vec<Value> = Vec::new();
            assert(Value::Array(res).model() == Json::Array(Seq::empty())) by {
                assert(Value::Array(res).model()->Array_0 =~= Seq::empty());
            }
            return Ok(Value::Array(res));
        }
        let mut res: Vec<Value> = Vec::with_capacity(es);
        let ghost mut acc: Seq<Json> = Seq::empty();
        let ghost goal = parse_value(
            self.source@,
            self.tokens(),
            self.current(),
            self.budget(),
        );
        self.depth = self.depth + 1;
        loop
            invariant
                self.wf(),
                self.follows(old(self)),
                final(self.input)@ == final(old(self).input)@,
                self.depth == old(self).depth + 1,
                acc.len() == res@.len(),
                forall|i: int| 0 <= i < acc.len() ==> acc[i] == (#[trigger] res@[i]).model(),
                parse_elements(self.source@, self.tokens(), self.idx as int, self.budget(), acc)
                    == goal,
                goal == parse_value(
                    old(self).source@,
                    old(self).tokens(),
                    old(self).current(),
                    old(self).budget(),
                ),
            decreases self.tokens().len() - self.idx,
        {
            proof {
                lemma_parse_value_advances(
                    self.source@,
                    self.tokens(),
                    self.idx as int,
                    self.budget(),
                );
            }
            let v = match self.to_value_owned() {
                Ok(v) => v,
                Err(e) => {
                    return Err(e);
                },
            };
            proof {
                acc = acc.push(v.model());
            }
            res.push(v);
            let c = match self.next() {
                Ok(c) => c,
                Err(e) => {
                    return Err(e);
                },
            };
            if c == 0x5d {
                self.depth = self.depth - 1;
                assert(Value::Array(res).model() == Json::Array(acc)) by {
                    assert(Value::Array(res).model()->Array_0 =~= acc);
                }
                return Ok(Value::Array(res));
            } else if c == 0x7d {
                return Err(self.error(ErrorType::ExpectedArrayClose));
            } else if c != 0x2c {
                return Err(self.error(ErrorType::ExpectedComma));
            }
        }
    }

    /// Parses the object whose opening brace is the current token.
    pub fn parse_map_owned(&mut self) -> (r: Result<Value, Error>)
        requires
            old(self).fresh(),
            token_byte(old(self).source@, old(self).tokens(), old(self).current()) == 0x7b,
        ensures
            final(self).continues(old(self)),
            final(final(self).input)@ == final(old(self).input)@,
            match parse_value(
                old(self).source@,
                old(self).tokens(),
                old(self).current(),
                old(self).budget(),
            ) {
                Ok((j, next)) => {
                    &&& r matches Ok(v) && v.model() == j
                    &&& final(self).idx == next
                    &&& final(self).wf()
                    &&& final(self).depth == old(self).depth
                },
                Err(e) => r == Err::<Value, Error>(e),
            },
        decreases old(self).budget(), 0int,
    {
        if self.depth >= self.depth_limit {
            return Err(self.error(ErrorType::UnexpectedCharacter));
        }
        let es = self.count_elements();
        let first = match self.peek() {
            Ok(c) => c,
            Err(e) => {
                return Err(e);
            },
        };
        if first == 0x7d {
            self.skip();
            return Ok(Value::Object(Object::new()));
        }
        let mut res = Object::with_capacity(es);
        let ghost goal = parse_value(
            self.source@,
            self.tokens(),
            self.current(),
            self.budget(),
        );
        self.depth = self.depth + 1;
        loop
            invariant
                self.wf(),
                self.follows(old(self)),
                final(self.input)@ == final(old(self).input)@,
                self.depth == old(self).depth + 1,
                parse_members(
                    self.source@,
                    self.tokens(),
                    self.idx as int,
                    self.budget(),
                    object_members(res),
                ) == goal,
                goal == parse_value(
                    old(self).source@,
                    old(self).tokens(),
                    old(self).current(),
                    old(self).budget(),
                ),
            decreases self.tokens().len() - self.idx,
        {
            proof {
                lemma_member_at_advances(
                    self.source@,
                    self.tokens(),
                    self.idx as int,
                    self.budget(),
                );
            }
            let (key, v) = match self.parse_member_owned() {
                Ok(member) => member,
                Err(e) => {
                    return Err(e);
                },
            };
            res.insert(key, v);
            let c = match self.next() {
                Ok(c) => c,
                Err(e) => {
                    return Err(e);
                },
            };
            if c == 0x7d {
                self.depth = self.depth - 1;
                return Ok(Value::Object(res));
            } else if c == 0x5d {
                return Err(self.error(ErrorType::ExpectedObjectClose));
            } else if c != 0x2c {
                return Err(self.error(ErrorType::ExpectedComma));
            }
        }
    }

    /// Parses the member whose key is the next token: the key, the
    /// colon and the value.
    pub fn parse_member_owned(&mut self) -> (r: Result<(String, Value), Error>)
        requires
            old(self).wf(),
        ensures
            final(self).continues(old(self)),
            final(final(self).input)@ == final(old(self).input)@,
            match member_at(
                old(self).source@,
                old(self).tokens(),
                old(self).idx as int,
                old(self).budget(),
            ) {
                Ok((member, next)) => {
                    &&& r matches Ok((key, v))
                    &&& key@ == member.0
                    &&& v.model() == member.1
                    &&& final(self).idx == next
                    &&& final(self).wf()
                    &&& final(self).depth == old(self).depth
                },
                Err(e) => r == Err::<(String, Value), Error>(e),
            },
        decreases old(self).budget(), 2int,
    {
        let c = match self.next() {
            Ok(c) => c,
            Err(e) => {
                return Err(e);
            },
        };
        if c != QUOTE {
            return Err(self.error(ErrorType::ExpectedString));
        }
        let key: String = match self.parse_short_str_() {
            Ok(s) => s.to_owned(),
            Err(e) => {
                return Err(e);
            },
        };
        let c = match self.next() {
            Ok(c) => c,
            Err(e) => {
                return Err(e);
            },
        };
        if c != 0x3a {
            return Err(self.error(ErrorType::ExpectedColon));
        }
        let v = match self.to_value_owned() {
            Ok(v) => v,
            Err(e) => {
                return Err(e);
            },
        };
        Ok((key, v))
    }
}

/// Parses the document in `s` into a tree that owns its strings. The
/// strings of the document are decoded in place; the buffer needs no
/// padding.
pub fn to_value(s: &mut [u8]) -> (r: Result<Value, Error>)
    requires
        old(s)@.len() <= u32::MAX,
    ensures
        crate::value::owned_outcome(old(s)@, r),
        only_strings_differ(final(s)@, old(s)@, structurals(old(s)@)),
{
    proof {
        crate::deserializer::lemma_nothing_differs(s@, structurals(s@));
        crate::grammar::lemma_document_meaning(
            s@,
            crate::document::DEFAULT_DEPTH_LIMIT as nat,
        );
    }
    let mut de = match Deserializer::from_slice(s) {
        Ok(de) => de,
        Err(e) => {
            return Err(e);
        },
    };
    de.to_value_owned_root()
}

} // verus!
