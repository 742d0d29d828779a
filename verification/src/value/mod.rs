//! Document trees: one that owns its strings, and one whose strings
//! are views into the buffer.

use vstd::prelude::*;
use crate::document::DEFAULT_DEPTH_LIMIT;
use crate::grammar::document_value;
use crate::error::Error;

pub mod borrowed;
pub mod owned;

verus! {

/// What `owned::to_value` returns on the document `input`.
pub open spec fn owned_outcome(input: Seq<u8>, r: Result<owned::Value, Error>) -> bool {
    match document_value(input, DEFAULT_DEPTH_LIMIT as nat) {
        Ok(j) => r matches Ok(v) && v.model() == j,
        Err(e) => r == Err::<owned::Value, Error>(e),
    }
}

/// What `borrowed::to_value` returns on the document `input`, where
/// `buf` is the buffer as the call leaves it.
pub open spec fn borrowed_outcome(
    input: Seq<u8>,
    buf: Seq<u8>,
    r: Result<borrowed::Value, Error>,
) -> bool {
    match document_value(input, DEFAULT_DEPTH_LIMIT as nat) {
        Ok(j) => r matches Ok(v) && v.model(buf) == j && v.bounded(buf, buf.len() as int),
        Err(e) => r == Err::<borrowed::Value, Error>(e),
    }
}

/// The two parsers agree: on one document both succeed or both fail
/// with the same error, and the two trees stand for the same value,
/// tag by tag, number by number, and string by string after decoding.
pub proof fn lemma_trees_agree(
    input: Seq<u8>,
    owned: Result<owned::Value, Error>,
    borrowed: Result<borrowed::Value, Error>,
    buf: Seq<u8>,
)
    requires
        owned_outcome(input, owned),
        borrowed_outcome(input, buf, borrowed),
    ensures
        owned is Ok <==> borrowed is Ok,
        owned matches Ok(o) ==> (borrowed matches Ok(b) && b.model(buf) == o.model()),
        owned matches Err(e) ==> (borrowed matches Err(f) && f == e),
{
}

} // verus!
