//! The cursor that stage 2 walks over the structural index, with the
//! scalar parsers at the token it stands on.

use vstd::prelude::*;
use vstd::slice::slice_subrange;
use vstd::utf8::{decode_utf8, valid_utf8};
use crate::charutils::{byte_is_operator, byte_is_whitespace};
use crate::document::{
    count_commas, count_elements, error_at, false_literal, is_close, is_literal, limit_of,
    null_literal, token_byte, true_literal, DEFAULT_DEPTH_LIMIT,
};
use crate::error::{Error, ErrorType};
use crate::numberparse::{lemma_number_at_local, number_at, parse_number, Number};
use crate::stage1::{find_structural_bits, is_index, structurals};
use crate::stringparse::{
    is_escape_free, lemma_unescape_local, parse_short_str, parse_str, str_from_utf8, string_at,
    QUOTE,
};

verus! {

broadcast use vstd::slice::group_slice_axioms;

/// A document under parse: the buffer, its structural index, and the
/// number of tokens that were consumed.
pub struct Deserializer<'de> {
    /// The buffer. Strings that were parsed are decoded in it.
    pub input: &'de mut [u8],
    /// The offsets at which the tokens start.
    pub structural_indexes: Vec<u32>,
    /// The number of tokens consumed; the current token is the last of
    /// them.
    pub idx: usize,
    /// The number of containers that are open.
    pub depth: usize,
    /// The number of containers that may be open at once.
    pub depth_limit: usize,
    /// The buffer as it was handed in.
    pub source: Ghost<Seq<u8>>,
}

/// `input` and `source` hold the same bytes from `from` on.
pub open spec fn agrees_from(input: Seq<u8>, source: Seq<u8>, from: int) -> bool {
    forall|j: int| from <= j < source.len() ==> #[trigger] input[j] == source[j]
}

/// `input` differs from `source` at most inside strings: after the
/// opening quote of a string token and before the next token.
#[verifier::opaque]
pub open spec fn only_strings_differ(input: Seq<u8>, source: Seq<u8>, t: Seq<u32>) -> bool {
    &&& input.len() == source.len()
    &&& forall|j: int|
        0 <= j < source.len() && (t.len() == 0 || j < t[0]) ==> #[trigger] input[j] == source[j]
    &&& forall|q: int, j: int|
        #![trigger t[q], input[j]]
        0 <= q < t.len() && t[q] <= j < limit_of(source, t, q) ==> input[j] == source[j] || (
        source[t[q] as int] == QUOTE && t[q] < j)
}

/// `after` holds what `before` holds, but for the bytes strictly
/// between `lo` and `hi`.
pub open spec fn kept_outside(after: Seq<u8>, before: Seq<u8>, lo: int, hi: int) -> bool {
    &&& after.len() == before.len()
    &&& forall|j: int| 0 <= j < before.len() && !(lo < j < hi) ==> #[trigger] after[j] == before[j]
}

/// `after` holds what `before` holds below `bound`.
pub open spec fn kept_below(after: Seq<u8>, before: Seq<u8>, bound: int) -> bool {
    &&& after.len() == before.len()
    &&& forall|j: int| 0 <= j < before.len() && j < bound ==> #[trigger] after[j] == before[j]
}

/// What is kept in two steps is kept.
pub proof fn lemma_kept_below_twice(
    last: Seq<u8>,
    middle: Seq<u8>,
    first: Seq<u8>,
    bound: int,
    later: int,
)
    requires
        kept_below(middle, first, bound),
        kept_below(last, middle, later),
        bound <= later,
    ensures
        kept_below(last, first, bound),
{
    assert forall|j: int| 0 <= j < first.len() && j < bound implies #[trigger] last[j] == first[j] by {
        assert(last[j] == middle[j]);
    }
}

/// A buffer differs nowhere from itself.
pub proof fn lemma_nothing_differs(b: Seq<u8>, t: Seq<u32>)
    ensures
        only_strings_differ(b, b, t),
{
    reveal(only_strings_differ);
}

/// Writes inside the region of a string token keep the buffer intact.
pub proof fn lemma_decoded_in_region(
    before: Seq<u8>,
    after: Seq<u8>,
    source: Seq<u8>,
    t: Seq<u32>,
    p: int,
)
    requires
        is_index(t, source.len() as int),
        0 <= p < t.len(),
        only_strings_differ(before, source, t),
        source[t[p] as int] == QUOTE,
        after.len() == before.len(),
        forall|j: int|
            0 <= j < before.len() && !(t[p] < j < limit_of(source, t, p)) ==> after[j] == before[j],
    ensures
        only_strings_differ(after, source, t),
        forall|from: int|
            limit_of(source, t, p) <= from && agrees_from(before, source, from) ==> agrees_from(
                after,
                source,
                from,
            ),
{
    reveal(only_strings_differ);
    assert forall|j: int| 0 <= j < source.len() && (t.len() == 0 || j < t[0]) implies after[j]
        == source[j] by {
        assert(t[0] <= t[p]);
        assert(before[j] == source[j]);
    }
    assert forall|q: int, j: int|
        #![trigger t[q], after[j]]
        0 <= q < t.len() && t[q] <= j < limit_of(source, t, q) implies after[j] == source[j] || (
    source[t[q] as int] == QUOTE && t[q] < j) by {
        if q < p {
            assert(t[q + 1] <= t[p]);
            assert(after[j] == before[j]);
            assert(before[j] == source[j] || (source[t[q] as int] == QUOTE && t[q] < j));
        } else if q > p {
            assert(t[p + 1] <= t[q]);
            assert(after[j] == before[j]);
            assert(before[j] == source[j] || (source[t[q] as int] == QUOTE && t[q] < j));
        } else {
            if j == t[p] {
                assert(after[j] == before[j]);
                assert(before[j] == source[j] || (source[t[q] as int] == QUOTE && t[q] < j));
            }
        }
    }
    assert forall|from: int|
        limit_of(source, t, p) <= from && agrees_from(before, source, from) implies agrees_from(
        after,
        source,
        from,
    ) by {
        assert forall|j: int| from <= j < source.len() implies #[trigger] after[j] == source[j] by {
            assert(before[j] == source[j]);
        }
    }
}

impl<'de> Deserializer<'de> {
    /// The structural index.
    pub open spec fn tokens(&self) -> Seq<u32> {
        self.structural_indexes@
    }

    /// The position of the current token.
    pub open spec fn current(&self) -> int {
        self.idx - 1
    }

    /// How many containers may still be opened.
    pub open spec fn budget(&self) -> nat {
        (self.depth_limit - self.depth) as nat
    }

    /// The offset of the first token that was not consumed.
    pub open spec fn frontier(&self) -> int {
        if self.idx < self.tokens().len() {
            self.tokens()[self.idx as int] as int
        } else {
            self.source@.len() as int
        }
    }

    /// The index is one of the source, and the buffer differs from the
    /// source only inside strings.
    pub open spec fn intact(&self) -> bool {
        &&& self.source@.len() <= u32::MAX
        &&& self.input@.len() == self.source@.len()
        &&& is_index(self.tokens(), self.source@.len() as int)
        &&& only_strings_differ(self.input@, self.source@, self.tokens())
    }

    /// The cursor is valid: nothing was decoded at or after the first
    /// token that was not consumed.
    pub open spec fn wf(&self) -> bool {
        &&& self.intact()
        &&& self.idx <= self.tokens().len()
        &&& self.depth <= self.depth_limit
        &&& agrees_from(self.input@, self.source@, self.frontier())
    }

    /// There is a current token, and nothing was decoded at or after it.
    pub open spec fn fresh(&self) -> bool {
        &&& self.wf()
        &&& self.idx > 0
        &&& agrees_from(self.input@, self.source@, self.tokens()[self.current()] as int)
    }

    /// The same document as `before`, at whatever position.
    pub open spec fn follows(&self, before: &Self) -> bool {
        &&& self.source@ == before.source@
        &&& self.tokens() == before.tokens()
        &&& self.depth_limit == before.depth_limit
    }

    /// The same document as `before`, with the buffer still intact.
    pub open spec fn continues(&self, before: &Self) -> bool {
        self.follows(before) && self.intact()
    }

    /// The same state as `before`, but for the cursor.
    pub open spec fn moved(&self, before: &Self) -> bool {
        &&& self.follows(before)
        &&& self.input@ == before.input@
        &&& self.depth == before.depth
    }

    /// Builds the structural index of `input` and puts the cursor
    /// before its first token.
    pub fn from_slice(input: &'de mut [u8]) -> (r: Result<Deserializer<'de>, Error>)
        requires
            old(input)@.len() <= u32::MAX,
        ensures
            valid_utf8(old(input)@) ==> (r matches Ok(de) && {
                &&& de.wf()
                &&& de.idx == 0
                &&& de.depth == 0
                &&& de.depth_limit == DEFAULT_DEPTH_LIMIT
                &&& de.source@ == old(input)@
                &&& de.input@ == old(input)@
                &&& de.tokens() == structurals(old(input)@)
                &&& final(input)@ == final(de.input)@
            }),
            !valid_utf8(old(input)@) ==> r == Err::<Deserializer<'de>, Error>(
                Error::spec_generic(ErrorType::InvalidUtf8),
            ) && final(input)@ == old(input)@,
    {
        let ghost source = input@;
        proof {
            lemma_nothing_differs(source, structurals(source));
        }
        match find_structural_bits(&*input) {
            Ok(structural_indexes) => {
                proof {
                    crate::stage1::lemma_structurals(source);
                }
                Ok(
                    Deserializer {
                        input,
                        structural_indexes,
                        idx: 0,
                        depth: 0,
                        depth_limit: DEFAULT_DEPTH_LIMIT,
                        source: Ghost(source),
                    },
                )
            },
            Err(e) => Err(Error::generic(e)),
        }
    }

    /// Sets the number of containers that may be open at once.
    pub fn set_depth_limit(&mut self, limit: usize)
        requires
            old(self).wf(),
            old(self).depth <= limit,
        ensures
            final(self).wf(),
            final(self).depth_limit == limit,
            final(self).source@ == old(self).source@,
            final(self).tokens() == old(self).tokens(),
            final(self).input@ == old(self).input@,
            final(self).idx == old(self).idx,
            final(self).depth == old(self).depth,
            final(final(self).input)@ == final(old(self).input)@,
    {
        self.depth_limit = limit;
    }

    /// The error of kind `kind` at the current token.
    pub fn error(&self, kind: ErrorType) -> (e: Error)
        requires
            self.wf(),
        ensures
            e == error_at(self.source@, self.tokens(), self.current(), kind),
    {
        if self.idx == 0 {
            Error {
                structural: self.structural_indexes.len(),
                index: self.input.len(),
                character: 0u8 as char,
                error: kind,
            }
        } else {
            let k = self.structural_indexes[self.idx - 1] as usize;
            assert(self.input@[k as int] == self.source@[k as int]) by {
                reveal(only_strings_differ);
            }
            Error { structural: self.idx - 1, index: k, character: self.input[k] as char, error: kind }
        }
    }

    /// The error of kind `kind` at the end of the input.
    pub fn error_at_end(&self, kind: ErrorType) -> (e: Error)
        requires
            self.wf(),
        ensures
            e == error_at(self.source@, self.tokens(), self.tokens().len() as int, kind),
    {
        Error {
            structural: self.structural_indexes.len(),
            index: self.input.len(),
            character: 0u8 as char,
            error: kind,
        }
    }

    /// The first byte of the next token, which stays unconsumed.
    pub fn peek(&self) -> (r: Result<u8, Error>)
        requires
            self.wf(),
        ensures
            self.idx < self.tokens().len() ==> r == Ok::<u8, Error>(
                token_byte(self.source@, self.tokens(), self.idx as int),
            ),
            self.idx >= self.tokens().len() ==> r == Err::<u8, Error>(
                error_at(
                    self.source@,
                    self.tokens(),
                    self.tokens().len() as int,
                    ErrorType::UnexpectedEnd,
                ),
            ),
    {
        if self.idx < self.structural_indexes.len() {
            let k = self.structural_indexes[self.idx] as usize;
            Ok(self.input[k])
        } else {
            Err(self.error_at_end(ErrorType::UnexpectedEnd))
        }
    }

    /// Consumes the next token and returns its first byte.
    pub fn next(&mut self) -> (r: Result<u8, Error>)
        requires
            old(self).wf(),
        ensures
            final(self).wf(),
            final(self).moved(old(self)),
            final(final(self).input)@ == final(old(self).input)@,
            old(self).idx < old(self).tokens().len() ==> {
                &&& r == Ok::<u8, Error>(
                    token_byte(old(self).source@, old(self).tokens(), old(self).idx as int),
                )
                &&& final(self).idx == old(self).idx + 1
                &&& final(self).fresh()
            },
            old(self).idx >= old(self).tokens().len() ==> {
                &&& r == Err::<u8, Error>(
                    error_at(
                        old(self).source@,
                        old(self).tokens(),
                        old(self).tokens().len() as int,
                        ErrorType::UnexpectedEnd,
                    ),
                )
                &&& final(self).idx == old(self).idx
            },
    {
        if self.idx < self.structural_indexes.len() {
            let k = self.structural_indexes[self.idx] as usize;
            let c = self.input[k];
            self.idx = self.idx + 1;
            Ok(c)
        } else {
            Err(self.error_at_end(ErrorType::UnexpectedEnd))
        }
    }

    /// Consumes the next token, if there is one.
    pub fn skip(&mut self)
        requires
            old(self).wf(),
        ensures
            final(self).wf(),
            final(self).moved(old(self)),
            final(final(self).input)@ == final(old(self).input)@,
            final(self).idx == if old(self).idx < old(self).tokens().len() {
                old(self).idx + 1
            } else {
                old(self).idx as int
            },
            old(self).idx < old(self).tokens().len() ==> final(self).fresh(),
    {
        if self.idx < self.structural_indexes.len() {
            self.idx = self.idx + 1;
        }
    }

    /// The offset of the current token and the end of its region.
    fn region(&self) -> (r: (usize, usize))
        requires
            self.wf(),
            self.idx > 0,
        ensures
            r.0 == self.tokens()[self.current()],
            r.1 == limit_of(self.source@, self.tokens(), self.current()),
            r.0 < r.1 <= self.source@.len(),
    {
        let k = self.structural_indexes[self.idx - 1] as usize;
        let limit = if self.idx < self.structural_indexes.len() {
            self.structural_indexes[self.idx] as usize
        } else {
            self.input.len()
        };
        (k, limit)
    }

    /// The number of elements of the container whose opening bracket is
    /// the current token, by a scan of the index up to its close.
    pub fn count_elements(&self) -> (n: usize)
        requires
            self.wf(),
            self.idx > 0,
        ensures
            n == count_elements(self.source@, self.tokens(), self.current()),
    {
        let len = self.structural_indexes.len();
        if self.idx >= len {
            return 0;
        }
        let first = self.input[self.structural_indexes[self.idx] as usize];
        if first == 0x5d || first == 0x7d {
            return 0;
        }
        let mut q: usize = self.idx;
        let mut nesting: usize = 0;
        let mut count: usize = 1;
        while q < len
            invariant
                self.wf(),
                len == self.tokens().len(),
                0 < self.idx <= q <= len,
                !is_close(token_byte(self.source@, self.tokens(), self.idx as int)),
                nesting <= q - self.idx,
                1 <= count <= q - self.idx + 1,
                count + count_commas(self.source@, self.tokens(), q as int, nesting as nat) == 1
                    + count_commas(self.source@, self.tokens(), self.idx as int, 0),
            decreases len - q,
        {
            let c = self.input[self.structural_indexes[q] as usize];
            assert(c == token_byte(self.source@, self.tokens(), q as int));
            if c == 0x5b || c == 0x7b {
                nesting = nesting + 1;
            } else if c == 0x5d || c == 0x7d {
                if nesting == 0 {
                    return count;
                }
                nesting = nesting - 1;
            } else if c == 0x2c && nesting == 0 {
                count = count + 1;
            }
            q = q + 1;
        }
        count
    }

    /// Checks that the current token spells `null`.
    pub fn parse_null_(&self) -> (r: Result<(), Error>)
        requires
            self.fresh(),
        ensures
            r == (if is_literal(
                self.source@,
                self.tokens()[self.current()] as int,
                null_literal(),
            ) {
                Ok::<(), Error>(())
            } else {
                Err::<(), Error>(
                    error_at(
                        self.source@,
                        self.tokens(),
                        self.current(),
                        ErrorType::UnexpectedCharacter,
                    ),
                )
            }),
    {
        let k = self.structural_indexes[self.idx - 1] as usize;
        let n = self.input.len();
        if n - k >= 4 && self.input[k] == 0x6e && self.input[k + 1] == 0x75 && self.input[k + 2]
            == 0x6c && self.input[k + 3] == 0x6c && self.terminated(k + 4) {
            assert(self.source@.subrange(k as int, k + 4) =~= null_literal());
            Ok(())
        } else {
            assert(!is_literal(self.source@, k as int, null_literal())) by {
                if is_literal(self.source@, k as int, null_literal()) {
                    let s = self.source@.subrange(k as int, k + 4);
                    assert(s[0] == 0x6e && s[1] == 0x75 && s[2] == 0x6c && s[3] == 0x6c);
                }
            }
            Err(self.error(ErrorType::UnexpectedCharacter))
        }
    }

    /// Checks that the current token spells `true`.
    pub fn parse_true_(&self) -> (r: Result<bool, Error>)
        requires
            self.fresh(),
        ensures
            r == (if is_literal(
                self.source@,
                self.tokens()[self.current()] as int,
                true_literal(),
            ) {
                Ok::<bool, Error>(true)
            } else {
                Err::<bool, Error>(
                    error_at(
                        self.source@,
                        self.tokens(),
                        self.current(),
                        ErrorType::UnexpectedCharacter,
                    ),
                )
            }),
    {
        let k = self.structural_indexes[self.idx - 1] as usize;
        let n = self.input.len();
        if n - k >= 4 && self.input[k] == 0x74 && self.input[k + 1] == 0x72 && self.input[k + 2]
            == 0x75 && self.input[k + 3] == 0x65 && self.terminated(k + 4) {
            assert(self.source@.subrange(k as int, k + 4) =~= true_literal());
            Ok(true)
        } else {
            assert(!is_literal(self.source@, k as int, true_literal())) by {
                if is_literal(self.source@, k as int, true_literal()) {
                    let s = self.source@.subrange(k as int, k + 4);
                    assert(s[0] == 0x74 && s[1] == 0x72 && s[2] == 0x75 && s[3] == 0x65);
                }
            }
            Err(self.error(ErrorType::UnexpectedCharacter))
        }
    }

    /// Checks that the current token spells `false`.
    pub fn parse_false_(&self) -> (r: Result<bool, Error>)
        requires
            self.fresh(),
        ensures
            r == (if is_literal(
                self.source@,
                self.tokens()[self.current()] as int,
                false_literal(),
            ) {
                Ok::<bool, Error>(false)
            } else {
                Err::<bool, Error>(
                    error_at(
                        self.source@,
                        self.tokens(),
                        self.current(),
                        ErrorType::UnexpectedCharacter,
                    ),
                )
            }),
    {
        let k = self.structural_indexes[self.idx - 1] as usize;
        let n = self.input.len();
        if n - k >= 5 && self.input[k] == 0x66 && self.input[k + 1] == 0x61 && self.input[k + 2]
            == 0x6c && self.input[k + 3] == 0x73 && self.input[k + 4] == 0x65 && self.terminated(
            k + 5,
        ) {
            assert(self.source@.subrange(k as int, k + 5) =~= false_literal());
            Ok(false)
        } else {
            assert(!is_literal(self.source@, k as int, false_literal())) by {
                if is_literal(self.source@, k as int, false_literal()) {
                    let s = self.source@.subrange(k as int, k + 5);
                    assert(s[0] == 0x66 && s[1] == 0x61 && s[2] == 0x6c && s[3] == 0x73 && s[4]
                        == 0x65);
                }
            }
            Err(self.error(ErrorType::UnexpectedCharacter))
        }
    }

    /// A scalar may end at `i`.
    fn terminated(&self, i: usize) -> (r: bool)
        requires
            self.fresh(),
            self.tokens()[self.current()] <= i <= self.source@.len(),
        ensures
            r == crate::numberparse::is_terminator(self.source@, i as int),
    {
        i >= self.input.len() || byte_is_whitespace(self.input[i]) || byte_is_operator(
            self.input[i],
        )
    }

    /// Parses the number that the current token starts. `negative`
    /// says that the token starts with a minus sign.
    pub fn parse_number_(&self, negative: bool) -> (r: Result<Number, Error>)
        requires
            self.fresh(),
        ensures
            match number_at(self.source@, self.tokens()[self.current()] as int, negative) {
                Ok(n) => r matches Ok(x) && x@ == n,
                Err(e) => r == Err::<Number, Error>(
                    error_at(self.source@, self.tokens(), self.current(), e),
                ),
            },
    {
        let k = self.structural_indexes[self.idx - 1] as usize;
        proof {
            lemma_number_at_local(self.input@, self.source@, k as int, negative);
        }
        match parse_number(&*self.input, k, negative) {
            Ok(n) => Ok(n),
            Err(e) => Err(self.error(e)),
        }
    }

    /// Parses the string that the current token opens, in place.
    pub fn parse_str_(&mut self) -> (r: Result<&str, Error>)
        requires
            old(self).fresh(),
            token_byte(old(self).source@, old(self).tokens(), old(self).current()) == QUOTE,
        ensures
            final(self).continues(old(self)),
            final(final(self).input)@ == final(old(self).input)@,
            final(self).idx == old(self).idx,
            final(self).depth == old(self).depth,
            match string_at(
                old(self).source@,
                old(self).tokens()[old(self).current()] as int,
                limit_of(old(self).source@, old(self).tokens(), old(self).current()),
            ) {
                Ok(content) => r matches Ok(s) && s@ == decode_utf8(content) && final(self).wf()
                    && final(self).held(old(self).tokens()[old(self).current()] + 1, content)
                    && old(self).tokens()[old(self).current()] + 1 + content.len() < limit_of(
                    old(self).source@,
                    old(self).tokens(),
                    old(self).current(),
                ),
                Err(e) => r == Err::<&str, Error>(
                    error_at(old(self).source@, old(self).tokens(), old(self).current(), e),
                ),
            },
            is_escape_free(
                old(self).source@,
                old(self).tokens()[old(self).current()] as int,
                limit_of(old(self).source@, old(self).tokens(), old(self).current()),
            ) ==> final(self).input@ == old(self).input@,
            kept_outside(
                final(self).input@,
                old(self).input@,
                old(self).tokens()[old(self).current()] as int,
                limit_of(old(self).source@, old(self).tokens(), old(self).current()),
            ),
    {
        let (k, limit) = self.region();
        proof {
            lemma_unescape_local(self.input@, self.source@, k + 1, limit as int, Seq::empty());
            crate::stringparse::lemma_plain_end_local(
                self.input@,
                self.source@,
                k + 1,
                limit as int,
            );
        }
        let ghost before = self.input@;
        let r = parse_str(self.input, k, limit);
        proof {
            lemma_decoded_in_region(
                before,
                self.input@,
                self.source@,
                self.tokens(),
                self.current(),
            );
        }
        let len = match r {
            Ok(len) => len,
            Err(e) => {
                return Err(self.error(e));
            },
        };
        match str_from_utf8(slice_subrange(&*self.input, k + 1, k + 1 + len)) {
            Some(s) => Ok(s),
            None => Err(self.error(ErrorType::InvalidUtf8)),
        }
    }

    /// As `parse_str_`, for a string that is likely to be short.
    pub fn parse_short_str_(&mut self) -> (r: Result<&str, Error>)
        requires
            old(self).fresh(),
            token_byte(old(self).source@, old(self).tokens(), old(self).current()) == QUOTE,
        ensures
            final(self).continues(old(self)),
            final(final(self).input)@ == final(old(self).input)@,
            final(self).idx == old(self).idx,
            final(self).depth == old(self).depth,
            match string_at(
                old(self).source@,
                old(self).tokens()[old(self).current()] as int,
                limit_of(old(self).source@, old(self).tokens(), old(self).current()),
            ) {
                Ok(content) => r matches Ok(s) && s@ == decode_utf8(content) && final(self).wf()
                    && final(self).held(old(self).tokens()[old(self).current()] + 1, content)
                    && old(self).tokens()[old(self).current()] + 1 + content.len() < limit_of(
                    old(self).source@,
                    old(self).tokens(),
                    old(self).current(),
                ),
                Err(e) => r == Err::<&str, Error>(
                    error_at(old(self).source@, old(self).tokens(), old(self).current(), e),
                ),
            },
            is_escape_free(
                old(self).source@,
                old(self).tokens()[old(self).current()] as int,
                limit_of(old(self).source@, old(self).tokens(), old(self).current()),
            ) ==> final(self).input@ == old(self).input@,
            kept_outside(
                final(self).input@,
                old(self).input@,
                old(self).tokens()[old(self).current()] as int,
                limit_of(old(self).source@, old(self).tokens(), old(self).current()),
            ),
    {
        let (k, limit) = self.region();
        proof {
            lemma_unescape_local(self.input@, self.source@, k + 1, limit as int, Seq::empty());
            crate::stringparse::lemma_plain_end_local(
                self.input@,
                self.source@,
                k + 1,
                limit as int,
            );
        }
        let ghost before = self.input@;
        let r = parse_short_str(self.input, k, limit);
        proof {
            lemma_decoded_in_region(
                before,
                self.input@,
                self.source@,
                self.tokens(),
                self.current(),
            );
        }
        let len = match r {
            Ok(len) => len,
            Err(e) => {
                return Err(self.error(e));
            },
        };
        match str_from_utf8(slice_subrange(&*self.input, k + 1, k + 1 + len)) {
            Some(s) => Ok(s),
            None => Err(self.error(ErrorType::InvalidUtf8)),
        }
    }

    /// The buffer holds `content` from `start` on.
    pub open spec fn held(&self, start: int, content: Seq<u8>) -> bool {
        &&& 0 <= start
        &&& start + content.len() <= self.input@.len()
        &&& self.input@.subrange(start, start + content.len()) == content
    }
}

} // verus!
