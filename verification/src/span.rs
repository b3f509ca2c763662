//! Where a fault or a finding stands in the text it was read from.
use vstd::prelude::*;
use vstd::string::StringSliceAdditionalSpecFns;
use crate::utf::{char_count, count_chars, starts_char};

verus! {

/// A half-open range of byte offsets into a source text.
#[derive(Debug, Clone, Copy, PartialEq, Eq, PartialOrd, Ord, Hash, Structural)]
pub struct Span {
    pub start: usize,
    pub end: usize,
}

/// A one-based line and column, the column counted in characters.
#[derive(Debug, Clone, Copy, PartialEq, Eq, Structural)]
pub struct Location {
    pub line: usize,
    pub column: usize,
}

/// How many newlines the bytes hold.
pub open spec fn newlines(bytes: Seq<u8>) -> nat
    decreases bytes.len(),
{
    if bytes.len() == 0 {
        0
    } else {
        newlines(bytes.drop_last()) + if bytes.last() == 10u8 { 1nat } else { 0nat }
    }
}

/// The bytes after the last newline, or all of them when there is none.
pub open spec fn last_line(bytes: Seq<u8>) -> Seq<u8>
    decreases bytes.len(),
{
    if bytes.len() == 0 {
        bytes
    } else if bytes.last() == 10u8 {
        Seq::empty()
    } else {
        last_line(bytes.drop_last()).push(bytes.last())
    }
}

/// The text a location is counted over: everything before `offset`, or the whole text where
/// `offset` is past its end or inside a character.
pub open spec fn before(bytes: Seq<u8>, offset: int) -> Seq<u8> {
    if starts_char(bytes, offset) {
        bytes.subrange(0, offset)
    } else {
        bytes
    }
}

/// The line and column at which `offset` stands.
pub open spec fn location_of(bytes: Seq<u8>, offset: int) -> Location {
    Location {
        line: (newlines(before(bytes, offset)) + 1) as usize,
        column: (char_count(last_line(before(bytes, offset))) + 1) as usize,
    }
}

pub proof fn lemma_newlines_bound(bytes: Seq<u8>)
    ensures
        newlines(bytes) <= bytes.len(),
        char_count(last_line(bytes)) <= bytes.len(),
        char_count(bytes) <= bytes.len(),
    decreases bytes.len(),
{
    if bytes.len() > 0 {
        lemma_newlines_bound(bytes.drop_last());
        if bytes.last() != 10u8 {
            let l = last_line(bytes.drop_last());
            assert(last_line(bytes) == l.push(bytes.last()));
            assert(l.push(bytes.last()).drop_last() =~= l);
        } else {
            assert(char_count(Seq::<u8>::empty()) == 0);
        }
    }
}

impl Span {
    pub fn new(start: usize, end: usize) -> (span: Span)
        ensures
            span.start == start,
            span.end == end,
    {
        Span { start, end }
    }

    /// The line and column at which this span starts in `source`.
    pub fn location(&self, source: &str) -> (at: Location)
        requires
            source.spec_bytes().len() < usize::MAX,
        ensures
            at == location_of(source.spec_bytes(), self.start as int),
    {
        let bytes = source.as_bytes();
        let n = bytes.len();
        let upto = if self.start <= n && (self.start == n || !(0x80 <= bytes[self.start] && bytes[self.start] <= 0xbf)) {
            self.start
        } else {
            n
        };
        let ghost text = before(bytes@, self.start as int);
        assert(text =~= bytes@.subrange(0, upto as int));
        let mut at: usize = 0;
        let mut lines: usize = 0;
        let mut line_start: usize = 0;
        while at < upto
            invariant
                0 <= line_start <= at <= upto <= n,
                n == bytes@.len(),
                n < usize::MAX,
                lines == newlines(bytes@.subrange(0, at as int)),
                last_line(bytes@.subrange(0, at as int)) =~= bytes@.subrange(line_start as int, at as int),
                lines <= at,
            decreases upto - at,
        {
            let ghost prefix = bytes@.subrange(0, at as int);
            assert(bytes@.subrange(0, at + 1).drop_last() =~= prefix);
            if bytes[at] == 10u8 {
                lines = lines + 1;
                line_start = at + 1;
            } else {
                assert(bytes@.subrange(line_start as int, at as int).push(bytes@[at as int]) =~= bytes@.subrange(line_start as int, at + 1));
            }
            at = at + 1;
        }
        proof {
            lemma_newlines_bound(text);
        }
        let column = count_chars(bytes, line_start, upto);
        Location { line: lines + 1, column: column + 1 }
    }
}

} // verus!
