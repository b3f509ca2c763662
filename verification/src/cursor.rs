//! A parser's view of the tokens: it peeks ahead and takes them one at a time, and meets the
//! lexer's fault only when it reaches it.
use vstd::prelude::*;
use vstd::string::StringSliceAdditionalSpecFns;
use crate::error::{Error, ErrorKind};
use crate::lexer::{cook_spec, lexed, lexing, Class, TokenKind, Token, lemma_run_end, token_shape, tokens, run_end};
use crate::names::Ident;
use crate::number::{ascii_chars, ascii_text, canonical_kind, canonical_number, decimal, dyadic_magnitude, dyadic_value, float_in_range, is_dyadic, negative, settled, Float, Integer, NumberKind};
use crate::span::Span;
use vstd::slice::slice_subrange;

verus! {

/// A number as a token spells it.
pub(crate) enum Number {
    Integer(Integer),
    Float(Float),
}

pub(crate) struct Cursor<'a> {
    pub(crate) source: &'a str,
    pub(crate) bytes: &'a [u8],
    pub(crate) tokens: Vec<Token>,
    pub(crate) fault: Option<Error>,
    pub(crate) at: usize,
}

/// A meaningful token within the text, shaped as its kind says.
pub(crate) open spec fn token_ok(bytes: Seq<u8>, t: Token) -> bool {
    &&& t.span.end <= bytes.len()
    &&& token_shape(bytes, t)
    &&& t.kind != TokenKind::Whitespace && t.kind != TokenKind::Comment
}

/// `after` reads the same tokens as `before`, from no earlier a place.
pub(crate) open spec fn advanced(before: &Cursor, after: &Cursor) -> bool {
    &&& before.source == after.source
    &&& before.bytes == after.bytes
    &&& before.tokens@ == after.tokens@
    &&& before.fault == after.fault
    &&& before.at <= after.at
}

impl<'a> Cursor<'a> {
    pub(crate) open spec fn wf(&self) -> bool {
        &&& self.bytes@ == self.source.spec_bytes()
        &&& self.position() <= self.count()
        &&& self.count() <= usize::MAX
        &&& forall|i: int| 0 <= i < self.count() ==> token_ok(self.bytes@, #[trigger] self.token_at(i))
    }

    pub(crate) open spec fn position(&self) -> nat {
        self.at as nat
    }

    pub(crate) open spec fn count(&self) -> nat {
        self.tokens@.len()
    }

    pub(crate) open spec fn token_at(&self, i: int) -> Token {
        self.tokens@[i]
    }

    /// How many tokens are left to take.
    pub(crate) open spec fn remaining(&self) -> nat {
        (self.count() - self.position()) as nat
    }

    pub(crate) fn new(source: &'a str) -> (cursor: Cursor<'a>)
        ensures
            cursor.wf(),
            lexed(cursor.bytes@, cursor.tokens@),
            cursor.tokens@ == lexing(cursor.bytes@).0,
            cursor.fault is None <==> lexing(cursor.bytes@).1 is None,
            cursor.source == source,
            cursor.position() == 0,
    {
        let (found, fault) = tokens(source);
        let n = found.len();
        let cursor = Cursor { source, bytes: source.as_bytes(), tokens: found, fault, at: 0 };
        assert forall|i: int| 0 <= i < cursor.count() implies token_ok(cursor.bytes@, #[trigger] cursor.token_at(i)) by {
            assert(cursor.token_at(i) == found@[i]);
        }
        cursor
    }

    /// The token `ahead` places past the next one, or the lexer's fault if the tokens stop
    /// short of it because of one.
    pub(crate) fn peek(&self, ahead: usize) -> (found: Result<Option<Token>, Error>)
        requires
            self.wf(),
            ahead <= 1,
        ensures
            found matches Ok(Some(t)) ==> self.position() + ahead < self.count() && t == self.token_at(self.position() + ahead)
                && t.span.end <= self.bytes@.len() && token_shape(self.bytes@, t),
            found matches Ok(Some(t)) ==> t.kind != TokenKind::Whitespace && t.kind != TokenKind::Comment,
            self.position() + ahead < self.count() ==> found matches Ok(Some(_)),
            found matches Ok(None) ==> self.fault is None,
            self.fault is None ==> found is Ok,
    {
        if self.tokens.len() - self.at > ahead {
            let i = self.at + ahead;
            proof { assert(self.token_at(i as int) == self.tokens@[i as int]); }
            Ok(Some(self.tokens[i]))
        } else {
            match &self.fault {
                Some(e) => Err(e.clone()),
                None => Ok(None),
            }
        }
    }

    /// Takes the next token.
    pub(crate) fn bump(&mut self) -> (found: Result<Option<Token>, Error>)
        requires
            old(self).wf(),
        ensures
            final(self).wf(),
            final(self).source == old(self).source,
            final(self).count() == old(self).count(),
            forall|i: int| 0 <= i < old(self).count() ==> final(self).token_at(i) == old(self).token_at(i),
            found matches Ok(Some(t)) ==> final(self).position() == old(self).position() + 1
                && t == old(self).token_at(old(self).position() as int)
                && t.span.end <= old(self).bytes@.len() && token_shape(old(self).bytes@, t),
            !(found matches Ok(Some(_))) ==> final(self).position() == old(self).position(),
            old(self).position() < old(self).count() ==> found matches Ok(Some(_)),
            old(self).fault is None ==> found is Ok,
            final(self).bytes == old(self).bytes,
            advanced(old(self), final(self)),
    {
        let found = self.peek(0);
        let ghost before = *self;
        if let Ok(Some(_)) = found {
            self.at = self.at + 1;
        }
        assert forall|i: int| 0 <= i < self.count() implies token_ok(self.bytes@, #[trigger] self.token_at(i)) by {
            assert(self.token_at(i) == before.token_at(i));
        }
        found
    }

    /// An empty span at the end of the text.
    pub(crate) fn end(&self) -> (span: Span)
        requires
            self.wf(),
        ensures
            span.start == self.bytes@.len() && span.end == self.bytes@.len(),
    {
        Span::new(self.bytes.len(), self.bytes.len())
    }

    /// The ASCII text a token covers.
    pub(crate) fn word(&self, t: Token) -> (text: String)
        requires
            self.wf(),
            token_shape(self.bytes@, t),
            t.kind == TokenKind::Ident || t.kind == TokenKind::Atom || t.kind == TokenKind::Number,
        ensures
            text@ == crate::number::ascii_chars(self.bytes@.subrange(t.span.start as int, t.span.end as int)),
    {
        proof {
            if t.kind == TokenKind::Ident {
                lemma_run_end(self.bytes@, t.span.start + 1, Class::IdentTail);
            } else if t.kind == TokenKind::Atom {
                lemma_run_end(self.bytes@, t.span.start + 1, Class::AtomTail);
            }
        }
        ascii_text(self.bytes, t.span.start, t.span.end)
    }

    /// The identifier a token spells.
    pub(crate) fn ident(&self, t: Token) -> (ident: Ident)
        requires
            self.wf(),
            token_shape(self.bytes@, t),
            t.kind == TokenKind::Ident,
        ensures
            ident@ == token_text(self.bytes@, t),
    {
        Ident::new(self.word(t))
    }

    /// Whether two tokens cover the same bytes.
    pub(crate) fn same_text(&self, a: Token, b: Token) -> (same: bool)
        requires
            self.wf(),
            a.span.start <= a.span.end <= self.bytes@.len(),
            b.span.start <= b.span.end <= self.bytes@.len(),
        ensures
            same == (self.bytes@.subrange(a.span.start as int, a.span.end as int) == self.bytes@.subrange(b.span.start as int, b.span.end as int)),
    {
        let la = a.span.end - a.span.start;
        let lb = b.span.end - b.span.start;
        if la != lb {
            assert(self.bytes@.subrange(a.span.start as int, a.span.end as int).len() != self.bytes@.subrange(b.span.start as int, b.span.end as int).len());
            return false;
        }
        let mut i: usize = 0;
        while i < la
            invariant
                la == lb,
                a.span.start + la == a.span.end <= self.bytes@.len(),
                b.span.start + lb == b.span.end <= self.bytes@.len(),
                i <= la,
                forall|j: int| 0 <= j < i ==> self.bytes@.subrange(a.span.start as int, a.span.end as int)[j] == #[trigger] self.bytes@.subrange(b.span.start as int, b.span.end as int)[j],
            decreases la - i,
        {
            if self.bytes[a.span.start + i] != self.bytes[b.span.start + i] {
                assert(self.bytes@.subrange(a.span.start as int, a.span.end as int)[i as int] != self.bytes@.subrange(b.span.start as int, b.span.end as int)[i as int]);
                return false;
            }
            i = i + 1;
        }
        assert(self.bytes@.subrange(a.span.start as int, a.span.end as int) =~= self.bytes@.subrange(b.span.start as int, b.span.end as int));
        true
    }
}

/// The characters a token covers, read as ASCII.
pub open spec fn token_text(bytes: Seq<u8>, t: Token) -> Seq<char> {
    ascii_chars(bytes.subrange(t.span.start as int, t.span.end as int))
}

/// The bytes a token covers.
pub open spec fn token_bytes(bytes: Seq<u8>, t: Token) -> Seq<u8> {
    bytes.subrange(t.span.start as int, t.span.end as int)
}

/// What the text between a string token's quotes cooks to.
pub open spec fn string_text(bytes: Seq<u8>, t: Token) -> Result<Seq<char>, Error> {
    let inner = Span { start: (t.span.start + 1) as usize, end: (t.span.end - 1) as usize };
    cook_spec(bytes, inner.start as int, inner.end as int, false, inner)
}

/// The decimal text of the integer a dyadic literal spells.
pub open spec fn dyadic_text(t: Seq<u8>) -> Seq<u8> {
    let magnitude = dyadic_magnitude(t).unwrap();
    if negative(t) && magnitude != 0 { seq![45u8] + decimal(magnitude) } else { decimal(magnitude) }
}

/// Whether a number read from a token's text `t` stands for what the text spells: an
/// integer by its settled decimal text, a float by its spelling.
pub(crate) open spec fn reads_decimal(t: Seq<u8>, number: Number) -> bool {
    match number {
        Number::Integer(n) => canonical_kind(t) == Some(NumberKind::Integer) && n@ == settled(t),
        Number::Float(f) => canonical_kind(t) == Some(NumberKind::Float) && float_in_range(t) && f@ == t,
    }
}

/// Whether `err` is the fault the canonical form raises for a number token `t` spelled
/// `text`, which it does not read as a number.
pub open spec fn refuses_decimal(t: Token, text: Seq<u8>, err: Error) -> bool {
    &&& err.span == t.span
    &&& match canonical_kind(text) {
        Some(NumberKind::Integer) => false,
        Some(NumberKind::Float) => !float_in_range(text) && err.kind == ErrorKind::FloatOutOfRange,
        None => if dyadic_magnitude(text) is Some {
            err.kind == ErrorKind::SurfaceDyadic
        } else {
            err.kind matches ErrorKind::NumberSpelling(s) && s@ == ascii_chars(text)
        },
    }
}

/// Whether `err` is the fault the surface language raises for a number token `t` spelled
/// `text`, which it does not read as a number.
pub open spec fn refuses_number(t: Token, text: Seq<u8>, err: Error) -> bool {
    &&& err.span == t.span
    &&& match canonical_kind(text) {
        Some(NumberKind::Integer) => false,
        Some(NumberKind::Float) => !float_in_range(text) && err.kind == ErrorKind::FloatOutOfRange,
        None => match dyadic_magnitude(text) {
            Some(m) => m > u128::MAX && err.kind == ErrorKind::DyadicTooWide,
            None => err.kind matches ErrorKind::NumberSpelling(s) && s@ == ascii_chars(text),
        },
    }
}

/// Whether a number read from a token's text `t` stands for what the text spells in the
/// surface language: a decimal spelling as the canonical form reads it, and a dyadic one as
/// the decimal integer it spells.
pub(crate) open spec fn reads_number(t: Seq<u8>, number: Number) -> bool {
    if canonical_kind(t) is Some {
        reads_decimal(t, number)
    } else {
        &&& dyadic_magnitude(t) matches Some(m) && m <= u128::MAX
        &&& number matches Number::Integer(n) && n@ == dyadic_text(t)
    }
}

/// Reads a number token the surface language's way: a decimal spelling is kept as written,
/// and a dyadic one becomes the decimal integer it spells.
pub(crate) fn surface_number(bytes: &[u8], t: Token) -> (number: Result<Number, Error>)
    requires
        t.span.start <= t.span.end <= bytes@.len(),
    ensures
        number matches Ok(n) ==> reads_number(token_bytes(bytes@, t), n),
        number matches Err(e) ==> refuses_number(t, token_bytes(bytes@, t), e),
{
    let text = slice_subrange(bytes, t.span.start, t.span.end);
    match canonical_number(text) {
        Some(NumberKind::Integer) => Ok(Number::Integer(Integer::spelled(bytes, t.span.start, t.span.end))),
        Some(NumberKind::Float) => match Float::spelled(bytes, t.span.start, t.span.end) {
            Some(f) => Ok(Number::Float(f)),
            None => Err(Error::new(ErrorKind::FloatOutOfRange, t.span)),
        },
        None => {
            if is_dyadic(text) {
                match dyadic_value(text) {
                    Some(v) => {
                        let minus = text.len() > 0 && text[0] == 45;
                        Ok(Number::Integer(Integer::of_magnitude(minus, v)))
                    },
                    None => Err(Error::new(ErrorKind::DyadicTooWide, t.span)),
                }
            } else {
                let spelled = crate::number::ascii_text_lossy(bytes, t.span.start, t.span.end);
                Err(Error::new(ErrorKind::NumberSpelling(spelled), t.span))
            }
        },
    }
}

/// Reads a number token the canonical form's way: only a decimal spelling is a number, and
/// a dyadic one is refused by name.
pub(crate) fn canonical_number_of(bytes: &[u8], t: Token) -> (number: Result<Number, Error>)
    requires
        t.span.start <= t.span.end <= bytes@.len(),
    ensures
        number matches Ok(n) ==> reads_decimal(token_bytes(bytes@, t), n),
        number matches Err(e) ==> refuses_decimal(t, token_bytes(bytes@, t), e),
{
    let text = slice_subrange(bytes, t.span.start, t.span.end);
    match canonical_number(text) {
        Some(NumberKind::Integer) => Ok(Number::Integer(Integer::spelled(bytes, t.span.start, t.span.end))),
        Some(NumberKind::Float) => match Float::spelled(bytes, t.span.start, t.span.end) {
            Some(f) => Ok(Number::Float(f)),
            None => Err(Error::new(ErrorKind::FloatOutOfRange, t.span)),
        },
        None => {
            if is_dyadic(text) {
                Err(Error::new(ErrorKind::SurfaceDyadic, t.span))
            } else {
                let spelled = crate::number::ascii_text_lossy(bytes, t.span.start, t.span.end);
                Err(Error::new(ErrorKind::NumberSpelling(spelled), t.span))
            }
        },
    }
}

} // verus!
