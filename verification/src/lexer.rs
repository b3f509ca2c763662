//! Cutting a source text into tokens.
use vstd::prelude::*;
use vstd::string::StringSliceAdditionalSpecFns;
use crate::error::{Error, ErrorKind};
use crate::number::{ascii_chars, ascii_text, canonical_kind, canonical_number, dyadic_magnitude, is_dyadic};
use crate::span::Span;
use crate::utf::{char_at, char_from_u32, decode_at, push_char, width_at};
use vstd::slice::slice_subrange;

verus! {

/// What a token is.
#[derive(Debug, Clone, Copy, PartialEq, Eq, Structural)]
pub enum TokenKind {
    BraceOpen,
    BraceClose,
    BracketOpen,
    BracketClose,
    ParenOpen,
    ParenClose,
    Equals,
    Arrow,
    Binder,
    Dot,
    At,
    Atom,
    Ident,
    String,
    Number,
    InterpolationOpen,
    InterpolationClose,
    Text,
    Spec,
    HoleOpen,
    HoleClose,
    Whitespace,
    Comment,
}

impl TokenKind {
    /// Whitespace and comments, which carry no meaning.
    pub fn is_trivia(self) -> (trivia: bool)
        ensures
            trivia == (self == TokenKind::Whitespace || self == TokenKind::Comment),
    {
        match self {
            TokenKind::Whitespace | TokenKind::Comment => true,
            _ => false,
        }
    }
}

/// A token and the bytes it covers.
#[derive(Debug, Clone, Copy, PartialEq, Eq, Structural)]
pub struct Token {
    pub kind: TokenKind,
    pub span: Span,
}

/// What the lexer is inside of: the text of an interpolation, or one of its holes.
#[derive(Debug, Clone, Copy, PartialEq, Eq, Structural)]
enum Mode {
    Text { open: usize },
    Hole { open: usize, braces: usize },
}

pub open spec fn is_space(b: u8) -> bool {
    b == 32u8 || b == 9u8 || b == 10u8
}

pub open spec fn is_upper_byte(b: u8) -> bool {
    65 <= b <= 90
}

pub open spec fn is_lower_byte(b: u8) -> bool {
    97 <= b <= 122
}

pub open spec fn is_digit_byte(b: u8) -> bool {
    48 <= b <= 57
}

pub open spec fn is_alnum_byte(b: u8) -> bool {
    is_upper_byte(b) || is_lower_byte(b) || is_digit_byte(b)
}

pub open spec fn is_ident_byte(b: u8) -> bool {
    is_lower_byte(b) || is_digit_byte(b) || b == 95u8
}

/// A class of bytes that a run of one kind of token is made of.
#[derive(Clone, Copy, PartialEq, Eq, Structural)]
pub enum Class {
    Space,
    AtomTail,
    IdentTail,
    Digit,
    Alnum,
}

pub open spec fn in_class(class: Class, b: u8) -> bool {
    match class {
        Class::Space => is_space(b),
        Class::AtomTail => is_alnum_byte(b),
        Class::IdentTail => is_ident_byte(b),
        Class::Digit => is_digit_byte(b),
        Class::Alnum => is_alnum_byte(b),
    }
}

/// The end of the longest run of bytes of `class` that starts at `at`.
pub open spec fn run_end(bytes: Seq<u8>, at: int, class: Class) -> int
    decreases bytes.len() - at,
{
    if 0 <= at < bytes.len() && in_class(class, bytes[at]) {
        run_end(bytes, at + 1, class)
    } else {
        at
    }
}

pub proof fn lemma_run_end(bytes: Seq<u8>, at: int, class: Class)
    requires
        0 <= at <= bytes.len(),
    ensures
        at <= run_end(bytes, at, class) <= bytes.len(),
        forall|i: int| at <= i < run_end(bytes, at, class) ==> in_class(class, #[trigger] bytes[i]),
        run_end(bytes, at, class) < bytes.len() ==> !in_class(class, bytes[run_end(bytes, at, class)]),
    decreases bytes.len() - at,
{
    if at < bytes.len() && in_class(class, bytes[at]) {
        lemma_run_end(bytes, at + 1, class);
    }
}

fn class_has(class: Class, b: u8) -> (has: bool)
    ensures
        has == in_class(class, b),
{
    match class {
        Class::Space => b == 32 || b == 9 || b == 10,
        Class::AtomTail | Class::Alnum => (65 <= b && b <= 90) || (97 <= b && b <= 122) || (48 <= b && b <= 57),
        Class::IdentTail => (97 <= b && b <= 122) || (48 <= b && b <= 57) || b == 95,
        Class::Digit => 48 <= b && b <= 57,
    }
}

/// Scans the run of bytes of `class` that starts at `at`.
fn scan_run_of(bytes: &[u8], at: usize, class: Class) -> (end: usize)
    requires
        at <= bytes@.len(),
    ensures
        end == run_end(bytes@, at as int, class),
        at <= end <= bytes@.len(),
{
    proof { lemma_run_end(bytes@, at as int, class); }
    let mut end = at;
    while end < bytes.len() && class_has(class, bytes[end])
        invariant
            at <= end <= bytes@.len(),
            run_end(bytes@, end as int, class) == run_end(bytes@, at as int, class),
        decreases bytes@.len() - end,
    {
        end = end + 1;
    }
    end
}

/// Whether `t` spells a number in either language.
pub open spec fn number_spelling(t: Seq<u8>) -> bool {
    canonical_kind(t) is Some || dyadic_magnitude(t) is Some
}

/// The character an escape names, for the one-letter escapes.
pub open spec fn simple_escape(c: char) -> Option<char> {
    if c == '"' { Some('"') }
    else if c == '\\' { Some('\\') }
    else if c == 'n' { Some('\n') }
    else if c == 'r' { Some('\r') }
    else if c == 't' { Some('\t') }
    else { None }
}

/// Whether `b` is a digit of a unicode escape: a decimal digit or an upper-case hex letter.
pub open spec fn is_hex_byte(b: u8) -> bool {
    is_digit_byte(b) || 65 <= b <= 70
}

pub open spec fn hex_value(digits: Seq<u8>) -> nat
    decreases digits.len(),
{
    if digits.len() == 0 {
        0
    } else {
        hex_value(digits.drop_last()) * 16 + (if is_digit_byte(digits.last()) { (digits.last() - 48) as nat } else { (digits.last() - 55) as nat })
    }
}

pub open spec fn is_scalar_value(v: nat) -> bool {
    v <= 0x10FFFF && !(0xD800 <= v <= 0xDFFF)
}

/// What the escape at `at` (a backslash) decodes to, with where it ends; or the fault in it.
pub open spec fn escape_spec(bytes: Seq<u8>, at: int) -> Result<(char, int), Error> {
    let n = bytes.len() as int;
    if at + 1 >= n {
        Err(Error { kind: ErrorKind::UnterminatedString, span: Span { start: at as usize, end: n as usize } })
    } else {
        let marker = char_at(bytes, at + 1);
        if simple_escape(marker) is Some {
            Ok((simple_escape(marker).unwrap(), at + 2))
        } else if marker != 'u' {
            Err(Error { kind: ErrorKind::UnknownEscape(marker), span: Span { start: at as usize, end: (at + 1 + width_at(bytes, at + 1)) as usize } })
        } else if !(at + 2 < n && bytes[at + 2] == 123u8) {
            Err(Error { kind: ErrorKind::MalformedUnicodeEscape, span: Span { start: at as usize, end: (if n < at + 3 { n } else { at + 3 }) as usize } })
        } else {
            let end = run_end(bytes, at + 3, Class::Alnum);
            let hex_end = hex_run_end(bytes, at + 3);
            if hex_end == at + 3 || hex_end - (at + 3) > 6 || !(hex_end < n && bytes[hex_end] == 125u8) {
                Err(Error { kind: ErrorKind::MalformedUnicodeEscape, span: Span { start: at as usize, end: (if n < hex_end + 1 { n } else { hex_end + 1 }) as usize } })
            } else {
                let value = hex_value(bytes.subrange(at + 3, hex_end));
                if is_scalar_value(value) {
                    Ok((value as char, hex_end + 1))
                } else if 0xD800 <= value <= 0xDFFF {
                    Err(Error { kind: ErrorKind::SurrogateEscape(value as u32), span: Span { start: at as usize, end: (hex_end + 1) as usize } })
                } else {
                    Err(Error { kind: ErrorKind::ScalarOutOfRange(value as u32), span: Span { start: at as usize, end: (hex_end + 1) as usize } })
                }
            }
        }
    }
}

/// The end of the run of unicode-escape digits that starts at `at`.
pub open spec fn hex_run_end(bytes: Seq<u8>, at: int) -> int
    decreases bytes.len() - at,
{
    if 0 <= at < bytes.len() && is_hex_byte(bytes[at]) {
        hex_run_end(bytes, at + 1)
    } else {
        at
    }
}

proof fn lemma_hex_run_end(bytes: Seq<u8>, at: int)
    requires
        0 <= at <= bytes.len(),
    ensures
        at <= hex_run_end(bytes, at) <= bytes.len(),
        forall|i: int| at <= i < hex_run_end(bytes, at) ==> is_hex_byte(#[trigger] bytes[i]),
    decreases bytes.len() - at,
{
    if at < bytes.len() && is_hex_byte(bytes[at]) {
        lemma_hex_run_end(bytes, at + 1);
    }
}

/// Decodes the escape that starts at `at`, which holds a backslash, returning the character
/// it names and where it ends. Where nothing follows `at`, the string is unterminated.
pub fn escape(bytes: &[u8], at: usize) -> (decoded: Result<(char, usize), Error>)
    ensures
        at + 1 >= bytes@.len() ==> decoded == Err::<(char, usize), Error>(
            Error { kind: ErrorKind::UnterminatedString, span: Span { start: at, end: bytes@.len() as usize } }),
        decoded matches Ok((c, next)) ==> escape_spec(bytes@, at as int) == Ok::<(char, int), Error>((c, next as int)) && at < next <= bytes@.len(),
        decoded matches Err(e) ==> escape_spec(bytes@, at as int) == Err::<(char, int), Error>(e) && e.span.end <= bytes@.len(),
{
    let n = bytes.len();
    if at >= n || n - at <= 1 {
        return Err(Error::new(ErrorKind::UnterminatedString, Span::new(at, n)));
    }
    let (marker, width) = decode_at(bytes, at + 1);
    if marker == '"' { return Ok(('"', at + 2)); }
    if marker == '\\' { return Ok(('\\', at + 2)); }
    if marker == 'n' { return Ok(('\n', at + 2)); }
    if marker == 'r' { return Ok(('\r', at + 2)); }
    if marker == 't' { return Ok(('\t', at + 2)); }
    if marker != 'u' {
        let end = if width <= n - (at + 1) { at + 1 + width } else { n };
        proof {
            let rest = bytes@.subrange(at + 1, bytes@.len() as int);
            if vstd::utf8::valid_first_scalar(rest) {
                assert(width == vstd::utf8::length_of_first_scalar(rest));
                assert(vstd::utf8::length_of_first_scalar(rest) <= rest.len());
            }
        }
        return Err(Error::new(ErrorKind::UnknownEscape(marker), Span::new(at, end)));
    }
    if !(at + 2 < n && bytes[at + 2] == 123) {
        let end = if n - at < 3 { n } else { at + 3 };
        return Err(Error::new(ErrorKind::MalformedUnicodeEscape, Span::new(at, end)));
    }
    let digits = at + 3;
    proof { lemma_hex_run_end(bytes@, digits as int); }
    let mut end = digits;
    let mut value: u32 = 0;
    while end < n && ((48 <= bytes[end] && bytes[end] <= 57) || (65 <= bytes[end] && bytes[end] <= 70))
        invariant
            digits <= end <= n,
            n == bytes@.len(),
            hex_run_end(bytes@, end as int) == hex_run_end(bytes@, digits as int),
            end - digits <= 7 ==> value as nat == hex_value(bytes@.subrange(digits as int, end as int)),
            end - digits <= 7 ==> value < pow16(end - digits),
        decreases n - end,
    {
        let b = bytes[end];
        let d: u32 = if b <= 57 { (b - 48) as u32 } else { (b - 55) as u32 };
        if end - digits < 7 {
            proof {
                lemma_pow16_bound((end - digits) as nat);
                assert(bytes@.subrange(digits as int, end + 1).drop_last() =~= bytes@.subrange(digits as int, end as int));
                assert(value * 16 + d < pow16(end - digits) * 16) by (nonlinear_arith)
                    requires value < pow16(end - digits), d < 16;
            }
            value = value * 16 + d;
        }
        end = end + 1;
    }
    if end == digits || end - digits > 6 || !(end < n && bytes[end] == 125) {
        let stop = if end >= n { n } else { end + 1 };
        return Err(Error::new(ErrorKind::MalformedUnicodeEscape, Span::new(at, stop)));
    }
    match char_from_u32(value) {
        Some(c) => {
            proof { vstd::utf8::char_u32_cast(c, value); }
            Ok((c, end + 1))
        },
        None => {
            if 0xD800 <= value && value <= 0xDFFF {
                Err(Error::new(ErrorKind::SurrogateEscape(value), Span::new(at, end + 1)))
            } else {
                Err(Error::new(ErrorKind::ScalarOutOfRange(value), Span::new(at, end + 1)))
            }
        },
    }
}

pub open spec fn pow16(n: int) -> int
    decreases n,
{
    if n <= 0 { 1 } else { 16 * pow16(n - 1) }
}

proof fn lemma_pow16_bound(n: nat)
    requires
        n <= 6,
    ensures
        pow16(n as int) <= 0x1000000,
        pow16(n as int) >= 1,
{
    reveal_with_fuel(pow16, 7);
}

} // verus!

verus! {

/// `text` put in front of what `rest` cooks to, or the fault in `rest`.
pub open spec fn prepend(text: Seq<char>, rest: Result<Seq<char>, Error>) -> Result<Seq<char>, Error> {
    match rest {
        Ok(r) => Ok(text + r),
        Err(e) => Err(e),
    }
}

/// The characters that the text in `bytes[at..end]` stands for, each escape decoded, and each
/// doubled brace read as one brace where `doubled`; a fault is reported against `whole`.
pub open spec fn cook_spec(bytes: Seq<u8>, at: int, end: int, doubled: bool, whole: Span) -> Result<Seq<char>, Error>
    decreases end - at,
{
    if at >= end {
        Ok(Seq::empty())
    } else if at < 0 || end > bytes.len() || !vstd::utf8::valid_first_scalar(bytes.subrange(at, bytes.len() as int))
        || at + width_at(bytes, at) > end {
        Err(Error { kind: ErrorKind::UnterminatedString, span: whole })
    } else if bytes[at] == 92u8 {
        match escape_spec(bytes, at) {
            Err(e) => Err(e),
            Ok((c, next)) => if next > at {
                prepend(seq![c], cook_spec(bytes, clamp(next, end), end, doubled, whole))
            } else {
                Err(e_unreachable())
            },
        }
    } else if doubled && (bytes[at] == 123u8 || bytes[at] == 125u8) {
        prepend(seq![char_at(bytes, at)], cook_spec(bytes, clamp(at + 2, end), end, doubled, whole))
    } else {
        prepend(seq![char_at(bytes, at)], cook_spec(bytes, at + width_at(bytes, at), end, doubled, whole))
    }
}

/// `at`, or `end` where `at` is past it.
pub open spec fn clamp(at: int, end: int) -> int {
    if at > end { end } else { at }
}

/// A fault that no text raises, standing where a spec needs some error value.
pub open spec fn e_unreachable() -> Error {
    Error { kind: ErrorKind::UnterminatedString, span: Span { start: 0, end: 0 } }
}

/// Cooks the text in `bytes[span.start..span.end]` into the characters it stands for.
pub fn cook(bytes: &[u8], span: Span, doubled: bool) -> (cooked: Result<String, Error>)
    ensures
        cooked matches Ok(text) ==> cook_spec(bytes@, span.start as int, span.end as int, doubled, span) == Ok::<Seq<char>, Error>(text@),
        cooked matches Err(e) ==> cook_spec(bytes@, span.start as int, span.end as int, doubled, span) == Err::<Seq<char>, Error>(e),
{
    let mut at = span.start;
    let mut text = String::new();
    while at < span.end
        invariant
            span.start <= at,
            cook_spec(bytes@, span.start as int, span.end as int, doubled, span)
                == prepend(text@, cook_spec(bytes@, at as int, span.end as int, doubled, span)),
        decreases span.end - at,
    {
        if span.end > bytes.len() {
            proof { assert(text@ + Seq::<char>::empty() =~= text@); }
            return Err(Error::new(ErrorKind::UnterminatedString, span));
        }
        let (c, width) = decode_at(bytes, at);
        let good = check_scalar(bytes, at);
        if !good || width > span.end - at {
            return Err(Error::new(ErrorKind::UnterminatedString, span));
        }
        if bytes[at] == 92 {
            match escape(bytes, at) {
                Err(e) => return Err(e),
                Ok((decoded, next)) => {
                    let ghost before = text@;
                    push_char(&mut text, decoded);
                    proof {
                        let r = cook_spec(bytes@, clamp(next as int, span.end as int), span.end as int, doubled, span);
                        match r {
                            Ok(x) => { assert(before + (seq![decoded] + x) =~= text@ + x); }
                            Err(_) => {}
                        }
                    }
                    at = if next > span.end { span.end } else { next };
                },
            }
        } else if doubled && (bytes[at] == 123 || bytes[at] == 125) {
            let ghost before = text@;
            push_char(&mut text, c);
            proof {
                let r = cook_spec(bytes@, clamp(at + 2, span.end as int), span.end as int, doubled, span);
                match r {
                    Ok(x) => { assert(before + (seq![c] + x) =~= text@ + x); }
                    Err(_) => {}
                }
            }
            at = if span.end - at >= 2 { at + 2 } else { span.end };
        } else {
            let ghost before = text@;
            push_char(&mut text, c);
            proof {
                let r = cook_spec(bytes@, at + width, span.end as int, doubled, span);
                match r {
                    Ok(x) => { assert(before + (seq![c] + x) =~= text@ + x); }
                    Err(_) => {}
                }
            }
            at = at + width;
        }
    }
    proof { assert(text@ + Seq::<char>::empty() =~= text@); }
    Ok(text)
}

/// Whether a whole character's encoding begins at `at`.
fn check_scalar(bytes: &[u8], at: usize) -> (valid: bool)
    requires
        at < bytes@.len(),
    ensures
        valid == vstd::utf8::valid_first_scalar(bytes@.subrange(at as int, bytes@.len() as int)),
{
    let ghost rest = bytes@.subrange(at as int, bytes@.len() as int);
    let n = bytes.len();
    let b0 = bytes[at];
    assert(rest[0] == b0);
    if b0 <= 0x7f {
        return true;
    }
    if 0xc0 <= b0 && b0 <= 0xdf {
        if n - at < 2 { return false; }
        let b1 = bytes[at + 1];
        assert(rest[1] == b1);
        if !(0x80 <= b1 && b1 <= 0xbf) { return false; }
        let code = (((b0 & 0x1f) as u32) << 6) | ((b1 & 0x3f) as u32);
        assert(code <= 0x7ff) by (bit_vector) requires code == (((b0 & 0x1f) as u32) << 6) | ((b1 & 0x3f) as u32);
        return 0x80 <= code;
    }
    if 0xe0 <= b0 && b0 <= 0xef {
        if n - at < 3 { return false; }
        let b1 = bytes[at + 1];
        let b2 = bytes[at + 2];
        assert(rest[1] == b1 && rest[2] == b2);
        if !(0x80 <= b1 && b1 <= 0xbf && 0x80 <= b2 && b2 <= 0xbf) { return false; }
        let code = (((b0 & 0x0f) as u32) << 12) | (((b1 & 0x3f) as u32) << 6) | ((b2 & 0x3f) as u32);
        assert(code <= 0xffff) by (bit_vector) requires code == (((b0 & 0x0f) as u32) << 12) | (((b1 & 0x3f) as u32) << 6) | ((b2 & 0x3f) as u32);
        return 0x800 <= code && !(0xD800 <= code && code <= 0xDFFF);
    }
    if 0xf0 <= b0 && b0 <= 0xf7 {
        if n - at < 4 { return false; }
        let b1 = bytes[at + 1];
        let b2 = bytes[at + 2];
        let b3 = bytes[at + 3];
        assert(rest[1] == b1 && rest[2] == b2 && rest[3] == b3);
        if !(0x80 <= b1 && b1 <= 0xbf && 0x80 <= b2 && b2 <= 0xbf && 0x80 <= b3 && b3 <= 0xbf) { return false; }
        let code = (((b0 & 0x07) as u32) << 18) | (((b1 & 0x3f) as u32) << 12) | (((b2 & 0x3f) as u32) << 6) | ((b3 & 0x3f) as u32);
        return 0x10000 <= code && code <= 0x10ffff && !(0xD800 <= code && code <= 0xDFFF);
    }
    false
}

/// Decodes a plain string token, whose span holds its quotes, into the text it spells.
pub fn unescape(source: &str, span: Span) -> (text: Result<String, Error>)
    ensures
        ({
            let inner = Span { start: if span.start == usize::MAX { span.start } else { (span.start + 1) as usize },
                               end: if span.end == 0 { 0 } else { (span.end - 1) as usize } };
            &&& text matches Ok(t) ==> cook_spec(source.spec_bytes(), inner.start as int, inner.end as int, false, inner) == Ok::<Seq<char>, Error>(t@)
            &&& text matches Err(e) ==> cook_spec(source.spec_bytes(), inner.start as int, inner.end as int, false, inner) == Err::<Seq<char>, Error>(e)
        }),
{
    let start = if span.start == usize::MAX { span.start } else { span.start + 1 };
    let end = if span.end == 0 { 0 } else { span.end - 1 };
    cook(source.as_bytes(), Span::new(start, end), false)
}

} // verus!

verus! {

/// What a token's bytes look like, for the kinds whose shape the language fixes.
pub open spec fn token_shape(bytes: Seq<u8>, t: Token) -> bool {
    let s = t.span.start as int;
    let e = t.span.end as int;
    let n = bytes.len() as int;
    &&& 0 <= s <= e <= n
    &&& match t.kind {
        TokenKind::BraceOpen | TokenKind::HoleOpen => e == s + 1 && bytes[s] == 123u8,
        TokenKind::BraceClose | TokenKind::HoleClose => e == s + 1 && bytes[s] == 125u8,
        TokenKind::BracketOpen => e == s + 1 && bytes[s] == 91u8,
        TokenKind::BracketClose => e == s + 1 && bytes[s] == 93u8,
        TokenKind::ParenOpen => e == s + 1 && bytes[s] == 40u8,
        TokenKind::ParenClose => e == s + 1 && bytes[s] == 41u8,
        TokenKind::Equals => e == s + 1 && bytes[s] == 61u8 && !(e < n && bytes[e] == 62u8),
        TokenKind::Arrow => e == s + 2 && bytes[s] == 61u8 && bytes[s + 1] == 62u8,
        TokenKind::Binder => e == s + 2 && bytes[s] == 58u8 && bytes[s + 1] == 61u8,
        TokenKind::Dot => e == s + 1 && bytes[s] == 46u8,
        TokenKind::At => e == s + 1 && bytes[s] == 64u8,
        TokenKind::InterpolationOpen => e == s + 2 && bytes[s] == 36u8 && bytes[s + 1] == 34u8,
        TokenKind::InterpolationClose => e == s + 1 && bytes[s] == 34u8,
        TokenKind::Atom => e > s && is_upper_byte(bytes[s]) && e == run_end(bytes, s + 1, Class::AtomTail),
        TokenKind::Ident => e > s && is_lower_byte(bytes[s]) && e == run_end(bytes, s + 1, Class::IdentTail),
        TokenKind::Whitespace => e > s && e == run_end(bytes, s, Class::Space),
        TokenKind::Number => e > s && number_spelling(bytes.subrange(s, e)) && (forall|i: int| s <= i < e ==> bytes[i] < 128),
        TokenKind::String => e >= s + 2 && bytes[s] == 34u8 && bytes[e - 1] == 34u8,
        TokenKind::Comment => e > s && bytes[s] == 35u8 && (forall|i: int| s <= i < e ==> bytes[i] != 10u8),
        TokenKind::Spec => forall|i: int| s <= i < e ==> bytes[i] != 123u8 && bytes[i] != 125u8 && bytes[i] != 34u8,
        TokenKind::Text => e > s,
    }
}

/// A fault of `kind` over the bytes from `start` to `end`.
pub open spec fn fault_over(kind: ErrorKind, start: int, end: int) -> Error {
    Error { kind, span: Span { start: start as usize, end: end as usize } }
}

/// A token of `kind` over the bytes from `start` to `end`.
pub open spec fn token_over(kind: TokenKind, start: int, end: int) -> Token {
    Token { kind, span: Span { start: start as usize, end: end as usize } }
}

/// Whether a fault the lexer raised is the one `expected` names: the same span and kind,
/// where a misspelled number carries the text it spells.
pub open spec fn same_fault(bytes: Seq<u8>, actual: Error, expected: Error) -> bool {
    ||| actual == expected
    ||| {
        &&& actual.span == expected.span
        &&& expected.kind is NumberSpelling
        &&& actual.kind matches ErrorKind::NumberSpelling(text)
            && text@ == ascii_chars(bytes.subrange(expected.span.start as int, expected.span.end as int))
    }
}

/// Whether what a scan read is what `expected` says: the same token, or the same fault.
pub open spec fn same_scan(bytes: Seq<u8>, actual: Result<Token, Error>, expected: Result<Token, Error>) -> bool {
    match expected {
        Ok(t) => actual == Ok::<Token, Error>(t),
        Err(e) => actual matches Err(a) && same_fault(bytes, a, e),
    }
}

/// Where a comment whose text continues at `k` ends, at the end of its line or of the
/// bytes; or the carriage return or control character in it.
pub open spec fn comment_end(bytes: Seq<u8>, k: int) -> Result<int, Error>
    decreases bytes.len() - k,
{
    if k < 0 || k >= bytes.len() || bytes[k] == 10u8 {
        Ok(k)
    } else if bytes[k] == 13u8 {
        Err(fault_over(ErrorKind::CarriageReturn, k, k + 1))
    } else if bytes[k] < 32u8 && bytes[k] != 9u8 {
        Err(fault_over(ErrorKind::ControlCharacter(bytes[k] as char), k, k + 1))
    } else {
        comment_end(bytes, k + 1)
    }
}

/// The comment that starts at `at`.
pub open spec fn comment_scan(bytes: Seq<u8>, at: int) -> Result<Token, Error> {
    match comment_end(bytes, at + 1) {
        Ok(end) => Ok(token_over(TokenKind::Comment, at, end)),
        Err(e) => Err(e),
    }
}

/// Where a plain string opened at `at`, whose text continues at `k`, ends: after its
/// closing quote, with each escape decoded on the way; or the fault that stops it.
pub open spec fn string_end(bytes: Seq<u8>, at: int, k: int) -> Result<int, Error>
    decreases bytes.len() - k,
{
    if k < 0 || k >= bytes.len() {
        Err(fault_over(ErrorKind::UnterminatedString, at, k))
    } else if bytes[k] == 34u8 {
        Ok(k + 1)
    } else if bytes[k] == 92u8 {
        match escape_spec(bytes, k) {
            Ok((_, next)) => if k < next <= bytes.len() { string_end(bytes, at, next) } else { Err(e_unreachable()) },
            Err(e) => Err(e),
        }
    } else if bytes[k] == 10u8 {
        Err(fault_over(ErrorKind::UnterminatedString, at, k))
    } else if bytes[k] == 13u8 {
        Err(fault_over(ErrorKind::CarriageReturn, k, k + 1))
    } else if bytes[k] < 32u8 {
        Err(fault_over(ErrorKind::ControlCharacter(bytes[k] as char), k, k + 1))
    } else {
        string_end(bytes, at, k + 1)
    }
}

/// The plain string that starts at `at`.
pub open spec fn string_scan(bytes: Seq<u8>, at: int) -> Result<Token, Error> {
    match string_end(bytes, at, at + 1) {
        Ok(end) => Ok(token_over(TokenKind::String, at, end)),
        Err(e) => Err(e),
    }
}

/// Whether a number's digits, ending at `end`, open a dyadic literal: a lone `0` followed
/// by a base marker.
pub open spec fn opens_dyadic(bytes: Seq<u8>, digits: int, end: int) -> bool {
    &&& end == digits + 1
    &&& bytes[digits] == 48u8
    &&& end < bytes.len()
    &&& (bytes[end] == 98u8 || bytes[end] == 113u8 || bytes[end] == 111u8 || bytes[end] == 120u8)
}

/// Where a number whose digits run from `digits` to `end` ends: a dyadic literal takes the
/// letters and digits after its marker and then a `.` and digits; a decimal one a `.` and
/// digits, and then an exponent.
pub open spec fn number_end(bytes: Seq<u8>, digits: int, end: int) -> int {
    let n = bytes.len() as int;
    if opens_dyadic(bytes, digits, end) {
        let tail = run_end(bytes, end, Class::Alnum);
        if tail < n && bytes[tail] == 46u8 { run_end(bytes, tail + 1, Class::Digit) } else { tail }
    } else {
        let fraction = if end < n && bytes[end] == 46u8 { run_end(bytes, end + 1, Class::Digit) } else { end };
        if fraction < n && (bytes[fraction] == 101u8 || bytes[fraction] == 69u8) {
            let sign = if fraction + 1 < n && (bytes[fraction + 1] == 45u8 || bytes[fraction + 1] == 43u8) { fraction + 2 } else { fraction + 1 };
            run_end(bytes, sign, Class::Digit)
        } else {
            fraction
        }
    }
}

/// The number that starts at `at`: refused where no digit follows its sign, or where what
/// it takes spells a number in neither way.
pub open spec fn number_scan(bytes: Seq<u8>, at: int) -> Result<Token, Error> {
    let digits = if bytes[at] == 45u8 { at + 1 } else { at };
    let end = run_end(bytes, digits, Class::Digit);
    if end == digits {
        Err(fault_over(ErrorKind::UnexpectedCharacter('-'), at, end))
    } else {
        let stop = number_end(bytes, digits, end);
        if number_spelling(bytes.subrange(at, stop)) {
            Ok(token_over(TokenKind::Number, at, stop))
        } else {
            Err(fault_over(ErrorKind::NumberSpelling(arbitrary()), at, stop))
        }
    }
}

/// What the character at `at`, which opens no token, is refused as.
pub open spec fn unexpected_at(bytes: Seq<u8>, at: int) -> Error {
    let n = bytes.len() as int;
    let end = if width_at(bytes, at) <= n - at { at + width_at(bytes, at) } else { n };
    if at == 0 && char_at(bytes, 0) == '\u{FEFF}' {
        fault_over(ErrorKind::ByteOrderMark, at, end)
    } else {
        fault_over(ErrorKind::UnexpectedCharacter(char_at(bytes, at)), at, end)
    }
}

/// The byte after the one at `at`, if there is one.
pub open spec fn byte_after(bytes: Seq<u8>, at: int) -> Option<u8> {
    if at + 1 < bytes.len() { Some(bytes[at + 1]) } else { None }
}

/// The token that starts at `at` outside any interpolation's text: by its first byte, and
/// by the second where two tokens share the first.
pub open spec fn plain_scan(bytes: Seq<u8>, at: int) -> Result<Token, Error> {
    let b = bytes[at];
    let next = byte_after(bytes, at);
    if is_space(b) {
        Ok(token_over(TokenKind::Whitespace, at, run_end(bytes, at, Class::Space)))
    } else if b == 13u8 {
        Err(fault_over(ErrorKind::CarriageReturn, at, at + 1))
    } else if b == 35u8 {
        comment_scan(bytes, at)
    } else if b == 123u8 {
        Ok(token_over(TokenKind::BraceOpen, at, at + 1))
    } else if b == 125u8 {
        Ok(token_over(TokenKind::BraceClose, at, at + 1))
    } else if b == 91u8 {
        Ok(token_over(TokenKind::BracketOpen, at, at + 1))
    } else if b == 93u8 {
        Ok(token_over(TokenKind::BracketClose, at, at + 1))
    } else if b == 40u8 {
        Ok(token_over(TokenKind::ParenOpen, at, at + 1))
    } else if b == 41u8 {
        Ok(token_over(TokenKind::ParenClose, at, at + 1))
    } else if b == 61u8 {
        if next == Some(62u8) { Ok(token_over(TokenKind::Arrow, at, at + 2)) } else { Ok(token_over(TokenKind::Equals, at, at + 1)) }
    } else if b == 58u8 && next == Some(61u8) {
        Ok(token_over(TokenKind::Binder, at, at + 2))
    } else if b == 46u8 {
        Ok(token_over(TokenKind::Dot, at, at + 1))
    } else if b == 64u8 {
        Ok(token_over(TokenKind::At, at, at + 1))
    } else if b == 36u8 && next == Some(34u8) {
        Ok(token_over(TokenKind::InterpolationOpen, at, at + 2))
    } else if b == 34u8 {
        string_scan(bytes, at)
    } else if is_upper_byte(b) {
        Ok(token_over(TokenKind::Atom, at, run_end(bytes, at + 1, Class::AtomTail)))
    } else if is_lower_byte(b) {
        Ok(token_over(TokenKind::Ident, at, run_end(bytes, at + 1, Class::IdentTail)))
    } else if b == 45u8 || is_digit_byte(b) {
        number_scan(bytes, at)
    } else {
        Err(unexpected_at(bytes, at))
    }
}

/// Where a run of an interpolation's text opened at `open`, continuing at `k`, stops:
/// before a quote or a lone brace, a doubled brace and each escape taken on the way; or the
/// fault that stops it.
pub open spec fn text_end(bytes: Seq<u8>, open: int, k: int) -> Result<int, Error>
    decreases bytes.len() - k,
{
    let n = bytes.len() as int;
    if k < 0 || k >= n {
        Err(fault_over(ErrorKind::UnterminatedString, open, k))
    } else if bytes[k] == 34u8 {
        Ok(k)
    } else if (bytes[k] == 123u8 || bytes[k] == 125u8) && k + 1 < n && bytes[k + 1] == bytes[k] {
        text_end(bytes, open, k + 2)
    } else if bytes[k] == 123u8 || bytes[k] == 125u8 {
        Ok(k)
    } else if bytes[k] == 92u8 {
        match escape_spec(bytes, k) {
            Ok((_, next)) => if k < next <= n { text_end(bytes, open, next) } else { Err(e_unreachable()) },
            Err(e) => Err(e),
        }
    } else if bytes[k] == 10u8 {
        Err(fault_over(ErrorKind::UnterminatedString, open, k))
    } else if bytes[k] == 13u8 {
        Err(fault_over(ErrorKind::CarriageReturn, k, k + 1))
    } else if bytes[k] < 32u8 {
        Err(fault_over(ErrorKind::ControlCharacter(bytes[k] as char), k, k + 1))
    } else {
        text_end(bytes, open, k + 1)
    }
}

/// The token that starts at `at` in the text of an interpolation opened at `open`.
pub open spec fn text_scan(bytes: Seq<u8>, at: int, open: int) -> Result<Token, Error> {
    let b = bytes[at];
    let next = byte_after(bytes, at);
    if b == 34u8 {
        Ok(token_over(TokenKind::InterpolationClose, at, at + 1))
    } else if b == 123u8 && next != Some(123u8) {
        Ok(token_over(TokenKind::HoleOpen, at, at + 1))
    } else if b == 125u8 && next != Some(125u8) {
        Err(fault_over(ErrorKind::UnmatchedBrace, at, at + 1))
    } else {
        match text_end(bytes, open, at) {
            Ok(end) => Ok(token_over(TokenKind::Text, at, end)),
            Err(e) => Err(e),
        }
    }
}

/// Where a specifier that continues at `k` ends: at a brace, a quote, or the end of the
/// bytes.
pub open spec fn spec_end(bytes: Seq<u8>, k: int) -> int
    decreases bytes.len() - k,
{
    if k < 0 || k >= bytes.len() || bytes[k] == 123u8 || bytes[k] == 125u8 || bytes[k] == 34u8 {
        k
    } else {
        spec_end(bytes, k + 1)
    }
}

/// The token that starts at `at` in a hole with `braces` blocks open within it: a
/// specifier after a `:` that opens no binding, the braces that open and close blocks and
/// the hole, and otherwise what starts there outside any text.
pub open spec fn hole_scan(bytes: Seq<u8>, at: int, braces: int) -> Result<Token, Error> {
    let b = bytes[at];
    let next = byte_after(bytes, at);
    if b == 58u8 && next != Some(61u8) {
        Ok(token_over(TokenKind::Spec, at + 1, spec_end(bytes, at + 1)))
    } else if b == 123u8 {
        Ok(token_over(TokenKind::BraceOpen, at, at + 1))
    } else if b == 125u8 && braces == 0 {
        Ok(token_over(TokenKind::HoleClose, at, at + 1))
    } else if b == 125u8 {
        Ok(token_over(TokenKind::BraceClose, at, at + 1))
    } else {
        plain_scan(bytes, at)
    }
}

fn byte_at(bytes: &[u8], at: usize) -> (b: Option<u8>)
    ensures
        at < bytes@.len() ==> b == Some(bytes@[at as int]),
        at >= bytes@.len() ==> b is None,
{
    if at < bytes.len() { Some(bytes[at]) } else { None }
}

fn token(kind: TokenKind, start: usize, end: usize) -> (t: Token)
    ensures
        t.kind == kind,
        t.span.start == start,
        t.span.end == end,
{
    Token { kind, span: Span::new(start, end) }
}

fn fault(kind: ErrorKind, start: usize, end: usize) -> (e: Error)
    ensures
        e.kind == kind,
        e.span.start == start,
        e.span.end == end,
{
    Error::new(kind, Span::new(start, end))
}

/// Scans a comment, which runs from `#` to the end of its line.
fn scan_comment(bytes: &[u8], at: usize) -> (scanned: Result<Token, Error>)
    requires
        at < bytes@.len(),
        bytes@[at as int] == 35u8,
    ensures
        scanned matches Ok(t) ==> t.kind == TokenKind::Comment && t.span.start == at && token_shape(bytes@, t),
        scanned matches Err(e) ==> e.span.end <= bytes@.len(),
        same_scan(bytes@, scanned, comment_scan(bytes@, at as int)),
{
    let n = bytes.len();
    let mut end = at + 1;
    while end < n && bytes[end] != 10
        invariant
            at < end <= bytes@.len(),
            n == bytes@.len(),
            bytes@[at as int] == 35u8,
            forall|i: int| at <= i < end ==> bytes@[i] != 10u8,
            comment_end(bytes@, at + 1) == comment_end(bytes@, end as int),
        decreases bytes@.len() - end,
    {
        let b = bytes[end];
        if b == 13 {
            return Err(fault(ErrorKind::CarriageReturn, end, end + 1));
        }
        if b < 32 && b != 9 {
            return Err(fault(ErrorKind::ControlCharacter(b as char), end, end + 1));
        }
        end = end + 1;
    }
    Ok(token(TokenKind::Comment, at, end))
}

/// Scans a plain string, from its opening quote to its closing one.
fn scan_string(bytes: &[u8], at: usize) -> (scanned: Result<Token, Error>)
    requires
        at < bytes@.len(),
        bytes@[at as int] == 34u8,
    ensures
        scanned matches Ok(t) ==> t.kind == TokenKind::String && t.span.start == at && token_shape(bytes@, t),
        scanned matches Err(e) ==> e.span.end <= bytes@.len(),
        same_scan(bytes@, scanned, string_scan(bytes@, at as int)),
{
    let n = bytes.len();
    let mut end = at + 1;
    loop
        invariant
            at < end <= bytes@.len(),
            bytes@[at as int] == 34u8,
            string_end(bytes@, at as int, at + 1) == string_end(bytes@, at as int, end as int),
        decreases bytes@.len() - end,
    {
        if end >= bytes.len() {
            return Err(fault(ErrorKind::UnterminatedString, at, end));
        }
        let b = bytes[end];
        if b == 34 {
            return Ok(token(TokenKind::String, at, end + 1));
        }
        if b == 92 {
            match escape(bytes, end) {
                Ok((_, next)) => { end = next; },
                Err(e) => return Err(e),
            }
        } else if b == 10 {
            return Err(fault(ErrorKind::UnterminatedString, at, end));
        } else if b == 13 {
            return Err(fault(ErrorKind::CarriageReturn, end, end + 1));
        } else if b < 32 {
            return Err(fault(ErrorKind::ControlCharacter(b as char), end, end + 1));
        } else {
            end = end + 1;
        }
    }
}

/// Scans a number: an optional `-`, digits, and then either a dyadic tail of markers and
/// digits or a decimal fraction and exponent; the token is refused unless it spells a
/// number in one of the two ways.
fn scan_number(bytes: &[u8], at: usize) -> (scanned: Result<Token, Error>)
    requires
        at < bytes@.len(),
    ensures
        scanned matches Ok(t) ==> t.kind == TokenKind::Number && t.span.start == at && token_shape(bytes@, t),
        scanned matches Err(e) ==> e.span.end <= bytes@.len(),
        same_scan(bytes@, scanned, number_scan(bytes@, at as int)),
{
    let n = bytes.len();
    let mut end = at;
    if bytes[at] == 45 {
        end = end + 1;
    }
    let digits = end;
    let end0 = scan_run_of(bytes, end, Class::Digit);
    proof { lemma_run_end(bytes@, end as int, Class::Digit); }
    end = end0;
    if end == digits {
        return Err(fault(ErrorKind::UnexpectedCharacter('-'), at, end));
    }
    let dyadic = end == digits + 1 && bytes[digits] == 48 && end < n
        && (bytes[end] == 98 || bytes[end] == 113 || bytes[end] == 111 || bytes[end] == 120);
    if dyadic {
        let e1 = scan_run_of(bytes, end, Class::Alnum);
        proof { lemma_run_end(bytes@, end as int, Class::Alnum); }
        end = e1;
        if end < n && bytes[end] == 46 {
            let e2 = scan_run_of(bytes, end + 1, Class::Digit);
            proof { lemma_run_end(bytes@, end + 1, Class::Digit); }
            end = e2;
        }
    } else {
        if end < n && bytes[end] == 46 {
            let e2 = scan_run_of(bytes, end + 1, Class::Digit);
            proof { lemma_run_end(bytes@, end + 1, Class::Digit); }
            end = e2;
        }
        if end < n && (bytes[end] == 101 || bytes[end] == 69) {
            end = end + 1;
            if end < n && (bytes[end] == 45 || bytes[end] == 43) {
                end = end + 1;
            }
            let e3 = scan_run_of(bytes, end, Class::Digit);
            proof { lemma_run_end(bytes@, end as int, Class::Digit); }
            end = e3;
        }
    }
    proof {
        assert forall|i: int| at <= i < end implies bytes@[i] < 128 by {
            if i >= digits {
                // every byte the scan took is a digit, a letter, `.`, `e`, `E`, `+` or `-`
            }
        }
    }
    let text = slice_subrange(bytes, at, end);
    assert(text@ == bytes@.subrange(at as int, end as int));
    if canonical_number(text).is_none() && !is_dyadic(text) {
        let spelled = ascii_text(bytes, at, end);
        return Err(fault(ErrorKind::NumberSpelling(spelled), at, end));
    }
    Ok(token(TokenKind::Number, at, end))
}

} // verus!

verus! {

/// Refuses the character at `at`, which opens no token.
fn unexpected(bytes: &[u8], at: usize) -> (e: Error)
    requires
        at < bytes@.len(),
    ensures
        e.span.start == at,
        e.span.end <= bytes@.len(),
        e.kind == (if at == 0 && char_at(bytes@, 0) == '\u{FEFF}' { ErrorKind::ByteOrderMark } else { ErrorKind::UnexpectedCharacter(char_at(bytes@, at as int)) }),
        e == unexpected_at(bytes@, at as int),
{
    let (c, width) = decode_at(bytes, at);
    let end = if width <= bytes.len() - at { at + width } else { bytes.len() };
    if at == 0 && c == '\u{FEFF}' {
        fault(ErrorKind::ByteOrderMark, at, end)
    } else {
        fault(ErrorKind::UnexpectedCharacter(c), at, end)
    }
}

/// Scans one token outside any interpolation's text.
fn scan_plain(bytes: &[u8], at: usize) -> (scanned: Result<Token, Error>)
    requires
        at < bytes@.len(),
    ensures
        scanned matches Ok(t) ==> t.span.start == at && t.span.end > at && token_shape(bytes@, t)
            && t.kind != TokenKind::Text && t.kind != TokenKind::Spec && t.kind != TokenKind::HoleOpen
            && t.kind != TokenKind::HoleClose && t.kind != TokenKind::InterpolationClose,
        scanned matches Err(e) ==> e.span.end <= bytes@.len(),
        same_scan(bytes@, scanned, plain_scan(bytes@, at as int)),
{
    let n = bytes.len();
    let b = bytes[at];
    let next = byte_at(bytes, at + 1);
    if b == 32 || b == 9 || b == 10 {
        let end = scan_run_of(bytes, at, Class::Space);
        proof { lemma_run_end(bytes@, at as int, Class::Space); }
        return Ok(token(TokenKind::Whitespace, at, end));
    }
    if b == 13 {
        return Err(fault(ErrorKind::CarriageReturn, at, at + 1));
    }
    if b == 35 {
        return scan_comment(bytes, at);
    }
    if b == 123 { return Ok(token(TokenKind::BraceOpen, at, at + 1)); }
    if b == 125 { return Ok(token(TokenKind::BraceClose, at, at + 1)); }
    if b == 91 { return Ok(token(TokenKind::BracketOpen, at, at + 1)); }
    if b == 93 { return Ok(token(TokenKind::BracketClose, at, at + 1)); }
    if b == 40 { return Ok(token(TokenKind::ParenOpen, at, at + 1)); }
    if b == 41 { return Ok(token(TokenKind::ParenClose, at, at + 1)); }
    if b == 61 {
        if next == Some(62u8) {
            return Ok(token(TokenKind::Arrow, at, at + 2));
        }
        return Ok(token(TokenKind::Equals, at, at + 1));
    }
    if b == 58 && next == Some(61u8) {
        return Ok(token(TokenKind::Binder, at, at + 2));
    }
    if b == 46 { return Ok(token(TokenKind::Dot, at, at + 1)); }
    if b == 64 { return Ok(token(TokenKind::At, at, at + 1)); }
    if b == 36 && next == Some(34u8) {
        return Ok(token(TokenKind::InterpolationOpen, at, at + 2));
    }
    if b == 34 {
        return scan_string(bytes, at);
    }
    if 65 <= b && b <= 90 {
        let end = scan_run_of(bytes, at + 1, Class::AtomTail);
        return Ok(token(TokenKind::Atom, at, end));
    }
    if 97 <= b && b <= 122 {
        let end = scan_run_of(bytes, at + 1, Class::IdentTail);
        return Ok(token(TokenKind::Ident, at, end));
    }
    if b == 45 || (48 <= b && b <= 57) {
        return scan_number(bytes, at);
    }
    Err(unexpected(bytes, at))
}

/// Scans a run of an interpolation's text, which stops before a quote or a lone brace.
fn scan_run(bytes: &[u8], at: usize, open: usize) -> (scanned: Result<usize, Error>)
    requires
        at < bytes@.len(),
        open <= at,
        bytes@[at as int] != 34u8,
        bytes@[at as int] == 123u8 ==> at + 1 < bytes@.len() && bytes@[at + 1] == 123u8,
        bytes@[at as int] == 125u8 ==> at + 1 < bytes@.len() && bytes@[at + 1] == 125u8,
    ensures
        scanned matches Ok(end) ==> at < end <= bytes@.len(),
        scanned matches Err(e) ==> e.span.end <= bytes@.len(),
        scanned matches Ok(end) ==> text_end(bytes@, open as int, at as int) == Ok::<int, Error>(end as int),
        scanned matches Err(e) ==> text_end(bytes@, open as int, at as int) == Err::<int, Error>(e),
{
    let n = bytes.len();
    let mut end = at;
    loop
        invariant
            at <= end <= n,
            n == bytes@.len(),
            open <= at,
            text_end(bytes@, open as int, at as int) == text_end(bytes@, open as int, end as int),
            bytes@[at as int] != 34u8,
            bytes@[at as int] == 123u8 ==> at + 1 < bytes@.len() && bytes@[at + 1] == 123u8,
            bytes@[at as int] == 125u8 ==> at + 1 < bytes@.len() && bytes@[at + 1] == 125u8,
        decreases n - end,
    {
        if end >= n {
            return Err(fault(ErrorKind::UnterminatedString, open, end));
        }
        let b = bytes[end];
        if b == 34 {
            return Ok(end);
        }
        if (b == 123 || b == 125) && end + 1 < n && bytes[end + 1] == b {
            end = end + 2;
        } else if b == 123 || b == 125 {
            return Ok(end);
        } else if b == 92 {
            match escape(bytes, end) {
                Ok((_, next)) => { end = next; },
                Err(e) => return Err(e),
            }
        } else if b == 10 {
            return Err(fault(ErrorKind::UnterminatedString, open, end));
        } else if b == 13 {
            return Err(fault(ErrorKind::CarriageReturn, end, end + 1));
        } else if b < 32 {
            return Err(fault(ErrorKind::ControlCharacter(b as char), end, end + 1));
        } else {
            end = end + 1;
        }
    }
}

/// Scans the text of an interpolation opened at `open`.
fn scan_text(bytes: &[u8], at: usize, open: usize) -> (scanned: Result<Token, Error>)
    requires
        at < bytes@.len(),
        open <= at,
    ensures
        scanned matches Ok(t) ==> t.span.start == at && t.span.end > at && token_shape(bytes@, t)
            && (t.kind == TokenKind::InterpolationClose || t.kind == TokenKind::HoleOpen || t.kind == TokenKind::Text),
        scanned matches Err(e) ==> e.span.end <= bytes@.len(),
        same_scan(bytes@, scanned, text_scan(bytes@, at as int, open as int)),
{
    let b = bytes[at];
    let next = byte_at(bytes, at + 1);
    if b == 34 {
        return Ok(token(TokenKind::InterpolationClose, at, at + 1));
    }
    if b == 123 && next != Some(123u8) {
        return Ok(token(TokenKind::HoleOpen, at, at + 1));
    }
    if b == 125 && next != Some(125u8) {
        return Err(fault(ErrorKind::UnmatchedBrace, at, at + 1));
    }
    match scan_run(bytes, at, open) {
        Ok(end) => Ok(token(TokenKind::Text, at, end)),
        Err(e) => Err(e),
    }
}

/// Scans a hole's specifier, which follows its `:` and runs to a brace or a quote.
fn scan_spec(bytes: &[u8], colon: usize) -> (t: Token)
    requires
        colon < bytes@.len(),
    ensures
        t.kind == TokenKind::Spec,
        t.span.start == colon + 1,
        token_shape(bytes@, t),
        t == token_over(TokenKind::Spec, colon + 1, spec_end(bytes@, colon + 1)),
{
    let n = bytes.len();
    let mut end = colon + 1;
    while end < n && bytes[end] != 123 && bytes[end] != 125 && bytes[end] != 34
        invariant
            colon + 1 <= end <= n,
            n == bytes@.len(),
            spec_end(bytes@, colon + 1) == spec_end(bytes@, end as int),
            forall|i: int| colon + 1 <= i < end ==> bytes@[i] != 123u8 && bytes@[i] != 125u8 && bytes@[i] != 34u8,
        decreases n - end,
    {
        end = end + 1;
    }
    token(TokenKind::Spec, colon + 1, end)
}

/// Scans one token inside a hole, which has `braces` blocks open within it.
fn scan_in_hole(bytes: &[u8], at: usize, braces: usize) -> (scanned: Result<Token, Error>)
    requires
        at < bytes@.len(),
    ensures
        scanned matches Ok(t) ==> t.span.start >= at && t.span.end > at && token_shape(bytes@, t)
            && t.kind != TokenKind::Text && t.kind != TokenKind::HoleOpen && t.kind != TokenKind::InterpolationClose
            && (t.kind == TokenKind::HoleClose ==> braces == 0)
            && (t.kind == TokenKind::BraceClose ==> braces > 0)
            && (t.kind == TokenKind::Spec ==> t.span.start == at + 1)
            && (t.kind != TokenKind::Spec ==> t.span.start == at),
        scanned matches Err(e) ==> e.span.end <= bytes@.len(),
        same_scan(bytes@, scanned, hole_scan(bytes@, at as int, braces as int)),
{
    let b = bytes[at];
    let next = byte_at(bytes, at + 1);
    if b == 58 && next != Some(61u8) {
        return Ok(scan_spec(bytes, at));
    }
    if b == 123 {
        return Ok(token(TokenKind::BraceOpen, at, at + 1));
    }
    if b == 125 && braces == 0 {
        return Ok(token(TokenKind::HoleClose, at, at + 1));
    }
    if b == 125 {
        return Ok(token(TokenKind::BraceClose, at, at + 1));
    }
    scan_plain(bytes, at)
}

} // verus!

verus! {

/// The mode the lexer is in after the token `t`, read at `at`, in `modes`: an
/// interpolation's text opens and closes, a hole opens and closes, and a hole counts the
/// blocks open within it.
spec fn moved(modes: Seq<Mode>, t: Token, at: int) -> Seq<Mode> {
    let top = if modes.len() > 0 { Some(modes.last()) } else { None };
    match (top, t.kind) {
        (_, TokenKind::InterpolationOpen) => modes.push(Mode::Text { open: at as usize }),
        (Some(Mode::Text { .. }), TokenKind::InterpolationClose) => modes.drop_last(),
        (Some(Mode::Text { .. }), TokenKind::HoleOpen) => modes.push(Mode::Hole { open: at as usize, braces: 0 }),
        (Some(Mode::Hole { .. }), TokenKind::HoleClose) => modes.drop_last(),
        (Some(Mode::Hole { open, braces }), TokenKind::BraceOpen) => modes.drop_last().push(Mode::Hole { open, braces: (braces + 1) as usize }),
        (Some(Mode::Hole { open, braces }), TokenKind::BraceClose) => modes.drop_last().push(Mode::Hole { open, braces: (braces - 1) as usize }),
        _ => modes,
    }
}

/// One step of the lexer at `offset` in `modes`: what it reads, where it goes on from, and
/// in which modes. At the end of the bytes an open interpolation or hole is a fault; a
/// fault ends the bytes.
spec fn next_spec(bytes: Seq<u8>, offset: int, modes: Seq<Mode>) -> (Option<Result<Token, Error>>, int, Seq<Mode>) {
    let n = bytes.len() as int;
    if offset >= n {
        let read = if modes.len() > 0 {
            match modes.last() {
                Mode::Text { open } => Some(Err(fault_over(ErrorKind::UnterminatedString, open as int, offset))),
                Mode::Hole { open, .. } => Some(Err(fault_over(ErrorKind::UnterminatedHole, open as int, offset))),
            }
        } else {
            None
        };
        (read, offset, Seq::empty())
    } else {
        let scanned = if modes.len() > 0 {
            match modes.last() {
                Mode::Text { open } => text_scan(bytes, offset, open as int),
                Mode::Hole { braces, .. } => hole_scan(bytes, offset, braces as int),
            }
        } else {
            plain_scan(bytes, offset)
        };
        match scanned {
            Err(e) => (Some(Err(e)), n, Seq::empty()),
            Ok(t) => (Some(Ok(t)), t.span.end as int, moved(modes, t, offset)),
        }
    }
}

/// The meaningful tokens the lexer reads from `offset` on in `modes`, and the fault that
/// stops it, if one does.
spec fn lex_from(bytes: Seq<u8>, offset: int, modes: Seq<Mode>) -> (Seq<Token>, Option<Error>)
    decreases bytes.len() - offset,
{
    let (read, to, next) = next_spec(bytes, offset, modes);
    match read {
        None => (Seq::empty(), None),
        Some(Err(e)) => (Seq::empty(), Some(e)),
        Some(Ok(t)) => if offset < to <= bytes.len() {
            let rest = lex_from(bytes, to, next);
            (if t.kind == TokenKind::Whitespace || t.kind == TokenKind::Comment { rest.0 } else { seq![t] + rest.0 }, rest.1)
        } else {
            (Seq::empty(), None)
        },
    }
}

/// The meaningful tokens of a text, in order, and the fault that stops the lexer, if one
/// does: each token is the one that starts where the last ended, read in the mode the
/// interpolations and holes so far leave, and trivia carries no meaning.
pub closed spec fn lexing(bytes: Seq<u8>) -> (Seq<Token>, Option<Error>) {
    lex_from(bytes, 0, Seq::empty())
}

/// The spans of the comments the lexer reads from `offset` on, up to its end or its fault.
spec fn comments_from(bytes: Seq<u8>, offset: int, modes: Seq<Mode>) -> Seq<Span>
    decreases bytes.len() - offset,
{
    let (read, to, next) = next_spec(bytes, offset, modes);
    match read {
        Some(Ok(t)) => if offset < to <= bytes.len() {
            let rest = comments_from(bytes, to, next);
            if t.kind == TokenKind::Comment { seq![t.span] + rest } else { rest }
        } else {
            Seq::empty()
        },
        _ => Seq::empty(),
    }
}

/// The spans of a text's comments, in order, up to the fault that stops the lexer.
pub closed spec fn comment_spans(bytes: Seq<u8>) -> Seq<Span> {
    comments_from(bytes, 0, Seq::empty())
}

/// Whether a step read what `expected` says: nothing, or the same token or fault.
pub open spec fn same_step(bytes: Seq<u8>, actual: Option<Result<Token, Error>>, expected: Option<Result<Token, Error>>) -> bool {
    match expected {
        None => actual is None,
        Some(r) => actual matches Some(a) && same_scan(bytes, a, r),
    }
}

/// Whether a fault that stopped the lexer is the one `expected` says, or neither is there.
pub open spec fn same_end(bytes: Seq<u8>, actual: Option<Error>, expected: Option<Error>) -> bool {
    match expected {
        None => actual is None,
        Some(e) => actual matches Some(a) && same_fault(bytes, a, e),
    }
}

/// Reads a source text one token at a time, trivia included.
pub struct Lexer<'a> {
    bytes: &'a [u8],
    offset: usize,
    modes: Vec<Mode>,
}

impl<'a> Lexer<'a> {
    /// The bytes being read.
    pub closed spec fn source(&self) -> Seq<u8> {
        self.bytes@
    }

    /// How far the lexer has read.
    pub closed spec fn offset(&self) -> nat {
        self.offset as nat
    }

    /// What the next step reads.
    pub closed spec fn next_read(&self) -> Option<Result<Token, Error>> {
        next_spec(self.bytes@, self.offset as int, self.modes@).0
    }

    /// Whether this lexer stands where `before` goes after one step.
    pub closed spec fn stepped(&self, before: &Lexer) -> bool {
        let (_, to, modes) = next_spec(before.bytes@, before.offset as int, before.modes@);
        self.offset as int == to && self.modes@ == modes
    }

    /// The meaningful tokens left to read, and the fault that stops the lexer, if one does.
    pub closed spec fn rest(&self) -> (Seq<Token>, Option<Error>) {
        lex_from(self.bytes@, self.offset as int, self.modes@)
    }

    /// The spans of the comments left to read.
    pub closed spec fn comments_left(&self) -> Seq<Span> {
        comments_from(self.bytes@, self.offset as int, self.modes@)
    }

    /// The lexer reads within its text, and a hole never counts more open blocks than
    /// bytes have been read.
    pub closed spec fn wf(&self) -> bool {
        &&& self.offset <= self.bytes@.len()
        &&& forall|i: int| 0 <= i < self.modes@.len() ==> match #[trigger] self.modes@[i] {
            Mode::Hole { open, braces } => braces <= self.offset && open <= self.offset,
            Mode::Text { open } => open <= self.offset,
        }
    }

    pub fn new(source: &'a str) -> (lexer: Lexer<'a>)
        ensures
            lexer.wf(),
            lexer.source() == source.spec_bytes(),
            lexer.offset() == 0,
            lexer.rest() == lexing(source.spec_bytes()),
            lexer.comments_left() == comment_spans(source.spec_bytes()),
    {
        Lexer { bytes: source.as_bytes(), offset: 0, modes: Vec::new() }
    }

    /// The next token, trivia included; a fault ends the text, and the end of the text
    /// inside an interpolation or a hole is a fault.
    #[verifier::rlimit(60)]
    pub fn next_token(&mut self) -> (scanned: Option<Result<Token, Error>>)
        requires
            old(self).wf(),
        ensures
            final(self).wf(),
            final(self).source() == old(self).source(),
            final(self).offset() >= old(self).offset(),
            scanned matches Some(Ok(t)) ==> (t.span.start == old(self).offset()
                || (t.kind == TokenKind::Spec && t.span.start == old(self).offset() + 1)) && t.span.end == final(self).offset()
                && final(self).offset() > old(self).offset() && token_shape(old(self).source(), t),
            scanned matches Some(Err(_)) ==> final(self).next_read() is None,
            scanned is None ==> final(self).next_read() is None,
            scanned matches Some(Err(e)) ==> final(self).offset() == final(self).source().len() && e.span.end <= final(self).source().len(),
            scanned is None ==> old(self).offset() >= old(self).source().len() && final(self).offset() == old(self).offset(),
            same_step(old(self).source(), scanned, old(self).next_read()),
            final(self).stepped(old(self)),
    {
        let n = self.bytes.len();
        if self.offset >= n {
            let unclosed = if self.modes.len() > 0 { Some(self.modes[self.modes.len() - 1]) } else { None };
            self.modes = Vec::new();
            return match unclosed {
                Some(Mode::Text { open }) => Some(Err(fault(ErrorKind::UnterminatedString, open, self.offset))),
                Some(Mode::Hole { open, braces: _ }) => Some(Err(fault(ErrorKind::UnterminatedHole, open, self.offset))),
                None => None,
            };
        }
        let at = self.offset;
        let top = if self.modes.len() > 0 { Some(self.modes[self.modes.len() - 1]) } else { None };
        proof {
            if self.modes@.len() > 0 {
                let i = self.modes@.len() - 1;
                assert(match self.modes@[i] {
                    Mode::Hole { open, braces } => braces <= self.offset && open <= self.offset,
                    Mode::Text { open } => open <= self.offset,
                });
            }
        }
        let scanned = match top {
            Some(Mode::Text { open }) => scan_text(self.bytes, at, open),
            Some(Mode::Hole { open: _, braces }) => scan_in_hole(self.bytes, at, braces),
            None => scan_plain(self.bytes, at),
        };
        match scanned {
            Err(e) => {
                self.offset = n;
                self.modes = Vec::new();
                Some(Err(e))
            },
            Ok(t) => {
                self.offset = t.span.end;
                let ghost modes_before = self.modes@;
                match (top, t.kind) {
                    (_, TokenKind::InterpolationOpen) => {
                        self.modes.push(Mode::Text { open: at });
                    },
                    (Some(Mode::Text { open: _ }), TokenKind::InterpolationClose) => {
                        self.modes.pop();
                    },
                    (Some(Mode::Text { open: _ }), TokenKind::HoleOpen) => {
                        self.modes.push(Mode::Hole { open: at, braces: 0 });
                    },
                    (Some(Mode::Hole { open, braces }), TokenKind::HoleClose) => {
                        self.modes.pop();
                    },
                    (Some(Mode::Hole { open, braces }), TokenKind::BraceOpen) => {
                        self.modes.pop();
                        self.modes.push(Mode::Hole { open, braces: braces + 1 });
                    },
                    (Some(Mode::Hole { open, braces }), TokenKind::BraceClose) => {
                        self.modes.pop();
                        self.modes.push(Mode::Hole { open, braces: braces - 1 });
                    },
                    _ => {},
                }
                proof {
                    assert forall|i: int| 0 <= i < self.modes@.len() implies match #[trigger] self.modes@[i] {
                        Mode::Hole { open, braces } => braces <= self.offset && open <= self.offset,
                        Mode::Text { open } => open <= self.offset,
                    } by {
                        if i < modes_before.len() - 1 || (i < modes_before.len() && self.modes@.len() > modes_before.len()) {
                            assert(self.modes@[i] == modes_before[i]);
                        }
                    }
                }
                Some(Ok(t))
            },
        }
    }
}

/// What the lexer promises of the meaningful tokens it reads from `bytes`: each is shaped as
/// its kind says, none is trivia, and they stand in order without overlapping.
pub open spec fn lexed(bytes: Seq<u8>, ts: Seq<Token>) -> bool {
    &&& forall|i: int| 0 <= i < ts.len() ==> token_shape(bytes, #[trigger] ts[i])
        && ts[i].kind != TokenKind::Whitespace && ts[i].kind != TokenKind::Comment
    &&& forall|i: int, j: int| 0 <= i < j < ts.len() ==> (#[trigger] ts[i]).span.end <= (#[trigger] ts[j]).span.start
}

/// The meaningful tokens of a source text in order, and the fault that stopped the lexer, if
/// one did.
pub fn tokens(source: &str) -> (read: (Vec<Token>, Option<Error>))
    ensures
        read.0@ == lexing(source.spec_bytes()).0,
        same_end(source.spec_bytes(), read.1, lexing(source.spec_bytes()).1),
        lexed(source.spec_bytes(), read.0@),
        read.1 matches Some(e) ==> e.span.end <= source.spec_bytes().len(),
{
    let mut lexer = Lexer::new(source);
    let mut found: Vec<Token> = Vec::new();
    loop
        invariant
            lexer.wf(),
            lexer.source() == source.spec_bytes(),
            forall|i: int| 0 <= i < found@.len() ==> token_shape(source.spec_bytes(), #[trigger] found@[i])
                && found@[i].kind != TokenKind::Whitespace && found@[i].kind != TokenKind::Comment,
            forall|i: int, j: int| 0 <= i < j < found@.len() ==> found@[i].span.end <= found@[j].span.start,
            forall|i: int| 0 <= i < found@.len() ==> found@[i].span.end <= lexer.offset(),
            lexing(source.spec_bytes()).0 == found@ + lexer.rest().0,
            lexing(source.spec_bytes()).1 == lexer.rest().1,
        decreases source.spec_bytes().len() - lexer.offset(), if lexer.offset() >= source.spec_bytes().len() { 0int } else { 1int },
    {
        let ghost before = lexer;
        let ghost shown = found@;
        let step = lexer.next_token();
        proof {
            assert(before.rest() == lex_from(before.bytes@, before.offset as int, before.modes@));
            assert(lexer.rest() == lex_from(lexer.bytes@, lexer.offset as int, lexer.modes@));
        }
        match step {
            None => return (found, None),
            Some(Err(e)) => return (found, Some(e)),
            Some(Ok(t)) => {
                if !t.kind.is_trivia() {
                    found.push(t);
                    proof { assert(shown + (seq![t] + lexer.rest().0) =~= found@ + lexer.rest().0); }
                }
            },
        }
    }
}

/// One step of the lexer: where it reads nothing the text ends without a fault, where it
/// reads a fault that fault stops the text, and where it reads a token the fault and the
/// comments left are those after it, and the token's span if it is a comment.
pub proof fn lemma_step(before: &Lexer, after: &Lexer, scanned: Option<Result<Token, Error>>)
    requires
        before.wf(),
        after.wf(),
        after.source() == before.source(),
        after.stepped(before),
        same_step(before.source(), scanned, before.next_read()),
        scanned matches Some(Ok(_)) ==> after.offset() > before.offset(),
    ensures
        scanned is None ==> before.rest().1 is None && before.comments_left() == Seq::<Span>::empty(),
        scanned matches Some(Err(_)) ==> before.rest().1 is Some,
        scanned matches Some(Ok(t)) ==> before.rest().1 == after.rest().1
            && before.comments_left() == (if t.kind == TokenKind::Comment { seq![t.span] } else { Seq::<Span>::empty() }) + after.comments_left(),
{
    assert(before.rest() == lex_from(before.bytes@, before.offset as int, before.modes@));
    assert(after.rest() == lex_from(after.bytes@, after.offset as int, after.modes@));
    if let Some(Ok(t)) = scanned {
        let rest = after.comments_left();
        if t.kind == TokenKind::Comment {
            assert(before.comments_left() == seq![t.span] + rest);
        } else {
            assert(before.comments_left() == Seq::<Span>::empty() + rest);
        }
    }
}

} // verus!

