//! Why a text was refused, and where.
use vstd::prelude::*;
use crate::span::{Location, Span, location_of};
use vstd::string::StringSliceAdditionalSpecFns;
use crate::text::{append, radix_digits, radix_text, repeat, run};
use crate::utf::push_char;

verus! {

/// What is wrong with a text that does not read as a document.
#[derive(Debug, Clone, PartialEq, Eq)]
pub enum ErrorKind {
    ByteOrderMark,
    CarriageReturn,
    ControlCharacter(char),
    UnexpectedCharacter(char),
    UnknownEscape(char),
    MalformedUnicodeEscape,
    SurrogateEscape(u32),
    ScalarOutOfRange(u32),
    UnterminatedString,
    UnterminatedHole,
    UnmatchedBrace,
    NumberSpelling(String),
    DyadicTooWide,
    FloatOutOfRange,
    MalformedSpec,
    EmptyDocument,
    IdentAsValue(String),
    SurfaceBinder,
    SurfaceDot,
    SurfaceCall,
    SurfaceInterpolation,
    SurfaceDyadic,
    ExpectedValue,
    ExpectedHoleClose,
    ExpectedFieldName,
    ExpectedAccessName,
    ExpectedBuiltinName,
    ExpectedEquals,
    ExpectedArrow,
    ExpectedBindingName,
    ExpectedKeyClose,
    UnterminatedKey,
    MixedPairOperators,
    MisplacedBinding,
    OnlyBindings,
    UnterminatedList,
    UnterminatedBlock,
    DuplicateField(String),
    DuplicateBinding(String),
    DuplicateKey,
    TrailingInput,
    TooDeep,
}

/// A fault and the span of text that raised it.
#[derive(Debug, Clone, PartialEq, Eq)]
pub struct Error {
    pub kind: ErrorKind,
    pub span: Span,
}

impl Error {
    pub fn new(kind: ErrorKind, span: Span) -> (error: Error)
        ensures
            error.kind == kind,
            error.span == span,
    {
        Error { kind, span }
    }

    pub fn kind(&self) -> (kind: &ErrorKind)
        ensures
            *kind == self.kind,
    {
        &self.kind
    }

    pub fn span(&self) -> (span: Span)
        ensures
            span == self.span,
    {
        self.span
    }

    /// The line and column at which the fault stands in `source`.
    pub fn location(&self, source: &str) -> (at: Location)
        requires
            source.spec_bytes().len() < usize::MAX,
        ensures
            at == location_of(source.spec_bytes(), self.span.start as int),
    {
        self.span.location(source)
    }
}

} // verus!

verus! {

/// A number in uppercase hex, at least four digits wide.
pub open spec fn hex4(v: nat) -> Seq<char> {
    let digits = radix_digits(v, 16, true);
    if digits.len() < 4 { repeat('0', (4 - digits.len()) as nat) + digits } else { digits }
}

fn append_hex4(text: &mut String, v: u128)
    ensures
        final(text)@ == old(text)@ + hex4(v as nat),
{
    let digits = radix_text(v, 16, true);
    if digits.len() < 4 {
        append(text, run('0', 4 - digits.len()).as_str());
    }
    let ghost middle = text@;
    let mut i: usize = 0;
    while i < digits.len()
        invariant
            i <= digits@.len(),
            text@ == middle + digits@.subrange(0, i as int),
        decreases digits@.len() - i,
    {
        push_char(text, digits[i]);
        i = i + 1;
        assert(text@ =~= middle + digits@.subrange(0, i as int));
    }
    assert(digits@.subrange(0, digits@.len() as int) =~= digits@);
}

/// What a syntax fault says, in words.
pub open spec fn message_of(kind: ErrorKind) -> Seq<char> {
    match kind {
        ErrorKind::ByteOrderMark => "a byte order mark is not allowed; files are UTF-8 without one"@,
        ErrorKind::CarriageReturn => "a carriage return is not allowed; canonical files are LF-only"@,
        ErrorKind::ControlCharacter(c) => "the control character U+"@ + hex4(c as nat) + " must be escaped"@,
        ErrorKind::UnexpectedCharacter(c) => "`"@ + seq![c] + "` cannot start a value"@,
        ErrorKind::UnknownEscape(c) => "`\\"@ + seq![c] + "` is not an escape; they are \\\" \\\\ \\n \\r \\t and \\u{…}"@,
        ErrorKind::MalformedUnicodeEscape => "a unicode escape is `\\u{…}` around one to six uppercase hex digits"@,
        ErrorKind::SurrogateEscape(v) => "U+"@ + hex4(v as nat) + " is a surrogate, not a scalar value"@,
        ErrorKind::ScalarOutOfRange(v) => "U+"@ + hex4(v as nat) + " is past the last scalar value, U+10FFFF"@,
        ErrorKind::UnterminatedString => "this string is never closed"@,
        ErrorKind::UnterminatedHole => "this hole is never closed"@,
        ErrorKind::UnmatchedBrace => "a lone `}` is no brace inside `$\"…\"`; a literal one is written `}}`, as `{` is written `{{`"@,
        ErrorKind::NumberSpelling(s) => "`"@ + s@ + "` is not how the canonical form spells a number"@,
        ErrorKind::DyadicTooWide => "this literal is past 128 bits, and every base but ten is arithmetic that holds no more"@,
        ErrorKind::FloatOutOfRange => "this float is past what a double holds, and there is no infinity"@,
        ErrorKind::MalformedSpec => "this is not a specifier; one is written the way Rust writes one, after a `:`"@,
        ErrorKind::EmptyDocument => "a document is one value, and this one is empty"@,
        ErrorKind::IdentAsValue(s) => "`"@ + s@ + "` is an identifier, not a value; the canonical form names only a tuple's fields"@,
        ErrorKind::SurfaceBinder => "`:=` binds a name in the surface language, and the canonical form carries data alone"@,
        ErrorKind::SurfaceDot => "`.` projects a field in the surface language, and the canonical form carries data alone"@,
        ErrorKind::SurfaceCall => "`@` calls a builtin in the surface language, and the canonical form carries data alone"@,
        ErrorKind::SurfaceInterpolation => "`$\"…\"` interpolates in the surface language, and the canonical form carries data alone"@,
        ErrorKind::SurfaceDyadic => "a literal in another base is surface syntax, and the canonical form spells an integer in decimal"@,
        ErrorKind::ExpectedValue => "expected a value"@,
        ErrorKind::ExpectedHoleClose => "a hole holds one value, and `}` closes it; a builtin wanting more takes a collection, and so does a hole"@,
        ErrorKind::ExpectedFieldName => "expected a field name; this block is a tuple, because its first pair uses `=`"@,
        ErrorKind::ExpectedAccessName => "`.` projects a field, and a field is named by an identifier"@,
        ErrorKind::ExpectedBuiltinName => "`@` calls a builtin, and a builtin is named by an identifier"@,
        ErrorKind::ExpectedEquals => "expected `=` after a field name"@,
        ErrorKind::ExpectedArrow => "expected `=>` after a map key; a pair bound with `=` is a tuple field, and a field is named by an identifier"@,
        ErrorKind::ExpectedBindingName => "`:=` binds a name, and a name is an identifier"@,
        ErrorKind::ExpectedKeyClose => "a key is one value, and `)` closes it"@,
        ErrorKind::UnterminatedKey => "this key is never closed"@,
        ErrorKind::MixedPairOperators => "a block is a tuple or a map, and cannot hold both `=` and `=>`"@,
        ErrorKind::MisplacedBinding => "a binding stands at the head of its block or of the document, before any pair, and a list holds none"@,
        ErrorKind::OnlyBindings => "a document is one value, and this one only binds names"@,
        ErrorKind::UnterminatedList => "this list is never closed"@,
        ErrorKind::UnterminatedBlock => "this block is never closed"@,
        ErrorKind::DuplicateField(s) => "the field `"@ + s@ + "` is already in this tuple"@,
        ErrorKind::DuplicateBinding(s) => "the name `"@ + s@ + "` is already bound in this block"@,
        ErrorKind::DuplicateKey => "this key is already in this map"@,
        ErrorKind::TrailingInput => "a document is one value, and this one runs past its end"@,
        ErrorKind::TooDeep => "this expression nests deeper than 128 levels"@,
    }
}

impl ErrorKind {
    /// What the fault says, in words.
    pub fn message(&self) -> (message: String)
        ensures
            message@ == message_of(*self),
    {
        let mut text = String::new();
        match self {
            ErrorKind::ByteOrderMark => append(&mut text, "a byte order mark is not allowed; files are UTF-8 without one"),
            ErrorKind::CarriageReturn => append(&mut text, "a carriage return is not allowed; canonical files are LF-only"),
            ErrorKind::ControlCharacter(c) => {
                append(&mut text, "the control character U+");
                append_hex4(&mut text, *c as u32 as u128);
                append(&mut text, " must be escaped");
            },
            ErrorKind::UnexpectedCharacter(c) => {
                append(&mut text, "`");
                push_char(&mut text, *c);
                append(&mut text, "` cannot start a value");
            },
            ErrorKind::UnknownEscape(c) => {
                append(&mut text, "`\\");
                push_char(&mut text, *c);
                append(&mut text, "` is not an escape; they are \\\" \\\\ \\n \\r \\t and \\u{…}");
            },
            ErrorKind::MalformedUnicodeEscape => append(&mut text, "a unicode escape is `\\u{…}` around one to six uppercase hex digits"),
            ErrorKind::SurrogateEscape(v) => {
                append(&mut text, "U+");
                append_hex4(&mut text, *v as u128);
                append(&mut text, " is a surrogate, not a scalar value");
            },
            ErrorKind::ScalarOutOfRange(v) => {
                append(&mut text, "U+");
                append_hex4(&mut text, *v as u128);
                append(&mut text, " is past the last scalar value, U+10FFFF");
            },
            ErrorKind::UnterminatedString => append(&mut text, "this string is never closed"),
            ErrorKind::UnterminatedHole => append(&mut text, "this hole is never closed"),
            ErrorKind::UnmatchedBrace => append(&mut text, "a lone `}` is no brace inside `$\"…\"`; a literal one is written `}}`, as `{` is written `{{`"),
            ErrorKind::NumberSpelling(s) => {
                append(&mut text, "`");
                append(&mut text, s.as_str());
                append(&mut text, "` is not how the canonical form spells a number");
            },
            ErrorKind::DyadicTooWide => append(&mut text, "this literal is past 128 bits, and every base but ten is arithmetic that holds no more"),
            ErrorKind::FloatOutOfRange => append(&mut text, "this float is past what a double holds, and there is no infinity"),
            ErrorKind::MalformedSpec => append(&mut text, "this is not a specifier; one is written the way Rust writes one, after a `:`"),
            ErrorKind::EmptyDocument => append(&mut text, "a document is one value, and this one is empty"),
            ErrorKind::IdentAsValue(s) => {
                append(&mut text, "`");
                append(&mut text, s.as_str());
                append(&mut text, "` is an identifier, not a value; the canonical form names only a tuple's fields");
            },
            ErrorKind::SurfaceBinder => append(&mut text, "`:=` binds a name in the surface language, and the canonical form carries data alone"),
            ErrorKind::SurfaceDot => append(&mut text, "`.` projects a field in the surface language, and the canonical form carries data alone"),
            ErrorKind::SurfaceCall => append(&mut text, "`@` calls a builtin in the surface language, and the canonical form carries data alone"),
            ErrorKind::SurfaceInterpolation => append(&mut text, "`$\"…\"` interpolates in the surface language, and the canonical form carries data alone"),
            ErrorKind::SurfaceDyadic => append(&mut text, "a literal in another base is surface syntax, and the canonical form spells an integer in decimal"),
            ErrorKind::ExpectedValue => append(&mut text, "expected a value"),
            ErrorKind::ExpectedHoleClose => append(&mut text, "a hole holds one value, and `}` closes it; a builtin wanting more takes a collection, and so does a hole"),
            ErrorKind::ExpectedFieldName => append(&mut text, "expected a field name; this block is a tuple, because its first pair uses `=`"),
            ErrorKind::ExpectedAccessName => append(&mut text, "`.` projects a field, and a field is named by an identifier"),
            ErrorKind::ExpectedBuiltinName => append(&mut text, "`@` calls a builtin, and a builtin is named by an identifier"),
            ErrorKind::ExpectedEquals => append(&mut text, "expected `=` after a field name"),
            ErrorKind::ExpectedArrow => append(&mut text, "expected `=>` after a map key; a pair bound with `=` is a tuple field, and a field is named by an identifier"),
            ErrorKind::ExpectedBindingName => append(&mut text, "`:=` binds a name, and a name is an identifier"),
            ErrorKind::ExpectedKeyClose => append(&mut text, "a key is one value, and `)` closes it"),
            ErrorKind::UnterminatedKey => append(&mut text, "this key is never closed"),
            ErrorKind::MixedPairOperators => append(&mut text, "a block is a tuple or a map, and cannot hold both `=` and `=>`"),
            ErrorKind::MisplacedBinding => append(&mut text, "a binding stands at the head of its block or of the document, before any pair, and a list holds none"),
            ErrorKind::OnlyBindings => append(&mut text, "a document is one value, and this one only binds names"),
            ErrorKind::UnterminatedList => append(&mut text, "this list is never closed"),
            ErrorKind::UnterminatedBlock => append(&mut text, "this block is never closed"),
            ErrorKind::DuplicateField(s) => {
                append(&mut text, "the field `");
                append(&mut text, s.as_str());
                append(&mut text, "` is already in this tuple");
            },
            ErrorKind::DuplicateBinding(s) => {
                append(&mut text, "the name `");
                append(&mut text, s.as_str());
                append(&mut text, "` is already bound in this block");
            },
            ErrorKind::DuplicateKey => append(&mut text, "this key is already in this map"),
            ErrorKind::TrailingInput => append(&mut text, "a document is one value, and this one runs past its end"),
            ErrorKind::TooDeep => append(&mut text, "this expression nests deeper than 128 levels"),
        }
        text
    }
}

} // verus!
