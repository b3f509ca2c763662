//! A hole's format specifier, read the way Rust reads one.
use vstd::prelude::*;
use crate::error::{Error, ErrorKind};
use crate::span::Span;
use crate::utf::{char_at, decode_at, width_at};

verus! {

/// How padding places a value within its width.
#[derive(Debug, Clone, Copy, PartialEq, Eq, Structural)]
pub enum Align {
    Left,
    Centre,
    Right,
}

/// The radix or notation a number is written in.
#[derive(Debug, Clone, Copy, PartialEq, Eq, Structural)]
pub enum Notation {
    Binary,
    Octal,
    LowerHex,
    UpperHex,
    Exponent,
}

/// What a hole asks of the text it hands over.
#[derive(Debug, Clone, Copy, PartialEq, Eq, Structural)]
pub struct Spec {
    pub fill: Option<char>,
    pub align: Option<Align>,
    pub sign: bool,
    pub prefixed: bool,
    pub zeroed: bool,
    pub width: Option<usize>,
    pub precision: Option<usize>,
    pub notation: Option<Notation>,
}

impl Default for Spec {
    fn default() -> (spec: Spec)
        ensures
            spec == empty_spec(),
    {
        Spec { fill: None, align: None, sign: false, prefixed: false, zeroed: false, width: None, precision: None, notation: None }
    }
}

/// A specifier that asks for nothing.
pub open spec fn empty_spec() -> Spec {
    Spec { fill: None, align: None, sign: false, prefixed: false, zeroed: false, width: None, precision: None, notation: None }
}

pub open spec fn align_of(c: char) -> Option<Align> {
    if c == '<' { Some(Align::Left) } else if c == '^' { Some(Align::Centre) } else if c == '>' { Some(Align::Right) } else { None }
}

pub open spec fn notation_of(c: char) -> Option<Notation> {
    if c == 'b' { Some(Notation::Binary) }
    else if c == 'o' { Some(Notation::Octal) }
    else if c == 'x' { Some(Notation::LowerHex) }
    else if c == 'X' { Some(Notation::UpperHex) }
    else if c == 'e' { Some(Notation::Exponent) }
    else { None }
}

impl Align {
    fn of(c: char) -> (align: Option<Align>)
        ensures
            align == align_of(c),
    {
        if c == '<' { Some(Align::Left) } else if c == '^' { Some(Align::Centre) } else if c == '>' { Some(Align::Right) } else { None }
    }
}

impl Notation {
    fn of(c: char) -> (notation: Option<Notation>)
        ensures
            notation == notation_of(c),
    {
        if c == 'b' { Some(Notation::Binary) }
        else if c == 'o' { Some(Notation::Octal) }
        else if c == 'x' { Some(Notation::LowerHex) }
        else if c == 'X' { Some(Notation::UpperHex) }
        else if c == 'e' { Some(Notation::Exponent) }
        else { None }
    }
}

pub open spec fn is_digit_char(c: char) -> bool {
    '0' <= c <= '9'
}

/// The end of the run of decimal digits that starts at `at`.
pub open spec fn digit_run(s: Seq<char>, at: int) -> int
    decreases s.len() - at,
{
    if 0 <= at < s.len() && is_digit_char(s[at]) { digit_run(s, at + 1) } else { at }
}

/// The value of a run of decimal digits.
pub open spec fn digits_value(s: Seq<char>) -> nat
    decreases s.len(),
{
    if s.len() == 0 { 0 } else { digits_value(s.drop_last()) * 10 + (s.last() as nat - 48) as nat }
}

/// The unsigned integer at `at`: `0` alone, or digits; `None` where there are no digits, and
/// a fault where the digits are past what a width holds.  Gives the value and where it ends.
pub open spec fn uint_spec(s: Seq<char>, at: int) -> Result<Option<(nat, int)>, ()> {
    if 0 <= at < s.len() && s[at] == '0' {
        Ok(Some((0, at + 1)))
    } else {
        let end = digit_run(s, at);
        if end == at {
            Ok(None)
        } else if digits_value(s.subrange(at, end)) > usize::MAX {
            Err(())
        } else {
            Ok(Some((digits_value(s.subrange(at, end)), end)))
        }
    }
}

/// Whether `s[at]` is `c`.
pub open spec fn holds(s: Seq<char>, at: int, c: char) -> bool {
    0 <= at < s.len() && s[at] == c
}

/// The specifier `s` spells: an optional fill and alignment, `+`, `#`, `0`, a width, a `.`
/// and a precision, and a notation, each in that order; `None` where `s` spells none.
pub open spec fn spec_of(s: Seq<char>) -> Option<Spec> {
    if s.len() == 0 {
        None
    } else {
        let (fill, align, a0) = if s.len() > 1 && align_of(s[1]) is Some {
            (Some(s[0]), align_of(s[1]), 2int)
        } else if align_of(s[0]) is Some {
            (None::<char>, align_of(s[0]), 1int)
        } else {
            (None::<char>, None::<Align>, 0int)
        };
        let sign = holds(s, a0, '+');
        let a1 = if sign { a0 + 1 } else { a0 };
        let prefixed = holds(s, a1, '#');
        let a2 = if prefixed { a1 + 1 } else { a1 };
        let zeroed = holds(s, a2, '0');
        let a3 = if zeroed { a2 + 1 } else { a2 };
        match uint_spec(s, a3) {
            Err(()) => None,
            Ok(width) => {
                let a4 = match width { Some((_, end)) => end, None => a3 };
                let dotted = holds(s, a4, '.');
                let a5 = if dotted { a4 + 1 } else { a4 };
                let precision: Result<Option<(nat, int)>, ()> = if dotted { uint_spec(s, a5) } else { Ok(None) };
                match precision {
                    Err(()) => None,
                    Ok(p) => if dotted && p is None {
                        None
                    } else {
                        let a6 = match p { Some((_, end)) => end, None => a5 };
                        let notation = if 0 <= a6 < s.len() { notation_of(s[a6]) } else { None };
                        let a7 = if notation is Some { a6 + 1 } else { a6 };
                        if a7 != s.len() {
                            None
                        } else {
                            Some(Spec {
                                fill,
                                align,
                                sign,
                                prefixed,
                                zeroed,
                                width: match width { Some((w, _)) => Some(w as usize), None => None },
                                precision: match p { Some((w, _)) => Some(w as usize), None => None },
                                notation,
                            })
                        }
                    },
                }
            },
        }
    }
}

fn take(s: &Vec<char>, at: usize, wanted: char) -> (found: bool)
    ensures
        found == holds(s@, at as int, wanted),
{
    at < s.len() && s[at] == wanted
}

fn uint(s: &Vec<char>, at: usize) -> (read: Result<Option<(usize, usize)>, ()>)
    requires
        at <= s@.len(),
    ensures
        read matches Ok(Some((v, end))) ==> uint_spec(s@, at as int) == Ok::<Option<(nat, int)>, ()>(Some((v as nat, end as int))) && end <= s@.len(),
        read matches Ok(None) ==> uint_spec(s@, at as int) == Ok::<Option<(nat, int)>, ()>(None),
        read is Err ==> uint_spec(s@, at as int) is Err,
{
    if at < s.len() && s[at] == '0' {
        return Ok(Some((0, at + 1)));
    }
    let mut end = at;
    let mut value: usize = 0;
    let mut over = false;
    while end < s.len() && '0' <= s[end] && s[end] <= '9'
        invariant
            at <= end <= s@.len(),
            digit_run(s@, end as int) == digit_run(s@, at as int),
            !over ==> value as nat == digits_value(s@.subrange(at as int, end as int)),
            over ==> digits_value(s@.subrange(at as int, end as int)) > usize::MAX,
        decreases s@.len() - end,
    {
        let d = (s[end] as u32 - 48) as usize;
        let ghost before = s@.subrange(at as int, end as int);
        assert(s@.subrange(at as int, end + 1).drop_last() =~= before);
        assert(s@.subrange(at as int, end + 1).last() == s@[end as int]);
        if !over {
            if value > (usize::MAX - d) / 10 {
                over = true;
                proof {
                    let (v, l) = (value as int, ((usize::MAX - d) / 10) as int);
                    assert(v * 10 + d > usize::MAX) by (nonlinear_arith)
                        requires v > l, l == (usize::MAX - d) / 10, 0 <= d <= 9;
                }
            } else {
                proof {
                    let (v, l) = (value as int, ((usize::MAX - d) / 10) as int);
                    assert(v * 10 + d <= usize::MAX) by (nonlinear_arith)
                        requires 0 <= v <= l, l == (usize::MAX - d) / 10, 0 <= d <= 9;
                }
                value = value * 10 + d;
            }
        } else {
            proof {
                let v = digits_value(before);
                assert(v * 10 + d > usize::MAX) by (nonlinear_arith)
                    requires v > usize::MAX, 0 <= d;
            }
        }
        end = end + 1;
    }
    if end == at {
        return Ok(None);
    }
    if over {
        return Err(());
    }
    Ok(Some((value, end)))
}

impl Spec {
    /// Reads the specifier spelled by `s`; `span` is where a fault is reported.
    pub fn parse(s: &Vec<char>, span: Span) -> (read: Result<Spec, Error>)
        ensures
            read matches Ok(spec) ==> spec_of(s@) == Some(spec),
            read matches Err(e) ==> spec_of(s@) is None && e.kind == ErrorKind::MalformedSpec && e.span == span,
    {
        if s.len() == 0 {
            return Err(Error::new(ErrorKind::MalformedSpec, span));
        }
        let mut spec = Spec::default();
        let mut at: usize = 0;
        if s.len() > 1 && Align::of(s[1]).is_some() {
            spec.fill = Some(s[0]);
            spec.align = Align::of(s[1]);
            at = 2;
        } else if Align::of(s[0]).is_some() {
            spec.align = Align::of(s[0]);
            at = 1;
        }
        spec.sign = take(s, at, '+');
        if spec.sign { at = at + 1; }
        spec.prefixed = take(s, at, '#');
        if spec.prefixed { at = at + 1; }
        spec.zeroed = take(s, at, '0');
        if spec.zeroed { at = at + 1; }
        match uint(s, at) {
            Err(()) => return Err(Error::new(ErrorKind::MalformedSpec, span)),
            Ok(Some((w, end))) => {
                spec.width = Some(w);
                at = end;
            },
            Ok(None) => {},
        }
        if take(s, at, '.') {
            at = at + 1;
            match uint(s, at) {
                Ok(Some((p, end))) => {
                    spec.precision = Some(p);
                    at = end;
                },
                _ => return Err(Error::new(ErrorKind::MalformedSpec, span)),
            }
        }
        if at < s.len() {
            spec.notation = Notation::of(s[at]);
            if spec.notation.is_some() {
                at = at + 1;
            }
        }
        if at != s.len() {
            return Err(Error::new(ErrorKind::MalformedSpec, span));
        }
        Ok(spec)
    }
}

/// The characters encoded in `bytes[at..end]`, a stray byte read as U+FFFD.
pub open spec fn chars_in(bytes: Seq<u8>, at: int, end: int) -> Seq<char>
    decreases end - at,
{
    if at >= end || width_at(bytes, at) <= 0 {
        Seq::empty()
    } else {
        seq![char_at(bytes, at)] + chars_in(bytes, if at + width_at(bytes, at) > end { end } else { at + width_at(bytes, at) }, end)
    }
}

/// Decodes the characters of `bytes[start..end]`.
pub fn decode_range(bytes: &[u8], start: usize, end: usize) -> (chars: Vec<char>)
    requires
        start <= end <= bytes@.len(),
    ensures
        chars@ == chars_in(bytes@, start as int, end as int),
{
    let mut chars: Vec<char> = Vec::new();
    let mut at = start;
    while at < end
        invariant
            start <= at <= end <= bytes@.len(),
            chars_in(bytes@, start as int, end as int) == chars@ + chars_in(bytes@, at as int, end as int),
        decreases end - at,
    {
        let (c, width) = decode_at(bytes, at);
        let next = if width > end - at { end } else { at + width };
        proof {
            assert(chars_in(bytes@, at as int, end as int) == seq![c] + chars_in(bytes@, next as int, end as int));
            assert(chars@ + (seq![c] + chars_in(bytes@, next as int, end as int)) =~= chars@.push(c) + chars_in(bytes@, next as int, end as int));
        }
        chars.push(c);
        at = next;
    }
    proof { assert(chars@ + Seq::<char>::empty() =~= chars@); }
    chars
}

} // verus!
