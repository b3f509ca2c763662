//! Reading the surface language: bindings, projections, calls, interpolation and the
//! dyadic numbers, on top of the canonical form's values.
use vstd::prelude::*;
use vstd::string::StringSliceAdditionalSpecFns;
use crate::cursor::{advanced, dyadic_text, reads_decimal, reads_number, string_text, surface_number, token_bytes, token_text, Cursor, Number};
use crate::error::{Error, ErrorKind};
use crate::expr::{Binding, Document, Entry, Expr, ExprKind, Field, Form, Name, Piece};
use crate::lexer::{cook, cook_spec, lexing, unescape, TokenKind, Token};
use crate::names::Atom;
use crate::number::{ascii_chars, canonical_kind, dyadic_magnitude, float_in_range, settled, NumberKind};
use crate::parser::{
    kind_at, lemma_members_some, lemma_spelling_opens, lemma_spelling_plain, lemma_spelling_unique, members_spelling, names_distinct,
    opens_value, plain_at, spelling, spells,
};
use crate::value::{
    height, identical, lemma_height_positive, lemma_identical_member, lemma_list_member_height, lemma_mapping_key_height, lemma_mapping_lengths,
    lemma_mapping_member_height, lemma_tuple_lengths, lemma_tuple_member_height, members, Value,
};
use crate::span::Span;
use crate::specifier::{chars_in, decode_range, spec_of, Spec};
use crate::MAX_DEPTH;

verus! {

/// Where a run of fields closes: at a brace, or at the end of the file that stands in for
/// the braces.
#[derive(Clone, Copy)]
enum Close {
    Brace(Span),
    Eof,
}

/// What a run of fields read from the `start`th token to the `end`th place holds: a tuple
/// of `bindings` and at least one field, closed by a brace that ends its span, or by the end
/// of the tokens, spanned then from its first field's name to its last field's value.
spec fn tuple_closed(ts: Seq<Token>, bytes: Seq<u8>, e: Expr, bindings: Seq<Binding>, close: Close, start: int, end: int) -> bool {
    let fields = fields_of(e);
    &&& e.kind is Tuple
    &&& bindings_of(e) == bindings
    &&& fields.len() > 0
    &&& match close {
        Close::Brace(open) => fields_reading(ts, bytes, fields, fields.len() as int, start) == Some(end - 1)
            && kind_at(ts, end - 1, TokenKind::BraceClose) && e.span == (Span { start: open.start, end: ts[end - 1].span.end }),
        Close::Eof => fields_reading(ts, bytes, fields, fields.len() as int, start) == Some(end) && end == ts.len()
            && e.span == (Span { start: fields[0].name.span.start, end: fields.last().value.span.end }),
    }
}

/// Whether, where `canon` names a value, the tokens from the cursor on spell it in the
/// canonical form, nesting no deeper than `room`, in a text the lexer read whole and that
/// holds no `.` and no `:=`.
spec fn canonical_here(c: &Cursor, canon: Option<Value>, room: int) -> bool {
    canon matches Some(v) ==> {
        &&& spelling(c.tokens@, c.bytes@, v, c.at as int) is Some
        &&& height(v) <= room
        &&& c.fault is None
        &&& forall|k: int| 0 <= k < c.tokens@.len() ==> plain_at(c.tokens@, k)
    }
}

/// Whether, where `canon` names a value that the tokens from `before` on spell, `read` is
/// its literal and the cursor stands past its spelling.
spec fn read_literal(before: &Cursor, after: &Cursor, canon: Option<Value>, read: Result<Expr, Error>) -> bool {
    canon matches Some(v) ==> (read matches Ok(e) && literal(e, v)
        && after.at as int == spelling(before.tokens@, before.bytes@, v, before.at as int)->Some_0)
}

/// Whether the tokens from the `i`th on are runs of text that each read, closed by the end of
/// an interpolation.
spec fn plain_interpolation(ts: Seq<Token>, bytes: Seq<u8>, i: int) -> bool
    decreases ts.len() - i,
{
    if i < 0 || i >= ts.len() {
        false
    } else if ts[i].kind == TokenKind::InterpolationClose {
        true
    } else {
        &&& ts[i].kind == TokenKind::Text
        &&& cook_spec(bytes, ts[i].span.start as int, ts[i].span.end as int, true, ts[i].span) is Ok
        &&& plain_interpolation(ts, bytes, i + 1)
    }
}

/// Whether a text holds no fault of the lexer's, and no `.` and no `:=`.
spec fn plain_text(c: &Cursor) -> bool {
    c.fault is None && forall|k: int| 0 <= k < c.tokens@.len() ==> plain_at(c.tokens@, k)
}

/// The tokens a cursor reads.
spec fn ts_of(c: &Cursor) -> Seq<Token> {
    c.tokens@
}

struct Parser<'a> {
    cursor: Cursor<'a>,
}

/// Whether the `j`th token is a name, and `name` is it as it stands.
pub open spec fn name_at(ts: Seq<Token>, bytes: Seq<u8>, name: Name, j: int) -> bool {
    kind_at(ts, j, TokenKind::Ident) && name.span == ts[j].span && name.ident@ == token_text(bytes, ts[j])
}

/// The span from the start of one token to the end of another.
pub open spec fn between(ts: Seq<Token>, i: int, k: int) -> Span {
    Span { start: ts[i].span.start, end: ts[k].span.end }
}

/// Whether a number token's text `t` reads, in the surface language, as the integer whose
/// decimal text is `n`: a decimal spelling as its settled text, a dyadic one as the
/// decimal integer it spells, where that fits in 128 bits.
pub open spec fn reads_integer(t: Seq<u8>, n: Seq<u8>) -> bool {
    match canonical_kind(t) {
        Some(NumberKind::Integer) => n == settled(t),
        Some(NumberKind::Float) => false,
        None => dyadic_magnitude(t) matches Some(m) && m <= u128::MAX && n == dyadic_text(t),
    }
}

/// The bindings of a block, where `e` is one.
pub open spec fn bindings_of(e: Expr) -> Seq<Binding> {
    match e.kind {
        ExprKind::Tuple { bindings, .. } => bindings@,
        ExprKind::Mapping { bindings, .. } => bindings@,
        _ => Seq::empty(),
    }
}

/// The fields of a tuple, where `e` is one.
pub open spec fn fields_of(e: Expr) -> Seq<Field> {
    match e.kind {
        ExprKind::Tuple { fields, .. } => fields@,
        _ => Seq::empty(),
    }
}

/// The entries of a map, where `e` is one.
pub open spec fn entries_of(e: Expr) -> Seq<Entry> {
    match e.kind {
        ExprKind::Mapping { entries, .. } => entries@,
        _ => Seq::empty(),
    }
}

/// Where the tokens from the `i`th on that spell the value `e` end, if they do. A name, an
/// atom, a string or a number is one token of its kind that reads as it; a list is its
/// items between brackets; a tuple is its bindings and then its fields between braces, and
/// a map its bindings and then at least one entry between braces; a projection is its
/// operand, `.` and a name, or its operand, `.`, and a key between parentheses; a call is
/// `@`, a name and an operand that is no projection; an interpolation is its pieces between
/// `$"` and `"`. Each spans the text from its first token to its last.
pub open spec fn reading(ts: Seq<Token>, bytes: Seq<u8>, e: Expr, i: int) -> Option<int>
    decreases e, 0nat,
{
    match e.kind {
        ExprKind::Reference(ident) => if kind_at(ts, i, TokenKind::Ident) && e.span == ts[i].span && ident@ == token_text(bytes, ts[i]) {
            Some(i + 1)
        } else {
            None
        },
        ExprKind::Atom(atom) => if kind_at(ts, i, TokenKind::Atom) && e.span == ts[i].span && atom@ == token_text(bytes, ts[i]) {
            Some(i + 1)
        } else {
            None
        },
        ExprKind::String(text) => if kind_at(ts, i, TokenKind::String) && e.span == ts[i].span
            && string_text(bytes, ts[i]) == Ok::<Seq<char>, Error>(text@) {
            Some(i + 1)
        } else {
            None
        },
        ExprKind::Integer(n) => if kind_at(ts, i, TokenKind::Number) && e.span == ts[i].span && reads_integer(token_bytes(bytes, ts[i]), n@) {
            Some(i + 1)
        } else {
            None
        },
        ExprKind::Float(f) => if kind_at(ts, i, TokenKind::Number) && e.span == ts[i].span
            && canonical_kind(token_bytes(bytes, ts[i])) == Some(NumberKind::Float) && float_in_range(token_bytes(bytes, ts[i]))
            && f@ == token_bytes(bytes, ts[i]) {
            Some(i + 1)
        } else {
            None
        },
        ExprKind::List(items) => match items_reading(ts, bytes, items@, items@.len() as int, i + 1) {
            Some(k) => if kind_at(ts, i, TokenKind::BracketOpen) && kind_at(ts, k, TokenKind::BracketClose) && e.span == between(ts, i, k) {
                Some(k + 1)
            } else {
                None
            },
            None => None,
        },
        ExprKind::Tuple { bindings, fields } => match bindings_reading(ts, bytes, bindings@, bindings@.len() as int, i + 1) {
            Some(j) => match fields_reading(ts, bytes, fields@, fields@.len() as int, j) {
                Some(k) => if kind_at(ts, i, TokenKind::BraceOpen) && kind_at(ts, k, TokenKind::BraceClose) && e.span == between(ts, i, k) {
                    Some(k + 1)
                } else {
                    None
                },
                None => None,
            },
            None => None,
        },
        ExprKind::Mapping { bindings, entries } => match bindings_reading(ts, bytes, bindings@, bindings@.len() as int, i + 1) {
            Some(j) => match entries_reading(ts, bytes, entries@, entries@.len() as int, j) {
                Some(k) => if kind_at(ts, i, TokenKind::BraceOpen) && kind_at(ts, k, TokenKind::BraceClose) && e.span == between(ts, i, k)
                    && entries@.len() > 0 {
                    Some(k + 1)
                } else {
                    None
                },
                None => None,
            },
            None => None,
        },
        ExprKind::Access { operand, field } => match reading(ts, bytes, *operand, i) {
            Some(j) => if kind_at(ts, j, TokenKind::Dot) && name_at(ts, bytes, field, j + 1)
                && e.span == (Span { start: operand.span.start, end: field.span.end }) {
                Some(j + 2)
            } else {
                None
            },
            None => None,
        },
        ExprKind::Index { operand, key } => match reading(ts, bytes, *operand, i) {
            Some(j) => match reading(ts, bytes, *key, j + 2) {
                Some(k) => if kind_at(ts, j, TokenKind::Dot) && kind_at(ts, j + 1, TokenKind::ParenOpen) && kind_at(ts, k, TokenKind::ParenClose)
                    && e.span == (Span { start: operand.span.start, end: ts[k].span.end }) {
                    Some(k + 1)
                } else {
                    None
                },
                None => None,
            },
            None => None,
        },
        ExprKind::Call { name, operand } => if kind_at(ts, i, TokenKind::At) && name_at(ts, bytes, name, i + 1)
            && !(operand.kind is Access) && !(operand.kind is Index)
            && e.span == (Span { start: ts[i].span.start, end: operand.span.end }) {
            reading(ts, bytes, *operand, i + 2)
        } else {
            None
        },
        ExprKind::Interpolation(pieces) => match pieces_reading(ts, bytes, pieces@, pieces@.len() as int, i + 1) {
            Some(k) => if kind_at(ts, i, TokenKind::InterpolationOpen) && kind_at(ts, k, TokenKind::InterpolationClose)
                && e.span == between(ts, i, k) {
                Some(k + 1)
            } else {
                None
            },
            None => None,
        },
    }
}

/// Where the tokens from the `i`th on that spell the first `n` items end, if they do.
pub open spec fn items_reading(ts: Seq<Token>, bytes: Seq<u8>, xs: Seq<Expr>, n: int, i: int) -> Option<int>
    decreases xs, n,
{
    if n <= 0 || n > xs.len() {
        Some(i)
    } else {
        match items_reading(ts, bytes, xs, n - 1, i) {
            Some(j) => reading(ts, bytes, xs[n - 1], j),
            None => None,
        }
    }
}

/// Where the tokens from the `i`th on that spell the first `n` bindings end, if they do:
/// each a name, `:=` and a value.
pub open spec fn bindings_reading(ts: Seq<Token>, bytes: Seq<u8>, xs: Seq<Binding>, n: int, i: int) -> Option<int>
    decreases xs, n,
{
    if n <= 0 || n > xs.len() {
        Some(i)
    } else {
        match bindings_reading(ts, bytes, xs, n - 1, i) {
            Some(j) => if name_at(ts, bytes, xs[n - 1].name, j) && kind_at(ts, j + 1, TokenKind::Binder) {
                reading(ts, bytes, xs[n - 1].value, j + 2)
            } else {
                None
            },
            None => None,
        }
    }
}

/// Where the tokens from the `i`th on that spell the first `n` fields end, if they do:
/// each a name, `=` and a value.
pub open spec fn fields_reading(ts: Seq<Token>, bytes: Seq<u8>, xs: Seq<Field>, n: int, i: int) -> Option<int>
    decreases xs, n,
{
    if n <= 0 || n > xs.len() {
        Some(i)
    } else {
        match fields_reading(ts, bytes, xs, n - 1, i) {
            Some(j) => if name_at(ts, bytes, xs[n - 1].name, j) && kind_at(ts, j + 1, TokenKind::Equals) {
                reading(ts, bytes, xs[n - 1].value, j + 2)
            } else {
                None
            },
            None => None,
        }
    }
}

/// Where the tokens from the `i`th on that spell the first `n` entries end, if they do:
/// each a key, `=>` and a value.
pub open spec fn entries_reading(ts: Seq<Token>, bytes: Seq<u8>, xs: Seq<Entry>, n: int, i: int) -> Option<int>
    decreases xs, n,
{
    if n <= 0 || n > xs.len() {
        Some(i)
    } else {
        match entries_reading(ts, bytes, xs, n - 1, i) {
            Some(j) => match reading(ts, bytes, xs[n - 1].key, j) {
                Some(k) => if kind_at(ts, k, TokenKind::Arrow) { reading(ts, bytes, xs[n - 1].value, k + 1) } else { None },
                None => None,
            },
            None => None,
        }
    }
}

/// Where the tokens from the `i`th on that spell the first `n` pieces end, if they do: text
/// as a text token that cooks to it, a hole as `{`, a value, and its specifier and `}`.
pub open spec fn pieces_reading(ts: Seq<Token>, bytes: Seq<u8>, xs: Seq<Piece>, n: int, i: int) -> Option<int>
    decreases xs, n,
{
    if n <= 0 || n > xs.len() {
        Some(i)
    } else {
        match pieces_reading(ts, bytes, xs, n - 1, i) {
            Some(j) => match xs[n - 1] {
                Piece::Text(text) => if kind_at(ts, j, TokenKind::Text)
                    && cook_spec(bytes, ts[j].span.start as int, ts[j].span.end as int, true, ts[j].span) == Ok::<Seq<char>, Error>(text@) {
                    Some(j + 1)
                } else {
                    None
                },
                Piece::Hole { .. } => if kind_at(ts, j, TokenKind::HoleOpen) { hole_reading(ts, bytes, xs[n - 1], j + 1) } else { None },
            },
            None => None,
        }
    }
}

/// Where the tokens from the `i`th on that spell a hole after its `{` end, if they do: its
/// value, then its specifier where it has one, then `}`.
pub open spec fn hole_reading(ts: Seq<Token>, bytes: Seq<u8>, piece: Piece, i: int) -> Option<int>
    decreases piece, 0nat,
{
    match piece {
        Piece::Hole { expr, spec } => match reading(ts, bytes, expr, i) {
            Some(k) => match spec {
                Some(given) => if kind_at(ts, k, TokenKind::Spec)
                    && spec_of(chars_in(bytes, ts[k].span.start as int, ts[k].span.end as int)) == Some(given)
                    && kind_at(ts, k + 1, TokenKind::HoleClose) {
                    Some(k + 2)
                } else {
                    None
                },
                None => if kind_at(ts, k, TokenKind::HoleClose) { Some(k + 1) } else { None },
            },
            None => None,
        },
        Piece::Text(_) => None,
    }
}

/// Whether the tokens `ts` spell a document: its bindings, then its value, or then the
/// fields of a file of fields, spanned from the first field's name to the last field's
/// value.
pub open spec fn document_reading(ts: Seq<Token>, bytes: Seq<u8>, d: Document) -> bool {
    match bindings_reading(ts, bytes, d.bindings@, d.bindings@.len() as int, 0) {
        Some(j) => match d.form {
            Form::Value => reading(ts, bytes, d.value, j) == Some(ts.len() as int),
            Form::Fields => {
                let fields = fields_of(d.value);
                &&& d.value.kind is Tuple
                &&& bindings_of(d.value).len() == 0
                &&& fields.len() > 0
                &&& fields_reading(ts, bytes, fields, fields.len() as int, j) == Some(ts.len() as int)
                &&& d.value.span == (Span { start: fields[0].name.span.start, end: fields.last().value.span.end })
            },
        },
        None => false,
    }
}

/// Whether `e` writes the value `v` literally, as the canonical form does: nothing bound,
/// no projection, call or interpolation, each scalar as `v` has it, and each collection's
/// members in `v`'s order.
pub open spec fn literal(e: Expr, v: Value) -> bool
    decreases height(v), 1int, 0int,
{
    match (e.kind, v) {
        (ExprKind::Atom(a), Value::Atom(b)) => a@ == b@,
        (ExprKind::String(a), Value::String(b)) => a@ == b@,
        (ExprKind::Integer(a), Value::Integer(b)) => a@ == b@,
        (ExprKind::Float(a), Value::Float(b)) => a@ == b@,
        (ExprKind::List(items), Value::List(_)) => items@.len() == members(v) && literal_items(items@, v, members(v) as int),
        (ExprKind::Tuple { bindings, fields }, Value::Tuple(_)) => bindings@.len() == 0 && fields@.len() == members(v)
            && literal_fields(fields@, v, members(v) as int),
        (ExprKind::Mapping { bindings, entries }, Value::Mapping(_)) => bindings@.len() == 0 && entries@.len() == members(v)
            && literal_entries(entries@, v, members(v) as int),
        _ => false,
    }
}

/// Whether the first `n` items write the first `n` items of the list `v`.
pub open spec fn literal_items(xs: Seq<Expr>, v: Value, n: int) -> bool
    decreases height(v), 0int, n,
{
    if n <= 0 || n > members(v) || n > xs.len() {
        n <= 0
    } else {
        literal_items(xs, v, n - 1) && match v {
            Value::List(items) => {
                proof { lemma_list_member_height(items, n - 1); }
                literal(xs[n - 1], items@[n - 1])
            },
            _ => false,
        }
    }
}

/// Whether the first `n` fields write the first `n` fields of the tuple `v`, each with its
/// name.
pub open spec fn literal_fields(xs: Seq<Field>, v: Value, n: int) -> bool
    decreases height(v), 0int, n,
{
    if n <= 0 || n > members(v) || n > xs.len() {
        n <= 0
    } else {
        literal_fields(xs, v, n - 1) && match v {
            Value::Tuple(t) => {
                proof { lemma_tuple_member_height(t, n - 1); }
                xs[n - 1].name.ident@ == t.names()[n - 1] && literal(xs[n - 1].value, t.values()[n - 1])
            },
            _ => false,
        }
    }
}

/// Whether the first `n` entries write the first `n` entries of the map `v`.
pub open spec fn literal_entries(xs: Seq<Entry>, v: Value, n: int) -> bool
    decreases height(v), 0int, n,
{
    if n <= 0 || n > members(v) || n > xs.len() {
        n <= 0
    } else {
        literal_entries(xs, v, n - 1) && match v {
            Value::Mapping(m) => {
                proof {
                    lemma_mapping_lengths(m);
                    lemma_mapping_key_height(m, n - 1);
                    lemma_mapping_member_height(m, n - 1);
                }
                literal(xs[n - 1].key, m.keys()[n - 1]) && literal(xs[n - 1].value, m.values()[n - 1])
            },
            _ => false,
        }
    }
}

/// An expression that writes a value writes every value identical to it.
pub proof fn lemma_literal_identical(e: Expr, v: Value, w: Value)
    requires
        literal(e, v),
        identical(v, w),
    ensures
        literal(e, w),
    decreases height(v), 1int, 0int,
{
    match (e.kind, v, w) {
        (ExprKind::List(items), Value::List(_), Value::List(_)) => {
            lemma_literal_members_identical(e, v, w, members(v) as int);
        },
        (ExprKind::Tuple { .. }, Value::Tuple(_), Value::Tuple(_)) => {
            lemma_literal_members_identical(e, v, w, members(v) as int);
        },
        (ExprKind::Mapping { .. }, Value::Mapping(_), Value::Mapping(_)) => {
            lemma_literal_members_identical(e, v, w, members(v) as int);
        },
        _ => {},
    }
}

proof fn lemma_literal_members_identical(e: Expr, v: Value, w: Value, n: int)
    requires
        literal(e, v),
        identical(v, w),
        e.kind is List || e.kind is Tuple || e.kind is Mapping,
        0 <= n <= members(v),
    ensures
        match e.kind {
            ExprKind::List(items) => literal_items(items@, w, n),
            ExprKind::Tuple { fields, .. } => literal_fields(fields@, w, n),
            ExprKind::Mapping { entries, .. } => literal_entries(entries@, w, n),
            _ => true,
        },
    decreases height(v), 0int, n,
{
    if n > 0 {
        lemma_literal_members_identical(e, v, w, n - 1);
        lemma_identical_member(v, w, members(v) as int, n - 1);
        match (e.kind, v, w) {
            (ExprKind::List(items), Value::List(xs), Value::List(ys)) => {
                lemma_literal_items_at(items@, v, members(v) as int, n - 1);
                lemma_list_member_height(xs, n - 1);
                lemma_literal_identical(items@[n - 1], xs@[n - 1], ys@[n - 1]);
            },
            (ExprKind::Tuple { fields, .. }, Value::Tuple(x), Value::Tuple(y)) => {
                lemma_literal_fields_at(fields@, v, members(v) as int, n - 1);
                lemma_tuple_member_height(x, n - 1);
                lemma_tuple_lengths(x);
                lemma_literal_identical(fields@[n - 1].value, x.values()[n - 1], y.values()[n - 1]);
            },
            (ExprKind::Mapping { entries, .. }, Value::Mapping(x), Value::Mapping(y)) => {
                lemma_literal_entries_at(entries@, v, members(v) as int, n - 1);
                lemma_mapping_lengths(x);
                lemma_mapping_lengths(y);
                lemma_mapping_key_height(x, n - 1);
                lemma_mapping_member_height(x, n - 1);
                lemma_literal_identical(entries@[n - 1].key, x.keys()[n - 1], y.keys()[n - 1]);
                lemma_literal_identical(entries@[n - 1].value, x.values()[n - 1], y.values()[n - 1]);
            },
            _ => {},
        }
    }
}

/// Where the first `n` items write a list's, so does each of them.
proof fn lemma_literal_items_at(xs: Seq<Expr>, v: Value, n: int, k: int)
    requires
        literal_items(xs, v, n),
        0 <= k < n,
    ensures
        literal_items(xs, v, k + 1),
    decreases n,
{
    if k < n - 1 {
        lemma_literal_items_at(xs, v, n - 1, k);
    }
}

/// Where the first `n` fields write a tuple's, so does each of them.
proof fn lemma_literal_fields_at(xs: Seq<Field>, v: Value, n: int, k: int)
    requires
        literal_fields(xs, v, n),
        0 <= k < n,
    ensures
        literal_fields(xs, v, k + 1),
    decreases n,
{
    if k < n - 1 {
        lemma_literal_fields_at(xs, v, n - 1, k);
    }
}

/// Where the first `n` entries write a map's, so does each of them.
proof fn lemma_literal_entries_at(xs: Seq<Entry>, v: Value, n: int, k: int)
    requires
        literal_entries(xs, v, n),
        0 <= k < n,
    ensures
        literal_entries(xs, v, k + 1),
    decreases n,
{
    if k < n - 1 {
        lemma_literal_entries_at(xs, v, n - 1, k);
    }
}

/// Runs of items whose first `n` are the same write a list's first `n` alike.
proof fn lemma_literal_items_prefix(xs: Seq<Expr>, ys: Seq<Expr>, v: Value, n: int)
    requires
        0 <= n <= xs.len(),
        n <= ys.len(),
        forall|k: int| 0 <= k < n ==> xs[k] == ys[k],
    ensures
        literal_items(xs, v, n) == literal_items(ys, v, n),
    decreases n,
{
    if n > 0 {
        lemma_literal_items_prefix(xs, ys, v, n - 1);
    }
}

/// Runs of fields whose first `n` are the same write a tuple's first `n` alike.
proof fn lemma_literal_fields_prefix(xs: Seq<Field>, ys: Seq<Field>, v: Value, n: int)
    requires
        0 <= n <= xs.len(),
        n <= ys.len(),
        forall|k: int| 0 <= k < n ==> xs[k] == ys[k],
    ensures
        literal_fields(xs, v, n) == literal_fields(ys, v, n),
    decreases n,
{
    if n > 0 {
        lemma_literal_fields_prefix(xs, ys, v, n - 1);
    }
}

/// Runs of entries whose first `n` are the same write a map's first `n` alike.
proof fn lemma_literal_entries_prefix(xs: Seq<Entry>, ys: Seq<Entry>, v: Value, n: int)
    requires
        0 <= n <= xs.len(),
        n <= ys.len(),
        forall|k: int| 0 <= k < n ==> xs[k] == ys[k],
    ensures
        literal_entries(xs, v, n) == literal_entries(ys, v, n),
    decreases n,
{
    if n > 0 {
        lemma_literal_entries_prefix(xs, ys, v, n - 1);
    }
}

/// Whether `d` is what a surface text `bytes` spells: the lexer reads the whole text, and
/// its tokens spell `d`.
pub open spec fn reads(bytes: Seq<u8>, d: Document) -> bool {
    lexing(bytes).1 is None && document_reading(lexing(bytes).0, bytes, d)
}

/// Runs whose first `n` members are the same spell them alike.
proof fn lemma_items_prefix(ts: Seq<Token>, bytes: Seq<u8>, xs: Seq<Expr>, ys: Seq<Expr>, n: int, i: int)
    requires
        0 <= n <= xs.len(),
        n <= ys.len(),
        forall|k: int| 0 <= k < n ==> xs[k] == ys[k],
    ensures
        items_reading(ts, bytes, xs, n, i) == items_reading(ts, bytes, ys, n, i),
    decreases n,
{
    if n > 0 {
        lemma_items_prefix(ts, bytes, xs, ys, n - 1, i);
        assert(xs[n - 1] == ys[n - 1]);
    }
}

/// Runs whose first `n` members are the same spell them alike.
proof fn lemma_bindings_prefix(ts: Seq<Token>, bytes: Seq<u8>, xs: Seq<Binding>, ys: Seq<Binding>, n: int, i: int)
    requires
        0 <= n <= xs.len(),
        n <= ys.len(),
        forall|k: int| 0 <= k < n ==> xs[k] == ys[k],
    ensures
        bindings_reading(ts, bytes, xs, n, i) == bindings_reading(ts, bytes, ys, n, i),
    decreases n,
{
    if n > 0 {
        lemma_bindings_prefix(ts, bytes, xs, ys, n - 1, i);
        assert(xs[n - 1] == ys[n - 1]);
    }
}

/// Runs whose first `n` members are the same spell them alike.
proof fn lemma_fields_prefix(ts: Seq<Token>, bytes: Seq<u8>, xs: Seq<Field>, ys: Seq<Field>, n: int, i: int)
    requires
        0 <= n <= xs.len(),
        n <= ys.len(),
        forall|k: int| 0 <= k < n ==> xs[k] == ys[k],
    ensures
        fields_reading(ts, bytes, xs, n, i) == fields_reading(ts, bytes, ys, n, i),
    decreases n,
{
    if n > 0 {
        lemma_fields_prefix(ts, bytes, xs, ys, n - 1, i);
        assert(xs[n - 1] == ys[n - 1]);
    }
}

/// Runs whose first `n` members are the same spell them alike.
proof fn lemma_entries_prefix(ts: Seq<Token>, bytes: Seq<u8>, xs: Seq<Entry>, ys: Seq<Entry>, n: int, i: int)
    requires
        0 <= n <= xs.len(),
        n <= ys.len(),
        forall|k: int| 0 <= k < n ==> xs[k] == ys[k],
    ensures
        entries_reading(ts, bytes, xs, n, i) == entries_reading(ts, bytes, ys, n, i),
    decreases n,
{
    if n > 0 {
        lemma_entries_prefix(ts, bytes, xs, ys, n - 1, i);
        assert(xs[n - 1] == ys[n - 1]);
    }
}

/// Runs whose first `n` members are the same spell them alike.
proof fn lemma_pieces_prefix(ts: Seq<Token>, bytes: Seq<u8>, xs: Seq<Piece>, ys: Seq<Piece>, n: int, i: int)
    requires
        0 <= n <= xs.len(),
        n <= ys.len(),
        forall|k: int| 0 <= k < n ==> xs[k] == ys[k],
    ensures
        pieces_reading(ts, bytes, xs, n, i) == pieces_reading(ts, bytes, ys, n, i),
    decreases n,
{
    if n > 0 {
        lemma_pieces_prefix(ts, bytes, xs, ys, n - 1, i);
        assert(xs[n - 1] == ys[n - 1]);
    }
}

/// How many projections an expression's chain holds.
pub open spec fn projections(e: Expr) -> nat
    decreases e,
{
    match e.kind {
        ExprKind::Access { operand, .. } => 1 + projections(*operand),
        ExprKind::Index { operand, .. } => 1 + projections(*operand),
        _ => 0,
    }
}

/// The expression that a chain of projections holds after its first `m` projections.
pub open spec fn within_chain(e: Expr, m: nat) -> Expr
    decreases e,
{
    if m >= projections(e) {
        e
    } else {
        match e.kind {
            ExprKind::Access { operand, .. } => within_chain(*operand, m),
            ExprKind::Index { operand, .. } => within_chain(*operand, m),
            _ => e,
        }
    }
}

/// Whether no two bindings bind one name.
pub open spec fn distinct_bindings(bs: Seq<Binding>) -> bool {
    forall|a: int, b: int| 0 <= a < b < bs.len() ==> (#[trigger] bs[a]).name.ident@ != (#[trigger] bs[b]).name.ident@
}

/// Whether no two fields have one name.
pub open spec fn distinct_fields(fs: Seq<Field>) -> bool {
    forall|a: int, b: int| 0 <= a < b < fs.len() ==> (#[trigger] fs[a]).name.ident@ != (#[trigger] fs[b]).name.ident@
}

/// The fault a file of fields raises at its `j`th token, where the fields before it read
/// whole and no further field can begin there: a brace that closes nothing is more than the
/// file holds, a `:=` binds in the wrong place, a pair with `=>` mixes the pair operators,
/// anything else but a name names no field, and a name needs its `=`. None where a field
/// begins at `j` or the tokens end there.
pub open spec fn field_fault(ts: Seq<Token>, len: int, j: int) -> Option<Error> {
    if j < 0 || j >= ts.len() {
        None
    } else if ts[j].kind == TokenKind::BraceClose {
        Some(Error { kind: ErrorKind::TrailingInput, span: ts[j].span })
    } else if ts[j].kind == TokenKind::Binder {
        Some(Error { kind: ErrorKind::MisplacedBinding, span: ts[j].span })
    } else if ts[j].kind != TokenKind::Ident {
        if kind_at(ts, j + 1, TokenKind::Arrow) {
            Some(Error { kind: ErrorKind::MixedPairOperators, span: ts[j].span })
        } else {
            Some(Error { kind: ErrorKind::ExpectedFieldName, span: ts[j].span })
        }
    } else if j + 1 >= ts.len() {
        Some(Error { kind: ErrorKind::ExpectedEquals, span: Span { start: len as usize, end: len as usize } })
    } else if ts[j + 1].kind == TokenKind::Arrow {
        Some(Error { kind: ErrorKind::MixedPairOperators, span: ts[j + 1].span })
    } else if ts[j + 1].kind == TokenKind::Binder {
        Some(Error { kind: ErrorKind::MisplacedBinding, span: ts[j + 1].span })
    } else if ts[j + 1].kind != TokenKind::Equals {
        Some(Error { kind: ErrorKind::ExpectedEquals, span: ts[j + 1].span })
    } else {
        None
    }
}

/// Whether a text reads as the file of fields `fs`, each taken whole by the reader, after
/// which no field can begin: the fault that stops it stands right after them.
pub open spec fn stops_at_fault(bytes: Seq<u8>, fs: Seq<Field>) -> bool {
    let ts = lexing(bytes).0;
    &&& lexing(bytes).1 is None
    &&& fs.len() >= 1
    &&& fields_reading(ts, bytes, fs, fs.len() as int, 0) is Some
    &&& ends_value(ts, fields_reading(ts, bytes, fs, fs.len() as int, 0)->Some_0)
    &&& field_fault(ts, bytes.len() as int, fields_reading(ts, bytes, fs, fs.len() as int, 0)->Some_0) is Some
    &&& distinct_fields(fs)
    &&& fields_parsable(fs, fs.len() as int, 1)
}

/// Whether a text, with no bindings before it, reads as the value `e`, taken whole by the
/// reader, and more tokens follow it: the text holds more than one value.
pub open spec fn value_stops(bytes: Seq<u8>, e: Expr) -> bool {
    let ts = lexing(bytes).0;
    &&& lexing(bytes).1 is None
    &&& reading(ts, bytes, e, 0) is Some
    &&& reading(ts, bytes, e, 0)->Some_0 < ts.len()
    &&& ends_value(ts, reading(ts, bytes, e, 0)->Some_0)
    &&& parsable(e, 0)
    &&& !kind_at(ts, 1, TokenKind::Binder)
    &&& !(kind_at(ts, 0, TokenKind::Ident) && kind_at(ts, 1, TokenKind::Equals))
}

/// Whether the reader takes `e`, read at nesting depth `d`: it nests no deeper than the
/// limit, and no block binds a name twice or names a field twice.
pub open spec fn parsable(e: Expr, d: int) -> bool
    decreases e, 1nat,
{
    match e.kind {
        ExprKind::Access { operand, .. } => parsable(*operand, d) && d + projections(*operand) < MAX_DEPTH,
        ExprKind::Index { operand, key } => parsable(*operand, d) && d + projections(*operand) < MAX_DEPTH
            && parsable(*key, d + projections(*operand) + 2),
        ExprKind::List(items) => d <= MAX_DEPTH && items_parsable(items@, items@.len() as int, d + 1),
        ExprKind::Tuple { bindings, fields } => d <= MAX_DEPTH && distinct_bindings(bindings@) && distinct_fields(fields@)
            && bindings_parsable(bindings@, bindings@.len() as int, d + 1) && fields_parsable(fields@, fields@.len() as int, d + 1),
        ExprKind::Mapping { bindings, entries } => d <= MAX_DEPTH && distinct_bindings(bindings@)
            && bindings_parsable(bindings@, bindings@.len() as int, d + 1) && entries_parsable(entries@, entries@.len() as int, d + 1),
        ExprKind::Call { operand, .. } => d <= MAX_DEPTH && parsable(*operand, d + 1),
        ExprKind::Interpolation(pieces) => d <= MAX_DEPTH && pieces_parsable(pieces@, pieces@.len() as int, d + 1),
        _ => d <= MAX_DEPTH,
    }
}

/// Whether the reader takes the first `n` items at depth `d`.
pub open spec fn items_parsable(xs: Seq<Expr>, n: int, d: int) -> bool
    decreases xs, n,
{
    if n <= 0 || n > xs.len() { true } else { items_parsable(xs, n - 1, d) && parsable(xs[n - 1], d) }
}

/// Whether the reader takes the values of the first `n` bindings at depth `d`.
pub open spec fn bindings_parsable(xs: Seq<Binding>, n: int, d: int) -> bool
    decreases xs, n,
{
    if n <= 0 || n > xs.len() { true } else { bindings_parsable(xs, n - 1, d) && parsable(xs[n - 1].value, d) }
}

/// Whether the reader takes the values of the first `n` fields at depth `d`.
pub open spec fn fields_parsable(xs: Seq<Field>, n: int, d: int) -> bool
    decreases xs, n,
{
    if n <= 0 || n > xs.len() { true } else { fields_parsable(xs, n - 1, d) && parsable(xs[n - 1].value, d) }
}

/// Whether the reader takes the keys and values of the first `n` entries at depth `d`.
pub open spec fn entries_parsable(xs: Seq<Entry>, n: int, d: int) -> bool
    decreases xs, n,
{
    if n <= 0 || n > xs.len() {
        true
    } else {
        entries_parsable(xs, n - 1, d) && parsable(xs[n - 1].key, d) && parsable(xs[n - 1].value, d)
    }
}

/// Whether the reader takes the holes among the first `n` pieces at depth `d`.
pub open spec fn pieces_parsable(xs: Seq<Piece>, n: int, d: int) -> bool
    decreases xs, n,
{
    if n <= 0 || n > xs.len() {
        true
    } else {
        pieces_parsable(xs, n - 1, d) && match xs[n - 1] {
            Piece::Hole { expr, .. } => parsable(expr, d),
            Piece::Text(_) => true,
        }
    }
}

/// Whether the reader takes a document: its bindings, each bound once, and its value or its
/// fields, each named once, within the nesting limit.
pub open spec fn document_parsable(d: Document) -> bool {
    &&& distinct_bindings(d.bindings@)
    &&& bindings_parsable(d.bindings@, d.bindings@.len() as int, 0)
    &&& match d.form {
        Form::Value => parsable(d.value, 0),
        Form::Fields => distinct_fields(fields_of(d.value)) && fields_parsable(fields_of(d.value), fields_of(d.value).len() as int, 1),
    }
}

/// Whether a text is a document the reader takes: some document it reads as is one.
pub open spec fn well_formed(bytes: Seq<u8>) -> bool {
    exists|d: Document| #[trigger] reads(bytes, d) && document_parsable(d)
}

/// Whether the `j`th place can end a value: no `.` stands there, which would extend it,
/// and no `:=`.
pub open spec fn ends_value(ts: Seq<Token>, j: int) -> bool {
    !kind_at(ts, j, TokenKind::Dot) && !kind_at(ts, j, TokenKind::Binder)
}

/// Whether the `i`th token can open a value.
pub open spec fn opener(ts: Seq<Token>, i: int) -> bool {
    ||| kind_at(ts, i, TokenKind::Ident)
    ||| kind_at(ts, i, TokenKind::Atom)
    ||| kind_at(ts, i, TokenKind::String)
    ||| kind_at(ts, i, TokenKind::Number)
    ||| kind_at(ts, i, TokenKind::BracketOpen)
    ||| kind_at(ts, i, TokenKind::BraceOpen)
    ||| kind_at(ts, i, TokenKind::At)
    ||| kind_at(ts, i, TokenKind::InterpolationOpen)
}

/// A value's reading opens with a token that can open a value.
proof fn lemma_reading_opens(ts: Seq<Token>, bytes: Seq<u8>, e: Expr, i: int)
    requires
        reading(ts, bytes, e, i) is Some,
    ensures
        opener(ts, i),
    decreases e,
{
    match e.kind {
        ExprKind::Access { operand, .. } => lemma_reading_opens(ts, bytes, *operand, i),
        ExprKind::Index { operand, .. } => lemma_reading_opens(ts, bytes, *operand, i),
        _ => {},
    }
}

proof fn lemma_items_some(ts: Seq<Token>, bytes: Seq<u8>, xs: Seq<Expr>, n: int, k: int, i: int)
    requires
        items_reading(ts, bytes, xs, n, i) is Some,
        0 <= k <= n <= xs.len(),
    ensures
        items_reading(ts, bytes, xs, k, i) is Some,
    decreases n - k,
{
    if k < n {
        lemma_items_some(ts, bytes, xs, n - 1, k, i);
    }
}

proof fn lemma_bindings_some(ts: Seq<Token>, bytes: Seq<u8>, xs: Seq<Binding>, n: int, k: int, i: int)
    requires
        bindings_reading(ts, bytes, xs, n, i) is Some,
        0 <= k <= n <= xs.len(),
    ensures
        bindings_reading(ts, bytes, xs, k, i) is Some,
    decreases n - k,
{
    if k < n {
        lemma_bindings_some(ts, bytes, xs, n - 1, k, i);
    }
}

proof fn lemma_fields_some(ts: Seq<Token>, bytes: Seq<u8>, xs: Seq<Field>, n: int, k: int, i: int)
    requires
        fields_reading(ts, bytes, xs, n, i) is Some,
        0 <= k <= n <= xs.len(),
    ensures
        fields_reading(ts, bytes, xs, k, i) is Some,
    decreases n - k,
{
    if k < n {
        lemma_fields_some(ts, bytes, xs, n - 1, k, i);
    }
}

proof fn lemma_entries_some(ts: Seq<Token>, bytes: Seq<u8>, xs: Seq<Entry>, n: int, k: int, i: int)
    requires
        entries_reading(ts, bytes, xs, n, i) is Some,
        0 <= k <= n <= xs.len(),
    ensures
        entries_reading(ts, bytes, xs, k, i) is Some,
    decreases n - k,
{
    if k < n {
        lemma_entries_some(ts, bytes, xs, n - 1, k, i);
    }
}

proof fn lemma_pieces_some(ts: Seq<Token>, bytes: Seq<u8>, xs: Seq<Piece>, n: int, k: int, i: int)
    requires
        pieces_reading(ts, bytes, xs, n, i) is Some,
        0 <= k <= n <= xs.len(),
    ensures
        pieces_reading(ts, bytes, xs, k, i) is Some,
    decreases n - k,
{
    if k < n {
        lemma_pieces_some(ts, bytes, xs, n - 1, k, i);
    }
}

/// A value read from the `i`th token is that one token, or its second token is no `:=` and
/// no `=`.
proof fn lemma_reading_second(ts: Seq<Token>, bytes: Seq<u8>, e: Expr, i: int)
    requires
        reading(ts, bytes, e, i) is Some,
    ensures
        reading(ts, bytes, e, i) == Some(i + 1)
            || (!kind_at(ts, i + 1, TokenKind::Binder) && !kind_at(ts, i + 1, TokenKind::Equals)
                && !kind_at(ts, i + 1, TokenKind::Arrow)),
    decreases e,
{
    match e.kind {
        ExprKind::Access { operand, .. } => lemma_reading_second(ts, bytes, *operand, i),
        ExprKind::Index { operand, .. } => lemma_reading_second(ts, bytes, *operand, i),
        ExprKind::List(items) => {
            if items@.len() > 0 {
                lemma_items_some(ts, bytes, items@, items@.len() as int, 1, i + 1);
                assert(items_reading(ts, bytes, items@, 0, i + 1) == Some(i + 1));
                lemma_reading_opens(ts, bytes, items@[0], i + 1);
            }
        },
        ExprKind::Tuple { bindings, fields } => {
            if bindings@.len() > 0 {
                lemma_bindings_some(ts, bytes, bindings@, bindings@.len() as int, 1, i + 1);
                assert(bindings_reading(ts, bytes, bindings@, 0, i + 1) == Some(i + 1));
            } else if fields@.len() > 0 {
                assert(bindings_reading(ts, bytes, bindings@, 0, i + 1) == Some(i + 1));
                lemma_fields_some(ts, bytes, fields@, fields@.len() as int, 1, i + 1);
                assert(fields_reading(ts, bytes, fields@, 0, i + 1) == Some(i + 1));
            }
        },
        ExprKind::Mapping { bindings, entries } => {
            if bindings@.len() > 0 {
                lemma_bindings_some(ts, bytes, bindings@, bindings@.len() as int, 1, i + 1);
                assert(bindings_reading(ts, bytes, bindings@, 0, i + 1) == Some(i + 1));
            } else {
                assert(bindings_reading(ts, bytes, bindings@, 0, i + 1) == Some(i + 1));
                lemma_entries_some(ts, bytes, entries@, entries@.len() as int, 1, i + 1);
                assert(entries_reading(ts, bytes, entries@, 0, i + 1) == Some(i + 1));
                lemma_reading_opens(ts, bytes, entries@[0].key, i + 1);
            }
        },
        ExprKind::Interpolation(pieces) => {
            if pieces@.len() > 0 {
                lemma_pieces_some(ts, bytes, pieces@, pieces@.len() as int, 1, i + 1);
                assert(pieces_reading(ts, bytes, pieces@, 0, i + 1) == Some(i + 1));
            }
        },
        _ => {},
    }
}

/// Each level of a chain of projections is read from where the chain starts, ending
/// before the next level's `.`; its projections are its level.
proof fn lemma_within_chain(ts: Seq<Token>, bytes: Seq<u8>, e: Expr, i: int, m: nat)
    requires
        reading(ts, bytes, e, i) is Some,
    ensures
        reading(ts, bytes, within_chain(e, m), i) is Some,
        m <= projections(e) ==> projections(within_chain(e, m)) == m,
        m >= projections(e) ==> within_chain(e, m) == e,
        !(within_chain(e, 0).kind is Access) && !(within_chain(e, 0).kind is Index),
        forall|d: int| parsable(e, d) ==> parsable(#[trigger] within_chain(e, m), d),
        m < projections(e) ==> match within_chain(e, m + 1).kind {
            ExprKind::Access { operand, .. } => *operand == within_chain(e, m),
            ExprKind::Index { operand, .. } => *operand == within_chain(e, m),
            _ => false,
        },
    decreases e,
{
    match e.kind {
        ExprKind::Access { operand, .. } => {
            lemma_within_chain(ts, bytes, *operand, i, m);
            lemma_within_chain(ts, bytes, *operand, i, 0);
            assert forall|d: int| parsable(e, d) implies parsable(#[trigger] within_chain(e, m), d) by {
                assert(parsable(*operand, d));
            }
        },
        ExprKind::Index { operand, .. } => {
            lemma_within_chain(ts, bytes, *operand, i, m);
            lemma_within_chain(ts, bytes, *operand, i, 0);
            assert forall|d: int| parsable(e, d) implies parsable(#[trigger] within_chain(e, m), d) by {
                assert(parsable(*operand, d));
            }
        },
        _ => {},
    }
}

/// Runs whose first `n` members are the same are taken alike up to there.
proof fn lemma_items_parsable_same(xs: Seq<Expr>, ys: Seq<Expr>, n: int, d: int)
    requires
        0 <= n <= xs.len(),
        n <= ys.len(),
        forall|k: int| 0 <= k < n ==> xs[k] == ys[k],
    ensures
        items_parsable(xs, n, d) == items_parsable(ys, n, d),
    decreases n,
{
    if n > 0 {
        lemma_items_parsable_same(xs, ys, n - 1, d);
    }
}

proof fn lemma_bindings_parsable_same(xs: Seq<Binding>, ys: Seq<Binding>, n: int, d: int)
    requires
        0 <= n <= xs.len(),
        n <= ys.len(),
        forall|k: int| 0 <= k < n ==> xs[k] == ys[k],
    ensures
        bindings_parsable(xs, n, d) == bindings_parsable(ys, n, d),
    decreases n,
{
    if n > 0 {
        lemma_bindings_parsable_same(xs, ys, n - 1, d);
    }
}

proof fn lemma_fields_parsable_same(xs: Seq<Field>, ys: Seq<Field>, n: int, d: int)
    requires
        0 <= n <= xs.len(),
        n <= ys.len(),
        forall|k: int| 0 <= k < n ==> xs[k] == ys[k],
    ensures
        fields_parsable(xs, n, d) == fields_parsable(ys, n, d),
    decreases n,
{
    if n > 0 {
        lemma_fields_parsable_same(xs, ys, n - 1, d);
    }
}

proof fn lemma_entries_parsable_same(xs: Seq<Entry>, ys: Seq<Entry>, n: int, d: int)
    requires
        0 <= n <= xs.len(),
        n <= ys.len(),
        forall|k: int| 0 <= k < n ==> xs[k] == ys[k],
    ensures
        entries_parsable(xs, n, d) == entries_parsable(ys, n, d),
    decreases n,
{
    if n > 0 {
        lemma_entries_parsable_same(xs, ys, n - 1, d);
    }
}

proof fn lemma_pieces_parsable_same(xs: Seq<Piece>, ys: Seq<Piece>, n: int, d: int)
    requires
        0 <= n <= xs.len(),
        n <= ys.len(),
        forall|k: int| 0 <= k < n ==> xs[k] == ys[k],
    ensures
        pieces_parsable(xs, n, d) == pieces_parsable(ys, n, d),
    decreases n,
{
    if n > 0 {
        lemma_pieces_parsable_same(xs, ys, n - 1, d);
    }
}

/// Two runs of bytes that differ read as different ASCII text.
proof fn lemma_ascii_differs(a: Seq<u8>, b: Seq<u8>)
    requires
        a != b,
    ensures
        ascii_chars(a) != ascii_chars(b),
{
    if a.len() == b.len() {
        if forall|k: int| 0 <= k < a.len() ==> a[k] == b[k] {
            assert(a =~= b);
        }
        let k = choose|k: int| 0 <= k < a.len() && a[k] != b[k];
        assert(ascii_chars(a)[k] == a[k] as char);
        assert(ascii_chars(b)[k] == b[k] as char);
        assert((a[k] as char) as u32 == a[k] as u32);
        assert((b[k] as char) as u32 == b[k] as u32);
    } else {
        assert(ascii_chars(a).len() != ascii_chars(b).len());
    }
}

proof fn lemma_items_parsable(xs: Seq<Expr>, n: int, d: int, k: int)
    requires
        items_parsable(xs, n, d),
        0 <= k < n <= xs.len(),
    ensures
        parsable(xs[k], d),
    decreases n,
{
    if k < n - 1 {
        lemma_items_parsable(xs, n - 1, d, k);
    }
}

proof fn lemma_bindings_parsable(xs: Seq<Binding>, n: int, d: int, k: int)
    requires
        bindings_parsable(xs, n, d),
        0 <= k < n <= xs.len(),
    ensures
        parsable(xs[k].value, d),
    decreases n,
{
    if k < n - 1 {
        lemma_bindings_parsable(xs, n - 1, d, k);
    }
}

proof fn lemma_fields_parsable(xs: Seq<Field>, n: int, d: int, k: int)
    requires
        fields_parsable(xs, n, d),
        0 <= k < n <= xs.len(),
    ensures
        parsable(xs[k].value, d),
    decreases n,
{
    if k < n - 1 {
        lemma_fields_parsable(xs, n - 1, d, k);
    }
}

proof fn lemma_entries_parsable(xs: Seq<Entry>, n: int, d: int, k: int)
    requires
        entries_parsable(xs, n, d),
        0 <= k < n <= xs.len(),
    ensures
        parsable(xs[k].key, d),
        parsable(xs[k].value, d),
    decreases n,
{
    if k < n - 1 {
        lemma_entries_parsable(xs, n - 1, d, k);
    }
}

proof fn lemma_pieces_parsable(xs: Seq<Piece>, n: int, d: int, k: int)
    requires
        pieces_parsable(xs, n, d),
        0 <= k < n <= xs.len(),
    ensures
        xs[k] matches Piece::Hole { expr, .. } ==> parsable(expr, d),
    decreases n,
{
    if k < n - 1 {
        lemma_pieces_parsable(xs, n - 1, d, k);
    }
}

/// Whether, where `target` names an expression, the tokens from the cursor on read it,
/// ending where a value can end, the reader takes it at `depth`, and the lexer read the text
/// whole.
spec fn target_here(c: &Cursor, target: Option<Expr>, depth: int) -> bool {
    target matches Some(t) ==> {
        &&& reading(c.tokens@, c.bytes@, t, c.at as int) is Some
        &&& ends_value(c.tokens@, reading(c.tokens@, c.bytes@, t, c.at as int)->Some_0)
        &&& parsable(t, depth)
        &&& c.fault is None
    }
}

/// Whether, where `target` names an expression that is no projection, the tokens from the
/// cursor on read it, ending where no `:=` stands, the reader takes it at `depth`, and the
/// lexer read the text whole.
spec fn target_at(c: &Cursor, target: Option<Expr>, depth: int) -> bool {
    target matches Some(t) ==> {
        &&& reading(c.tokens@, c.bytes@, t, c.at as int) is Some
        &&& !kind_at(c.tokens@, reading(c.tokens@, c.bytes@, t, c.at as int)->Some_0, TokenKind::Binder)
        &&& parsable(t, depth)
        &&& !(t.kind is Access) && !(t.kind is Index)
        &&& c.fault is None
    }
}

/// Whether, where `target` names an expression, `read` went through and the cursor stands
/// past the target's reading.
spec fn read_target(before: &Cursor, after: &Cursor, target: Option<Expr>, read: Result<Expr, Error>) -> bool {
    target matches Some(t) ==> (read is Ok
        && after.at as int == reading(before.tokens@, before.bytes@, t, before.at as int)->Some_0)
}

/// Where the bindings of a block read from the `i`th token end.
spec fn heading_end(ts: Seq<Token>, bytes: Seq<u8>, t: Expr, i: int) -> int {
    bindings_reading(ts, bytes, bindings_of(t), bindings_of(t).len() as int, i + 1)->Some_0
}

/// What reading a block from the `i`th token tells of the tokens its parts stand on.
proof fn lemma_block_target(ts: Seq<Token>, bytes: Seq<u8>, t: Expr, i: int, d: int)
    requires
        reading(ts, bytes, t, i) is Some,
        !kind_at(ts, reading(ts, bytes, t, i)->Some_0, TokenKind::Binder),
        parsable(t, d),
        t.kind is Tuple || t.kind is Mapping,
    ensures
        bindings_reading(ts, bytes, bindings_of(t), bindings_of(t).len() as int, i + 1) is Some,
        ends_value(ts, heading_end(ts, bytes, t, i)),
        !kind_at(ts, heading_end(ts, bytes, t, i) + 1, TokenKind::Binder),
        distinct_bindings(bindings_of(t)),
        bindings_parsable(bindings_of(t), bindings_of(t).len() as int, d + 1),
        t.kind is Tuple ==> {
            let fs = fields_of(t);
            let j = heading_end(ts, bytes, t, i);
            &&& fields_reading(ts, bytes, fs, fs.len() as int, j) is Some
            &&& kind_at(ts, fields_reading(ts, bytes, fs, fs.len() as int, j)->Some_0, TokenKind::BraceClose)
            &&& reading(ts, bytes, t, i) == Some(fields_reading(ts, bytes, fs, fs.len() as int, j)->Some_0 + 1)
            &&& distinct_fields(fs)
            &&& fields_parsable(fs, fs.len() as int, d + 1)
            &&& fs.len() == 0 ==> fields_reading(ts, bytes, fs, fs.len() as int, j) == Some(j)
            &&& fs.len() > 0 ==> kind_at(ts, j, TokenKind::Ident) && kind_at(ts, j + 1, TokenKind::Equals)
        },
        t.kind is Mapping ==> {
            let es = entries_of(t);
            let j = heading_end(ts, bytes, t, i);
            &&& es.len() > 0
            &&& entries_reading(ts, bytes, es, es.len() as int, j) is Some
            &&& kind_at(ts, entries_reading(ts, bytes, es, es.len() as int, j)->Some_0, TokenKind::BraceClose)
            &&& reading(ts, bytes, t, i) == Some(entries_reading(ts, bytes, es, es.len() as int, j)->Some_0 + 1)
            &&& entries_parsable(es, es.len() as int, d + 1)
            &&& opener(ts, j)
            &&& !(kind_at(ts, j, TokenKind::Ident) && kind_at(ts, j + 1, TokenKind::Equals))
        },
{
    let bs = bindings_of(t);
    let j = heading_end(ts, bytes, t, i);
    if t.kind is Tuple {
        let fs = fields_of(t);
        if fs.len() > 0 {
            lemma_fields_some(ts, bytes, fs, fs.len() as int, 1, j);
            assert(fields_reading(ts, bytes, fs, 0, j) == Some(j));
        }
    } else {
        let es = entries_of(t);
        lemma_entries_some(ts, bytes, es, es.len() as int, 1, j);
        assert(entries_reading(ts, bytes, es, 0, j) == Some(j));
        lemma_reading_opens(ts, bytes, es[0].key, j);
        lemma_reading_second(ts, bytes, es[0].key, j);
    }
}

/// Reads a surface document.
#[verifier::rlimit(40)]
pub fn parse(source: &str) -> (read: Result<Document, Error>)
    ensures
        read matches Ok(d) ==> reads(source.spec_bytes(), d),
        forall|v: Value| spells(source.spec_bytes(), v) && height(v) <= MAX_DEPTH + 1 ==> (read matches Ok(d)
            && d.form == Form::Value && d.bindings@.len() == 0 && literal(d.value, v)),
        well_formed(source.spec_bytes()) ==> read is Ok,
        lexing(source.spec_bytes()).1 is None && lexing(source.spec_bytes()).0.len() == 0 ==> (read matches Err(e)
            && e.kind == ErrorKind::EmptyDocument && e.span.start == 0 && e.span.end == source.spec_bytes().len() as usize),
        read matches Ok(d) ==> document_parsable(d),
        read is Ok <==> well_formed(source.spec_bytes()),
        !well_formed(source.spec_bytes()) && (exists|fs: Seq<Field>| #[trigger] stops_at_fault(source.spec_bytes(), fs))
            ==> exists|fs: Seq<Field>| #[trigger] stops_at_fault(source.spec_bytes(), fs)
                && read == Err::<Document, Error>(field_fault(lexing(source.spec_bytes()).0, source.spec_bytes().len() as int,
                    fields_reading(lexing(source.spec_bytes()).0, source.spec_bytes(), fs, fs.len() as int, 0)->Some_0)->0),
        !well_formed(source.spec_bytes()) && (exists|e: Expr| #[trigger] value_stops(source.spec_bytes(), e))
            ==> exists|e: Expr| #[trigger] value_stops(source.spec_bytes(), e) && (read matches Err(err)
                && err.kind == ErrorKind::TrailingInput
                && err.span == lexing(source.spec_bytes()).0[reading(lexing(source.spec_bytes()).0, source.spec_bytes(), e, 0)->Some_0].span),
{
    let mut parser = Parser { cursor: Cursor::new(source) };
    let ghost ts = parser.cursor.tokens@;
    let ghost bytes = parser.cursor.bytes@;
    let ghost canon: Option<Value> = if exists|v: Value| spells(bytes, v) && height(v) <= MAX_DEPTH + 1 {
        Some(choose|v: Value| spells(bytes, v) && height(v) <= MAX_DEPTH + 1)
    } else {
        None
    };
    proof {
        if let Some(v) = canon {
            lemma_spelling_plain(ts, bytes, v, 0);
            lemma_spelling_opens(ts, bytes, v, 0);
        }
    }
    let ghost goal: Option<Document> = if well_formed(bytes) {
        Some(choose|d: Document| #[trigger] reads(bytes, d) && document_parsable(d))
    } else {
        None
    };
    let ghost faulty: Option<Seq<Field>> = if !well_formed(bytes) && exists|fs: Seq<Field>| #[trigger] stops_at_fault(bytes, fs) {
        Some(choose|fs: Seq<Field>| #[trigger] stops_at_fault(bytes, fs))
    } else {
        None
    };
    let ghost stopped: Option<Expr> = if !well_formed(bytes) && exists|e: Expr| #[trigger] value_stops(bytes, e) {
        Some(choose|e: Expr| #[trigger] value_stops(bytes, e))
    } else {
        None
    };
    let ghost heading: Option<Seq<Binding>> = match goal {
        Some(d) => Some(d.bindings@),
        None => if faulty is Some || stopped is Some { Some(Seq::empty()) } else { None },
    };
    let ghost tvalue: Option<Expr> = match goal {
        Some(d) => if d.form == Form::Value { Some(d.value) } else { None },
        None => stopped,
    };
    let ghost tfields: Option<Seq<Field>> = match goal {
        Some(d) => if d.form == Form::Fields { Some(fields_of(d.value)) } else { None },
        None => faulty,
    };
    proof {
        if let Some(d) = goal {
            let bs = d.bindings@;
            let j = bindings_reading(ts, bytes, bs, bs.len() as int, 0)->Some_0;
            if bs.len() > 0 {
                lemma_bindings_some(ts, bytes, bs, bs.len() as int, 1, 0);
                assert(bindings_reading(ts, bytes, bs, 0, 0) == Some(0int));
            }
            match d.form {
                Form::Value => {
                    lemma_reading_opens(ts, bytes, d.value, j);
                    lemma_reading_second(ts, bytes, d.value, j);
                },
                Form::Fields => {
                    let fs = fields_of(d.value);
                    lemma_fields_some(ts, bytes, fs, fs.len() as int, 1, j);
                    assert(fields_reading(ts, bytes, fs, 0, j) == Some(j));
                },
            }
        }
    }
    proof {
        if let Some(fs) = faulty {
            assert(bytes == source.spec_bytes());
            lemma_fields_some(ts, bytes, fs, fs.len() as int, 1, 0);
            assert(fields_reading(ts, bytes, fs, 0, 0) == Some(0int));
            assert(name_at(ts, bytes, fs[0].name, 0) && kind_at(ts, 1, TokenKind::Equals));
            assert(bindings_reading(ts, bytes, Seq::<Binding>::empty(), 0, 0) == Some(0int));
        }
        if let Some(e) = stopped {
            assert(bytes == source.spec_bytes());
            lemma_reading_opens(ts, bytes, e, 0);
            assert(bindings_reading(ts, bytes, Seq::<Binding>::empty(), 0, 0) == Some(0int));
        }
    }
    if parser.cursor.peek(0)?.is_none() {
        return Err(Error::new(ErrorKind::EmptyDocument, Span::new(0, source.len())));
    }
    let bindings = parser.bindings(0, Ghost(heading))?;
    let ghost j = parser.cursor.at as int;
    if parser.cursor.peek(0)?.is_none() {
        return Err(Error::new(ErrorKind::OnlyBindings, Span::new(0, source.len())));
    }
    if parser.heads_a_field()? {
        let value = parser.tuple(Vec::new(), Close::Eof, 0, Ghost(None), Ghost(tfields))?;
        let document = Document { bindings, value, form: Form::Fields };
        proof {
            assert(document_reading(ts, bytes, document));
            assert(document_parsable(document));
            assert(reads(bytes, document));
        }
        return Ok(document);
    }
    let value = parser.value(0, Ghost(canon), Ghost(tvalue))?;
    match parser.cursor.peek(0)? {
        Some(token) => Err(Error::new(ErrorKind::TrailingInput, token.span)),
        None => {
            let document = Document { bindings, value, form: Form::Value };
            proof {
                assert(document_reading(ts, bytes, document));
                assert(document_parsable(document));
                assert(reads(bytes, document));
                assert forall|v: Value| spells(bytes, v) && height(v) <= MAX_DEPTH + 1 implies literal(document.value, v) by {
                    let c = canon->Some_0;
                    lemma_spelling_unique(ts, bytes, c, v, 0);
                    lemma_literal_identical(document.value, c, v);
                }
            }
            Ok(document)
        },
    }
}

impl<'a> Parser<'a> {
    /// The bindings that head a block or the document.
    #[verifier::rlimit(40)]
    fn bindings(&mut self, depth: usize, target: Ghost<Option<Seq<Binding>>>) -> (read: Result<Vec<Binding>, Error>)
        requires
            old(self).cursor.wf(),
            depth <= MAX_DEPTH + 2,
            target@ matches Some(bs) ==> {
                &&& bindings_reading(old(self).cursor.tokens@, old(self).cursor.bytes@, bs, bs.len() as int, old(self).cursor.at as int) is Some
                &&& ends_value(old(self).cursor.tokens@,
                    bindings_reading(old(self).cursor.tokens@, old(self).cursor.bytes@, bs, bs.len() as int, old(self).cursor.at as int)->Some_0)
                &&& !kind_at(old(self).cursor.tokens@,
                    bindings_reading(old(self).cursor.tokens@, old(self).cursor.bytes@, bs, bs.len() as int, old(self).cursor.at as int)->Some_0 + 1,
                    TokenKind::Binder)
                &&& distinct_bindings(bs)
                &&& bindings_parsable(bs, bs.len() as int, depth as int)
                &&& old(self).cursor.fault is None
            },
        ensures
            target@ matches Some(bs) ==> read is Ok && final(self).cursor.at as int
                == bindings_reading(old(self).cursor.tokens@, old(self).cursor.bytes@, bs, bs.len() as int, old(self).cursor.at as int)->Some_0,
            final(self).cursor.wf(),
            advanced(&old(self).cursor, &final(self).cursor),
            read matches Ok(bs) ==> bindings_reading(old(self).cursor.tokens@, old(self).cursor.bytes@, bs@, bs@.len() as int,
                old(self).cursor.at as int) == Some(final(self).cursor.at as int),
            plain_text(&old(self).cursor) ==> (read matches Ok(bs) && bs@.len() == 0 && final(self).cursor.at == old(self).cursor.at),
            read is Ok ==> !(final(self).cursor.position() + 1 < final(self).cursor.count()
                && final(self).cursor.token_at(final(self).cursor.at + 1).kind == TokenKind::Binder),
            read matches Ok(bs) ==> distinct_bindings(bs@) && bindings_parsable(bs@, bs@.len() as int, depth as int),
        decreases old(self).cursor.remaining(), 1nat,
    {
        let ghost ts = self.cursor.tokens@;
        let ghost bytes = self.cursor.bytes@;
        let ghost start = self.cursor.at as int;
        let mut bindings: Vec<Binding> = Vec::new();
        let mut names: Vec<Token> = Vec::new();
        loop
            invariant
                self.cursor.wf(),
                advanced(&old(self).cursor, &self.cursor),
                depth <= MAX_DEPTH + 2,
                forall|i: int| 0 <= i < names@.len() ==> crate::cursor::token_ok(self.cursor.bytes@, #[trigger] names@[i]),
                ts == self.cursor.tokens@,
                bytes == self.cursor.bytes@,
                start == old(self).cursor.at,
                bindings_reading(ts, bytes, bindings@, bindings@.len() as int, start) == Some(self.cursor.at as int),
                plain_text(&old(self).cursor) ==> bindings@.len() == 0 && self.cursor.at == start,
                target@ matches Some(bs) ==> {
                    &&& bindings_reading(ts, bytes, bs, bs.len() as int, start) is Some
                    &&& ends_value(ts, bindings_reading(ts, bytes, bs, bs.len() as int, start)->Some_0)
                    &&& !kind_at(ts, bindings_reading(ts, bytes, bs, bs.len() as int, start)->Some_0 + 1, TokenKind::Binder)
                    &&& distinct_bindings(bs)
                    &&& bindings_parsable(bs, bs.len() as int, depth as int)
                    &&& self.cursor.fault is None
                    &&& bindings@.len() <= bs.len()
                    &&& names@.len() == bindings@.len()
                    &&& bindings_reading(ts, bytes, bs, bindings@.len() as int, start) == Some(self.cursor.at as int)
                    &&& forall|q: int| 0 <= q < names@.len() ==> token_text(bytes, #[trigger] names@[q]) == bs[q].name.ident@
                },
                names@.len() == bindings@.len(),
                forall|q: int| 0 <= q < names@.len() ==> token_text(bytes, #[trigger] names@[q]) == bindings@[q].name.ident@,
                distinct_bindings(bindings@),
                bindings_parsable(bindings@, bindings@.len() as int, depth as int),
            decreases self.cursor.remaining(),
        {
            let ghost j = self.cursor.at as int;
            let ghost next_binding: Option<Expr> = match target@ {
                Some(bs) => if bindings@.len() < bs.len() { Some(bs[bindings@.len() as int].value) } else { None },
                None => None,
            };
            proof {
                if let Some(bs) = target@ {
                    let k = bindings@.len() as int;
                    if k < bs.len() {
                        lemma_bindings_some(ts, bytes, bs, bs.len() as int, k + 1, start);
                        lemma_bindings_parsable(bs, bs.len() as int, depth as int, k);
                        let e = bindings_reading(ts, bytes, bs, k + 1, start)->Some_0;
                        if k + 1 < bs.len() {
                            lemma_bindings_some(ts, bytes, bs, bs.len() as int, k + 2, start);
                        }
                        assert(ends_value(ts, e));
                    }
                }
            }
            let name = match self.cursor.peek(0)? {
                Some(t) => t,
                None => return Ok(bindings),
            };
            let binder = match self.cursor.peek(1)? {
                Some(t) => t,
                None => return Ok(bindings),
            };
            proof {
                if plain_text(&old(self).cursor) {
                    assert(plain_at(ts, j + 1));
                }
            }
            if binder.kind != TokenKind::Binder {
                return Ok(bindings);
            }
            if name.kind != TokenKind::Ident {
                return Err(Error::new(ErrorKind::ExpectedBindingName, name.span));
            }
            self.cursor.bump()?;
            self.cursor.bump()?;
            let value = self.value(depth, Ghost(None), Ghost(next_binding))?;
            let ghost named = names@;
            let mut i: usize = 0;
            while i < names.len()
                invariant
                    self.cursor.wf(),
                    advanced(&old(self).cursor, &self.cursor),
                    i <= names@.len(),
                    forall|k: int| 0 <= k < names@.len() ==> crate::cursor::token_ok(self.cursor.bytes@, #[trigger] names@[k]),
                    crate::cursor::token_ok(self.cursor.bytes@, name),
                    name.kind == TokenKind::Ident,
                    !plain_text(&old(self).cursor),
                    names@ == named,
                    bytes == self.cursor.bytes@,
                    target@ matches Some(bs) ==> (distinct_bindings(bs) && named.len() < bs.len()
                        && token_text(bytes, name) == bs[named.len() as int].name.ident@
                        && forall|q: int| 0 <= q < named.len() ==> token_text(bytes, #[trigger] named[q]) == bs[q].name.ident@),
                    forall|k: int| 0 <= k < i ==> token_text(bytes, #[trigger] named[k]) != token_text(bytes, name),
                decreases names@.len() - i,
            {
                if self.cursor.same_text(names[i], name) {
                    proof {
                        assert(token_text(bytes, named[i as int]) == token_text(bytes, name));
                        if let Some(bs) = target@ {
                            assert(bs[i as int].name.ident@ == bs[named.len() as int].name.ident@);
                        }
                    }
                    let spelled = self.cursor.word(name);
                    return Err(Error::new(ErrorKind::DuplicateBinding(spelled), name.span));
                }
                proof { lemma_ascii_differs(token_bytes(bytes, named[i as int]), token_bytes(bytes, name)); }
                i = i + 1;
            }
            names.push(name);
            let ident = self.cursor.ident(name);
            let ghost before = bindings@;
            bindings.push(Binding { name: Name { ident, span: name.span }, value });
            proof {
                lemma_bindings_prefix(ts, bytes, before, bindings@, before.len() as int, start);
                lemma_bindings_parsable_same(before, bindings@, before.len() as int, depth as int);
                assert forall|q: int| 0 <= q < names@.len() implies token_text(bytes, #[trigger] names@[q]) == bindings@[q].name.ident@ by {
                    if q < named.len() {
                        assert(names@[q] == named[q]);
                        assert(bindings@[q] == before[q]);
                    }
                }
                assert forall|a: int, b: int| 0 <= a < b < bindings@.len() implies
                    (#[trigger] bindings@[a]).name.ident@ != (#[trigger] bindings@[b]).name.ident@ by {
                    if b < before.len() {
                        assert(bindings@[a] == before[a] && bindings@[b] == before[b]);
                    } else {
                        assert(names@[a] == named[a]);
                        assert(token_text(bytes, named[a]) != token_text(bytes, name));
                    }
                }
                assert(name == ts[j]);
                if let Some(bs) = target@ {
                    assert forall|q: int| 0 <= q < names@.len() implies token_text(bytes, #[trigger] names@[q]) == bs[q].name.ident@ by {
                        if q < named.len() {
                            assert(names@[q] == named[q]);
                        }
                    }
                }
            }
        }
    }

    /// A value and the projections that read into it, left to right.
    #[verifier::rlimit(40)]
    fn value(&mut self, depth: usize, canon: Ghost<Option<Value>>, target: Ghost<Option<Expr>>) -> (read: Result<Expr, Error>)
        requires
            old(self).cursor.wf(),
            depth <= MAX_DEPTH + 2,
            canonical_here(&old(self).cursor, canon@, MAX_DEPTH + 1 - depth),
            target_here(&old(self).cursor, target@, depth as int),
        ensures
            read_target(&old(self).cursor, &final(self).cursor, target@, read),
            final(self).cursor.wf(),
            advanced(&old(self).cursor, &final(self).cursor),
            read is Ok ==> final(self).cursor.at > old(self).cursor.at,
            read matches Ok(e) ==> reading(old(self).cursor.tokens@, old(self).cursor.bytes@, e, old(self).cursor.at as int)
                == Some(final(self).cursor.at as int),
            read_literal(&old(self).cursor, &final(self).cursor, canon@, read),
            read matches Ok(e) ==> parsable(e, depth as int),
        decreases old(self).cursor.remaining(), 4nat,
    {
        let ghost ts = self.cursor.tokens@;
        let ghost bytes = self.cursor.bytes@;
        let ghost start = self.cursor.at as int;
        let ghost base: Option<Expr> = match target@ {
            Some(t) => Some(within_chain(t, 0)),
            None => None,
        };
        proof {
            if let Some(t) = target@ {
                lemma_within_chain(ts, bytes, t, start, 0);
                let j0 = reading(ts, bytes, within_chain(t, 0), start)->Some_0;
                if projections(t) > 0 {
                    lemma_within_chain(ts, bytes, t, start, 1);
                    lemma_within_chain(ts, bytes, within_chain(t, 1), start, 0);
                    assert(kind_at(ts, j0, TokenKind::Dot));
                }
            }
        }
        let mut expr = self.operand(depth, canon, Ghost(base))?;
        let mut reach = depth;
        loop
            invariant
                self.cursor.wf(),
                advanced(&old(self).cursor, &self.cursor),
                self.cursor.at > old(self).cursor.at,
                reach <= MAX_DEPTH + 2,
                ts == self.cursor.tokens@,
                bytes == self.cursor.bytes@,
                start == old(self).cursor.at,
                reading(ts, bytes, expr, start) == Some(self.cursor.at as int),
                canon@ matches Some(v) ==> (literal(expr, v) && self.cursor.at as int == spelling(ts, bytes, v, start)->Some_0
                    && plain_text(&self.cursor)),
                reach >= depth,
                target_here(&old(self).cursor, target@, depth as int),
                target@ matches Some(t) ==> (reach - depth <= projections(t) && self.cursor.fault is None
                    && self.cursor.at as int == reading(ts, bytes, within_chain(t, (reach - depth) as nat), start)->Some_0),
                parsable(expr, depth as int),
                projections(expr) == reach - depth,
            decreases self.cursor.remaining(),
        {
            let ghost j = self.cursor.at as int;
            let ghost m: nat = (reach - depth) as nat;
            let ghost key_target: Option<Expr> = match target@ {
                Some(t) => if m < projections(t) {
                    match within_chain(t, m + 1).kind {
                        ExprKind::Index { key, .. } => Some(*key),
                        _ => None,
                    }
                } else {
                    None
                },
                None => None,
            };
            proof {
                if let Some(t) = target@ {
                    lemma_within_chain(ts, bytes, t, start, m);
                    if m < projections(t) {
                        lemma_within_chain(ts, bytes, t, start, m + 1);
                        let w = within_chain(t, m + 1);
                        assert(parsable(w, depth as int));
                        match w.kind {
                            ExprKind::Access { operand, field } => {
                                assert(reading(ts, bytes, *operand, start) == Some(j));
                                assert(kind_at(ts, j, TokenKind::Dot));
                                assert(name_at(ts, bytes, field, j + 1));
                            },
                            ExprKind::Index { operand, key } => {
                                assert(reading(ts, bytes, *operand, start) == Some(j));
                                assert(kind_at(ts, j, TokenKind::Dot));
                                assert(kind_at(ts, j + 1, TokenKind::ParenOpen));
                                let k = reading(ts, bytes, *key, j + 2)->Some_0;
                                assert(kind_at(ts, k, TokenKind::ParenClose));
                            },
                            _ => {},
                        }
                    } else {
                        assert(within_chain(t, m) == t);
                    }
                }
            }
            proof {
                if canon@ is Some && j < ts.len() {
                    assert(plain_at(ts, j));
                }
            }
            let next = self.cursor.peek(0)?;
            let dotted = match next {
                Some(t) => t.kind == TokenKind::Dot,
                None => false,
            };
            if !dotted {
                return Ok(expr);
            }
            if reach >= MAX_DEPTH {
                return Err(Error::new(ErrorKind::TooDeep, expr.span));
            }
            reach = reach + 1;
            self.cursor.bump()?;
            let taken = self.cursor.bump()?;
            let token = match taken {
                Some(token) => token,
                None => return Err(Error::new(ErrorKind::ExpectedAccessName, self.cursor.end())),
            };
            if token.kind == TokenKind::Ident {
                let field = Name { ident: self.cursor.ident(token), span: token.span };
                let span = Span::new(expr.span.start, token.span.end);
                expr = Expr { kind: ExprKind::Access { operand: Box::new(expr), field }, span };
            } else if token.kind == TokenKind::ParenOpen {
                let key = self.value(reach + 1, Ghost(None), Ghost(key_target))?;
                let ghost k = self.cursor.at as int;
                let closing = self.cursor.bump()?;
                let close = match closing {
                    Some(t) => t,
                    None => return Err(Error::new(ErrorKind::UnterminatedKey, token.span)),
                };
                if close.kind != TokenKind::ParenClose {
                    return Err(Error::new(ErrorKind::ExpectedKeyClose, close.span));
                }
                let span = Span::new(expr.span.start, close.span.end);
                proof { assert(close == ts[k]); }
                expr = Expr { kind: ExprKind::Index { operand: Box::new(expr), key: Box::new(key) }, span };
            } else {
                return Err(Error::new(ErrorKind::ExpectedAccessName, token.span));
            }
        }
    }

    /// One value, without the projections that may follow it.
    #[verifier::rlimit(40)]
    fn operand(&mut self, depth: usize, canon: Ghost<Option<Value>>, target: Ghost<Option<Expr>>) -> (read: Result<Expr, Error>)
        requires
            old(self).cursor.wf(),
            depth <= MAX_DEPTH + 2,
            canonical_here(&old(self).cursor, canon@, MAX_DEPTH + 1 - depth),
            target_at(&old(self).cursor, target@, depth as int),
        ensures
            read_target(&old(self).cursor, &final(self).cursor, target@, read),
            read_literal(&old(self).cursor, &final(self).cursor, canon@, read),
            final(self).cursor.wf(),
            advanced(&old(self).cursor, &final(self).cursor),
            read is Ok ==> final(self).cursor.at > old(self).cursor.at,
            read matches Ok(e) ==> reading(old(self).cursor.tokens@, old(self).cursor.bytes@, e, old(self).cursor.at as int)
                == Some(final(self).cursor.at as int),
            read matches Ok(e) ==> !(e.kind is Access) && !(e.kind is Index),
            read matches Ok(e) ==> parsable(e, depth as int),
        decreases old(self).cursor.remaining(), 3nat,
    {
        let token = match self.cursor.peek(0)? {
            Some(t) => t,
            None => {
                let end = self.cursor.end();
                return Err(Error::new(ErrorKind::ExpectedValue, end));
            },
        };
        proof {
            if let Some(v) = canon@ {
                lemma_height_positive(v);
                lemma_spelling_opens(ts_of(&self.cursor), self.cursor.bytes@, v, self.cursor.at as int);
            }
        }
        if depth > MAX_DEPTH {
            return Err(Error::new(ErrorKind::TooDeep, token.span));
        }
        let kind = match token.kind {
            TokenKind::BracketOpen => return self.list(depth, canon, target),
            TokenKind::BraceOpen => return self.block(depth, canon, target),
            TokenKind::At => return self.call(token.span, depth, Ghost(None), target),
            TokenKind::InterpolationOpen => return self.interpolation(token.span, depth, target),
            TokenKind::Ident => {
                self.cursor.bump()?;
                ExprKind::Reference(self.cursor.ident(token))
            },
            TokenKind::Atom => {
                self.cursor.bump()?;
                ExprKind::Atom(Atom::new(self.cursor.word(token)))
            },
            TokenKind::String => {
                self.cursor.bump()?;
                ExprKind::String(unescape(self.cursor.source, token.span)?)
            },
            TokenKind::Number => {
                self.cursor.bump()?;
                match surface_number(self.cursor.bytes, token)? {
                    Number::Integer(integer) => ExprKind::Integer(integer),
                    Number::Float(float) => ExprKind::Float(float),
                }
            },
            TokenKind::Binder => return Err(Error::new(ErrorKind::MisplacedBinding, token.span)),
            _ => return Err(Error::new(ErrorKind::ExpectedValue, token.span)),
        };
        proof {
            if token.kind == TokenKind::String {
                assert(token.span.start + 1 < usize::MAX && token.span.end > 0);
            }
        }
        Ok(Expr { kind, span: token.span })
    }

    /// A call: `@`, a builtin's name, and one operand.
    #[verifier::rlimit(40)]
    fn call(&mut self, at: Span, depth: usize, canon: Ghost<Option<Value>>, target: Ghost<Option<Expr>>) -> (read: Result<Expr, Error>)
        requires
            old(self).cursor.wf(),
            old(self).cursor.position() < old(self).cursor.count(),
            kind_at(old(self).cursor.tokens@, old(self).cursor.at as int, TokenKind::At),
            at == old(self).cursor.tokens@[old(self).cursor.at as int].span,
            depth <= MAX_DEPTH,
            canon@ matches Some(v) ==> {
                &&& kind_at(old(self).cursor.tokens@, old(self).cursor.at + 1, TokenKind::Ident)
                &&& spelling(old(self).cursor.tokens@, old(self).cursor.bytes@, v, old(self).cursor.at + 2) is Some
                &&& height(v) <= MAX_DEPTH - depth
                &&& plain_text(&old(self).cursor)
            },
            target_at(&old(self).cursor, target@, depth as int),
            target@ matches Some(t) ==> t.kind is Call,
        ensures
            canon@ is Some ==> read is Ok,
            read_target(&old(self).cursor, &final(self).cursor, target@, read),
            final(self).cursor.wf(),
            advanced(&old(self).cursor, &final(self).cursor),
            read is Ok ==> final(self).cursor.at > old(self).cursor.at,
            read matches Ok(e) ==> reading(old(self).cursor.tokens@, old(self).cursor.bytes@, e, old(self).cursor.at as int)
                == Some(final(self).cursor.at as int),
            read matches Ok(e) ==> e.kind is Call,
            read matches Ok(e) ==> parsable(e, depth as int),
        decreases old(self).cursor.remaining(), 2nat,
    {
        self.cursor.bump()?;
        let taken = self.cursor.bump()?;
        let token = match taken {
            Some(token) => token,
            None => return Err(Error::new(ErrorKind::ExpectedBuiltinName, self.cursor.end())),
        };
        if token.kind != TokenKind::Ident {
            return Err(Error::new(ErrorKind::ExpectedBuiltinName, token.span));
        }
        let name = Name { ident: self.cursor.ident(token), span: token.span };
        let ghost inner: Option<Expr> = match target@ {
            Some(t) => match t.kind {
                ExprKind::Call { operand, .. } => Some(*operand),
                _ => None,
            },
            None => None,
        };
        let operand = self.operand(depth + 1, canon, Ghost(inner))?;
        let span = Span::new(at.start, operand.span.end);
        Ok(Expr { kind: ExprKind::Call { name, operand: Box::new(operand) }, span })
    }

    /// An interpolation: text and holes between `$"` and `"`.
    #[verifier::rlimit(40)]
    fn interpolation(&mut self, at: Span, depth: usize, target: Ghost<Option<Expr>>) -> (read: Result<Expr, Error>)
        requires
            target_at(&old(self).cursor, target@, depth as int),
            target@ matches Some(t) ==> t.kind is Interpolation,
            old(self).cursor.wf(),
            old(self).cursor.position() < old(self).cursor.count(),
            kind_at(old(self).cursor.tokens@, old(self).cursor.at as int, TokenKind::InterpolationOpen),
            at == old(self).cursor.tokens@[old(self).cursor.at as int].span,
            depth <= MAX_DEPTH,
        ensures
            old(self).cursor.fault is None && plain_interpolation(old(self).cursor.tokens@, old(self).cursor.bytes@, old(self).cursor.at + 1)
                ==> read is Ok,
            read_target(&old(self).cursor, &final(self).cursor, target@, read),
            final(self).cursor.wf(),
            advanced(&old(self).cursor, &final(self).cursor),
            read is Ok ==> final(self).cursor.at > old(self).cursor.at,
            read matches Ok(e) ==> reading(old(self).cursor.tokens@, old(self).cursor.bytes@, e, old(self).cursor.at as int)
                == Some(final(self).cursor.at as int),
            read matches Ok(e) ==> e.kind is Interpolation,
            read matches Ok(e) ==> parsable(e, depth as int),
        decreases old(self).cursor.remaining(), 2nat,
    {
        let ghost ts = self.cursor.tokens@;
        let ghost bytes = self.cursor.bytes@;
        let ghost start = self.cursor.at as int;
        self.cursor.bump()?;
        let mut pieces: Vec<Piece> = Vec::new();
        loop
            invariant
                self.cursor.wf(),
                advanced(&old(self).cursor, &self.cursor),
                self.cursor.at >= old(self).cursor.at,
                depth <= MAX_DEPTH,
                ts == self.cursor.tokens@,
                bytes == self.cursor.bytes@,
                start == old(self).cursor.at,
                kind_at(ts, start, TokenKind::InterpolationOpen),
                at == ts[start].span,
                pieces_reading(ts, bytes, pieces@, pieces@.len() as int, start + 1) == Some(self.cursor.at as int),
                old(self).cursor.fault is None && plain_interpolation(ts, bytes, start + 1)
                    ==> self.cursor.fault is None && plain_interpolation(ts, bytes, self.cursor.at as int),
                target_at(&old(self).cursor, target@, depth as int),
                target@ matches Some(t) ==> (t.kind is Interpolation && self.cursor.fault is None
                    && pieces@.len() <= t.kind->Interpolation_0@.len()
                    && pieces_reading(ts, bytes, t.kind->Interpolation_0@, pieces@.len() as int, start + 1) == Some(self.cursor.at as int)),
                pieces_parsable(pieces@, pieces@.len() as int, depth + 1),
            decreases self.cursor.remaining(),
        {
            let ghost j = self.cursor.at as int;
            let ghost next_piece: Option<Piece> = match target@ {
                Some(t) => if pieces@.len() < t.kind->Interpolation_0@.len() { Some(t.kind->Interpolation_0@[pieces@.len() as int]) } else { None },
                None => None,
            };
            proof {
                if let Some(t) = target@ {
                    let tp = t.kind->Interpolation_0@;
                    let k = pieces@.len() as int;
                    if k < tp.len() {
                        lemma_pieces_some(ts, bytes, tp, tp.len() as int, k + 1, start + 1);
                        lemma_pieces_parsable(tp, tp.len() as int, depth + 1, k);
                    }
                }
            }
            let token = match self.cursor.peek(0)? {
                Some(t) => t,
                None => return Err(Error::new(ErrorKind::UnterminatedString, at)),
            };
            let ghost before = pieces@;
            if token.kind == TokenKind::InterpolationClose {
                self.cursor.bump()?;
                return Ok(Expr { kind: ExprKind::Interpolation(pieces), span: Span::new(at.start, token.span.end) });
            } else if token.kind == TokenKind::Text {
                self.cursor.bump()?;
                let text = cook(self.cursor.bytes, token.span, true)?;
                pieces.push(Piece::Text(text));
                proof {
                    lemma_pieces_prefix(ts, bytes, before, pieces@, before.len() as int, start + 1);
                    lemma_pieces_parsable_same(before, pieces@, before.len() as int, depth + 1);
                }
            } else if token.kind == TokenKind::HoleOpen {
                self.cursor.bump()?;
                let piece = self.hole(token.span, depth + 1, Ghost(None), Ghost(next_piece))?;
                let ghost read_piece = piece;
                pieces.push(piece);
                proof {
                    lemma_pieces_prefix(ts, bytes, before, pieces@, before.len() as int, start + 1);
                    lemma_pieces_parsable_same(before, pieces@, before.len() as int, depth + 1);
                    assert(pieces@[before.len() as int] == read_piece);
                }
            } else {
                return Err(Error::new(ErrorKind::ExpectedValue, token.span));
            }
        }
    }

    /// A hole: one value, and the specifier that may follow it.
    #[verifier::rlimit(40)]
    fn hole(&mut self, open: Span, depth: usize, canon: Ghost<Option<Value>>, target: Ghost<Option<Piece>>) -> (read: Result<Piece, Error>)
        requires
            old(self).cursor.wf(),
            depth <= MAX_DEPTH + 1,
            canonical_here(&old(self).cursor, canon@, MAX_DEPTH + 1 - depth),
            canon@ matches Some(v) ==> kind_at(old(self).cursor.tokens@,
                spelling(old(self).cursor.tokens@, old(self).cursor.bytes@, v, old(self).cursor.at as int)->Some_0, TokenKind::HoleClose),
            target@ matches Some(p) ==> (p matches Piece::Hole { expr, .. } && parsable(expr, depth as int))
                && hole_reading(old(self).cursor.tokens@, old(self).cursor.bytes@, p, old(self).cursor.at as int) is Some
                && old(self).cursor.fault is None,
        ensures
            canon@ is Some ==> read is Ok,
            target@ matches Some(p) ==> (read is Ok && final(self).cursor.at as int
                == hole_reading(old(self).cursor.tokens@, old(self).cursor.bytes@, p, old(self).cursor.at as int)->Some_0),
            final(self).cursor.wf(),
            advanced(&old(self).cursor, &final(self).cursor),
            read matches Ok(p) ==> p is Hole && hole_reading(old(self).cursor.tokens@, old(self).cursor.bytes@, p, old(self).cursor.at as int)
                == Some(final(self).cursor.at as int),
            read matches Ok(p) ==> (p matches Piece::Hole { expr, .. } && parsable(expr, depth as int)),
        decreases old(self).cursor.remaining(), 5nat,
    {
        let ghost ts = self.cursor.tokens@;
        let ghost bytes = self.cursor.bytes@;
        let ghost inner: Option<Expr> = match target@ {
            Some(Piece::Hole { expr, .. }) => Some(expr),
            _ => None,
        };
        let expr = self.value(depth, canon, Ghost(inner))?;
        let ghost k = self.cursor.at as int;
        let mut spec: Option<Spec> = None;
        let next = self.cursor.peek(0)?;
        if let Some(token) = next {
            if token.kind == TokenKind::Spec {
                self.cursor.bump()?;
                let chars = decode_range(self.cursor.bytes, token.span.start, token.span.end);
                spec = Some(Spec::parse(&chars, token.span)?);
            }
        }
        let taken = self.cursor.bump()?;
        let token = match taken {
            Some(token) => token,
            None => return Err(Error::new(ErrorKind::UnterminatedHole, open)),
        };
        if token.kind == TokenKind::HoleClose {
            Ok(Piece::Hole { expr, spec })
        } else if token.kind == TokenKind::Binder {
            Err(Error::new(ErrorKind::MisplacedBinding, token.span))
        } else {
            Err(Error::new(ErrorKind::ExpectedHoleClose, token.span))
        }
    }

    /// A list: values between brackets.
    #[verifier::rlimit(40)]
    fn list(&mut self, depth: usize, canon: Ghost<Option<Value>>, target: Ghost<Option<Expr>>) -> (read: Result<Expr, Error>)
        requires
            old(self).cursor.wf(),
            old(self).cursor.position() < old(self).cursor.count(),
            kind_at(old(self).cursor.tokens@, old(self).cursor.at as int, TokenKind::BracketOpen),
            depth <= MAX_DEPTH,
            canonical_here(&old(self).cursor, canon@, MAX_DEPTH + 1 - depth),
            target_at(&old(self).cursor, target@, depth as int),
        ensures
            read_target(&old(self).cursor, &final(self).cursor, target@, read),
            read_literal(&old(self).cursor, &final(self).cursor, canon@, read),
            final(self).cursor.wf(),
            advanced(&old(self).cursor, &final(self).cursor),
            read is Ok ==> final(self).cursor.at > old(self).cursor.at,
            read matches Ok(e) ==> reading(old(self).cursor.tokens@, old(self).cursor.bytes@, e, old(self).cursor.at as int)
                == Some(final(self).cursor.at as int),
            read matches Ok(e) ==> e.kind is List,
            read matches Ok(e) ==> parsable(e, depth as int),
        decreases old(self).cursor.remaining(), 2nat,
    {
        let ghost ts = self.cursor.tokens@;
        let ghost bytes = self.cursor.bytes@;
        let ghost start = self.cursor.at as int;
        let taken = self.cursor.bump()?;
        let open = match taken {
            Some(t) => t.span,
            None => self.cursor.end(),
        };
        let mut items: Vec<Expr> = Vec::new();
        loop
            invariant
                self.cursor.wf(),
                advanced(&old(self).cursor, &self.cursor),
                self.cursor.at > old(self).cursor.at,
                depth <= MAX_DEPTH,
                ts == self.cursor.tokens@,
                bytes == self.cursor.bytes@,
                start == old(self).cursor.at,
                kind_at(ts, start, TokenKind::BracketOpen),
                open == ts[start].span,
                items_reading(ts, bytes, items@, items@.len() as int, start + 1) == Some(self.cursor.at as int),
                canonical_here(&old(self).cursor, canon@, MAX_DEPTH + 1 - depth),
                canon@ matches Some(v) ==> (v is List && items@.len() <= members(v) && literal_items(items@, v, items@.len() as int)
                    && members_spelling(ts, bytes, v, items@.len() as int, start + 1) == Some(self.cursor.at as int)
                    && plain_text(&self.cursor)),
                target_at(&old(self).cursor, target@, depth as int),
                target@ matches Some(t) ==> (t.kind is List && self.cursor.fault is None
                    && items@.len() <= t.kind->List_0@.len()
                    && items_reading(ts, bytes, t.kind->List_0@, items@.len() as int, start + 1) == Some(self.cursor.at as int)),
                items_parsable(items@, items@.len() as int, depth + 1),
            decreases self.cursor.remaining(),
        {
            let ghost j = self.cursor.at as int;
            let ghost next_item: Option<Expr> = match target@ {
                Some(t) => if items@.len() < t.kind->List_0@.len() { Some(t.kind->List_0@[items@.len() as int]) } else { None },
                None => None,
            };
            proof {
                if let Some(t) = target@ {
                    let xs = t.kind->List_0@;
                    let k = items@.len() as int;
                    let kc = items_reading(ts, bytes, xs, xs.len() as int, start + 1)->Some_0;
                    assert(kind_at(ts, kc, TokenKind::BracketClose));
                    if k < xs.len() {
                        lemma_items_some(ts, bytes, xs, xs.len() as int, k + 1, start + 1);
                        lemma_reading_opens(ts, bytes, xs[k], j);
                        lemma_items_parsable(xs, xs.len() as int, depth + 1, k);
                        let e = reading(ts, bytes, xs[k], j)->Some_0;
                        if k + 1 < xs.len() {
                            lemma_items_some(ts, bytes, xs, xs.len() as int, k + 2, start + 1);
                            lemma_reading_opens(ts, bytes, xs[k + 1], e);
                        }
                    }
                }
            }
            let ghost next_value: Option<Value> = match canon@ {
                Some(Value::List(xs)) => if items@.len() < xs@.len() { Some(xs@[items@.len() as int]) } else { None },
                _ => None,
            };
            proof {
                if let Some(v) = canon@ {
                    let n = members(v) as int;
                    let k = items@.len() as int;
                    if k < n {
                        lemma_members_some(ts, bytes, v, n, k + 1, start + 1);
                        lemma_list_member_height(v->List_0, k);
                        lemma_spelling_opens(ts, bytes, v->List_0@[k], j);
                    }
                }
            }
            let next = self.cursor.peek(0)?;
            let token = match next {
                Some(token) => token,
                None => return Err(Error::new(ErrorKind::UnterminatedList, open)),
            };
            if token.kind == TokenKind::BracketClose {
                let ghost whole = items@;
                let read = self.closed(ExprKind::List(items), open, token.span);
                proof {
                    assert(kind_at(ts, j, TokenKind::BracketClose));
                    if let Some(v) = canon@ {
                        assert(whole.len() == members(v));
                        assert(spelling(ts, bytes, v, start) == Some(j + 1));
                    }
                }
                return read;
            }
            let ghost before = items@;
            let item = self.value(depth + 1, Ghost(next_value), Ghost(next_item))?;
            items.push(item);
            proof {
                lemma_items_prefix(ts, bytes, before, items@, before.len() as int, start + 1);
                lemma_items_parsable_same(before, items@, before.len() as int, depth + 1);
                if let Some(v) = canon@ {
                    lemma_literal_items_prefix(before, items@, v, before.len() as int);
                }
            }
        }
    }

    /// Whether the next two tokens open a field: a name and `=`.
    fn heads_a_field(&self) -> (heads: Result<bool, Error>)
        requires
            self.cursor.wf(),
        ensures
            heads matches Ok(h) ==> h == (self.cursor.position() + 1 < self.cursor.count()
                && self.cursor.token_at(self.cursor.at as int).kind == TokenKind::Ident
                && self.cursor.token_at(self.cursor.at + 1).kind == TokenKind::Equals),
            self.cursor.fault is None ==> heads is Ok,
    {
        let name = self.cursor.peek(0)?;
        let bound = self.cursor.peek(1)?;
        match (name, bound) {
            (Some(n), Some(b)) => Ok(n.kind == TokenKind::Ident && b.kind == TokenKind::Equals),
            _ => Ok(false),
        }
    }

    /// A block: bindings, then a tuple's fields or a map's entries, between braces.
    #[verifier::rlimit(80)]
    fn block(&mut self, depth: usize, canon: Ghost<Option<Value>>, target: Ghost<Option<Expr>>) -> (read: Result<Expr, Error>)
        requires
            old(self).cursor.wf(),
            old(self).cursor.position() < old(self).cursor.count(),
            kind_at(old(self).cursor.tokens@, old(self).cursor.at as int, TokenKind::BraceOpen),
            depth <= MAX_DEPTH,
            canonical_here(&old(self).cursor, canon@, MAX_DEPTH + 1 - depth),
            target_at(&old(self).cursor, target@, depth as int),
        ensures
            read_target(&old(self).cursor, &final(self).cursor, target@, read),
            read_literal(&old(self).cursor, &final(self).cursor, canon@, read),
            final(self).cursor.wf(),
            advanced(&old(self).cursor, &final(self).cursor),
            read is Ok ==> final(self).cursor.at > old(self).cursor.at,
            read matches Ok(e) ==> reading(old(self).cursor.tokens@, old(self).cursor.bytes@, e, old(self).cursor.at as int)
                == Some(final(self).cursor.at as int),
            read matches Ok(e) ==> e.kind is Tuple || e.kind is Mapping,
            read matches Ok(e) ==> parsable(e, depth as int),
        decreases old(self).cursor.remaining(), 2nat,
    {
        let ghost ts = self.cursor.tokens@;
        let ghost bytes = self.cursor.bytes@;
        let ghost start = self.cursor.at as int;
        let taken = self.cursor.bump()?;
        let open = match taken {
            Some(t) => t.span,
            None => self.cursor.end(),
        };
        let ghost heading: Option<Seq<Binding>> = match target@ {
            Some(t) => Some(bindings_of(t)),
            None => None,
        };
        let ghost tfields: Option<Seq<Field>> = match target@ {
            Some(t) => if t.kind is Tuple { Some(fields_of(t)) } else { None },
            None => None,
        };
        let ghost tentries: Option<Seq<Entry>> = match target@ {
            Some(t) => if t.kind is Mapping { Some(entries_of(t)) } else { None },
            None => None,
        };
        proof {
            if let Some(t) = target@ {
                lemma_block_target(ts, bytes, t, start, depth as int);
            }
        }
        let bindings = self.bindings(depth + 1, Ghost(heading))?;
        let ghost j = self.cursor.at as int;
        proof {
            if let Some(v) = canon@ {
                assert(j == start + 1);
                match v {
                    Value::Tuple(t) => {
                        if members(v) > 0 {
                            lemma_members_some(ts, bytes, v, members(v) as int, 1, j);
                        }
                    },
                    Value::Mapping(m) => {
                        lemma_mapping_lengths(m);
                        lemma_members_some(ts, bytes, v, members(v) as int, 1, j);
                        assert(members_spelling(ts, bytes, v, 0, j) == Some(j));
                        lemma_spelling_opens(ts, bytes, m.keys()[0], j);
                    },
                    _ => {},
                }
            }
        }
        let next = self.cursor.peek(0)?;
        let token = match next {
            Some(token) => token,
            None => return Err(Error::new(ErrorKind::UnterminatedBlock, open)),
        };
        if token.kind == TokenKind::BraceClose {
            let empty: Vec<Field> = Vec::new();
            proof {
                assert(fields_reading(ts, bytes, empty@, 0, j) == Some(j));
                assert(distinct_fields(empty@));
                assert(fields_parsable(empty@, 0, depth + 1));
            }
            self.closed(ExprKind::Tuple { bindings, fields: empty }, open, token.span)
        } else if self.heads_a_field()? {
            self.tuple(bindings, Close::Brace(open), depth, canon, Ghost(tfields))
        } else {
            self.map(bindings, open, depth, canon, Ghost(tentries))
        }
    }

    /// A run of fields, closed by a brace or by the end of the file.
    #[verifier::rlimit(40)]
    fn tuple(&mut self, bindings: Vec<Binding>, close: Close, depth: usize, canon: Ghost<Option<Value>>, target: Ghost<Option<Seq<Field>>>) -> (read: Result<Expr, Error>)
        requires
            target@ matches Some(fs) ==> {
                &&& fields_reading(old(self).cursor.tokens@, old(self).cursor.bytes@, fs, fs.len() as int, old(self).cursor.at as int) is Some
                &&& match close {
                    Close::Brace(_) => kind_at(old(self).cursor.tokens@,
                        fields_reading(old(self).cursor.tokens@, old(self).cursor.bytes@, fs, fs.len() as int, old(self).cursor.at as int)->Some_0,
                        TokenKind::BraceClose),
                    Close::Eof => fields_reading(old(self).cursor.tokens@, old(self).cursor.bytes@, fs, fs.len() as int, old(self).cursor.at as int)->Some_0
                        == old(self).cursor.tokens@.len()
                        || (ends_value(old(self).cursor.tokens@,
                            fields_reading(old(self).cursor.tokens@, old(self).cursor.bytes@, fs, fs.len() as int, old(self).cursor.at as int)->Some_0)
                        && field_fault(old(self).cursor.tokens@, old(self).cursor.bytes@.len() as int,
                            fields_reading(old(self).cursor.tokens@, old(self).cursor.bytes@, fs, fs.len() as int, old(self).cursor.at as int)->Some_0) is Some),
                }
                &&& distinct_fields(fs)
                &&& fields_parsable(fs, fs.len() as int, depth + 1)
                &&& old(self).cursor.fault is None
            },
            old(self).cursor.wf(),
            old(self).cursor.position() < old(self).cursor.count(),
            old(self).cursor.token_at(old(self).cursor.at as int).kind == TokenKind::Ident,
            depth <= MAX_DEPTH,
            canon@ matches Some(v) ==> {
                &&& v matches Value::Tuple(t) && names_distinct(t)
                &&& members_spelling(old(self).cursor.tokens@, old(self).cursor.bytes@, v, members(v) as int, old(self).cursor.at as int)
                    matches Some(j) && kind_at(old(self).cursor.tokens@, j, TokenKind::BraceClose)
                &&& close is Brace
                &&& bindings@.len() == 0
                &&& height(v) <= MAX_DEPTH + 1 - depth
                &&& plain_text(&old(self).cursor)
            },
        ensures
            canon@ matches Some(v) ==> (read matches Ok(e) && literal(e, v) && final(self).cursor.at as int
                == members_spelling(old(self).cursor.tokens@, old(self).cursor.bytes@, v, members(v) as int, old(self).cursor.at as int)->Some_0 + 1),
            final(self).cursor.wf(),
            advanced(&old(self).cursor, &final(self).cursor),
            read matches Ok(e) ==> tuple_closed(old(self).cursor.tokens@, old(self).cursor.bytes@, e, bindings@, close,
                old(self).cursor.at as int, final(self).cursor.at as int),
            read is Ok && close is Eof ==> final(self).cursor.fault is None,
            target@ is Some && (close is Brace
                || fields_reading(old(self).cursor.tokens@, old(self).cursor.bytes@, target@->0, target@->0.len() as int, old(self).cursor.at as int)->Some_0
                    == old(self).cursor.tokens@.len()) ==> read is Ok && final(self).cursor.at as int
                == fields_reading(old(self).cursor.tokens@, old(self).cursor.bytes@, target@->0, target@->0.len() as int, old(self).cursor.at as int)->Some_0
                    + (if close is Brace { 1int } else { 0int }),
            target@ is Some && close is Eof
                && fields_reading(old(self).cursor.tokens@, old(self).cursor.bytes@, target@->0, target@->0.len() as int, old(self).cursor.at as int)->Some_0
                    != old(self).cursor.tokens@.len()
                ==> read == Err::<Expr, Error>(field_fault(old(self).cursor.tokens@, old(self).cursor.bytes@.len() as int,
                    fields_reading(old(self).cursor.tokens@, old(self).cursor.bytes@, target@->0, target@->0.len() as int, old(self).cursor.at as int)->Some_0)->0),
            distinct_bindings(bindings@) && bindings_parsable(bindings@, bindings@.len() as int, depth + 1)
                ==> (read matches Ok(e) ==> parsable(e, depth as int)),
        decreases old(self).cursor.remaining(), 1nat,
    {
        let ghost ts = self.cursor.tokens@;
        let ghost bytes = self.cursor.bytes@;
        let ghost start = self.cursor.at as int;
        let mut fields: Vec<Field> = Vec::new();
        let mut names: Vec<Token> = Vec::new();
        loop
            invariant
                self.cursor.wf(),
                advanced(&old(self).cursor, &self.cursor),
                depth <= MAX_DEPTH,
                forall|i: int| 0 <= i < names@.len() ==> crate::cursor::token_ok(self.cursor.bytes@, #[trigger] names@[i]),
                ts == self.cursor.tokens@,
                bytes == self.cursor.bytes@,
                start == old(self).cursor.at,
                start < ts.len(),
                ts[start].kind == TokenKind::Ident,
                fields@.len() > 0 || self.cursor.at == start,
                fields_reading(ts, bytes, fields@, fields@.len() as int, start) == Some(self.cursor.at as int),
                canon@ matches Some(v) ==> {
                    &&& v matches Value::Tuple(t) && names_distinct(t)
                    &&& members_spelling(ts, bytes, v, members(v) as int, start) matches Some(j) && kind_at(ts, j, TokenKind::BraceClose)
                    &&& close is Brace
                    &&& bindings@.len() == 0
                    &&& height(v) <= MAX_DEPTH + 1 - depth
                    &&& plain_text(&self.cursor)
                    &&& fields@.len() <= members(v)
                    &&& literal_fields(fields@, v, fields@.len() as int)
                    &&& members_spelling(ts, bytes, v, fields@.len() as int, start) == Some(self.cursor.at as int)
                    &&& names@.len() == fields@.len()
                    &&& forall|q: int| 0 <= q < names@.len() ==> token_text(bytes, #[trigger] names@[q]) == v->Tuple_0.names()[q]
                },
                target@ matches Some(fs) ==> {
                    &&& fields_reading(ts, bytes, fs, fs.len() as int, start) is Some
                    &&& match close {
                        Close::Brace(_) => kind_at(ts, fields_reading(ts, bytes, fs, fs.len() as int, start)->Some_0, TokenKind::BraceClose),
                        Close::Eof => fields_reading(ts, bytes, fs, fs.len() as int, start)->Some_0 == ts.len()
                            || (ends_value(ts, fields_reading(ts, bytes, fs, fs.len() as int, start)->Some_0)
                            && field_fault(ts, bytes.len() as int, fields_reading(ts, bytes, fs, fs.len() as int, start)->Some_0) is Some),
                    }
                    &&& distinct_fields(fs)
                    &&& fields_parsable(fs, fs.len() as int, depth + 1)
                    &&& self.cursor.fault is None
                    &&& fields@.len() <= fs.len()
                    &&& names@.len() == fields@.len()
                    &&& fields_reading(ts, bytes, fs, fields@.len() as int, start) == Some(self.cursor.at as int)
                    &&& forall|q: int| 0 <= q < names@.len() ==> token_text(bytes, #[trigger] names@[q]) == fs[q].name.ident@
                },
                names@.len() == fields@.len(),
                forall|q: int| 0 <= q < names@.len() ==> token_text(bytes, #[trigger] names@[q]) == fields@[q].name.ident@,
                distinct_fields(fields@),
                fields_parsable(fields@, fields@.len() as int, depth + 1),
            decreases self.cursor.remaining(),
        {
            let ghost j = self.cursor.at as int;
            let ghost next_field: Option<Expr> = match target@ {
                Some(fs) => if fields@.len() < fs.len() { Some(fs[fields@.len() as int].value) } else { None },
                None => None,
            };
            proof {
                if let Some(fs) = target@ {
                    let k = fields@.len() as int;
                    if k < fs.len() {
                        lemma_fields_some(ts, bytes, fs, fs.len() as int, k + 1, start);
                        lemma_fields_parsable(fs, fs.len() as int, depth + 1, k);
                        let e = fields_reading(ts, bytes, fs, k + 1, start)->Some_0;
                        if k + 1 < fs.len() {
                            lemma_fields_some(ts, bytes, fs, fs.len() as int, k + 2, start);
                        }
                        assert(ends_value(ts, e));
                    }
                }
            }
            let ghost next_value: Option<Value> = match canon@ {
                Some(Value::Tuple(t)) => if fields@.len() < t.values().len() { Some(t.values()[fields@.len() as int]) } else { None },
                _ => None,
            };
            proof {
                if let Some(v) = canon@ {
                    let n = members(v) as int;
                    let k = fields@.len() as int;
                    lemma_tuple_lengths(v->Tuple_0);
                    if k < n {
                        lemma_members_some(ts, bytes, v, n, k + 1, start);
                        lemma_tuple_member_height(v->Tuple_0, k);
                    }
                }
            }
            let token = match self.cursor.peek(0)? {
                Some(t) => t,
                None => {
                    return match close {
                        Close::Brace(open) => Err(Error::new(ErrorKind::UnterminatedBlock, open)),
                        Close::Eof => {
                            let end = self.cursor.end();
                            Ok(run(bindings, fields, end))
                        },
                    };
                },
            };
            if token.kind == TokenKind::BraceClose {
                return match close {
                    Close::Brace(open) => self.closed(ExprKind::Tuple { bindings, fields }, open, token.span),
                    Close::Eof => Err(Error::new(ErrorKind::TrailingInput, token.span)),
                };
            }
            if token.kind == TokenKind::Binder {
                return Err(Error::new(ErrorKind::MisplacedBinding, token.span));
            }
            if token.kind != TokenKind::Ident {
                let mixed = match self.cursor.peek(1)? {
                    Some(next) => next.kind == TokenKind::Arrow,
                    None => false,
                };
                let kind = if mixed { ErrorKind::MixedPairOperators } else { ErrorKind::ExpectedFieldName };
                return Err(Error::new(kind, token.span));
            }
            self.cursor.bump()?;
            let taken = self.cursor.bump()?;
            let bound = match taken {
                Some(bound) => bound,
                None => {
                    let missing = match close {
                        Close::Brace(open) => Error::new(ErrorKind::UnterminatedBlock, open),
                        Close::Eof => Error::new(ErrorKind::ExpectedEquals, self.cursor.end()),
                    };
                    return Err(missing);
                },
            };
            if bound.kind == TokenKind::Arrow {
                return Err(Error::new(ErrorKind::MixedPairOperators, bound.span));
            } else if bound.kind == TokenKind::Binder {
                return Err(Error::new(ErrorKind::MisplacedBinding, bound.span));
            } else if bound.kind != TokenKind::Equals {
                return Err(Error::new(ErrorKind::ExpectedEquals, bound.span));
            }
            let value = self.value(depth + 1, Ghost(next_value), Ghost(next_field))?;
            let ghost named = names@;
            let mut i: usize = 0;
            while i < names.len()
                invariant
                    self.cursor.wf(),
                    advanced(&old(self).cursor, &self.cursor),
                    i <= names@.len(),
                    forall|k: int| 0 <= k < names@.len() ==> crate::cursor::token_ok(self.cursor.bytes@, #[trigger] names@[k]),
                    crate::cursor::token_ok(self.cursor.bytes@, token),
                    token.kind == TokenKind::Ident,
                    names@ == named,
                    bytes == self.cursor.bytes@,
                    canon@ matches Some(v) ==> (v matches Value::Tuple(t) && names_distinct(t) && named.len() < t.names().len()
                        && token_text(bytes, token) == t.names()[named.len() as int]
                        && forall|q: int| 0 <= q < named.len() ==> token_text(bytes, #[trigger] named[q]) == t.names()[q]),
                    target@ matches Some(fs) ==> (distinct_fields(fs) && named.len() < fs.len()
                        && token_text(bytes, token) == fs[named.len() as int].name.ident@
                        && forall|q: int| 0 <= q < named.len() ==> token_text(bytes, #[trigger] named[q]) == fs[q].name.ident@),
                    forall|k: int| 0 <= k < i ==> token_text(bytes, #[trigger] named[k]) != token_text(bytes, token),
                decreases names@.len() - i,
            {
                if self.cursor.same_text(names[i], token) {
                    proof {
                        assert(token_text(bytes, named[i as int]) == token_text(bytes, token));
                        if let Some(v) = canon@ {
                            assert(v->Tuple_0.names()[i as int] == v->Tuple_0.names()[named.len() as int]);
                        }
                        if let Some(fs) = target@ {
                            assert(fs[i as int].name.ident@ == fs[named.len() as int].name.ident@);
                        }
                    }
                    let spelled = self.cursor.word(token);
                    return Err(Error::new(ErrorKind::DuplicateField(spelled), token.span));
                }
                proof { lemma_ascii_differs(token_bytes(bytes, named[i as int]), token_bytes(bytes, token)); }
                i = i + 1;
            }
            names.push(token);
            let ident = self.cursor.ident(token);
            let ghost before = fields@;
            fields.push(Field { name: Name { ident, span: token.span }, value });
            proof {
                lemma_fields_prefix(ts, bytes, before, fields@, before.len() as int, start);
                lemma_fields_parsable_same(before, fields@, before.len() as int, depth + 1);
                assert forall|q: int| 0 <= q < names@.len() implies token_text(bytes, #[trigger] names@[q]) == fields@[q].name.ident@ by {
                    if q < named.len() {
                        assert(names@[q] == named[q]);
                        assert(fields@[q] == before[q]);
                    }
                }
                assert forall|a: int, b: int| 0 <= a < b < fields@.len() implies
                    (#[trigger] fields@[a]).name.ident@ != (#[trigger] fields@[b]).name.ident@ by {
                    if b < before.len() {
                        assert(fields@[a] == before[a] && fields@[b] == before[b]);
                    } else {
                        assert(names@[a] == named[a]);
                        assert(token_text(bytes, named[a]) != token_text(bytes, token));
                    }
                }
                assert(token == ts[j]);
                if let Some(v) = canon@ {
                    lemma_literal_fields_prefix(before, fields@, v, before.len() as int);
                    assert forall|q: int| 0 <= q < names@.len() implies token_text(bytes, #[trigger] names@[q]) == v->Tuple_0.names()[q] by {
                        if q < named.len() {
                            assert(names@[q] == named[q]);
                        }
                    }
                }
                if let Some(fs) = target@ {
                    assert forall|q: int| 0 <= q < names@.len() implies token_text(bytes, #[trigger] names@[q]) == fs[q].name.ident@ by {
                        if q < named.len() {
                            assert(names@[q] == named[q]);
                        }
                    }
                }
            }
        }
    }

    /// A map's entries, up to the closing brace.
    #[verifier::rlimit(40)]
    fn map(&mut self, bindings: Vec<Binding>, open: Span, depth: usize, canon: Ghost<Option<Value>>, target: Ghost<Option<Seq<Entry>>>) -> (read: Result<Expr, Error>)
        requires
            target@ matches Some(es) ==> {
                &&& entries_reading(old(self).cursor.tokens@, old(self).cursor.bytes@, es, es.len() as int, old(self).cursor.at as int) is Some
                &&& kind_at(old(self).cursor.tokens@,
                    entries_reading(old(self).cursor.tokens@, old(self).cursor.bytes@, es, es.len() as int, old(self).cursor.at as int)->Some_0,
                    TokenKind::BraceClose)
                &&& entries_parsable(es, es.len() as int, depth + 1)
                &&& old(self).cursor.fault is None
            },
            old(self).cursor.wf(),
            old(self).cursor.position() < old(self).cursor.count(),
            old(self).cursor.token_at(old(self).cursor.at as int).kind != TokenKind::BraceClose,
            depth <= MAX_DEPTH,
            canon@ matches Some(v) ==> {
                &&& v is Mapping
                &&& members_spelling(old(self).cursor.tokens@, old(self).cursor.bytes@, v, members(v) as int, old(self).cursor.at as int)
                    matches Some(j) && kind_at(old(self).cursor.tokens@, j, TokenKind::BraceClose)
                &&& bindings@.len() == 0
                &&& height(v) <= MAX_DEPTH + 1 - depth
                &&& plain_text(&old(self).cursor)
            },
        ensures
            canon@ matches Some(v) ==> (read matches Ok(e) && literal(e, v) && final(self).cursor.at as int
                == members_spelling(old(self).cursor.tokens@, old(self).cursor.bytes@, v, members(v) as int, old(self).cursor.at as int)->Some_0 + 1),
            final(self).cursor.wf(),
            advanced(&old(self).cursor, &final(self).cursor),
            read matches Ok(e) ==> e.kind is Mapping && bindings_of(e) == bindings@ && entries_of(e).len() > 0
                && final(self).cursor.at > old(self).cursor.at
                && entries_reading(old(self).cursor.tokens@, old(self).cursor.bytes@, entries_of(e), entries_of(e).len() as int,
                    old(self).cursor.at as int) == Some(final(self).cursor.at - 1)
                && kind_at(old(self).cursor.tokens@, final(self).cursor.at - 1, TokenKind::BraceClose)
                && e.span == (Span { start: open.start, end: old(self).cursor.tokens@[final(self).cursor.at - 1].span.end }),
            target@ matches Some(es) ==> read is Ok && final(self).cursor.at as int
                == entries_reading(old(self).cursor.tokens@, old(self).cursor.bytes@, es, es.len() as int, old(self).cursor.at as int)->Some_0 + 1,
            distinct_bindings(bindings@) && bindings_parsable(bindings@, bindings@.len() as int, depth + 1)
                ==> (read matches Ok(e) ==> parsable(e, depth as int)),
        decreases old(self).cursor.remaining(), 5nat,
    {
        let ghost ts = self.cursor.tokens@;
        let ghost bytes = self.cursor.bytes@;
        let ghost start = self.cursor.at as int;
        let mut entries: Vec<Entry> = Vec::new();
        loop
            invariant
                self.cursor.wf(),
                advanced(&old(self).cursor, &self.cursor),
                depth <= MAX_DEPTH,
                ts == self.cursor.tokens@,
                bytes == self.cursor.bytes@,
                start == old(self).cursor.at,
                start < ts.len(),
                ts[start].kind != TokenKind::BraceClose,
                entries@.len() > 0 || self.cursor.at == start,
                entries_reading(ts, bytes, entries@, entries@.len() as int, start) == Some(self.cursor.at as int),
                canon@ matches Some(v) ==> {
                    &&& v is Mapping
                    &&& members_spelling(ts, bytes, v, members(v) as int, start) matches Some(j) && kind_at(ts, j, TokenKind::BraceClose)
                    &&& bindings@.len() == 0
                    &&& height(v) <= MAX_DEPTH + 1 - depth
                    &&& plain_text(&self.cursor)
                    &&& entries@.len() <= members(v)
                    &&& literal_entries(entries@, v, entries@.len() as int)
                    &&& members_spelling(ts, bytes, v, entries@.len() as int, start) == Some(self.cursor.at as int)
                },
                target@ matches Some(es) ==> {
                    &&& entries_reading(ts, bytes, es, es.len() as int, start) is Some
                    &&& kind_at(ts, entries_reading(ts, bytes, es, es.len() as int, start)->Some_0, TokenKind::BraceClose)
                    &&& entries_parsable(es, es.len() as int, depth + 1)
                    &&& self.cursor.fault is None
                    &&& entries@.len() <= es.len()
                    &&& entries_reading(ts, bytes, es, entries@.len() as int, start) == Some(self.cursor.at as int)
                },
                entries_parsable(entries@, entries@.len() as int, depth + 1),
            decreases self.cursor.remaining(),
        {
            let ghost j = self.cursor.at as int;
            let ghost target_key: Option<Expr> = match target@ {
                Some(es) => if entries@.len() < es.len() { Some(es[entries@.len() as int].key) } else { None },
                None => None,
            };
            let ghost target_value: Option<Expr> = match target@ {
                Some(es) => if entries@.len() < es.len() { Some(es[entries@.len() as int].value) } else { None },
                None => None,
            };
            proof {
                if let Some(es) = target@ {
                    let k = entries@.len() as int;
                    if k < es.len() {
                        lemma_entries_some(ts, bytes, es, es.len() as int, k + 1, start);
                        lemma_entries_parsable(es, es.len() as int, depth + 1, k);
                        lemma_reading_opens(ts, bytes, es[k].key, j);
                        let e = entries_reading(ts, bytes, es, k + 1, start)->Some_0;
                        if k + 1 < es.len() {
                            lemma_entries_some(ts, bytes, es, es.len() as int, k + 2, start);
                            lemma_reading_opens(ts, bytes, es[k + 1].key, e);
                        }
                        assert(ends_value(ts, e));
                    }
                }
            }
            let ghost next_key: Option<Value> = match canon@ {
                Some(Value::Mapping(m)) => if entries@.len() < m.values().len() { Some(m.keys()[entries@.len() as int]) } else { None },
                _ => None,
            };
            let ghost next_value: Option<Value> = match canon@ {
                Some(Value::Mapping(m)) => if entries@.len() < m.values().len() { Some(m.values()[entries@.len() as int]) } else { None },
                _ => None,
            };
            proof {
                if let Some(v) = canon@ {
                    let n = members(v) as int;
                    let k = entries@.len() as int;
                    lemma_mapping_lengths(v->Mapping_0);
                    if k < n {
                        lemma_members_some(ts, bytes, v, n, k + 1, start);
                        lemma_mapping_key_height(v->Mapping_0, k);
                        lemma_mapping_member_height(v->Mapping_0, k);
                        lemma_spelling_opens(ts, bytes, v->Mapping_0.keys()[k], j);
                    }
                }
            }
            let token = match self.cursor.peek(0)? {
                Some(t) => t,
                None => return Err(Error::new(ErrorKind::UnterminatedBlock, open)),
            };
            if token.kind == TokenKind::BraceClose {
                return self.closed(ExprKind::Mapping { bindings, entries }, open, token.span);
            }
            let key = self.value(depth + 1, Ghost(next_key), Ghost(target_key))?;
            let taken = self.cursor.bump()?;
            let bound = match taken {
                Some(bound) => bound,
                None => return Err(Error::new(ErrorKind::UnterminatedBlock, open)),
            };
            if bound.kind == TokenKind::Binder {
                let kind = match key.kind {
                    ExprKind::Reference(_) => ErrorKind::MisplacedBinding,
                    _ => ErrorKind::ExpectedBindingName,
                };
                return Err(Error::new(kind, bound.span));
            } else if bound.kind != TokenKind::Arrow {
                return Err(Error::new(ErrorKind::ExpectedArrow, bound.span));
            }
            let value = self.value(depth + 1, Ghost(next_value), Ghost(target_value))?;
            let ghost before = entries@;
            entries.push(Entry { key, value });
            proof {
                lemma_entries_prefix(ts, bytes, before, entries@, before.len() as int, start);
                lemma_entries_parsable_same(before, entries@, before.len() as int, depth + 1);
                if let Some(v) = canon@ {
                    lemma_literal_entries_prefix(before, entries@, v, before.len() as int);
                }
            }
        }
    }

    /// Takes the closing token and spans the collection from its opener to it.
    fn closed(&mut self, kind: ExprKind, open: Span, close: Span) -> (read: Result<Expr, Error>)
        requires
            old(self).cursor.wf(),
            old(self).cursor.position() < old(self).cursor.count(),
        ensures
            final(self).cursor.wf(),
            advanced(&old(self).cursor, &final(self).cursor),
            read is Ok ==> final(self).cursor.at > old(self).cursor.at,
            read matches Ok(e) ==> e.kind == kind && e.span == (Span { start: open.start, end: close.end })
                && final(self).cursor.at == old(self).cursor.at + 1,
            read is Ok,
    {
        let taken = self.cursor.bump()?;
        match taken {
            Some(_) => Ok(Expr { kind, span: Span::new(open.start, close.end) }),
            None => Err(Error::new(ErrorKind::UnterminatedBlock, open)),
        }
    }
}

/// A file of fields as the tuple it stands for, spanned from its first field's name to its
/// last field's value.
fn run(bindings: Vec<Binding>, fields: Vec<Field>, end: Span) -> (tuple: Expr)
    ensures
        tuple.kind == (ExprKind::Tuple { bindings, fields }),
        fields@.len() == 0 ==> tuple.span == end,
        fields@.len() > 0 ==> tuple.span == (Span { start: fields@[0].name.span.start, end: fields@.last().value.span.end }),
{
    let span = if fields.len() > 0 {
        Span::new(fields[0].name.span.start, fields[fields.len() - 1].value.span.end)
    } else {
        end
    };
    Expr { kind: ExprKind::Tuple { bindings, fields }, span }
}

} // verus!
