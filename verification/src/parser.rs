//! Reading the canonical form: a document that is one value, spelled without names.
use vstd::prelude::*;
use vstd::string::StringSliceAdditionalSpecFns;
use crate::cursor::{advanced, canonical_number_of, string_text, token_bytes, token_text, Cursor, Number};
use crate::error::{Error, ErrorKind};
use crate::lexer::{lexing, unescape, Token, TokenKind};
use crate::names::Atom;
use crate::number::{canonical_kind, float_in_range, settled, NumberKind};
use crate::span::Span;
use crate::value::{
    height, lemma_list_height, lemma_list_member_height, lemma_mapping_height, lemma_mapping_key_height,
    lemma_mapping_lengths, lemma_mapping_member_height, lemma_scalar_height, lemma_tuple_height,
    lemma_tuple_lengths, lemma_tuple_member_height, members, identical, identical_members, same, Mapping, Tuple, Value,
    lemma_height_positive, lemma_identical_member, lemma_same_identical,
};
use crate::MAX_DEPTH;

verus! {

/// Whether the `i`th token is one of kind `kind`.
pub open spec fn kind_at(ts: Seq<Token>, i: int, kind: TokenKind) -> bool {
    0 <= i < ts.len() && ts[i].kind == kind
}

/// Where tokens end that hold, between an `open` token at `i` and a `close` token, what
/// ends at `inner`.
pub open spec fn enclosed(ts: Seq<Token>, i: int, open: TokenKind, inner: Option<int>, close: TokenKind) -> Option<int> {
    match inner {
        Some(j) => if kind_at(ts, i, open) && kind_at(ts, j, close) { Some(j + 1) } else { None },
        None => None,
    }
}

/// Where the tokens from the `i`th on that spell `v` in the canonical form end, if they
/// do: a scalar is one token of its kind that reads as it, a list is its items between
/// brackets, a tuple its fields between braces, and a map at least one entry between braces.
pub open spec fn spelling(ts: Seq<Token>, bytes: Seq<u8>, v: Value, i: int) -> Option<int>
    decreases height(v), 1int, 0int,
{
    match v {
        Value::Atom(a) => if kind_at(ts, i, TokenKind::Atom) && a@ == token_text(bytes, ts[i]) { Some(i + 1) } else { None },
        Value::String(s) => if kind_at(ts, i, TokenKind::String) && string_text(bytes, ts[i]) == Ok::<Seq<char>, Error>(s@) {
            Some(i + 1)
        } else {
            None
        },
        Value::Integer(n) => if kind_at(ts, i, TokenKind::Number)
            && canonical_kind(token_bytes(bytes, ts[i])) == Some(NumberKind::Integer) && n@ == settled(token_bytes(bytes, ts[i])) {
            Some(i + 1)
        } else {
            None
        },
        Value::Float(f) => if kind_at(ts, i, TokenKind::Number)
            && canonical_kind(token_bytes(bytes, ts[i])) == Some(NumberKind::Float) && float_in_range(token_bytes(bytes, ts[i]))
            && f@ == token_bytes(bytes, ts[i]) {
            Some(i + 1)
        } else {
            None
        },
        Value::List(_) => enclosed(ts, i, TokenKind::BracketOpen, members_spelling(ts, bytes, v, members(v) as int, i + 1), TokenKind::BracketClose),
        Value::Tuple(t) => if names_distinct(t) {
            enclosed(ts, i, TokenKind::BraceOpen, members_spelling(ts, bytes, v, members(v) as int, i + 1), TokenKind::BraceClose)
        } else {
            None
        },
        Value::Mapping(m) => if members(v) > 0 && keys_distinct(m) {
            enclosed(ts, i, TokenKind::BraceOpen, members_spelling(ts, bytes, v, members(v) as int, i + 1), TokenKind::BraceClose)
        } else {
            None
        },
    }
}

/// Whether no two fields of a tuple share a name.
pub open spec fn names_distinct(t: Tuple) -> bool {
    forall|i: int, j: int| 0 <= i < j < t.names().len() ==> #[trigger] t.names()[i] != #[trigger] t.names()[j]
}

/// Whether a token belongs to the canonical form as well: it is no `.` and no `:=`.
pub open spec fn plain_at(ts: Seq<Token>, k: int) -> bool {
    ts[k].kind != TokenKind::Dot && ts[k].kind != TokenKind::Binder
}

/// Whether no two keys of a map are equal.
pub open spec fn keys_distinct(m: Mapping) -> bool {
    forall|i: int, j: int| 0 <= i < j < m.keys().len() ==> !same(#[trigger] m.keys()[i], #[trigger] m.keys()[j])
}

/// Whether the `i`th token can open a value of the canonical form.
pub open spec fn opens_value(ts: Seq<Token>, i: int) -> bool {
    ||| kind_at(ts, i, TokenKind::Atom)
    ||| kind_at(ts, i, TokenKind::String)
    ||| kind_at(ts, i, TokenKind::Number)
    ||| kind_at(ts, i, TokenKind::BracketOpen)
    ||| kind_at(ts, i, TokenKind::BraceOpen)
}

/// Where the tokens from the `i`th on that spell the first `n` members of `v` end, if they
/// do: an item as itself, a field as its name, `=` and its value, and an entry as its key,
/// `=>` and its value.
pub open spec fn members_spelling(ts: Seq<Token>, bytes: Seq<u8>, v: Value, n: int, i: int) -> Option<int>
    decreases height(v), 0int, n,
{
    if n <= 0 || n > members(v) {
        Some(i)
    } else {
        match members_spelling(ts, bytes, v, n - 1, i) {
            None => None,
            Some(j) => match v {
                Value::List(xs) => {
                    proof { lemma_list_member_height(xs, n - 1); }
                    spelling(ts, bytes, xs@[n - 1], j)
                },
                Value::Tuple(t) => {
                    proof { lemma_tuple_member_height(t, n - 1); }
                    if kind_at(ts, j, TokenKind::Ident) && t.names()[n - 1] == token_text(bytes, ts[j]) && kind_at(ts, j + 1, TokenKind::Equals) {
                        spelling(ts, bytes, t.values()[n - 1], j + 2)
                    } else {
                        None
                    }
                },
                Value::Mapping(m) => {
                    proof {
                        lemma_mapping_lengths(m);
                        lemma_mapping_key_height(m, n - 1);
                        lemma_mapping_member_height(m, n - 1);
                    }
                    match spelling(ts, bytes, m.keys()[n - 1], j) {
                        Some(k) => if kind_at(ts, k, TokenKind::Arrow) { spelling(ts, bytes, m.values()[n - 1], k + 1) } else { None },
                        None => None,
                    }
                },
                _ => None,
            },
        }
    }
}

/// Whether `v` is what a canonical text `bytes` spells: the lexer reads the whole text, and
/// its tokens spell `v`.
pub open spec fn spells(bytes: Seq<u8>, v: Value) -> bool {
    lexing(bytes).1 is None && spelling(lexing(bytes).0, bytes, v, 0) == Some(lexing(bytes).0.len() as int)
}

/// Whether the first `n` members of two collections of one kind are the same.
pub open spec fn agree(v: Value, w: Value, n: int) -> bool {
    match (v, w) {
        (Value::List(xs), Value::List(ys)) => forall|k: int| 0 <= k < n ==> xs@[k] == ys@[k],
        (Value::Tuple(x), Value::Tuple(y)) => forall|k: int| 0 <= k < n ==> x.names()[k] == y.names()[k] && x.values()[k] == y.values()[k],
        (Value::Mapping(x), Value::Mapping(y)) => forall|k: int| 0 <= k < n ==> x.keys()[k] == y.keys()[k] && x.values()[k] == y.values()[k],
        _ => false,
    }
}

/// Collections whose first `n` members are the same spell those members alike.
proof fn lemma_members_prefix(ts: Seq<Token>, bytes: Seq<u8>, v: Value, w: Value, n: int, i: int)
    requires
        0 <= n <= members(v),
        n <= members(w),
        agree(v, w, n),
    ensures
        members_spelling(ts, bytes, v, n, i) == members_spelling(ts, bytes, w, n, i),
    decreases n,
{
    if n > 0 {
        lemma_members_prefix(ts, bytes, v, w, n - 1, i);
        match (v, w) {
            (Value::Tuple(x), Value::Tuple(y)) => {
                lemma_tuple_lengths(x);
                lemma_tuple_lengths(y);
                assert(x.names()[n - 1] == y.names()[n - 1] && x.values()[n - 1] == y.values()[n - 1]);
            },
            (Value::Mapping(x), Value::Mapping(y)) => {
                lemma_mapping_lengths(x);
                lemma_mapping_lengths(y);
                assert(x.keys()[n - 1] == y.keys()[n - 1] && x.values()[n - 1] == y.values()[n - 1]);
            },
            (Value::List(xs), Value::List(ys)) => {
                assert(xs@[n - 1] == ys@[n - 1]);
            },
            _ => {},
        }
    }
}

/// A value's spelling opens with a token that can open a value.
pub proof fn lemma_spelling_opens(ts: Seq<Token>, bytes: Seq<u8>, v: Value, i: int)
    requires
        spelling(ts, bytes, v, i) is Some,
    ensures
        opens_value(ts, i),
{
}

/// Where the first `n` members spell, so do fewer of them.
pub proof fn lemma_members_some(ts: Seq<Token>, bytes: Seq<u8>, v: Value, n: int, k: int, i: int)
    requires
        members_spelling(ts, bytes, v, n, i) is Some,
        0 <= k <= n <= members(v),
    ensures
        members_spelling(ts, bytes, v, k, i) is Some,
    decreases n - k,
{
    if k < n {
        lemma_members_some(ts, bytes, v, n - 1, k, i);
    }
}

/// Two collections of one kind whose first `k` members the tokens from the `i`th on both
/// spell have identical first `k` members, spelled by the same tokens, and tuples the
/// same first `k` names.
proof fn lemma_members_agree(ts: Seq<Token>, bytes: Seq<u8>, v: Value, w: Value, k: int, i: int)
    requires
        (v is List && w is List) || (v is Tuple && w is Tuple) || (v is Mapping && w is Mapping),
        0 <= k <= members(v),
        k <= members(w),
        members_spelling(ts, bytes, v, k, i) is Some,
        members_spelling(ts, bytes, w, k, i) is Some,
    ensures
        members_spelling(ts, bytes, v, k, i) == members_spelling(ts, bytes, w, k, i),
        identical_members(v, w, k),
        v is Tuple && w is Tuple ==> forall|q: int| 0 <= q < k ==> v->Tuple_0.names()[q] == w->Tuple_0.names()[q],
    decreases height(v), 0int, k,
{
    if k > 0 {
        lemma_members_some(ts, bytes, v, k, k - 1, i);
        lemma_members_some(ts, bytes, w, k, k - 1, i);
        lemma_members_agree(ts, bytes, v, w, k - 1, i);
        let j = members_spelling(ts, bytes, v, k - 1, i)->Some_0;
        match (v, w) {
            (Value::List(xs), Value::List(ys)) => {
                lemma_list_member_height(xs, k - 1);
                lemma_spelling_unique(ts, bytes, xs@[k - 1], ys@[k - 1], j);
            },
            (Value::Tuple(x), Value::Tuple(y)) => {
                lemma_tuple_lengths(x);
                lemma_tuple_lengths(y);
                lemma_tuple_member_height(x, k - 1);
                lemma_spelling_unique(ts, bytes, x.values()[k - 1], y.values()[k - 1], j + 2);
            },
            (Value::Mapping(x), Value::Mapping(y)) => {
                lemma_mapping_lengths(x);
                lemma_mapping_lengths(y);
                lemma_mapping_key_height(x, k - 1);
                lemma_mapping_member_height(x, k - 1);
                lemma_spelling_unique(ts, bytes, x.keys()[k - 1], y.keys()[k - 1], j);
                let q = spelling(ts, bytes, x.keys()[k - 1], j)->Some_0;
                lemma_spelling_unique(ts, bytes, x.values()[k - 1], y.values()[k - 1], q + 1);
            },
            _ => {},
        }
    }
}

/// Two collections of one kind that the tokens from the `i`th on both spell, up to a
/// closing token, have as many members, all identical, spelled by the same tokens.
proof fn lemma_members_unique(ts: Seq<Token>, bytes: Seq<u8>, v: Value, w: Value, i: int, close: TokenKind)
    requires
        (v is List && w is List) || (v is Tuple && w is Tuple) || (v is Mapping && w is Mapping),
        close == TokenKind::BracketClose || close == TokenKind::BraceClose,
        members_spelling(ts, bytes, v, members(v) as int, i) matches Some(j) && kind_at(ts, j, close),
        members_spelling(ts, bytes, w, members(w) as int, i) matches Some(j) && kind_at(ts, j, close),
    ensures
        members(v) == members(w),
        members_spelling(ts, bytes, v, members(v) as int, i) == members_spelling(ts, bytes, w, members(w) as int, i),
        identical_members(v, w, members(v) as int),
        v is Tuple && w is Tuple ==> forall|q: int| 0 <= q < members(v) ==> v->Tuple_0.names()[q] == w->Tuple_0.names()[q],
    decreases height(v), 1int, 0int,
{
    let n = if members(v) <= members(w) { members(v) as int } else { members(w) as int };
    lemma_members_some(ts, bytes, v, members(v) as int, n, i);
    lemma_members_some(ts, bytes, w, members(w) as int, n, i);
    lemma_members_agree(ts, bytes, v, w, n, i);
    let j = members_spelling(ts, bytes, v, n, i)->Some_0;
    if members(v) < members(w) {
        lemma_members_some(ts, bytes, w, members(w) as int, n + 1, i);
        match w {
            Value::List(ys) => lemma_spelling_opens(ts, bytes, ys@[n], j),
            Value::Mapping(y) => {
                lemma_mapping_lengths(y);
                lemma_spelling_opens(ts, bytes, y.keys()[n], j);
            },
            _ => {},
        }
    } else if members(w) < members(v) {
        lemma_members_some(ts, bytes, v, members(v) as int, n + 1, i);
        match v {
            Value::List(xs) => lemma_spelling_opens(ts, bytes, xs@[n], j),
            Value::Mapping(x) => {
                lemma_mapping_lengths(x);
                lemma_spelling_opens(ts, bytes, x.keys()[n], j);
            },
            _ => {},
        }
    }
}

/// The tokens that spell a value in the canonical form hold no `.` and no `:=`.
pub proof fn lemma_spelling_plain(ts: Seq<Token>, bytes: Seq<u8>, v: Value, i: int)
    requires
        spelling(ts, bytes, v, i) is Some,
    ensures
        forall|k: int| i <= k < spelling(ts, bytes, v, i)->Some_0 ==> plain_at(ts, k),
    decreases height(v), 1int, 0int,
{
    match v {
        Value::List(_) | Value::Tuple(_) | Value::Mapping(_) => {
            lemma_members_plain(ts, bytes, v, members(v) as int, i + 1);
        },
        _ => {},
    }
}

/// The tokens that spell the first `n` members of a collection hold no `.` and no `:=`.
proof fn lemma_members_plain(ts: Seq<Token>, bytes: Seq<u8>, v: Value, n: int, i: int)
    requires
        members_spelling(ts, bytes, v, n, i) is Some,
        0 <= n <= members(v),
    ensures
        forall|k: int| i <= k < members_spelling(ts, bytes, v, n, i)->Some_0 ==> plain_at(ts, k),
    decreases height(v), 0int, n,
{
    if n > 0 {
        lemma_members_plain(ts, bytes, v, n - 1, i);
        let j = members_spelling(ts, bytes, v, n - 1, i)->Some_0;
        match v {
            Value::List(xs) => {
                lemma_list_member_height(xs, n - 1);
                lemma_spelling_plain(ts, bytes, xs@[n - 1], j);
            },
            Value::Tuple(x) => {
                lemma_tuple_member_height(x, n - 1);
                lemma_spelling_plain(ts, bytes, x.values()[n - 1], j + 2);
            },
            Value::Mapping(x) => {
                lemma_mapping_lengths(x);
                lemma_mapping_key_height(x, n - 1);
                lemma_mapping_member_height(x, n - 1);
                lemma_spelling_plain(ts, bytes, x.keys()[n - 1], j);
                let q = spelling(ts, bytes, x.keys()[n - 1], j)->Some_0;
                lemma_spelling_plain(ts, bytes, x.values()[n - 1], q + 1);
            },
            _ => {},
        }
    }
}

/// The canonical form is unambiguous: two values that the tokens from one place both spell
/// are identical, and are spelled by the same tokens.
pub proof fn lemma_spelling_unique(ts: Seq<Token>, bytes: Seq<u8>, v: Value, w: Value, i: int)
    requires
        spelling(ts, bytes, v, i) is Some,
        spelling(ts, bytes, w, i) is Some,
    ensures
        spelling(ts, bytes, v, i) == spelling(ts, bytes, w, i),
        identical(v, w),
    decreases height(v), 2int, 0int,
{
    match (v, w) {
        (Value::List(_), Value::List(_)) => {
            lemma_members_unique(ts, bytes, v, w, i + 1, TokenKind::BracketClose);
        },
        (Value::Tuple(x), Value::Tuple(y)) => {
            lemma_members_unique(ts, bytes, v, w, i + 1, TokenKind::BraceClose);
            lemma_tuple_lengths(x);
            lemma_tuple_lengths(y);
            assert(x.names() =~= y.names());
        },
        (Value::Mapping(_), Value::Mapping(_)) => {
            lemma_members_unique(ts, bytes, v, w, i + 1, TokenKind::BraceClose);
        },
        (Value::Tuple(_), Value::Mapping(y)) => {
            lemma_mapping_lengths(y);
            lemma_members_some(ts, bytes, w, members(w) as int, 1, i + 1);
            assert(members_spelling(ts, bytes, w, 0, i + 1) == Some(i + 1));
            assert(spelling(ts, bytes, y.keys()[0], i + 1) is Some);
            lemma_spelling_opens(ts, bytes, y.keys()[0], i + 1);
            if members(v) > 0 {
                lemma_members_some(ts, bytes, v, members(v) as int, 1, i + 1);
            }
        },
        (Value::Mapping(x), Value::Tuple(_)) => {
            lemma_mapping_lengths(x);
            lemma_members_some(ts, bytes, v, members(v) as int, 1, i + 1);
            assert(members_spelling(ts, bytes, v, 0, i + 1) == Some(i + 1));
            assert(spelling(ts, bytes, x.keys()[0], i + 1) is Some);
            lemma_spelling_opens(ts, bytes, x.keys()[0], i + 1);
            if members(w) > 0 {
                lemma_members_some(ts, bytes, w, members(w) as int, 1, i + 1);
            }
        },
        _ => {},
    }
}

struct Parser<'a> {
    cursor: Cursor<'a>,
}

/// Whether, where `canon` names a value, the tokens from the cursor on spell it, nesting no
/// deeper than `room`, in a text the lexer read whole.
spec fn spelled_here(c: &Cursor, canon: Option<Value>, room: int) -> bool {
    canon matches Some(v) ==> {
        &&& spelling(c.tokens@, c.bytes@, v, c.at as int) is Some
        &&& height(v) <= room
        &&& c.fault is None
    }
}

/// The error a surface-only token raises where the canonical form reaches it, if it is one.
/// The error that names a token of the surface form where the canonical form reads a value:
/// a `:=`, a `.`, an `@` or an interpolation.
pub open spec fn surface_kind(kind: TokenKind) -> Option<ErrorKind> {
    if kind == TokenKind::Binder {
        Some(ErrorKind::SurfaceBinder)
    } else if kind == TokenKind::Dot {
        Some(ErrorKind::SurfaceDot)
    } else if kind == TokenKind::At {
        Some(ErrorKind::SurfaceCall)
    } else if kind == TokenKind::InterpolationOpen {
        Some(ErrorKind::SurfaceInterpolation)
    } else {
        None
    }
}

fn surface_only(kind: TokenKind) -> (refused: Option<ErrorKind>)
    ensures
        refused == surface_kind(kind),
        kind == TokenKind::Binder ==> refused == Some(ErrorKind::SurfaceBinder),
        kind == TokenKind::Dot ==> refused == Some(ErrorKind::SurfaceDot),
        kind == TokenKind::At ==> refused == Some(ErrorKind::SurfaceCall),
        kind == TokenKind::InterpolationOpen ==> refused == Some(ErrorKind::SurfaceInterpolation),
        !(kind == TokenKind::Binder || kind == TokenKind::Dot || kind == TokenKind::At
            || kind == TokenKind::InterpolationOpen) ==> refused is None,
{
    match kind {
        TokenKind::Binder => Some(ErrorKind::SurfaceBinder),
        TokenKind::Dot => Some(ErrorKind::SurfaceDot),
        TokenKind::At => Some(ErrorKind::SurfaceCall),
        TokenKind::InterpolationOpen => Some(ErrorKind::SurfaceInterpolation),
        _ => None,
    }
}

/// Whether the `k` tokens from the `i`th on each open a list.
pub open spec fn brackets(ts: Seq<Token>, i: int, k: int) -> bool {
    &&& 0 <= i
    &&& i + k <= ts.len()
    &&& forall|m: int| i <= m < i + k ==> #[trigger] ts[m].kind == TokenKind::BracketOpen
}

/// A value spelled from a run of `k` opening brackets nests at least `k` levels deep.
proof fn lemma_brackets_height(ts: Seq<Token>, bytes: Seq<u8>, v: Value, i: int, k: int)
    requires
        k >= 1,
        brackets(ts, i, k),
        spelling(ts, bytes, v, i) is Some,
    ensures
        height(v) >= k,
    decreases k,
{
    lemma_height_positive(v);
    if k >= 2 {
        assert(ts[i].kind == TokenKind::BracketOpen);
        assert(ts[i + 1].kind == TokenKind::BracketOpen);
        match v {
            Value::List(xs) => {
                assert(members_spelling(ts, bytes, v, 0, i + 1) == Some(i + 1));
                if members(v) == 0 {
                    assert(!kind_at(ts, i + 1, TokenKind::BracketClose));
                    assert(false);
                }
                lemma_members_some(ts, bytes, v, members(v) as int, 1, i + 1);
                assert(spelling(ts, bytes, xs@[0], i + 1) is Some);
                lemma_brackets_height(ts, bytes, xs@[0], i + 1, k - 1);
                lemma_list_member_height(xs, 0);
            },
            _ => {},
        }
    }
}

/// The fault a token raises where it follows a whole canonical value: a dot or an `@` is
/// surface syntax, anything else is more than one value.
pub open spec fn trailing_kind(kind: TokenKind) -> ErrorKind {
    if kind == TokenKind::Dot {
        ErrorKind::SurfaceDot
    } else if kind == TokenKind::At {
        ErrorKind::SurfaceCall
    } else {
        ErrorKind::TrailingInput
    }
}

/// The token that follows `v` where a text lexes whole, its tokens begin by spelling `v`,
/// and more tokens follow.
pub open spec fn trailer(bytes: Seq<u8>, v: Value) -> Option<Token> {
    match spelling(lexing(bytes).0, bytes, v, 0) {
        Some(n) => if lexing(bytes).1 is None && 0 <= n < lexing(bytes).0.len() { Some(lexing(bytes).0[n]) } else { None },
        None => None,
    }
}

/// Reads a canonical document: one value and nothing after it, nesting no deeper than the
/// limit.
pub fn parse(source: &str) -> (read: Result<Value, Error>)
    ensures
        read matches Ok(v) ==> spells(source.spec_bytes(), v),
        read matches Ok(v) ==> height(v) <= MAX_DEPTH + 1,
        forall|v: Value| spells(source.spec_bytes(), v) && height(v) <= MAX_DEPTH + 1 ==> (read matches Ok(w) && identical(w, v)),
        lexing(source.spec_bytes()).1 is None && lexing(source.spec_bytes()).0.len() == 0 ==> (read matches Err(e)
            && e.kind == ErrorKind::EmptyDocument && e.span.start == 0 && e.span.end == source.spec_bytes().len() as usize),
        lexing(source.spec_bytes()).0.len() >= 1 && surface_kind(lexing(source.spec_bytes()).0[0].kind) is Some ==> (read matches Err(e)
            && e.kind == surface_kind(lexing(source.spec_bytes()).0[0].kind)->0 && e.span == lexing(source.spec_bytes()).0[0].span),
        brackets(lexing(source.spec_bytes()).0, 0, MAX_DEPTH + 2) ==> (read matches Err(e) && e.kind == ErrorKind::TooDeep
            && e.span == lexing(source.spec_bytes()).0[MAX_DEPTH + 1].span),
        forall|v: Value| height(v) <= MAX_DEPTH + 1 && #[trigger] trailer(source.spec_bytes(), v) is Some
            ==> (read matches Err(e) && e.kind == trailing_kind(trailer(source.spec_bytes(), v)->Some_0.kind)
                && e.span == trailer(source.spec_bytes(), v)->Some_0.span),
{
    let mut parser = Parser { cursor: Cursor::new(source) };
    let ghost ts = parser.cursor.tokens@;
    let ghost bytes = parser.cursor.bytes@;
    let ghost canon: Option<Value> = if lexing(bytes).1 is None
        && exists|v: Value| spelling(ts, bytes, v, 0) is Some && height(v) <= MAX_DEPTH + 1 {
        Some(choose|v: Value| spelling(ts, bytes, v, 0) is Some && height(v) <= MAX_DEPTH + 1)
    } else {
        None
    };
    proof {
        assert(bytes == source.spec_bytes());
        if let Some(v) = canon {
            lemma_spelling_opens(ts, bytes, v, 0);
        }
        assert forall|v: Value| height(v) <= MAX_DEPTH + 1 && #[trigger] trailer(bytes, v) is Some implies canon is Some by {
            assert(spelling(ts, bytes, v, 0) is Some);
        }
        if brackets(ts, 0, MAX_DEPTH + 2) {
            if let Some(v) = canon {
                lemma_brackets_height(ts, bytes, v, 0, MAX_DEPTH + 2);
            }
        }
    }
    if parser.cursor.peek(0)?.is_none() {
        return Err(Error::new(ErrorKind::EmptyDocument, Span::new(0, source.len())));
    }
    let value = parser.value(0, Ghost(canon))?;
    proof {
        if let Some(v) = canon {
            lemma_spelling_unique(ts, bytes, value, v, 0);
        }
    }
    let next = parser.cursor.peek(0)?;
    match next {
        None => {
            proof {
                assert(spelling(ts, source.spec_bytes(), value, 0) == Some(ts.len() as int));
                assert forall|v: Value| spells(bytes, v) && height(v) <= MAX_DEPTH + 1 implies identical(value, v) by {
                    lemma_spelling_unique(ts, bytes, value, v, 0);
                }
                assert forall|v: Value| height(v) <= MAX_DEPTH + 1 && #[trigger] trailer(bytes, v) is Some implies false by {
                    lemma_spelling_unique(ts, bytes, value, v, 0);
                }
            }
            Ok(value)
        },
        Some(token) => {
            let kind = if token.kind == TokenKind::Dot {
                ErrorKind::SurfaceDot
            } else if token.kind == TokenKind::At {
                ErrorKind::SurfaceCall
            } else {
                ErrorKind::TrailingInput
            };
            proof {
                assert forall|v: Value| height(v) <= MAX_DEPTH + 1 && #[trigger] trailer(bytes, v) is Some
                    implies kind == trailing_kind(trailer(bytes, v)->Some_0.kind) && token.span == trailer(bytes, v)->Some_0.span by {
                    lemma_spelling_unique(ts, bytes, value, v, 0);
                }
                assert forall|v: Value| spells(bytes, v) && height(v) <= MAX_DEPTH + 1 implies false by {
                    lemma_spelling_unique(ts, bytes, value, v, 0);
                }
            }
            Err(Error::new(kind, token.span))
        },
    }
}

impl<'a> Parser<'a> {
    /// One value.
    fn value(&mut self, depth: usize, canon: Ghost<Option<Value>>) -> (read: Result<Value, Error>)
        requires
            old(self).cursor.wf(),
            depth <= MAX_DEPTH + 1,
            spelled_here(&old(self).cursor, canon@, MAX_DEPTH + 1 - depth),
        ensures
            canon@ is Some ==> read is Ok,
            final(self).cursor.wf(),
            advanced(&old(self).cursor, &final(self).cursor),
            read is Ok ==> final(self).cursor.at > old(self).cursor.at,
            read matches Ok(v) ==> height(v) + depth <= MAX_DEPTH + 1,
            read matches Ok(v) ==> spelling(old(self).cursor.tokens@, old(self).cursor.bytes@, v, old(self).cursor.at as int)
                == Some(final(self).cursor.at as int),
            brackets(old(self).cursor.tokens@, old(self).cursor.at as int, MAX_DEPTH + 2 - depth) ==> (read matches Err(e)
                && e.kind == ErrorKind::TooDeep && e.span == old(self).cursor.tokens@[old(self).cursor.at + MAX_DEPTH + 1 - depth].span),
            depth <= MAX_DEPTH && old(self).cursor.position() < old(self).cursor.count()
                && surface_kind(old(self).cursor.token_at(old(self).cursor.at as int).kind) is Some ==> (read matches Err(e)
                && e.kind == surface_kind(old(self).cursor.token_at(old(self).cursor.at as int).kind)->0
                && e.span == old(self).cursor.token_at(old(self).cursor.at as int).span),
        decreases old(self).cursor.remaining(), 2nat,
    {
        proof {
            if let Some(v) = canon@ {
                lemma_height_positive(v);
                lemma_spelling_opens(self.cursor.tokens@, self.cursor.bytes@, v, self.cursor.at as int);
                if brackets(self.cursor.tokens@, self.cursor.at as int, MAX_DEPTH + 2 - depth) {
                    lemma_brackets_height(self.cursor.tokens@, self.cursor.bytes@, v, self.cursor.at as int, MAX_DEPTH + 2 - depth);
                }
            }
        }
        let next = self.cursor.peek(0)?;
        let token = match next {
            Some(t) => t,
            None => return Err(Error::new(ErrorKind::ExpectedValue, self.cursor.end())),
        };
        if depth > MAX_DEPTH {
            return Err(Error::new(ErrorKind::TooDeep, token.span));
        }
        match token.kind {
            TokenKind::BracketOpen => self.list(depth, canon),
            TokenKind::BraceOpen => self.block(depth, canon),
            TokenKind::Atom => {
                self.cursor.bump()?;
                let v = Value::Atom(Atom::new(self.cursor.word(token)));
                proof { lemma_scalar_height(v); }
                Ok(v)
            },
            TokenKind::String => {
                self.cursor.bump()?;
                let v = Value::String(unescape(self.cursor.source, token.span)?);
                proof {
                    lemma_scalar_height(v);
                    assert(token.span.start + 1 < usize::MAX && token.span.end > 0);
                }
                Ok(v)
            },
            TokenKind::Number => {
                self.cursor.bump()?;
                let v = match canonical_number_of(self.cursor.bytes, token)? {
                    Number::Integer(integer) => Value::Integer(integer),
                    Number::Float(float) => Value::Float(float),
                };
                proof { lemma_scalar_height(v); }
                Ok(v)
            },
            TokenKind::Ident => Err(Error::new(ErrorKind::IdentAsValue(self.cursor.word(token)), token.span)),
            _ => {
                let kind = match surface_only(token.kind) {
                    Some(kind) => kind,
                    None => ErrorKind::ExpectedValue,
                };
                Err(Error::new(kind, token.span))
            },
        }
    }

    /// A list: values between brackets.
    fn list(&mut self, depth: usize, canon: Ghost<Option<Value>>) -> (read: Result<Value, Error>)
        requires
            old(self).cursor.wf(),
            old(self).cursor.position() < old(self).cursor.count(),
            kind_at(old(self).cursor.tokens@, old(self).cursor.at as int, TokenKind::BracketOpen),
            depth <= MAX_DEPTH,
            spelled_here(&old(self).cursor, canon@, MAX_DEPTH + 1 - depth),
        ensures
            canon@ is Some ==> read is Ok,
            final(self).cursor.wf(),
            advanced(&old(self).cursor, &final(self).cursor),
            read is Ok ==> final(self).cursor.at > old(self).cursor.at,
            read matches Ok(v) ==> height(v) + depth <= MAX_DEPTH + 1,
            read matches Ok(v) ==> spelling(old(self).cursor.tokens@, old(self).cursor.bytes@, v, old(self).cursor.at as int)
                == Some(final(self).cursor.at as int),
            brackets(old(self).cursor.tokens@, old(self).cursor.at as int, MAX_DEPTH + 2 - depth) ==> (read matches Err(e)
                && e.kind == ErrorKind::TooDeep && e.span == old(self).cursor.tokens@[old(self).cursor.at + MAX_DEPTH + 1 - depth].span),
        decreases old(self).cursor.remaining(), 1nat,
    {
        let ghost ts = self.cursor.tokens@;
        let ghost bytes = self.cursor.bytes@;
        let ghost start = self.cursor.at as int;
        let ghost deep = brackets(ts, start, MAX_DEPTH + 2 - depth);
        proof {
            if deep {
                if let Some(v) = canon@ {
                    lemma_brackets_height(ts, bytes, v, start, MAX_DEPTH + 2 - depth);
                }
            }
        }
        let taken = self.cursor.bump()?;
        let open = match taken {
            Some(t) => t.span,
            None => self.cursor.end(),
        };
        let mut items: Vec<Value> = Vec::new();
        loop
            invariant
                self.cursor.wf(),
                advanced(&old(self).cursor, &self.cursor),
                self.cursor.at > old(self).cursor.at,
                depth <= MAX_DEPTH,
                forall|i: int| 0 <= i < items@.len() ==> height(#[trigger] items@[i]) + depth + 1 <= MAX_DEPTH + 1,
                ts == self.cursor.tokens@,
                bytes == self.cursor.bytes@,
                kind_at(ts, start, TokenKind::BracketOpen),
                start == old(self).cursor.at,
                members_spelling(ts, bytes, Value::List(items), items@.len() as int, start + 1) == Some(self.cursor.at as int),
                spelled_here(&old(self).cursor, canon@, MAX_DEPTH + 1 - depth),
                canon@ matches Some(v) ==> (v is List && items@.len() <= members(v)
                    && members_spelling(ts, bytes, v, items@.len() as int, start + 1) == Some(self.cursor.at as int)
                    && self.cursor.fault is None),
                deep == brackets(ts, start, MAX_DEPTH + 2 - depth),
                deep ==> items@.len() == 0 && self.cursor.at == start + 1 && canon@ is None,
            decreases self.cursor.remaining(),
        {
            let ghost j = self.cursor.at as int;
            let ghost next_value: Option<Value> = match canon@ {
                Some(Value::List(xs)) => if items@.len() < xs@.len() { Some(xs@[items@.len() as int]) } else { None },
                _ => None,
            };
            proof {
                if let Some(v) = canon@ {
                    let n = members(v) as int;
                    let k = items@.len() as int;
                    if k < n {
                        lemma_members_some(ts, bytes, v, n, k + 1, start + 1);
                        lemma_list_member_height(v->List_0, k);
                        lemma_spelling_opens(ts, bytes, v->List_0@[k], j);
                    }
                }
            }
            let next = self.cursor.peek(0)?;
            let token = match next {
                Some(token) => token,
                None => return Err(Error::new(ErrorKind::UnterminatedList, open)),
            };
            if token.kind == TokenKind::BracketClose {
                let ghost at = self.cursor.at as int;
                self.cursor.bump()?;
                proof {
                    lemma_list_height(items, (MAX_DEPTH - depth) as nat);
                    assert(kind_at(ts, at, TokenKind::BracketClose));
                    assert(members(Value::List(items)) == items@.len());
                    assert(spelling(ts, bytes, Value::List(items), start) == Some(at + 1));
                }
                return Ok(Value::List(items));
            }
            let ghost before = items;
            let item = self.value(depth + 1, Ghost(next_value))?;
            proof {
                if let Some(v) = canon@ {
                    lemma_spelling_unique(ts, bytes, item, v->List_0@[before@.len() as int], j);
                }
            }
            items.push(item);
            proof {
                lemma_members_prefix(ts, bytes, Value::List(before), Value::List(items), before@.len() as int, start + 1);
                assert(items@[before@.len() as int] == item);
            }
        }
    }

    /// A block: a tuple or a map by the operator of its first pair, between braces.
    fn block(&mut self, depth: usize, canon: Ghost<Option<Value>>) -> (read: Result<Value, Error>)
        requires
            old(self).cursor.wf(),
            old(self).cursor.position() < old(self).cursor.count(),
            kind_at(old(self).cursor.tokens@, old(self).cursor.at as int, TokenKind::BraceOpen),
            depth <= MAX_DEPTH,
            spelled_here(&old(self).cursor, canon@, MAX_DEPTH + 1 - depth),
        ensures
            canon@ is Some ==> read is Ok,
            final(self).cursor.wf(),
            advanced(&old(self).cursor, &final(self).cursor),
            read is Ok ==> final(self).cursor.at > old(self).cursor.at,
            read matches Ok(v) ==> height(v) + depth <= MAX_DEPTH + 1,
            read matches Ok(v) ==> spelling(old(self).cursor.tokens@, old(self).cursor.bytes@, v, old(self).cursor.at as int)
                == Some(final(self).cursor.at as int),
        decreases old(self).cursor.remaining(), 1nat,
    {
        let ghost ts = self.cursor.tokens@;
        let ghost bytes = self.cursor.bytes@;
        let ghost start = self.cursor.at as int;
        let taken = self.cursor.bump()?;
        let open = match taken {
            Some(t) => t.span,
            None => self.cursor.end(),
        };
        proof {
            if let Some(v) = canon@ {
                let j = start + 1;
                match v {
                    Value::Tuple(t) => {
                        if members(v) > 0 {
                            lemma_members_some(ts, bytes, v, members(v) as int, 1, j);
                            assert(members_spelling(ts, bytes, v, 0, j) == Some(j));
                        }
                    },
                    Value::Mapping(m) => {
                        lemma_mapping_lengths(m);
                        lemma_members_some(ts, bytes, v, members(v) as int, 1, j);
                        assert(members_spelling(ts, bytes, v, 0, j) == Some(j));
                        lemma_spelling_opens(ts, bytes, m.keys()[0], j);
                    },
                    _ => {},
                }
            }
        }
        let first = self.cursor.peek(0)?;
        let token = match first {
            Some(token) => token,
            None => return Err(Error::new(ErrorKind::UnterminatedBlock, open)),
        };
        if token.kind == TokenKind::BraceClose {
            self.cursor.bump()?;
            let empty = Tuple::new();
            proof {
                lemma_tuple_height(empty, 0);
                assert(kind_at(ts, start + 1, TokenKind::BraceClose));
                assert(spelling(ts, bytes, Value::Tuple(empty), start) == Some(start + 2));
            }
            return Ok(Value::Tuple(empty));
        }
        let second = self.cursor.peek(1)?;
        if let Some(bound) = second {
            if token.kind == TokenKind::Ident && bound.kind == TokenKind::Binder {
                return Err(Error::new(ErrorKind::SurfaceBinder, bound.span));
            }
            if token.kind == TokenKind::Ident && bound.kind == TokenKind::Equals {
                return self.tuple(open, depth, canon);
            }
        }
        self.map(open, depth, canon)
    }

    /// A tuple's fields, up to the closing brace.
    fn tuple(&mut self, open: Span, depth: usize, canon: Ghost<Option<Value>>) -> (read: Result<Value, Error>)
        requires
            old(self).cursor.wf(),
            depth <= MAX_DEPTH,
            canon@ matches Some(v) ==> {
                &&& v matches Value::Tuple(t) && names_distinct(t)
                &&& members_spelling(old(self).cursor.tokens@, old(self).cursor.bytes@, v, members(v) as int, old(self).cursor.at as int)
                    matches Some(j) && kind_at(old(self).cursor.tokens@, j, TokenKind::BraceClose)
                &&& height(v) <= MAX_DEPTH + 1 - depth
                &&& old(self).cursor.fault is None
            },
        ensures
            canon@ is Some ==> read is Ok,
            final(self).cursor.wf(),
            advanced(&old(self).cursor, &final(self).cursor),
            read matches Ok(v) ==> height(v) + depth <= MAX_DEPTH + 1,
            read matches Ok(v) ==> (v matches Value::Tuple(t) && names_distinct(t)),
            read matches Ok(v) ==> v is Tuple && final(self).cursor.at > old(self).cursor.at
                && kind_at(old(self).cursor.tokens@, final(self).cursor.at - 1, TokenKind::BraceClose)
                && members_spelling(old(self).cursor.tokens@, old(self).cursor.bytes@, v, members(v) as int, old(self).cursor.at as int)
                    == Some(final(self).cursor.at - 1),
        decreases old(self).cursor.remaining(), 3nat,
    {
        let ghost ts = self.cursor.tokens@;
        let ghost bytes = self.cursor.bytes@;
        let ghost start = self.cursor.at as int;
        let mut fields = Tuple::new();
        loop
            invariant
                self.cursor.wf(),
                advanced(&old(self).cursor, &self.cursor),
                depth <= MAX_DEPTH,
                forall|i: int| 0 <= i < fields.values().len() ==> height(#[trigger] fields.values()[i]) + depth + 1 <= MAX_DEPTH + 1,
                ts == self.cursor.tokens@,
                bytes == self.cursor.bytes@,
                start == old(self).cursor.at,
                members_spelling(ts, bytes, Value::Tuple(fields), fields.values().len() as int, start) == Some(self.cursor.at as int),
                names_distinct(fields),
                canon@ matches Some(v) ==> {
                    &&& v matches Value::Tuple(t) && names_distinct(t)
                    &&& members_spelling(ts, bytes, v, members(v) as int, start) matches Some(j) && kind_at(ts, j, TokenKind::BraceClose)
                    &&& height(v) <= MAX_DEPTH + 1 - depth
                    &&& self.cursor.fault is None
                    &&& fields.values().len() <= members(v)
                    &&& members_spelling(ts, bytes, v, fields.values().len() as int, start) == Some(self.cursor.at as int)
                },
            decreases self.cursor.remaining(),
        {
            let ghost j = self.cursor.at as int;
            let ghost next_value: Option<Value> = match canon@ {
                Some(Value::Tuple(t)) => if fields.values().len() < t.values().len() { Some(t.values()[fields.values().len() as int]) } else { None },
                _ => None,
            };
            proof {
                lemma_tuple_lengths(fields);
                if let Some(v) = canon@ {
                    let n = members(v) as int;
                    let k = fields.values().len() as int;
                    lemma_tuple_lengths(v->Tuple_0);
                    if k < n {
                        lemma_members_some(ts, bytes, v, n, k + 1, start);
                        lemma_tuple_member_height(v->Tuple_0, k);
                    }
                }
            }
            let next = self.cursor.peek(0)?;
            let token = match next {
                Some(t) => t,
                None => return Err(Error::new(ErrorKind::UnterminatedBlock, open)),
            };
            if token.kind == TokenKind::BraceClose {
                self.cursor.bump()?;
                proof { lemma_tuple_height(fields, (MAX_DEPTH - depth) as nat); }
                return Ok(Value::Tuple(fields));
            }
            if token.kind != TokenKind::Ident {
                let after = self.cursor.peek(1)?;
                let mixed = match after {
                    Some(t) => t.kind == TokenKind::Arrow,
                    None => false,
                };
                let kind = if mixed { ErrorKind::MixedPairOperators } else { ErrorKind::ExpectedFieldName };
                return Err(Error::new(kind, token.span));
            }
            self.cursor.bump()?;
            let taken = self.cursor.bump()?;
            let bound = match taken {
                Some(bound) => bound,
                None => return Err(Error::new(ErrorKind::UnterminatedBlock, open)),
            };
            if bound.kind != TokenKind::Equals {
                let kind = if bound.kind == TokenKind::Arrow {
                    ErrorKind::MixedPairOperators
                } else {
                    match surface_only(bound.kind) {
                        Some(kind) => kind,
                        None => ErrorKind::ExpectedEquals,
                    }
                };
                return Err(Error::new(kind, bound.span));
            }
            let value = self.value(depth + 1, Ghost(next_value))?;
            let name = self.cursor.ident(token);
            let ghost before = fields;
            let ghost read_name = name@;
            let ghost read_value = value;
            proof {
                if let Some(v) = canon@ {
                    let t = v->Tuple_0;
                    let k = before.values().len() as int;
                    lemma_tuple_lengths(before);
                    lemma_members_agree(ts, bytes, Value::Tuple(before), v, k, start);
                    lemma_spelling_unique(ts, bytes, value, t.values()[k], j + 2);
                    assert(read_name == t.names()[k]);
                    assert forall|q: int| 0 <= q < before.names().len() implies before.names()[q] != read_name by {
                        assert(before.names()[q] == t.names()[q]);
                    }
                }
            }
            if fields.insert(name, value).is_some() {
                return Err(Error::new(ErrorKind::DuplicateField(self.cursor.word(token)), token.span));
            }
            proof {
                lemma_tuple_lengths(before);
                lemma_tuple_lengths(fields);
                let n = before.values().len() as int;
                assert(fields.names() == before.names().push(read_name));
                assert(fields.values() == before.values().push(read_value));
                lemma_members_prefix(ts, bytes, Value::Tuple(before), Value::Tuple(fields), n, start);
                assert(fields.names()[n] == token_text(bytes, ts[j]));
                assert(fields.values()[n] == read_value);
                assert(kind_at(ts, j + 1, TokenKind::Equals));
                assert forall|a: int, b: int| 0 <= a < b < fields.names().len() implies #[trigger] fields.names()[a] != #[trigger] fields.names()[b] by {
                    assert(fields.names()[a] == before.names()[a]);
                    if b < n {
                        assert(fields.names()[b] == before.names()[b]);
                    }
                }
            }
        }
    }

    /// A map's entries, up to the closing brace.
    fn map(&mut self, open: Span, depth: usize, canon: Ghost<Option<Value>>) -> (read: Result<Value, Error>)
        requires
            old(self).cursor.wf(),
            old(self).cursor.position() < old(self).cursor.count(),
            old(self).cursor.token_at(old(self).cursor.at as int).kind != TokenKind::BraceClose,
            depth <= MAX_DEPTH,
            canon@ matches Some(v) ==> {
                &&& v matches Value::Mapping(m) && keys_distinct(m)
                &&& members_spelling(old(self).cursor.tokens@, old(self).cursor.bytes@, v, members(v) as int, old(self).cursor.at as int)
                    matches Some(j) && kind_at(old(self).cursor.tokens@, j, TokenKind::BraceClose)
                &&& height(v) <= MAX_DEPTH + 1 - depth
                &&& old(self).cursor.fault is None
            },
        ensures
            canon@ is Some ==> read is Ok,
            final(self).cursor.wf(),
            advanced(&old(self).cursor, &final(self).cursor),
            read matches Ok(v) ==> height(v) + depth <= MAX_DEPTH + 1,
            read matches Ok(v) ==> (v matches Value::Mapping(m) && keys_distinct(m)),
            read matches Ok(v) ==> v is Mapping && members(v) > 0 && final(self).cursor.at > old(self).cursor.at
                && kind_at(old(self).cursor.tokens@, final(self).cursor.at - 1, TokenKind::BraceClose)
                && members_spelling(old(self).cursor.tokens@, old(self).cursor.bytes@, v, members(v) as int, old(self).cursor.at as int)
                    == Some(final(self).cursor.at - 1),
        decreases old(self).cursor.remaining(), 3nat,
    {
        let ghost ts = self.cursor.tokens@;
        let ghost bytes = self.cursor.bytes@;
        let ghost start = self.cursor.at as int;
        let mut entries = Mapping::new();
        loop
            invariant
                self.cursor.wf(),
                advanced(&old(self).cursor, &self.cursor),
                depth <= MAX_DEPTH,
                forall|i: int| 0 <= i < entries.keys().len() ==> height(#[trigger] entries.keys()[i]) + depth + 1 <= MAX_DEPTH + 1,
                forall|i: int| 0 <= i < entries.values().len() ==> height(#[trigger] entries.values()[i]) + depth + 1 <= MAX_DEPTH + 1,
                ts == self.cursor.tokens@,
                bytes == self.cursor.bytes@,
                start == old(self).cursor.at,
                start < ts.len(),
                ts[start].kind != TokenKind::BraceClose,
                entries.values().len() > 0 || self.cursor.at == start,
                members_spelling(ts, bytes, Value::Mapping(entries), entries.values().len() as int, start) == Some(self.cursor.at as int),
                keys_distinct(entries),
                canon@ matches Some(v) ==> {
                    &&& v matches Value::Mapping(m) && keys_distinct(m)
                    &&& members_spelling(ts, bytes, v, members(v) as int, start) matches Some(j) && kind_at(ts, j, TokenKind::BraceClose)
                    &&& height(v) <= MAX_DEPTH + 1 - depth
                    &&& self.cursor.fault is None
                    &&& entries.values().len() <= members(v)
                    &&& members_spelling(ts, bytes, v, entries.values().len() as int, start) == Some(self.cursor.at as int)
                },
            decreases self.cursor.remaining(),
        {
            let ghost j = self.cursor.at as int;
            let ghost next_key: Option<Value> = match canon@ {
                Some(Value::Mapping(m)) => if entries.values().len() < m.values().len() { Some(m.keys()[entries.values().len() as int]) } else { None },
                _ => None,
            };
            proof {
                lemma_mapping_lengths(entries);
                if let Some(v) = canon@ {
                    let n = members(v) as int;
                    let k = entries.values().len() as int;
                    lemma_mapping_lengths(v->Mapping_0);
                    if k < n {
                        lemma_members_some(ts, bytes, v, n, k + 1, start);
                        lemma_mapping_key_height(v->Mapping_0, k);
                        lemma_mapping_member_height(v->Mapping_0, k);
                        assert(spelling(ts, bytes, v->Mapping_0.keys()[k], j) is Some);
                        lemma_spelling_opens(ts, bytes, v->Mapping_0.keys()[k], j);
                    }
                }
            }
            let next = self.cursor.peek(0)?;
            let token = match next {
                Some(t) => t,
                None => return Err(Error::new(ErrorKind::UnterminatedBlock, open)),
            };
            if token.kind == TokenKind::BraceClose {
                self.cursor.bump()?;
                proof { lemma_mapping_height(entries, (MAX_DEPTH - depth) as nat); }
                return Ok(Value::Mapping(entries));
            }
            let key = self.value(depth + 1, Ghost(next_key))?;
            let ghost after_key = self.cursor.at as int;
            let ghost next_value: Option<Value> = match canon@ {
                Some(Value::Mapping(m)) => if entries.values().len() < m.values().len() { Some(m.values()[entries.values().len() as int]) } else { None },
                _ => None,
            };
            proof {
                if let Some(v) = canon@ {
                    let k = entries.values().len() as int;
                    lemma_spelling_unique(ts, bytes, key, v->Mapping_0.keys()[k], j);
                    assert(members_spelling(ts, bytes, v, k, start) == Some(j));
                    assert(members_spelling(ts, bytes, v, k + 1, start) is Some);
                    assert(spelling(ts, bytes, v->Mapping_0.keys()[k], j) == Some(after_key));
                    assert(kind_at(ts, after_key, TokenKind::Arrow));
                }
            }
            let taken = self.cursor.bump()?;
            let bound = match taken {
                Some(bound) => bound,
                None => return Err(Error::new(ErrorKind::UnterminatedBlock, open)),
            };
            if bound.kind != TokenKind::Arrow {
                let kind = match surface_only(bound.kind) {
                    Some(kind) => kind,
                    None => ErrorKind::ExpectedArrow,
                };
                return Err(Error::new(kind, bound.span));
            }
            let value = self.value(depth + 1, Ghost(next_value))?;
            let ghost before = entries;
            let ghost read_key = key;
            let ghost read_value = value;
            proof {
                if let Some(v) = canon@ {
                    let m = v->Mapping_0;
                    let k = before.values().len() as int;
                    lemma_mapping_lengths(before);
                    lemma_spelling_unique(ts, bytes, value, m.values()[k], after_key + 1);
                    lemma_members_agree(ts, bytes, Value::Mapping(before), v, k, start);
                    assert forall|q: int| 0 <= q < before.keys().len() implies !same(before.keys()[q], read_key) by {
                        lemma_identical_member(Value::Mapping(before), v, k, q);
                        assert(identical(before.keys()[q], m.keys()[q]));
                        lemma_same_identical(before.keys()[q], m.keys()[q], read_key, m.keys()[k]);
                    }
                }
            }
            if entries.insert(key, value).is_some() {
                return Err(Error::new(ErrorKind::DuplicateKey, token.span));
            }
            proof {
                lemma_mapping_lengths(before);
                lemma_mapping_lengths(entries);
                let n = before.values().len() as int;
                assert(entries.keys() == before.keys().push(read_key));
                assert(entries.values() == before.values().push(read_value));
                lemma_members_prefix(ts, bytes, Value::Mapping(before), Value::Mapping(entries), n, start);
                assert(entries.keys()[n] == read_key);
                assert(entries.values()[n] == read_value);
                assert forall|a: int, b: int| 0 <= a < b < entries.keys().len() implies !same(#[trigger] entries.keys()[a], #[trigger] entries.keys()[b]) by {
                    if b < n {
                        assert(entries.keys()[a] == before.keys()[a] && entries.keys()[b] == before.keys()[b]);
                    } else {
                        assert(entries.keys()[a] == before.keys()[a]);
                    }
                }
            }
        }
    }
}

} // verus!
