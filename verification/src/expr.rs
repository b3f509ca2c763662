//! The tree of a surface document, as the parser builds it.
use vstd::prelude::*;
use crate::names::{Atom, Ident};
use crate::number::{Float, Integer};
use crate::span::Span;
use crate::specifier::Spec;

verus! {

/// A name as it stands in the text.
#[derive(Debug, PartialEq, Eq)]
pub struct Name {
    pub ident: Ident,
    pub span: Span,
}

/// A binding: `name := value`.
#[derive(Debug, PartialEq, Eq)]
pub struct Binding {
    pub name: Name,
    pub value: Expr,
}

/// A tuple's field: `name = value`.
#[derive(Debug, PartialEq, Eq)]
pub struct Field {
    pub name: Name,
    pub value: Expr,
}

/// A map's entry: `key => value`.
#[derive(Debug, PartialEq, Eq)]
pub struct Entry {
    pub key: Expr,
    pub value: Expr,
}

/// A piece of an interpolation: text, or a hole that hands over a value's text.
#[derive(Debug, PartialEq, Eq)]
pub enum Piece {
    Text(String),
    Hole { expr: Expr, spec: Option<Spec> },
}

/// What an expression is.
#[derive(Debug, PartialEq, Eq)]
pub enum ExprKind {
    Tuple { bindings: Vec<Binding>, fields: Vec<Field> },
    Mapping { bindings: Vec<Binding>, entries: Vec<Entry> },
    List(Vec<Expr>),
    Access { operand: Box<Expr>, field: Name },
    Index { operand: Box<Expr>, key: Box<Expr> },
    Call { name: Name, operand: Box<Expr> },
    Interpolation(Vec<Piece>),
    Reference(Ident),
    Atom(Atom),
    String(String),
    Integer(Integer),
    Float(Float),
}

/// An expression and the text it was read from.
#[derive(Debug, PartialEq, Eq)]
pub struct Expr {
    pub kind: ExprKind,
    pub span: Span,
}

/// Whether a document's value was written in braces, or as a file of fields that stands in
/// for them.
#[derive(Debug, Clone, Copy, PartialEq, Eq, Structural)]
pub enum Form {
    Value,
    Fields,
}

/// A whole surface document: its bindings, then its value.
#[derive(Debug, PartialEq, Eq)]
pub struct Document {
    pub bindings: Vec<Binding>,
    pub value: Expr,
    pub form: Form,
}

/// The keys and values of the first `n` entries, each key before its value.
pub open spec fn entry_exprs(es: Seq<Entry>, n: int) -> Seq<Expr>
    decreases n,
{
    if n <= 0 || n > es.len() { Seq::empty() } else { entry_exprs(es, n - 1) + seq![es[n - 1].key, es[n - 1].value] }
}

/// The expressions of the holes among the first `n` pieces.
pub open spec fn hole_exprs(ps: Seq<Piece>, n: int) -> Seq<Expr>
    decreases n,
{
    if n <= 0 || n > ps.len() {
        Seq::empty()
    } else {
        hole_exprs(ps, n - 1) + match ps[n - 1] {
            Piece::Hole { expr, .. } => seq![expr],
            Piece::Text(_) => Seq::empty(),
        }
    }
}

/// The expressions that stand directly within an expression: the values of a block's
/// bindings, then its fields' values or its entries' keys and values; a list's items; a
/// projection's operand and key; a call's operand; an interpolation's holes.
pub open spec fn children(e: Expr) -> Seq<Expr> {
    match e.kind {
        ExprKind::Tuple { bindings, fields } => bindings@.map_values(|b: Binding| b.value)
            + fields@.map_values(|f: Field| f.value),
        ExprKind::Mapping { bindings, entries } => bindings@.map_values(|b: Binding| b.value)
            + entry_exprs(entries@, entries@.len() as int),
        ExprKind::List(items) => items@,
        ExprKind::Access { operand, .. } => seq![*operand],
        ExprKind::Index { operand, key } => seq![*operand, *key],
        ExprKind::Call { operand, .. } => seq![*operand],
        ExprKind::Interpolation(pieces) => hole_exprs(pieces@, pieces@.len() as int),
        _ => Seq::empty(),
    }
}

/// The expression reached from `e` by stepping, at each index of `path`, to that child.
pub open spec fn node_at(e: Expr, path: Seq<int>) -> Option<Expr>
    decreases path.len(),
{
    if path.len() == 0 {
        Some(e)
    } else if 0 <= path[0] < children(e).len() {
        node_at(children(e)[path[0]], path.drop_first())
    } else {
        None
    }
}

/// Whether `x` stands anywhere in a document: in the value of one of its bindings, or in its
/// value.
pub open spec fn document_node(d: Document, x: Expr) -> bool {
    ||| exists|path: Seq<int>| #[trigger] node_at(d.value, path) == Some(x)
    ||| exists|i: int, path: Seq<int>| 0 <= i < d.bindings@.len() && #[trigger] node_at(d.bindings@[i].value, path) == Some(x)
}

} // verus!
