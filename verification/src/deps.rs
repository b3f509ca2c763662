//! The files a document names: what a host has to find before the document can be reduced.
use vstd::prelude::*;
use crate::builtin::import_name;
use crate::expr::{Binding, Document, Entry, Expr, ExprKind, Field, Piece};
use crate::text;

verus! {

/// The paths a document spells in its imports, in the order they are written.
pub open spec fn document_literals(document: Document) -> Seq<Seq<char>> {
    binding_literals(document.bindings@, document.bindings@.len() as int) + literals(document.value)
}

/// The paths an expression spells in its imports, in the order they are written: the
/// operand of an import of a string literal, and those within the expression's parts.
pub open spec fn literals(e: Expr) -> Seq<Seq<char>>
    decreases e, 0nat,
{
    match e.kind {
        ExprKind::Tuple { bindings, fields } => binding_literals(bindings@, bindings@.len() as int)
            + field_literals(fields@, fields@.len() as int),
        ExprKind::Mapping { bindings, entries } => binding_literals(bindings@, bindings@.len() as int)
            + entry_literals(entries@, entries@.len() as int),
        ExprKind::List(items) => item_literals(items@, items@.len() as int),
        ExprKind::Access { operand, .. } => literals(*operand),
        ExprKind::Index { operand, key } => literals(*operand) + literals(*key),
        ExprKind::Call { name, operand } => match operand.kind {
            ExprKind::String(path) => if name.ident@ == import_name() { seq![path@] } else { Seq::empty() },
            _ => literals(*operand),
        },
        ExprKind::Interpolation(pieces) => piece_literals(pieces@, pieces@.len() as int),
        _ => Seq::empty(),
    }
}

/// The paths the first `n` bindings' values spell in their imports.
pub open spec fn binding_literals(bs: Seq<Binding>, n: int) -> Seq<Seq<char>>
    decreases bs, n,
{
    if n <= 0 || n > bs.len() { Seq::empty() } else { binding_literals(bs, n - 1) + literals(bs[n - 1].value) }
}

/// The paths the first `n` fields' values spell in their imports.
pub open spec fn field_literals(fs: Seq<Field>, n: int) -> Seq<Seq<char>>
    decreases fs, n,
{
    if n <= 0 || n > fs.len() { Seq::empty() } else { field_literals(fs, n - 1) + literals(fs[n - 1].value) }
}

/// The paths the first `n` entries' keys and values spell in their imports.
pub open spec fn entry_literals(es: Seq<Entry>, n: int) -> Seq<Seq<char>>
    decreases es, n,
{
    if n <= 0 || n > es.len() {
        Seq::empty()
    } else {
        entry_literals(es, n - 1) + literals(es[n - 1].key) + literals(es[n - 1].value)
    }
}

/// The paths the first `n` items spell in their imports.
pub open spec fn item_literals(items: Seq<Expr>, n: int) -> Seq<Seq<char>>
    decreases items, n,
{
    if n <= 0 || n > items.len() { Seq::empty() } else { item_literals(items, n - 1) + literals(items[n - 1]) }
}

/// The paths the holes of the first `n` pieces spell in their imports.
pub open spec fn piece_literals(pieces: Seq<Piece>, n: int) -> Seq<Seq<char>>
    decreases pieces, n,
{
    if n <= 0 || n > pieces.len() {
        Seq::empty()
    } else {
        piece_literals(pieces, n - 1) + match pieces[n - 1] {
            Piece::Hole { expr, .. } => literals(expr),
            Piece::Text(_) => Seq::empty(),
        }
    }
}

/// The texts of a run of strings.
pub open spec fn texts(found: Seq<String>) -> Seq<Seq<char>> {
    found.map_values(|s: String| s@)
}

/// The paths a document spells in its imports, in the order they are written, for a host to
/// find before the document is reduced.
pub fn imports(document: &Document) -> (found: Vec<String>)
    ensures
        texts(found@) == document_literals(*document),
{
    let mut found: Vec<String> = Vec::new();
    let mut i: usize = 0;
    while i < document.bindings.len()
        invariant
            i <= document.bindings@.len(),
            texts(found@) =~= binding_literals(document.bindings@, i as int),
        decreases document.bindings@.len() - i,
    {
        gather(&document.bindings[i].value, &mut found);
        i = i + 1;
    }
    gather(&document.value, &mut found);
    found
}

/// Adds the paths an expression spells in its imports to `found`.
#[verifier::loop_isolation(false)]
fn gather(e: &Expr, found: &mut Vec<String>)
    ensures
        texts(final(found)@) =~= texts(old(found)@) + literals(*e),
    decreases *e,
{
    let ghost start = texts(found@);
    match &e.kind {
        ExprKind::Tuple { bindings, fields } => {
            let mut i: usize = 0;
            while i < bindings.len()
                invariant
                    i <= bindings@.len(),
                    texts(found@) =~= start + binding_literals(bindings@, i as int),
                decreases bindings@.len() - i,
            {
                proof { assert(decreases_to!(*e => bindings@[i as int].value)); }
                gather(&bindings[i].value, found);
                i = i + 1;
            }
            let ghost mid = texts(found@);
            let mut j: usize = 0;
            while j < fields.len()
                invariant
                    j <= fields@.len(),
                    texts(found@) =~= mid + field_literals(fields@, j as int),
                decreases fields@.len() - j,
            {
                proof { assert(decreases_to!(*e => fields@[j as int].value)); }
                gather(&fields[j].value, found);
                j = j + 1;
            }
        },
        ExprKind::Mapping { bindings, entries } => {
            let mut i: usize = 0;
            while i < bindings.len()
                invariant
                    i <= bindings@.len(),
                    texts(found@) =~= start + binding_literals(bindings@, i as int),
                decreases bindings@.len() - i,
            {
                proof { assert(decreases_to!(*e => bindings@[i as int].value)); }
                gather(&bindings[i].value, found);
                i = i + 1;
            }
            let ghost mid = texts(found@);
            let mut j: usize = 0;
            while j < entries.len()
                invariant
                    j <= entries@.len(),
                    texts(found@) =~= mid + entry_literals(entries@, j as int),
                decreases entries@.len() - j,
            {
                proof {
                    assert(decreases_to!(*e => entries@[j as int].key));
                    assert(decreases_to!(*e => entries@[j as int].value));
                }
                gather(&entries[j].key, found);
                gather(&entries[j].value, found);
                j = j + 1;
            }
        },
        ExprKind::List(items) => {
            let mut j: usize = 0;
            while j < items.len()
                invariant
                    j <= items@.len(),
                    texts(found@) =~= start + item_literals(items@, j as int),
                decreases items@.len() - j,
            {
                proof { assert(decreases_to!(*e => items@[j as int])); }
                gather(&items[j], found);
                j = j + 1;
            }
        },
        ExprKind::Access { operand, .. } => gather(operand, found),
        ExprKind::Index { operand, key } => {
            gather(operand, found);
            gather(key, found);
        },
        ExprKind::Call { name, operand } => match &operand.kind {
            ExprKind::String(path) => {
                proof {
                    reveal_strlit("import");
                    assert("import"@ =~= import_name());
                }
                if crate::names::same_text(name.ident.as_str(), "import") {
                    found.push(text::owned(path.as_str()));
                } else {
                    proof { assert(name.ident@ != import_name()); }
                }
            },
            _ => gather(operand, found),
        },
        ExprKind::Interpolation(pieces) => {
            let mut j: usize = 0;
            while j < pieces.len()
                invariant
                    j <= pieces@.len(),
                    texts(found@) =~= start + piece_literals(pieces@, j as int),
                decreases pieces@.len() - j,
            {
                match &pieces[j] {
                    Piece::Hole { expr, .. } => {
                        proof { assert(decreases_to!(*e => pieces@[j as int])); }
                        gather(expr, found);
                    },
                    Piece::Text(_) => {},
                }
                j = j + 1;
            }
        },
        _ => {},
    }
}

} // verus!
