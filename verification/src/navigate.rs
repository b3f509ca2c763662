//! Following a name in an open text to its binding and to its reads, and the outline of the
//! bindings and fields the text holds.
use vstd::prelude::*;
use crate::document::Open;
use crate::expr::{Binding, Document, Expr, ExprKind, Field};
use crate::resolve::{named_index, reads_among, Read};
use crate::span::Span;

verus! {

/// The place of the binding named at `offset` in an open text, where the text parsed.
pub open spec fn named_in(open: Open, offset: int) -> Option<int> {
    match open.parsed_of() {
        Ok(p) => named_index(p.resolution_of(), offset),
        Err(_) => None,
    }
}

/// The spans of some reads, in order.
pub open spec fn spans_of(reads: Seq<Read>) -> Seq<Span> {
    reads.map_values(|r: Read| r.span)
}

/// The span of the binding named at `offset`: the one a read there reads, or the one bound
/// there.
pub fn definition(open: &Open, offset: usize) -> (found: Option<Span>)
    ensures
        found == (match (open.parsed_of(), named_in(*open, offset as int)) {
            (Ok(p), Some(i)) => Some(p.resolution_of().bound_seq()[i].span),
            _ => None,
        }),
{
    let parsed = match open.parsed() {
        Some(parsed) => parsed,
        None => return None,
    };
    let resolution = parsed.resolution();
    match resolution.at(offset) {
        Some(id) => Some(resolution.bound(id).span),
        None => None,
    }
}

/// The spans that name the binding named at `offset`: its own where `declaration` asks for
/// it, then its reads, in order.
pub fn references(open: &Open, offset: usize, declaration: bool) -> (found: Vec<Span>)
    ensures
        found@ == (match (open.parsed_of(), named_in(*open, offset as int)) {
            (Ok(p), Some(i)) => (if declaration { seq![p.resolution_of().bound_seq()[i].span] } else { Seq::<Span>::empty() })
                + spans_of(reads_among(p.resolution_of().read_seq(), i, p.resolution_of().read_seq().len() as int)),
            _ => Seq::<Span>::empty(),
        }),
{
    let parsed = match open.parsed() {
        Some(parsed) => parsed,
        None => return Vec::new(),
    };
    let resolution = parsed.resolution();
    let id = match resolution.at(offset) {
        Some(id) => id,
        None => return Vec::new(),
    };
    let mut found: Vec<Span> = Vec::new();
    if declaration {
        found.push(resolution.bound(id).span);
    }
    let ghost head = found@;
    let reads = resolution.reads_of(id);
    let ghost all = reads_among(resolution.read_seq(), id.index(), resolution.read_seq().len() as int);
    let mut k: usize = 0;
    while k < reads.len()
        invariant
            k <= reads@.len(),
            reads@.len() == all.len(),
            forall|i: int| 0 <= i < reads@.len() ==> *(#[trigger] reads@[i]) == all[i],
            found@ == head + spans_of(all.take(k as int)),
        decreases reads@.len() - k,
    {
        found.push(reads[k].span);
        assert(all.take(k + 1) =~= all.take(k as int).push(all[k as int]));
        assert(found@ =~= head + spans_of(all.take(k + 1)));
        k = k + 1;
    }
    assert(all.take(k as int) =~= all);
    found
}

/// How a place names a binding: where it is bound, or where it is read.
#[derive(Debug, Clone, Copy, PartialEq, Eq, Structural)]
pub enum HighlightKind {
    Read,
    Write,
}

/// A place to mark, and how it names the binding.
#[derive(Debug, Clone, Copy, PartialEq, Eq, Structural)]
pub struct Highlight {
    pub span: Span,
    pub kind: HighlightKind,
}

/// The places that name the binding named at `offset`: where it is bound, then where it is
/// read, in order.
pub fn highlights(open: &Open, offset: usize) -> (found: Vec<Highlight>)
    ensures
        found@ == (match (open.parsed_of(), named_in(*open, offset as int)) {
            (Ok(p), Some(i)) => seq![Highlight { span: p.resolution_of().bound_seq()[i].span, kind: HighlightKind::Write }]
                + spans_of(reads_among(p.resolution_of().read_seq(), i, p.resolution_of().read_seq().len() as int))
                    .map_values(|s: Span| Highlight { span: s, kind: HighlightKind::Read }),
            _ => Seq::<Highlight>::empty(),
        }),
{
    let spans = references(open, offset, true);
    let mut found: Vec<Highlight> = Vec::new();
    let mut k: usize = 0;
    while k < spans.len()
        invariant
            k <= spans@.len(),
            found@.len() == k,
            forall|i: int| 0 <= i < k ==> (#[trigger] found@[i]) == (Highlight {
                span: spans@[i],
                kind: if i == 0 { HighlightKind::Write } else { HighlightKind::Read },
            }),
        decreases spans@.len() - k,
    {
        let kind = if k == 0 { HighlightKind::Write } else { HighlightKind::Read };
        found.push(Highlight { span: spans[k], kind });
        k = k + 1;
    }
    proof {
        match (open.parsed_of(), named_in(*open, offset as int)) {
            (Ok(p), Some(i)) => {
                let reads = spans_of(reads_among(p.resolution_of().read_seq(), i, p.resolution_of().read_seq().len() as int));
                assert(found@ =~= seq![Highlight { span: p.resolution_of().bound_seq()[i].span, kind: HighlightKind::Write }]
                    + reads.map_values(|s: Span| Highlight { span: s, kind: HighlightKind::Read }));
            },
            _ => {
                assert(found@ =~= Seq::<Highlight>::empty());
            },
        }
    }
    found
}

/// What kind of thing an outline entry stands for.
#[derive(Debug, Clone, Copy, PartialEq, Eq, Structural)]
pub enum SymbolKind {
    Object,
    Array,
    String,
    Number,
    EnumMember,
    Field,
    Variable,
}

/// An entry of an outline: a binding or a field, the span of its name and value, the span
/// of its name, and the entries of its value.
#[derive(Debug)]
pub struct Symbol {
    pub name: String,
    pub kind: SymbolKind,
    pub range: Span,
    pub selection: Span,
    pub children: Vec<Symbol>,
}

/// The kind of symbol a field's value makes it: a block is an object, a list an array, a
/// text a string, a number a number, an atom a member of an enumeration, a projection or a
/// call a field, and a reference a variable.
pub open spec fn kind_of(e: Expr) -> SymbolKind {
    match e.kind {
        ExprKind::Tuple { .. } | ExprKind::Mapping { .. } => SymbolKind::Object,
        ExprKind::List(_) => SymbolKind::Array,
        ExprKind::String(_) | ExprKind::Interpolation(_) => SymbolKind::String,
        ExprKind::Integer(_) | ExprKind::Float(_) => SymbolKind::Number,
        ExprKind::Atom(_) => SymbolKind::EnumMember,
        ExprKind::Access { .. } | ExprKind::Index { .. } | ExprKind::Call { .. } => SymbolKind::Field,
        ExprKind::Reference(_) => SymbolKind::Variable,
    }
}

/// Whether the symbols outline an expression: a tuple's bindings then its fields, a map's
/// bindings, and nothing for any other value.
pub open spec fn outlines(symbols: Seq<Symbol>, e: Expr) -> bool
    decreases e, 0nat,
{
    match e.kind {
        ExprKind::Tuple { bindings, fields } => {
            &&& symbols.len() == bindings@.len() + fields@.len()
            &&& binding_symbols(symbols, bindings@, bindings@.len() as int)
            &&& field_symbols(symbols.skip(bindings@.len() as int), fields@, fields@.len() as int)
        },
        ExprKind::Mapping { bindings, .. } => {
            &&& symbols.len() == bindings@.len()
            &&& binding_symbols(symbols, bindings@, bindings@.len() as int)
        },
        _ => symbols.len() == 0,
    }
}

/// Whether the first `n` symbols stand for the first `n` bindings: each a variable named as
/// the binding, spanning its name and value, selecting its name, and outlining its value.
pub open spec fn binding_symbols(symbols: Seq<Symbol>, bs: Seq<Binding>, n: int) -> bool
    decreases bs, n,
{
    if n <= 0 || n > bs.len() {
        true
    } else {
        &&& binding_symbols(symbols, bs, n - 1)
        &&& n - 1 < symbols.len()
        &&& symbols[n - 1].name@ == bs[n - 1].name.ident@
        &&& symbols[n - 1].kind == SymbolKind::Variable
        &&& symbols[n - 1].range == (Span { start: bs[n - 1].name.span.start, end: bs[n - 1].value.span.end })
        &&& symbols[n - 1].selection == bs[n - 1].name.span
        &&& outlines(symbols[n - 1].children@, bs[n - 1].value)
    }
}

/// Whether the first `n` symbols stand for the first `n` fields: each named as the field, of
/// the kind its value makes it, spanning its name and value, selecting its name, and
/// outlining its value.
pub open spec fn field_symbols(symbols: Seq<Symbol>, fs: Seq<Field>, n: int) -> bool
    decreases fs, n,
{
    if n <= 0 || n > fs.len() {
        true
    } else {
        &&& field_symbols(symbols, fs, n - 1)
        &&& n - 1 < symbols.len()
        &&& symbols[n - 1].name@ == fs[n - 1].name.ident@
        &&& symbols[n - 1].kind == kind_of(fs[n - 1].value)
        &&& symbols[n - 1].range == (Span { start: fs[n - 1].name.span.start, end: fs[n - 1].value.span.end })
        &&& symbols[n - 1].selection == fs[n - 1].name.span
        &&& outlines(symbols[n - 1].children@, fs[n - 1].value)
    }
}

/// Whether the symbols outline a document: its bindings, then its value's outline.
pub open spec fn outlines_document(symbols: Seq<Symbol>, d: Document) -> bool {
    &&& symbols.len() >= d.bindings@.len()
    &&& binding_symbols(symbols, d.bindings@, d.bindings@.len() as int)
    &&& outlines(symbols.skip(d.bindings@.len() as int), d.value)
}

/// Where the first `n` symbols stand for the first `n` bindings, any symbols after them
/// leave that so.
proof fn lemma_binding_symbols_grow(symbols: Seq<Symbol>, more: Seq<Symbol>, bs: Seq<Binding>, n: int)
    requires
        binding_symbols(symbols, bs, n),
        0 <= n <= symbols.len(),
    ensures
        binding_symbols(symbols + more, bs, n),
    decreases n,
{
    if n > 0 && n <= bs.len() {
        lemma_binding_symbols_grow(symbols, more, bs, n - 1);
        assert((symbols + more)[n - 1] == symbols[n - 1]);
    }
}

/// The same for fields.
proof fn lemma_field_symbols_grow(symbols: Seq<Symbol>, more: Seq<Symbol>, fs: Seq<Field>, n: int)
    requires
        field_symbols(symbols, fs, n),
        0 <= n <= symbols.len(),
    ensures
        field_symbols(symbols + more, fs, n),
    decreases n,
{
    if n > 0 && n <= fs.len() {
        lemma_field_symbols_grow(symbols, more, fs, n - 1);
        assert((symbols + more)[n - 1] == symbols[n - 1]);
    }
}

/// The symbol of a binding.
fn binding_symbol(binding: &Binding) -> (symbol: Symbol)
    ensures
        symbol.name@ == binding.name.ident@,
        symbol.kind == SymbolKind::Variable,
        symbol.range == (Span { start: binding.name.span.start, end: binding.value.span.end }),
        symbol.selection == binding.name.span,
        outlines(symbol.children@, binding.value),
    decreases binding.value, 3nat,
{
    Symbol {
        name: binding.name.ident.as_str().to_owned(),
        kind: SymbolKind::Variable,
        range: Span::new(binding.name.span.start, binding.value.span.end),
        selection: binding.name.span,
        children: expr_symbols(&binding.value),
    }
}

/// The symbol of a field.
fn field_symbol(field: &Field) -> (symbol: Symbol)
    ensures
        symbol.name@ == field.name.ident@,
        symbol.kind == kind_of(field.value),
        symbol.range == (Span { start: field.name.span.start, end: field.value.span.end }),
        symbol.selection == field.name.span,
        outlines(symbol.children@, field.value),
    decreases field.value, 3nat,
{
    Symbol {
        name: field.name.ident.as_str().to_owned(),
        kind: kind(&field.value),
        range: Span::new(field.name.span.start, field.value.span.end),
        selection: field.name.span,
        children: expr_symbols(&field.value),
    }
}

/// The symbols of the first bindings, one for each, added to `symbols`.
fn push_bindings(symbols: &mut Vec<Symbol>, bindings: &Vec<Binding>, parent: Ghost<Expr>)
    requires
        binding_symbols(old(symbols)@, bindings@, 0),
        forall|i: int| 0 <= i < bindings@.len() ==> decreases_to!(parent@ => #[trigger] bindings@[i].value),
    ensures
        final(symbols)@.len() == old(symbols)@.len() + bindings@.len(),
        final(symbols)@.subrange(0, old(symbols)@.len() as int) == old(symbols)@,
        binding_symbols(final(symbols)@.skip(old(symbols)@.len() as int), bindings@, bindings@.len() as int),
    decreases parent@, 1nat,
{
    let ghost start = symbols@.len();
    let mut i: usize = 0;
    while i < bindings.len()
        invariant
            i <= bindings@.len(),
            symbols@.len() == start + i,
            symbols@.subrange(0, start as int) == old(symbols)@,
            start == old(symbols)@.len(),
            binding_symbols(symbols@.skip(start as int), bindings@, i as int),
            forall|k: int| 0 <= k < bindings@.len() ==> decreases_to!(parent@ => #[trigger] bindings@[k].value),
        decreases bindings@.len() - i,
    {
        let ghost before = symbols@;
        proof { assert(decreases_to!(parent@ => bindings@[i as int].value)); }
        let symbol = binding_symbol(&bindings[i]);
        symbols.push(symbol);
        proof {
            lemma_binding_symbols_grow(before.skip(start as int), seq![symbol], bindings@, i as int);
            assert(before.skip(start as int) + seq![symbol] =~= symbols@.skip(start as int));
            assert(symbols@.subrange(0, start as int) =~= before.subrange(0, start as int));
        }
        i = i + 1;
    }
}

/// The kind of symbol a value makes a field.
fn kind(value: &Expr) -> (kind: SymbolKind)
    ensures
        kind == kind_of(*value),
{
    match &value.kind {
        ExprKind::Tuple { .. } | ExprKind::Mapping { .. } => SymbolKind::Object,
        ExprKind::List(_) => SymbolKind::Array,
        ExprKind::String(_) | ExprKind::Interpolation(_) => SymbolKind::String,
        ExprKind::Integer(_) | ExprKind::Float(_) => SymbolKind::Number,
        ExprKind::Atom(_) => SymbolKind::EnumMember,
        ExprKind::Access { .. } | ExprKind::Index { .. } | ExprKind::Call { .. } => SymbolKind::Field,
        ExprKind::Reference(_) => SymbolKind::Variable,
    }
}

/// The outline of an expression.
fn expr_symbols(e: &Expr) -> (symbols: Vec<Symbol>)
    ensures
        outlines(symbols@, *e),
    decreases *e, 2nat,
{
    let mut symbols: Vec<Symbol> = Vec::new();
    match &e.kind {
        ExprKind::Tuple { bindings, fields } => {
            proof {
                assert forall|i: int| 0 <= i < bindings@.len() implies decreases_to!(*e => #[trigger] bindings@[i].value) by {
                    assert(decreases_to!(*e => bindings@[i].value));
                }
            }
            push_bindings(&mut symbols, bindings, Ghost(*e));
            proof {
                assert forall|k: int| 0 <= k < fields@.len() implies decreases_to!(*e => #[trigger] fields@[k].value) by {
                    assert(decreases_to!(*e => fields@[k].value));
                }
            }
            let ghost n = bindings@.len();
            proof { assert(symbols@.skip(0) =~= symbols@); }
            let mut j: usize = 0;
            while j < fields.len()
                invariant
                    j <= fields@.len(),
                    n == bindings@.len(),
                    symbols@.len() == n + j,
                    binding_symbols(symbols@, bindings@, n as int),
                    field_symbols(symbols@.skip(n as int), fields@, j as int),
                    forall|k: int| 0 <= k < fields@.len() ==> decreases_to!(*e => #[trigger] fields@[k].value),
                decreases fields@.len() - j,
            {
                let ghost before = symbols@;
                proof { assert(decreases_to!(*e => fields@[j as int].value)); }
                let symbol = field_symbol(&fields[j]);
                symbols.push(symbol);
                proof {
                    lemma_binding_symbols_grow(before, seq![symbol], bindings@, n as int);
                    assert(before + seq![symbol] =~= symbols@);
                    lemma_field_symbols_grow(before.skip(n as int), seq![symbol], fields@, j as int);
                    assert(before.skip(n as int) + seq![symbol] =~= symbols@.skip(n as int));
                }
                j = j + 1;
            }
        },
        ExprKind::Mapping { bindings, .. } => {
            proof {
                assert forall|i: int| 0 <= i < bindings@.len() implies decreases_to!(*e => #[trigger] bindings@[i].value) by {
                    assert(decreases_to!(*e => bindings@[i].value));
                }
            }
            push_bindings(&mut symbols, bindings, Ghost(*e));
            proof { assert(symbols@.skip(0) =~= symbols@); }
        },
        _ => {},
    }
    symbols
}

/// The outline of an open text: its bindings, then the bindings and fields of its value;
/// nothing where it did not parse.
pub fn symbols(open: &Open) -> (found: Vec<Symbol>)
    ensures
        match open.parsed_of() {
            Ok(p) => outlines_document(found@, p.tree_of()),
            Err(_) => found@.len() == 0,
        },
{
    let parsed = match open.parsed() {
        Some(parsed) => parsed,
        None => return Vec::new(),
    };
    let tree = parsed.tree();
    let mut found: Vec<Symbol> = Vec::new();
    let mut i: usize = 0;
    while i < tree.bindings.len()
        invariant
            i <= tree.bindings@.len(),
            found@.len() == i,
            binding_symbols(found@, tree.bindings@, i as int),
        decreases tree.bindings@.len() - i,
    {
        let ghost before = found@;
        let symbol = binding_symbol(&tree.bindings[i]);
        found.push(symbol);
        proof {
            lemma_binding_symbols_grow(before, seq![symbol], tree.bindings@, i as int);
            assert(before + seq![symbol] =~= found@);
        }
        i = i + 1;
    }
    let ghost n = found@.len();
    let ghost head = found@;
    let mut rest = expr_symbols(&tree.value);
    let ghost tail = rest@;
    found.append(&mut rest);
    proof {
        assert(found@ =~= head + tail);
        lemma_binding_symbols_grow(head, tail, tree.bindings@, n as int);
        assert(found@.skip(n as int) =~= tail);
    }
    found
}

} // verus!
