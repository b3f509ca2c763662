//! The scope pass: which binding each name in a document reads.
use vstd::prelude::*;
use crate::expr::{children, document_node, entry_exprs, hole_exprs, node_at, Binding, Document, Entry, Expr, ExprKind, Field, Piece};
use crate::names::Ident;
use crate::span::Span;

verus! {

/// A binding, by its place among a resolution's bindings.
#[derive(Debug, Clone, Copy, PartialEq, Eq, PartialOrd, Ord, Hash, Structural)]
pub struct Id(usize);

impl Id {
    /// The place of the binding among the resolution's bindings.
    pub closed spec fn index(self) -> int {
        self.0 as int
    }
}

/// A name a binding binds, and where it stands.
#[derive(Debug, Clone, PartialEq, Eq)]
pub struct Bound {
    pub ident: Ident,
    pub span: Span,
}

/// A name read by a reference, where it stands, and the binding it reads if one is visible.
#[derive(Debug, Clone, PartialEq, Eq)]
pub struct Read {
    pub ident: Ident,
    pub span: Span,
    pub bound: Option<Id>,
}

/// What a document's names resolve to: its bindings and its reads, each in source order.
#[derive(Debug, Clone, PartialEq, Eq)]
pub struct Resolution {
    bounds: Vec<Bound>,
    reads: Vec<Read>,
    was_read: Vec<bool>,
    scope: Vec<Id>,
}

/// Whether an offset falls inside a span.
pub open spec fn covers(span: Span, offset: int) -> bool {
    span.start <= offset < span.end
}

fn covering(span: Span, offset: usize) -> (is: bool)
    ensures
        is == covers(span, offset as int),
{
    span.start <= offset && offset < span.end
}

/// What the first read from the `k`th on that covers `offset` reads, if one covers it.
pub open spec fn read_at(reads: Seq<Read>, offset: int, k: int) -> Option<Option<Id>>
    decreases reads.len() - k,
{
    if k < 0 || k >= reads.len() {
        None
    } else if covers(reads[k].span, offset) {
        Some(reads[k].bound)
    } else {
        read_at(reads, offset, k + 1)
    }
}

/// The place of the first binding from the `j`th on whose name covers `offset`.
pub open spec fn bound_at(bounds: Seq<Bound>, offset: int, j: int) -> Option<int>
    decreases bounds.len() - j,
{
    if j < 0 || j >= bounds.len() {
        None
    } else if covers(bounds[j].span, offset) {
        Some(j)
    } else {
        bound_at(bounds, offset, j + 1)
    }
}

/// The place of the binding named at `offset`: the one the first read there reads, or,
/// where no read stands there, the first one bound there.
pub open spec fn named_index(r: Resolution, offset: int) -> Option<int> {
    match read_at(r.read_seq(), offset, 0) {
        Some(Some(id)) => Some(id.index()),
        Some(None) => None,
        None => bound_at(r.bound_seq(), offset, 0),
    }
}

/// A read that reads a binding reads one that binds its name.
pub open spec fn names_its_binding(read: Read, bounds: Seq<Bound>) -> bool {
    match read.bound {
        Some(id) => 0 <= id.index() < bounds.len() && bounds[id.index()].ident@ == read.ident@,
        None => true,
    }
}

/// Whether some read of the resolution reads the `i`th binding.
pub open spec fn is_read(r: &Resolution, i: int) -> bool {
    exists|k: int| 0 <= k < r.read_seq().len() && #[trigger] reads_binding(r.read_seq()[k], i)
}

/// Whether a read reads the `i`th binding.
pub open spec fn reads_binding(read: Read, i: int) -> bool {
    read.bound matches Some(id) && id.index() == i
}

/// The first `n` bindings that no read reads, in order.
pub open spec fn unread_among(r: &Resolution, n: int) -> Seq<Bound>
    decreases n,
{
    if n <= 0 {
        Seq::empty()
    } else if is_read(r, n - 1) {
        unread_among(r, n - 1)
    } else {
        unread_among(r, n - 1).push(r.bound_seq()[n - 1])
    }
}

/// The first `n` reads that read the `i`th binding, in order.
pub open spec fn reads_among(reads: Seq<Read>, i: int, n: int) -> Seq<Read>
    decreases n,
{
    if n <= 0 {
        Seq::empty()
    } else if reads_binding(reads[n - 1], i) {
        reads_among(reads, i, n - 1).push(reads[n - 1])
    } else {
        reads_among(reads, i, n - 1)
    }
}

/// Where a scope pass stands: the bindings it has met and the reads it has recorded, each
/// as plain values in source order, and the bindings visible, innermost last.
#[verifier::ext_equal]
pub struct Pass {
    pub bounds: Seq<(Seq<char>, Span)>,
    pub reads: Seq<(Seq<char>, Span, Option<int>)>,
    pub scope: Seq<int>,
}

/// The innermost of the first `s` visible bindings that binds a name.
pub open spec fn visible(bounds: Seq<(Seq<char>, Span)>, scope: Seq<int>, name: Seq<char>, s: int) -> Option<int>
    decreases s,
{
    if s <= 0 {
        None
    } else if bounds[scope[s - 1]].0 == name {
        Some(scope[s - 1])
    } else {
        visible(bounds, scope, name, s - 1)
    }
}

/// The pass once a name at `span` is read: it reads the innermost visible binding of it.
pub open spec fn pass_read(p: Pass, name: Seq<char>, span: Span) -> Pass {
    Pass {
        bounds: p.bounds,
        reads: p.reads.push((name, span, visible(p.bounds, p.scope, name, p.scope.len() as int))),
        scope: p.scope,
    }
}

/// The pass once an expression is walked: its reads recorded and its blocks' bindings met,
/// each block's names visible only inside it.
pub open spec fn pass_expr(e: Expr, p: Pass) -> Pass
    decreases e, 0nat,
{
    match e.kind {
        ExprKind::Tuple { bindings, fields } => {
            let q = pass_fields(fields@, fields@.len() as int, pass_bindings(bindings@, bindings@.len() as int, p));
            Pass { bounds: q.bounds, reads: q.reads, scope: q.scope.take(p.scope.len() as int) }
        },
        ExprKind::Mapping { bindings, entries } => {
            let q = pass_entries(entries@, entries@.len() as int, pass_bindings(bindings@, bindings@.len() as int, p));
            Pass { bounds: q.bounds, reads: q.reads, scope: q.scope.take(p.scope.len() as int) }
        },
        ExprKind::List(items) => pass_items(items@, items@.len() as int, p),
        ExprKind::Access { operand, .. } => pass_expr(*operand, p),
        ExprKind::Index { operand, key } => pass_expr(*key, pass_expr(*operand, p)),
        ExprKind::Call { operand, .. } => pass_expr(*operand, p),
        ExprKind::Interpolation(pieces) => pass_pieces(pieces@, pieces@.len() as int, p),
        ExprKind::Reference(ident) => pass_read(p, ident@, e.span),
        _ => p,
    }
}

/// The pass once a binding is met: the binding recorded, its value walked with its name not
/// yet visible, and then its name made visible.
pub open spec fn pass_bind(p: Pass, name: Seq<char>, span: Span, value: Expr) -> Pass
    decreases value, 1nat,
{
    let walked = pass_expr(value, Pass { bounds: p.bounds.push((name, span)), reads: p.reads, scope: p.scope });
    Pass { bounds: walked.bounds, reads: walked.reads, scope: walked.scope.push(p.bounds.len() as int) }
}

/// The pass once the first `n` bindings are met: each value walked before its name becomes
/// visible.
pub open spec fn pass_bindings(bs: Seq<Binding>, n: int, p: Pass) -> Pass
    decreases bs, n,
{
    if n <= 0 || n > bs.len() {
        p
    } else {
        pass_bind(pass_bindings(bs, n - 1, p), bs[n - 1].name.ident@, bs[n - 1].name.span, bs[n - 1].value)
    }
}

/// The pass once the values of the first `n` fields are walked.
pub open spec fn pass_fields(fs: Seq<Field>, n: int, p: Pass) -> Pass
    decreases fs, n,
{
    if n <= 0 || n > fs.len() { p } else { pass_expr(fs[n - 1].value, pass_fields(fs, n - 1, p)) }
}

/// The pass once the keys and values of the first `n` entries are walked.
pub open spec fn pass_entries(es: Seq<Entry>, n: int, p: Pass) -> Pass
    decreases es, n,
{
    if n <= 0 || n > es.len() { p } else { pass_expr(es[n - 1].value, pass_expr(es[n - 1].key, pass_entries(es, n - 1, p))) }
}

/// The pass once the first `n` items are walked.
pub open spec fn pass_items(items: Seq<Expr>, n: int, p: Pass) -> Pass
    decreases items, n,
{
    if n <= 0 || n > items.len() { p } else { pass_expr(items[n - 1], pass_items(items, n - 1, p)) }
}

/// The pass once the holes among the first `n` pieces are walked.
pub open spec fn pass_pieces(pieces: Seq<Piece>, n: int, p: Pass) -> Pass
    decreases pieces, n,
{
    if n <= 0 || n > pieces.len() {
        p
    } else {
        match pieces[n - 1] {
            Piece::Hole { expr, .. } => pass_expr(expr, pass_pieces(pieces, n - 1, p)),
            Piece::Text(_) => pass_pieces(pieces, n - 1, p),
        }
    }
}

/// The pass over a whole document: its bindings, then its value.
pub open spec fn document_pass(document: Document) -> Pass {
    pass_expr(document.value, pass_bindings(document.bindings@, document.bindings@.len() as int,
        Pass { bounds: Seq::empty(), reads: Seq::empty(), scope: Seq::empty() }))
}

/// Whether `a` is the start of `b`.
pub open spec fn begins<A>(a: Seq<A>, b: Seq<A>) -> bool {
    a.len() <= b.len() && b.subrange(0, a.len() as int) == a
}

/// Whether some read among `reads` reads the name `x` refers by, at `x`'s span.
pub open spec fn has_read(reads: Seq<(Seq<char>, Span, Option<int>)>, x: Expr) -> bool {
    exists|k: int| 0 <= k < reads.len() && (#[trigger] reads[k]).1 == x.span
        && x.kind is Reference && reads[k].0 == x.kind->Reference_0@
}

/// Whether every reference that stands anywhere in `e` has a read among `reads`.
pub open spec fn refs_read(e: Expr, reads: Seq<(Seq<char>, Span, Option<int>)>) -> bool {
    forall|path: Seq<int>, x: Expr| #![trigger node_at(e, path), has_read(reads, x)]
        node_at(e, path) == Some(x) && x.kind is Reference ==> has_read(reads, x)
}

proof fn lemma_refs_grow(e: Expr, a: Seq<(Seq<char>, Span, Option<int>)>, b: Seq<(Seq<char>, Span, Option<int>)>)
    requires
        refs_read(e, a),
        begins(a, b),
    ensures
        refs_read(e, b),
{
    assert forall|path: Seq<int>, x: Expr| #![trigger node_at(e, path), has_read(b, x)]
        node_at(e, path) == Some(x) && x.kind is Reference implies has_read(b, x) by {
        assert(has_read(a, x));
        let k = choose|k: int| 0 <= k < a.len() && (#[trigger] a[k]).1 == x.span
            && x.kind is Reference && a[k].0 == x.kind->Reference_0@;
        assert(b[k] == b.subrange(0, a.len() as int)[k]);
    }
}

proof fn lemma_begins_trans<A>(a: Seq<A>, b: Seq<A>, c: Seq<A>)
    requires
        begins(a, b),
        begins(b, c),
    ensures
        begins(a, c),
{
    assert(c.subrange(0, a.len() as int) =~= c.subrange(0, b.len() as int).subrange(0, a.len() as int));
}

/// What walking an expression reads: what was read before, then a read for every reference
/// that stands anywhere in it.
proof fn lemma_pass_expr_reads(e: Expr, p: Pass)
    ensures
        begins(p.reads, pass_expr(e, p).reads),
        refs_read(e, pass_expr(e, p).reads),
    decreases e, 0nat,
{
    let r = pass_expr(e, p).reads;
    match e.kind {
        ExprKind::Tuple { bindings, fields } => {
            let bs = bindings@;
            let fs = fields@;
            let q1 = pass_bindings(bs, bs.len() as int, p);
            lemma_pass_bindings_reads(bs, bs.len() as int, p);
            lemma_pass_fields_reads(fs, fs.len() as int, q1);
            let q = pass_fields(fs, fs.len() as int, q1);
            lemma_begins_trans(p.reads, q1.reads, q.reads);
            assert forall|i: int| 0 <= i < children(e).len() implies refs_read(#[trigger] children(e)[i], r) by {
                if i < bs.len() {
                    assert(children(e)[i] == bs[i].value);
                    lemma_refs_grow(bs[i].value, q1.reads, q.reads);
                } else {
                    assert(children(e)[i] == fs[i - bs.len()].value);
                }
            }
        },
        ExprKind::Mapping { bindings, entries } => {
            let bs = bindings@;
            let es = entries@;
            let q1 = pass_bindings(bs, bs.len() as int, p);
            lemma_pass_bindings_reads(bs, bs.len() as int, p);
            lemma_pass_entries_reads(es, es.len() as int, q1);
            let q = pass_entries(es, es.len() as int, q1);
            lemma_begins_trans(p.reads, q1.reads, q.reads);
            assert forall|i: int| 0 <= i < children(e).len() implies refs_read(#[trigger] children(e)[i], r) by {
                if i < bs.len() {
                    assert(children(e)[i] == bs[i].value);
                    lemma_refs_grow(bs[i].value, q1.reads, q.reads);
                } else {
                    assert(children(e)[i] == entry_exprs(es, es.len() as int)[i - bs.len()]);
                }
            }
        },
        ExprKind::List(items) => {
            lemma_pass_items_reads(items@, items@.len() as int, p);
        },
        ExprKind::Access { operand, .. } => {
            lemma_pass_expr_reads(*operand, p);
        },
        ExprKind::Index { operand, key } => {
            lemma_pass_expr_reads(*operand, p);
            let q = pass_expr(*operand, p);
            lemma_pass_expr_reads(*key, q);
            lemma_begins_trans(p.reads, q.reads, r);
            lemma_refs_grow(*operand, q.reads, r);
        },
        ExprKind::Call { operand, .. } => {
            lemma_pass_expr_reads(*operand, p);
        },
        ExprKind::Interpolation(pieces) => {
            lemma_pass_pieces_reads(pieces@, pieces@.len() as int, p);
        },
        ExprKind::Reference(ident) => {
            assert(r == p.reads.push((ident@, e.span, visible(p.bounds, p.scope, ident@, p.scope.len() as int))));
            assert(r.subrange(0, p.reads.len() as int) =~= p.reads);
        },
        _ => {
            assert(r.subrange(0, p.reads.len() as int) =~= p.reads);
        },
    }
    assert forall|path: Seq<int>, x: Expr| #![trigger node_at(e, path), has_read(r, x)]
        node_at(e, path) == Some(x) && x.kind is Reference implies has_read(r, x) by {
        if path.len() == 0 {
            assert(x == e);
            assert(r[p.reads.len() as int].1 == x.span);
        } else {
            let c = children(e)[path[0]];
            assert(node_at(c, path.drop_first()) == Some(x));
        }
    }
}

proof fn lemma_pass_bind_reads(p: Pass, name: Seq<char>, span: Span, value: Expr)
    ensures
        begins(p.reads, pass_bind(p, name, span, value).reads),
        refs_read(value, pass_bind(p, name, span, value).reads),
    decreases value, 1nat,
{
    lemma_pass_expr_reads(value, Pass { bounds: p.bounds.push((name, span)), reads: p.reads, scope: p.scope });
}

proof fn lemma_pass_bindings_reads(bs: Seq<Binding>, n: int, p: Pass)
    requires
        0 <= n <= bs.len(),
    ensures
        begins(p.reads, pass_bindings(bs, n, p).reads),
        forall|k: int| 0 <= k < n ==> refs_read(#[trigger] bs[k].value, pass_bindings(bs, n, p).reads),
    decreases bs, n,
{
    if n == 0 {
        assert(p.reads.subrange(0, p.reads.len() as int) =~= p.reads);
    } else {
        let q = pass_bindings(bs, n - 1, p);
        lemma_pass_bindings_reads(bs, n - 1, p);
        lemma_pass_bind_reads(q, bs[n - 1].name.ident@, bs[n - 1].name.span, bs[n - 1].value);
        let r = pass_bindings(bs, n, p).reads;
        lemma_begins_trans(p.reads, q.reads, r);
        assert forall|k: int| 0 <= k < n implies refs_read(#[trigger] bs[k].value, r) by {
            if k < n - 1 {
                lemma_refs_grow(bs[k].value, q.reads, r);
            }
        }
    }
}

proof fn lemma_pass_fields_reads(fs: Seq<Field>, n: int, p: Pass)
    requires
        0 <= n <= fs.len(),
    ensures
        begins(p.reads, pass_fields(fs, n, p).reads),
        forall|k: int| 0 <= k < n ==> refs_read(#[trigger] fs[k].value, pass_fields(fs, n, p).reads),
    decreases fs, n,
{
    if n == 0 {
        assert(p.reads.subrange(0, p.reads.len() as int) =~= p.reads);
    } else {
        let q = pass_fields(fs, n - 1, p);
        lemma_pass_fields_reads(fs, n - 1, p);
        lemma_pass_expr_reads(fs[n - 1].value, q);
        let r = pass_fields(fs, n, p).reads;
        lemma_begins_trans(p.reads, q.reads, r);
        assert forall|k: int| 0 <= k < n implies refs_read(#[trigger] fs[k].value, r) by {
            if k < n - 1 {
                lemma_refs_grow(fs[k].value, q.reads, r);
            }
        }
    }
}

proof fn lemma_pass_items_reads(xs: Seq<Expr>, n: int, p: Pass)
    requires
        0 <= n <= xs.len(),
    ensures
        begins(p.reads, pass_items(xs, n, p).reads),
        forall|k: int| 0 <= k < n ==> refs_read(#[trigger] xs[k], pass_items(xs, n, p).reads),
    decreases xs, n,
{
    if n == 0 {
        assert(p.reads.subrange(0, p.reads.len() as int) =~= p.reads);
    } else {
        let q = pass_items(xs, n - 1, p);
        lemma_pass_items_reads(xs, n - 1, p);
        lemma_pass_expr_reads(xs[n - 1], q);
        let r = pass_items(xs, n, p).reads;
        lemma_begins_trans(p.reads, q.reads, r);
        assert forall|k: int| 0 <= k < n implies refs_read(#[trigger] xs[k], r) by {
            if k < n - 1 {
                lemma_refs_grow(xs[k], q.reads, r);
            }
        }
    }
}

proof fn lemma_pass_entries_reads(es: Seq<Entry>, n: int, p: Pass)
    requires
        0 <= n <= es.len(),
    ensures
        begins(p.reads, pass_entries(es, n, p).reads),
        entry_exprs(es, n).len() == 2 * n,
        forall|k: int| 0 <= k < 2 * n ==> refs_read(#[trigger] entry_exprs(es, n)[k], pass_entries(es, n, p).reads),
    decreases es, n,
{
    if n == 0 {
        assert(p.reads.subrange(0, p.reads.len() as int) =~= p.reads);
    } else {
        let q = pass_entries(es, n - 1, p);
        lemma_pass_entries_reads(es, n - 1, p);
        lemma_pass_expr_reads(es[n - 1].key, q);
        let q2 = pass_expr(es[n - 1].key, q);
        lemma_pass_expr_reads(es[n - 1].value, q2);
        let r = pass_entries(es, n, p).reads;
        lemma_begins_trans(p.reads, q.reads, q2.reads);
        lemma_begins_trans(p.reads, q2.reads, r);
        lemma_begins_trans(q.reads, q2.reads, r);
        assert forall|k: int| 0 <= k < 2 * n implies refs_read(#[trigger] entry_exprs(es, n)[k], r) by {
            if k < 2 * (n - 1) {
                assert(entry_exprs(es, n)[k] == entry_exprs(es, n - 1)[k]);
                lemma_refs_grow(entry_exprs(es, n - 1)[k], q.reads, r);
            } else if k == 2 * (n - 1) {
                assert(entry_exprs(es, n)[k] == es[n - 1].key);
                lemma_refs_grow(es[n - 1].key, q2.reads, r);
            } else {
                assert(entry_exprs(es, n)[k] == es[n - 1].value);
            }
        }
    }
}

proof fn lemma_pass_pieces_reads(ps: Seq<Piece>, n: int, p: Pass)
    requires
        0 <= n <= ps.len(),
    ensures
        begins(p.reads, pass_pieces(ps, n, p).reads),
        forall|k: int| 0 <= k < hole_exprs(ps, n).len() ==> refs_read(#[trigger] hole_exprs(ps, n)[k], pass_pieces(ps, n, p).reads),
    decreases ps, n,
{
    if n == 0 {
        assert(p.reads.subrange(0, p.reads.len() as int) =~= p.reads);
    } else {
        let q = pass_pieces(ps, n - 1, p);
        lemma_pass_pieces_reads(ps, n - 1, p);
        let r = pass_pieces(ps, n, p).reads;
        let before = hole_exprs(ps, n - 1);
        match ps[n - 1] {
            Piece::Hole { expr, .. } => {
                lemma_pass_expr_reads(expr, q);
                lemma_begins_trans(p.reads, q.reads, r);
                assert forall|k: int| 0 <= k < hole_exprs(ps, n).len() implies refs_read(#[trigger] hole_exprs(ps, n)[k], r) by {
                    if k < before.len() {
                        assert(hole_exprs(ps, n)[k] == before[k]);
                        lemma_refs_grow(before[k], q.reads, r);
                    } else {
                        assert(hole_exprs(ps, n)[k] == expr);
                    }
                }
            },
            Piece::Text(_) => {
                assert(hole_exprs(ps, n) =~= before);
            },
        }
    }
}

/// Law: every reference that stands anywhere in a document, in a binding's value, a field,
/// an item, a map's key or value, an operand or a hole, is read: the pass over the document
/// records a read of its name at its span.
pub proof fn lemma_every_reference_is_read(document: Document, x: Expr)
    requires
        document_node(document, x),
        x.kind is Reference,
    ensures
        has_read(document_pass(document).reads, x),
{
    let bs = document.bindings@;
    let start = Pass { bounds: Seq::empty(), reads: Seq::empty(), scope: Seq::empty() };
    let q = pass_bindings(bs, bs.len() as int, start);
    lemma_pass_bindings_reads(bs, bs.len() as int, start);
    lemma_pass_expr_reads(document.value, q);
    let r = document_pass(document).reads;
    if exists|path: Seq<int>| #[trigger] node_at(document.value, path) == Some(x) {
        let path = choose|path: Seq<int>| #[trigger] node_at(document.value, path) == Some(x);
        assert(node_at(document.value, path) == Some(x) && x.kind is Reference);
    } else {
        let (i, path) = choose|i: int, path: Seq<int>| 0 <= i < bs.len() && #[trigger] node_at(bs[i].value, path) == Some(x);
        lemma_refs_grow(bs[i].value, q.reads, r);
        assert(node_at(bs[i].value, path) == Some(x) && x.kind is Reference);
    }
}

/// Law: a resolution of a document holds a read, at its span and of its name, for every
/// reference that stands anywhere in the document.
pub proof fn lemma_resolution_reads_every_reference(document: Document, resolution: &Resolution, x: Expr)
    requires
        resolution.read_seq().map_values(|r: Read| read_view(r)) == document_pass(document).reads,
        document_node(document, x),
        x.kind is Reference,
    ensures
        exists|k: int| 0 <= k < resolution.read_seq().len() && (#[trigger] resolution.read_seq()[k]).span == x.span
            && x.kind is Reference && resolution.read_seq()[k].ident@ == x.kind->Reference_0@,
{
    lemma_every_reference_is_read(document, x);
    let reads = document_pass(document).reads;
    let k = choose|k: int| 0 <= k < reads.len() && (#[trigger] reads[k]).1 == x.span
        && x.kind is Reference && reads[k].0 == x.kind->Reference_0@;
    assert(reads[k] == read_view(resolution.read_seq()[k]));
}

/// A binding as plain values.
pub open spec fn bound_view(b: Bound) -> (Seq<char>, Span) {
    (b.ident@, b.span)
}

/// A read as plain values: its name, where it stands and the place of the binding it reads.
pub open spec fn read_view(r: Read) -> (Seq<char>, Span, Option<int>) {
    (r.ident@, r.span, match r.bound { Some(id) => Some(id.index()), None => None })
}

/// Whether some read among `reads` reads the `i`th binding.
pub open spec fn read_in(reads: Seq<(Seq<char>, Span, Option<int>)>, i: int) -> bool {
    exists|k: int| 0 <= k < reads.len() && (#[trigger] reads[k]).2 == Some(i)
}

/// The first `n` bindings of a pass that none of its reads reads, in order.
pub open spec fn unread_in(p: Pass, n: int) -> Seq<(Seq<char>, Span)>
    decreases n,
{
    if n <= 0 {
        Seq::empty()
    } else if read_in(p.reads, n - 1) {
        unread_in(p, n - 1)
    } else {
        unread_in(p, n - 1).push(p.bounds[n - 1])
    }
}

/// A resolution's bindings and reads as plain values.
pub open spec fn viewed(r: &Resolution) -> Pass {
    Pass {
        bounds: r.bound_seq().map_values(|b: Bound| bound_view(b)),
        reads: r.read_seq().map_values(|x: Read| read_view(x)),
        scope: Seq::empty(),
    }
}

/// Which bindings no read reads depends on the bindings and the reads alone, not on what is
/// visible.
pub proof fn lemma_unread_scope_free(p: Pass, q: Pass, n: int)
    requires
        p.bounds == q.bounds,
        p.reads == q.reads,
    ensures
        unread_in(p, n) == unread_in(q, n),
    decreases n,
{
    if n > 0 {
        lemma_unread_scope_free(p, q, n - 1);
    }
}

/// The bindings no read reads are, as plain values, those of the pass that found them.
pub proof fn lemma_unread_viewed(r: &Resolution, n: int)
    requires
        0 <= n <= r.bound_seq().len(),
    ensures
        unread_among(r, n).map_values(|b: Bound| bound_view(b)) =~= unread_in(viewed(r), n),
    decreases n,
{
    if n > 0 {
        lemma_unread_viewed(r, n - 1);
        let v = viewed(r);
        if is_read(r, n - 1) {
            let k = choose|k: int| 0 <= k < r.read_seq().len() && #[trigger] reads_binding(r.read_seq()[k], n - 1);
            assert(v.reads[k].2 == Some(n - 1));
        } else {
            assert forall|k: int| 0 <= k < v.reads.len() implies (#[trigger] v.reads[k]).2 != Some(n - 1) by {
                assert(!reads_binding(r.read_seq()[k], n - 1));
            }
            assert(unread_among(r, n).map_values(|b: Bound| bound_view(b))
                =~= unread_among(r, n - 1).map_values(|b: Bound| bound_view(b)).push(bound_view(r.bound_seq()[n - 1])));
        }
    }
}

impl Resolution {
    /// The bindings, in the order they stand.
    pub closed spec fn bound_seq(&self) -> Seq<Bound> {
        self.bounds@
    }

    /// The reads, in the order they stand.
    pub closed spec fn read_seq(&self) -> Seq<Read> {
        self.reads@
    }

    /// Where the pass that builds this resolution stands.
    closed spec fn pass(&self) -> Pass {
        Pass {
            bounds: self.bounds@.map_values(|b: Bound| bound_view(b)),
            reads: self.reads@.map_values(|r: Read| read_view(r)),
            scope: self.scope@.map_values(|id: Id| id.index()),
        }
    }

    /// A resolution is consistent: a read names the binding it reads, a binding is marked
    /// read exactly when some read reads it, and every visible name is a binding.
    pub closed spec fn wf(&self) -> bool {
        &&& self.was_read@.len() == self.bounds@.len()
        &&& forall|k: int| 0 <= k < self.reads@.len() ==> names_its_binding(#[trigger] self.reads@[k], self.bounds@)
        &&& forall|i: int| 0 <= i < self.bounds@.len() ==> #[trigger] self.was_read@[i] == is_read(self, i)
        &&& forall|s: int| 0 <= s < self.scope@.len() ==> (#[trigger] self.scope@[s]).0 < self.bounds@.len()
    }

    /// Resolves every name a document reads.
    pub fn of(document: &Document) -> (resolution: Resolution)
        ensures
            resolution.wf(),
            forall|k: int| 0 <= k < resolution.read_seq().len() ==>
                names_its_binding(#[trigger] resolution.read_seq()[k], resolution.bound_seq()),
            resolution.bound_seq().map_values(|b: Bound| bound_view(b)) == document_pass(*document).bounds,
            resolution.read_seq().map_values(|r: Read| read_view(r)) == document_pass(*document).reads,
    {
        let mut resolution = Resolution { bounds: Vec::new(), reads: Vec::new(), was_read: Vec::new(), scope: Vec::new() };
        let ghost start = resolution.pass();
        proof { assert(start =~= Pass { bounds: Seq::empty(), reads: Seq::empty(), scope: Seq::empty() }); }
        let mut i: usize = 0;
        while i < document.bindings.len()
            invariant
                resolution.wf(),
                resolution.pass() =~= pass_bindings(document.bindings@, i as int, start),
                i <= document.bindings@.len(),
            decreases document.bindings@.len() - i,
        {
            resolution.bind(&document.bindings[i].name.ident, document.bindings[i].name.span, &document.bindings[i].value);
            i = i + 1;
        }
        resolution.expr(&document.value);
        let ghost resolved = resolution;
        proof { assert(resolution.pass() =~= document_pass(*document)); }
        resolution.scope = Vec::new();
        proof {
            Resolution::lemma_rescoped(&resolved, &resolution);
            resolution.lemma_reads_name_bindings();
        }
        resolution
    }

    /// Changing only what is visible keeps a resolution consistent, so long as every
    /// visible name is a binding.
    proof fn lemma_rescoped(before: &Resolution, after: &Resolution)
        requires
            before.wf(),
            after.bounds@ == before.bounds@,
            after.reads@ == before.reads@,
            after.was_read@ == before.was_read@,
            forall|s: int| 0 <= s < after.scope@.len() ==> (#[trigger] after.scope@[s]).0 < after.bounds@.len(),
        ensures
            after.wf(),
    {
        assert forall|i: int| 0 <= i < after.bounds@.len() implies #[trigger] after.was_read@[i] == is_read(after, i) by {
            assert(before.was_read@[i] == is_read(before, i));
            assert(after.read_seq() == before.read_seq());
        }
        assert forall|k: int| 0 <= k < after.reads@.len() implies names_its_binding(#[trigger] after.reads@[k], after.bounds@) by {
            assert(names_its_binding(before.reads@[k], before.bounds@));
        }
    }

    proof fn lemma_reads_name_bindings(&self)
        requires
            self.wf(),
        ensures
            forall|k: int| 0 <= k < self.read_seq().len() ==>
                names_its_binding(#[trigger] self.read_seq()[k], self.bound_seq()),
    {
        assert forall|k: int| 0 <= k < self.read_seq().len() implies
            names_its_binding(#[trigger] self.read_seq()[k], self.bound_seq()) by {
            assert(self.reads@[k] == self.read_seq()[k]);
        }
    }

    /// The bindings, in the order they stand.
    pub fn bounds(&self) -> (bounds: &[Bound])
        ensures
            bounds@ == self.bound_seq(),
    {
        self.bounds.as_slice()
    }

    /// The reads, in the order they stand.
    pub fn reads(&self) -> (reads: &[Read])
        ensures
            reads@ == self.read_seq(),
    {
        self.reads.as_slice()
    }

    /// The binding an id names.
    pub fn bound(&self, id: Id) -> (bound: &Bound)
        requires
            0 <= id.index() < self.bound_seq().len(),
        ensures
            *bound == self.bound_seq()[id.index()],
    {
        &self.bounds[id.0]
    }

    /// The binding named at an offset: the one a read there reads, or the one bound there.
    pub fn at(&self, offset: usize) -> (found: Option<Id>)
        requires
            self.wf(),
        ensures
            (exists|k: int| 0 <= k < self.read_seq().len() && covers(#[trigger] self.read_seq()[k].span, offset as int))
                ==> exists|k: int| 0 <= k < self.read_seq().len() && covers(#[trigger] self.read_seq()[k].span, offset as int)
                    && (forall|j: int| 0 <= j < k ==> !covers(#[trigger] self.read_seq()[j].span, offset as int))
                    && found == self.read_seq()[k].bound,
            !(exists|k: int| 0 <= k < self.read_seq().len() && covers(#[trigger] self.read_seq()[k].span, offset as int))
                ==> match found {
                    Some(id) => 0 <= id.index() < self.bound_seq().len() && covers(self.bound_seq()[id.index()].span, offset as int)
                        && forall|j: int| 0 <= j < id.index() ==> !covers(#[trigger] self.bound_seq()[j].span, offset as int),
                    None => forall|j: int| 0 <= j < self.bound_seq().len() ==> !covers(#[trigger] self.bound_seq()[j].span, offset as int),
                },
            (match found { Some(id) => Some(id.index()), None => None::<int> }) == named_index(*self, offset as int),
            found matches Some(id) ==> 0 <= id.index() < self.bound_seq().len(),
    {
        let mut k: usize = 0;
        while k < self.reads.len()
            invariant
                k <= self.reads@.len(),
                forall|j: int| 0 <= j < k ==> !covers(#[trigger] self.reads@[j].span, offset as int),
                read_at(self.reads@, offset as int, 0) == read_at(self.reads@, offset as int, k as int),
                self.wf(),
            decreases self.reads@.len() - k,
        {
            if covering(self.reads[k].span, offset) {
                proof { assert(names_its_binding(self.reads@[k as int], self.bounds@)); }
                return self.reads[k].bound;
            }
            k = k + 1;
        }
        let mut i: usize = 0;
        while i < self.bounds.len()
            invariant
                i <= self.bounds@.len(),
                forall|j: int| 0 <= j < self.reads@.len() ==> !covers(#[trigger] self.reads@[j].span, offset as int),
                forall|j: int| 0 <= j < i ==> !covers(#[trigger] self.bounds@[j].span, offset as int),
                read_at(self.reads@, offset as int, 0) is None,
                bound_at(self.bounds@, offset as int, 0) == bound_at(self.bounds@, offset as int, i as int),
            decreases self.bounds@.len() - i,
        {
            if covering(self.bounds[i].span, offset) {
                return Some(Id(i));
            }
            i = i + 1;
        }
        None
    }

    /// The reads of one binding, in order.
    pub fn reads_of(&self, id: Id) -> (found: Vec<&Read>)
        ensures
            found@.len() == reads_among(self.read_seq(), id.index(), self.read_seq().len() as int).len(),
            forall|i: int| 0 <= i < found@.len() ==>
                *(#[trigger] found@[i]) == reads_among(self.read_seq(), id.index(), self.read_seq().len() as int)[i],
    {
        let mut found: Vec<&Read> = Vec::new();
        let mut k: usize = 0;
        while k < self.reads.len()
            invariant
                k <= self.reads@.len(),
                found@.len() == reads_among(self.reads@, id.index(), k as int).len(),
                forall|i: int| 0 <= i < found@.len() ==>
                    *(#[trigger] found@[i]) == reads_among(self.reads@, id.index(), k as int)[i],
            decreases self.reads@.len() - k,
        {
            let read = &self.reads[k];
            if read.bound == Some(id) {
                found.push(read);
            }
            k = k + 1;
        }
        found
    }

    /// The bindings no read reads, in order.
    pub fn unread(&self) -> (found: Vec<&Bound>)
        requires
            self.wf(),
        ensures
            found@.len() == unread_among(self, self.bound_seq().len() as int).len(),
            forall|i: int| 0 <= i < found@.len() ==>
                *(#[trigger] found@[i]) == unread_among(self, self.bound_seq().len() as int)[i],
    {
        let mut found: Vec<&Bound> = Vec::new();
        let mut i: usize = 0;
        while i < self.bounds.len()
            invariant
                self.wf(),
                i <= self.bounds@.len(),
                found@.len() == unread_among(self, i as int).len(),
                forall|j: int| 0 <= j < found@.len() ==> *(#[trigger] found@[j]) == unread_among(self, i as int)[j],
            decreases self.bounds@.len() - i,
        {
            if !self.was_read[i] {
                found.push(&self.bounds[i]);
            }
            i = i + 1;
        }
        found
    }

    /// Binds a name: its value is read first, with the name not yet visible, and then the
    /// name becomes visible to what follows.
    fn bind(&mut self, ident: &Ident, span: Span, value: &Expr)
        requires
            old(self).wf(),
        ensures
            final(self).wf(),
            final(self).bounds@.len() > old(self).bounds@.len(),
            final(self).scope@.len() == old(self).scope@.len() + 1,
            final(self).scope@.subrange(0, old(self).scope@.len() as int) == old(self).scope@,
            final(self).pass() =~= pass_bind(old(self).pass(), ident@, span, *value),
        decreases *value, 1nat,
    {
        let id = Id(self.bounds.len());
        let ghost before = *self;
        proof {
            assert forall|k: int| 0 <= k < self.reads@.len() implies !reads_binding(#[trigger] self.reads@[k], self.bounds@.len() as int) by {
                assert(names_its_binding(self.reads@[k], self.bounds@));
            }
        }
        self.bounds.push(Bound { ident: ident.clone(), span });
        self.was_read.push(false);
        proof {
            assert(self.pass() =~= Pass { bounds: before.pass().bounds.push((ident@, span)), reads: before.pass().reads, scope: before.pass().scope });
            assert(self.reads@ == before.reads@);
            assert(self.read_seq() == before.read_seq());
            assert forall|k: int| 0 <= k < self.reads@.len() implies names_its_binding(#[trigger] self.reads@[k], self.bounds@) by {
                assert(names_its_binding(before.reads@[k], before.bounds@));
            }
            assert forall|i: int| 0 <= i < self.bounds@.len() implies #[trigger] self.was_read@[i] == is_read(self, i) by {
                if i < before.bounds@.len() {
                    assert(before.was_read@[i] == is_read(&before, i));
                    assert(self.was_read@[i] == before.was_read@[i]);
                } else {
                    if is_read(self, i) {
                        let k = choose|k: int| 0 <= k < self.read_seq().len() && #[trigger] reads_binding(self.read_seq()[k], i);
                        assert(!reads_binding(before.reads@[k], before.bounds@.len() as int));
                    }
                }
            }
        }
        self.expr(value);
        let ghost valued = *self;
        self.scope.push(id);
        proof {
            assert(self.pass().scope =~= valued.pass().scope.push(before.bounds@.len() as int));
            assert forall|t: int| 0 <= t < self.scope@.len() implies (#[trigger] self.scope@[t]).0 < self.bounds@.len() by {
                if t < valued.scope@.len() {
                    assert(self.scope@[t] == valued.scope@[t]);
                }
            }
            Resolution::lemma_rescoped(&valued, self);
        }
    }

    /// Resolves the names an expression reads.
    #[verifier::loop_isolation(false)]
    fn expr(&mut self, e: &Expr)
        requires
            old(self).wf(),
        ensures
            final(self).wf(),
            final(self).bounds@.len() >= old(self).bounds@.len(),
            final(self).scope@ == old(self).scope@,
            final(self).pass() =~= pass_expr(*e, old(self).pass()),
        decreases *e, 0nat,
    {
        let ghost start = self.pass();
        match &e.kind {
            ExprKind::Tuple { bindings, fields } => {
                let frame = self.scope.len();
                let ghost scope = self.scope@;
                let mut i: usize = 0;
                while i < bindings.len()
                    invariant
                        self.wf(),
                        self.bounds@.len() >= old(self).bounds@.len(),
                        self.scope@.len() >= frame,
                        self.scope@.subrange(0, frame as int) == scope,
                        scope == old(self).scope@,
                        frame == scope.len(),
                        self.pass() =~= pass_bindings(bindings@, i as int, start),
                        i <= bindings@.len(),
                    decreases bindings@.len() - i,
                {
                    proof { assert(decreases_to!(*e => bindings@[i as int].value)); }
                    self.bind(&bindings[i].name.ident, bindings[i].name.span, &bindings[i].value);
                    i = i + 1;
                }
                let ghost bound = self.pass();
                let mut j: usize = 0;
                while j < fields.len()
                    invariant
                        self.wf(),
                        self.bounds@.len() >= old(self).bounds@.len(),
                        self.scope@.len() >= frame,
                        self.scope@.subrange(0, frame as int) == scope,
                        frame == scope.len(),
                        j <= fields@.len(),
                        self.pass() =~= pass_fields(fields@, j as int, bound),
                    decreases fields@.len() - j,
                {
                    proof { assert(decreases_to!(*e => fields@[j as int].value)); }
                    self.expr(&fields[j].value);
                    j = j + 1;
                }
                let ghost walked = *self;
                self.scope.truncate(frame);
                proof {
                    assert(self.scope@ == walked.scope@.subrange(0, frame as int));
                    assert(self.pass().scope =~= walked.pass().scope.take(frame as int));
                    assert(self.pass().bounds == walked.pass().bounds);
                    assert(self.pass().reads == walked.pass().reads);
                    assert forall|t: int| 0 <= t < self.scope@.len() implies (#[trigger] self.scope@[t]).0 < self.bounds@.len() by {
                        assert(self.scope@[t] == walked.scope@[t]);
                    }
                    Resolution::lemma_rescoped(&walked, self);
                    assert(bound == pass_bindings(bindings@, bindings@.len() as int, start));
                    assert(walked.pass() == pass_fields(fields@, fields@.len() as int, bound));
                    assert(frame == start.scope.len());
                    assert(self.pass() =~= pass_expr(*e, start));
                }
            },
            ExprKind::Mapping { bindings, entries } => {
                let frame = self.scope.len();
                let ghost scope = self.scope@;
                let mut i: usize = 0;
                while i < bindings.len()
                    invariant
                        self.wf(),
                        self.bounds@.len() >= old(self).bounds@.len(),
                        self.scope@.len() >= frame,
                        self.scope@.subrange(0, frame as int) == scope,
                        scope == old(self).scope@,
                        frame == scope.len(),
                        self.pass() =~= pass_bindings(bindings@, i as int, start),
                        i <= bindings@.len(),
                    decreases bindings@.len() - i,
                {
                    proof { assert(decreases_to!(*e => bindings@[i as int].value)); }
                    self.bind(&bindings[i].name.ident, bindings[i].name.span, &bindings[i].value);
                    i = i + 1;
                }
                let ghost bound = self.pass();
                let mut j: usize = 0;
                while j < entries.len()
                    invariant
                        self.wf(),
                        self.bounds@.len() >= old(self).bounds@.len(),
                        self.scope@.len() >= frame,
                        self.scope@.subrange(0, frame as int) == scope,
                        frame == scope.len(),
                        j <= entries@.len(),
                        self.pass() =~= pass_entries(entries@, j as int, bound),
                    decreases entries@.len() - j,
                {
                    proof {
                        assert(decreases_to!(*e => entries@[j as int].key));
                        assert(decreases_to!(*e => entries@[j as int].value));
                    }
                    self.expr(&entries[j].key);
                    self.expr(&entries[j].value);
                    j = j + 1;
                }
                let ghost walked = *self;
                self.scope.truncate(frame);
                proof {
                    assert(self.scope@ == walked.scope@.subrange(0, frame as int));
                    assert(self.pass().scope =~= walked.pass().scope.take(frame as int));
                    assert(self.pass().bounds == walked.pass().bounds);
                    assert(self.pass().reads == walked.pass().reads);
                    assert forall|t: int| 0 <= t < self.scope@.len() implies (#[trigger] self.scope@[t]).0 < self.bounds@.len() by {
                        assert(self.scope@[t] == walked.scope@[t]);
                    }
                    Resolution::lemma_rescoped(&walked, self);
                }
            },
            ExprKind::List(items) => {
                let mut j: usize = 0;
                while j < items.len()
                    invariant
                        self.wf(),
                        self.bounds@.len() >= old(self).bounds@.len(),
                        self.scope@ == old(self).scope@,
                        j <= items@.len(),
                        self.pass() =~= pass_items(items@, j as int, start),
                    decreases items@.len() - j,
                {
                    proof { assert(decreases_to!(*e => items@[j as int])); }
                    self.expr(&items[j]);
                    j = j + 1;
                }
            },
            ExprKind::Access { operand, field: _ } => self.expr(operand),
            ExprKind::Index { operand, key } => {
                self.expr(operand);
                self.expr(key);
            },
            ExprKind::Call { name: _, operand } => self.expr(operand),
            ExprKind::Interpolation(pieces) => {
                let mut j: usize = 0;
                while j < pieces.len()
                    invariant
                        self.wf(),
                        self.bounds@.len() >= old(self).bounds@.len(),
                        self.scope@ == old(self).scope@,
                        j <= pieces@.len(),
                        self.pass() =~= pass_pieces(pieces@, j as int, start),
                    decreases pieces@.len() - j,
                {
                    if let Piece::Hole { expr, spec: _ } = &pieces[j] {
                        proof { assert(decreases_to!(*e => pieces@[j as int])); }
                        self.expr(expr);
                    }
                    j = j + 1;
                }
            },
            ExprKind::Reference(ident) => self.read(ident, e.span),
            _ => {},
        }
    }

    /// Records a read of a name: it reads the innermost visible binding of that name.
    fn read(&mut self, ident: &Ident, span: Span)
        requires
            old(self).wf(),
        ensures
            final(self).wf(),
            final(self).bounds@ == old(self).bounds@,
            final(self).scope@ == old(self).scope@,
            final(self).pass() =~= pass_read(old(self).pass(), ident@, span),
    {
        let ghost p = self.pass();
        let mut s = self.scope.len();
        let mut bound: Option<Id> = None;
        while bound.is_none() && s > 0
            invariant
                s <= self.scope@.len(),
                self.wf(),
                *self == *old(self),
                p == self.pass(),
                bound matches Some(id) ==> 0 <= id.0 < self.bounds@.len() && self.bounds@[id.0 as int].ident@ == ident@,
                bound is None ==> visible(p.bounds, p.scope, ident@, p.scope.len() as int) == visible(p.bounds, p.scope, ident@, s as int),
                bound matches Some(id) ==> visible(p.bounds, p.scope, ident@, p.scope.len() as int) == Some(id.index()),
            decreases s + (if bound is None { 1int } else { 0int }),
        {
            let id = self.scope[s - 1];
            proof {
                assert(p.scope[s - 1] == id.index());
                assert(p.bounds[id.index()].0 == self.bounds@[id.0 as int].ident@);
            }
            if self.bounds[id.0].ident.same(ident) {
                proof { assert(visible(p.bounds, p.scope, ident@, s as int) == Some(id.index())); }
                bound = Some(id);
            } else {
                s = s - 1;
            }
        }
        let ghost before = *self;
        if let Some(id) = bound {
            self.was_read.set(id.0, true);
        }
        self.reads.push(Read { ident: ident.clone(), span, bound });
        proof {
            assert(self.pass().reads =~= p.reads.push((ident@, span, visible(p.bounds, p.scope, ident@, p.scope.len() as int))));
            let k_new = self.reads@.len() - 1;
            assert(self.reads@[k_new].ident@ == ident@);
            assert forall|i: int| 0 <= i < self.bounds@.len() implies #[trigger] self.was_read@[i] == is_read(self, i) by {
                assert(before.was_read@[i] == is_read(&before, i));
                if is_read(&before, i) {
                    let k = choose|k: int| 0 <= k < before.read_seq().len() && #[trigger] reads_binding(before.read_seq()[k], i);
                    assert(self.reads@[k] == before.reads@[k]);
                    assert(reads_binding(self.read_seq()[k], i));
                }
                if reads_binding(self.reads@[k_new], i) {
                    assert(self.read_seq()[k_new] == self.reads@[k_new]);
                    assert(reads_binding(self.read_seq()[k_new], i));
                    assert(is_read(self, i));
                }
                if is_read(self, i) {
                    let k = choose|k: int| 0 <= k < self.read_seq().len() && #[trigger] reads_binding(self.read_seq()[k], i);
                    if k < k_new {
                        assert(self.reads@[k] == before.reads@[k]);
                        assert(reads_binding(before.read_seq()[k], i));
                    }
                }
            }
            assert forall|k: int| 0 <= k < self.reads@.len() implies names_its_binding(#[trigger] self.reads@[k], self.bounds@) by {
                if k < k_new {
                    assert(self.reads@[k] == before.reads@[k]);
                }
            }
        }
    }
}

} // verus!
