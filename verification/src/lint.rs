//! The style the grammar admits and the convention does not.
use vstd::prelude::*;
use crate::error::Error;
use crate::expr::{children, document_node, entry_exprs, hole_exprs, node_at, Binding, Document, Entry, Expr, ExprKind, Field, Name, Piece};
use crate::names::{chars_of, is_upper};
use crate::resolve::{bound_view, document_pass, lemma_unread_scope_free, lemma_unread_viewed, unread_among, unread_in, viewed, Bound, Resolution};
use crate::span::{Location, Span};
use crate::surface::{field_fault, fields_reading, parse, reads, stops_at_fault, value_stops, well_formed};
use crate::lexer::lexing;
use crate::parser::spells;
use crate::value::{height, Value};
use crate::MAX_DEPTH;
use crate::utf::push_char;
use vstd::string::StringSliceAdditionalSpecFns;
use vstd::multiset::Multiset;

verus! {

broadcast use vstd::seq_lib::to_multiset_insert, vstd::seq_lib::to_multiset_remove;

/// A convention the linter holds a document to.
#[derive(Debug, Clone, Copy, PartialEq, Eq, Hash, Structural)]
pub enum Rule {
    AtomCase,
    IdentCase,
    ImportExtension,
    UnusedBinding,
}

impl Rule {
    /// Every rule, in the order the rules are documented.
    pub const ALL: [Rule; 4] = [Rule::AtomCase, Rule::IdentCase, Rule::ImportExtension, Rule::UnusedBinding];

    /// The name a rule goes by.
    pub fn name(self) -> (name: &'static str)
        ensures
            self == Rule::AtomCase ==> name@ == "atom-case"@,
            self == Rule::IdentCase ==> name@ == "ident-case"@,
            self == Rule::ImportExtension ==> name@ == "import-extension"@,
            self == Rule::UnusedBinding ==> name@ == "unused-binding"@,
    {
        match self {
            Rule::AtomCase => "atom-case",
            Rule::IdentCase => "ident-case",
            Rule::ImportExtension => "import-extension",
            Rule::UnusedBinding => "unused-binding",
        }
    }
}

/// A finding: the rule a spelling breaks, and where it stands.
#[derive(Debug, Clone, PartialEq, Eq)]
pub struct Diagnostic {
    rule: Rule,
    spelling: String,
    span: Span,
}

/// An atom doubles its capitals when two stand together.
pub open spec fn doubles_capitals(s: Seq<char>) -> bool {
    exists|i: int| 0 <= i < s.len() - 1 && #[trigger] is_upper(s[i]) && is_upper(s[i + 1])
}

/// A name breaks snake case when an underscore trails it or two stand together.
pub open spec fn breaks_snake_case(s: Seq<char>) -> bool {
    ||| s.len() > 0 && s.last() == '_'
    ||| exists|i: int| 0 <= i < s.len() - 1 && #[trigger] s[i] == '_' && s[i + 1] == '_'
}

/// The extension an imported path is asked to spell.
pub open spec fn extension() -> Seq<char> {
    seq!['.', 'n', 'u', 'k', 'e']
}

/// Whether a path ends in the extension.
pub open spec fn has_extension(path: Seq<char>) -> bool {
    path.len() >= 5 && path.subrange(path.len() - 5, path.len() as int) == extension()
}

/// What a finding says holds of its spelling.
pub open spec fn warranted(rule: Rule, spelling: Seq<char>) -> bool {
    match rule {
        Rule::AtomCase => doubles_capitals(spelling),
        Rule::IdentCase => breaks_snake_case(spelling),
        Rule::ImportExtension => !has_extension(spelling),
        Rule::UnusedBinding => true,
    }
}

impl Diagnostic {
    pub closed spec fn rule_of(&self) -> Rule {
        self.rule
    }

    pub closed spec fn spelling_of(&self) -> Seq<char> {
        self.spelling@
    }

    pub closed spec fn span_of(&self) -> Span {
        self.span
    }

    pub fn rule(&self) -> (rule: Rule)
        ensures
            rule == self.rule_of(),
    {
        self.rule
    }

    pub fn span(&self) -> (span: Span)
        ensures
            span == self.span_of(),
    {
        self.span
    }

    pub fn spelling(&self) -> (spelling: &str)
        ensures
            spelling@ == self.spelling_of(),
    {
        self.spelling.as_str()
    }

    /// The line and column at which the finding stands in `source`.
    pub fn location(&self, source: &str) -> (at: Location)
        requires
            source.spec_bytes().len() < usize::MAX,
        ensures
            at == crate::span::location_of(source.spec_bytes(), self.span_of().start as int),
    {
        self.span.location(source)
    }

    /// What the finding says, in words.
    pub fn message(&self) -> (text: String)
        ensures
            text@ == message_of(self.rule_of(), self.spelling_of()),
    {
        let mut text = String::new();
        append(&mut text, "`");
        append(&mut text, self.spelling.as_str());
        match self.rule {
            Rule::AtomCase => append(&mut text, "` is an atom, and an atom is spelled in UpperCamelCase: one capital opens a word and no two stand together"),
            Rule::IdentCase => append(&mut text, "` is a name, and a name is spelled in snake_case: one `_` separates two words and none trails or doubles"),
            Rule::ImportExtension => append(&mut text, "` is imported without the `.nuke` extension, which is not required to resolve and is asked for anyway"),
            Rule::UnusedBinding => append(&mut text, "` is bound and never read, so the binding can go"),
        }
        text
    }
}

/// The words a finding says: its spelling quoted, then what its rule asks for.
pub open spec fn message_of(rule: Rule, spelling: Seq<char>) -> Seq<char> {
    "`"@ + spelling + match rule {
        Rule::AtomCase => "` is an atom, and an atom is spelled in UpperCamelCase: one capital opens a word and no two stand together"@,
        Rule::IdentCase => "` is a name, and a name is spelled in snake_case: one `_` separates two words and none trails or doubles"@,
        Rule::ImportExtension => "` is imported without the `.nuke` extension, which is not required to resolve and is asked for anyway"@,
        Rule::UnusedBinding => "` is bound and never read, so the binding can go"@,
    }
}

/// Appends the characters of `more`.
fn append(text: &mut String, more: &str)
    ensures
        final(text)@ == old(text)@ + more@,
{
    let chars = chars_of(more);
    let mut i: usize = 0;
    while i < chars.len()
        invariant
            i <= chars@.len(),
            chars@ == more@,
            text@ == old(text)@ + more@.subrange(0, i as int),
        decreases chars@.len() - i,
    {
        push_char(text, chars[i]);
        i = i + 1;
        assert(more@.subrange(0, i as int) == more@.subrange(0, i - 1).push(chars@[i - 1]));
    }
    assert(more@.subrange(0, chars@.len() as int) == more@);
}

/// Every finding of a list is warranted by its spelling.
pub open spec fn all_warranted(found: Seq<Diagnostic>) -> bool {
    forall|i: int| 0 <= i < found.len() ==> warranted((#[trigger] found[i]).rule_of(), found[i].spelling_of())
}

/// A list of findings stands in source order.
pub open spec fn in_source_order(found: Seq<Diagnostic>) -> bool {
    forall|i: int, j: int| 0 <= i < j < found.len() ==> (#[trigger] found[i]).span_of().start <= (#[trigger] found[j]).span_of().start
}

/// A finding as plain values: the rule, the spelling and where it stands.
pub open spec fn finding(d: Diagnostic) -> (Rule, Seq<char>, Span) {
    (d.rule_of(), d.spelling_of(), d.span_of())
}

/// A run of findings as plain values.
pub open spec fn findings_of(found: Seq<Diagnostic>) -> Seq<(Rule, Seq<char>, Span)> {
    found.map_values(|d: Diagnostic| finding(d))
}

/// What a name at `span` is reported for: snake case it breaks.
pub open spec fn name_findings(spelling: Seq<char>, span: Span) -> Seq<(Rule, Seq<char>, Span)> {
    if breaks_snake_case(spelling) { seq![(Rule::IdentCase, spelling, span)] } else { Seq::empty() }
}

/// What an atom at `span` is reported for: capitals it doubles.
pub open spec fn atom_findings(spelling: Seq<char>, span: Span) -> Seq<(Rule, Seq<char>, Span)> {
    if doubles_capitals(spelling) { seq![(Rule::AtomCase, spelling, span)] } else { Seq::empty() }
}

/// What a call is reported for beyond its name: an import of a path without the extension.
pub open spec fn import_findings(name: Name, operand: Expr) -> Seq<(Rule, Seq<char>, Span)> {
    match operand.kind {
        ExprKind::String(path) => if name.ident@ == seq!['i', 'm', 'p', 'o', 'r', 't'] && !has_extension(path@) {
            seq![(Rule::ImportExtension, path@, operand.span)]
        } else {
            Seq::empty()
        },
        _ => Seq::empty(),
    }
}

/// The style findings of an expression, in the order it spells them: every name that breaks
/// snake case, every atom that doubles its capitals, and every import of a path without the
/// extension.
pub open spec fn style(e: Expr) -> Seq<(Rule, Seq<char>, Span)>
    decreases e, 0nat,
{
    match e.kind {
        ExprKind::Tuple { bindings, fields } => binding_style(bindings@, bindings@.len() as int)
            + field_style(fields@, fields@.len() as int),
        ExprKind::Mapping { bindings, entries } => binding_style(bindings@, bindings@.len() as int)
            + entry_style(entries@, entries@.len() as int),
        ExprKind::List(items) => item_style(items@, items@.len() as int),
        ExprKind::Access { operand, field } => style(*operand) + name_findings(field.ident@, field.span),
        ExprKind::Index { operand, key } => style(*operand) + style(*key),
        ExprKind::Call { name, operand } => name_findings(name.ident@, name.span) + import_findings(name, *operand)
            + style(*operand),
        ExprKind::Interpolation(pieces) => piece_style(pieces@, pieces@.len() as int),
        ExprKind::Reference(ident) => name_findings(ident@, e.span),
        ExprKind::Atom(atom) => atom_findings(atom@, e.span),
        _ => Seq::empty(),
    }
}

/// The style findings of the first `n` bindings: each name, then its value.
pub open spec fn binding_style(bs: Seq<Binding>, n: int) -> Seq<(Rule, Seq<char>, Span)>
    decreases bs, n,
{
    if n <= 0 || n > bs.len() {
        Seq::empty()
    } else {
        binding_style(bs, n - 1) + name_findings(bs[n - 1].name.ident@, bs[n - 1].name.span) + style(bs[n - 1].value)
    }
}

/// The style findings of the first `n` fields: each name, then its value.
pub open spec fn field_style(fs: Seq<Field>, n: int) -> Seq<(Rule, Seq<char>, Span)>
    decreases fs, n,
{
    if n <= 0 || n > fs.len() {
        Seq::empty()
    } else {
        field_style(fs, n - 1) + name_findings(fs[n - 1].name.ident@, fs[n - 1].name.span) + style(fs[n - 1].value)
    }
}

/// The style findings of the first `n` entries: each key, then its value.
pub open spec fn entry_style(es: Seq<Entry>, n: int) -> Seq<(Rule, Seq<char>, Span)>
    decreases es, n,
{
    if n <= 0 || n > es.len() { Seq::empty() } else { entry_style(es, n - 1) + style(es[n - 1].key) + style(es[n - 1].value) }
}

/// The style findings of the first `n` items.
pub open spec fn item_style(items: Seq<Expr>, n: int) -> Seq<(Rule, Seq<char>, Span)>
    decreases items, n,
{
    if n <= 0 || n > items.len() { Seq::empty() } else { item_style(items, n - 1) + style(items[n - 1]) }
}

/// The style findings of the holes among the first `n` pieces.
pub open spec fn piece_style(pieces: Seq<Piece>, n: int) -> Seq<(Rule, Seq<char>, Span)>
    decreases pieces, n,
{
    if n <= 0 || n > pieces.len() {
        Seq::empty()
    } else {
        piece_style(pieces, n - 1) + match pieces[n - 1] {
            Piece::Hole { expr, .. } => style(expr),
            Piece::Text(_) => Seq::empty(),
        }
    }
}

/// The style findings of a document: its bindings, then its value.
pub open spec fn document_style(document: Document) -> Seq<(Rule, Seq<char>, Span)> {
    binding_style(document.bindings@, document.bindings@.len() as int) + style(document.value)
}

/// Bindings reported unused.
pub open spec fn unused_findings(bounds: Seq<(Seq<char>, Span)>) -> Seq<(Rule, Seq<char>, Span)> {
    bounds.map_values(|b: (Seq<char>, Span)| (Rule::UnusedBinding, b.0, b.1))
}

/// Every finding of a document: its style findings, then each binding no name reads.
pub open spec fn document_findings(document: Document) -> Seq<(Rule, Seq<char>, Span)> {
    document_style(document) + unused_findings(unread_in(document_pass(document), document_pass(document).bounds.len() as int))
}

/// Whether `found` are a document's findings, each once, in source order.
pub open spec fn lints(document: Document, found: Seq<Diagnostic>) -> bool {
    &&& all_warranted(found)
    &&& in_source_order(found)
    &&& findings_of(found).to_multiset() == document_findings(document).to_multiset()
}

/// A run holds what its first part holds.
proof fn lemma_has_left<A>(a: Seq<A>, b: Seq<A>, x: A)
    requires
        a.contains(x),
    ensures
        (a + b).contains(x),
{
    let i = choose|i: int| 0 <= i < a.len() && a[i] == x;
    assert((a + b)[i] == x);
}

/// A run holds what its second part holds.
proof fn lemma_has_right<A>(a: Seq<A>, b: Seq<A>, x: A)
    requires
        b.contains(x),
    ensures
        (a + b).contains(x),
{
    let i = choose|i: int| 0 <= i < b.len() && b[i] == x;
    assert((a + b)[a.len() + i] == x);
}

proof fn lemma_binding_style_has(bs: Seq<Binding>, n: int, k: int, f: (Rule, Seq<char>, Span))
    requires
        0 <= k < n <= bs.len(),
        style(bs[k].value).contains(f),
    ensures
        binding_style(bs, n).contains(f),
    decreases n,
{
    let head = binding_style(bs, n - 1) + name_findings(bs[n - 1].name.ident@, bs[n - 1].name.span);
    if k == n - 1 {
        lemma_has_right(head, style(bs[n - 1].value), f);
    } else {
        lemma_binding_style_has(bs, n - 1, k, f);
        lemma_has_left(binding_style(bs, n - 1), name_findings(bs[n - 1].name.ident@, bs[n - 1].name.span), f);
        lemma_has_left(head, style(bs[n - 1].value), f);
    }
}

proof fn lemma_field_style_has(fs: Seq<Field>, n: int, k: int, f: (Rule, Seq<char>, Span))
    requires
        0 <= k < n <= fs.len(),
        style(fs[k].value).contains(f),
    ensures
        field_style(fs, n).contains(f),
    decreases n,
{
    let head = field_style(fs, n - 1) + name_findings(fs[n - 1].name.ident@, fs[n - 1].name.span);
    if k == n - 1 {
        lemma_has_right(head, style(fs[n - 1].value), f);
    } else {
        lemma_field_style_has(fs, n - 1, k, f);
        lemma_has_left(field_style(fs, n - 1), name_findings(fs[n - 1].name.ident@, fs[n - 1].name.span), f);
        lemma_has_left(head, style(fs[n - 1].value), f);
    }
}

proof fn lemma_item_style_has(xs: Seq<Expr>, n: int, k: int, f: (Rule, Seq<char>, Span))
    requires
        0 <= k < n <= xs.len(),
        style(xs[k]).contains(f),
    ensures
        item_style(xs, n).contains(f),
    decreases n,
{
    if k == n - 1 {
        lemma_has_right(item_style(xs, n - 1), style(xs[n - 1]), f);
    } else {
        lemma_item_style_has(xs, n - 1, k, f);
        lemma_has_left(item_style(xs, n - 1), style(xs[n - 1]), f);
    }
}

proof fn lemma_entry_style_has(es: Seq<Entry>, n: int, k: int, f: (Rule, Seq<char>, Span))
    requires
        0 <= n <= es.len(),
        0 <= k < entry_exprs(es, n).len(),
        style(entry_exprs(es, n)[k]).contains(f),
    ensures
        entry_style(es, n).contains(f),
        entry_exprs(es, n).len() == 2 * n,
    decreases n,
{
    if n > 0 {
        let before = entry_exprs(es, n - 1);
        if k < before.len() {
            assert(entry_exprs(es, n)[k] == before[k]);
            lemma_entry_style_has(es, n - 1, k, f);
            lemma_has_left(entry_style(es, n - 1), style(es[n - 1].key), f);
            lemma_has_left(entry_style(es, n - 1) + style(es[n - 1].key), style(es[n - 1].value), f);
        } else {
            lemma_entry_exprs_len(es, n - 1);
            if k == before.len() {
                assert(entry_exprs(es, n)[k] == es[n - 1].key);
                lemma_has_right(entry_style(es, n - 1), style(es[n - 1].key), f);
                lemma_has_left(entry_style(es, n - 1) + style(es[n - 1].key), style(es[n - 1].value), f);
            } else {
                assert(entry_exprs(es, n)[k] == es[n - 1].value);
                lemma_has_right(entry_style(es, n - 1) + style(es[n - 1].key), style(es[n - 1].value), f);
            }
        }
        lemma_entry_exprs_len(es, n);
    }
}

proof fn lemma_entry_exprs_len(es: Seq<Entry>, n: int)
    requires
        0 <= n <= es.len(),
    ensures
        entry_exprs(es, n).len() == 2 * n,
    decreases n,
{
    if n > 0 {
        lemma_entry_exprs_len(es, n - 1);
    }
}

proof fn lemma_piece_style_has(ps: Seq<Piece>, n: int, k: int, f: (Rule, Seq<char>, Span))
    requires
        0 <= n <= ps.len(),
        0 <= k < hole_exprs(ps, n).len(),
        style(hole_exprs(ps, n)[k]).contains(f),
    ensures
        piece_style(ps, n).contains(f),
    decreases n,
{
    if n > 0 {
        let before = hole_exprs(ps, n - 1);
        let tail: Seq<(Rule, Seq<char>, Span)> = match ps[n - 1] {
            Piece::Hole { expr, .. } => style(expr),
            Piece::Text(_) => Seq::empty(),
        };
        if k < before.len() {
            assert(hole_exprs(ps, n)[k] == before[k]);
            lemma_piece_style_has(ps, n - 1, k, f);
            lemma_has_left(piece_style(ps, n - 1), tail, f);
        } else {
            match ps[n - 1] {
                Piece::Hole { expr, .. } => {
                    assert(hole_exprs(ps, n)[k] == expr);
                    lemma_has_right(piece_style(ps, n - 1), tail, f);
                },
                Piece::Text(_) => {
                    assert(hole_exprs(ps, n) =~= before);
                },
            }
        }
    }
}

/// What an expression's child is reported for, the expression is reported for.
proof fn lemma_style_child(e: Expr, k: int, f: (Rule, Seq<char>, Span))
    requires
        0 <= k < children(e).len(),
        style(children(e)[k]).contains(f),
    ensures
        style(e).contains(f),
{
    match e.kind {
        ExprKind::Tuple { bindings, fields } => {
            let bv = bindings@.map_values(|b: Binding| b.value);
            let a = binding_style(bindings@, bindings@.len() as int);
            let b = field_style(fields@, fields@.len() as int);
            if k < bv.len() {
                assert(children(e)[k] == bindings@[k].value);
                lemma_binding_style_has(bindings@, bindings@.len() as int, k, f);
                lemma_has_left(a, b, f);
            } else {
                assert(children(e)[k] == fields@[k - bv.len()].value);
                lemma_field_style_has(fields@, fields@.len() as int, k - bv.len(), f);
                lemma_has_right(a, b, f);
            }
        },
        ExprKind::Mapping { bindings, entries } => {
            let bv = bindings@.map_values(|b: Binding| b.value);
            let a = binding_style(bindings@, bindings@.len() as int);
            let b = entry_style(entries@, entries@.len() as int);
            if k < bv.len() {
                assert(children(e)[k] == bindings@[k].value);
                lemma_binding_style_has(bindings@, bindings@.len() as int, k, f);
                lemma_has_left(a, b, f);
            } else {
                assert(children(e)[k] == entry_exprs(entries@, entries@.len() as int)[k - bv.len()]);
                lemma_entry_style_has(entries@, entries@.len() as int, k - bv.len(), f);
                lemma_has_right(a, b, f);
            }
        },
        ExprKind::List(items) => {
            lemma_item_style_has(items@, items@.len() as int, k, f);
        },
        ExprKind::Access { operand, field } => {
            lemma_has_left(style(*operand), name_findings(field.ident@, field.span), f);
        },
        ExprKind::Index { operand, key } => {
            if k == 0 {
                lemma_has_left(style(*operand), style(*key), f);
            } else {
                lemma_has_right(style(*operand), style(*key), f);
            }
        },
        ExprKind::Call { name, operand } => {
            lemma_has_right(name_findings(name.ident@, name.span) + import_findings(name, *operand), style(*operand), f);
        },
        ExprKind::Interpolation(pieces) => {
            lemma_piece_style_has(pieces@, pieces@.len() as int, k, f);
        },
        _ => {},
    }
}

/// What a node of an expression is reported for, the expression is reported for.
proof fn lemma_style_node(e: Expr, path: Seq<int>, x: Expr, f: (Rule, Seq<char>, Span))
    requires
        node_at(e, path) == Some(x),
        style(x).contains(f),
    ensures
        style(e).contains(f),
    decreases path.len(),
{
    if path.len() > 0 {
        let c = children(e)[path[0]];
        lemma_style_node(c, path.drop_first(), x, f);
        lemma_style_child(e, path[0], f);
    }
}

/// What a node of a document is reported for is among the document's findings.
proof fn lemma_document_node_findings(document: Document, x: Expr, f: (Rule, Seq<char>, Span))
    requires
        document_node(document, x),
        style(x).contains(f),
    ensures
        document_findings(document).contains(f),
{
    let bs = document.bindings@;
    let a = binding_style(bs, bs.len() as int);
    if exists|path: Seq<int>| #[trigger] node_at(document.value, path) == Some(x) {
        let path = choose|path: Seq<int>| #[trigger] node_at(document.value, path) == Some(x);
        lemma_style_node(document.value, path, x, f);
        lemma_has_right(a, style(document.value), f);
    } else {
        let (i, path) = choose|i: int, path: Seq<int>| 0 <= i < bs.len() && #[trigger] node_at(bs[i].value, path) == Some(x);
        lemma_style_node(bs[i].value, path, x, f);
        lemma_binding_style_has(bs, bs.len() as int, i, f);
        lemma_has_left(a, style(document.value), f);
    }
    lemma_has_left(document_style(document), unused_findings(unread_in(document_pass(document), document_pass(document).bounds.len() as int)), f);
}

/// Law: every atom anywhere in a document (a field's or an item's value, a map's key or
/// value, a binding's value, an operand) whose spelling doubles its capitals is reported, at
/// its own span, among the document's findings.
pub proof fn lemma_every_doubled_atom_is_reported(document: Document, found: Seq<Diagnostic>, x: Expr)
    requires
        lints(document, found),
        document_node(document, x),
        x.kind is Atom,
        doubles_capitals(x.kind->Atom_0@),
    ensures
        exists|i: int| 0 <= i < found.len() && (#[trigger] found[i]).rule_of() == Rule::AtomCase
            && found[i].spelling_of() == x.kind->Atom_0@ && found[i].span_of() == x.span,
{
    let f = (Rule::AtomCase, x.kind->Atom_0@, x.span);
    assert(style(x) == seq![f]);
    assert(style(x)[0] == f);
    lemma_document_node_findings(document, x, f);
    vstd::seq_lib::to_multiset_contains(document_findings(document), f);
    vstd::seq_lib::to_multiset_contains(findings_of(found), f);
    let i = choose|i: int| 0 <= i < findings_of(found).len() && findings_of(found)[i] == f;
    assert(finding(found[i]) == f);
}

/// Lints a surface document. A document that does not parse is refused with the parser's
/// fault, and has no findings.
pub fn lint(source: &str) -> (found: Result<Vec<Diagnostic>, Error>)
    ensures
        found matches Ok(list) ==> exists|document: Document| #[trigger] reads(source.spec_bytes(), document)
            && lints(document, list@),
        forall|v: Value| spells(source.spec_bytes(), v) && height(v) <= MAX_DEPTH + 1 ==> found is Ok,
        found is Ok <==> well_formed(source.spec_bytes()),
        !well_formed(source.spec_bytes()) && (exists|fs: Seq<Field>| #[trigger] stops_at_fault(source.spec_bytes(), fs))
            ==> exists|fs: Seq<Field>| #[trigger] stops_at_fault(source.spec_bytes(), fs)
                && found == Err::<Vec<Diagnostic>, Error>(field_fault(lexing(source.spec_bytes()).0, source.spec_bytes().len() as int,
                    fields_reading(lexing(source.spec_bytes()).0, source.spec_bytes(), fs, fs.len() as int, 0)->Some_0)->0),
        !well_formed(source.spec_bytes()) && (exists|e: Expr| #[trigger] value_stops(source.spec_bytes(), e))
            ==> (found matches Err(err) && err.kind == crate::error::ErrorKind::TrailingInput),
{
    let document = match parse(source) {
        Ok(document) => document,
        Err(error) => return Err(error),
    };
    let list = lint_document(&document);
    let ghost seen = list@;
    proof { assert(reads(source.spec_bytes(), document) && lints(document, seen)); }
    let result: Result<Vec<Diagnostic>, Error> = Ok(list);
    proof { assert(result matches Ok(l) && l@ == seen); }
    result
}

/// The findings of a parsed document, in source order.
pub fn lint_document(document: &Document) -> (found: Vec<Diagnostic>)
    ensures
        lints(*document, found@),
{
    let mut found: Vec<Diagnostic> = Vec::new();
    let mut i: usize = 0;
    while i < document.bindings.len()
        invariant
            i <= document.bindings@.len(),
            all_warranted(found@),
            findings_of(found@) =~= binding_style(document.bindings@, i as int),
        decreases document.bindings@.len() - i,
    {
        named(&mut found, &document.bindings[i].name);
        walk(&mut found, &document.bindings[i].value);
        i = i + 1;
    }
    walk(&mut found, &document.value);
    let ghost styled = findings_of(found@);
    let resolution = Resolution::of(document);
    let unread = resolution.unread();
    let ghost everything = unread_among(&resolution, resolution.bound_seq().len() as int);
    let mut k: usize = 0;
    while k < unread.len()
        invariant
            k <= unread@.len(),
            unread@.len() == everything.len(),
            forall|i: int| 0 <= i < unread@.len() ==> *(#[trigger] unread@[i]) == everything[i],
            all_warranted(found@),
            findings_of(found@) =~= styled + unused_findings(everything.take(k as int).map_values(|b: Bound| bound_view(b))),
        decreases unread@.len() - k,
    {
        let bound = unread[k];
        report(&mut found, Rule::UnusedBinding, bound.ident.as_str(), bound.span);
        proof {
            let before = everything.take(k as int).map_values(|b: Bound| bound_view(b));
            assert(everything.take(k + 1).map_values(|b: Bound| bound_view(b)) =~= before.push(bound_view(everything[k as int])));
            assert(unused_findings(before.push(bound_view(everything[k as int])))
                =~= unused_findings(before).push((Rule::UnusedBinding, bound.ident@, bound.span)));
        }
        k = k + 1;
    }
    proof {
        let n = resolution.bound_seq().len() as int;
        let pass = document_pass(*document);
        assert(styled =~= document_style(*document));
        assert(everything.take(everything.len() as int) =~= everything);
        lemma_unread_viewed(&resolution, n);
        lemma_unread_scope_free(viewed(&resolution), pass, n);
        assert(n == pass.bounds.len());
        assert(findings_of(found@) =~= document_findings(*document));
    }
    let sorted = sort_by_start(found);
    sorted
}

/// Adds a finding.
fn report(found: &mut Vec<Diagnostic>, rule: Rule, spelling: &str, span: Span)
    requires
        all_warranted(old(found)@),
        warranted(rule, spelling@),
    ensures
        all_warranted(final(found)@),
        findings_of(final(found)@) =~= findings_of(old(found)@).push((rule, spelling@, span)),
{
    let ghost before = found@;
    found.push(Diagnostic { rule, spelling: spelling.to_owned(), span });
    proof {
        assert forall|i: int| 0 <= i < found@.len() implies warranted((#[trigger] found@[i]).rule_of(), found@[i].spelling_of()) by {
            if i < before.len() {
                assert(found@[i] == before[i]);
            }
        }
    }
}

/// Finds what breaks a convention in an expression, and in what it holds.
#[verifier::loop_isolation(false)]
#[verifier::rlimit(60)]
fn walk(found: &mut Vec<Diagnostic>, e: &Expr)
    requires
        all_warranted(old(found)@),
    ensures
        all_warranted(final(found)@),
        findings_of(final(found)@) =~= findings_of(old(found)@) + style(*e),
    decreases *e,
{
    let ghost start = findings_of(found@);
    match &e.kind {
        ExprKind::Tuple { bindings, fields } => {
            let mut i: usize = 0;
            while i < bindings.len()
                invariant
                    i <= bindings@.len(),
                    all_warranted(found@),
                    findings_of(found@) =~= start + binding_style(bindings@, i as int),
                decreases bindings@.len() - i,
            {
                proof { assert(decreases_to!(*e => bindings@[i as int].value)); }
                named(found, &bindings[i].name);
                walk(found, &bindings[i].value);
                i = i + 1;
            }
            let ghost mid = findings_of(found@);
            let mut j: usize = 0;
            while j < fields.len()
                invariant
                    j <= fields@.len(),
                    all_warranted(found@),
                    findings_of(found@) =~= mid + field_style(fields@, j as int),
                decreases fields@.len() - j,
            {
                proof { assert(decreases_to!(*e => fields@[j as int].value)); }
                named(found, &fields[j].name);
                walk(found, &fields[j].value);
                j = j + 1;
            }
        },
        ExprKind::Mapping { bindings, entries } => {
            let mut i: usize = 0;
            while i < bindings.len()
                invariant
                    i <= bindings@.len(),
                    all_warranted(found@),
                    findings_of(found@) =~= start + binding_style(bindings@, i as int),
                decreases bindings@.len() - i,
            {
                proof { assert(decreases_to!(*e => bindings@[i as int].value)); }
                named(found, &bindings[i].name);
                walk(found, &bindings[i].value);
                i = i + 1;
            }
            let ghost mid = findings_of(found@);
            let mut j: usize = 0;
            while j < entries.len()
                invariant
                    j <= entries@.len(),
                    all_warranted(found@),
                    findings_of(found@) =~= mid + entry_style(entries@, j as int),
                decreases entries@.len() - j,
            {
                proof {
                    assert(decreases_to!(*e => entries@[j as int].key));
                    assert(decreases_to!(*e => entries@[j as int].value));
                }
                walk(found, &entries[j].key);
                walk(found, &entries[j].value);
                j = j + 1;
            }
        },
        ExprKind::List(items) => {
            let mut j: usize = 0;
            while j < items.len()
                invariant
                    j <= items@.len(),
                    all_warranted(found@),
                    findings_of(found@) =~= start + item_style(items@, j as int),
                decreases items@.len() - j,
            {
                proof { assert(decreases_to!(*e => items@[j as int])); }
                walk(found, &items[j]);
                j = j + 1;
            }
        },
        ExprKind::Access { operand, field } => {
            walk(found, operand);
            named(found, field);
        },
        ExprKind::Index { operand, key } => {
            walk(found, operand);
            walk(found, key);
        },
        ExprKind::Call { name, operand } => {
            named(found, name);
            imported(found, name, operand);
            walk(found, operand);
        },
        ExprKind::Interpolation(pieces) => {
            let mut j: usize = 0;
            while j < pieces.len()
                invariant
                    j <= pieces@.len(),
                    all_warranted(found@),
                    findings_of(found@) =~= start + piece_style(pieces@, j as int),
                decreases pieces@.len() - j,
            {
                if let Piece::Hole { expr, spec: _ } = &pieces[j] {
                    proof { assert(decreases_to!(*e => pieces@[j as int])); }
                    walk(found, expr);
                }
                j = j + 1;
            }
        },
        ExprKind::Reference(ident) => ident_case(found, ident.as_str(), e.span),
        ExprKind::Atom(atom) => atom_case(found, atom.as_str(), e.span),
        _ => {},
    }
}

fn named(found: &mut Vec<Diagnostic>, name: &Name)
    requires
        all_warranted(old(found)@),
    ensures
        all_warranted(final(found)@),
        findings_of(final(found)@) =~= findings_of(old(found)@) + name_findings(name.ident@, name.span),
{
    ident_case(found, name.ident.as_str(), name.span);
}

/// Reports an atom whose capitals stand together.
fn atom_case(found: &mut Vec<Diagnostic>, spelling: &str, span: Span)
    requires
        all_warranted(old(found)@),
    ensures
        all_warranted(final(found)@),
        findings_of(final(found)@) =~= findings_of(old(found)@) + atom_findings(spelling@, span),
{
    let chars = chars_of(spelling);
    let n = chars.len();
    let mut i: usize = 0;
    let mut doubled = false;
    while i < n && i + 1 < n
        invariant
            chars@ == spelling@,
            n == chars@.len(),
            i <= n,
            n == 0 || i <= n - 1,
            doubled == exists|k: int| 0 <= k < i && #[trigger] is_upper(chars@[k]) && is_upper(chars@[k + 1]),
        decreases n - i,
    {
        if 'A' <= chars[i] && chars[i] <= 'Z' && 'A' <= chars[i + 1] && chars[i + 1] <= 'Z' {
            assert(is_upper(chars@[i as int]) && is_upper(chars@[i + 1]));
            doubled = true;
        }
        i = i + 1;
    }
    proof {
        if doubles_capitals(spelling@) {
            let k = choose|k: int| 0 <= k < spelling@.len() - 1 && #[trigger] is_upper(spelling@[k]) && is_upper(spelling@[k + 1]);
            assert(is_upper(chars@[k]) && is_upper(chars@[k + 1]));
        }
        if doubled {
            let k = choose|k: int| 0 <= k < i && #[trigger] is_upper(chars@[k]) && is_upper(chars@[k + 1]);
            assert(0 <= k < spelling@.len() - 1);
            assert(is_upper(spelling@[k]) && is_upper(spelling@[k + 1]));
            assert(doubles_capitals(spelling@));
        }
    }
    if doubled {
        report(found, Rule::AtomCase, spelling, span);
    }
}

/// Reports a name whose underscores trail or double.
fn ident_case(found: &mut Vec<Diagnostic>, spelling: &str, span: Span)
    requires
        all_warranted(old(found)@),
    ensures
        all_warranted(final(found)@),
        findings_of(final(found)@) =~= findings_of(old(found)@) + name_findings(spelling@, span),
{
    let chars = chars_of(spelling);
    let n = chars.len();
    let mut broken = n > 0 && chars[n - 1] == '_';
    let mut i: usize = 0;
    while i < n && i + 1 < n
        invariant
            chars@ == spelling@,
            n == chars@.len(),
            i <= n,
            n == 0 || i <= n - 1,
            broken == ((n > 0 && chars@[n - 1] == '_')
                || exists|k: int| 0 <= k < i && #[trigger] chars@[k] == '_' && chars@[k + 1] == '_'),
        decreases n - i,
    {
        if chars[i] == '_' && chars[i + 1] == '_' {
            assert(chars@[i as int] == '_' && chars@[i + 1] == '_');
            broken = true;
        }
        i = i + 1;
    }
    proof {
        if exists|k: int| 0 <= k < spelling@.len() - 1 && #[trigger] spelling@[k] == '_' && spelling@[k + 1] == '_' {
            let k = choose|k: int| 0 <= k < spelling@.len() - 1 && #[trigger] spelling@[k] == '_' && spelling@[k + 1] == '_';
            assert(chars@[k] == '_' && chars@[k + 1] == '_');
        }
        if broken {
            if n > 0 && chars@[n - 1] == '_' {
                assert(spelling@.last() == '_');
            } else {
                let k = choose|k: int| 0 <= k < i && #[trigger] chars@[k] == '_' && chars@[k + 1] == '_';
                assert(0 <= k < spelling@.len() - 1);
                assert(spelling@[k] == '_' && spelling@[k + 1] == '_');
            }
            assert(breaks_snake_case(spelling@));
        }
    }
    if broken {
        report(found, Rule::IdentCase, spelling, span);
    }
}

/// Whether a path ends in the extension.
fn ends_with_extension(path: &str) -> (ends: bool)
    ensures
        ends == has_extension(path@),
{
    let chars = chars_of(path);
    let n = chars.len();
    if n < 5 {
        return false;
    }
    let ends = chars[n - 5] == '.' && chars[n - 4] == 'n' && chars[n - 3] == 'u' && chars[n - 2] == 'k' && chars[n - 1] == 'e';
    proof {
        let tail = path@.subrange(n - 5, n as int);
        if ends {
            assert(tail =~= extension());
        } else {
            assert(tail != extension()) by {
                if tail == extension() {
                    assert(tail[0] == '.' && tail[1] == 'n' && tail[2] == 'u' && tail[3] == 'k' && tail[4] == 'e');
                }
            }
        }
    }
    ends
}

/// Whether a name is the import builtin's.
fn is_import(name: &Name) -> (is: bool)
    ensures
        is == (name.ident@ == seq!['i', 'm', 'p', 'o', 'r', 't']),
{
    let chars = chars_of(name.ident.as_str());
    let is = chars.len() == 6 && chars[0] == 'i' && chars[1] == 'm' && chars[2] == 'p' && chars[3] == 'o'
        && chars[4] == 'r' && chars[5] == 't';
    proof {
        if is {
            assert(chars@ =~= seq!['i', 'm', 'p', 'o', 'r', 't']);
        } else if chars@ == seq!['i', 'm', 'p', 'o', 'r', 't'] {
            assert(chars@[0] == 'i');
        }
    }
    is
}

/// Reports an import whose path does not spell the extension.
fn imported(found: &mut Vec<Diagnostic>, name: &Name, operand: &Expr)
    requires
        all_warranted(old(found)@),
    ensures
        all_warranted(final(found)@),
        findings_of(final(found)@) =~= findings_of(old(found)@) + import_findings(*name, *operand),
{
    if !is_import(name) {
        return;
    }
    if let ExprKind::String(path) = &operand.kind {
        if !ends_with_extension(path.as_str()) {
            report(found, Rule::ImportExtension, path.as_str(), operand.span);
        }
    }
}

/// Orders findings by where they start, keeping the order of those that start together.
fn sort_by_start(found: Vec<Diagnostic>) -> (sorted: Vec<Diagnostic>)
    requires
        all_warranted(found@),
    ensures
        all_warranted(sorted@),
        in_source_order(sorted@),
        sorted@.to_multiset() == found@.to_multiset(),
        findings_of(sorted@).to_multiset() == findings_of(found@).to_multiset(),
{
    let mut rest = found;
    let mut sorted: Vec<Diagnostic> = Vec::new();
    proof {
        broadcast use vstd::multiset::group_multiset_axioms;
        broadcast use vstd::seq_lib::group_to_multiset_ensures;
        assert forall|d: Diagnostic| #[trigger] sorted@.to_multiset().count(d) == 0 by {
            assert(!sorted@.contains(d));
        }
        assert(sorted@.to_multiset() =~= Multiset::empty());
        assert(sorted@.to_multiset().add(rest@.to_multiset()) =~= found@.to_multiset());
        assert(findings_of(sorted@).to_multiset() =~= Multiset::empty());
        assert(findings_of(sorted@).to_multiset().add(findings_of(rest@).to_multiset()) =~= findings_of(found@).to_multiset());
    }
    while rest.len() > 0
        invariant
            all_warranted(rest@),
            all_warranted(sorted@),
            in_source_order(sorted@),
            sorted@.to_multiset().add(rest@.to_multiset()) == found@.to_multiset(),
            findings_of(sorted@).to_multiset().add(findings_of(rest@).to_multiset()) == findings_of(found@).to_multiset(),
        decreases rest@.len(),
    {
        let ghost before_rest = rest@;
        let ghost before_sorted = sorted@;
        let next = rest.remove(0);
        proof {
            broadcast use vstd::seq_lib::group_to_multiset_ensures;
            assert(before_rest[0] == next);
            assert(before_rest.contains(next));
            assert(rest@.to_multiset() == before_rest.to_multiset().remove(next));
            assert(findings_of(rest@) =~= findings_of(before_rest).remove(0));
            assert(findings_of(before_rest)[0] == finding(next));
            assert(findings_of(rest@).to_multiset() == findings_of(before_rest).to_multiset().remove(finding(next)));
        }
        let mut p = sorted.len();
        while p > 0 && sorted[p - 1].span.start > next.span.start
            invariant
                p <= sorted@.len(),
                sorted@ == before_sorted,
                forall|j: int| p <= j < sorted@.len() ==> (#[trigger] sorted@[j]).span.start > next.span.start,
            decreases p,
        {
            p = p - 1;
        }
        sorted.insert(p, next);
        proof {
            assert(sorted@ == before_sorted.insert(p as int, next));
            assert forall|i: int| 0 <= i < sorted@.len() implies warranted((#[trigger] sorted@[i]).rule_of(), sorted@[i].spelling_of()) by {
                if i < p {
                    assert(sorted@[i] == before_sorted[i]);
                } else if i > p {
                    assert(sorted@[i] == before_sorted[i - 1]);
                } else {
                    assert(before_rest[0] == next);
                }
            }
            assert forall|i: int, j: int| 0 <= i < j < sorted@.len() implies (#[trigger] sorted@[i]).span_of().start <= (#[trigger] sorted@[j]).span_of().start by {
                let a = if i < p { before_sorted[i] } else if i == p { next } else { before_sorted[i - 1] };
                let b = if j < p { before_sorted[j] } else if j == p { next } else { before_sorted[j - 1] };
                assert(sorted@[i] == a);
                assert(sorted@[j] == b);
                if i < p && j == p {
                    if p > 0 {
                        assert(before_sorted[i].span_of().start <= before_sorted[p - 1].span_of().start || i == p - 1);
                    }
                } else if i < p && j > p {
                } else if i == p && j > p {
                    assert(before_sorted[j - 1].span.start > next.span.start);
                }
            }
            assert(sorted@.to_multiset() == before_sorted.to_multiset().insert(next));
            broadcast use vstd::multiset::group_multiset_axioms, vstd::seq_lib::group_to_multiset_ensures;
            assert(before_rest.to_multiset().count(next) > 0);
            assert(sorted@.to_multiset().add(rest@.to_multiset()) =~= found@.to_multiset());
            assert(findings_of(sorted@) =~= findings_of(before_sorted).insert(p as int, finding(next)));
            assert(findings_of(sorted@).to_multiset() == findings_of(before_sorted).to_multiset().insert(finding(next)));
            assert(findings_of(before_rest).contains(finding(next)));
            assert(findings_of(before_rest).to_multiset().count(finding(next)) > 0);
            assert(findings_of(sorted@).to_multiset().add(findings_of(rest@).to_multiset()) =~= findings_of(found@).to_multiset());
            assert forall|i: int| 0 <= i < rest@.len() implies warranted((#[trigger] rest@[i]).rule_of(), rest@[i].spelling_of()) by {
                assert(rest@[i] == before_rest[i + 1]);
            }
        }
    }
    sorted
}

} // verus!
