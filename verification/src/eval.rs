//! Reducing a surface document to the canonical value it stands for.
use vstd::prelude::*;
use crate::builtin::Builtin;
use crate::expr::{Binding, Document, Entry, Expr, ExprKind, Field, Name, Piece};
use crate::names::Ident;
use crate::span::{location_of, Location, Span};
use crate::surface;
use crate::surface::{field_fault, fields_reading, reads, stops_at_fault, value_stops, well_formed};
use crate::text;
use crate::text::{append, append_chars, radix_digits, radix_text};
use crate::utf::push_char;
use crate::value::{copy, measure, Mapping, Tuple, Value};
use crate::MAX_DEPTH;
use vstd::string::StringSliceAdditionalSpecFns;
use vstd::utf8::encode_utf8;
use crate::builtin::{concat_name, import_name};
use crate::deps::{binding_literals, document_literals, entry_literals, field_literals, item_literals, literals, piece_literals};
use crate::text::writes;
use crate::value::{capped, count, height, lemma_list_height, lemma_list_member_height, lemma_mapping_height,
    lemma_mapping_lengths, lemma_mapping_member_height, lemma_same_height, lemma_tuple_lengths, lemma_scalar_height, lemma_tuple_height, lemma_tuple_member_height, same};
use crate::value::{
    identical, lemma_count_members, lemma_height_positive, lemma_identical_members_of, lemma_mapping_key_height,
    lemma_same_identical, member_count, members,
};
use crate::lexer::Token;
use crate::parser::{keys_distinct, members_spelling, names_distinct, spelling, spells};
use crate::lexer::lexing;
use crate::surface::{literal, literal_entries, literal_fields, literal_items};

verus! {

/// The most values a reduction may produce, a reference or an import counting every value
/// it brings.
pub const MAX_VALUES: usize = 1048576;

/// The longest string a reduction may build, in bytes.
pub const MAX_BYTES: usize = 1048576;

/// The deepest a chain of imports may reach.
pub const MAX_IMPORTS: usize = 64;

/// Why a document does not reduce.
#[derive(Debug, PartialEq, Eq)]
pub enum ErrorKind {
    Syntax(crate::error::Error),
    Unbound(String),
    NotATuple,
    NoSuchField(String),
    NotKeyed,
    NoSuchKey,
    DuplicateKey,
    TooDeep,
    TooLarge,
    TooLong,
    NoSuchBuiltin(String),
    NotAList,
    NotAString,
    NoText,
    NeedsPrecision,
    UnfitSpec,
    TooWide,
    ExpectedImportPath,
    NoOrigin,
    Unreadable { path: String, cause: String },
    ImportCycle(String),
    ImportsTooDeep,
    Import { path: String, at: Location, cause: Box<Error> },
}

/// A reduction's fault and the span of what raised it.
#[derive(Debug, PartialEq, Eq)]
pub struct Error {
    pub kind: ErrorKind,
    pub span: Span,
}

impl Error {
    pub fn new(kind: ErrorKind, span: Span) -> (error: Error)
        ensures
            error.kind_of() == kind,
            error.span_of() == span,
    {
        Error { kind, span }
    }

    pub open spec fn kind_of(&self) -> ErrorKind {
        self.kind
    }

    pub open spec fn span_of(&self) -> Span {
        self.span
    }

    pub fn kind(&self) -> (kind: &ErrorKind)
        ensures
            *kind == self.kind_of(),
    {
        &self.kind
    }

    pub fn span(&self) -> (span: Span)
        ensures
            span == self.span_of(),
    {
        self.span
    }

    /// The line and column at which the fault stands in `source`.
    pub fn location(&self, source: &str) -> (at: Location)
        requires
            source.spec_bytes().len() < usize::MAX,
        ensures
            at == crate::span::location_of(source.spec_bytes(), self.span_of().start as int),
    {
        self.span.location(source)
    }
}

/// A syntax fault as a reduction's, standing where the parser found it.
pub fn lift(error: crate::error::Error) -> (lifted: Error)
    ensures
        lifted.span_of() == error.span,
        lifted.kind_of() == ErrorKind::Syntax(error),
{
    let span = error.span;
    Error { kind: ErrorKind::Syntax(error), span }
}

/// Parses and reduces a surface document that has no file of its own.
pub fn eval(source: &str) -> (reduced: Result<Value, Error>)
    ensures
        !well_formed(source.spec_bytes()) ==> (reduced matches Err(err) && err.kind_of() is Syntax
            && err.span_of() == err.kind_of()->Syntax_0.span),
        !well_formed(source.spec_bytes()) && (exists|fs: Seq<Field>| #[trigger] stops_at_fault(source.spec_bytes(), fs))
            ==> exists|fs: Seq<Field>| #[trigger] stops_at_fault(source.spec_bytes(), fs) && (reduced matches Err(err)
                && err.kind_of() == ErrorKind::Syntax(field_fault(lexing(source.spec_bytes()).0, source.spec_bytes().len() as int,
                    fields_reading(lexing(source.spec_bytes()).0, source.spec_bytes(), fs, fs.len() as int, 0)->Some_0)->0)),
        !well_formed(source.spec_bytes()) && (exists|e: Expr| #[trigger] value_stops(source.spec_bytes(), e))
            ==> (reduced matches Err(err) && err.kind_of() is Syntax
                && err.kind_of()->Syntax_0.kind == crate::error::ErrorKind::TrailingInput),
        well_formed(source.spec_bytes()) ==> exists|document: Document| #[trigger] reads(source.spec_bytes(), document)
            && reduces(document, reduced),
        forall|v: Value| spells(source.spec_bytes(), v) && height(v) <= MAX_DEPTH + 1 && count(v) <= MAX_VALUES
            ==> (reduced matches Ok(w) && identical(w, v)),
{
    match surface::parse(source) {
        Ok(document) => {
            let reduced = reduce(&document);
            proof {
                assert(reads(source.spec_bytes(), document) && reduces(document, reduced));
                assert forall|v: Value| spells(source.spec_bytes(), v) && height(v) <= MAX_DEPTH + 1 && count(v) <= MAX_VALUES
                    implies (reduced matches Ok(w) && identical(w, v)) by {
                    lemma_literal_document(document, v, reduced, lexing(source.spec_bytes()).0, source.spec_bytes());
                }
            }
            reduced
        },
        Err(error) => Err(lift(error)),
    }
}

/// Reduces a document that has no file of its own, so that it can import nothing.
pub fn reduce(document: &Document) -> (reduced: Result<Value, Error>)
    ensures
        reduces(*document, reduced),
{
    let files = Files { resolved: Vec::new(), sources: Vec::new() };
    let mut reducer = Reducer::new(None, Vec::new(), &files);
    let ghost x = reducer.setting();
    proof { assert(x.open =~= Seq::<Seq<char>>::empty()); }
    let read = reducer.document(document);
    proof {
        let run = choose|run: Run| #[trigger] document_ran(x, fresh(), *document, run) && run.end == reducer.stage() && run.read == read;
        assert(reduction(*document, None, Seq::empty(), files, read, run.end.loaded.map_values(|h: Held| h.name)));
    }
    read
}

/// What reducing a document with no file of its own comes to: it stands nowhere, so that
/// any import in it is refused.
pub open spec fn reduces(document: Document, read: Result<Value, Error>) -> bool {
    exists|files: Files, imported: Seq<Seq<char>>| reduction(document, None, Seq::empty(), files, read, imported)
}

/// The text of an optional string.
pub open spec fn text_of(o: Option<String>) -> Option<Seq<char>> {
    match o {
        Some(s) => Some(s@),
        None => None,
    }
}

/// Where an import leads: the literal a file spells, read against the directory of that
/// file, and the canonical path the host found for it, or why it found none.
#[derive(Debug)]
pub struct Resolved {
    pub origin: String,
    pub literal: String,
    pub path: Result<String, String>,
}

/// A file the host read for an import: its canonical path, the directory it stands in, and
/// its text, or why it could not be read.
#[derive(Debug)]
pub struct Source {
    pub path: String,
    pub parent: Option<String>,
    pub text: Result<String, String>,
}

/// What the host found on disk for the imports a reduction may reach.
#[derive(Debug)]
pub struct Files {
    pub resolved: Vec<Resolved>,
    pub sources: Vec<Source>,
}

impl Files {
    /// Where an import of `literal` from a file in `origin` leads, if the host resolved it.
    fn resolution(&self, origin: &str, literal: &str) -> (found: Option<&Result<String, String>>)
        ensures
            match resolution_at(self.resolved@, origin@, literal@, self.resolved@.len() as int) {
                Some(i) => found == Some(&self.resolved@[i].path),
                None => found is None,
            },
    {
        let mut i: usize = 0;
        while i < self.resolved.len()
            invariant
                i <= self.resolved@.len(),
                resolution_at(self.resolved@, origin@, literal@, i as int) is None,
            decreases self.resolved@.len() - i,
        {
            let entry = &self.resolved[i];
            if crate::names::same_text(entry.origin.as_str(), origin) && crate::names::same_text(entry.literal.as_str(), literal) {
                proof { lemma_resolution_at_stays(self.resolved@, origin@, literal@, i as int + 1, self.resolved@.len() as int); }
                return Some(&entry.path);
            }
            i = i + 1;
        }
        None
    }

    /// The file at a canonical path, if the host read it.
    fn source(&self, path: &str) -> (found: Option<&Source>)
        ensures
            match source_at(self.sources@, path@, self.sources@.len() as int) {
                Some(i) => found == Some(&self.sources@[i]),
                None => found is None,
            },
    {
        let mut i: usize = 0;
        while i < self.sources.len()
            invariant
                i <= self.sources@.len(),
                source_at(self.sources@, path@, i as int) is None,
            decreases self.sources@.len() - i,
        {
            if crate::names::same_text(self.sources[i].path.as_str(), path) {
                proof { lemma_source_at_stays(self.sources@, path@, i as int + 1, self.sources@.len() as int); }
                return Some(&self.sources[i]);
            }
            i = i + 1;
        }
        None
    }
}

/// A reduced document and the files it was read from: its own first, then each import in
/// the order it was first read.
#[derive(Debug)]
pub struct Reduction {
    pub value: Value,
    pub files: Vec<String>,
}

/// Parses and reduces the surface document at a canonical path, standing in `parent`, with
/// the files the host found for its imports.
pub fn eval_at(source: &str, path: &str, parent: Option<String>, files: &Files) -> (reduced: Result<Reduction, Error>)
    ensures
        !well_formed(source.spec_bytes()) ==> (reduced matches Err(err) && err.kind_of() is Syntax
            && err.span_of() == err.kind_of()->Syntax_0.span),
        !well_formed(source.spec_bytes()) && (exists|fs: Seq<Field>| #[trigger] stops_at_fault(source.spec_bytes(), fs))
            ==> exists|fs: Seq<Field>| #[trigger] stops_at_fault(source.spec_bytes(), fs) && (reduced matches Err(err)
                && err.kind_of() == ErrorKind::Syntax(field_fault(lexing(source.spec_bytes()).0, source.spec_bytes().len() as int,
                    fields_reading(lexing(source.spec_bytes()).0, source.spec_bytes(), fs, fs.len() as int, 0)->Some_0)->0)),
        !well_formed(source.spec_bytes()) && (exists|e: Expr| #[trigger] value_stops(source.spec_bytes(), e))
            ==> (reduced matches Err(err) && err.kind_of() is Syntax
                && err.kind_of()->Syntax_0.kind == crate::error::ErrorKind::TrailingInput),
        well_formed(source.spec_bytes()) ==> exists|document: Document| #[trigger] reads(source.spec_bytes(), document)
            && reduced_at(document, path@, text_of(parent), *files, reduced),
        forall|v: Value| spells(source.spec_bytes(), v) && height(v) <= MAX_DEPTH + 1 && count(v) <= MAX_VALUES
            ==> (reduced matches Ok(r) && identical(r.value, v)),
{
    match surface::parse(source) {
        Ok(document) => {
            let ghost origin = text_of(parent);
            let reduced = reduce_at(&document, path, parent, files);
            proof {
                assert(reads(source.spec_bytes(), document) && reduced_at(document, path@, origin, *files, reduced));
                assert forall|v: Value| spells(source.spec_bytes(), v) && height(v) <= MAX_DEPTH + 1 && count(v) <= MAX_VALUES
                    implies (reduced matches Ok(r) && identical(r.value, v)) by {
                    let ts = lexing(source.spec_bytes()).0;
                    match reduced {
                        Ok(r) => {
                            lemma_literal_reduction(document, v, origin, seq![path@], *files, Ok(r.value),
                                r.files@.skip(1).map_values(|f: String| f@), ts, source.spec_bytes());
                        },
                        Err(err) => {
                            let imported = choose|imported: Seq<Seq<char>>| reduction(document, origin, seq![path@], *files, Err(err), imported);
                            lemma_literal_reduction(document, v, origin, seq![path@], *files, Err(err), imported, ts, source.spec_bytes());
                        },
                    }
                }
            }
            reduced
        },
        Err(error) => Err(lift(error)),
    }
}

/// Reduces the document at a canonical path, standing in `parent`, with the files the host
/// found for its imports.
pub fn reduce_at(document: &Document, path: &str, parent: Option<String>, files: &Files) -> (reduced: Result<Reduction, Error>)
    ensures
        reduced_at(*document, path@, text_of(parent), *files, reduced),
{
    let ghost origin = text_of(parent);
    let mut open: Vec<String> = Vec::new();
    open.push(text::owned(path));
    let mut reducer = Reducer::new(parent, open, files);
    let ghost x = reducer.setting();
    proof { assert(x.open =~= seq![path@]); }
    let read = reducer.document(document);
    let ghost run = choose|run: Run| #[trigger] document_ran(x, fresh(), *document, run) && run.end == reducer.stage() && run.read == read;
    let value = match read {
        Err(err) => {
            proof { assert(reduction(*document, origin, seq![path@], *files, Err(err), run.end.loaded.map_values(|h: Held| h.name))); }
            return Err(err);
        },
        Ok(value) => value,
    };
    let ghost held = reducer.stage().loaded;
    let mut read: Vec<String> = Vec::new();
    read.push(text::owned(path));
    proof { assert(read@.map_values(|f: String| f@) =~= seq![path@] + held.take(0).map_values(|h: Held| h.name)); }
    let mut i: usize = 0;
    while i < reducer.loaded.len()
        invariant
            i <= reducer.loaded@.len(),
            held == reducer.stage().loaded,
            held.len() == reducer.loaded@.len(),
            read@.map_values(|f: String| f@) =~= seq![path@] + held.take(i as int).map_values(|h: Held| h.name),
        decreases reducer.loaded@.len() - i,
    {
        let ghost before = read@.map_values(|f: String| f@);
        read.push(text::owned(reducer.loaded[i].path.as_str()));
        proof {
            let name = reducer.loaded@[i as int].path@;
            let names = held.take(i as int).map_values(|h: Held| h.name);
            assert(read@.map_values(|f: String| f@) =~= before.push(name));
            assert(held[i as int].name == name);
            assert(held.take(i as int + 1).map_values(|h: Held| h.name) =~= names.push(name));
            assert((seq![path@] + names).push(name) =~= seq![path@] + names.push(name));
        }
        i = i + 1;
    }
    proof {
        assert(held.take(held.len() as int) =~= held);
        let whole = read@.map_values(|f: String| f@);
        let names = held.map_values(|h: Held| h.name);
        assert(whole =~= seq![path@] + names);
        assert(read@.len() == names.len() + 1);
        let rest = read@.skip(1).map_values(|f: String| f@);
        assert forall|k: int| 0 <= k < names.len() implies #[trigger] rest[k] == names[k] by {
            assert(whole[k + 1] == read@[k + 1]@);
            assert(whole[k + 1] == names[k]);
        }
        assert(rest =~= names);
        assert(whole[0] == path@);
        assert(reduction(*document, origin, seq![path@], *files, Ok(value), held.map_values(|h: Held| h.name)));
    }
    Ok(Reduction { value, files: read })
}

/// What reducing the document at a canonical path, standing in `parent`, with the files the
/// host found comes to: its value and the files it was read from, its own first and then
/// those its imports read, in the order they were first read; or the fault.
pub open spec fn reduced_at(document: Document, path: Seq<char>, parent: Option<Seq<char>>, files: Files,
    reduced: Result<Reduction, Error>) -> bool {
    match reduced {
        Ok(reduction_read) => reduction_read.files@.len() >= 1 && reduction_read.files@[0]@ == path
            && reduction(document, parent, seq![path], files, Ok(reduction_read.value),
                reduction_read.files@.skip(1).map_values(|f: String| f@)),
        Err(err) => exists|imported: Seq<Seq<char>>| reduction(document, parent, seq![path], files, Err(err), imported),
    }
}

/// The line and column at which an offset stands in a text, for a fault inside an
/// imported file.
fn located(source: &str, span: Span) -> (at: Location)
    ensures
        source.spec_bytes().len() < usize::MAX ==> at == location_of(source.spec_bytes(), span.start as int),
        source.spec_bytes().len() >= usize::MAX ==> at == (Location { line: 1, column: 1 }),
{
    if source.as_bytes().len() < usize::MAX {
        span.location(source)
    } else {
        Location { line: 1, column: 1 }
    }
}

/// An imported file, reduced once, with its value's measure.
struct Loaded {
    path: String,
    value: Value,
    values: usize,
    depth: usize,
}

/// A binding in scope: its name, its value and that value's measure.
struct Bound {
    name: Ident,
    value: Value,
    values: usize,
    depth: usize,
}

struct Reducer<'f> {
    budget: usize,
    scope: Vec<Bound>,
    origin: Option<String>,
    open: Vec<String>,
    loaded: Vec<Loaded>,
    files: &'f Files,
}

/// A value held by name: a binding in scope, or a file already read, with its measure.
pub struct Held {
    pub name: Seq<char>,
    pub value: Value,
    pub values: nat,
    pub reach: nat,
}

/// A value held by name, measured.
pub open spec fn held(name: Seq<char>, value: Value) -> Held {
    Held { name, value, values: capped(count(value)), reach: capped(height(value)) }
}

/// Where a reduction stands between two steps: the budget it has left, the bindings in
/// scope, innermost last, and the files it has read.
pub struct Stage {
    pub budget: int,
    pub scope: Seq<Held>,
    pub loaded: Seq<Held>,
}

/// What stays put while one file is reduced: the directory it stands in, the files being
/// read around it, and what the host found on disk.
pub struct Setting {
    pub origin: Option<Seq<char>>,
    pub open: Seq<Seq<char>>,
    pub files: Files,
}

/// How a reduction went: the stage it left and what it read, how the reductions it made of
/// the bindings it brought into scope and of its parts went, in order, and what each
/// hole's value wrote.
pub struct Run {
    pub end: Stage,
    pub read: Result<Value, Error>,
    pub binds: Seq<Run>,
    pub parts: Seq<Run>,
    pub texts: Seq<Result<String, ErrorKind>>,
    pub docs: Seq<Document>,
}

/// Whether every value a stage holds by name carries its own measure.
pub open spec fn measured(s: Stage) -> bool {
    &&& forall|i: int| 0 <= i < s.scope.len() ==> #[trigger] s.scope[i] == held(s.scope[i].name, s.scope[i].value)
    &&& forall|i: int| 0 <= i < s.loaded.len() ==> #[trigger] s.loaded[i] == held(s.loaded[i].name, s.loaded[i].value)
}

/// Whether `r` is a fault of `kind` at `span`.
pub open spec fn fault<T>(r: Result<T, Error>, kind: ErrorKind, span: Span) -> bool {
    r matches Err(err) && (err.kind == kind && err.span == span)
}

/// Whether `r` is a fault at `span` for a file spelled `literal` that could not be read,
/// for the reason `cause`.
pub open spec fn unreadable<T>(r: Result<T, Error>, literal: Seq<char>, cause: Seq<char>, span: Span) -> bool {
    r matches Err(err) && (err.span == span
        && (err.kind matches ErrorKind::Unreadable { path, cause: why } && path@ == literal && why@ == cause))
}

/// The reason a path the host found nothing at is unreadable.
pub open spec fn not_found() -> Seq<char> {
    seq!['e', 'n', 't', 'i', 't', 'y', ' ', 'n', 'o', 't', ' ', 'f', 'o', 'u', 'n', 'd']
}

/// Why paying `values` for a value `reach` levels deep, landing `depth` levels down, is
/// refused: it would nest too deep, or the budget does not hold it.
pub open spec fn overdrawn(s: Stage, values: int, reach: int, depth: int) -> Option<ErrorKind> {
    if depth + reach > MAX_DEPTH {
        Some(ErrorKind::TooDeep)
    } else if values > s.budget {
        Some(ErrorKind::TooLarge)
    } else {
        None
    }
}

/// The stage a payment of `values` leaves.
pub open spec fn paid(s: Stage, values: int) -> Stage {
    Stage { budget: s.budget - values, scope: s.scope, loaded: s.loaded }
}

/// The stage with its scope cut back to the first `frame` bindings.
pub open spec fn cut(s: Stage, frame: int) -> Stage {
    Stage { budget: s.budget, scope: s.scope.take(frame), loaded: s.loaded }
}

/// The stage with a name bound to a value, innermost.
pub open spec fn bring(s: Stage, name: Seq<char>, value: Value) -> Stage {
    Stage { budget: s.budget, scope: s.scope.push(held(name, value)), loaded: s.loaded }
}

/// Whether a run that made one value from stage `s` at `span` paid for it: it ends past the
/// payment and read a value of which `shape` holds, or the budget refused it.
pub open spec fn made(s: Stage, span: Span, run: Run, shape: bool) -> bool {
    match overdrawn(s, 1, 0, 0) {
        Some(kind) => run.end == s && fault(run.read, kind, span),
        None => run.end == paid(s, 1) && run.read is Ok && shape,
    }
}

/// Whether a run charged for a value brought in whole and handed over a copy of it.
pub open spec fn charged_copy(s: Stage, brought: Held, span: Span, depth: int, run: Run) -> bool {
    match overdrawn(s, brought.values as int, brought.reach as int, depth) {
        Some(kind) => run.end == s && fault(run.read, kind, span),
        None => run.end == paid(s, brought.values as int) && (run.read matches Ok(v) && same(v, brought.value)),
    }
}

/// Where the innermost of the first `n` bindings of a name stands.
pub open spec fn innermost(scope: Seq<Held>, name: Seq<char>, n: int) -> Option<int>
    decreases n,
{
    if n <= 0 {
        None
    } else if scope[n - 1].name == name {
        Some(n - 1)
    } else {
        innermost(scope, name, n - 1)
    }
}

/// Where the first of the first `n` files already read with a path stands.
pub open spec fn cached_at(loaded: Seq<Held>, path: Seq<char>, n: int) -> Option<int>
    decreases n,
{
    if n <= 0 {
        None
    } else {
        match cached_at(loaded, path, n - 1) {
            Some(k) => Some(k),
            None => if loaded[n - 1].name == path { Some(n - 1) } else { None },
        }
    }
}

/// Where the first of the first `n` resolutions for a literal read from a directory stands.
pub open spec fn resolution_at(resolved: Seq<Resolved>, origin: Seq<char>, literal: Seq<char>, n: int) -> Option<int>
    decreases n,
{
    if n <= 0 {
        None
    } else {
        match resolution_at(resolved, origin, literal, n - 1) {
            Some(k) => Some(k),
            None => if resolved[n - 1].origin@ == origin && resolved[n - 1].literal@ == literal { Some(n - 1) } else { None },
        }
    }
}

/// Where the first of the first `n` files the host read with a path stands.
pub open spec fn source_at(sources: Seq<Source>, path: Seq<char>, n: int) -> Option<int>
    decreases n,
{
    if n <= 0 {
        None
    } else {
        match source_at(sources, path, n - 1) {
            Some(k) => Some(k),
            None => if sources[n - 1].path@ == path { Some(n - 1) } else { None },
        }
    }
}

/// The position a list's key names, below `len`: a non-negative integer that an `i64`
/// holds.
pub open spec fn position_of(key: Value, len: int) -> Option<int> {
    match key {
        Value::Integer(n) => {
            let v = crate::number::integer_value(n@);
            if 0 <= v && v < len && v <= i64::MAX { Some(v) } else { None }
        },
        _ => None,
    }
}

/// A tuple's names and values once a field is set: a name it has keeps its place and takes
/// the value, a new one comes last.
pub open spec fn set_field(names: Seq<Seq<char>>, values: Seq<Value>, name: Seq<char>, value: Value) -> (Seq<Seq<char>>, Seq<Value>) {
    if exists|i: int| 0 <= i < names.len() && names[i] == name {
        let i = choose|i: int| 0 <= i < names.len() && names[i] == name;
        (names, values.update(i, value))
    } else {
        (names.push(name), values.push(value))
    }
}

/// The text of the first `n` of a list's values joined, with its length in bytes, or why
/// they do not join: one is not a string, or together they pass the longest string.
pub open spec fn joined(parts: Seq<Value>, n: int) -> Result<(Seq<char>, int), ErrorKind>
    decreases n,
{
    if n <= 0 {
        Ok((Seq::empty(), 0))
    } else {
        match joined(parts, n - 1) {
            Err(kind) => Err(kind),
            Ok(text) => match parts[n - 1] {
                Value::String(part) => if encode_utf8(part@).len() > MAX_BYTES - text.1 {
                    Err(ErrorKind::TooLong)
                } else {
                    Ok((text.0 + part@, text.1 + encode_utf8(part@).len()))
                },
                _ => Err(ErrorKind::NotAString),
            },
        }
    }
}

/// Whether `run` reduced `e`, standing `depth` levels down, from stage `s`.
pub open spec fn yields(x: Setting, s: Stage, e: Expr, depth: int, run: Run) -> bool
    decreases 2 * imports_left(x), e, 1nat,
{
    if depth > MAX_DEPTH {
        run.end == s && fault(run.read, ErrorKind::TooDeep, e.span)
    } else {
        match e.kind {
            ExprKind::Reference(name) => match innermost(s.scope, name@, s.scope.len() as int) {
                None => run.end == s && (run.read matches Err(err)
                    && (err.span == e.span && (err.kind matches ErrorKind::Unbound(n) && n@ == name@))),
                Some(k) => charged_copy(s, s.scope[k], e.span, depth, run),
            },
            ExprKind::Tuple { bindings, fields } => {
                &&& bindings_run(x, s, bindings@, depth, run.binds)
                &&& if !all_bound(bindings@, run.binds) {
                    run.parts.len() == 0 && run.end == run.binds.last().end && run.read == run.binds.last().read
                } else {
                    match fields_fold(x, binding_stage(s, bindings@, run.binds, run.binds.len() as int), fields@, depth + 1,
                        run.parts, fields@.len() as int) {
                        None => false,
                        Some((f, q, used)) => used == run.parts.len() && match q {
                            Err(err) => run.end == f && run.read == Err::<Value, Error>(err),
                            Ok(built) => made(cut(f, s.scope.len() as int), e.span, run,
                                run.read matches Ok(Value::Tuple(t)) && t.names() == built.0 && t.values() == built.1),
                        },
                    }
                }
            },
            ExprKind::Mapping { bindings, entries } => {
                &&& bindings_run(x, s, bindings@, depth, run.binds)
                &&& if !all_bound(bindings@, run.binds) {
                    run.parts.len() == 0 && run.end == run.binds.last().end && run.read == run.binds.last().read
                } else {
                    match entries_fold(x, binding_stage(s, bindings@, run.binds, run.binds.len() as int), entries@, depth + 1,
                        run.parts, entries@.len() as int) {
                        None => false,
                        Some((f, q, used)) => used == run.parts.len() && match q {
                            Err(err) => run.end == f && run.read == Err::<Value, Error>(err),
                            Ok(built) => made(cut(f, s.scope.len() as int), e.span, run,
                                run.read matches Ok(Value::Mapping(map)) && map.keys() == built.0 && map.values() == built.1),
                        },
                    }
                }
            },
            ExprKind::List(items) => match items_fold(x, s, items@, depth + 1, run.parts, items@.len() as int) {
                None => false,
                Some((f, q, used)) => used == run.parts.len() && match q {
                    Err(err) => run.end == f && run.read == Err::<Value, Error>(err),
                    Ok(built) => made(f, e.span, run, run.read matches Ok(Value::List(values)) && values@ == built),
                },
            },
            ExprKind::Access { operand, field } => {
                &&& run.parts.len() == 1
                &&& yields(x, s, *operand, depth, run.parts[0])
                &&& run.end == run.parts[0].end
                &&& match run.parts[0].read {
                    Err(err) => run.read == Err::<Value, Error>(err),
                    Ok(Value::Tuple(t)) => if exists|i: int| 0 <= i < t.names().len() && t.names()[i] == field.ident@ {
                        exists|i: int| 0 <= i < t.names().len() && t.names()[i] == field.ident@ && run.read == Ok::<Value, Error>(t.values()[i])
                    } else {
                        run.read matches Err(err) && (err.span == field.span
                            && (err.kind matches ErrorKind::NoSuchField(n) && n@ == field.ident@))
                    },
                    Ok(_) => fault(run.read, ErrorKind::NotATuple, operand.span),
                }
            },
            ExprKind::Index { operand, key } => {
                &&& 1 <= run.parts.len() <= 2
                &&& yields(x, s, *operand, depth, run.parts[0])
                &&& run.end == run.parts.last().end
                &&& match run.parts[0].read {
                    Err(err) => run.parts.len() == 1 && run.read == Err::<Value, Error>(err),
                    Ok(keyed) => run.parts.len() == 2 && yields(x, run.parts[0].end, *key, depth, run.parts[1])
                        && match run.parts[1].read {
                        Err(err) => run.read == Err::<Value, Error>(err),
                        Ok(at) => match keyed {
                            Value::Mapping(map) => if exists|i: int| 0 <= i < map.keys().len() && same(map.keys()[i], at) {
                                exists|i: int| 0 <= i < map.keys().len() && same(map.keys()[i], at)
                                    && (forall|j: int| 0 <= j < i ==> !same(map.keys()[j], at))
                                    && run.read == Ok::<Value, Error>(map.values()[i])
                            } else {
                                fault(run.read, ErrorKind::NoSuchKey, key.span)
                            },
                            Value::List(values) => match position_of(at, values@.len() as int) {
                                Some(i) => run.read == Ok::<Value, Error>(values@[i]),
                                None => fault(run.read, ErrorKind::NoSuchKey, key.span),
                            },
                            _ => fault(run.read, ErrorKind::NotKeyed, operand.span),
                        },
                    },
                }
            },
            ExprKind::Call { name, operand } => if name.ident@ == concat_name() {
                concatenates(x, s, *operand, e.span, depth, run)
            } else if name.ident@ == import_name() {
                imports(x, s, *operand, e.span, depth, run)
            } else {
                run.end == s && (run.read matches Err(err) && (err.span == name.span
                    && (err.kind matches ErrorKind::NoSuchBuiltin(n) && n@ == name.ident@)))
            },
            ExprKind::Interpolation(pieces) => match pieces_fold(x, s, pieces@, depth, e.span, run.parts, run.texts,
                pieces@.len() as int) {
                None => false,
                Some((f, q, used)) => used == run.parts.len() && match q {
                    Err(err) => run.end == f && run.read == Err::<Value, Error>(err),
                    Ok(built) => made(f, e.span, run, run.read matches Ok(Value::String(text)) && text@ == built.0),
                },
            },
            ExprKind::Atom(atom) => made(s, e.span, run, run.read matches Ok(Value::Atom(a)) && a@ == atom@),
            ExprKind::String(text) => made(s, e.span, run, run.read matches Ok(Value::String(a)) && a@ == text@),
            ExprKind::Integer(integer) => made(s, e.span, run, run.read matches Ok(Value::Integer(a)) && a@ == integer@),
            ExprKind::Float(float) => made(s, e.span, run, run.read matches Ok(Value::Float(a)) && a@ == float@),
        }
    }
}

/// The stage after the first `n` of a run of bindings were read and brought into scope.
pub open spec fn binding_stage(s: Stage, bs: Seq<Binding>, runs: Seq<Run>, n: int) -> Stage {
    if n <= 0 { s } else { bring(runs[n - 1].end, bs[n - 1].name.ident@, runs[n - 1].read->Ok_0) }
}

/// Whether the first `n` runs read the first `n` bindings, each with the ones before it in
/// scope, and all of them succeeded.
pub open spec fn bindings_ran(x: Setting, s: Stage, bs: Seq<Binding>, depth: int, runs: Seq<Run>, n: int) -> bool
    decreases 2 * imports_left(x), bs, n,
{
    if n <= 0 {
        true
    } else if n > bs.len() || n > runs.len() {
        false
    } else {
        bindings_ran(x, s, bs, depth, runs, n - 1) && yields(x, binding_stage(s, bs, runs, n - 1), bs[n - 1].value, depth, runs[n - 1])
            && runs[n - 1].read is Ok
    }
}

/// Whether `runs` read a block's bindings in order, all of them or up to the first that
/// failed.
pub open spec fn bindings_run(x: Setting, s: Stage, bs: Seq<Binding>, depth: int, runs: Seq<Run>) -> bool
    decreases 2 * imports_left(x), bs, bs.len() + 1,
{
    ||| runs.len() == bs.len() && bindings_ran(x, s, bs, depth, runs, runs.len() as int)
    ||| 0 < runs.len() <= bs.len() && bindings_ran(x, s, bs, depth, runs, runs.len() - 1)
        && yields(x, binding_stage(s, bs, runs, runs.len() - 1), bs[runs.len() - 1].value, depth, runs.last())
        && runs.last().read is Err
}

/// Whether a block's bindings all came into scope.
pub open spec fn all_bound(bs: Seq<Binding>, runs: Seq<Run>) -> bool {
    runs.len() == bs.len() && (runs.len() == 0 || runs.last().read is Ok)
}

/// Where reading the first `n` fields of a tuple from stage `m` with `runs` leaves the
/// reduction: the stage, the names and values so far or the fault, and how many runs it
/// took; `None` where the runs are not those reductions.
pub open spec fn fields_fold(x: Setting, m: Stage, fs: Seq<Field>, depth: int, runs: Seq<Run>, n: int)
    -> Option<(Stage, Result<(Seq<Seq<char>>, Seq<Value>), Error>, int)>
    decreases 2 * imports_left(x), fs, n,
{
    if n <= 0 {
        Some((m, Ok((Seq::empty(), Seq::empty())), 0))
    } else if n > fs.len() {
        None
    } else {
        match fields_fold(x, m, fs, depth, runs, n - 1) {
            None => None,
            Some((p, Err(err), used)) => Some((p, Err(err), used)),
            Some((p, Ok(built), used)) => if 0 <= used < runs.len() && yields(x, p, fs[n - 1].value, depth, runs[used]) {
                match runs[used].read {
                    Err(err) => Some((runs[used].end, Err(err), used + 1)),
                    Ok(v) => Some((runs[used].end, Ok(set_field(built.0, built.1, fs[n - 1].name.ident@, v)), used + 1)),
                }
            } else {
                None
            },
        }
    }
}

/// Where reading the first `n` entries of a map from stage `m` with `runs` leaves the
/// reduction: the stage, the keys and values so far or the fault, a key equal to an
/// earlier one among them, and how many runs it took.
pub open spec fn entries_fold(x: Setting, m: Stage, es: Seq<Entry>, depth: int, runs: Seq<Run>, n: int)
    -> Option<(Stage, Result<(Seq<Value>, Seq<Value>), Error>, int)>
    decreases 2 * imports_left(x), es, n,
{
    if n <= 0 {
        Some((m, Ok((Seq::empty(), Seq::empty())), 0))
    } else if n > es.len() {
        None
    } else {
        match entries_fold(x, m, es, depth, runs, n - 1) {
            None => None,
            Some((p, Err(err), used)) => Some((p, Err(err), used)),
            Some((p, Ok(built), used)) => if 0 <= used < runs.len() && yields(x, p, es[n - 1].key, depth, runs[used]) {
                match runs[used].read {
                    Err(err) => Some((runs[used].end, Err(err), used + 1)),
                    Ok(key) => if used + 1 < runs.len() && yields(x, runs[used].end, es[n - 1].value, depth, runs[used + 1]) {
                        match runs[used + 1].read {
                            Err(err) => Some((runs[used + 1].end, Err(err), used + 2)),
                            Ok(v) => if exists|i: int| 0 <= i < built.0.len() && same(built.0[i], key) {
                                Some((runs[used + 1].end, Err(Error { kind: ErrorKind::DuplicateKey, span: es[n - 1].key.span }), used + 2))
                            } else {
                                Some((runs[used + 1].end, Ok((built.0.push(key), built.1.push(v))), used + 2))
                            },
                        }
                    } else {
                        None
                    },
                }
            } else {
                None
            },
        }
    }
}

/// Where reading the first `n` items of a list from stage `m` with `runs` leaves the
/// reduction: the stage, the values so far or the fault, and how many runs it took.
pub open spec fn items_fold(x: Setting, m: Stage, items: Seq<Expr>, depth: int, runs: Seq<Run>, n: int)
    -> Option<(Stage, Result<Seq<Value>, Error>, int)>
    decreases 2 * imports_left(x), items, n,
{
    if n <= 0 {
        Some((m, Ok(Seq::empty()), 0))
    } else if n > items.len() {
        None
    } else {
        match items_fold(x, m, items, depth, runs, n - 1) {
            None => None,
            Some((p, Err(err), used)) => Some((p, Err(err), used)),
            Some((p, Ok(built), used)) => if 0 <= used < runs.len() && yields(x, p, items[n - 1], depth, runs[used]) {
                match runs[used].read {
                    Err(err) => Some((runs[used].end, Err(err), used + 1)),
                    Ok(v) => Some((runs[used].end, Ok(built.push(v)), used + 1)),
                }
            } else {
                None
            },
        }
    }
}

/// Where reading the first `n` pieces of an interpolation at `span` from stage `m` leaves
/// the reduction, each hole's value read by a run and written as `texts` has it: the
/// stage, the text so far and its length in bytes or the fault, and how many runs it took.
pub open spec fn pieces_fold(x: Setting, m: Stage, pieces: Seq<Piece>, depth: int, span: Span, runs: Seq<Run>,
    texts: Seq<Result<String, ErrorKind>>, n: int) -> Option<(Stage, Result<(Seq<char>, int), Error>, int)>
    decreases 2 * imports_left(x), pieces, n,
{
    if n <= 0 {
        Some((m, Ok((Seq::empty(), 0)), 0))
    } else if n > pieces.len() {
        None
    } else {
        match pieces_fold(x, m, pieces, depth, span, runs, texts, n - 1) {
            None => None,
            Some((p, Err(err), used)) => Some((p, Err(err), used)),
            Some((p, Ok(built), used)) => match pieces[n - 1] {
                Piece::Text(part) => if encode_utf8(part@).len() > MAX_BYTES - built.1 {
                    Some((p, Err(Error { kind: ErrorKind::TooLong, span }), used))
                } else {
                    Some((p, Ok((built.0 + part@, built.1 + encode_utf8(part@).len())), used))
                },
                Piece::Hole { expr, spec } => if 0 <= used < runs.len() && used < texts.len() && yields(x, p, expr, depth, runs[used]) {
                    match runs[used].read {
                        Err(err) => Some((runs[used].end, Err(err), used + 1)),
                        Ok(v) => if writes(v, spec, texts[used]) {
                            match texts[used] {
                                Err(kind) => Some((runs[used].end, Err(Error { kind, span: expr.span }), used + 1)),
                                Ok(part) => if encode_utf8(part@).len() > MAX_BYTES - built.1 {
                                    Some((runs[used].end, Err(Error { kind: ErrorKind::TooLong, span }), used + 1))
                                } else {
                                    Some((runs[used].end, Ok((built.0 + part@, built.1 + encode_utf8(part@).len())), used + 1))
                                },
                            }
                        } else {
                            None
                        },
                    }
                } else {
                    None
                },
            },
        }
    }
}

/// Whether `run` joined the strings of the list an operand reduces to, at `span`.
pub open spec fn concatenates(x: Setting, s: Stage, operand: Expr, span: Span, depth: int, run: Run) -> bool
    decreases 2 * imports_left(x), operand, 2nat,
{
    &&& run.parts.len() == 1
    &&& yields(x, s, operand, depth, run.parts[0])
    &&& match run.parts[0].read {
        Err(err) => run.end == run.parts[0].end && run.read == Err::<Value, Error>(err),
        Ok(Value::List(parts)) => match joined(parts@, parts@.len() as int) {
            Err(kind) => run.end == run.parts[0].end && fault(run.read, kind, if kind == ErrorKind::TooLong { span } else { operand.span }),
            Ok(text) => made(run.parts[0].end, span, run, run.read matches Ok(Value::String(t)) && t@ == text.0),
        },
        Ok(_) => run.end == run.parts[0].end && fault(run.read, ErrorKind::NotAList, operand.span),
    }
}

/// Whether `run` imported the file an operand names, at `span`, `depth` levels down: a
/// file already read is charged where it lands, and one read now is charged once it is
/// read, with what is known of reading it.
pub open spec fn imports(x: Setting, s: Stage, operand: Expr, span: Span, depth: int, run: Run) -> bool
    decreases 2 * imports_left(x), operand, 3nat,
{
    match operand.kind {
        ExprKind::String(literal) => match x.origin {
            None => run.end == s && fault(run.read, ErrorKind::NoOrigin, span),
            Some(origin) => match resolution_at(x.files.resolved@, origin, literal@, x.files.resolved@.len() as int) {
                None => run.end == s && unreadable(run.read, literal@, not_found(), span),
                Some(i) => match x.files.resolved@[i].path {
                    Err(cause) => run.end == s && unreadable(run.read, literal@, cause@, span),
                    Ok(path) => if exists|k: int| 0 <= k < x.open.len() && x.open[k] == path@ {
                        run.end == s && (run.read matches Err(err) && (err.span == span
                            && (err.kind matches ErrorKind::ImportCycle(p) && p@ == path@)))
                    } else {
                        match cached_at(s.loaded, path@, s.loaded.len() as int) {
                            Some(k) => charged_copy(s, s.loaded[k], span, depth, run),
                            None => run.parts.len() == 1 && loading(x, s, path@, literal@, span, run.parts[0])
                                && (x.open.len() < MAX_IMPORTS ==> afresh(x, s, path@, span, run.parts[0]))
                                && match run.parts[0].read {
                                    Err(err) => run.end == run.parts[0].end && run.read == Err::<Value, Error>(err),
                                    Ok(_) => charged_copy(run.parts[0].end, run.parts[0].end.loaded.last(), span, depth, run),
                                },
                        }
                    },
                },
            },
        },
        _ => run.end == s && fault(run.read, ErrorKind::ExpectedImportPath, operand.span),
    }
}

/// How many more files may be opened within one another from a setting.
pub open spec fn imports_left(x: Setting) -> int {
    if x.open.len() < MAX_IMPORTS { MAX_IMPORTS - x.open.len() } else { 0 }
}

/// What reading a file afresh did, where the chain of imports leaves room for it and the
/// host read its text: either the text is not a well-formed document, and the reduction
/// stopped there, or the text spells the document the run read, which was reduced with the file as
/// its origin, nothing in scope and the files read so far, and its value was kept last, or
/// its fault raised at `span` as the import's.
pub open spec fn afresh(x: Setting, s: Stage, path: Seq<char>, span: Span, part: Run) -> bool
    decreases 2 * imports_left(x) - 1, part, 0nat,
{
    if x.open.len() >= MAX_IMPORTS {
        true
    } else {
        match source_at(x.files.sources@, path, x.files.sources@.len() as int) {
            Some(j) => match x.files.sources@[j].text {
                Ok(text) => {
                    let inner = Setting { origin: text_of(x.files.sources@[j].parent), open: x.open.push(path), files: x.files };
                    let start = Stage { budget: s.budget, scope: Seq::empty(), loaded: s.loaded };
                    ||| !well_formed(encode_utf8(text@)) && part.docs.len() == 0 && part.end == s
                    ||| {
                        &&& part.docs.len() == 1
                        &&& part.parts.len() == 1
                        &&& reads(encode_utf8(text@), part.docs[0])
                        &&& document_ran(inner, start, part.docs[0], part.parts[0])
                        &&& part.end.budget == part.parts[0].end.budget
                        &&& part.end.scope == s.scope
                        &&& match part.parts[0].read {
                            Ok(v) => part.read == Ok::<Value, Error>(v) && part.end.loaded == part.parts[0].end.loaded.push(held(path, v)),
                            Err(e) => part.end.loaded == part.parts[0].end.loaded && (part.read matches Err(err) && (err.span == span
                                && (err.kind matches ErrorKind::Import { path: p, cause, .. } && p@ == path && *cause == e))),
                        }
                    }
                },
                Err(_) => true,
            },
            None => true,
        }
    }
}

/// Whether `run` read a file afresh: refused past the deepest chain of imports, or where
/// the host could not read it, and otherwise with what is known of reducing it.
pub open spec fn loading(x: Setting, s: Stage, path: Seq<char>, literal: Seq<char>, span: Span, run: Run) -> bool {
    if x.open.len() >= MAX_IMPORTS {
        run.end == s && fault(run.read, ErrorKind::ImportsTooDeep, span)
    } else {
        match source_at(x.files.sources@, path, x.files.sources@.len() as int) {
            None => run.end == s && unreadable(run.read, literal, not_found(), span),
            Some(j) => match x.files.sources@[j].text {
                Err(cause) => run.end == s && unreadable(run.read, literal, cause@, span),
                Ok(_) => loads(s, path, span, run),
            },
        }
    }
}

/// What is known of reducing a file read afresh: the budget it spends, the scope it leaves
/// as it was, the files read before it kept, and either a fault within the file, raised at
/// `span`, or its value kept last, measured, after the files it imports.
pub open spec fn loads(s: Stage, path: Seq<char>, span: Span, run: Run) -> bool {
    &&& measured(s) ==> measured(run.end)
    &&& run.end.budget <= s.budget
    &&& run.end.scope == s.scope
    &&& run.end.loaded.len() >= s.loaded.len()
    &&& run.end.loaded.take(s.loaded.len() as int) == s.loaded
    &&& match run.read {
        Err(err) => err.span == span && (err.kind matches ErrorKind::Import { path: p, .. } && p@ == path),
        Ok(v) => run.end.loaded.len() > s.loaded.len() && run.end.loaded.last() == held(path, v),
    }
}

/// Whether `run` reduced a document from stage `s`: its bindings, then its value.
pub open spec fn document_ran(x: Setting, s: Stage, document: Document, run: Run) -> bool
    decreases 2 * imports_left(x) + 1, run, 0nat,
{
    &&& bindings_run(x, s, document.bindings@, 0, run.binds)
    &&& if !all_bound(document.bindings@, run.binds) {
        run.parts.len() == 0 && run.end == run.binds.last().end && run.read == run.binds.last().read
    } else {
        &&& run.parts.len() == 1
        &&& yields(x, binding_stage(s, document.bindings@, run.binds, run.binds.len() as int), document.value, 0, run.parts[0])
        &&& run.end == run.parts[0].end
        &&& run.read == run.parts[0].read
    }
}

/// Whether some run reduced `e` from stage `s` to stage `t`, reading `r`.
pub open spec fn reduced(x: Setting, s: Stage, e: Expr, depth: int, t: Stage, r: Result<Value, Error>) -> bool {
    exists|run: Run| #[trigger] yields(x, s, e, depth, run) && run.end == t && run.read == r
}

/// A run that reduced `e` from stage `s` to stage `t`, reading `r`, where one did.
pub open spec fn run_of(x: Setting, s: Stage, e: Expr, depth: int, t: Stage, r: Result<Value, Error>) -> Run {
    choose|run: Run| #[trigger] yields(x, s, e, depth, run) && run.end == t && run.read == r
}

/// The stage a reduction of a file starts from: the whole budget, nothing in scope and
/// nothing read.
pub open spec fn fresh() -> Stage {
    Stage { budget: MAX_VALUES as int, scope: Seq::empty(), loaded: Seq::empty() }
}

/// What reducing a document standing in `origin`, with `open` being read around it and
/// `files` found by the host, comes to: the value or the fault, and the files it read
/// for its imports, in the order they were first read.
pub open spec fn reduction(document: Document, origin: Option<Seq<char>>, open: Seq<Seq<char>>, files: Files,
    read: Result<Value, Error>, imported: Seq<Seq<char>>) -> bool {
    exists|run: Run| #[trigger] document_ran(Setting { origin, open, files }, fresh(), document, run)
        && run.read == read && imported == run.end.loaded.map_values(|h: Held| h.name)
}

/// A binding in scope as the reduction sees it.
spec fn held_bound(b: Bound) -> Held {
    Held { name: b.name@, value: b.value, values: b.values as nat, reach: b.depth as nat }
}

/// A file already read as the reduction sees it.
spec fn held_loaded(l: Loaded) -> Held {
    Held { name: l.path@, value: l.value, values: l.values as nat, reach: l.depth as nat }
}

/// A run that took no steps of its own.
pub open spec fn leaf(t: Stage, r: Result<Value, Error>) -> Run {
    Run { end: t, read: r, binds: Seq::empty(), parts: Seq::empty(), texts: Seq::empty(), docs: Seq::empty() }
}

/// Whether some runs read a block's bindings from stage `s` and left stage `t`, with `r`
/// saying whether they all came into scope or which fault stopped them.
pub open spec fn bound_by(x: Setting, s: Stage, bs: Seq<Binding>, depth: int, t: Stage, r: Result<(), Error>) -> bool {
    exists|runs: Seq<Run>| #[trigger] bindings_run(x, s, bs, depth, runs) && block_end(s, bs, runs, t, r)
}

/// Where runs that read a block's bindings leave the reduction, and how.
pub open spec fn block_end(s: Stage, bs: Seq<Binding>, runs: Seq<Run>, t: Stage, r: Result<(), Error>) -> bool {
    if all_bound(bs, runs) {
        t == binding_stage(s, bs, runs, runs.len() as int) && r is Ok
    } else {
        t == runs.last().end && (runs.last().read matches Err(err) && r == Err::<(), Error>(err))
    }
}

/// Runs that read a block's bindings, where some did.
pub open spec fn binding_runs(x: Setting, s: Stage, bs: Seq<Binding>, depth: int, t: Stage, r: Result<(), Error>) -> Seq<Run> {
    choose|runs: Seq<Run>| #[trigger] bindings_run(x, s, bs, depth, runs) && block_end(s, bs, runs, t, r)
}

impl<'f> Reducer<'f> {
    /// Where this reduction stands.
    spec fn stage(&self) -> Stage {
        Stage {
            budget: self.budget as int,
            scope: self.scope@.map_values(|b: Bound| held_bound(b)),
            loaded: self.loaded@.map_values(|l: Loaded| held_loaded(l)),
        }
    }

    /// What stays put while this file is reduced.
    spec fn setting(&self) -> Setting {
        Setting {
            origin: match self.origin {
                Some(origin) => Some(origin@),
                None => None,
            },
            open: self.open@.map_values(|path: String| path@),
            files: *self.files,
        }
    }

    /// What every step keeps: the setting, a budget that only shrinks, and the files read
    /// before it.
    spec fn keeps(&self, before: &Self) -> bool {
        &&& self.setting() == before.setting()
        &&& self.open@ == before.open@
        &&& self.budget <= before.budget
        &&& self.loaded@.len() >= before.loaded@.len()
        &&& self.stage().loaded.take(before.loaded@.len() as int) =~= before.stage().loaded
        &&& measured(before.stage()) ==> measured(self.stage())
    }

    fn new(origin: Option<String>, open: Vec<String>, files: &'f Files) -> (reducer: Reducer<'f>)
        ensures
            reducer.stage() == fresh(),
            reducer.origin == origin,
            reducer.open@ == open@,
            reducer.files == files,
    {
        let reducer = Reducer { budget: MAX_VALUES, scope: Vec::new(), origin, open, loaded: Vec::new(), files };
        proof {
            assert(reducer.stage().scope =~= Seq::<Held>::empty());
            assert(reducer.stage().loaded =~= Seq::<Held>::empty());
        }
        reducer
    }

    /// Reduces a document: its bindings, then its value.
    fn document(&mut self, document: &Document) -> (read: Result<Value, Error>)
        requires
            old(self).open@.len() <= MAX_IMPORTS,
        ensures
            final(self).keeps(old(self)),
            exists|run: Run| #[trigger] document_ran(old(self).setting(), old(self).stage(), *document, run)
                && run.end == final(self).stage() && run.read == read,
        decreases 2 * (MAX_IMPORTS - old(self).open@.len()) + 1, document.value, 3nat,
    {
        let ghost x = self.setting();
        let ghost s = self.stage();
        let bound = self.bind_all(&document.bindings, 0);
        let ghost m = self.stage();
        let ghost runs = binding_runs(x, s, document.bindings@, 0, m, bound);
        match bound {
            Err(err) => {
                proof {
                    let run = Run { end: m, read: Err(err), binds: runs, parts: Seq::empty(), texts: Seq::empty(), docs: Seq::empty() };
                    assert(document_ran(x, s, *document, run));
                }
                Err(err)
            },
            Ok(()) => {
                let read = self.value(&document.value, 0);
                proof {
                    let part = run_of(x, m, document.value, 0, self.stage(), read);
                    let run = Run { end: self.stage(), read, binds: runs, parts: seq![part], texts: Seq::empty(), docs: Seq::empty() };
                    assert(run.parts[0] == part);
                    assert(document_ran(x, s, *document, run));
                }
                read
            },
        }
    }

    /// Reduces a run of bindings, each with the ones before it in scope, and brings their
    /// names into scope.
    #[verifier::loop_isolation(false)]
    fn bind_all(&mut self, bindings: &Vec<Binding>, depth: usize) -> (bound: Result<(), Error>)
        requires
            old(self).open@.len() <= MAX_IMPORTS,
        ensures
            final(self).keeps(old(self)),
            bound_by(old(self).setting(), old(self).stage(), bindings@, depth as int, final(self).stage(), bound),
            bound is Ok ==> final(self).scope@.len() >= old(self).scope@.len()
                && final(self).scope@.take(old(self).scope@.len() as int) =~= old(self).scope@,
        decreases 2 * (MAX_IMPORTS - old(self).open@.len()), *bindings, 2nat,
    {
        let ghost x = self.setting();
        let ghost s = self.stage();
        let ghost mut runs: Seq<Run> = Seq::empty();
        let mut i: usize = 0;
        while i < bindings.len()
            invariant
                i <= bindings@.len(),
                runs.len() == i,
                self.keeps(old(self)),
                self.setting() == x,
                bindings_ran(x, s, bindings@, depth as int, runs, i as int),
                self.stage() == binding_stage(s, bindings@, runs, i as int),
                self.scope@.len() >= old(self).scope@.len(),
                self.scope@.take(old(self).scope@.len() as int) =~= old(self).scope@,
            decreases bindings@.len() - i,
        {
            proof { assert(decreases_to!(*bindings => bindings@[i as int].value)); }
            let ghost m = self.stage();
            let read = self.value(&bindings[i].value, depth);
            let ghost run = run_of(x, m, bindings@[i as int].value, depth as int, self.stage(), read);
            proof {
                lemma_bindings_ran_prefix(x, s, bindings@, depth as int, runs, runs.push(run), i as int);
                runs = runs.push(run);
            }
            match read {
                Err(err) => {
                    proof {
                        assert(runs.last() == run);
                        assert(binding_stage(s, bindings@, runs, i as int) == m);
                        assert(bindings_run(x, s, bindings@, depth as int, runs));
                        assert(block_end(s, bindings@, runs, self.stage(), Err(err)));
                    }
                    return Err(err);
                },
                Ok(value) => {
                    let ghost f = self.stage();
                    let (values, reach) = measure(&value);
                    let ghost v = value;
                    self.scope.push(Bound { name: bindings[i].name.ident.clone(), value, values, depth: reach });
                    proof {
                        assert(self.stage().scope =~= f.scope.push(held(bindings@[i as int].name.ident@, v)));
                        assert(binding_stage(s, bindings@, runs, i as int) == m);
                        assert(self.stage() == binding_stage(s, bindings@, runs, i as int + 1));
                        assert(bindings_ran(x, s, bindings@, depth as int, runs, i as int + 1));
                    }
                },
            }
            i = i + 1;
        }
        proof {
            assert(bindings_run(x, s, bindings@, depth as int, runs));
            assert(block_end(s, bindings@, runs, self.stage(), Ok(())));
        }
        Ok(())
    }

    /// Takes `values` from the budget.
    fn spend(&mut self, values: usize, span: Span) -> (spent: Result<(), Error>)
        ensures
            final(self).keeps(old(self)),
            final(self).scope@ == old(self).scope@,
            final(self).loaded@ == old(self).loaded@,
            match overdrawn(old(self).stage(), values as int, 0, 0) {
                Some(kind) => final(self).stage() == old(self).stage() && fault(spent, kind, span),
                None => final(self).stage() == paid(old(self).stage(), values as int) && spent is Ok,
            },
    {
        if values > self.budget {
            return Err(Error::new(ErrorKind::TooLarge, span));
        }
        self.budget = self.budget - values;
        Ok(())
    }

    /// Charges for a value that is brought in whole: it must not nest past the limit where it
    /// lands, and it counts against the budget.
    fn charge(&mut self, values: usize, reach: usize, span: Span, depth: usize) -> (charged: Result<(), Error>)
        ensures
            final(self).keeps(old(self)),
            final(self).scope@ == old(self).scope@,
            final(self).loaded@ == old(self).loaded@,
            match overdrawn(old(self).stage(), values as int, reach as int, depth as int) {
                Some(kind) => final(self).stage() == old(self).stage() && fault(charged, kind, span),
                None => final(self).stage() == paid(old(self).stage(), values as int) && charged is Ok,
            },
    {
        if reach > MAX_DEPTH || depth > MAX_DEPTH - reach {
            return Err(Error::new(ErrorKind::TooDeep, span));
        }
        self.spend(values, span)
    }

    /// The value of the innermost binding of a name in scope.
    #[verifier::loop_isolation(false)]
    fn reference(&mut self, name: &Ident, span: Span, depth: usize) -> (read: Result<Value, Error>)
        ensures
            final(self).keeps(old(self)),
            final(self).scope@ == old(self).scope@,
            match innermost(old(self).stage().scope, name@, old(self).stage().scope.len() as int) {
                None => final(self).stage() == old(self).stage() && (read matches Err(err)
                    && (err.span == span && (err.kind matches ErrorKind::Unbound(n) && n@ == name@))),
                Some(k) => charged_copy(old(self).stage(), old(self).stage().scope[k], span, depth as int,
                    leaf(final(self).stage(), read)),
            },
    {
        let ghost held = self.stage().scope;
        let mut at = self.scope.len();
        while at > 0
            invariant
                at <= self.scope@.len(),
                self.budget == old(self).budget,
                self.scope == old(self).scope,
                self.loaded == old(self).loaded,
                self.open == old(self).open,
                self.origin == old(self).origin,
                self.files == old(self).files,
                held == self.stage().scope,
                innermost(held, name@, held.len() as int) == innermost(held, name@, at as int),
            decreases at,
        {
            if self.scope[at - 1].name.same(name) {
                let values = self.scope[at - 1].values;
                let reach = self.scope[at - 1].depth;
                let ghost s = self.stage();
                match self.charge(values, reach, span, depth) {
                    Err(err) => return Err(err),
                    Ok(()) => {},
                }
                let v = copy(&self.scope[at - 1].value);
                proof { assert(self.stage().scope == s.scope); }
                return Ok(v);
            }
            at = at - 1;
        }
        Err(Error::new(ErrorKind::Unbound(text::owned(name.as_str())), span))
    }

    /// Reduces an expression standing `depth` levels down.
    fn value(&mut self, e: &Expr, depth: usize) -> (read: Result<Value, Error>)
        requires
            old(self).open@.len() <= MAX_IMPORTS,
        ensures
            final(self).keeps(old(self)),
            reduced(old(self).setting(), old(self).stage(), *e, depth as int, final(self).stage(), read),
            read is Ok ==> final(self).scope@ == old(self).scope@,
        decreases 2 * (MAX_IMPORTS - old(self).open@.len()), *e, 1nat,
    {
        let ghost x = self.setting();
        let ghost s = self.stage();
        if depth > MAX_DEPTH {
            let err = Error::new(ErrorKind::TooDeep, e.span);
            proof { assert(yields(x, s, *e, depth as int, leaf(s, Err(err)))); }
            return Err(err);
        }
        match &e.kind {
            ExprKind::Reference(name) => {
                let read = self.reference(name, e.span, depth);
                proof { assert(yields(x, s, *e, depth as int, leaf(self.stage(), read))); }
                read
            },
            ExprKind::Tuple { .. } => self.tuple(e, depth),
            ExprKind::Mapping { .. } => self.mapping(e, depth),
            ExprKind::List(_) => self.list(e, depth),
            ExprKind::Access { .. } => self.access(e, depth),
            ExprKind::Index { .. } => self.index(e, depth),
            ExprKind::Call { .. } => self.call(e, depth),
            ExprKind::Interpolation(_) => self.interpolation(e, depth),
            ExprKind::Atom(atom) => {
                match self.spend(1, e.span) {
                    Err(err) => {
                        proof { assert(yields(x, s, *e, depth as int, leaf(s, Err(err)))); }
                        return Err(err);
                    },
                    Ok(()) => {},
                }
                let v = Value::Atom(atom.clone());
                proof { assert(yields(x, s, *e, depth as int, leaf(self.stage(), Ok(v)))); }
                Ok(v)
            },
            ExprKind::String(text) => {
                match self.spend(1, e.span) {
                    Err(err) => {
                        proof { assert(yields(x, s, *e, depth as int, leaf(s, Err(err)))); }
                        return Err(err);
                    },
                    Ok(()) => {},
                }
                let v = Value::String(text.clone());
                proof { assert(yields(x, s, *e, depth as int, leaf(self.stage(), Ok(v)))); }
                Ok(v)
            },
            ExprKind::Integer(integer) => {
                match self.spend(1, e.span) {
                    Err(err) => {
                        proof { assert(yields(x, s, *e, depth as int, leaf(s, Err(err)))); }
                        return Err(err);
                    },
                    Ok(()) => {},
                }
                let v = Value::Integer(integer.clone());
                proof { assert(yields(x, s, *e, depth as int, leaf(self.stage(), Ok(v)))); }
                Ok(v)
            },
            ExprKind::Float(float) => {
                match self.spend(1, e.span) {
                    Err(err) => {
                        proof { assert(yields(x, s, *e, depth as int, leaf(s, Err(err)))); }
                        return Err(err);
                    },
                    Ok(()) => {},
                }
                let v = Value::Float(float.clone());
                proof { assert(yields(x, s, *e, depth as int, leaf(self.stage(), Ok(v)))); }
                Ok(v)
            },
        }
    }

    /// Reduces a tuple: its bindings, then its fields one level down.
    #[verifier::loop_isolation(false)]
    fn tuple(&mut self, e: &Expr, depth: usize) -> (read: Result<Value, Error>)
        requires
            old(self).open@.len() <= MAX_IMPORTS,
            depth <= MAX_DEPTH,
            e.kind is Tuple,
        ensures
            final(self).keeps(old(self)),
            reduced(old(self).setting(), old(self).stage(), *e, depth as int, final(self).stage(), read),
            read is Ok ==> final(self).scope@ == old(self).scope@,
        decreases 2 * (MAX_IMPORTS - old(self).open@.len()), *e, 0nat,
    {
        let (bindings, fields) = match &e.kind {
            ExprKind::Tuple { bindings, fields } => (bindings, fields),
            _ => { return Err(Error::new(ErrorKind::NotATuple, e.span)); },
        };
        let ghost x = self.setting();
        let ghost s = self.stage();
        let frame = self.scope.len();
        let bound = self.bind_all(bindings, depth);
        let ghost m = self.stage();
        let ghost scope_after_bindings = self.scope@;
        let ghost binds = binding_runs(x, s, bindings@, depth as int, m, bound);
        match bound {
            Err(err) => {
                proof {
                    let run = Run { end: m, read: Err(err), binds, parts: Seq::empty(), texts: Seq::empty(), docs: Seq::empty() };
                    assert(yields(x, s, *e, depth as int, run));
                }
                return Err(err);
            },
            Ok(()) => {},
        }
        let mut tuple = Tuple::new();
        proof {
            assert(tuple.names() =~= Seq::<Seq<char>>::empty());
            assert(tuple.values() =~= Seq::<Value>::empty());
        }
        let ghost mut parts: Seq<Run> = Seq::empty();
        let mut j: usize = 0;
        while j < fields.len()
            invariant
                j <= fields@.len(),
                parts.len() == j,
                self.keeps(old(self)),
                self.setting() == x,
                self.open@.len() <= MAX_IMPORTS,
                self.scope@ == scope_after_bindings,
                scope_after_bindings.len() >= frame,
                scope_after_bindings.take(frame as int) =~= old(self).scope@,
                frame == s.scope.len(),
                fields_fold(x, m, fields@, depth + 1, parts, j as int)
                    == Some((self.stage(), Ok::<(Seq<Seq<char>>, Seq<Value>), Error>((tuple.names(), tuple.values())), j as int)),
            decreases fields@.len() - j,
        {
            proof { assert(decreases_to!(*e => fields@[j as int].value)); }
            let ghost p = self.stage();
            let ghost before = (tuple.names(), tuple.values());
            let read = self.value(&fields[j].value, depth + 1);
            let ghost run = run_of(x, p, fields@[j as int].value, depth + 1, self.stage(), read);
            proof {
                lemma_fields_fold_extends(x, m, fields@, depth + 1, parts, parts.push(run), j as int);
                parts = parts.push(run);
            }
            match read {
                Err(err) => {
                    proof {
                        assert(fields_fold(x, m, fields@, depth + 1, parts, j as int + 1) == Some((self.stage(), Err::<(Seq<Seq<char>>, Seq<Value>), Error>(err), j as int + 1)));
                        lemma_fields_fold_stays(x, m, fields@, depth + 1, parts, j as int + 1, fields@.len() as int);
                        let whole = Run { end: self.stage(), read: Err(err), binds, parts, texts: Seq::empty(), docs: Seq::empty() };
                        assert(yields(x, s, *e, depth as int, whole));
                    }
                    return Err(err);
                },
                Ok(value) => {
                    let ghost v = value;
                    tuple.insert(fields[j].name.ident.clone(), value);
                    proof {
                        assert((tuple.names(), tuple.values()) == set_field(before.0, before.1, fields@[j as int].name.ident@, v));
                    }
                },
            }
            j = j + 1;
        }
        let ghost f = self.stage();
        self.scope.truncate(frame);
        proof {
            assert(self.stage().scope =~= f.scope.take(s.scope.len() as int));
            assert(self.stage() == cut(f, s.scope.len() as int));
        }
        let ghost built = (tuple.names(), tuple.values());
        match self.spend(1, e.span) {
            Err(err) => {
                proof {
                    let run = Run { end: self.stage(), read: Err(err), binds, parts, texts: Seq::empty(), docs: Seq::empty() };
                    assert(yields(x, s, *e, depth as int, run));
                }
                Err(err)
            },
            Ok(()) => {
                let v = Value::Tuple(tuple);
                proof {
                    let run = Run { end: self.stage(), read: Ok(v), binds, parts, texts: Seq::empty(), docs: Seq::empty() };
                    assert(yields(x, s, *e, depth as int, run));
                }
                Ok(v)
            },
        }
    }

    /// Reduces a map: its bindings, then its entries one level down, each key new.
    #[verifier::loop_isolation(false)]
    fn mapping(&mut self, e: &Expr, depth: usize) -> (read: Result<Value, Error>)
        requires
            old(self).open@.len() <= MAX_IMPORTS,
            depth <= MAX_DEPTH,
            e.kind is Mapping,
        ensures
            final(self).keeps(old(self)),
            reduced(old(self).setting(), old(self).stage(), *e, depth as int, final(self).stage(), read),
            read is Ok ==> final(self).scope@ == old(self).scope@,
        decreases 2 * (MAX_IMPORTS - old(self).open@.len()), *e, 0nat,
    {
        let (bindings, entries) = match &e.kind {
            ExprKind::Mapping { bindings, entries } => (bindings, entries),
            _ => { return Err(Error::new(ErrorKind::NotKeyed, e.span)); },
        };
        let ghost x = self.setting();
        let ghost s = self.stage();
        let frame = self.scope.len();
        let bound = self.bind_all(bindings, depth);
        let ghost m = self.stage();
        let ghost scope_after_bindings = self.scope@;
        let ghost binds = binding_runs(x, s, bindings@, depth as int, m, bound);
        match bound {
            Err(err) => {
                proof {
                    let run = Run { end: m, read: Err(err), binds, parts: Seq::empty(), texts: Seq::empty(), docs: Seq::empty() };
                    assert(yields(x, s, *e, depth as int, run));
                }
                return Err(err);
            },
            Ok(()) => {},
        }
        let mut map = Mapping::new();
        proof {
            assert(map.keys() =~= Seq::<Value>::empty());
            assert(map.values() =~= Seq::<Value>::empty());
        }
        let ghost mut parts: Seq<Run> = Seq::empty();
        let mut j: usize = 0;
        while j < entries.len()
            invariant
                j <= entries@.len(),
                parts.len() == 2 * j,
                self.keeps(old(self)),
                self.setting() == x,
                self.open@.len() <= MAX_IMPORTS,
                self.scope@ == scope_after_bindings,
                scope_after_bindings.len() >= frame,
                scope_after_bindings.take(frame as int) =~= old(self).scope@,
                frame == s.scope.len(),
                entries_fold(x, m, entries@, depth + 1, parts, j as int)
                    == Some((self.stage(), Ok::<(Seq<Value>, Seq<Value>), Error>((map.keys(), map.values())), 2 * j)),
            decreases entries@.len() - j,
        {
            proof {
                assert(decreases_to!(*e => entries@[j as int].key));
                assert(decreases_to!(*e => entries@[j as int].value));
            }
            let ghost p = self.stage();
            let ghost before = (map.keys(), map.values());
            let read_key = self.value(&entries[j].key, depth + 1);
            let ghost key_run = run_of(x, p, entries@[j as int].key, depth + 1, self.stage(), read_key);
            proof {
                lemma_entries_fold_extends(x, m, entries@, depth + 1, parts, parts.push(key_run), j as int);
            }
            let key = match read_key {
                Err(err) => {
                    proof {
                        let whole_parts = parts.push(key_run);
                        assert(entries_fold(x, m, entries@, depth + 1, whole_parts, j as int + 1)
                            == Some((self.stage(), Err::<(Seq<Value>, Seq<Value>), Error>(err), 2 * j + 1)));
                        lemma_entries_fold_stays(x, m, entries@, depth + 1, whole_parts, j as int + 1, entries@.len() as int);
                        let whole = Run { end: self.stage(), read: Err(err), binds, parts: whole_parts, texts: Seq::empty(), docs: Seq::empty() };
                        assert(yields(x, s, *e, depth as int, whole));
                    }
                    return Err(err);
                },
                Ok(key) => key,
            };
            let ghost k = key;
            let ghost f = self.stage();
            let read_value = self.value(&entries[j].value, depth + 1);
            let ghost value_run = run_of(x, f, entries@[j as int].value, depth + 1, self.stage(), read_value);
            proof {
                lemma_entries_fold_extends(x, m, entries@, depth + 1, parts, parts.push(key_run).push(value_run), j as int);
                parts = parts.push(key_run).push(value_run);
                assert(parts[2 * j as int] == key_run);
                assert(parts[2 * j + 1] == value_run);
            }
            let value = match read_value {
                Err(err) => {
                    proof {
                        assert(entries_fold(x, m, entries@, depth + 1, parts, j as int + 1)
                            == Some((self.stage(), Err::<(Seq<Value>, Seq<Value>), Error>(err), 2 * j + 2)));
                        lemma_entries_fold_stays(x, m, entries@, depth + 1, parts, j as int + 1, entries@.len() as int);
                        let whole = Run { end: self.stage(), read: Err(err), binds, parts, texts: Seq::empty(), docs: Seq::empty() };
                        assert(yields(x, s, *e, depth as int, whole));
                    }
                    return Err(err);
                },
                Ok(value) => value,
            };
            let ghost v = value;
            if map.insert(key, value).is_some() {
                let err = Error::new(ErrorKind::DuplicateKey, entries[j].key.span);
                proof {
                    assert(exists|i: int| 0 <= i < before.0.len() && same(before.0[i], k));
                    assert(entries_fold(x, m, entries@, depth + 1, parts, j as int + 1)
                        == Some((self.stage(), Err::<(Seq<Value>, Seq<Value>), Error>(err), 2 * j + 2)));
                    lemma_entries_fold_stays(x, m, entries@, depth + 1, parts, j as int + 1, entries@.len() as int);
                    let whole = Run { end: self.stage(), read: Err(err), binds, parts, texts: Seq::empty(), docs: Seq::empty() };
                    assert(yields(x, s, *e, depth as int, whole));
                }
                return Err(err);
            }
            proof {
                assert(entries_fold(x, m, entries@, depth + 1, parts, j as int + 1)
                    == Some((self.stage(), Ok::<(Seq<Value>, Seq<Value>), Error>((map.keys(), map.values())), 2 * j + 2)));
            }
            j = j + 1;
        }
        let ghost f = self.stage();
        self.scope.truncate(frame);
        proof {
            assert(self.stage().scope =~= f.scope.take(s.scope.len() as int));
            assert(self.stage() == cut(f, s.scope.len() as int));
        }
        match self.spend(1, e.span) {
            Err(err) => {
                proof {
                    let run = Run { end: self.stage(), read: Err(err), binds, parts, texts: Seq::empty(), docs: Seq::empty() };
                    assert(yields(x, s, *e, depth as int, run));
                }
                Err(err)
            },
            Ok(()) => {
                let v = Value::Mapping(map);
                proof {
                    let run = Run { end: self.stage(), read: Ok(v), binds, parts, texts: Seq::empty(), docs: Seq::empty() };
                    assert(yields(x, s, *e, depth as int, run));
                }
                Ok(v)
            },
        }
    }

    /// Reduces a list: its items one level down.
    #[verifier::loop_isolation(false)]
    fn list(&mut self, e: &Expr, depth: usize) -> (read: Result<Value, Error>)
        requires
            old(self).open@.len() <= MAX_IMPORTS,
            depth <= MAX_DEPTH,
            e.kind is List,
        ensures
            final(self).keeps(old(self)),
            reduced(old(self).setting(), old(self).stage(), *e, depth as int, final(self).stage(), read),
            read is Ok ==> final(self).scope@ == old(self).scope@,
        decreases 2 * (MAX_IMPORTS - old(self).open@.len()), *e, 0nat,
    {
        let items = match &e.kind {
            ExprKind::List(items) => items,
            _ => { return Err(Error::new(ErrorKind::NotAList, e.span)); },
        };
        let ghost x = self.setting();
        let ghost s = self.stage();
        let mut values: Vec<Value> = Vec::new();
        let ghost mut parts: Seq<Run> = Seq::empty();
        let mut j: usize = 0;
        while j < items.len()
            invariant
                j <= items@.len(),
                parts.len() == j,
                self.keeps(old(self)),
                self.setting() == x,
                self.open@.len() <= MAX_IMPORTS,
                items_fold(x, s, items@, depth + 1, parts, j as int) == Some((self.stage(), Ok::<Seq<Value>, Error>(values@), j as int)),
                self.scope@ == old(self).scope@,
            decreases items@.len() - j,
        {
            proof { assert(decreases_to!(*e => items@[j as int])); }
            let ghost p = self.stage();
            let read = self.value(&items[j], depth + 1);
            let ghost run = run_of(x, p, items@[j as int], depth + 1, self.stage(), read);
            proof {
                lemma_items_fold_extends(x, s, items@, depth + 1, parts, parts.push(run), j as int);
                parts = parts.push(run);
            }
            match read {
                Err(err) => {
                    proof {
                        assert(items_fold(x, s, items@, depth + 1, parts, j as int + 1) == Some((self.stage(), Err::<Seq<Value>, Error>(err), j as int + 1)));
                        lemma_items_fold_stays(x, s, items@, depth + 1, parts, j as int + 1, items@.len() as int);
                        let whole = Run { end: self.stage(), read: Err(err), binds: Seq::empty(), parts, texts: Seq::empty(), docs: Seq::empty() };
                        assert(yields(x, s, *e, depth as int, whole));
                    }
                    return Err(err);
                },
                Ok(value) => {
                    values.push(value);
                },
            }
            j = j + 1;
        }
        match self.spend(1, e.span) {
            Err(err) => {
                proof {
                    let run = Run { end: self.stage(), read: Err(err), binds: Seq::empty(), parts, texts: Seq::empty(), docs: Seq::empty() };
                    assert(yields(x, s, *e, depth as int, run));
                }
                Err(err)
            },
            Ok(()) => {
                let v = Value::List(values);
                proof {
                    let run = Run { end: self.stage(), read: Ok(v), binds: Seq::empty(), parts, texts: Seq::empty(), docs: Seq::empty() };
                    assert(yields(x, s, *e, depth as int, run));
                }
                Ok(v)
            },
        }
    }

    /// Reduces a field access: the operand, then the field it names.
    fn access(&mut self, e: &Expr, depth: usize) -> (read: Result<Value, Error>)
        requires
            old(self).open@.len() <= MAX_IMPORTS,
            depth <= MAX_DEPTH,
            e.kind is Access,
        ensures
            final(self).keeps(old(self)),
            reduced(old(self).setting(), old(self).stage(), *e, depth as int, final(self).stage(), read),
            read is Ok ==> final(self).scope@ == old(self).scope@,
        decreases 2 * (MAX_IMPORTS - old(self).open@.len()), *e, 0nat,
    {
        let (operand, field) = match &e.kind {
            ExprKind::Access { operand, field } => (operand, field),
            _ => { return Err(Error::new(ErrorKind::NotATuple, e.span)); },
        };
        let ghost x = self.setting();
        let ghost s = self.stage();
        let reduced = self.value(operand, depth);
        let ghost part = run_of(x, s, **operand, depth as int, self.stage(), reduced);
        let read = match reduced {
            Err(err) => Err(err),
            Ok(Value::Tuple(tuple)) => match tuple.take(field.ident.as_str()) {
                Some(value) => Ok(value),
                None => Err(Error::new(ErrorKind::NoSuchField(text::owned(field.ident.as_str())), field.span)),
            },
            Ok(_) => Err(Error::new(ErrorKind::NotATuple, operand.span)),
        };
        proof {
            let run = Run { end: self.stage(), read, binds: Seq::empty(), parts: seq![part], texts: Seq::empty(), docs: Seq::empty() };
            assert(run.parts[0] == part);
            assert(yields(x, s, *e, depth as int, run));
        }
        read
    }

    /// Reduces an index: the operand, then the key, then the value the key names in a map or
    /// a list.
    fn index(&mut self, e: &Expr, depth: usize) -> (read: Result<Value, Error>)
        requires
            old(self).open@.len() <= MAX_IMPORTS,
            depth <= MAX_DEPTH,
            e.kind is Index,
        ensures
            final(self).keeps(old(self)),
            reduced(old(self).setting(), old(self).stage(), *e, depth as int, final(self).stage(), read),
            read is Ok ==> final(self).scope@ == old(self).scope@,
        decreases 2 * (MAX_IMPORTS - old(self).open@.len()), *e, 0nat,
    {
        let (operand, key) = match &e.kind {
            ExprKind::Index { operand, key } => (operand, key),
            _ => { return Err(Error::new(ErrorKind::NotKeyed, e.span)); },
        };
        let ghost x = self.setting();
        let ghost s = self.stage();
        let reduced = self.value(operand, depth);
        let ghost first = run_of(x, s, **operand, depth as int, self.stage(), reduced);
        let keyed = match reduced {
            Err(err) => {
                proof {
                    let run = Run { end: self.stage(), read: Err(err), binds: Seq::empty(), parts: seq![first], texts: Seq::empty(), docs: Seq::empty() };
                    assert(run.parts[0] == first);
                    assert(yields(x, s, *e, depth as int, run));
                }
                return Err(err);
            },
            Ok(keyed) => keyed,
        };
        let ghost m = self.stage();
        let at = self.value(key, depth);
        let ghost second = run_of(x, m, **key, depth as int, self.stage(), at);
        let read = match at {
            Err(err) => Err(err),
            Ok(at) => match keyed {
                Value::Mapping(map) => match map.take(&at) {
                    Some(value) => Ok(value),
                    None => Err(Error::new(ErrorKind::NoSuchKey, key.span)),
                },
                Value::List(items) => match position(&at, items.len()) {
                    Some(i) => {
                        let mut items = items;
                        Ok(items.remove(i))
                    },
                    None => Err(Error::new(ErrorKind::NoSuchKey, key.span)),
                },
                _ => Err(Error::new(ErrorKind::NotKeyed, operand.span)),
            },
        };
        proof {
            let run = Run { end: self.stage(), read, binds: Seq::empty(), parts: seq![first, second], texts: Seq::empty(), docs: Seq::empty() };
            assert(run.parts[0] == first);
            assert(run.parts[1] == second);
            assert(yields(x, s, *e, depth as int, run));
        }
        read
    }

    /// Calls a builtin on its operand.
    fn call(&mut self, e: &Expr, depth: usize) -> (read: Result<Value, Error>)
        requires
            depth <= MAX_DEPTH,
            old(self).open@.len() <= MAX_IMPORTS,
            e.kind is Call,
        ensures
            final(self).keeps(old(self)),
            reduced(old(self).setting(), old(self).stage(), *e, depth as int, final(self).stage(), read),
            read is Ok ==> final(self).scope@ == old(self).scope@,
        decreases 2 * (MAX_IMPORTS - old(self).open@.len()), *e, 0nat,
    {
        let (name, operand) = match &e.kind {
            ExprKind::Call { name, operand } => (name, operand),
            _ => { return Err(Error::new(ErrorKind::NoText, e.span)); },
        };
        let ghost x = self.setting();
        let ghost s = self.stage();
        match Builtin::of(name.ident.as_str()) {
            Some(Builtin::Import) => {
                let read = self.import(operand, e.span, depth);
                proof {
                    let run = choose|run: Run| imports(x, s, **operand, e.span, depth as int, run) && run.end == self.stage() && run.read == read;
                    assert(yields(x, s, *e, depth as int, run));
                }
                read
            },
            Some(Builtin::Concat) => {
                let read = self.concat(operand, e.span, depth);
                proof {
                    let run = choose|run: Run| concatenates(x, s, **operand, e.span, depth as int, run) && run.end == self.stage() && run.read == read;
                    assert(yields(x, s, *e, depth as int, run));
                }
                read
            },
            None => {
                let err = Error::new(ErrorKind::NoSuchBuiltin(text::owned(name.ident.as_str())), name.span);
                proof { assert(yields(x, s, *e, depth as int, leaf(s, Err(err)))); }
                Err(err)
            },
        }
    }

    /// Joins a list of strings into one.
    #[verifier::loop_isolation(false)]
    fn concat(&mut self, operand: &Expr, span: Span, depth: usize) -> (read: Result<Value, Error>)
        requires
            depth <= MAX_DEPTH,
            old(self).open@.len() <= MAX_IMPORTS,
        ensures
            final(self).keeps(old(self)),
            exists|run: Run| #[trigger] concatenates(old(self).setting(), old(self).stage(), *operand, span, depth as int, run)
                && run.end == final(self).stage() && run.read == read,
            read is Ok ==> final(self).scope@ == old(self).scope@,
        decreases 2 * (MAX_IMPORTS - old(self).open@.len()), *operand, 2nat,
    {
        let ghost x = self.setting();
        let ghost s = self.stage();
        let reduced = self.value(operand, depth);
        let ghost first = run_of(x, s, *operand, depth as int, self.stage(), reduced);
        let ghost m = self.stage();
        let parts = match reduced {
            Ok(Value::List(parts)) => parts,
            Ok(_) => {
                let err = Error::new(ErrorKind::NotAList, operand.span);
                proof {
                    let run = Run { end: m, read: Err(err), binds: Seq::empty(), parts: seq![first], texts: Seq::empty(), docs: Seq::empty() };
                    assert(run.parts[0] == first);
                    assert(concatenates(x, s, *operand, span, depth as int, run));
                }
                return Err(err);
            },
            Err(err) => {
                proof {
                    let run = Run { end: m, read: Err(err), binds: Seq::empty(), parts: seq![first], texts: Seq::empty(), docs: Seq::empty() };
                    assert(run.parts[0] == first);
                    assert(concatenates(x, s, *operand, span, depth as int, run));
                }
                return Err(err);
            },
        };
        let mut joined_text = String::new();
        let mut bytes: usize = 0;
        let mut i: usize = 0;
        while i < parts.len()
            invariant
                i <= parts@.len(),
                self.stage() == m,
                bytes <= MAX_BYTES,
                joined(parts@, i as int) == Ok::<(Seq<char>, int), ErrorKind>((joined_text@, bytes as int)),
            decreases parts@.len() - i,
        {
            match &parts[i] {
                Value::String(part) => {
                    let piece = part.as_str();
                    proof { assert(piece.spec_bytes() == encode_utf8(part@)); }
                    if piece.as_bytes().len() > MAX_BYTES - bytes {
                        let err = Error::new(ErrorKind::TooLong, span);
                        proof {
                            lemma_joined_stays(parts@, i as int + 1, parts@.len() as int);
                            let run = Run { end: m, read: Err(err), binds: Seq::empty(), parts: seq![first], texts: Seq::empty(), docs: Seq::empty() };
                            assert(concatenates(x, s, *operand, span, depth as int, run));
                        }
                        return Err(err);
                    }
                    let ghost before = (joined_text@, bytes as int);
                    bytes = bytes + piece.as_bytes().len();
                    text::append(&mut joined_text, piece);
                    proof {
                        assert(piece@ == part@);
                        assert(joined(parts@, i as int) == Ok::<(Seq<char>, int), ErrorKind>(before));
                        assert(parts@[i as int] == Value::String(*part));
                        assert(joined(parts@, i as int + 1) == Ok::<(Seq<char>, int), ErrorKind>((before.0 + part@, before.1 + encode_utf8(part@).len())));
                    }
                },
                _ => {
                    let err = Error::new(ErrorKind::NotAString, operand.span);
                    proof {
                        lemma_joined_stays(parts@, i as int + 1, parts@.len() as int);
                        let run = Run { end: m, read: Err(err), binds: Seq::empty(), parts: seq![first], texts: Seq::empty(), docs: Seq::empty() };
                        assert(concatenates(x, s, *operand, span, depth as int, run));
                    }
                    return Err(err);
                },
            }
            i = i + 1;
        }
        match self.spend(1, span) {
            Err(err) => {
                proof {
                    let run = Run { end: self.stage(), read: Err(err), binds: Seq::empty(), parts: seq![first], texts: Seq::empty(), docs: Seq::empty() };
                    assert(run.parts[0] == first);
                    assert(concatenates(x, s, *operand, span, depth as int, run));
                }
                Err(err)
            },
            Ok(()) => {
                let v = Value::String(joined_text);
                proof {
                    let run = Run { end: self.stage(), read: Ok(v), binds: Seq::empty(), parts: seq![first], texts: Seq::empty(), docs: Seq::empty() };
                    assert(run.parts[0] == first);
                    assert(concatenates(x, s, *operand, span, depth as int, run));
                }
                Ok(v)
            },
        }
    }

    /// Reduces an interpolation: its text, and the text of each hole's value.
    #[verifier::loop_isolation(false)]
    fn interpolation(&mut self, e: &Expr, depth: usize) -> (read: Result<Value, Error>)
        requires
            old(self).open@.len() <= MAX_IMPORTS,
            depth <= MAX_DEPTH,
            e.kind is Interpolation,
        ensures
            final(self).keeps(old(self)),
            reduced(old(self).setting(), old(self).stage(), *e, depth as int, final(self).stage(), read),
            read is Ok ==> final(self).scope@ == old(self).scope@,
        decreases 2 * (MAX_IMPORTS - old(self).open@.len()), *e, 0nat,
    {
        let pieces = match &e.kind {
            ExprKind::Interpolation(pieces) => pieces,
            _ => { return Err(Error::new(ErrorKind::NoText, e.span)); },
        };
        let ghost x = self.setting();
        let ghost s = self.stage();
        let mut built = String::new();
        let mut bytes: usize = 0;
        let ghost mut parts: Seq<Run> = Seq::empty();
        let ghost mut texts: Seq<Result<String, ErrorKind>> = Seq::empty();
        let ghost mut used: int = 0;
        let mut j: usize = 0;
        while j < pieces.len()
            invariant
                j <= pieces@.len(),
                parts.len() == used,
                texts.len() == used,
                self.keeps(old(self)),
                self.setting() == x,
                self.open@.len() <= MAX_IMPORTS,
                bytes <= MAX_BYTES,
                pieces_fold(x, s, pieces@, depth as int, e.span, parts, texts, j as int)
                    == Some((self.stage(), Ok::<(Seq<char>, int), Error>((built@, bytes as int)), used)),
                self.scope@ == old(self).scope@,
            decreases pieces@.len() - j,
        {
            let ghost p = self.stage();
            match &pieces[j] {
                Piece::Text(part) => {
                    let piece = part.as_str();
                    proof { assert(piece.spec_bytes() == encode_utf8(part@)); }
                    if piece.as_bytes().len() > MAX_BYTES - bytes {
                        let err = Error::new(ErrorKind::TooLong, e.span);
                        proof {
                            assert(pieces_fold(x, s, pieces@, depth as int, e.span, parts, texts, j as int + 1)
                                == Some((self.stage(), Err::<(Seq<char>, int), Error>(err), used)));
                            lemma_pieces_fold_stays(x, s, pieces@, depth as int, e.span, parts, texts, j as int + 1, pieces@.len() as int);
                            let whole = Run { end: self.stage(), read: Err(err), binds: Seq::empty(), parts, texts, docs: Seq::empty() };
                            assert(yields(x, s, *e, depth as int, whole));
                        }
                        return Err(err);
                    }
                    bytes = bytes + piece.as_bytes().len();
                    text::append(&mut built, piece);
                },
                Piece::Hole { expr, spec } => {
                    proof { assert(decreases_to!(*e => pieces@[j as int])); }
                    let read = self.value(expr, depth);
                    let ghost run = run_of(x, p, *expr, depth as int, self.stage(), read);
                    let value = match read {
                        Err(err) => {
                            proof {
                                let more = parts.push(run);
                                let noted = texts.push(Err(ErrorKind::NoText));
                                lemma_pieces_fold_extends(x, s, pieces@, depth as int, e.span, parts, texts, more, noted, j as int);
                                assert(pieces_fold(x, s, pieces@, depth as int, e.span, more, noted, j as int + 1)
                                    == Some((self.stage(), Err::<(Seq<char>, int), Error>(err), used + 1)));
                                lemma_pieces_fold_stays(x, s, pieces@, depth as int, e.span, more, noted, j as int + 1, pieces@.len() as int);
                                let whole = Run { end: self.stage(), read: Err(err), binds: Seq::empty(), parts: more, texts: noted, docs: Seq::empty() };
                                assert(yields(x, s, *e, depth as int, whole));
                            }
                            return Err(err);
                        },
                        Ok(value) => value,
                    };
                    let written = text::of(&value, *spec);
                    proof {
                        let more = parts.push(run);
                        let noted = texts.push(written);
                        lemma_pieces_fold_extends(x, s, pieces@, depth as int, e.span, parts, texts, more, noted, j as int);
                        parts = more;
                        texts = noted;
                        used = used + 1;
                    }
                    let part = match written {
                        Ok(part) => part,
                        Err(kind) => {
                            let err = Error::new(kind, expr.span);
                            proof {
                                assert(pieces_fold(x, s, pieces@, depth as int, e.span, parts, texts, j as int + 1)
                                    == Some((self.stage(), Err::<(Seq<char>, int), Error>(err), used)));
                                lemma_pieces_fold_stays(x, s, pieces@, depth as int, e.span, parts, texts, j as int + 1, pieces@.len() as int);
                                let whole = Run { end: self.stage(), read: Err(err), binds: Seq::empty(), parts, texts, docs: Seq::empty() };
                                assert(yields(x, s, *e, depth as int, whole));
                            }
                            return Err(err);
                        },
                    };
                    let piece = part.as_str();
                    proof { assert(piece.spec_bytes() == encode_utf8(part@)); }
                    if piece.as_bytes().len() > MAX_BYTES - bytes {
                        let err = Error::new(ErrorKind::TooLong, e.span);
                        proof {
                            assert(pieces_fold(x, s, pieces@, depth as int, e.span, parts, texts, j as int + 1)
                                == Some((self.stage(), Err::<(Seq<char>, int), Error>(err), used)));
                            lemma_pieces_fold_stays(x, s, pieces@, depth as int, e.span, parts, texts, j as int + 1, pieces@.len() as int);
                            let whole = Run { end: self.stage(), read: Err(err), binds: Seq::empty(), parts, texts, docs: Seq::empty() };
                            assert(yields(x, s, *e, depth as int, whole));
                        }
                        return Err(err);
                    }
                    bytes = bytes + piece.as_bytes().len();
                    text::append(&mut built, piece);
                },
            }
            j = j + 1;
        }
        match self.spend(1, e.span) {
            Err(err) => {
                proof {
                    let run = Run { end: self.stage(), read: Err(err), binds: Seq::empty(), parts, texts, docs: Seq::empty() };
                    assert(yields(x, s, *e, depth as int, run));
                }
                Err(err)
            },
            Ok(()) => {
                let v = Value::String(built);
                proof {
                    let run = Run { end: self.stage(), read: Ok(v), binds: Seq::empty(), parts, texts, docs: Seq::empty() };
                    assert(yields(x, s, *e, depth as int, run));
                }
                Ok(v)
            },
        }
    }

    /// The value of the file an import names, read and reduced once however often it is
    /// imported, and charged where it lands.
    #[verifier::loop_isolation(false)]
    fn import(&mut self, operand: &Expr, span: Span, depth: usize) -> (read: Result<Value, Error>)
        requires
            old(self).open@.len() <= MAX_IMPORTS,
        ensures
            final(self).keeps(old(self)),
            exists|run: Run| #[trigger] imports(old(self).setting(), old(self).stage(), *operand, span, depth as int, run)
                && run.end == final(self).stage() && run.read == read,
            final(self).scope@ == old(self).scope@,
        decreases 2 * (MAX_IMPORTS - old(self).open@.len()), *operand, 1nat,
    {
        let ghost x = self.setting();
        let ghost s = self.stage();
        let literal = match &operand.kind {
            ExprKind::String(literal) => literal,
            _ => {
                let err = Error::new(ErrorKind::ExpectedImportPath, operand.span);
                proof { assert(imports(x, s, *operand, span, depth as int, leaf(s, Err(err)))); }
                return Err(err);
            },
        };
        let path = match &self.origin {
            None => {
                let err = Error::new(ErrorKind::NoOrigin, span);
                proof { assert(imports(x, s, *operand, span, depth as int, leaf(s, Err(err)))); }
                return Err(err);
            },
            Some(origin) => match self.files.resolution(origin.as_str(), literal.as_str()) {
                Some(Ok(path)) => text::owned(path.as_str()),
                Some(Err(cause)) => {
                    let kind = ErrorKind::Unreadable { path: text::owned(literal.as_str()), cause: text::owned(cause.as_str()) };
                    let err = Error::new(kind, span);
                    proof { assert(imports(x, s, *operand, span, depth as int, leaf(s, Err(err)))); }
                    return Err(err);
                },
                None => {
                    proof {
                    reveal_strlit("entity not found");
                    assert(not_found() =~= "entity not found"@);
                }
                    let kind = ErrorKind::Unreadable { path: text::owned(literal.as_str()), cause: text::owned("entity not found") };
                    let err = Error::new(kind, span);
                    proof { assert(imports(x, s, *operand, span, depth as int, leaf(s, Err(err)))); }
                    return Err(err);
                },
            },
        };
        let ghost p = path@;
        let mut k: usize = 0;
        while k < self.open.len()
            invariant
                k <= self.open@.len(),
                self.stage() == s,
                self.setting() == x,
                self.open == old(self).open,
                forall|q: int| 0 <= q < k ==> x.open[q] != p,
            decreases self.open@.len() - k,
        {
            if crate::names::same_text(self.open[k].as_str(), path.as_str()) {
                let err = Error::new(ErrorKind::ImportCycle(path), span);
                proof {
                    assert(x.open[k as int] == p);
                    assert(imports(x, s, *operand, span, depth as int, leaf(s, Err(err))));
                }
                return Err(err);
            }
            k = k + 1;
        }
        let ghost mut loaded_run: Seq<Run> = Seq::empty();
        let found = self.cached(path.as_str());
        proof { assert(s.loaded.len() == self.loaded@.len()); }
        let at = match found {
            Some(at) => {
                proof { assert(cached_at(s.loaded, p, s.loaded.len() as int) == Some(at as int)); }
                at
            },
            None => {
                let outcome = self.load(path, operand, literal.as_str(), span);
                let ghost l = choose|run: Run| loading(x, s, p, literal@, span, run) && afresh(x, s, p, span, run)
                    && run.end == self.stage() && kept(run.read, outcome);
                proof { loaded_run = seq![l]; }
                match outcome {
                    Ok(_) => {},
                    Err(err) => {
                        proof {
                            let run = Run { end: self.stage(), read: Err(err), binds: Seq::empty(), parts: loaded_run, texts: Seq::empty(), docs: Seq::empty() };
                            assert(run.parts[0] == l);
                            assert(imports(x, s, *operand, span, depth as int, run));
                        }
                        return Err(err);
                    },
                }
                self.loaded.len() - 1
            },
        };
        let ghost m = self.stage();
        let values = self.loaded[at].values;
        let reach = self.loaded[at].depth;
        let read = match self.charge(values, reach, span, depth) {
            Err(err) => Err(err),
            Ok(()) => Ok(copy(&self.loaded[at].value)),
        };
        proof {
            let run = Run { end: self.stage(), read, binds: Seq::empty(), parts: loaded_run, texts: Seq::empty(), docs: Seq::empty() };
            assert(!(exists|k: int| 0 <= k < x.open.len() && x.open[k] == p));
            assert(operand.kind matches ExprKind::String(l) && l@ == literal@);
            assert(x.origin is Some);
            let origin = x.origin->Some_0;
            let resolved = resolution_at(x.files.resolved@, origin, literal@, x.files.resolved@.len() as int);
            assert(resolved is Some);
            assert(x.files.resolved@[resolved->Some_0].path matches Ok(q) && q@ == p);
            match cached_at(s.loaded, p, s.loaded.len() as int) {
                Some(k) => {
                    assert(k == at);
                    assert(m == s);
                    assert(charged_copy(s, s.loaded[k], span, depth as int, run));
                },
                None => {
                    assert(run.parts.len() == 1);
                    assert(loading(x, s, p, literal@, span, run.parts[0]));
                    assert(run.parts[0].read is Ok);
                    assert(run.parts[0].end == m);
                    assert(m.loaded.last() == m.loaded[at as int]);
                    assert(charged_copy(run.parts[0].end, run.parts[0].end.loaded.last(), span, depth as int, run));
                },
            }
            assert(imports(x, s, *operand, span, depth as int, run));
        }
        read
    }

    /// Where the value of a file already read is kept, if it has been read.
    fn cached(&self, path: &str) -> (at: Option<usize>)
        ensures
            at matches Some(i) ==> i < self.loaded@.len(),
            match cached_at(self.stage().loaded, path@, self.loaded@.len() as int) {
                Some(i) => at matches Some(a) && a as int == i,
                None => at is None,
            },
    {
        let ghost held = self.stage().loaded;
        let mut at: usize = 0;
        while at < self.loaded.len()
            invariant
                at <= self.loaded@.len(),
                held == self.stage().loaded,
                cached_at(held, path@, at as int) is None,
            decreases self.loaded@.len() - at,
        {
            if crate::names::same_text(self.loaded[at].path.as_str(), path) {
                proof {
                    assert(held[at as int].name == self.loaded@[at as int].path@);
                    lemma_cached_at_stays(held, path@, at as int + 1, self.loaded@.len() as int);
                }
                return Some(at);
            }
            at = at + 1;
        }
        None
    }

    /// Reads, parses and reduces the file an import's operand names, in scope of nothing
    /// but its own bindings, and keeps its value.
    fn load(&mut self, path: String, operand: &Expr, literal: &str, span: Span) -> (loaded: Result<(), Error>)
        requires
            old(self).open@.len() <= MAX_IMPORTS,
        ensures
            final(self).keeps(old(self)),
            exists|run: Run| #[trigger] loading(old(self).setting(), old(self).stage(), path@, literal@, span, run)
                && afresh(old(self).setting(), old(self).stage(), path@, span, run)
                && run.end == final(self).stage() && kept(run.read, loaded),
            final(self).scope@ == old(self).scope@,
        decreases 2 * (MAX_IMPORTS - old(self).open@.len()), *operand, 0nat,
    {
        let ghost x = self.setting();
        let ghost s = self.stage();
        proof { assert(x.open.len() == self.open@.len()); }
        if self.open.len() >= MAX_IMPORTS {
            let err = Error::new(ErrorKind::ImportsTooDeep, span);
            proof { assert(loading(x, s, path@, literal@, span, leaf(s, Err(err)))); }
            return Err(err);
        }
        let file = match self.files.source(path.as_str()) {
            Some(file) => file,
            None => {
                proof {
                    reveal_strlit("entity not found");
                    assert(not_found() =~= "entity not found"@);
                }
                let kind = ErrorKind::Unreadable { path: text::owned(literal), cause: text::owned("entity not found") };
                let err = Error::new(kind, span);
                proof { assert(loading(x, s, path@, literal@, span, leaf(s, Err(err)))); }
                return Err(err);
            },
        };
        let source = match &file.text {
            Ok(text) => text.as_str(),
            Err(cause) => {
                let kind = ErrorKind::Unreadable { path: text::owned(literal), cause: text::owned(cause.as_str()) };
                let err = Error::new(kind, span);
                proof { assert(loading(x, s, path@, literal@, span, leaf(s, Err(err)))); }
                return Err(err);
            },
        };
        let ghost p = path@;
        let document = match surface::parse(source) {
            Ok(document) => document,
            Err(error) => {
                let at = located(source, error.span);
                let kind = ErrorKind::Import { path, at, cause: Box::new(lift(error)) };
                let err = Error::new(kind, span);
                proof {
                    assert(s.loaded.take(s.loaded.len() as int) =~= s.loaded);
                    assert(!well_formed(encode_utf8(source@)));
                    assert(loading(x, s, p, literal@, span, leaf(s, Err(err))));
                }
                return Err(err);
            },
        };
        let parent = match &file.parent {
            Some(parent) => Some(text::owned(parent.as_str())),
            None => None,
        };
        let ghost before = self.open@;
        self.open.push(text::owned(path.as_str()));
        let mut scope: Vec<Bound> = Vec::new();
        std::mem::swap(&mut scope, &mut self.scope);
        let mut origin = parent;
        std::mem::swap(&mut origin, &mut self.origin);
        let ghost inner = self.setting();
        let ghost start = self.stage();
        proof {
            let j = source_at(x.files.sources@, p, x.files.sources@.len() as int)->Some_0;
            assert(inner.open =~= x.open.push(p));
            assert(inner.origin == text_of(x.files.sources@[j].parent));
            assert(start.scope =~= Seq::<Held>::empty());
        }
        let reduced = self.document(&document);
        let ghost inner_end = self.stage();
        let ghost inner_run = choose|run: Run| #[trigger] document_ran(inner, start, document, run) && run.end == inner_end
            && run.read == reduced;
        std::mem::swap(&mut scope, &mut self.scope);
        std::mem::swap(&mut origin, &mut self.origin);
        self.open.pop();
        proof {
            assert(self.open@ =~= before);
            assert(self.stage().scope =~= s.scope);
            assert(self.setting() == x);
        }
        match reduced {
            Err(error) => {
                let ghost cause = error;
                let at = located(source, error.span);
                let kind = ErrorKind::Import { path, at, cause: Box::new(error) };
                let err = Error::new(kind, span);
                proof {
                    assert(loading(x, s, p, literal@, span, leaf(self.stage(), Err(err))));
                    let part = Run { end: self.stage(), read: Err(err), binds: Seq::empty(), parts: seq![inner_run],
                        texts: Seq::empty(), docs: seq![document] };
                    assert(self.stage().loaded =~= inner_end.loaded);
                    assert(afresh(x, s, p, span, part));
                    assert(loading(x, s, p, literal@, span, part));
                }
                Err(err)
            },
            Ok(value) => {
                let (values, depth) = measure(&value);
                let ghost m = self.stage();
                let ghost read_value = value;
                self.loaded.push(Loaded { path, value, values, depth });
                proof {
                    assert(self.stage().loaded =~= m.loaded.push(held(p, self.loaded@.last().value)));
                    assert(self.stage().loaded.take(s.loaded.len() as int) =~= m.loaded.take(s.loaded.len() as int));
                    assert(loading(x, s, p, literal@, span, leaf(self.stage(), Ok(self.loaded@.last().value))));
                    let part = Run { end: self.stage(), read: Ok(read_value), binds: Seq::empty(), parts: seq![inner_run],
                        texts: Seq::empty(), docs: seq![document] };
                    assert(m.loaded =~= inner_end.loaded);
                    assert(afresh(x, s, p, span, part));
                    assert(loading(x, s, p, literal@, span, part));
                }
                Ok(())
            },
        }
    }
}

/// Law: a document whose imports spell no path reads no file, wherever it stands and
/// whatever the host found.
pub proof fn lemma_no_import_reads_no_file(document: Document, origin: Option<Seq<char>>, open: Seq<Seq<char>>, files: Files,
    read: Result<Value, Error>, imported: Seq<Seq<char>>)
    requires
        document_literals(document).len() == 0,
        reduction(document, origin, open, files, read, imported),
    ensures
        imported.len() == 0,
{
    let x = Setting { origin, open, files };
    let run = choose|run: Run| #[trigger] document_ran(x, fresh(), document, run)
        && run.read == read && imported == run.end.loaded.map_values(|h: Held| h.name);
    let bs = document.bindings@;
    lemma_binding_literals_empty(bs, bs.len() as int);
    if all_bound(bs, run.binds) {
        lemma_quiet_bindings(x, fresh(), bs, 0, run.binds, run.binds.len() as int);
        lemma_quiet(x, binding_stage(fresh(), bs, run.binds, run.binds.len() as int), document.value, 0, run.parts[0]);
    } else {
        lemma_quiet_bindings(x, fresh(), bs, 0, run.binds, run.binds.len() - 1);
        lemma_quiet(x, binding_stage(fresh(), bs, run.binds, run.binds.len() - 1), bs[run.binds.len() - 1].value, 0, run.binds.last());
    }
}

/// The values of bindings that spell no path spell none each.
proof fn lemma_binding_literals_empty(bs: Seq<Binding>, n: int)
    requires
        0 <= n <= bs.len(),
        binding_literals(bs, n).len() == 0,
    ensures
        forall|i: int| 0 <= i < n ==> (#[trigger] literals(bs[i].value)).len() == 0,
    decreases n,
{
    if n > 0 {
        lemma_binding_literals_empty(bs, n - 1);
    }
}

/// Reducing a document that binds nothing and writes a canonical value literally gives a
/// value identical to it, where the value nests within the limit and holds no more values
/// than a reduction may produce.
proof fn lemma_literal_document(document: Document, v: Value, read: Result<Value, Error>, ts: Seq<Token>, bytes: Seq<u8>)
    requires
        document.bindings@.len() == 0,
        literal(document.value, v),
        spelling(ts, bytes, v, 0) is Some,
        height(v) <= MAX_DEPTH + 1,
        count(v) <= MAX_VALUES,
        reduces(document, read),
    ensures
        read matches Ok(w) && identical(w, v),
{
    let (files, imported) = choose|files: Files, imported: Seq<Seq<char>>| reduction(document, None, Seq::empty(), files, read, imported);
    lemma_literal_reduction(document, v, None, Seq::empty(), files, read, imported, ts, bytes);
}

/// Reducing, wherever it stands, a document that writes a canonical value literally reads
/// a value identical to it.
proof fn lemma_literal_reduction(document: Document, v: Value, origin: Option<Seq<char>>, open: Seq<Seq<char>>, files: Files,
    read: Result<Value, Error>, imported: Seq<Seq<char>>, ts: Seq<Token>, bytes: Seq<u8>)
    requires
        document.bindings@.len() == 0,
        literal(document.value, v),
        spelling(ts, bytes, v, 0) is Some,
        height(v) <= MAX_DEPTH + 1,
        count(v) <= MAX_VALUES,
        reduction(document, origin, open, files, read, imported),
    ensures
        read matches Ok(w) && identical(w, v),
{
    let x = Setting { origin, open, files };
    let run = choose|run: Run| #[trigger] document_ran(x, fresh(), document, run) && run.read == read
        && imported == run.end.loaded.map_values(|h: Held| h.name);
    assert(bindings_run(x, fresh(), document.bindings@, 0, run.binds));
    assert(run.binds.len() == 0);
    assert(binding_stage(fresh(), document.bindings@, run.binds, 0) == fresh());
    lemma_literal_yields(x, fresh(), document.value, v, 0, run.parts[0], ts, bytes, 0);
}

/// Reducing an expression that writes a canonical value literally reads a value identical
/// to it, and pays one unit of the budget for each value the value holds.
proof fn lemma_literal_yields(x: Setting, s: Stage, e: Expr, v: Value, depth: int, run: Run, ts: Seq<Token>, bytes: Seq<u8>, i: int)
    requires
        yields(x, s, e, depth, run),
        literal(e, v),
        spelling(ts, bytes, v, i) is Some,
        0 <= depth,
        depth + height(v) <= MAX_DEPTH + 1,
        count(v) <= s.budget,
    ensures
        run.read matches Ok(w) && identical(w, v),
        run.end.budget == s.budget - count(v),
    decreases height(v), 1int, 0int,
{
    lemma_height_positive(v);
    lemma_count_members(v);
    let n = members(v) as int;
    match (e.kind, v) {
        (ExprKind::List(items), Value::List(xs)) => {
            assert(members_spelling(ts, bytes, v, n, i + 1) is Some);
            lemma_literal_items_fold(x, s, items@, v, depth + 1, run.parts, n, ts, bytes, i + 1);
            let built = items_fold(x, s, items@, depth + 1, run.parts, n)->Some_0.1->Ok_0;
            let w = run.read->Ok_0;
            lemma_identical_members_of(w, v, n);
        },
        (ExprKind::Tuple { bindings, fields }, Value::Tuple(t)) => {
            assert(bindings@.len() == 0);
            assert(bindings_run(x, s, bindings@, depth, run.binds));
            assert(run.binds.len() == 0);
            assert(binding_stage(s, bindings@, run.binds, 0) == s);
            assert(members_spelling(ts, bytes, v, n, i + 1) is Some);
            lemma_literal_fields_fold(x, s, fields@, v, depth + 1, run.parts, n, ts, bytes, i + 1);
            let built = fields_fold(x, s, fields@, depth + 1, run.parts, n)->Some_0.1->Ok_0;
            let w = run.read->Ok_0;
            lemma_tuple_lengths(t);
            lemma_tuple_lengths(w->Tuple_0);
            assert(w->Tuple_0.names() =~= t.names());
            lemma_identical_members_of(w, v, n);
        },
        (ExprKind::Mapping { bindings, entries }, Value::Mapping(m)) => {
            assert(bindings@.len() == 0);
            assert(bindings_run(x, s, bindings@, depth, run.binds));
            assert(run.binds.len() == 0);
            assert(binding_stage(s, bindings@, run.binds, 0) == s);
            assert(members_spelling(ts, bytes, v, n, i + 1) is Some);
            lemma_literal_entries_fold(x, s, entries@, v, depth + 1, run.parts, n, ts, bytes, i + 1);
            let w = run.read->Ok_0;
            lemma_mapping_lengths(m);
            lemma_mapping_lengths(w->Mapping_0);
            lemma_identical_members_of(w, v, n);
        },
        _ => {},
    }
}

/// Reducing the first `n` items of a list literal reads values identical to the list's
/// first `n`, paying what they hold.
proof fn lemma_literal_items_fold(x: Setting, s: Stage, items: Seq<Expr>, v: Value, depth: int, runs: Seq<Run>, n: int,
    ts: Seq<Token>, bytes: Seq<u8>, i: int)
    requires
        v is List,
        0 <= n <= members(v),
        literal_items(items, v, n),
        members_spelling(ts, bytes, v, n, i) is Some,
        items_fold(x, s, items, depth, runs, n) is Some,
        1 <= depth,
        depth + height(v) <= MAX_DEPTH + 2,
        member_count(v, n) <= s.budget,
    ensures
        ({
            let (f, q, used) = items_fold(x, s, items, depth, runs, n)->Some_0;
            &&& used == n
            &&& f.budget == s.budget - member_count(v, n)
            &&& q is Ok
            &&& q->Ok_0.len() == n
            &&& forall|k: int| 0 <= k < n ==> identical(#[trigger] q->Ok_0[k], v->List_0@[k])
        }),
    decreases height(v), 0int, n,
{
    if n > 0 {
        lemma_literal_items_fold(x, s, items, v, depth, runs, n - 1, ts, bytes, i);
        let (p, q, used) = items_fold(x, s, items, depth, runs, n - 1)->Some_0;
        let j = members_spelling(ts, bytes, v, n - 1, i)->Some_0;
        lemma_list_member_height(v->List_0, n - 1);
        lemma_literal_yields(x, p, items[n - 1], v->List_0@[n - 1], depth, runs[n - 1], ts, bytes, j);
    }
}

/// Reducing the first `n` fields of a tuple literal reads the tuple's first `n` names, in
/// order, with values identical to its first `n`, paying what they hold.
proof fn lemma_literal_fields_fold(x: Setting, s: Stage, fields: Seq<Field>, v: Value, depth: int, runs: Seq<Run>, n: int,
    ts: Seq<Token>, bytes: Seq<u8>, i: int)
    requires
        v matches Value::Tuple(t) && names_distinct(t),
        0 <= n <= members(v),
        literal_fields(fields, v, n),
        members_spelling(ts, bytes, v, n, i) is Some,
        fields_fold(x, s, fields, depth, runs, n) is Some,
        1 <= depth,
        depth + height(v) <= MAX_DEPTH + 2,
        member_count(v, n) <= s.budget,
    ensures
        ({
            let (f, q, used) = fields_fold(x, s, fields, depth, runs, n)->Some_0;
            &&& used == n
            &&& f.budget == s.budget - member_count(v, n)
            &&& q is Ok
            &&& q->Ok_0.0.len() == n
            &&& q->Ok_0.1.len() == n
            &&& forall|k: int| 0 <= k < n ==> #[trigger] q->Ok_0.0[k] == v->Tuple_0.names()[k]
            &&& forall|k: int| 0 <= k < n ==> identical(#[trigger] q->Ok_0.1[k], v->Tuple_0.values()[k])
        }),
    decreases height(v), 0int, n,
{
    if n > 0 {
        let t = v->Tuple_0;
        lemma_tuple_lengths(t);
        lemma_literal_fields_fold(x, s, fields, v, depth, runs, n - 1, ts, bytes, i);
        let (p, q, used) = fields_fold(x, s, fields, depth, runs, n - 1)->Some_0;
        let built = q->Ok_0;
        let j = members_spelling(ts, bytes, v, n - 1, i)->Some_0;
        lemma_tuple_member_height(t, n - 1);
        lemma_literal_yields(x, p, fields[n - 1].value, t.values()[n - 1], depth, runs[n - 1], ts, bytes, j + 2);
        assert(!(exists|k: int| 0 <= k < built.0.len() && built.0[k] == fields[n - 1].name.ident@)) by {
            assert forall|k: int| 0 <= k < built.0.len() implies built.0[k] != fields[n - 1].name.ident@ by {
                assert(built.0[k] == t.names()[k]);
                assert(t.names()[k] != t.names()[n - 1]);
            }
        }
    }
}

/// Reducing the first `n` entries of a map literal reads keys and values identical to the
/// map's first `n`, in order, paying what they hold.
proof fn lemma_literal_entries_fold(x: Setting, s: Stage, entries: Seq<Entry>, v: Value, depth: int, runs: Seq<Run>, n: int,
    ts: Seq<Token>, bytes: Seq<u8>, i: int)
    requires
        v matches Value::Mapping(m) && keys_distinct(m),
        0 <= n <= members(v),
        literal_entries(entries, v, n),
        members_spelling(ts, bytes, v, n, i) is Some,
        entries_fold(x, s, entries, depth, runs, n) is Some,
        1 <= depth,
        depth + height(v) <= MAX_DEPTH + 2,
        member_count(v, n) <= s.budget,
    ensures
        ({
            let (f, q, used) = entries_fold(x, s, entries, depth, runs, n)->Some_0;
            &&& used == 2 * n
            &&& f.budget == s.budget - member_count(v, n)
            &&& q is Ok
            &&& q->Ok_0.0.len() == n
            &&& q->Ok_0.1.len() == n
            &&& forall|k: int| 0 <= k < n ==> identical(#[trigger] q->Ok_0.0[k], v->Mapping_0.keys()[k])
            &&& forall|k: int| 0 <= k < n ==> identical(#[trigger] q->Ok_0.1[k], v->Mapping_0.values()[k])
        }),
    decreases height(v), 0int, n,
{
    if n > 0 {
        let m = v->Mapping_0;
        lemma_mapping_lengths(m);
        lemma_literal_entries_fold(x, s, entries, v, depth, runs, n - 1, ts, bytes, i);
        let (p, q, used) = entries_fold(x, s, entries, depth, runs, n - 1)->Some_0;
        let built = q->Ok_0;
        let j = members_spelling(ts, bytes, v, n - 1, i)->Some_0;
        lemma_mapping_key_height(m, n - 1);
        lemma_mapping_member_height(m, n - 1);
        lemma_literal_yields(x, p, entries[n - 1].key, m.keys()[n - 1], depth, runs[used], ts, bytes, j);
        let k = spelling(ts, bytes, m.keys()[n - 1], j)->Some_0;
        let key = runs[used].read->Ok_0;
        lemma_literal_yields(x, runs[used].end, entries[n - 1].value, m.values()[n - 1], depth, runs[used + 1], ts, bytes, k + 1);
        assert(!(exists|a: int| 0 <= a < built.0.len() && same(built.0[a], key))) by {
            assert forall|a: int| 0 <= a < built.0.len() implies !same(built.0[a], key) by {
                lemma_same_identical(built.0[a], m.keys()[a], key, m.keys()[n - 1]);
                assert(!same(m.keys()[a], m.keys()[n - 1]));
            }
        }
    }
}

/// Reducing an expression that spells no path reads no file.
proof fn lemma_quiet(x: Setting, s: Stage, e: Expr, depth: int, run: Run)
    requires
        yields(x, s, e, depth, run),
        literals(e).len() == 0,
    ensures
        run.end.loaded == s.loaded,
    decreases e, 1nat,
{
    if depth <= MAX_DEPTH {
        match e.kind {
            ExprKind::Tuple { bindings, fields } => {
                let bs = bindings@;
                lemma_binding_literals_empty(bs, bs.len() as int);
                assert(bindings_run(x, s, bs, depth, run.binds));
                if all_bound(bs, run.binds) {
                    lemma_quiet_bindings(x, s, bs, depth, run.binds, run.binds.len() as int);
                    let m = binding_stage(s, bs, run.binds, run.binds.len() as int);
                    lemma_quiet_fields(x, m, fields@, depth + 1, run.parts, fields@.len() as int);
                } else {
                    lemma_quiet_bindings(x, s, bs, depth, run.binds, run.binds.len() - 1);
                    lemma_quiet(x, binding_stage(s, bs, run.binds, run.binds.len() - 1), bs[run.binds.len() - 1].value, depth, run.binds.last());
                }
            },
            ExprKind::Mapping { bindings, entries } => {
                let bs = bindings@;
                lemma_binding_literals_empty(bs, bs.len() as int);
                assert(bindings_run(x, s, bs, depth, run.binds));
                if all_bound(bs, run.binds) {
                    lemma_quiet_bindings(x, s, bs, depth, run.binds, run.binds.len() as int);
                    let m = binding_stage(s, bs, run.binds, run.binds.len() as int);
                    lemma_quiet_entries(x, m, entries@, depth + 1, run.parts, entries@.len() as int);
                } else {
                    lemma_quiet_bindings(x, s, bs, depth, run.binds, run.binds.len() - 1);
                    lemma_quiet(x, binding_stage(s, bs, run.binds, run.binds.len() - 1), bs[run.binds.len() - 1].value, depth, run.binds.last());
                }
            },
            ExprKind::List(items) => {
                lemma_quiet_items(x, s, items@, depth + 1, run.parts, items@.len() as int);
            },
            ExprKind::Access { operand, .. } => {
                lemma_quiet(x, s, *operand, depth, run.parts[0]);
            },
            ExprKind::Index { operand, key } => {
                lemma_quiet(x, s, *operand, depth, run.parts[0]);
                if run.parts.len() == 2 {
                    lemma_quiet(x, run.parts[0].end, *key, depth, run.parts[1]);
                }
            },
            ExprKind::Call { name, operand } => {
                if name.ident@ == concat_name() {
                    assert(concatenates(x, s, *operand, e.span, depth, run));
                    lemma_quiet(x, s, *operand, depth, run.parts[0]);
                } else if name.ident@ == import_name() {
                    assert(imports(x, s, *operand, e.span, depth, run));
                }
            },
            ExprKind::Interpolation(pieces) => {
                lemma_quiet_pieces(x, s, pieces@, depth, e.span, run.parts, run.texts, pieces@.len() as int);
            },
            _ => {},
        }
    }
}

/// Reading bindings that spell no path reads no file.
proof fn lemma_quiet_bindings(x: Setting, s: Stage, bs: Seq<Binding>, depth: int, runs: Seq<Run>, n: int)
    requires
        0 <= n <= runs.len(),
        n <= bs.len(),
        bindings_ran(x, s, bs, depth, runs, n),
        forall|i: int| 0 <= i < bs.len() ==> (#[trigger] literals(bs[i].value)).len() == 0,
    ensures
        binding_stage(s, bs, runs, n).loaded == s.loaded,
    decreases bs, n,
{
    if n > 0 {
        lemma_quiet_bindings(x, s, bs, depth, runs, n - 1);
        assert(literals(bs[n - 1].value).len() == 0);
        lemma_quiet(x, binding_stage(s, bs, runs, n - 1), bs[n - 1].value, depth, runs[n - 1]);
    }
}

/// Reading fields that spell no path reads no file.
proof fn lemma_quiet_fields(x: Setting, m: Stage, fs: Seq<Field>, depth: int, runs: Seq<Run>, n: int)
    requires
        0 <= n <= fs.len(),
        field_literals(fs, n).len() == 0,
        fields_fold(x, m, fs, depth, runs, n) is Some,
    ensures
        fields_fold(x, m, fs, depth, runs, n) matches Some((f, _, _)) && f.loaded == m.loaded,
    decreases fs, n,
{
    if n > 0 {
        lemma_quiet_fields(x, m, fs, depth, runs, n - 1);
        if let Some((p, Ok(_), used)) = fields_fold(x, m, fs, depth, runs, n - 1) {
            lemma_quiet(x, p, fs[n - 1].value, depth, runs[used]);
        }
    }
}

/// Reading entries that spell no path reads no file.
proof fn lemma_quiet_entries(x: Setting, m: Stage, es: Seq<Entry>, depth: int, runs: Seq<Run>, n: int)
    requires
        0 <= n <= es.len(),
        entry_literals(es, n).len() == 0,
        entries_fold(x, m, es, depth, runs, n) is Some,
    ensures
        entries_fold(x, m, es, depth, runs, n) matches Some((f, _, _)) && f.loaded == m.loaded,
    decreases es, n,
{
    if n > 0 {
        lemma_quiet_entries(x, m, es, depth, runs, n - 1);
        if let Some((p, Ok(_), used)) = entries_fold(x, m, es, depth, runs, n - 1) {
            lemma_quiet(x, p, es[n - 1].key, depth, runs[used]);
            if runs[used].read is Ok {
                lemma_quiet(x, runs[used].end, es[n - 1].value, depth, runs[used + 1]);
            }
        }
    }
}

/// Reading items that spell no path reads no file.
proof fn lemma_quiet_items(x: Setting, m: Stage, items: Seq<Expr>, depth: int, runs: Seq<Run>, n: int)
    requires
        0 <= n <= items.len(),
        item_literals(items, n).len() == 0,
        items_fold(x, m, items, depth, runs, n) is Some,
    ensures
        items_fold(x, m, items, depth, runs, n) matches Some((f, _, _)) && f.loaded == m.loaded,
    decreases items, n,
{
    if n > 0 {
        lemma_quiet_items(x, m, items, depth, runs, n - 1);
        if let Some((p, Ok(_), used)) = items_fold(x, m, items, depth, runs, n - 1) {
            lemma_quiet(x, p, items[n - 1], depth, runs[used]);
        }
    }
}

/// Reading pieces whose holes spell no path reads no file.
proof fn lemma_quiet_pieces(x: Setting, m: Stage, pieces: Seq<Piece>, depth: int, span: Span, runs: Seq<Run>,
    texts: Seq<Result<String, ErrorKind>>, n: int)
    requires
        0 <= n <= pieces.len(),
        piece_literals(pieces, n).len() == 0,
        pieces_fold(x, m, pieces, depth, span, runs, texts, n) is Some,
    ensures
        pieces_fold(x, m, pieces, depth, span, runs, texts, n) matches Some((f, _, _)) && f.loaded == m.loaded,
    decreases pieces, n,
{
    if n > 0 {
        lemma_quiet_pieces(x, m, pieces, depth, span, runs, texts, n - 1);
        if let Some((p, Ok(_), used)) = pieces_fold(x, m, pieces, depth, span, runs, texts, n - 1) {
            if let Piece::Hole { expr, .. } = pieces[n - 1] {
                lemma_quiet(x, p, expr, depth, runs[used]);
            }
        }
    }
}

/// Law: a reduction's value nests no deeper than the canonical form allows, so that what
/// a document reduces to is a value the canonical parser could read back.
pub proof fn lemma_reduction_nests_within_limit(document: Document, origin: Option<Seq<char>>, open: Seq<Seq<char>>,
    files: Files, read: Result<Value, Error>, imported: Seq<Seq<char>>)
    requires
        reduction(document, origin, open, files, read, imported),
    ensures
        read matches Ok(v) ==> height(v) <= MAX_DEPTH + 1,
{
    let x = Setting { origin, open, files };
    let run = choose|run: Run| #[trigger] document_ran(x, fresh(), document, run)
        && run.read == read && imported == run.end.loaded.map_values(|h: Held| h.name);
    let bs = document.bindings@;
    assert(measured(fresh()));
    if all_bound(bs, run.binds) {
        lemma_nests_bindings(x, fresh(), bs, 0, run.binds, run.binds.len() as int);
        lemma_nests(x, binding_stage(fresh(), bs, run.binds, run.binds.len() as int), document.value, 0, run.parts[0]);
    }
}

/// A stage that holds every value measured keeps doing so past a payment or a cut.
proof fn lemma_measured_paid_cut(s: Stage, values: int, frame: int)
    requires
        measured(s),
        0 <= frame <= s.scope.len(),
    ensures
        measured(paid(s, values)),
        measured(cut(s, frame)),
{
    assert forall|i: int| 0 <= i < cut(s, frame).scope.len() implies #[trigger] cut(s, frame).scope[i]
        == held(cut(s, frame).scope[i].name, cut(s, frame).scope[i].value) by {
        assert(cut(s, frame).scope[i] == s.scope[i]);
    }
}

/// Reading bindings from a measured stage leaves a measured one whose scope extends the
/// scope it started from.
proof fn lemma_nests_bindings(x: Setting, s: Stage, bs: Seq<Binding>, depth: int, runs: Seq<Run>, n: int)
    requires
        0 <= n <= runs.len(),
        n <= bs.len(),
        0 <= depth,
        bindings_ran(x, s, bs, depth, runs, n),
        measured(s),
    ensures
        measured(binding_stage(s, bs, runs, n)),
        binding_stage(s, bs, runs, n).scope.len() >= s.scope.len(),
        binding_stage(s, bs, runs, n).scope.take(s.scope.len() as int) =~= s.scope,
    decreases bs, n,
{
    if n > 0 {
        lemma_nests_bindings(x, s, bs, depth, runs, n - 1);
        let p = binding_stage(s, bs, runs, n - 1);
        lemma_nests(x, p, bs[n - 1].value, depth, runs[n - 1]);
        let t = binding_stage(s, bs, runs, n);
        let e = runs[n - 1].end;
        assert(e.scope == p.scope);
        assert forall|i: int| 0 <= i < t.scope.len() implies #[trigger] t.scope[i] == held(t.scope[i].name, t.scope[i].value) by {
            if i < e.scope.len() {
                assert(t.scope[i] == e.scope[i]);
            }
        }
        assert forall|i: int| 0 <= i < s.scope.len() implies #[trigger] t.scope.take(s.scope.len() as int)[i] == s.scope[i] by {
            assert(t.scope[i] == e.scope[i]);
            assert(p.scope.take(s.scope.len() as int)[i] == p.scope[i]);
        }
    }
}

/// Reducing an expression from a measured stage leaves a measured one, and where it reads
/// a value, leaves the scope as it was and reads one that nests no deeper than the limit
/// allows where it stands.
proof fn lemma_nests(x: Setting, s: Stage, e: Expr, depth: int, run: Run)
    requires
        yields(x, s, e, depth, run),
        measured(s),
        0 <= depth,
    ensures
        measured(run.end),
        run.read is Ok ==> run.end.scope == s.scope,
        run.read matches Ok(v) ==> height(v) + depth <= MAX_DEPTH + 1,
    decreases e, 1nat,
{
    lemma_measured_paid_cut(s, 1, 0);
    if depth <= MAX_DEPTH {
        match e.kind {
            ExprKind::Reference(name) => {
                if let Some(k) = innermost(s.scope, name@, s.scope.len() as int) {
                    lemma_innermost_within(s.scope, name@, s.scope.len() as int);
                    lemma_measured_paid_cut(s, s.scope[k].values as int, 0);
                    if let Ok(v) = run.read {
                        lemma_same_height(v, s.scope[k].value);
                    }
                }
            },
            ExprKind::Tuple { bindings, fields } => {
                let bs = bindings@;
                assert(bindings_run(x, s, bs, depth, run.binds));
                if all_bound(bs, run.binds) {
                    lemma_nests_bindings(x, s, bs, depth, run.binds, run.binds.len() as int);
                    let m = binding_stage(s, bs, run.binds, run.binds.len() as int);
                    lemma_nests_fields(x, m, fields@, depth + 1, run.parts, fields@.len() as int);
                    if let Some((f, Ok(built), _)) = fields_fold(x, m, fields@, depth + 1, run.parts, fields@.len() as int) {
                        lemma_measured_paid_cut(f, 0, s.scope.len() as int);
                        lemma_measured_paid_cut(cut(f, s.scope.len() as int), 1, 0);
                        assert(cut(f, s.scope.len() as int).scope =~= s.scope);
                        if let Ok(Value::Tuple(t)) = run.read {
                            lemma_tuple_height(t, (MAX_DEPTH - depth) as nat);
                        }
                    }
                } else {
                    lemma_nests_bindings(x, s, bs, depth, run.binds, run.binds.len() - 1);
                    lemma_nests(x, binding_stage(s, bs, run.binds, run.binds.len() - 1), bs[run.binds.len() - 1].value, depth, run.binds.last());
                }
            },
            ExprKind::Mapping { bindings, entries } => {
                let bs = bindings@;
                assert(bindings_run(x, s, bs, depth, run.binds));
                if all_bound(bs, run.binds) {
                    lemma_nests_bindings(x, s, bs, depth, run.binds, run.binds.len() as int);
                    let m = binding_stage(s, bs, run.binds, run.binds.len() as int);
                    lemma_nests_entries(x, m, entries@, depth + 1, run.parts, entries@.len() as int);
                    if let Some((f, Ok(built), _)) = entries_fold(x, m, entries@, depth + 1, run.parts, entries@.len() as int) {
                        lemma_measured_paid_cut(f, 0, s.scope.len() as int);
                        lemma_measured_paid_cut(cut(f, s.scope.len() as int), 1, 0);
                        assert(cut(f, s.scope.len() as int).scope =~= s.scope);
                        if let Ok(Value::Mapping(map)) = run.read {
                            lemma_mapping_height(map, (MAX_DEPTH - depth) as nat);
                        }
                    }
                } else {
                    lemma_nests_bindings(x, s, bs, depth, run.binds, run.binds.len() - 1);
                    lemma_nests(x, binding_stage(s, bs, run.binds, run.binds.len() - 1), bs[run.binds.len() - 1].value, depth, run.binds.last());
                }
            },
            ExprKind::List(items) => {
                lemma_nests_items(x, s, items@, depth + 1, run.parts, items@.len() as int);
                if let Some((f, Ok(built), _)) = items_fold(x, s, items@, depth + 1, run.parts, items@.len() as int) {
                    lemma_measured_paid_cut(f, 1, 0);
                    if let Ok(Value::List(values)) = run.read {
                        lemma_list_height(values, (MAX_DEPTH - depth) as nat);
                    }
                }
            },
            ExprKind::Access { operand, .. } => {
                lemma_nests(x, s, *operand, depth, run.parts[0]);
                if let Ok(Value::Tuple(t)) = run.parts[0].read {
                    if let Ok(v) = run.read {
                        let i = choose|i: int| 0 <= i < t.names().len() && t.names()[i] == e.kind->field.ident@
                            && run.read == Ok::<Value, Error>(t.values()[i]);
                        lemma_tuple_lengths(t);
                        lemma_tuple_member_height(t, i);
                    }
                }
            },
            ExprKind::Index { operand, key } => {
                lemma_nests(x, s, *operand, depth, run.parts[0]);
                if run.parts.len() == 2 {
                    lemma_nests(x, run.parts[0].end, *key, depth, run.parts[1]);
                    if let Ok(v) = run.read {
                        if let Ok(keyed) = run.parts[0].read {
                            if let Ok(at) = run.parts[1].read {
                                match keyed {
                                    Value::Mapping(map) => {
                                        let i = choose|i: int| 0 <= i < map.keys().len() && same(map.keys()[i], at)
                                            && (forall|j: int| 0 <= j < i ==> !same(map.keys()[j], at))
                                            && run.read == Ok::<Value, Error>(map.values()[i]);
                                        lemma_mapping_lengths(map);
                                        lemma_mapping_member_height(map, i);
                                    },
                                    Value::List(values) => {
                                        let i = position_of(at, values@.len() as int)->Some_0;
                                        lemma_list_member_height(values, i);
                                    },
                                    _ => {},
                                }
                            }
                        }
                    }
                }
            },
            ExprKind::Call { name, operand } => {
                if name.ident@ == concat_name() {
                    assert(concatenates(x, s, *operand, e.span, depth, run));
                    lemma_nests(x, s, *operand, depth, run.parts[0]);
                    lemma_measured_paid_cut(run.parts[0].end, 1, 0);
                    if let Ok(v) = run.read {
                        lemma_scalar_height(v);
                    }
                } else if name.ident@ == import_name() {
                    lemma_nests_import(x, s, *operand, e.span, depth, run);
                }
            },
            ExprKind::Interpolation(pieces) => {
                lemma_nests_pieces(x, s, pieces@, depth, e.span, run.parts, run.texts, pieces@.len() as int);
                if let Some((f, Ok(built), _)) = pieces_fold(x, s, pieces@, depth, e.span, run.parts, run.texts, pieces@.len() as int) {
                    lemma_measured_paid_cut(f, 1, 0);
                    if let Ok(v) = run.read {
                        lemma_scalar_height(v);
                    }
                }
            },
            _ => {
                if let Ok(v) = run.read {
                    lemma_scalar_height(v);
                }
            },
        }
    }
}

/// Importing from a measured stage leaves a measured one, and where it reads a value,
/// leaves the scope as it was and reads one that nests no deeper than the limit allows.
proof fn lemma_nests_import(x: Setting, s: Stage, operand: Expr, span: Span, depth: int, run: Run)
    requires
        imports(x, s, operand, span, depth, run),
        measured(s),
        0 <= depth <= MAX_DEPTH,
    ensures
        measured(run.end),
        run.read is Ok ==> run.end.scope == s.scope,
        run.read matches Ok(v) ==> height(v) + depth <= MAX_DEPTH + 1,
{
    if let ExprKind::String(literal) = operand.kind {
        if let Some(origin) = x.origin {
            if let Some(i) = resolution_at(x.files.resolved@, origin, literal@, x.files.resolved@.len() as int) {
                if let Ok(path) = x.files.resolved@[i].path {
                    if !(exists|k: int| 0 <= k < x.open.len() && x.open[k] == path@) {
                        match cached_at(s.loaded, path@, s.loaded.len() as int) {
                            Some(k) => {
                                lemma_cached_at_within(s.loaded, path@, s.loaded.len() as int);
                                lemma_measured_paid_cut(s, s.loaded[k].values as int, 0);
                                if let Ok(v) = run.read {
                                    lemma_same_height(v, s.loaded[k].value);
                                }
                            },
                            None => {
                                let l = run.parts[0];
                                if let Ok(_) = l.read {
                                    assert(loads(s, path@, span, l));
                                    lemma_measured_paid_cut(l.end, l.end.loaded.last().values as int, 0);
                                    if let Ok(v) = run.read {
                                        lemma_same_height(v, l.end.loaded.last().value);
                                    }
                                } else {
                                    if x.open.len() < MAX_IMPORTS {
                                        if let Some(j) = source_at(x.files.sources@, path@, x.files.sources@.len() as int) {
                                            if x.files.sources@[j].text is Ok {
                                                assert(loads(s, path@, span, l));
                                            }
                                        }
                                    }
                                }
                            },
                        }
                    }
                }
            }
        }
    }
}

/// Where the first file already read with a path stands, it stands among them.
proof fn lemma_cached_at_within(loaded: Seq<Held>, path: Seq<char>, n: int)
    requires
        n <= loaded.len(),
    ensures
        cached_at(loaded, path, n) matches Some(k) ==> 0 <= k < n,
    decreases n,
{
    if n > 0 {
        lemma_cached_at_within(loaded, path, n - 1);
    }
}

/// Where the innermost binding of a name stands, it stands among the bindings.
proof fn lemma_innermost_within(scope: Seq<Held>, name: Seq<char>, n: int)
    requires
        n <= scope.len(),
    ensures
        innermost(scope, name, n) matches Some(k) ==> 0 <= k < n,
    decreases n,
{
    if n > 0 {
        lemma_innermost_within(scope, name, n - 1);
    }
}

/// Reading fields from a measured stage leaves a measured one; where all were read, the
/// scope is as it was and each value read nests no deeper than the limit allows.
proof fn lemma_nests_fields(x: Setting, m: Stage, fs: Seq<Field>, depth: int, runs: Seq<Run>, n: int)
    requires
        0 <= n <= fs.len(),
        0 <= depth,
        fields_fold(x, m, fs, depth, runs, n) is Some,
        measured(m),
    ensures
        fields_fold(x, m, fs, depth, runs, n) matches Some((f, q, _)) && measured(f)
            && (q is Ok ==> f.scope == m.scope)
            && (q matches Ok(built) ==> built.0.len() == built.1.len()
                && forall|i: int| 0 <= i < built.1.len() ==> height(#[trigger] built.1[i]) + depth <= MAX_DEPTH + 1),
    decreases fs, n,
{
    if n > 0 {
        lemma_nests_fields(x, m, fs, depth, runs, n - 1);
        if let Some((p, Ok(built), used)) = fields_fold(x, m, fs, depth, runs, n - 1) {
            lemma_nests(x, p, fs[n - 1].value, depth, runs[used]);
            if let Ok(v) = runs[used].read {
                let after = set_field(built.0, built.1, fs[n - 1].name.ident@, v);
                assert forall|i: int| 0 <= i < after.1.len() implies height(#[trigger] after.1[i]) + depth <= MAX_DEPTH + 1 by {
                    if exists|k: int| 0 <= k < built.0.len() && built.0[k] == fs[n - 1].name.ident@ {
                        let k = choose|k: int| 0 <= k < built.0.len() && built.0[k] == fs[n - 1].name.ident@;
                        assert(after.1 == built.1.update(k, v));
                    } else {
                        assert(after.1 == built.1.push(v));
                    }
                }
            }
        }
    }
}

/// Reading entries from a measured stage leaves a measured one; where all were read, the
/// scope is as it was and each key and value read nests no deeper than the limit allows.
proof fn lemma_nests_entries(x: Setting, m: Stage, es: Seq<Entry>, depth: int, runs: Seq<Run>, n: int)
    requires
        0 <= n <= es.len(),
        0 <= depth,
        entries_fold(x, m, es, depth, runs, n) is Some,
        measured(m),
    ensures
        entries_fold(x, m, es, depth, runs, n) matches Some((f, q, _)) && measured(f)
            && (q is Ok ==> f.scope == m.scope)
            && (q matches Ok(built) ==> (forall|i: int| 0 <= i < built.0.len() ==> height(#[trigger] built.0[i]) + depth <= MAX_DEPTH + 1)
                && (forall|i: int| 0 <= i < built.1.len() ==> height(#[trigger] built.1[i]) + depth <= MAX_DEPTH + 1)),
    decreases es, n,
{
    if n > 0 {
        lemma_nests_entries(x, m, es, depth, runs, n - 1);
        if let Some((p, Ok(built), used)) = entries_fold(x, m, es, depth, runs, n - 1) {
            lemma_nests(x, p, es[n - 1].key, depth, runs[used]);
            if runs[used].read is Ok {
                lemma_nests(x, runs[used].end, es[n - 1].value, depth, runs[used + 1]);
            }
        }
    }
}

/// Reading items from a measured stage leaves a measured one; where all were read, the
/// scope is as it was and each value read nests no deeper than the limit allows.
proof fn lemma_nests_items(x: Setting, m: Stage, items: Seq<Expr>, depth: int, runs: Seq<Run>, n: int)
    requires
        0 <= n <= items.len(),
        0 <= depth,
        items_fold(x, m, items, depth, runs, n) is Some,
        measured(m),
    ensures
        items_fold(x, m, items, depth, runs, n) matches Some((f, q, _)) && measured(f)
            && (q is Ok ==> f.scope == m.scope)
            && (q matches Ok(built) ==> forall|i: int| 0 <= i < built.len() ==> height(#[trigger] built[i]) + depth <= MAX_DEPTH + 1),
    decreases items, n,
{
    if n > 0 {
        lemma_nests_items(x, m, items, depth, runs, n - 1);
        if let Some((p, Ok(built), used)) = items_fold(x, m, items, depth, runs, n - 1) {
            lemma_nests(x, p, items[n - 1], depth, runs[used]);
        }
    }
}

/// Reading pieces from a measured stage leaves a measured one; where all were read, the
/// scope is as it was.
proof fn lemma_nests_pieces(x: Setting, m: Stage, pieces: Seq<Piece>, depth: int, span: Span, runs: Seq<Run>,
    texts: Seq<Result<String, ErrorKind>>, n: int)
    requires
        0 <= n <= pieces.len(),
        0 <= depth,
        pieces_fold(x, m, pieces, depth, span, runs, texts, n) is Some,
        measured(m),
    ensures
        pieces_fold(x, m, pieces, depth, span, runs, texts, n) matches Some((f, q, _)) && measured(f)
            && (q is Ok ==> f.scope == m.scope),
    decreases pieces, n,
{
    if n > 0 {
        lemma_nests_pieces(x, m, pieces, depth, span, runs, texts, n - 1);
        if let Some((p, Ok(built), used)) = pieces_fold(x, m, pieces, depth, span, runs, texts, n - 1) {
            if let Piece::Hole { expr, .. } = pieces[n - 1] {
                lemma_nests(x, p, expr, depth, runs[used]);
            }
        }
    }
}

/// Whether a file's reduction read what its load reports: a value where the load
/// succeeded, the same fault where it failed.
pub open spec fn kept(read: Result<Value, Error>, loaded: Result<(), Error>) -> bool {
    match loaded {
        Ok(_) => read is Ok,
        Err(err) => read == Err::<Value, Error>(err),
    }
}

/// Runs that read the first `n` bindings still do with more runs after them.
proof fn lemma_bindings_ran_prefix(x: Setting, s: Stage, bs: Seq<Binding>, depth: int, runs: Seq<Run>, more: Seq<Run>, n: int)
    requires
        0 <= n <= runs.len() <= more.len(),
        more.take(runs.len() as int) =~= runs,
        bindings_ran(x, s, bs, depth, runs, n),
    ensures
        bindings_ran(x, s, bs, depth, more, n),
    decreases n,
{
    if n > 0 {
        lemma_bindings_ran_prefix(x, s, bs, depth, runs, more, n - 1);
        assert(more[n - 1] == more.take(runs.len() as int)[n - 1]);
        if n >= 2 {
            assert(more[n - 2] == more.take(runs.len() as int)[n - 2]);
        }
        assert(binding_stage(s, bs, more, n - 1) == binding_stage(s, bs, runs, n - 1));
    }
}

/// Reading fields with runs that sufficed reads them the same with more runs after them.
proof fn lemma_fields_fold_extends(x: Setting, m: Stage, fs: Seq<Field>, depth: int, runs: Seq<Run>, more: Seq<Run>, n: int)
    requires
        0 <= n,
        runs.len() <= more.len(),
        more.take(runs.len() as int) =~= runs,
        fields_fold(x, m, fs, depth, runs, n) is Some,
    ensures
        fields_fold(x, m, fs, depth, more, n) == fields_fold(x, m, fs, depth, runs, n),
    decreases n,
{
    if n > 0 && n <= fs.len() {
        lemma_fields_fold_extends(x, m, fs, depth, runs, more, n - 1);
        if let Some((_, Ok(_), used)) = fields_fold(x, m, fs, depth, runs, n - 1) {
            if 0 <= used < runs.len() {
                assert(more[used] == more.take(runs.len() as int)[used]);
            }
        }
    }
}

/// Once reading fields has failed, it has failed the same way however many fields follow.
proof fn lemma_fields_fold_stays(x: Setting, m: Stage, fs: Seq<Field>, depth: int, runs: Seq<Run>, k: int, n: int)
    requires
        0 <= k <= n <= fs.len(),
        fields_fold(x, m, fs, depth, runs, k) matches Some((_, q, _)) && q is Err,
    ensures
        fields_fold(x, m, fs, depth, runs, n) == fields_fold(x, m, fs, depth, runs, k),
    decreases n - k,
{
    if k < n {
        lemma_fields_fold_stays(x, m, fs, depth, runs, k, n - 1);
    }
}

/// Reading entries with runs that sufficed reads them the same with more runs after them.
proof fn lemma_entries_fold_extends(x: Setting, m: Stage, es: Seq<Entry>, depth: int, runs: Seq<Run>, more: Seq<Run>, n: int)
    requires
        0 <= n,
        runs.len() <= more.len(),
        more.take(runs.len() as int) =~= runs,
        entries_fold(x, m, es, depth, runs, n) is Some,
    ensures
        entries_fold(x, m, es, depth, more, n) == entries_fold(x, m, es, depth, runs, n),
    decreases n,
{
    if n > 0 && n <= es.len() {
        lemma_entries_fold_extends(x, m, es, depth, runs, more, n - 1);
        if let Some((_, Ok(_), used)) = entries_fold(x, m, es, depth, runs, n - 1) {
            if 0 <= used < runs.len() {
                assert(more[used] == more.take(runs.len() as int)[used]);
            }
            if 0 <= used + 1 < runs.len() {
                assert(more[used + 1] == more.take(runs.len() as int)[used + 1]);
            }
        }
    }
}

/// Once reading entries has failed, it has failed the same way however many entries follow.
proof fn lemma_entries_fold_stays(x: Setting, m: Stage, es: Seq<Entry>, depth: int, runs: Seq<Run>, k: int, n: int)
    requires
        0 <= k <= n <= es.len(),
        entries_fold(x, m, es, depth, runs, k) matches Some((_, q, _)) && q is Err,
    ensures
        entries_fold(x, m, es, depth, runs, n) == entries_fold(x, m, es, depth, runs, k),
    decreases n - k,
{
    if k < n {
        lemma_entries_fold_stays(x, m, es, depth, runs, k, n - 1);
    }
}

/// Reading items with runs that sufficed reads them the same with more runs after them.
proof fn lemma_items_fold_extends(x: Setting, m: Stage, items: Seq<Expr>, depth: int, runs: Seq<Run>, more: Seq<Run>, n: int)
    requires
        0 <= n,
        runs.len() <= more.len(),
        more.take(runs.len() as int) =~= runs,
        items_fold(x, m, items, depth, runs, n) is Some,
    ensures
        items_fold(x, m, items, depth, more, n) == items_fold(x, m, items, depth, runs, n),
    decreases n,
{
    if n > 0 && n <= items.len() {
        lemma_items_fold_extends(x, m, items, depth, runs, more, n - 1);
        if let Some((_, Ok(_), used)) = items_fold(x, m, items, depth, runs, n - 1) {
            if 0 <= used < runs.len() {
                assert(more[used] == more.take(runs.len() as int)[used]);
            }
        }
    }
}

/// Once reading items has failed, it has failed the same way however many items follow.
proof fn lemma_items_fold_stays(x: Setting, m: Stage, items: Seq<Expr>, depth: int, runs: Seq<Run>, k: int, n: int)
    requires
        0 <= k <= n <= items.len(),
        items_fold(x, m, items, depth, runs, k) matches Some((_, q, _)) && q is Err,
    ensures
        items_fold(x, m, items, depth, runs, n) == items_fold(x, m, items, depth, runs, k),
    decreases n - k,
{
    if k < n {
        lemma_items_fold_stays(x, m, items, depth, runs, k, n - 1);
    }
}

/// Reading pieces with runs and texts that sufficed reads them the same with more after
/// them.
proof fn lemma_pieces_fold_extends(x: Setting, m: Stage, pieces: Seq<Piece>, depth: int, span: Span, runs: Seq<Run>,
    texts: Seq<Result<String, ErrorKind>>, more: Seq<Run>, noted: Seq<Result<String, ErrorKind>>, n: int)
    requires
        0 <= n,
        runs.len() <= more.len(),
        texts.len() <= noted.len(),
        more.take(runs.len() as int) =~= runs,
        noted.take(texts.len() as int) =~= texts,
        pieces_fold(x, m, pieces, depth, span, runs, texts, n) is Some,
    ensures
        pieces_fold(x, m, pieces, depth, span, more, noted, n) == pieces_fold(x, m, pieces, depth, span, runs, texts, n),
    decreases n,
{
    if n > 0 && n <= pieces.len() {
        lemma_pieces_fold_extends(x, m, pieces, depth, span, runs, texts, more, noted, n - 1);
        if let Some((_, Ok(_), used)) = pieces_fold(x, m, pieces, depth, span, runs, texts, n - 1) {
            if 0 <= used < runs.len() {
                assert(more[used] == more.take(runs.len() as int)[used]);
            }
            if 0 <= used < texts.len() {
                assert(noted[used] == noted.take(texts.len() as int)[used]);
            }
        }
    }
}

/// Once reading pieces has failed, it has failed the same way however many pieces follow.
proof fn lemma_pieces_fold_stays(x: Setting, m: Stage, pieces: Seq<Piece>, depth: int, span: Span, runs: Seq<Run>,
    texts: Seq<Result<String, ErrorKind>>, k: int, n: int)
    requires
        0 <= k <= n <= pieces.len(),
        pieces_fold(x, m, pieces, depth, span, runs, texts, k) matches Some((_, q, _)) && q is Err,
    ensures
        pieces_fold(x, m, pieces, depth, span, runs, texts, n) == pieces_fold(x, m, pieces, depth, span, runs, texts, k),
    decreases n - k,
{
    if k < n {
        lemma_pieces_fold_stays(x, m, pieces, depth, span, runs, texts, k, n - 1);
    }
}

/// Once a join has failed, it fails for the same reason however many parts follow.
proof fn lemma_joined_stays(parts: Seq<Value>, k: int, n: int)
    requires
        0 <= k <= n,
        joined(parts, k) is Err,
    ensures
        joined(parts, n) == joined(parts, k),
    decreases n - k,
{
    if k < n {
        lemma_joined_stays(parts, k, n - 1);
    }
}

/// Once a file already read is found, later ones do not change where.
proof fn lemma_cached_at_stays(loaded: Seq<Held>, path: Seq<char>, k: int, n: int)
    requires
        0 <= k <= n,
        cached_at(loaded, path, k) is Some,
    ensures
        cached_at(loaded, path, n) == cached_at(loaded, path, k),
    decreases n - k,
{
    if k < n {
        lemma_cached_at_stays(loaded, path, k, n - 1);
    }
}

/// Once a resolution is found, later ones do not change which.
proof fn lemma_resolution_at_stays(resolved: Seq<Resolved>, origin: Seq<char>, literal: Seq<char>, k: int, n: int)
    requires
        0 <= k <= n,
        resolution_at(resolved, origin, literal, k) is Some,
    ensures
        resolution_at(resolved, origin, literal, n) == resolution_at(resolved, origin, literal, k),
    decreases n - k,
{
    if k < n {
        lemma_resolution_at_stays(resolved, origin, literal, k, n - 1);
    }
}

/// Once a file the host read is found, later ones do not change which.
proof fn lemma_source_at_stays(sources: Seq<Source>, path: Seq<char>, k: int, n: int)
    requires
        0 <= k <= n,
        source_at(sources, path, k) is Some,
    ensures
        source_at(sources, path, n) == source_at(sources, path, k),
    decreases n - k,
{
    if k < n {
        lemma_source_at_stays(sources, path, k, n - 1);
    }
}

/// The position a list's key names: a non-negative integer below the list's length.
fn position(key: &Value, len: usize) -> (at: Option<usize>)
    ensures
        match at {
            Some(i) => position_of(*key, len as int) == Some(i as int),
            None => position_of(*key, len as int) is None,
        },
{
    match key {
        Value::Integer(integer) => match integer.to_i64() {
            Some(i) => {
                if i >= 0 && (i as u64) < (len as u64) {
                    Some(i as usize)
                } else {
                    None
                }
            },
            None => None,
        },
        _ => None,
    }
}

} // verus!

verus! {

/// A location as `line:column`.
pub open spec fn location_text(at: Location) -> Seq<char> {
    radix_digits(at.line as nat, 10, false) + seq![':'] + radix_digits(at.column as nat, 10, false)
}

fn append_location(text: &mut String, at: Location)
    ensures
        final(text)@ == old(text)@ + location_text(at),
{
    let line = radix_text(at.line as u128, 10, false);
    let column = radix_text(at.column as u128, 10, false);
    let ghost start = text@;
    append_chars(text, &line);
    push_char(text, ':');
    append_chars(text, &column);
    assert(text@ =~= start + location_text(at));
}

/// What a reduction's fault says, in words.
pub open spec fn message_of(kind: ErrorKind) -> Seq<char>
    decreases kind,
{
    match kind {
        ErrorKind::Syntax(error) => crate::error::message_of(error.kind),
        ErrorKind::Unbound(s) => "`"@ + s@ + "` is not bound here; a name is visible below its own binding, and only inside the block that makes it"@,
        ErrorKind::NotATuple => "only a tuple has fields; a map has entries keyed by values and a list has positions, and `.(key)` is what reads either"@,
        ErrorKind::NoSuchField(s) => "this tuple has no field `"@ + s@ + "`"@,
        ErrorKind::NotKeyed => "only a map and a list are read by a key; a tuple's fields are named, so `.name` reads one"@,
        ErrorKind::NoSuchKey => "nothing is at this key; a map's keys are the ones its entries spell and a list's are its positions"@,
        ErrorKind::DuplicateKey => "this key is already in this map"@,
        ErrorKind::TooDeep => "this value nests deeper than 128 levels"@,
        ErrorKind::TooLarge => "this document expands past 1048576 values"@,
        ErrorKind::TooLong => "this string grows past 1048576 bytes"@,
        ErrorKind::NoSuchBuiltin(s) => "there is no builtin `"@ + s@ + "`; `@` names one, and the name is not a binding"@,
        ErrorKind::NotAList => "`@concat` takes a list, because a call takes one operand and a builtin wanting more takes a collection"@,
        ErrorKind::NotAString => "`@concat` puts strings end to end; a number, an atom or a collection meant as text is written as text"@,
        ErrorKind::NoText => "an atom is uninterpreted and a collection's text would be Nuke's own syntax, so neither is text a hole can hand over; a string and an integer are, and a float is once it is told a precision"@,
        ErrorKind::NeedsPrecision => "a float has more than one canonical spelling, so a hole is told how many digits follow the point: `{opacity:.2}`"@,
        ErrorKind::UnfitSpec => "this specifier asks for what this form has not got: a precision counts the digits after a point, a radix respells an integer that is not negative, Nuke's integers having no width for a two's complement to depend on, a sign belongs to a number, `#` to a radix, and `0` to a width it does not share with a fill or an alignment"@,
        ErrorKind::TooWide => "this integer is past what another radix can be computed in; a decimal one is the text it was written as, and any other is arithmetic"@,
        ErrorKind::ExpectedImportPath => "`@import` takes a string literal, so that what a file imports is a property of its text"@,
        ErrorKind::NoOrigin => "an import resolves against the file that spells it, and this document has no file of its own"@,
        ErrorKind::Unreadable { path, cause } => "`"@ + path@ + "` cannot be read: "@ + cause@,
        ErrorKind::ImportCycle(s) => "`"@ + s@ + "` is already being imported, and a file cannot be part of its own value"@,
        ErrorKind::ImportsTooDeep => "an import chain reaches deeper than 64 files"@,
        ErrorKind::Import { path, at, cause } => "importing `"@ + path@ + "` failed at "@ + location_text(at) + ": "@ + message_of(cause.kind_of()),
    }
}

impl ErrorKind {
    /// What the fault says, in words.
    pub fn message(&self) -> (message: String)
        ensures
            message@ == message_of(*self),
        decreases *self,
    {
        let mut text = String::new();
        match self {
            ErrorKind::Syntax(error) => {
                let inner = error.kind.message();
                append(&mut text, inner.as_str());
            },
            ErrorKind::Unbound(s) => {
                append(&mut text, "`");
                append(&mut text, s.as_str());
                append(&mut text, "` is not bound here; a name is visible below its own binding, and only inside the block that makes it");
            },
            ErrorKind::NotATuple => append(&mut text, "only a tuple has fields; a map has entries keyed by values and a list has positions, and `.(key)` is what reads either"),
            ErrorKind::NoSuchField(s) => {
                append(&mut text, "this tuple has no field `");
                append(&mut text, s.as_str());
                append(&mut text, "`");
            },
            ErrorKind::NotKeyed => append(&mut text, "only a map and a list are read by a key; a tuple's fields are named, so `.name` reads one"),
            ErrorKind::NoSuchKey => append(&mut text, "nothing is at this key; a map's keys are the ones its entries spell and a list's are its positions"),
            ErrorKind::DuplicateKey => append(&mut text, "this key is already in this map"),
            ErrorKind::TooDeep => append(&mut text, "this value nests deeper than 128 levels"),
            ErrorKind::TooLarge => append(&mut text, "this document expands past 1048576 values"),
            ErrorKind::TooLong => append(&mut text, "this string grows past 1048576 bytes"),
            ErrorKind::NoSuchBuiltin(s) => {
                append(&mut text, "there is no builtin `");
                append(&mut text, s.as_str());
                append(&mut text, "`; `@` names one, and the name is not a binding");
            },
            ErrorKind::NotAList => append(&mut text, "`@concat` takes a list, because a call takes one operand and a builtin wanting more takes a collection"),
            ErrorKind::NotAString => append(&mut text, "`@concat` puts strings end to end; a number, an atom or a collection meant as text is written as text"),
            ErrorKind::NoText => append(&mut text, "an atom is uninterpreted and a collection's text would be Nuke's own syntax, so neither is text a hole can hand over; a string and an integer are, and a float is once it is told a precision"),
            ErrorKind::NeedsPrecision => append(&mut text, "a float has more than one canonical spelling, so a hole is told how many digits follow the point: `{opacity:.2}`"),
            ErrorKind::UnfitSpec => append(&mut text, "this specifier asks for what this form has not got: a precision counts the digits after a point, a radix respells an integer that is not negative, Nuke's integers having no width for a two's complement to depend on, a sign belongs to a number, `#` to a radix, and `0` to a width it does not share with a fill or an alignment"),
            ErrorKind::TooWide => append(&mut text, "this integer is past what another radix can be computed in; a decimal one is the text it was written as, and any other is arithmetic"),
            ErrorKind::ExpectedImportPath => append(&mut text, "`@import` takes a string literal, so that what a file imports is a property of its text"),
            ErrorKind::NoOrigin => append(&mut text, "an import resolves against the file that spells it, and this document has no file of its own"),
            ErrorKind::Unreadable { path, cause } => {
                append(&mut text, "`");
                append(&mut text, path.as_str());
                append(&mut text, "` cannot be read: ");
                append(&mut text, cause.as_str());
            },
            ErrorKind::ImportCycle(s) => {
                append(&mut text, "`");
                append(&mut text, s.as_str());
                append(&mut text, "` is already being imported, and a file cannot be part of its own value");
            },
            ErrorKind::ImportsTooDeep => append(&mut text, "an import chain reaches deeper than 64 files"),
            ErrorKind::Import { path, at, cause } => {
                append(&mut text, "importing `");
                append(&mut text, path.as_str());
                append(&mut text, "` failed at ");
                append_location(&mut text, *at);
                append(&mut text, ": ");
                let inner = cause.kind.message();
                append(&mut text, inner.as_str());
            },
        }
        text
    }
}

/// The import deepest in a chain of failed imports: the file it named, the place in that
/// file's importer where it stood, and the fault that ended it; none where the fault is no
/// failed import.
pub closed spec fn innermost_import(error: Error) -> Option<(Seq<char>, Location, ErrorKind)>
    decreases error,
{
    match error.kind {
        ErrorKind::Import { path, at, cause } => match innermost_import(*cause) {
            Some(deeper) => Some(deeper),
            None => Some((path@, at, cause.kind)),
        },
        _ => None,
    }
}

/// Whether `link` is reached from `error` by following the causes of failed imports.
pub open spec fn import_chain(error: Error, link: Error) -> bool
    decreases error,
{
    ||| error == link
    ||| match error.kind {
        ErrorKind::Import { cause, .. } => import_chain(*cause, link),
        _ => false,
    }
}

/// Whether `link` is a failed import on the chain from `error` whose own fault is no failed
/// import: the import that names the file `path` at `at`, and ended with `kind`.
pub open spec fn ends_chain(error: Error, link: Error, path: Seq<char>, at: Location, kind: ErrorKind) -> bool {
    &&& import_chain(error, link)
    &&& link.kind matches ErrorKind::Import { path: p, at: a, cause }
    &&& p@ == path && a == at && !(cause.kind is Import) && cause.kind == kind
}

/// Law: the import found deepest in a chain of failed imports is the one at which the chain
/// ends, the one whose fault is no failed import; and one is found exactly where the fault
/// is a failed import.
pub proof fn lemma_innermost_import_ends_chain(error: Error)
    ensures
        innermost_import(error) is Some <==> error.kind is Import,
        innermost_import(error) is Some ==> exists|link: Error| #[trigger] ends_chain(error, link, innermost_import(error)->Some_0.0,
            innermost_import(error)->Some_0.1, innermost_import(error)->Some_0.2),
    decreases error,
{
    match error.kind {
        ErrorKind::Import { path, at, cause } => {
            assert(decreases_to!(error => *cause));
            lemma_innermost_import_ends_chain(*cause);
            match innermost_import(*cause) {
                Some((p, a, k)) => {
                    assert(innermost_import(error) == Some((p, a, k)));
                    let link = choose|link: Error| #[trigger] ends_chain(*cause, link, p, a, k);
                    assert(import_chain(*cause, link));
                    assert(import_chain(error, link));
                    assert(ends_chain(error, link, p, a, k));
                    assert(innermost_import(error)->Some_0 == (p, a, k));
                    assert(exists|l: Error| #[trigger] ends_chain(error, l, innermost_import(error)->Some_0.0,
                        innermost_import(error)->Some_0.1, innermost_import(error)->Some_0.2));
                },
                None => {
                    assert(innermost_import(error) == Some((path@, at, cause.kind)));
                    assert(import_chain(error, error));
                    assert(ends_chain(error, error, path@, at, cause.kind));
                    let t = innermost_import(error)->Some_0;
                    assert(t.0 == path@ && t.1 == at && t.2 == cause.kind);
                    assert(ends_chain(error, error, t.0, t.1, t.2));
                    assert(exists|l: Error| #[trigger] ends_chain(error, l, innermost_import(error)->Some_0.0,
                        innermost_import(error)->Some_0.1, innermost_import(error)->Some_0.2));
                },
            }
        },
        _ => {},
    }
}

/// The import deepest in a chain of failed imports, with what its fault says.
pub fn deepest_import(error: &Error) -> (found: Option<(String, Location, String)>)
    ensures
        match innermost_import(*error) {
            Some((path, at, kind)) => found matches Some(f) && f.0@ == path && f.1 == at && f.2@ == message_of(kind),
            None => found is None,
        },
        found is Some <==> error.kind is Import,
        found matches Some(f) ==> exists|link: Error, kind: ErrorKind| #[trigger] ends_chain(*error, link, f.0@, f.1, kind)
            && f.2@ == message_of(kind),
    decreases *error,
{
    proof { lemma_innermost_import_ends_chain(*error); }
    match &error.kind {
        ErrorKind::Import { path, at, cause } => {
            proof { assert(decreases_to!(*error => **cause)); }
            match deepest_import(cause) {
                Some(deeper) => Some(deeper),
                None => Some((path.clone(), *at, cause.kind.message())),
            }
        },
        _ => None,
    }
}

} // verus!

