//! Formatting a surface document: its own line breaks kept, its blocks indented by two
//! spaces, and every comment kept where it stood.
use vstd::prelude::*;
use vstd::string::StringSliceAdditionalSpecFns;
use crate::error::Error;
use crate::expr::{Document, Expr, ExprKind, Form};
use crate::lexer::{comment_spans, lemma_step, lexing, Lexer, TokenKind};
use crate::span::{newlines, Span};
use crate::specifier::{chars_in, decode_range};
use crate::surface::{parse, reads, well_formed};
use crate::parser::spells;
use crate::value::{height, Value};
use crate::MAX_DEPTH;
use crate::utf::{decode_at, push_char};

verus! {

/// How many columns a tab advances the cursor when a line is measured.
pub const TABSTOP: usize = 8;

/// The widest a block may print on one line before it is broken one item per line.
pub const WIDTH: usize = 100;

/// Whether a character is Unicode white space, as `char::is_whitespace` decides it.
pub open spec fn is_white(c: char) -> bool {
    ||| 0x09 <= c as u32 <= 0x0D
    ||| c as u32 == 0x20
    ||| c as u32 == 0x85
    ||| c as u32 == 0xA0
    ||| c as u32 == 0x1680
    ||| 0x2000 <= c as u32 <= 0x200A
    ||| c as u32 == 0x2028
    ||| c as u32 == 0x2029
    ||| c as u32 == 0x202F
    ||| c as u32 == 0x205F
    ||| c as u32 == 0x3000
}

fn white(c: char) -> (is: bool)
    ensures
        is == is_white(c),
{
    let code = c as u32;
    (0x09 <= code && code <= 0x0D) || code == 0x20 || code == 0x85 || code == 0xA0 || code == 0x1680
        || (0x2000 <= code && code <= 0x200A) || code == 0x2028 || code == 0x2029 || code == 0x202F
        || code == 0x205F || code == 0x3000
}

/// A formatted text: it ends in one newline, with no white space before it.
pub open spec fn finished(text: Seq<char>) -> bool {
    &&& text.len() >= 1
    &&& text.last() == '\n'
    &&& text.len() >= 2 ==> !is_white(text[text.len() - 2])
}

/// Formats a surface document. A document that does not parse is refused with the parser's
/// fault.
pub fn format(source: &str) -> (formatted: Result<String, Error>)
    ensures
        formatted matches Ok(text) ==> finished(text@),
        formatted matches Ok(text) ==> exists|d: Document| #[trigger] reads(source.spec_bytes(), d)
            && (comment_spans(source.spec_bytes()).len() == 0 && d.bindings@.len() == 0 && d.form == Form::Value
                && alone(source.spec_bytes(), d.value) is Some
                ==> text@ == trim_white(alone(source.spec_bytes(), d.value)->0) + seq!['\n'])
            && (comment_spans(source.spec_bytes()).len() == 0 && d.bindings@.len() == 0 && d.form == Form::Value
                && broken_block(source.spec_bytes(), d.value)
                ==> opens_indented(text@, 0, open_bracket(d.value), 1, item_at(source.spec_bytes(), d.value, 0)->0))
            && (comment_spans(source.spec_bytes()).len() == 0 && d.bindings@.len() == 0 && d.form == Form::Value
                && broken_block(source.spec_bytes(), d.value) && all_solid(source.spec_bytes(), d.value)
                ==> forall|k: int| #![trigger starts_line(source.spec_bytes(), d.value, k)]
                    0 <= k < items(d.value) && starts_line(source.spec_bytes(), d.value, k)
                    ==> exists|at: int| #[trigger] line_opens(text@, at, 1, item_at(source.spec_bytes(), d.value, k)->0)),
        forall|v: Value| spells(source.spec_bytes(), v) && height(v) <= MAX_DEPTH + 1 ==> formatted is Ok,
        formatted is Ok <==> well_formed(source.spec_bytes()),
        formatted matches Ok(text) ==> exists|marks: Seq<int>|
            #[trigger] holds_comments(source.spec_bytes(), comment_spans(source.spec_bytes()), text@, marks),
{
    let document = parse(source)?;
    let comments = comments(source)?;
    let ghost spans = comments@;
    let mut printer = Printer::new(source.as_bytes(), comments);
    printer.document(&document);
    let ghost marks = printer.marks@;
    proof {
        if printer.next < printer.comments@.len() {
            assert(spans[printer.next as int].start < source.spec_bytes().len());
        }
        assert(printer.comments@.subrange(0, printer.next as int) =~= spans);
    }
    let ghost printed = printer.out@;
    let text = printer.finish();
    proof {
        assert(reads(source.spec_bytes(), document));
        if comment_spans(source.spec_bytes()).len() == 0 && document.bindings@.len() == 0 && document.form == Form::Value
            && broken_block(source.spec_bytes(), document.value) {
            assert(!is_white(printed.last()));
            assert(trim_white(printed) == printed);
            lemma_opens_extended(printed, seq!['\n'], 0, open_bracket(document.value), 1, item_at(source.spec_bytes(), document.value, 0)->0);
            if all_solid(source.spec_bytes(), document.value) {
                let bytes = source.spec_bytes();
                let v = document.value;
                assert forall|k: int| #![trigger starts_line(bytes, v, k)] 0 <= k < items(v) && starts_line(bytes, v, k)
                    implies exists|at: int| #[trigger] line_opens(text@, at, 1, item_at(bytes, v, k)->0) by {
                    let at = choose|at: int| #[trigger] line_opens(printed, at, 1, item_at(bytes, v, k)->0);
                    lemma_line_extended(printed, seq!['\n'], at, 1, item_at(bytes, v, k)->0);
                    assert(printed + seq!['\n'] == text@);
                }
            }
        }
        assert(holds_comments(source.spec_bytes(), comment_spans(source.spec_bytes()), text@, marks));
    }
    let formatted: Result<String, Error> = Ok(text);
    proof {
        assert(formatted matches Ok(t) && t@ == text@);
    }
    formatted
}

/// Whether an expression is a number, after which a dot needs a space to stay a dot.
fn numeric(expr: &Expr) -> (is: bool)
    ensures
        is == (expr.kind is Integer || expr.kind is Float),
{
    match expr.kind {
        ExprKind::Integer(_) | ExprKind::Float(_) => true,
        _ => false,
    }
}

/// The spans of the comments in a text, in order, or the lexer's fault.
pub fn comments(source: &str) -> (found: Result<Vec<Span>, Error>)
    ensures
        found is Ok == (lexing(source.spec_bytes()).1 is None),
        found matches Ok(spans) ==> spans@ == comment_spans(source.spec_bytes()),
        found matches Ok(spans) ==> forall|i: int| 0 <= i < spans@.len() ==>
            #[trigger] spans@[i].start < spans@[i].end && spans@[i].end <= source.spec_bytes().len()
            && source.spec_bytes()[spans@[i].start as int] == 35u8,
        found matches Ok(spans) ==> forall|i: int, j: int| 0 <= i < j < spans@.len() ==>
            #[trigger] spans@[i].end <= #[trigger] spans@[j].start,
{
    let mut lexer = Lexer::new(source);
    let mut found: Vec<Span> = Vec::new();
    loop
        invariant
            lexer.wf(),
            lexer.source() == source.spec_bytes(),
            forall|i: int| 0 <= i < found@.len() ==>
                #[trigger] found@[i].start < found@[i].end && found@[i].end <= source.spec_bytes().len()
                && source.spec_bytes()[found@[i].start as int] == 35u8,
            forall|i: int, j: int| 0 <= i < j < found@.len() ==> #[trigger] found@[i].end <= #[trigger] found@[j].start,
            forall|i: int| 0 <= i < found@.len() ==> #[trigger] found@[i].end <= lexer.offset(),
            lexing(source.spec_bytes()).1 == lexer.rest().1,
            comment_spans(source.spec_bytes()) == found@ + lexer.comments_left(),
        decreases source.spec_bytes().len() - lexer.offset(), if lexer.offset() >= source.spec_bytes().len() { 0int } else { 1int },
    {
        let ghost before = lexer;
        let ghost shown = found@;
        let step = lexer.next_token();
        proof { lemma_step(&before, &lexer, step); }
        match step {
            None => {
                proof { assert(found@ + before.comments_left() =~= found@); }
                return Ok(found);
            },
            Some(Err(e)) => return Err(e),
            Some(Ok(t)) => {
                if t.kind == TokenKind::Comment {
                    found.push(t.span);
                    proof { assert(shown + (seq![t.span] + lexer.comments_left()) =~= found@ + lexer.comments_left()); }
                } else {
                    proof { assert(shown + (Seq::<Span>::empty() + lexer.comments_left()) =~= found@ + lexer.comments_left()); }
                }
            },
        }
    }
}

/// How a block is laid out: on one line, as its author broke it, or one item per line.
#[derive(Clone, Copy, PartialEq, Eq, Structural)]
enum Layout {
    Inline,
    Author,
    Reflow,
}

/// The operators that stand between a name or a key and a value.
#[derive(Clone, Copy)]
enum Operator {
    Binder,
    Equals,
    Arrow,
}

impl Operator {
    fn spelling(self) -> (bytes: Vec<u8>)
        ensures
            bytes@.len() == 1 || bytes@.len() == 2,
            bytes@ == op_bytes(self),
    {
        match self {
            Operator::Binder => vec![58u8, 61u8],
            Operator::Equals => vec![61u8],
            Operator::Arrow => vec![61u8, 62u8],
        }
    }
}

/// How many items a block's expression holds in one of its two parts: its bindings (part
/// zero), and then its fields, entries or values (part one).
pub open spec fn part_count(e: Expr, part: u8) -> nat {
    match e.kind {
        ExprKind::Tuple { bindings, fields } => if part == 0 { bindings@.len() } else { fields@.len() },
        ExprKind::Mapping { bindings, entries } => if part == 0 { bindings@.len() } else { entries@.len() },
        ExprKind::List(values) => if part == 0 { 0 } else { values@.len() },
        _ => 0,
    }
}

fn part_len(e: &Expr, part: u8) -> (n: usize)
    ensures
        n == part_count(*e, part),
{
    match &e.kind {
        ExprKind::Tuple { bindings, fields } => if part == 0 { bindings.len() } else { fields.len() },
        ExprKind::Mapping { bindings, entries } => if part == 0 { bindings.len() } else { entries.len() },
        ExprKind::List(values) => if part == 0 { 0 } else { values.len() },
        _ => 0,
    }
}

/// Where the `j`th item of a part begins.
fn part_start(e: &Expr, part: u8, j: usize) -> (start: usize)
    requires
        j < part_count(*e, part),
    ensures
        start == part_begin(*e, part, j as int),
{
    match &e.kind {
        ExprKind::Tuple { bindings, fields } => if part == 0 { bindings[j].name.span.start } else { fields[j].name.span.start },
        ExprKind::Mapping { bindings, entries } => if part == 0 { bindings[j].name.span.start } else { entries[j].key.span.start },
        ExprKind::List(values) => values[j].span.start,
        _ => 0,
    }
}

/// A text with the white space it ends in dropped.
pub open spec fn trim_white(text: Seq<char>) -> Seq<char>
    decreases text.len(),
{
    if text.len() > 0 && is_white(text.last()) { trim_white(text.drop_last()) } else { text }
}

/// The prefix of a text after which all is white space, and which itself does not end in
/// white space, is the text trimmed.
proof fn lemma_trim_white(text: Seq<char>, n: int)
    requires
        0 <= n <= text.len(),
        n > 0 ==> !is_white(text[n - 1]),
        forall|i: int| n <= i < text.len() ==> is_white(#[trigger] text[i]),
    ensures
        trim_white(text) == text.subrange(0, n),
    decreases text.len(),
{
    if text.len() > n {
        assert(is_white(text[text.len() - 1]));
        let shorter = text.drop_last();
        assert forall|i: int| n <= i < shorter.len() implies is_white(#[trigger] shorter[i]) by {
            assert(shorter[i] == text[i]);
        }
        if n > 0 {
            assert(shorter[n - 1] == text[n - 1]);
        }
        lemma_trim_white(shorter, n);
        assert(shorter.subrange(0, n) =~= text.subrange(0, n));
    } else {
        assert(text.subrange(0, n) =~= text);
    }
}

/// Drops the white space a text ends in.
fn trim_end(text: Vec<char>) -> (trimmed: Vec<char>)
    ensures
        trimmed@.len() <= text@.len(),
        trimmed@ == text@.subrange(0, trimmed@.len() as int),
        trimmed@.len() > 0 ==> !is_white(trimmed@.last()),
        forall|i: int| trimmed@.len() <= i < text@.len() ==> is_white(#[trigger] text@[i]),
{
    let mut trimmed = text;
    let ghost whole = trimmed@;
    while trimmed.len() > 0 && white(trimmed[trimmed.len() - 1])
        invariant
            trimmed@.len() <= whole.len(),
            trimmed@ == whole.subrange(0, trimmed@.len() as int),
            forall|i: int| trimmed@.len() <= i < whole.len() ==> is_white(#[trigger] whole[i]),
        decreases trimmed@.len(),
    {
        trimmed.pop();
    }
    trimmed
}

/// The characters a span of the text covers, or none where it lies outside the text.
pub open spec fn span_text(bytes: Seq<u8>, span: Span) -> Seq<char> {
    if span.start <= span.end <= bytes.len() { chars_in(bytes, span.start as int, span.end as int) } else { Seq::empty() }
}

/// Two spaces for each level of indentation.
pub open spec fn spaces(indent: nat) -> Seq<char> {
    Seq::new(2 * indent, |i: int| ' ')
}

/// The output with the spaces and tabs it ends in dropped.
pub open spec fn trim_blanks(out: Seq<char>) -> Seq<char>
    decreases out.len(),
{
    if out.len() > 0 && (out.last() == ' ' || out.last() == '\t') { trim_blanks(out.drop_last()) } else { out }
}

/// The output once a line is ended and the next indented.
pub open spec fn broken_line(out: Seq<char>, indent: nat) -> Seq<char> {
    trim_blanks(out) + seq!['\n'] + spaces(indent)
}

/// The output once a line is ended, a blank line left, and the next indented.
pub open spec fn blank_line(out: Seq<char>, indent: nat) -> Seq<char> {
    trim_blanks(out) + seq!['\n', '\n'] + spaces(indent)
}

/// Where the last line of the output starts: after its last newline.
pub open spec fn last_break(out: Seq<char>) -> int
    decreases out.len(),
{
    if out.len() == 0 { 0 } else if out.last() == '\n' { out.len() as int } else { last_break(out.drop_last()) }
}

/// How many columns characters take, a tab taking a tab stop.
pub open spec fn width(chars: Seq<char>) -> nat
    decreases chars.len(),
{
    if chars.len() == 0 { 0 } else { width(chars.drop_last()) + if chars.last() == '\t' { TABSTOP as nat } else { 1nat } }
}

/// Whether the bytes between two offsets hold a line break.
pub open spec fn breaks(bytes: Seq<u8>, start: int, end: int) -> bool {
    start <= end <= bytes.len() && exists|k: int| start <= k < end && bytes[k] == 10u8
}

/// The end of the first comment from the `k`th on that covers `at`, if one does.
pub open spec fn covering_from(comments: Seq<Span>, at: int, k: int) -> Option<usize>
    decreases comments.len() - k,
{
    if k < 0 || k >= comments.len() {
        None
    } else if comments[k].start <= at < comments[k].end {
        Some(comments[k].end)
    } else {
        covering_from(comments, at, k + 1)
    }
}

/// The first comment from the `k`th on that begins at or after `before`: the comments
/// before it are those a flush prints.
pub open spec fn flushed(comments: Seq<Span>, k: int, before: int) -> int
    decreases comments.len() - k,
{
    if 0 <= k < comments.len() && comments[k].start < before { flushed(comments, k + 1, before) } else { k }
}

/// Where the `j`th item of a part of a block begins.
pub open spec fn part_begin(e: Expr, part: u8, j: int) -> usize {
    match e.kind {
        ExprKind::Tuple { bindings, fields } => if part == 0 { bindings@[j].name.span.start } else { fields@[j].name.span.start },
        ExprKind::Mapping { bindings, entries } => if part == 0 { bindings@[j].name.span.start } else { entries@[j].key.span.start },
        ExprKind::List(values) => values@[j].span.start,
        _ => 0,
    }
}

/// Where the `j`th item of a part of a block ends: at the end of its value.
pub open spec fn part_end(e: Expr, part: u8, j: int) -> usize {
    match e.kind {
        ExprKind::Tuple { bindings, fields } => if part == 0 { bindings@[j].value.span.end } else { fields@[j].value.span.end },
        ExprKind::Mapping { bindings, entries } => if part == 0 { bindings@[j].value.span.end } else { entries@[j].value.span.end },
        ExprKind::List(values) => values@[j].span.end,
        _ => 0,
    }
}

/// How many line breaks the text holds from `last` up to `until`, or none where that is no
/// range of the text.
pub open spec fn gap(bytes: Seq<u8>, last: int, until: int) -> nat {
    if 0 <= last <= until <= bytes.len() { newlines(bytes.subrange(last, until)) } else { 0 }
}

/// What an expression's printing ends on: a projection on its field or key, a call on its
/// operand, anything else on its own end.
pub open spec fn printed_end(e: Expr) -> usize {
    match e.kind {
        ExprKind::Access { field, .. } => field.span.end,
        ExprKind::Index { key, .. } => key.span.end,
        ExprKind::Call { operand, .. } => operand.span.end,
        _ => e.span.end,
    }
}

/// The dot of a projection: closed up to its operand, but for a number, which keeps a space
/// before it.
pub open spec fn dot_chars(operand: Expr) -> Seq<char> {
    if operand.kind is Integer || operand.kind is Float { seq![' ', '.'] } else { seq!['.'] }
}

/// How an expression prints where no comment is left to print and no block in it holds an
/// item: a projection as its operand, its dot and its field or its key in brackets, a call
/// as `@`, its name, a space and its operand, an empty block as its two brackets, anything
/// else as the text it was written in. Expressions with items in a block have no such
/// printing: theirs depends on the layout chosen.
pub open spec fn flat(bytes: Seq<u8>, e: Expr) -> Option<Seq<char>>
    decreases e,
{
    match e.kind {
        ExprKind::Tuple { .. } => if part_count(e, 0) + part_count(e, 1) == 0 { Some(seq!['{', '}']) } else { None },
        ExprKind::Mapping { .. } => if part_count(e, 0) + part_count(e, 1) == 0 { Some(seq!['{', '}']) } else { None },
        ExprKind::List(values) => if values@.len() == 0 { Some(seq!['[', ']']) } else { None },
        ExprKind::Access { operand, field } => match flat(bytes, *operand) {
            Some(t) => Some(t + dot_chars(*operand) + span_text(bytes, field.span)),
            None => None,
        },
        ExprKind::Index { operand, key } => match flat(bytes, *operand) {
            Some(t) => match flat(bytes, *key) {
                Some(k) => Some(t + dot_chars(*operand) + seq!['('] + k + seq![')']),
                None => None,
            },
            None => None,
        },
        ExprKind::Call { name, operand } => match flat(bytes, *operand) {
            Some(t) => Some(seq!['@'] + span_text(bytes, name.span) + seq![' '] + t),
            None => None,
        },
        _ => Some(span_text(bytes, e.span)),
    }
}

/// How a binding, a field or an entry prints where its value has a flat printing: what
/// stands before the operator, the operator between single spaces, and the value.
pub open spec fn named_text(head: Seq<char>, op: Seq<char>, value: Option<Seq<char>>) -> Option<Seq<char>> {
    match value {
        Some(v) => Some(head + seq![' '] + op + seq![' '] + v),
        None => None,
    }
}

/// How the `j`th item of one part of a block prints where no comment is left to print, if
/// it has a flat printing.
pub open spec fn item_text(bytes: Seq<u8>, e: Expr, part: u8, j: int) -> Option<Seq<char>> {
    match e.kind {
        ExprKind::Tuple { bindings, fields } => if part == 0 {
            named_text(span_text(bytes, bindings@[j].name.span), seq![':', '='], flat(bytes, bindings@[j].value))
        } else {
            named_text(span_text(bytes, fields@[j].name.span), seq!['='], flat(bytes, fields@[j].value))
        },
        ExprKind::Mapping { bindings, entries } => if part == 0 {
            named_text(span_text(bytes, bindings@[j].name.span), seq![':', '='], flat(bytes, bindings@[j].value))
        } else {
            match flat(bytes, entries@[j].key) {
                Some(k) => named_text(k, seq!['=', '>'], flat(bytes, entries@[j].value)),
                None => None,
            }
        },
        ExprKind::List(values) => flat(bytes, values@[j]),
        _ => None,
    }
}

/// The `k`th item of a block, counting its bindings first.
pub open spec fn item_at(bytes: Seq<u8>, e: Expr, k: int) -> Option<Seq<char>> {
    if k < part_count(e, 0) { item_text(bytes, e, 0, k) } else { item_text(bytes, e, 1, k - part_count(e, 0)) }
}

/// A block's first `k` items printed on one line, one space between each two.
pub open spec fn joined(bytes: Seq<u8>, e: Expr, k: int) -> Option<Seq<char>>
    decreases k,
{
    if k <= 0 {
        Some(Seq::empty())
    } else {
        match joined(bytes, e, k - 1) {
            Some(t) => match item_at(bytes, e, k - 1) {
                Some(x) => Some(if k > 1 { t + seq![' '] + x } else { t + x }),
                None => None,
            },
            None => None,
        }
    }
}

/// How many items a block holds.
pub open spec fn items(e: Expr) -> nat {
    part_count(e, 0) + part_count(e, 1)
}

/// Every item up to the `k`th prints flat where all of the first `n` do.
proof fn lemma_joined_prefix(bytes: Seq<u8>, e: Expr, k: int, n: int)
    requires
        0 <= k <= n,
        joined(bytes, e, n) is Some,
    ensures
        joined(bytes, e, k) is Some,
        k < n ==> item_at(bytes, e, k) is Some,
    decreases n - k,
{
    if k < n {
        lemma_joined_prefix(bytes, e, k + 1, n);
    }
}

/// The column the last line of an output has reached, a tab counting as a tab stop.
pub open spec fn column_of(out: Seq<char>) -> nat {
    width(out.subrange(last_break(out), out.len() as int))
}

/// How a block its author wrote on one line prints on one line: its brackets around its
/// items, where every item has a flat printing.
pub open spec fn block_text(bytes: Seq<u8>, e: Expr) -> Option<Seq<char>> {
    let brackets: Option<(char, char)> = match e.kind {
        ExprKind::Tuple { .. } => Some(('{', '}')),
        ExprKind::Mapping { .. } => Some(('{', '}')),
        ExprKind::List(_) => Some(('[', ']')),
        _ => None,
    };
    match brackets {
        Some((open, close)) => if !(e.span.end >= 1 && breaks(bytes, inside(e), e.span.end - 1)) {
            match joined(bytes, e, items(e) as int) {
                Some(t) => Some(seq![open] + t + seq![close]),
                None => None,
            }
        } else {
            None
        },
        None => None,
    }
}

/// How an expression prints at the start of an empty output with no comment to print: a
/// block its author wrote on one line on one line where it fits the width, and otherwise
/// its flat printing, where it has one.
pub open spec fn alone(bytes: Seq<u8>, e: Expr) -> Option<Seq<char>> {
    match block_text(bytes, e) {
        Some(t) => if t.len() <= WIDTH { Some(t) } else { flat(bytes, e) },
        None => flat(bytes, e),
    }
}

/// Whether a printer has no comment left to print and no line it must still break.
spec fn quiet(p: &Printer) -> bool {
    p.next == p.comments@.len() && !p.broken
}

/// A flush stops at the end of the comments or at one that begins at or after `before`.
proof fn lemma_flushed(comments: Seq<Span>, k: int, before: int)
    requires
        0 <= k <= comments.len(),
    ensures
        k <= flushed(comments, k, before) <= comments.len(),
        flushed(comments, k, before) == comments.len() || comments[flushed(comments, k, before)].start >= before,
    decreases comments.len() - k,
{
    if k < comments.len() && comments[k].start < before {
        lemma_flushed(comments, k + 1, before);
    }
}

/// The bytes that spell an operator.
spec fn op_bytes(op: Operator) -> Seq<u8> {
    match op {
        Operator::Binder => seq![58u8, 61u8],
        Operator::Equals => seq![61u8],
        Operator::Arrow => seq![61u8, 62u8],
    }
}

/// Where a block's text begins, inside its opening bracket.
pub open spec fn inside(e: Expr) -> int {
    if e.span.start < usize::MAX { e.span.start + 1 } else { e.span.start as int }
}

/// The characters that spell an operator.
spec fn op_chars(op: Operator) -> Seq<char> {
    match op {
        Operator::Binder => seq![':', '='],
        Operator::Equals => seq!['='],
        Operator::Arrow => seq!['=', '>'],
    }
}

/// Whether a text holds a character that is neither a space nor a tab.
#[verifier::opaque]
pub open spec fn has_solid(t: Seq<char>) -> bool {
    exists|i: int| 0 <= i < t.len() && solid(#[trigger] t[i])
}

/// The bracket a block opens with.
pub open spec fn open_bracket(e: Expr) -> char {
    if e.kind is List { '[' } else { '{' }
}

/// Whether a block is printed broken, one item to a line: its author broke it, and it holds
/// items, each with a flat printing, the first holding a character other than a space or a
/// tab.
pub open spec fn broken_block(bytes: Seq<u8>, e: Expr) -> bool {
    &&& e.kind is Tuple || e.kind is Mapping || e.kind is List
    &&& items(e) > 0
    &&& e.span.end >= 1 && breaks(bytes, inside(e), e.span.end - 1)
    &&& joined(bytes, e, items(e) as int) is Some
    &&& has_solid(item_at(bytes, e, 0)->0)
}

/// Where the `k`th item of a block begins in the source, counting its bindings first.
pub open spec fn item_begin(e: Expr, k: int) -> int {
    if k < part_count(e, 0) { part_begin(e, 0, k) as int } else { part_begin(e, 1, k - part_count(e, 0)) as int }
}

/// Where the `k`th item of a block ends in the source, counting its bindings first.
pub open spec fn item_finish(e: Expr, k: int) -> int {
    if k < part_count(e, 0) { part_end(e, 0, k) as int } else { part_end(e, 1, k - part_count(e, 0)) as int }
}

/// Whether the author began the `k`th item of a broken block on a line of its own: the
/// first, and any other with a line break between it and the item before.
pub open spec fn starts_line(bytes: Seq<u8>, e: Expr, k: int) -> bool {
    k == 0 || gap(bytes, item_finish(e, k - 1), item_begin(e, k)) >= 1
}

/// Whether every item of a block holds a character other than a space or a tab.
pub open spec fn all_solid(bytes: Seq<u8>, e: Expr) -> bool {
    forall|k: int| 0 <= k < items(e) ==> has_solid(#[trigger] item_at(bytes, e, k)->0)
}

/// The line breaks `nl`, the indentation of `indent` levels, and an item's text up to and
/// with its `i`th character.
pub open spec fn item_line(nl: Seq<char>, indent: nat, item: Seq<char>, i: int) -> Seq<char> {
    nl + spaces(indent) + item.subrange(0, i + 1)
}

/// Whether an output holds at `at` a line break or two, the indentation of `indent` levels,
/// and then an item, whose text runs at least to a character other than a space or a tab.
pub open spec fn line_opens(out: Seq<char>, at: int, indent: nat, item: Seq<char>) -> bool {
    exists|nl: Seq<char>, i: int| #![trigger item_line(nl, indent, item, i)] line_at(out, at, nl, indent, item, i)
}

/// Whether an output holds at `at` the line breaks `nl`, the indentation of `indent`
/// levels, and an item's text up to and with its `i`th character, which is solid.
pub open spec fn line_at(out: Seq<char>, at: int, nl: Seq<char>, indent: nat, item: Seq<char>, i: int) -> bool {
    &&& nl == seq!['\n'] || nl == seq!['\n', '\n']
    &&& 0 <= i < item.len() && solid(item[i])
    &&& 0 <= at && at + item_line(nl, indent, item, i).len() <= out.len()
    &&& out.subrange(at, at + item_line(nl, indent, item, i).len()) == item_line(nl, indent, item, i)
}

/// What printing a broken block keeps of the lines its items began: up to `m` the output is
/// `k`, which holds, where the author began the `r`th item on a line of its own, that line's
/// start at `ats[r]`.
#[verifier::opaque]
spec fn lines_kept(out: Seq<char>, last: int, done: int, bytes: Seq<u8>, e: Expr, indent: nat, m: int, k: Seq<char>,
    ats: Seq<int>, nls: Seq<Seq<char>>, sis: Seq<int>) -> bool {
    &&& out.len() > 0
    &&& done >= 1 ==> last == item_finish(e, done - 1)
    &&& ats.len() == done && nls.len() == done && sis.len() == done
    &&& done >= 1 ==> 0 < m <= out.len() && solid(out[m - 1]) && out.subrange(0, m) == k && k.len() == m
    &&& forall|r: int| 0 <= r < done && starts_line(bytes, e, r)
        ==> #[trigger] line_at(k, ats[r], nls[r], indent, item_at(bytes, e, r)->0, sis[r])
}

/// The `j`th item of a part of a block is its item counted with the bindings first.
proof fn lemma_item_index(bytes: Seq<u8>, e: Expr, part: u8, j: int, done: int)
    requires
        0 <= j < part_count(e, part),
        part < 2,
        done == (if part == 0 { j } else { part_count(e, 0) + j }),
    ensures
        item_begin(e, done) == part_begin(e, part, j),
        item_finish(e, done) == part_end(e, part, j),
        item_at(bytes, e, done) == item_text(bytes, e, part, j),
        0 <= done < items(e),
{
}

/// Before any item is printed, a block has kept no line.
proof fn lemma_lines_start(out: Seq<char>, last: int, bytes: Seq<u8>, e: Expr, indent: nat)
    requires
        out.len() > 0,
    ensures
        lines_kept(out, last, 0, bytes, e, indent, 0, Seq::empty(), Seq::empty(), Seq::empty(), Seq::empty()),
{
    reveal(lines_kept);
}

/// A line kept in a prefix of an output is kept in the output.
proof fn lemma_line_in_prefix(k: Seq<char>, out: Seq<char>, at: int, nl: Seq<char>, indent: nat, item: Seq<char>, i: int)
    requires
        line_at(k, at, nl, indent, item, i),
        k.len() <= out.len(),
        out.subrange(0, k.len() as int) == k,
    ensures
        line_at(out, at, nl, indent, item, i),
{
    let l = item_line(nl, indent, item, i);
    assert(out.subrange(at, at + l.len()) =~= k.subrange(at, at + l.len()));
}

/// Printing one more item of a broken block keeps the lines its items began, and records
/// the line this one begins where it is led in with a break.
proof fn lemma_lines_step(o1: Seq<char>, last: int, mid: Seq<char>, x: Seq<char>, last2: int, done: int, bytes: Seq<u8>,
    e: Expr, indent: nat, m: int, k: Seq<char>, ats: Seq<int>, nls: Seq<Seq<char>>, sis: Seq<int>, brk: bool)
    -> (next: (int, Seq<char>, int, Seq<char>, int))
    requires
        lines_kept(o1, last, done, bytes, e, indent, m, k, ats, nls, sis),
        0 <= done,
        led(o1, mid, indent, brk),
        done < items(e),
        all_solid(bytes, e),
        x == item_at(bytes, e, done)->0,
        done == 0 ==> brk,
        gap(bytes, last, item_begin(e, done)) >= 1 ==> brk,
        last2 == item_finish(e, done),
    ensures
        lines_kept(mid + x, last2, done + 1, bytes, e, indent, next.0, next.1, ats.push(next.2), nls.push(next.3), sis.push(next.4)),
{
    reveal(lines_kept);
    assert(has_solid(item_at(bytes, e, done)->0));
    reveal(has_solid);
    let after = mid + x;
    let i = choose|i: int| 0 <= i < x.len() && solid(#[trigger] x[i]);
    let m2 = mid.len() + i + 1;
    let k2 = after.subrange(0, m2);
    assert(after[m2 - 1] == x[i]);
    if done >= 1 {
        lemma_prefix_kept(o1, mid, Seq::empty(), indent, m);
        assert(mid + Seq::<char>::empty() =~= mid);
        assert(k2.subrange(0, m) =~= mid.subrange(0, m));
    }
    let t = trim_blanks(o1);
    let n: Seq<char> = if mid == broken_line(o1, indent) { seq!['\n'] } else { seq!['\n', '\n'] };
    let a = t.len() as int;
    if brk {
        assert(mid =~= t + n + spaces(indent));
        assert(k2.subrange(a, a + item_line(n, indent, x, i).len()) =~= item_line(n, indent, x, i));
        assert(line_at(k2, a, n, indent, x, i));
    }
    let ats2 = ats.push(a);
    let nls2 = nls.push(n);
    let sis2 = sis.push(i);
    assert forall|r: int| 0 <= r < done + 1 && starts_line(bytes, e, r)
        implies #[trigger] line_at(k2, ats2[r], nls2[r], indent, item_at(bytes, e, r)->0, sis2[r]) by {
        if r < done {
            assert(line_at(k, ats[r], nls[r], indent, item_at(bytes, e, r)->0, sis[r]));
            lemma_line_in_prefix(k, k2, ats[r], nls[r], indent, item_at(bytes, e, r)->0, sis[r]);
        }
    }
    (m2, k2, a, n, i)
}

/// The lines a broken block's items began stay through what ends the block: a line break
/// and then its closing bracket.
proof fn lemma_lines_closed(o1: Seq<char>, last: int, o2: Seq<char>, close: char, outer: nat, done: int, bytes: Seq<u8>, e: Expr,
    indent: nat, m: int, k: Seq<char>, ats: Seq<int>, nls: Seq<Seq<char>>, sis: Seq<int>)
    requires
        lines_kept(o1, last, done, bytes, e, indent, m, k, ats, nls, sis),
        done >= 1,
        o2 == o1 || o2 == broken_line(o1, outer),
    ensures
        forall|r: int| #![trigger starts_line(bytes, e, r)] 0 <= r < done && starts_line(bytes, e, r)
            ==> exists|at: int| #[trigger] line_opens(o2.push(close), at, indent, item_at(bytes, e, r)->0),
{
    reveal(lines_kept);
    lemma_prefix_kept(o1, o2, seq![close], outer, m);
    let out = o2.push(close);
    assert(o2 + seq![close] =~= out);
    assert forall|r: int| #![trigger starts_line(bytes, e, r)] 0 <= r < done && starts_line(bytes, e, r)
        implies exists|at: int| #[trigger] line_opens(out, at, indent, item_at(bytes, e, r)->0) by {
        assert(line_at(k, ats[r], nls[r], indent, item_at(bytes, e, r)->0, sis[r]));
        lemma_line_in_prefix(k, out, ats[r], nls[r], indent, item_at(bytes, e, r)->0, sis[r]);
        assert(line_opens(out, ats[r], indent, item_at(bytes, e, r)->0));
    }
}

/// Printing one more item of a block laid out on one line extends the items joined so far.
proof fn lemma_all_step(o1: Seq<char>, after: Seq<char>, q1: bool, q2: bool, first: bool, done: int, bytes: Seq<u8>, e: Expr,
    part: u8, j: int, start: Seq<char>, open: char)
    requires
        q1,
        joined(bytes, e, items(e) as int) is Some,
        o1 == start.push(open) + joined(bytes, e, done)->0,
        0 <= j < part_count(e, part),
        part < 2,
        done == (if part == 0 { j } else { part_count(e, 0) + j }),
        first == (done == 0),
        q1 && item_text(bytes, e, part, j) is Some ==> q2
            && after == (if first { o1 } else { o1.push(' ') }) + item_text(bytes, e, part, j)->0,
    ensures
        q2,
        after == start.push(open) + joined(bytes, e, done + 1)->0,
{
    lemma_joined_prefix(bytes, e, done, items(e) as int);
    lemma_joined_prefix(bytes, e, done + 1, items(e) as int);
    assert(item_at(bytes, e, done) == item_text(bytes, e, part, j));
    let x = item_text(bytes, e, part, j)->0;
    let t = joined(bytes, e, done)->0;
    if done > 0 {
        assert(joined(bytes, e, done + 1)->0 == t + seq![' '] + x);
        assert(after =~= start.push(open) + (t + seq![' '] + x));
    } else {
        assert(joined(bytes, e, done + 1)->0 == t + x);
        assert(after =~= start.push(open) + (t + x));
    }
}

/// A line an output holds at `at` stays there once more is written after it.
proof fn lemma_line_extended(out: Seq<char>, more: Seq<char>, at: int, indent: nat, item: Seq<char>)
    requires
        line_opens(out, at, indent, item),
    ensures
        line_opens(out + more, at, indent, item),
{
    let (nl, i) = choose|nl: Seq<char>, i: int| #![trigger item_line(nl, indent, item, i)] line_at(out, at, nl, indent, item, i);
    let l = item_line(nl, indent, item, i);
    assert((out + more).subrange(at, at + l.len()) =~= out.subrange(at, at + l.len()));
    assert(line_at(out + more, at, nl, indent, item, i));
}

/// A block that opens at `at` of an output still opens there once more is written after it.
proof fn lemma_opens_extended(out: Seq<char>, more: Seq<char>, at: int, open: char, indent: nat, item: Seq<char>)
    requires
        opens_indented(out, at, open, indent, item),
        0 <= at,
    ensures
        opens_indented(out + more, at, open, indent, item),
{
    let (nl, i) = choose|nl: Seq<char>, i: int| #![trigger opening(open, nl, indent, item, i)] {
        &&& nl == seq!['\n'] || nl == seq!['\n', '\n']
        &&& 0 <= i < item.len() && solid(item[i])
        &&& at + opening(open, nl, indent, item, i).len() <= out.len()
        &&& out.subrange(at, at + opening(open, nl, indent, item, i).len()) == opening(open, nl, indent, item, i)
    };
    let op = opening(open, nl, indent, item, i);
    assert((out + more).subrange(at, at + op.len()) =~= out.subrange(at, at + op.len()));
}

/// Whether a character is neither a space nor a tab.
pub open spec fn solid(c: char) -> bool {
    c != ' ' && c != '\t'
}

/// Whether a broken block opens at `at` of an output: its opening bracket, one line break
/// or two, the indentation of `indent` levels, and then its first item, whose text runs at
/// least to a character that is neither a space nor a tab.
pub open spec fn opens_indented(out: Seq<char>, at: int, open: char, indent: nat, item: Seq<char>) -> bool {
    exists|nl: Seq<char>, i: int| #![trigger opening(open, nl, indent, item, i)] {
        &&& nl == seq!['\n'] || nl == seq!['\n', '\n']
        &&& 0 <= i < item.len() && solid(item[i])
        &&& at + opening(open, nl, indent, item, i).len() <= out.len()
        &&& out.subrange(at, at + opening(open, nl, indent, item, i).len()) == opening(open, nl, indent, item, i)
    }
}

/// An opening bracket, the line breaks `nl`, the indentation of `indent` levels, and an
/// item's text up to and with its `i`th character.
pub open spec fn opening(open: char, nl: Seq<char>, indent: nat, item: Seq<char>, i: int) -> Seq<char> {
    seq![open] + nl + spaces(indent) + item.subrange(0, i + 1)
}

/// Dropping the spaces and tabs an output ends in keeps what it holds up to a character
/// that is neither.
proof fn lemma_trim_blanks_keeps(out: Seq<char>, m: int)
    requires
        0 < m <= out.len(),
        solid(out[m - 1]),
    ensures
        m <= trim_blanks(out).len(),
        trim_blanks(out).subrange(0, m) == out.subrange(0, m),
    decreases out.len(),
{
    if out.len() > 0 && (out.last() == ' ' || out.last() == '\t') {
        let d = out.drop_last();
        assert(m - 1 != out.len() - 1);
        assert(d[m - 1] == out[m - 1]);
        lemma_trim_blanks_keeps(d, m);
        assert(d.subrange(0, m) =~= out.subrange(0, m));
    }
}

/// What an output holds up to a solid character stays through any of the ways a separation
/// or a line break changes it, and through text written after it.
proof fn lemma_prefix_kept(out: Seq<char>, next: Seq<char>, more: Seq<char>, indent: nat, m: int)
    requires
        0 < m <= out.len(),
        solid(out[m - 1]),
        next == out || next == out.push(' ') || next == broken_line(out, indent) || next == blank_line(out, indent),
    ensures
        m <= (next + more).len(),
        (next + more).subrange(0, m) == out.subrange(0, m),
{
    lemma_trim_blanks_keeps(out, m);
    let t = trim_blanks(out);
    if next == broken_line(out, indent) {
        assert((next + more).subrange(0, m) =~= t.subrange(0, m));
    } else if next == blank_line(out, indent) {
        assert((next + more).subrange(0, m) =~= t.subrange(0, m));
    } else {
        assert((next + more).subrange(0, m) =~= out.subrange(0, m));
    }
}

/// Whether `mid` is what leading an item into an output leaves: the output as it was, a
/// space after it, or a line broken, once or with a blank line, to `indent`; broken where
/// the break is forced.
pub open spec fn led(before: Seq<char>, mid: Seq<char>, indent: nat, force: bool) -> bool {
    &&& (mid == before || mid == before.push(' ') || mid == broken_line(before, indent) || mid == blank_line(before, indent))
    &&& force && before.len() > 0 ==> (mid == broken_line(before, indent) || mid == blank_line(before, indent))
}

/// Whether `after` is an output led into an item, whose text `x` then follows.
pub open spec fn led_item(before: Seq<char>, after: Seq<char>, x: Seq<char>, indent: nat, force: bool) -> bool {
    exists|mid: Seq<char>| #[trigger] led(before, mid, indent, force) && after == mid + x
}

/// Whether an output holds, from its start to a character that is neither a space nor a
/// tab, `start` and then the opening of a block's first item.
#[verifier::opaque]
spec fn opened(out: Seq<char>, start: Seq<char>, open: char, indent: nat, t0: Seq<char>, mark: int, nl: Seq<char>, si: int) -> bool {
    &&& 0 < mark <= out.len()
    &&& solid(out[mark - 1])
    &&& out.subrange(0, mark) == start + opening(open, nl, indent, t0, si)
    &&& nl == seq!['\n'] || nl == seq!['\n', '\n']
    &&& 0 <= si < t0.len()
    &&& solid(t0[si])
}

/// What printing a broken block keeps while its items are printed: no comment left and no
/// line owed, the bracket last where no item is printed yet, else the opening of its first
/// item.
#[verifier::opaque]
spec fn block_kept(out: Seq<char>, quiet: bool, done: int, shape: bool, bytes: Seq<u8>, e: Expr, start: Seq<char>,
    open: char, indent: nat, mark: int, nl: Seq<char>, si: int) -> bool {
    &&& quiet && shape
    &&& joined(bytes, e, items(e) as int) is Some
    &&& has_solid(item_at(bytes, e, 0)->0)
    &&& done == 0 ==> out == start.push(open)
    &&& done >= 1 ==> opened(out, start, open, indent, item_at(bytes, e, 0)->0, mark, nl, si)
}

/// Printing one more item of a broken block keeps what the block kept.
proof fn lemma_block_kept_step(o1: Seq<char>, after: Seq<char>, q1: bool, q2: bool, done: int, bytes: Seq<u8>, e: Expr,
    part: u8, j: int, start: Seq<char>, open: char, indent: nat, mark: int, nl: Seq<char>, si: int, brk: bool) -> (next: (int, Seq<char>, int))
    requires
        solid(open),
        block_kept(o1, q1, done, true, bytes, e, start, open, indent, mark, nl, si),
        0 <= j < part_count(e, part),
        part < 2,
        done == (if part == 0 { j } else { part_count(e, 0) + j }),
        done == 0 ==> brk,
        q1 && item_text(bytes, e, part, j) is Some ==> q2
            && led_item(o1, after, item_text(bytes, e, part, j)->0, indent, brk),
    ensures
        block_kept(after, q2, done + 1, true, bytes, e, start, open, indent, next.0, next.1, next.2),
        q1,
        item_text(bytes, e, part, j) is Some,
{
    reveal(block_kept);
    lemma_joined_prefix(bytes, e, done, items(e) as int);
    let x = item_text(bytes, e, part, j)->0;
    assert(item_at(bytes, e, done) == item_text(bytes, e, part, j));
    let first_item = item_at(bytes, e, 0)->0;
    let mid = choose|mid: Seq<char>| #[trigger] led(o1, mid, indent, brk) && after == mid + x;
    if done == 0 {
        assert(x == first_item);
    }
    let r = lemma_opening_step(start, open, indent, first_item, o1, mid, x, done == 0, mark, nl, si);
    r
}

/// Where a broken block's items are printed one after another, the opening of its first
/// item stays in the output: printed right after the bracket, or kept from before.
proof fn lemma_opening_step(start_out: Seq<char>, open: char, indent: nat, t0: Seq<char>, o1: Seq<char>,
    o2: Seq<char>, x: Seq<char>, first: bool, mark: int, nl: Seq<char>, si: int) -> (next: (int, Seq<char>, int))
    requires
        solid(open),
        first ==> o1 == start_out.push(open) && (o2 == broken_line(o1, indent) || o2 == blank_line(o1, indent)) && x == t0
            && has_solid(t0),
        !first ==> opened(o1, start_out, open, indent, t0, mark, nl, si)
            && (o2 == o1 || o2 == o1.push(' ') || o2 == broken_line(o1, indent) || o2 == blank_line(o1, indent)),
    ensures
        opened(o2 + x, start_out, open, indent, t0, next.0, next.1, next.2),
{
    reveal(opened);
    let out = o2 + x;
    if first {
        reveal(has_solid);
        assert(trim_blanks(o1) == o1);
        let n: Seq<char> = if o2 == broken_line(o1, indent) { seq!['\n'] } else { seq!['\n', '\n'] };
        assert(o2 =~= o1 + n + spaces(indent));
        let i = choose|i: int| 0 <= i < t0.len() && solid(#[trigger] t0[i]);
        let m = o2.len() + i + 1;
        assert(out.subrange(0, m) =~= start_out + opening(open, n, indent, t0, i));
        assert(out[m - 1] == t0[i]);
        (m, n, i)
    } else {
        lemma_prefix_kept(o1, o2, x, indent, mark);
        assert(out.subrange(0, mark)[mark - 1] == out[mark - 1]);
        assert(o1.subrange(0, mark)[mark - 1] == o1[mark - 1]);
        (mark, nl, si)
    }
}

/// The opening of a block's first item stays through what ends the block: a line break and
/// then its closing bracket.
proof fn lemma_opening_closed(start_out: Seq<char>, open: char, indent: nat, t0: Seq<char>, o1: Seq<char>,
    o2: Seq<char>, close: char, outer: nat, mark: int, nl: Seq<char>, si: int)
    requires
        opened(o1, start_out, open, indent, t0, mark, nl, si),
        o2 == o1 || o2 == broken_line(o1, outer),
    ensures
        o2.push(close).subrange(0, start_out.len() as int) == start_out,
        opens_indented(o2.push(close), start_out.len() as int, open, indent, t0),
{
    reveal(opened);
    lemma_prefix_kept(o1, o2, seq![close], outer, mark);
    let out = o2.push(close);
    assert(o2 + seq![close] =~= out);
    let op = opening(open, nl, indent, t0, si);
    assert(o1.subrange(0, mark).len() == mark);
    assert(mark == start_out.len() + op.len());
    assert(out.subrange(0, start_out.len() as int) =~= out.subrange(0, mark).subrange(0, start_out.len() as int));
    assert(out.subrange(0, start_out.len() as int) =~= start_out);
    assert(out.subrange(start_out.len() as int, (start_out.len() + op.len()) as int) =~= out.subrange(0, mark).subrange(start_out.len() as int, mark));
    assert(out.subrange(start_out.len() as int, (start_out.len() + op.len()) as int) =~= op);
}

/// What printing keeps: the text, the comments, and how far they have been printed, which
/// only moves forward.
spec fn steady(before: &Printer, after: &Printer) -> bool {
    &&& after.bytes == before.bytes
    &&& after.comments == before.comments
    &&& before.next <= after.next <= after.comments@.len()
    &&& holds(before) ==> holds(after)
}

/// A comment's text as it is printed: with the white space it ends in dropped.
pub open spec fn kept_comment(bytes: Seq<u8>, span: Span) -> Seq<char> {
    trim_white(span_text(bytes, span))
}

/// Whether `text` holds, at `marks`, the printed texts of the comments at `spans`, in order
/// and without overlapping.
pub open spec fn holds_comments(bytes: Seq<u8>, spans: Seq<Span>, text: Seq<char>, marks: Seq<int>) -> bool {
    &&& marks.len() == spans.len()
    &&& forall|k: int| 0 <= k < marks.len() ==> 0 <= #[trigger] marks[k]
        && marks[k] + kept_comment(bytes, spans[k]).len() <= text.len()
        && text.subrange(marks[k], marks[k] + kept_comment(bytes, spans[k]).len()) == kept_comment(bytes, spans[k])
    &&& forall|k: int| 0 <= k && k + 1 < marks.len() ==> #[trigger] marks[k] + kept_comment(bytes, spans[k]).len() <= marks[k + 1]
}

/// Whether the comments a printer has printed stand, in order, where it marked them, all
/// before the white space its output ends in.
#[verifier::opaque]
spec fn holds_at(bytes: Seq<u8>, comments: Seq<Span>, next: usize, out: Seq<char>, marks: Seq<int>) -> bool {
    &&& next <= comments.len()
    &&& holds_comments(bytes, comments.subrange(0, next as int), trim_white(out), marks)
}

spec fn holds(p: &Printer) -> bool {
    holds_at(p.bytes@, p.comments@, p.next, p.out@, p.marks@)
}

struct Printer<'a> {
    bytes: &'a [u8],
    comments: Vec<Span>,
    next: usize,
    out: Vec<char>,
    last: usize,
    broken: bool,
    marks: Ghost<Seq<int>>,
}

/// What stays of a text's trimmed form when more is written after it.
proof fn lemma_trim_white_grows(a: Seq<char>, b: Seq<char>)
    ensures
        trim_white(a).len() <= trim_white(a + b).len(),
        trim_white(a + b).len() <= (a + b).len(),
        trim_white(a) == a.subrange(0, trim_white(a).len() as int),
        trim_white(a).len() <= a.len(),
    decreases b.len(), a.len(),
{
    if b.len() > 0 {
        assert((a + b).drop_last() =~= a + b.drop_last());
        lemma_trim_white_grows(a, b.drop_last());
        if !is_white((a + b).last()) {
            assert(trim_white(a + b) == a + b);
            lemma_trim_white_grows(a, Seq::empty());
        }
    } else {
        assert(a + b =~= a);
        if a.len() > 0 && is_white(a.last()) {
            lemma_trim_white_grows(a.drop_last(), Seq::empty());
            assert(a.drop_last() + Seq::<char>::empty() =~= a.drop_last());
            assert(a.drop_last().subrange(0, trim_white(a.drop_last()).len() as int)
                =~= a.subrange(0, trim_white(a.drop_last()).len() as int));
        } else {
            assert(a.subrange(0, a.len() as int) =~= a);
        }
    }
}

/// Marks inside a text's trimmed form stay put when the text is extended.
proof fn lemma_holds_extended(bytes: Seq<u8>, spans: Seq<Span>, a: Seq<char>, b: Seq<char>, marks: Seq<int>)
    requires
        holds_comments(bytes, spans, trim_white(a), marks),
    ensures
        holds_comments(bytes, spans, trim_white(a + b), marks),
{
    lemma_trim_white_grows(a, b);
    lemma_trim_white_grows(a + b, Seq::empty());
    assert((a + b) + Seq::<char>::empty() =~= a + b);
    let ta = trim_white(a);
    let tab = trim_white(a + b);
    assert forall|k: int| 0 <= k < marks.len() implies 0 <= #[trigger] marks[k]
        && marks[k] + kept_comment(bytes, spans[k]).len() <= tab.len()
        && tab.subrange(marks[k], marks[k] + kept_comment(bytes, spans[k]).len()) == kept_comment(bytes, spans[k]) by {
        let l = kept_comment(bytes, spans[k]).len();
        assert(tab.subrange(marks[k], marks[k] + l) =~= ta.subrange(marks[k], marks[k] + l)) by {
            assert forall|i: int| 0 <= i < l implies #[trigger] tab.subrange(marks[k], marks[k] + l)[i]
                == ta.subrange(marks[k], marks[k] + l)[i] by {
                let p = marks[k] + i;
                assert(p < ta.len());
                assert(tab[p] == (a + b).subrange(0, tab.len() as int)[p]);
                assert((a + b)[p] == a[p]);
                assert(ta[p] == a.subrange(0, ta.len() as int)[p]);
            }
        }
    }
}

/// A comment's printed text, written after an output, stands where it is marked.
proof fn lemma_holds_comment(bytes: Seq<u8>, spans: Seq<Span>, prior: Seq<char>, text: Seq<char>, marks: Seq<int>, span: Span,
    mark: int)
    requires
        holds_comments(bytes, spans, trim_white(prior), marks),
        text == kept_comment(bytes, span),
        text.len() > 0 ==> !is_white(text.last()),
        mark == (if text.len() > 0 { prior.len() as int } else { trim_white(prior).len() as int }),
    ensures
        holds_comments(bytes, spans.push(span), trim_white(prior + text), marks.push(mark)),
{
    lemma_holds_extended(bytes, spans, prior, text, marks);
    lemma_trim_white_grows(prior, text);
    lemma_trim_white_grows(prior, Seq::empty());
    assert(prior + Seq::<char>::empty() =~= prior);
    let all = prior + text;
    let t = trim_white(all);
    if text.len() > 0 {
        assert(all.last() == text.last());
        assert(t == all);
        assert(all.subrange(prior.len() as int, (prior.len() + text.len()) as int) =~= text);
    } else {
        assert(all =~= prior);
        assert(t.subrange(mark, mark) =~= text);
    }
    let ss = spans.push(span);
    let ms = marks.push(mark);
    assert forall|k: int| 0 <= k < ms.len() implies 0 <= #[trigger] ms[k]
        && ms[k] + kept_comment(bytes, ss[k]).len() <= t.len()
        && t.subrange(ms[k], ms[k] + kept_comment(bytes, ss[k]).len()) == kept_comment(bytes, ss[k]) by {
        if k < marks.len() {
            assert(ms[k] == marks[k] && ss[k] == spans[k]);
        }
    }
    assert forall|k: int| 0 <= k && k + 1 < ms.len() implies #[trigger] ms[k] + kept_comment(bytes, ss[k]).len() <= ms[k + 1] by {
        assert(ms[k] == marks[k] && ss[k] == spans[k]);
        if k + 1 < marks.len() {
            assert(ms[k + 1] == marks[k + 1]);
        }
    }
}

/// Comments a text holds it still holds with more written after it.
proof fn lemma_holds_append(bytes: Seq<u8>, spans: Seq<Span>, t: Seq<char>, x: Seq<char>, marks: Seq<int>)
    requires
        holds_comments(bytes, spans, t, marks),
    ensures
        holds_comments(bytes, spans, t + x, marks),
{
    assert forall|k: int| 0 <= k < marks.len() implies 0 <= #[trigger] marks[k]
        && marks[k] + kept_comment(bytes, spans[k]).len() <= (t + x).len()
        && (t + x).subrange(marks[k], marks[k] + kept_comment(bytes, spans[k]).len()) == kept_comment(bytes, spans[k]) by {
        let l = kept_comment(bytes, spans[k]).len();
        assert((t + x).subrange(marks[k], marks[k] + l) =~= t.subrange(marks[k], marks[k] + l));
    }
}

/// Dropping white space the text ends in keeps its trimmed form.
proof fn lemma_trim_white_drop(a: Seq<char>)
    requires
        a.len() > 0,
        is_white(a.last()),
    ensures
        trim_white(a.drop_last()) == trim_white(a),
{
}

impl<'a> Printer<'a> {
    fn new(bytes: &'a [u8], comments: Vec<Span>) -> (printer: Printer<'a>)
        ensures
            printer.bytes@ == bytes@,
            printer.out@.len() == 0,
            printer.next == 0,
            printer.comments@ == comments@,
            !printer.broken,
            holds(&printer),
    {
        let printer = Printer { bytes, comments, next: 0, out: Vec::new(), last: 0, broken: false, marks: Ghost(Seq::empty()) };
        proof {
            reveal(holds_at);
            assert(printer.comments@.subrange(0, 0) =~= Seq::<Span>::empty());
        }
        printer
    }

    /// The characters a span covers, or none where it lies outside the text.
    fn text(&self, span: Span) -> (chars: Vec<char>)
        ensures
            chars@ == span_text(self.bytes@, span),
    {
        if span.start <= span.end && span.end <= self.bytes.len() {
            decode_range(self.bytes, span.start, span.end)
        } else {
            Vec::new()
        }
    }

    /// Writes one character.
    fn put(&mut self, c: char)
        requires
            old(self).next <= old(self).comments@.len(),
        ensures
            steady(old(self), final(self)),
            final(self).out@ == old(self).out@.push(c),
            final(self).bytes == old(self).bytes,
            final(self).comments == old(self).comments,
            final(self).next == old(self).next,
            final(self).last == old(self).last,
            final(self).broken == old(self).broken,
            final(self).marks == old(self).marks,
    {
        let ghost before = self.out@;
        self.out.push(c);
        proof {
            reveal(holds_at);
            if holds(old(self)) {
                assert(before.push(c) =~= before + seq![c]);
                lemma_holds_extended(self.bytes@, self.comments@.subrange(0, self.next as int), before, seq![c], self.marks@);
            }
        }
    }

    fn push(&mut self, chars: &Vec<char>)
        requires
            old(self).next <= old(self).comments@.len(),
        ensures
            steady(old(self), final(self)),
            final(self).out@ == old(self).out@ + chars@,
            final(self).bytes == old(self).bytes,
            final(self).comments == old(self).comments,
            final(self).next == old(self).next,
            final(self).last == old(self).last,
            final(self).broken == old(self).broken,
            final(self).marks == old(self).marks,
    {
        let mut i: usize = 0;
        while i < chars.len()
            invariant
                i <= chars@.len(),
                self.out@ == old(self).out@ + chars@.subrange(0, i as int),
                self.bytes == old(self).bytes,
                self.comments == old(self).comments,
                self.next == old(self).next,
                self.last == old(self).last,
                self.broken == old(self).broken,
                self.marks == old(self).marks,
                old(self).next <= old(self).comments@.len(),
                holds(old(self)) ==> holds(self),
            decreases chars@.len() - i,
        {
            self.put(chars[i]);
            i = i + 1;
        }
    }

    fn push_text(&mut self, span: Span)
        requires
            old(self).next <= old(self).comments@.len(),
        ensures
            steady(old(self), final(self)),
            final(self).out@ == old(self).out@ + span_text(old(self).bytes@, span),
            final(self).next == old(self).next,
            final(self).last == old(self).last,
            final(self).broken == old(self).broken,
    {
        let chars = self.text(span);
        self.push(&chars);
    }

    fn push_operator(&mut self, op: Operator)
        requires
            old(self).next <= old(self).comments@.len(),
        ensures
            steady(old(self), final(self)),
            final(self).out@ == old(self).out@ + op_chars(op),
            final(self).next == old(self).next,
            final(self).last == old(self).last,
            final(self).broken == old(self).broken,
    {
        match op {
            Operator::Binder => {
                self.put(':');
                self.put('=');
            },
            Operator::Equals => self.put('='),
            Operator::Arrow => {
                self.put('=');
                self.put('>');
            },
        }
        assert(self.out@ =~= old(self).out@ + op_chars(op));
    }

    /// How many line breaks the text holds from the last place printed up to `until`.
    fn newlines(&self, until: usize) -> (count: usize)
        ensures
            count == (if self.last <= until <= self.bytes@.len() {
                newlines(self.bytes@.subrange(self.last as int, until as int))
            } else {
                0
            }),
    {
        if self.last <= until && until <= self.bytes.len() {
            let mut count: usize = 0;
            let mut at = self.last;
            while at < until
                invariant
                    self.last <= at <= until <= self.bytes@.len(),
                    count <= at - self.last,
                    count == newlines(self.bytes@.subrange(self.last as int, at as int)),
                decreases until - at,
            {
                assert(self.bytes@.subrange(self.last as int, at + 1).drop_last() =~= self.bytes@.subrange(self.last as int, at as int));
                if self.bytes[at] == 10u8 {
                    count = count + 1;
                }
                at = at + 1;
            }
            count
        } else {
            0
        }
    }

    /// Whether the text between two offsets holds a line break.
    fn breaks_between(&self, start: usize, end: usize) -> (found: bool)
        ensures
            found == breaks(self.bytes@, start as int, end as int),
    {
        if start <= end && end <= self.bytes.len() {
            let mut at = start;
            while at < end
                invariant
                    start <= at <= end <= self.bytes@.len(),
                    forall|k: int| start <= k < at ==> self.bytes@[k] != 10u8,
                decreases end - at,
            {
                if self.bytes[at] == 10u8 {
                    return true;
                }
                at = at + 1;
            }
        }
        false
    }

    /// The column the output has reached on its last line, a tab counting as a tab stop.
    #[verifier::rlimit(30)]
    fn column(&self) -> (column: usize)
        ensures
            column == (if width(self.out@.subrange(last_break(self.out@), self.out@.len() as int)) <= usize::MAX {
                width(self.out@.subrange(last_break(self.out@), self.out@.len() as int))
            } else {
                usize::MAX as nat
            }),
    {
        let mut start = self.out.len();
        assert(self.out@.subrange(0, start as int) =~= self.out@);
        while start > 0 && self.out[start - 1] != '\n'
            invariant
                start <= self.out@.len(),
                last_break(self.out@) == last_break(self.out@.subrange(0, start as int)),
            decreases start,
        {
            assert(self.out@.subrange(0, start as int).drop_last() =~= self.out@.subrange(0, start - 1));
            start = start - 1;
        }
        proof {
            if start > 0 {
                assert(self.out@.subrange(0, start as int).last() == '\n');
            }
        }
        let mut column: usize = 0;
        let mut i = start;
        while i < self.out.len()
            invariant
                start <= i <= self.out@.len(),
                start == last_break(self.out@),
                column == (if width(self.out@.subrange(start as int, i as int)) <= usize::MAX {
                    width(self.out@.subrange(start as int, i as int))
                } else {
                    usize::MAX as nat
                }),
            decreases self.out@.len() - i,
        {
            assert(self.out@.subrange(start as int, i + 1).drop_last() =~= self.out@.subrange(start as int, i as int));
            let w = if self.out[i] == '\t' { TABSTOP } else { 1 };
            column = column.saturating_add(w);
            i = i + 1;
        }
        column
    }

    /// Ends the line, dropping the spaces and tabs it ended in, and indents the next.
    fn line(&mut self, indent: usize)
        requires
            old(self).next <= old(self).comments@.len(),
        ensures
            steady(old(self), final(self)),
            final(self).out@.len() > 0,
            final(self).out@ == broken_line(old(self).out@, indent as nat),
            final(self).bytes == old(self).bytes,
            final(self).comments == old(self).comments,
            final(self).next == old(self).next,
            final(self).last == old(self).last,
            !final(self).broken,
    {
        while self.out.len() > 0 && (self.out[self.out.len() - 1] == ' ' || self.out[self.out.len() - 1] == '\t')
            invariant
                trim_blanks(self.out@) == trim_blanks(old(self).out@),
                trim_white(self.out@) == trim_white(old(self).out@),
                self.bytes == old(self).bytes,
                self.comments == old(self).comments,
                self.next == old(self).next,
                self.last == old(self).last,
                self.marks == old(self).marks,
            decreases self.out@.len(),
        {
            let ghost before = self.out@;
            self.out.pop();
            assert(self.out@ =~= before.drop_last());
            proof { lemma_trim_white_drop(before); }
        }
        assert(trim_blanks(self.out@) == self.out@);
        proof { reveal(holds_at); }
        self.put('\n');
        self.indent(indent);
        self.broken = false;
    }

    /// Ends the line and leaves one blank line before the next.
    fn blank(&mut self, indent: usize)
        requires
            old(self).next <= old(self).comments@.len(),
        ensures
            steady(old(self), final(self)),
            final(self).out@.len() > 0,
            final(self).out@ == blank_line(old(self).out@, indent as nat),
            final(self).bytes == old(self).bytes,
            final(self).comments == old(self).comments,
            final(self).next == old(self).next,
            final(self).last == old(self).last,
            !final(self).broken,
    {
        self.line(0);
        self.put('\n');
        self.indent(indent);
        assert(self.out@ =~= blank_line(old(self).out@, indent as nat));
    }

    fn indent(&mut self, indent: usize)
        requires
            old(self).next <= old(self).comments@.len(),
        ensures
            steady(old(self), final(self)),
            final(self).out@ == old(self).out@ + spaces(indent as nat),
            final(self).bytes == old(self).bytes,
            final(self).comments == old(self).comments,
            final(self).next == old(self).next,
            final(self).last == old(self).last,
            final(self).broken == old(self).broken,
    {
        let mut level: usize = 0;
        while level < indent
            invariant
                level <= indent,
                self.out@ =~= old(self).out@ + spaces(level as nat),
                self.bytes == old(self).bytes,
                self.comments == old(self).comments,
                self.next == old(self).next,
                self.last == old(self).last,
                self.broken == old(self).broken,
                old(self).next <= old(self).comments@.len(),
                holds(old(self)) ==> holds(self),
            decreases indent - level,
        {
            self.put(' ');
            self.put(' ');
            level = level + 1;
            assert(self.out@ =~= old(self).out@ + spaces(level as nat));
        }
    }

    /// Prints the comments that begin before `before`, each after the break its gap held.
    fn flush(&mut self, before: usize, indent: usize)
        requires
            old(self).next <= old(self).comments@.len(),
        ensures
            steady(old(self), final(self)),
            final(self).next == flushed(old(self).comments@, old(self).next as int, before as int),
            final(self).next == old(self).next ==> final(self).out@ == old(self).out@ && final(self).last == old(self).last
                && final(self).broken == old(self).broken,
            final(self).next > old(self).next ==> final(self).last == old(self).comments@[final(self).next - 1].end
                && final(self).broken,
    {
        while self.next < self.comments.len() && self.comments[self.next].start < before
            invariant
                self.bytes == old(self).bytes,
                self.comments == old(self).comments,
                old(self).next <= self.next <= self.comments@.len(),
                holds(old(self)) ==> holds(self),
                flushed(old(self).comments@, old(self).next as int, before as int) == flushed(self.comments@, self.next as int, before as int),
                self.next == old(self).next ==> self.out@ == old(self).out@ && self.last == old(self).last
                    && self.broken == old(self).broken,
                self.next > old(self).next ==> self.last == self.comments@[self.next - 1].end && self.broken,
                holds(old(self)) ==> holds(self),
            decreases self.comments@.len() - self.next,
        {
            let span = self.comments[self.next];
            let count = self.newlines(span.start);
            let raw = self.text(span);
            let ghost whole = raw@;
            let text = trim_end(raw);
            proof { lemma_trim_white(whole, text@.len() as int); }
            if self.out.len() > 0 {
                if count == 0 {
                    self.put(' ');
                } else if count == 1 {
                    self.line(indent);
                } else {
                    self.blank(indent);
                }
            }
            let ghost prior = self.out@;
            let ghost held = holds(self);
            self.push(&text);
            let ghost mark: int = if text@.len() > 0 { prior.len() as int } else { trim_white(prior).len() as int };
            proof {
                reveal(holds_at);
                if held {
                    lemma_holds_comment(self.bytes@, self.comments@.subrange(0, self.next as int), prior, text@, self.marks@, span, mark);
                    assert(self.comments@.subrange(0, self.next + 1) =~= self.comments@.subrange(0, self.next as int).push(span));
                }
            }
            self.marks = Ghost(self.marks@.push(mark));
            self.next = self.next + 1;
            self.last = span.end;
            self.broken = true;
        }
    }

    /// Puts between the output and the item at `start` the break the author put there, a
    /// run of blank lines closed up to one; `force` breaks a line the author did not.
    fn separate(&mut self, start: usize, indent: usize, force: bool)
        requires
            old(self).next <= old(self).comments@.len(),
        ensures
            steady(old(self), final(self)),
            final(self).bytes == old(self).bytes,
            final(self).comments == old(self).comments,
            final(self).next == old(self).next,
            final(self).last == old(self).last,
            old(self).out@.len() == 0 ==> final(self).out@ == old(self).out@ && final(self).broken == old(self).broken,
            old(self).out@.len() > 0 ==> ({
                let count = gap(old(self).bytes@, old(self).last as int, start as int);
                &&& count == 0 && !force ==> final(self).broken == old(self).broken && final(self).out@ == (
                    if is_white(old(self).out@.last()) { old(self).out@ } else { old(self).out@.push(' ') })
                &&& (count == 1 || (count == 0 && force)) ==> final(self).out@ == broken_line(old(self).out@, indent as nat) && !final(self).broken
                &&& count >= 2 ==> final(self).out@ == blank_line(old(self).out@, indent as nat) && !final(self).broken
            }),
    {
        if self.out.len() == 0 {
            return;
        }
        let count = self.newlines(start);
        if count == 0 {
            if force {
                self.line(indent);
            } else if !white(self.out[self.out.len() - 1]) {
                self.put(' ');
            }
        } else if count == 1 {
            self.line(indent);
        } else {
            self.blank(indent);
        }
    }

    fn lead(&mut self, start: usize, indent: usize, force: bool)
        requires
            old(self).next <= old(self).comments@.len(),
        ensures
            steady(old(self), final(self)),
            final(self).next == flushed(old(self).comments@, old(self).next as int, start as int),
            quiet(old(self)) && old(self).out@.len() == 0 ==> quiet(final(self)) && final(self).out@.len() == 0,
            quiet(old(self)) ==> quiet(final(self)) && (final(self).out@ == old(self).out@
                || final(self).out@ == old(self).out@.push(' ')
                || final(self).out@ == broken_line(old(self).out@, indent as nat)
                || final(self).out@ == blank_line(old(self).out@, indent as nat)),
            quiet(old(self)) && (force || gap(old(self).bytes@, old(self).last as int, start as int) >= 1) && old(self).out@.len() > 0
                ==> (final(self).out@ == broken_line(old(self).out@, indent as nat)
                || final(self).out@ == blank_line(old(self).out@, indent as nat)),
    {
        self.flush(start, indent);
        self.separate(start, indent, force);
    }

    /// The end of the comment that covers `at`, if one does.
    fn covering(&self, at: usize) -> (end: Option<usize>)
        ensures
            end matches Some(e) ==> e > at,
            end == covering_from(self.comments@, at as int, 0),
    {
        let mut k: usize = 0;
        while k < self.comments.len()
            invariant
                k <= self.comments@.len(),
                covering_from(self.comments@, at as int, 0) == covering_from(self.comments@, at as int, k as int),
            decreases self.comments@.len() - k,
        {
            let comment = self.comments[k];
            if comment.start <= at && at < comment.end {
                return Some(comment.end);
            }
            k = k + 1;
        }
        None
    }

    /// Where an operator stands between the last place printed and `until`, stepping over
    /// comments; `until` where it is not found.
    fn operator(&self, op: Operator, until: usize) -> (found: usize)
        ensures
            found == until || ({
                &&& self.last <= found < until
                &&& found + op_bytes(op).len() <= self.bytes@.len()
                &&& self.bytes@.subrange(found as int, found + op_bytes(op).len()) == op_bytes(op)
                &&& covering_from(self.comments@, found as int, 0) is None
            }),
    {
        let symbol = op.spelling();
        let n = self.bytes.len();
        let mut at = self.last;
        while at < until && at < n
            invariant
                n == self.bytes@.len(),
                symbol@.len() == 1 || symbol@.len() == 2,
                symbol@ == op_bytes(op),
                self.last <= at,
            decreases until - at,
        {
            match self.covering(at) {
                Some(end) => {
                    at = if end > until { until } else { end };
                },
                None => {
                    if symbol.len() <= n - at && self.bytes[at] == symbol[0]
                        && (symbol.len() == 1 || self.bytes[at + 1] == symbol[1]) {
                        assert(self.bytes@.subrange(at as int, at + symbol@.len()) =~= symbol@);
                        return at;
                    }
                    let (_, width) = decode_at(self.bytes, at);
                    at = if width > until - at { until } else { at + width };
                },
            }
        }
        until
    }

    /// Prints an operator where it belongs: on the line, or on a line of its own after a
    /// comment.
    fn binder(&mut self, op: Operator, before: usize, indent: usize)
        requires
            old(self).next <= old(self).comments@.len(),
        ensures
            steady(old(self), final(self)),
            final(self).out@.len() >= op_chars(op).len(),
            final(self).out@.subrange(final(self).out@.len() - op_chars(op).len(), final(self).out@.len() as int) == op_chars(op),
            !final(self).broken,
            quiet(old(self)) ==> quiet(final(self)) && final(self).out@ == old(self).out@ + seq![' '] + op_chars(op),
    {
        let at = self.operator(op, before);
        self.flush(at, indent);
        if self.broken {
            self.line(indent);
        } else {
            self.put(' ');
        }
        let ghost placed = self.out@;
        self.push_operator(op);
        assert(self.out@.subrange(placed.len() as int, self.out@.len() as int) =~= op_chars(op));
        proof {
            if quiet(old(self)) {
                assert(placed =~= old(self).out@ + seq![' ']);
            }
        }
        let width = op.spelling().len();
        self.last = at.saturating_add(width);
    }

    /// Prints the value that follows an operator.
    fn after(&mut self, value: &Expr, indent: usize)
        requires
            old(self).next <= old(self).comments@.len(),
        ensures
            steady(old(self), final(self)),
            final(self).last == value.span.end,
            quiet(old(self)) && flat(old(self).bytes@, *value) is Some ==> quiet(final(self))
                && final(self).out@ == old(self).out@ + seq![' '] + flat(old(self).bytes@, *value)->0,
        decreases *value, 5nat,
    {
        self.flush(value.span.start, indent);
        if self.broken {
            self.line(indent);
        } else {
            self.put(' ');
        }
        self.expr(value, indent);
        self.last = value.span.end;
    }

    /// Prints a binding or a field: its name, its operator and its value.
    fn named(&mut self, name: Span, op: Operator, value: &Expr, indent: usize)
        requires
            old(self).next <= old(self).comments@.len(),
        ensures
            steady(old(self), final(self)),
            final(self).last == value.span.end,
            quiet(old(self)) && flat(old(self).bytes@, *value) is Some ==> quiet(final(self)) && final(self).out@
                == old(self).out@ + named_text(span_text(old(self).bytes@, name), op_chars(op), flat(old(self).bytes@, *value))->0,
        decreases *value, 6nat,
    {
        self.push_text(name);
        self.last = name.end;
        self.binder(op, value.span.start, indent);
        self.after(value, indent);
    }

    /// Prints the `j`th item of one part of a block.
    fn item(&mut self, e: &Expr, part: u8, j: usize, indent: usize)
        requires
            old(self).next <= old(self).comments@.len(),
            j < part_count(*e, part),
        ensures
            steady(old(self), final(self)),
            final(self).last == part_end(*e, part, j as int),
            quiet(old(self)) && item_text(old(self).bytes@, *e, part, j as int) is Some ==> quiet(final(self))
                && final(self).out@ == old(self).out@ + item_text(old(self).bytes@, *e, part, j as int)->0,
        decreases *e, 0nat,
    {
        match &e.kind {
            ExprKind::Tuple { bindings, fields } => {
                if part == 0 {
                    let binding = &bindings[j];
                    proof { assert(decreases_to!(*e => bindings@[j as int].value)); }
                    self.named(binding.name.span, Operator::Binder, &binding.value, indent);
                } else {
                    let field = &fields[j];
                    proof { assert(decreases_to!(*e => fields@[j as int].value)); }
                    self.named(field.name.span, Operator::Equals, &field.value, indent);
                }
            },
            ExprKind::Mapping { bindings, entries } => {
                if part == 0 {
                    let binding = &bindings[j];
                    proof { assert(decreases_to!(*e => bindings@[j as int].value)); }
                    self.named(binding.name.span, Operator::Binder, &binding.value, indent);
                } else {
                    let entry = &entries[j];
                    proof {
                        assert(decreases_to!(*e => entries@[j as int].key));
                        assert(decreases_to!(*e => entries@[j as int].value));
                    }
                    self.expr(&entry.key, indent);
                    self.last = entry.key.span.end;
                    self.binder(Operator::Arrow, entry.value.span.start, indent);
                    self.after(&entry.value, indent);
                }
            },
            ExprKind::List(values) => {
                let value = &values[j];
                proof { assert(decreases_to!(*e => values@[j as int])); }
                self.expr(value, indent);
                self.last = value.span.end;
            },
            _ => {},
        }
    }

    /// Prints a whole document: its bindings, then its value or its file of fields.
    fn document(&mut self, document: &Document)
        requires
            old(self).next <= old(self).comments@.len(),
        ensures
            steady(old(self), final(self)),
            final(self).next == final(self).comments@.len()
                || final(self).comments@[final(self).next as int].start >= final(self).bytes@.len(),
            quiet(old(self)) && old(self).out@.len() == 0 && document.bindings@.len() == 0 && document.form == Form::Value
                && alone(old(self).bytes@, document.value) is Some ==> final(self).out@ == alone(old(self).bytes@, document.value)->0,
            quiet(old(self)) && old(self).out@.len() == 0 && document.bindings@.len() == 0 && document.form == Form::Value
                && broken_block(old(self).bytes@, document.value) ==> final(self).out@.len() > 0
                    && (final(self).out@.last() == '}' || final(self).out@.last() == ']')
                    && opens_indented(final(self).out@, 0, open_bracket(document.value), 1, item_at(old(self).bytes@, document.value, 0)->0),
            quiet(old(self)) && old(self).out@.len() == 0 && document.bindings@.len() == 0 && document.form == Form::Value
                && broken_block(old(self).bytes@, document.value) && all_solid(old(self).bytes@, document.value)
                ==> forall|k: int| #![trigger starts_line(old(self).bytes@, document.value, k)]
                    0 <= k < items(document.value) && starts_line(old(self).bytes@, document.value, k)
                    ==> exists|at: int| #[trigger] line_opens(final(self).out@, at, 1, item_at(old(self).bytes@, document.value, k)->0),
    {
        let mut i: usize = 0;
        while i < document.bindings.len()
            invariant
                self.bytes == old(self).bytes,
                self.comments == old(self).comments,
                old(self).next <= self.next <= self.comments@.len(),
                holds(old(self)) ==> holds(self),
                document.bindings@.len() == 0 ==> self.out@ == old(self).out@ && self.next == old(self).next
                    && self.broken == old(self).broken,
            decreases document.bindings@.len() - i,
        {
            let binding = &document.bindings[i];
            self.lead(binding.name.span.start, 0, false);
            self.named(binding.name.span, Operator::Binder, &binding.value, 0);
            i = i + 1;
        }
        match (&document.form, &document.value.kind) {
            (Form::Fields, ExprKind::Tuple { bindings: _, fields }) => {
                let mut j: usize = 0;
                while j < fields.len()
                    invariant
                        self.bytes == old(self).bytes,
                        self.comments == old(self).comments,
                        old(self).next <= self.next <= self.comments@.len(),
                        holds(old(self)) ==> holds(self),
                    decreases fields@.len() - j,
                {
                    let field = &fields[j];
                    self.lead(field.name.span.start, 0, false);
                    self.named(field.name.span, Operator::Equals, &field.value, 0);
                    j = j + 1;
                }
            },
            _ => {
                self.lead(document.value.span.start, 0, false);
                proof {
                    if quiet(old(self)) && old(self).out@.len() == 0 && document.bindings@.len() == 0 {
                        assert(self.out@.len() == 0);
                        assert(last_break(self.out@) == 0);
                        assert(self.out@.subrange(0, 0) =~= Seq::<char>::empty());
                        assert(width(Seq::<char>::empty()) == 0);
                        assert(column_of(self.out@) == 0);
                    }
                }
                self.expr(&document.value, 0);
                self.last = document.value.span.end;
            },
        }
        let n = self.bytes.len();
        let ghost k = self.next as int;
        self.flush(n, 0);
        proof { lemma_flushed(self.comments@, k, n as int); }
    }

    /// Prints an expression.
    #[verifier::rlimit(40)]
    fn expr(&mut self, e: &Expr, indent: usize)
        requires
            old(self).next <= old(self).comments@.len(),
        ensures
            steady(old(self), final(self)),
            final(self).last == printed_end(*e),
            (e.kind is Tuple || e.kind is Mapping) ==> final(self).out@.len() > 0 && final(self).out@.last() == '}',
            e.kind is List ==> final(self).out@.len() > 0 && final(self).out@.last() == ']',
            e.kind is Index ==> final(self).out@.len() > 0 && final(self).out@.last() == ')',
            !(e.kind is Tuple || e.kind is Mapping || e.kind is List || e.kind is Access || e.kind is Index || e.kind is Call)
                ==> final(self).out@ == old(self).out@ + span_text(old(self).bytes@, e.span) && final(self).next == old(self).next,
            quiet(old(self)) && flat(old(self).bytes@, *e) is Some ==> quiet(final(self))
                && final(self).out@ == old(self).out@ + flat(old(self).bytes@, *e)->0,
            quiet(old(self)) && block_text(old(self).bytes@, *e) is Some
                && column_of(old(self).out@) + block_text(old(self).bytes@, *e)->0.len() <= WIDTH ==> quiet(final(self))
                && final(self).out@ == old(self).out@ + block_text(old(self).bytes@, *e)->0,
            quiet(old(self)) && broken_block(old(self).bytes@, *e) && indent < usize::MAX
                ==> final(self).out@.subrange(0, old(self).out@.len() as int) == old(self).out@
                    && opens_indented(final(self).out@, old(self).out@.len() as int, open_bracket(*e), (indent + 1) as nat,
                        item_at(old(self).bytes@, *e, 0)->0),
            quiet(old(self)) && broken_block(old(self).bytes@, *e) && all_solid(old(self).bytes@, *e) && indent < usize::MAX
                ==> forall|k: int| #![trigger starts_line(old(self).bytes@, *e, k)] 0 <= k < items(*e) && starts_line(old(self).bytes@, *e, k)
                    ==> exists|at: int| #[trigger] line_opens(final(self).out@, at, (indent + 1) as nat, item_at(old(self).bytes@, *e, k)->0),
        decreases *e, 4nat,
    {
        match &e.kind {
            ExprKind::Tuple { .. } | ExprKind::Mapping { .. } => self.block(e, '{', '}', indent),
            ExprKind::List(_) => self.block(e, '[', ']', indent),
            ExprKind::Access { operand, field } => {
                self.expr(operand, indent);
                self.last = operand.span.end;
                self.dot(operand, field.span.start, indent);
                self.push_text(field.span);
                self.last = field.span.end;
            },
            ExprKind::Index { operand, key } => {
                self.expr(operand, indent);
                self.last = operand.span.end;
                self.dot(operand, key.span.start, indent);
                self.put('(');
                self.expr(key, indent);
                self.last = key.span.end;
                self.put(')');
            },
            ExprKind::Call { name, operand } => {
                self.put('@');
                self.push_text(name.span);
                self.last = name.span.end;
                self.after(operand, indent);
            },
            _ => {
                self.push_text(e.span);
                self.last = e.span.end;
            },
        }
    }

    /// Prints the dot of a projection, closed up to its operand unless a number or a comment
    /// stands before it.
    fn dot(&mut self, operand: &Expr, before: usize, indent: usize)
        requires
            old(self).next <= old(self).comments@.len(),
        ensures
            steady(old(self), final(self)),
            final(self).next == flushed(old(self).comments@, old(self).next as int, before as int),
            final(self).last == old(self).last || final(self).next > old(self).next,
            final(self).out@.len() > 0 && final(self).out@.last() == '.',
            !final(self).broken,
            quiet(old(self)) ==> quiet(final(self)) && final(self).out@ == old(self).out@ + dot_chars(*operand),
    {
        self.flush(before, indent);
        if self.broken {
            self.line(indent);
        } else if numeric(operand) {
            self.put(' ');
        }
        self.put('.');
    }

    /// Prints the `j`th item of one part of a block after what goes before it: a space
    /// between two items of a block laid out on one line, else the break the author put
    /// there, forced where asked.
    fn block_step(&mut self, e: &Expr, part: u8, j: usize, inner: usize, layout: Layout, first: bool)
        requires
            old(self).next <= old(self).comments@.len(),
            j < part_count(*e, part),
        ensures
            steady(old(self), final(self)),
            final(self).last == part_end(*e, part, j as int),
            quiet(old(self)) && item_text(old(self).bytes@, *e, part, j as int) is Some ==> quiet(final(self)),
            quiet(old(self)) && item_text(old(self).bytes@, *e, part, j as int) is Some && layout == Layout::Inline
                ==> final(self).out@ == (if first { old(self).out@ } else { old(self).out@.push(' ') })
                    + item_text(old(self).bytes@, *e, part, j as int)->0,
            quiet(old(self)) && item_text(old(self).bytes@, *e, part, j as int) is Some && layout != Layout::Inline
                ==> led_item(old(self).out@, final(self).out@, item_text(old(self).bytes@, *e, part, j as int)->0,
                    inner as nat, first || layout == Layout::Reflow
                        || gap(old(self).bytes@, old(self).last as int, part_begin(*e, part, j as int) as int) >= 1),
        decreases *e, 1nat,
    {
        if layout == Layout::Inline {
            if !first {
                self.put(' ');
            }
        } else {
            let start = part_start(e, part, j);
            self.lead(start, inner, first || layout == Layout::Reflow);
        }
        let ghost mid = self.out@;
        self.item(e, part, j, inner);
        proof {
            if quiet(old(self)) && item_text(old(self).bytes@, *e, part, j as int) is Some && layout != Layout::Inline {
                assert(led(old(self).out@, mid, inner as nat, first || layout == Layout::Reflow
                    || gap(old(self).bytes@, old(self).last as int, part_begin(*e, part, j as int) as int) >= 1));
            }
        }
    }

    /// Prints a block: on one line, as the author broke it, or one item per line.
    #[verifier::rlimit(100)]
    #[verifier::spinoff_prover]
    fn block(&mut self, e: &Expr, open: char, close: char, indent: usize)
        requires
            old(self).next <= old(self).comments@.len(),
            solid(open),
        ensures
            quiet(old(self)) && items(*e) > 0 && e.span.end >= 1 && breaks(old(self).bytes@, inside(*e), e.span.end - 1)
                && joined(old(self).bytes@, *e, items(*e) as int) is Some && indent < usize::MAX
                && has_solid(item_at(old(self).bytes@, *e, 0)->0)
                ==> final(self).out@.subrange(0, old(self).out@.len() as int) == old(self).out@
                    && opens_indented(final(self).out@, old(self).out@.len() as int, open, (indent + 1) as nat, item_at(old(self).bytes@, *e, 0)->0),
            quiet(old(self)) && items(*e) > 0 && e.span.end >= 1 && breaks(old(self).bytes@, inside(*e), e.span.end - 1)
                && joined(old(self).bytes@, *e, items(*e) as int) is Some && indent < usize::MAX && all_solid(old(self).bytes@, *e)
                ==> forall|k: int| #![trigger starts_line(old(self).bytes@, *e, k)] 0 <= k < items(*e) && starts_line(old(self).bytes@, *e, k)
                    ==> exists|at: int| #[trigger] line_opens(final(self).out@, at, (indent + 1) as nat, item_at(old(self).bytes@, *e, k)->0),
            steady(old(self), final(self)),
            final(self).last == e.span.end,
            final(self).out@.len() > 0 && final(self).out@.last() == close,
            quiet(old(self)) && part_count(*e, 0) + part_count(*e, 1) == 0 ==> quiet(final(self))
                && final(self).out@ == old(self).out@ + seq![open, close],
            quiet(old(self)) && !(e.span.end >= 1 && breaks(old(self).bytes@, inside(*e), e.span.end - 1))
                && joined(old(self).bytes@, *e, items(*e) as int) is Some
                && column_of(old(self).out@) + joined(old(self).bytes@, *e, items(*e) as int)->0.len() + 2 <= WIDTH
                ==> quiet(final(self)) && final(self).out@
                    == old(self).out@ + seq![open] + joined(old(self).bytes@, *e, items(*e) as int)->0 + seq![close],
        decreases *e, 3nat,
    {
        let layout = self.layout(e, indent);
        let ghost empty = part_count(*e, 0) + part_count(*e, 1) == 0;
        let ghost bytes = self.bytes@;
        let ghost all = layout == Layout::Inline && quiet(old(self)) && joined(bytes, *e, items(*e) as int) is Some;
        let ghost mut done: int = 0;
        let ghost t0 = item_at(bytes, *e, 0)->0;
        let ghost chain = quiet(old(self)) && items(*e) > 0 && e.span.end >= 1 && breaks(bytes, inside(*e), e.span.end - 1)
            && joined(bytes, *e, items(*e) as int) is Some && indent < usize::MAX
            && has_solid(t0);
        let ghost start_out = old(self).out@;
        let ghost mut mark: int = 0;
        let ghost mut nl: Seq<char> = Seq::empty();
        let ghost mut si: int = 0;
        let ghost lines = chain && all_solid(bytes, *e);
        let ghost mut lm: int = 0;
        let ghost mut lk: Seq<char> = Seq::empty();
        let ghost mut ats: Seq<int> = Seq::empty();
        let ghost mut lnls: Seq<Seq<char>> = Seq::empty();
        let ghost mut lsis: Seq<int> = Seq::empty();
        self.put(open);
        self.last = e.span.start.saturating_add(1);
        let mut first = true;
        let inner = if layout == Layout::Inline { indent } else { indent.saturating_add(1) };
        assert(chain ==> layout == Layout::Author && inner == indent + 1);
        proof {
            if chain {
                reveal(block_kept);
                assert(block_kept(self.out@, quiet(self), done, true, bytes, *e, start_out, open, (indent + 1) as nat, mark, nl, si));
            }
            if lines {
                lemma_lines_start(self.out@, self.last as int, bytes, *e, (indent + 1) as nat);
            }
        }
        let mut part: u8 = 0;
        while part < 2
            invariant
                self.bytes == old(self).bytes,
                self.comments == old(self).comments,
                old(self).next <= self.next <= self.comments@.len(),
                holds(old(self)) ==> holds(self),
                empty && quiet(old(self)) ==> quiet(self) && self.out@ == old(self).out@.push(open),
                empty == (part_count(*e, 0) + part_count(*e, 1) == 0),
                bytes == self.bytes@,
                part <= 2,
                part == 0 ==> done == 0,
                part == 1 ==> done == part_count(*e, 0),
                part == 2 ==> done == items(*e),
                first == (done == 0),
                all == (layout == Layout::Inline && quiet(old(self)) && joined(bytes, *e, items(*e) as int) is Some),
                all ==> quiet(self) && self.out@ == old(self).out@.push(open) + joined(bytes, *e, done)->0,
                solid(open),
                chain ==> layout == Layout::Author && inner == indent + 1 && block_kept(self.out@, quiet(self), done, true, bytes, *e, start_out, open, (indent + 1) as nat, mark, nl, si),
                lines ==> chain && all_solid(bytes, *e) && lines_kept(self.out@, self.last as int, done, bytes, *e, (indent + 1) as nat, lm, lk, ats, lnls, lsis),
            decreases 2 - part,
        {
            let count = part_len(e, part);
            let mut j: usize = 0;
            while j < count
                invariant
                    count == part_count(*e, part),
                    self.bytes == old(self).bytes,
                    self.comments == old(self).comments,
                    old(self).next <= self.next <= self.comments@.len(),
                    holds(old(self)) ==> holds(self),
                    empty && quiet(old(self)) ==> quiet(self) && self.out@ == old(self).out@.push(open),
                    empty == (part_count(*e, 0) + part_count(*e, 1) == 0),
                    bytes == self.bytes@,
                    part < 2,
                    j <= count,
                    done == (if part == 0 { j as int } else { part_count(*e, 0) + j }),
                    first == (done == 0),
                    all == (layout == Layout::Inline && quiet(old(self)) && joined(bytes, *e, items(*e) as int) is Some),
                    all ==> quiet(self) && self.out@ == old(self).out@.push(open) + joined(bytes, *e, done)->0,
                    solid(open),
                chain ==> layout == Layout::Author && inner == indent + 1 && block_kept(self.out@, quiet(self), done, true, bytes, *e, start_out, open, (indent + 1) as nat, mark, nl, si),
                lines ==> chain && all_solid(bytes, *e) && lines_kept(self.out@, self.last as int, done, bytes, *e, (indent + 1) as nat, lm, lk, ats, lnls, lsis),
                decreases count - j,
            {
                let ghost o1 = self.out@;
                let ghost q1 = quiet(self);
                let ghost was_first = first;
                let ghost o_last = self.last;
                let ghost brk = first || layout == Layout::Reflow || gap(bytes, self.last as int, part_begin(*e, part, j as int) as int) >= 1;
                self.block_step(e, part, j, inner, layout, first);
                first = false;
                proof {
                    if all {
                        lemma_all_step(o1, self.out@, q1, quiet(self), was_first, done, bytes, *e, part, j as int, old(self).out@, open);
                    }
                    if chain {
                        let r = lemma_block_kept_step(o1, self.out@, q1, quiet(self), done, bytes, *e, part, j as int,
                            start_out, open, (indent + 1) as nat, mark, nl, si, brk);
                        mark = r.0;
                        nl = r.1;
                        si = r.2;
                    }
                    if lines {
                        lemma_item_index(bytes, *e, part, j as int, done);
                        let x = item_text(bytes, *e, part, j as int)->0;
                        let mid = choose|mid: Seq<char>| #[trigger] led(o1, mid, inner as nat, brk) && self.out@ == mid + x;
                        let r2 = lemma_lines_step(o1, o_last as int, mid, x, self.last as int, done, bytes, *e, (indent + 1) as nat,
                            lm, lk, ats, lnls, lsis, brk);
                        lm = r2.0;
                        lk = r2.1;
                        ats = ats.push(r2.2);
                        lnls = lnls.push(r2.3);
                        lsis = lsis.push(r2.4);
                    }
                    done = done + 1;
                }
                j = j + 1;
            }
            part = part + 1;
        }
        let ghost o1 = self.out@;
        let ghost o1_last = self.last;
        if layout != Layout::Inline {
            self.flush(e.span.end, inner);
            self.line(indent);
        }
        let ghost o2 = self.out@;
        self.put(close);
        self.last = e.span.end;
        proof {
            if quiet(old(self)) && items(*e) > 0 && e.span.end >= 1 && breaks(bytes, inside(*e), e.span.end - 1)
                && joined(bytes, *e, items(*e) as int) is Some && indent < usize::MAX && all_solid(bytes, *e) {
                assert(has_solid(item_at(bytes, *e, 0)->0));
                assert(lines);
            }
            if chain {
                reveal(block_kept);
                lemma_opening_closed(start_out, open, (indent + 1) as nat, t0, o1, o2, close, indent as nat, mark, nl, si);
                if lines {
                    assert(done == items(*e));
                    lemma_lines_closed(o1, o1_last as int, o2, close, indent as nat, done, bytes, *e, (indent + 1) as nat, lm, lk, ats, lnls, lsis);
                    assert(self.out@ == o2.push(close));
                    assert(bytes == old(self).bytes@);
                    assert forall|k: int| #![trigger starts_line(bytes, *e, k)] 0 <= k < items(*e) && starts_line(bytes, *e, k)
                        implies exists|at: int| #[trigger] line_opens(self.out@, at, (indent + 1) as nat, item_at(bytes, *e, k)->0) by {
                        assert(0 <= k < done);
                    }
                }
            }
        }
    }

    /// Decides how a block is laid out.
    fn layout(&self, e: &Expr, indent: usize) -> (layout: Layout)
        requires
            self.next <= self.comments@.len(),
        ensures
            self.next < self.comments@.len() && self.comments@[self.next as int].start < e.span.end ==> layout == Layout::Author,
            !(self.next < self.comments@.len() && self.comments@[self.next as int].start < e.span.end)
                && part_count(*e, 0) == 0 && part_count(*e, 1) == 0 ==> layout == Layout::Inline,
            !(self.next < self.comments@.len() && self.comments@[self.next as int].start < e.span.end)
                && part_count(*e, 0) + part_count(*e, 1) > 0 && e.span.end >= 1
                && breaks(self.bytes@, inside(*e), e.span.end - 1) ==> layout == Layout::Author,
            layout == Layout::Reflow ==> part_count(*e, 0) + part_count(*e, 1) > 0
                && !(e.span.end >= 1 && breaks(self.bytes@, inside(*e), e.span.end - 1)),
            !(self.next < self.comments@.len() && self.comments@[self.next as int].start < e.span.end)
                && !(e.span.end >= 1 && breaks(self.bytes@, inside(*e), e.span.end - 1))
                && joined(self.bytes@, *e, items(*e) as int) is Some
                && column_of(self.out@) + joined(self.bytes@, *e, items(*e) as int)->0.len() + 2 <= WIDTH ==> layout == Layout::Inline,
        decreases *e, 2nat,
    {
        if self.next < self.comments.len() && self.comments[self.next].start < e.span.end {
            return Layout::Author;
        }
        if part_len(e, 0) == 0 && part_len(e, 1) == 0 {
            return Layout::Inline;
        }
        if e.span.end >= 1 && self.breaks_between(e.span.start.saturating_add(1), e.span.end - 1) {
            return Layout::Author;
        }
        let wanted = self.column().saturating_add(self.measure(e, indent)).saturating_add(2);
        if wanted > WIDTH {
            return Layout::Reflow;
        }
        Layout::Inline
    }

    /// How many characters a block's items take printed on one line.
    fn measure(&self, e: &Expr, indent: usize) -> (measured: usize)
        ensures
            joined(self.bytes@, *e, items(*e) as int) is Some ==> measured == joined(self.bytes@, *e, items(*e) as int)->0.len(),
        decreases *e, 1nat,
    {
        let ghost bytes = self.bytes@;
        let ghost all = joined(bytes, *e, items(*e) as int) is Some;
        let mut scratch = Printer::new(self.bytes, Vec::new());
        let mut first = true;
        let mut part: u8 = 0;
        let ghost mut done: int = 0;
        while part < 2
            invariant
                scratch.next <= scratch.comments@.len(),
                scratch.bytes@ == bytes,
                part <= 2,
                part == 0 ==> done == 0,
                part == 1 ==> done == part_count(*e, 0),
                part == 2 ==> done == items(*e),
                first == (done == 0),
                all == (joined(bytes, *e, items(*e) as int) is Some),
                all ==> quiet(&scratch) && scratch.out@ == joined(bytes, *e, done)->0,
            decreases 2 - part,
        {
            let count = part_len(e, part);
            let mut j: usize = 0;
            while j < count
                invariant
                    count == part_count(*e, part),
                    part < 2,
                    j <= count,
                    scratch.next <= scratch.comments@.len(),
                    scratch.bytes@ == bytes,
                    done == (if part == 0 { j as int } else { part_count(*e, 0) + j }),
                    first == (done == 0),
                    all == (joined(bytes, *e, items(*e) as int) is Some),
                    all ==> quiet(&scratch) && scratch.out@ == joined(bytes, *e, done)->0,
                decreases count - j,
            {
                proof {
                    if all {
                        lemma_joined_prefix(bytes, *e, done, items(*e) as int);
                        lemma_joined_prefix(bytes, *e, done + 1, items(*e) as int);
                    }
                }
                if !first {
                    scratch.out.push(' ');
                }
                first = false;
                scratch.item(e, part, j, indent);
                proof { done = done + 1; }
                j = j + 1;
            }
            part = part + 1;
        }
        scratch.out.len()
    }

    /// The formatted text: the output with the white space it ended in replaced by one
    /// newline.
    fn finish(self) -> (text: String)
        ensures
            finished(text@),
            text@ == trim_white(self.out@) + seq!['\n'],
            holds(&self) ==> holds_comments(self.bytes@, self.comments@.subrange(0, self.next as int), text@, self.marks@),
    {
        proof {
            reveal(holds_at);
            if holds(&self) {
                lemma_holds_append(self.bytes@, self.comments@.subrange(0, self.next as int), trim_white(self.out@), seq!['\n'],
                    self.marks@);
            }
        }
        let ghost whole = self.out@;
        let out = trim_end(self.out);
        proof { lemma_trim_white(whole, out@.len() as int); }
        let mut text = String::new();
        let mut i: usize = 0;
        while i < out.len()
            invariant
                i <= out@.len(),
                text@ == out@.subrange(0, i as int),
            decreases out@.len() - i,
        {
            push_char(&mut text, out[i]);
            i = i + 1;
        }
        push_char(&mut text, '\n');
        assert(text@.subrange(0, out@.len() as int) == out@);
        assert(text@ =~= out@ + seq!['\n']);
        text
    }
}

} // verus!
