//! Where an offset stands for an editor: a zero-based line and a column counted in the units
//! the editor and the server agreed on.
use vstd::prelude::*;
use vstd::utf8::is_continuation_byte;
use vstd::string::StringSliceAdditionalSpecFns;
use line_index::{LineCol, LineIndex, TextSize, WideEncoding, WideLineCol};
use crate::names::same_text;
use crate::span::{before, lemma_newlines_bound, last_line, location_of, newlines, Location, Span};
use crate::utf::{char_count, starts_char};

verus! {

#[verifier::external_type_specification]
#[verifier::external_body]
pub struct ExLineIndex(LineIndex);

/// How columns are counted: in UTF-16 code units, which every editor understands, or in
/// bytes of UTF-8 where the editor offers it.
#[derive(Debug, Clone, Copy, PartialEq, Eq, Structural)]
pub enum Encoding {
    Utf16,
    Utf8,
}

impl Default for Encoding {
    fn default() -> (encoding: Encoding)
        ensures
            encoding == Encoding::Utf16,
    {
        Encoding::Utf16
    }
}

/// Whether a list of offered encodings names UTF-8.
pub open spec fn offers_utf8(kinds: Seq<String>) -> bool {
    exists|i: int| 0 <= i < kinds.len() && (#[trigger] kinds[i])@ == "utf-8"@
}

impl Encoding {
    /// The encoding to count in: UTF-8 where the editor offers it, else UTF-16.
    pub fn offered(offered: Option<&[String]>) -> (encoding: Encoding)
        ensures
            encoding == (if offered is Some && offers_utf8(offered->0@) { Encoding::Utf8 } else { Encoding::Utf16 }),
    {
        match offered {
            Some(kinds) => {
                let mut i: usize = 0;
                while i < kinds.len()
                    invariant
                        offered == Some(kinds),
                        i <= kinds@.len(),
                        forall|j: int| 0 <= j < i ==> (#[trigger] kinds@[j])@ != "utf-8"@,
                    decreases kinds@.len() - i,
                {
                    let kind = kinds[i].as_str();
                    if same_text(kind, "utf-8") {
                        assert(kind@ == kinds@[i as int]@);
                        assert(offers_utf8(kinds@));
                        return Encoding::Utf8;
                    }
                    i = i + 1;
                }
                Encoding::Utf16
            },
            None => Encoding::Utf16,
        }
    }

    /// The name the protocol gives this encoding.
    pub fn kind(self) -> (name: &'static str)
        ensures
            name@ == (match self { Encoding::Utf16 => "utf-16"@, Encoding::Utf8 => "utf-8"@ }),
    {
        match self {
            Encoding::Utf16 => "utf-16",
            Encoding::Utf8 => "utf-8",
        }
    }
}

/// A zero-based line and a column within it.
#[derive(Debug, Clone, Copy, PartialEq, Eq, Structural)]
pub struct Position {
    pub line: u32,
    pub character: u32,
}

/// Where a range starts and where it ends.
#[derive(Debug, Clone, Copy, PartialEq, Eq, Structural)]
pub struct Range {
    pub start: Position,
    pub end: Position,
}

/// A text's line index, with the bytes of the text it was built from.
pub struct Lines {
    index: LineIndex,
    text: Ghost<Seq<u8>>,
}

impl View for Lines {
    type V = Seq<u8>;

    closed spec fn view(&self) -> Seq<u8> {
        self.text@
    }
}

/// How many UTF-16 code units the characters of `bytes` take: two for a character whose
/// encoding takes four bytes, one for any other.
pub open spec fn utf16_len(bytes: Seq<u8>) -> nat
    decreases bytes.len(),
{
    if bytes.len() == 0 {
        0
    } else {
        utf16_len(bytes.drop_last()) + if is_continuation_byte(bytes.last()) {
            0nat
        } else if bytes.last() >= 0xf0 {
            2nat
        } else {
            1nat
        }
    }
}

/// Where line `line` starts: just after its `line`-th newline, if the text has that many.
pub open spec fn line_start(text: Seq<u8>, line: nat) -> Option<nat>
    decreases text.len(),
{
    if line == 0 {
        Some(0)
    } else if text.len() == 0 {
        None
    } else if text.last() == 10u8 && newlines(text.drop_last()) + 1 == line {
        Some(text.len())
    } else {
        line_start(text.drop_last(), line)
    }
}

/// The offset an index counts from: the given one, or the end of the text where it lies
/// beyond it.
pub open spec fn within(text: Seq<u8>, offset: int) -> int {
    if offset <= text.len() { offset } else { text.len() as int }
}

/// The column of `offset` within its line: the bytes since the last newline before it, or
/// their UTF-16 code units.
pub open spec fn column(text: Seq<u8>, encoding: Encoding, offset: int) -> nat {
    let line = last_line(text.subrange(0, offset));
    match encoding {
        Encoding::Utf8 => line.len(),
        Encoding::Utf16 => utf16_len(line),
    }
}

/// `at` is where `offset` stands: its line counts the newlines before the offset, and its
/// character is the offset's column.
pub open spec fn stands_at(text: Seq<u8>, encoding: Encoding, offset: int, at: Position) -> bool {
    &&& at.line == newlines(text.subrange(0, offset))
    &&& at.character == column(text, encoding, offset)
}

/// `offset` is a place in the text: its start, its end, or where a character's encoding
/// begins.
pub open spec fn opens(text: Seq<u8>, offset: int) -> bool {
    offset == 0 || starts_char(text, offset)
}

/// `offset` is a place in the text, and stands on line `line` at column `col` in the encoding.
pub open spec fn places(text: Seq<u8>, encoding: Encoding, offset: int, line: u32, col: u32) -> bool {
    &&& opens(text, offset)
    &&& newlines(text.subrange(0, offset)) == line
    &&& column(text, encoding, offset) == col
}

/// Where line `line` and column `col`, counted in `from`, are the place of an offset that
/// starts a character, `found` is that place with its column counted the other way.
pub open spec fn recounts(text: Seq<u8>, from: Encoding, line: u32, col: u32, found: Option<(u32, u32)>) -> bool {
    let to = match from { Encoding::Utf8 => Encoding::Utf16, Encoding::Utf16 => Encoding::Utf8 };
    forall|offset: int| #[trigger] places(text, from, offset, line, col)
        ==> column(text, to, offset) <= u32::MAX && found == Some((line, column(text, to, offset) as u32))
}

/// What `LineIndex::to_utf8` gives for a line and a UTF-16 column of `text`.
pub uninterp spec fn utf8_line_col(text: Seq<u8>, line: u32, col: u32) -> Option<(u32, u32)>;

/// The line and the column in bytes that a position names.
pub open spec fn byte_line_col(text: Seq<u8>, encoding: Encoding, at: Position) -> Option<(u32, u32)> {
    match encoding {
        Encoding::Utf8 => Some((at.line, at.character)),
        Encoding::Utf16 => utf8_line_col(text, at.line, at.character),
    }
}

/// The offset a position names: its line's start plus its column in bytes, where the line
/// exists and the sum fits in 32 bits.
pub open spec fn place(text: Seq<u8>, encoding: Encoding, at: Position) -> Option<usize> {
    match byte_line_col(text, encoding, at) {
        Some((line, col)) => match line_start(text, line as nat) {
            Some(start) => if start + col <= u32::MAX { Some((start + col) as usize) } else { None },
            None => None,
        },
        None => None,
    }
}

/// Wraps `LineIndex::new`, which records where each line of `text` starts and where its
/// characters of more than one byte stand; it asserts that the text is shorter than
/// `u32::MAX` bytes.
#[verifier::external_body]
fn index_lines(text: &str) -> (lines: Lines)
    requires
        text.spec_bytes().len() < u32::MAX,
    ensures
        lines@ == text.spec_bytes(),
{
    Lines { index: LineIndex::new(text), text: Ghost(text.spec_bytes()) }
}

/// Wraps `LineIndex::len`, the length of the indexed text.
#[verifier::external_body]
fn text_len(lines: &Lines) -> (len: u32)
    ensures
        len == lines@.len(),
{
    u32::from(lines.index.len())
}

/// Wraps `LineIndex::line_col`, which counts the newlines before `offset` and the bytes since
/// the last of them; it panics where `offset` is past the end or inside a character.
#[verifier::external_body]
fn line_col(lines: &Lines, offset: u32) -> (at: (u32, u32))
    requires
        opens(lines@, offset as int),
    ensures
        at.0 == newlines(lines@.subrange(0, offset as int)),
        at.1 == last_line(lines@.subrange(0, offset as int)).len(),
{
    let at = lines.index.line_col(TextSize::from(offset));
    (at.line, at.col)
}

/// Wraps `LineIndex::to_wide` with UTF-16: where the line and byte column are those of an
/// offset that starts a character, the column becomes the UTF-16 code units of the line's
/// bytes before it. What it gives for other columns is left unsaid here.
#[verifier::external_body]
fn utf16_col(lines: &Lines, line: u32, col: u32) -> (wide: Option<(u32, u32)>)
    ensures
        recounts(lines@, Encoding::Utf8, line, col, wide),
{
    lines.index.to_wide(WideEncoding::Utf16, LineCol { line, col }).map(|at| (at.line, at.col))
}

/// Wraps `LineIndex::to_utf8` with UTF-16, which turns a UTF-16 column back into one counted
/// in bytes; where the column is that of an offset that starts a character, it is that
/// offset's column in bytes.
#[verifier::external_body]
fn utf8_col(lines: &Lines, line: u32, col: u32) -> (at: Option<(u32, u32)>)
    ensures
        at == utf8_line_col(lines@, line, col),
        recounts(lines@, Encoding::Utf16, line, col, at),
{
    lines.index.to_utf8(WideEncoding::Utf16, WideLineCol { line, col }).map(|at| (at.line, at.col))
}

/// Wraps `LineIndex::offset`: the start of line `line` plus `col`, or nothing where the text
/// has no such line; the sum panics where it passes `u32::MAX`.
#[verifier::external_body]
fn line_offset(lines: &Lines, line: u32, col: u32) -> (found: Option<u32>)
    requires
        line_start(lines@, line as nat) matches Some(start) ==> start + col <= u32::MAX,
    ensures
        found == (match line_start(lines@, line as nat) {
            Some(start) => Some((start + col) as u32),
            None => None,
        }),
{
    lines.index.offset(LineCol { line, col }).map(u32::from)
}

impl Lines {
    /// Indexes the lines of `text`.
    pub fn new(text: &str) -> (lines: Lines)
        requires
            text.spec_bytes().len() < u32::MAX,
        ensures
            lines@ == text.spec_bytes(),
    {
        index_lines(text)
    }
}

/// Each newline before `j` is counted among those before any later `k`.
proof fn lemma_newlines_grow(t: Seq<u8>, j: int, k: int)
    requires
        0 <= j <= k <= t.len(),
    ensures
        newlines(t.subrange(0, j)) <= newlines(t.subrange(0, k)),
        j < k && t[k - 1] == 10u8 ==> newlines(t.subrange(0, j)) < newlines(t.subrange(0, k)),
    decreases k - j,
{
    if j < k {
        lemma_newlines_grow(t, j, k - 1);
        assert(t.subrange(0, k).drop_last() =~= t.subrange(0, k - 1));
    }
}

/// A text has no more newlines than bytes, nor a longer last line than itself.
proof fn lemma_newlines_short(t: Seq<u8>)
    ensures
        newlines(t) <= t.len(),
        last_line(t).len() <= t.len(),
    decreases t.len(),
{
    if t.len() > 0 {
        lemma_newlines_short(t.drop_last());
    }
}

/// A line that starts somewhere starts just after a newline, the one that makes the count
/// of newlines before it the line's number; the line exists exactly where the text has that
/// many newlines.
proof fn lemma_line_start(t: Seq<u8>, line: nat)
    requires
        line >= 1,
    ensures
        (line_start(t, line) is Some) == (newlines(t) >= line),
        line_start(t, line) matches Some(s) ==>
            1 <= s <= t.len() && t[s - 1] == 10u8 && newlines(t.subrange(0, s as int)) == line,
    decreases t.len(),
{
    if t.len() > 0 {
        lemma_line_start(t.drop_last(), line);
        assert(t.subrange(0, t.len() as int) =~= t);
        let d = t.drop_last();
        if let Some(s) = line_start(d, line) {
            assert(t.subrange(0, s as int) =~= d.subrange(0, s as int));
        }
    }
}

/// There is one place a line can start: after a newline, with as many newlines before it as
/// the line's number.
proof fn lemma_line_start_at(t: Seq<u8>, line: nat, s: int)
    requires
        line >= 1,
        1 <= s <= t.len(),
        t[s - 1] == 10u8,
        newlines(t.subrange(0, s)) == line,
    ensures
        line_start(t, line) == Some(s as nat),
{
    lemma_newlines_grow(t, s, t.len() as int);
    assert(t.subrange(0, t.len() as int) =~= t);
    lemma_line_start(t, line);
    let found = line_start(t, line)->0 as int;
    if found < s {
        lemma_newlines_grow(t, found, s);
    } else if s < found {
        lemma_newlines_grow(t, s, found);
    }
}

/// The last line of a text starts after its last newline, or at its start where it has none.
proof fn lemma_last_line(p: Seq<u8>)
    ensures
        last_line(p).len() <= p.len(),
        last_line(p) =~= p.subrange(p.len() - last_line(p).len(), p.len() as int),
        newlines(p) == 0 ==> last_line(p).len() == p.len(),
        newlines(p) > 0 ==> ({
            let k = p.len() - last_line(p).len();
            1 <= k && p[k - 1] == 10u8 && newlines(p.subrange(0, k)) == newlines(p)
        }),
    decreases p.len(),
{
    if p.len() > 0 {
        let d = p.drop_last();
        lemma_last_line(d);
        assert(p.subrange(0, p.len() as int) =~= p);
        if p.last() != 10u8 {
            let k = d.len() - last_line(d).len();
            assert(p.subrange(0, k) =~= d.subrange(0, k));
        }
    }
}

/// The line an offset stands on starts where its last line does.
proof fn lemma_line_of(t: Seq<u8>, offset: int)
    requires
        0 <= offset <= t.len(),
    ensures
        line_start(t, newlines(t.subrange(0, offset))) == Some((offset - last_line(t.subrange(0, offset)).len()) as nat),
        last_line(t.subrange(0, offset)).len() <= offset,
{
    let p = t.subrange(0, offset);
    lemma_last_line(p);
    let k = offset - last_line(p).len();
    if newlines(p) > 0 {
        assert(t.subrange(0, k) =~= p.subrange(0, k));
        lemma_line_start_at(t, newlines(p), k);
    }
}

/// The line and column of an offset, counted in the given encoding.
pub fn position(lines: &Lines, encoding: Encoding, offset: usize) -> (at: Position)
    requires
        opens(lines@, within(lines@, offset as int)),
    ensures
        stands_at(lines@, encoding, within(lines@, offset as int), at),
{
    let len = text_len(lines);
    let clamped: u32 = if offset <= len as usize { offset as u32 } else { len };
    let (line, col) = line_col(lines, clamped);
    assert(clamped == within(lines@, offset as int));
    match encoding {
        Encoding::Utf8 => Position { line, character: col },
        Encoding::Utf16 => {
            let wide = utf16_col(lines, line, col);
            assert(places(lines@, Encoding::Utf8, clamped as int, line, col));
            match wide {
                Some((l, c)) => Position { line: l, character: c },
                None => Position { line, character: col },
            }
        },
    }
}

/// The range between the places a span's ends stand.
pub fn range(lines: &Lines, encoding: Encoding, span: Span) -> (found: Range)
    requires
        opens(lines@, within(lines@, span.start as int)),
        opens(lines@, within(lines@, span.end as int)),
    ensures
        stands_at(lines@, encoding, within(lines@, span.start as int), found.start),
        stands_at(lines@, encoding, within(lines@, span.end as int), found.end),
{
    Range { start: position(lines, encoding, span.start), end: position(lines, encoding, span.end) }
}

/// The range that covers the whole of `text`, the text the lines were indexed from.
pub fn whole(lines: &Lines, encoding: Encoding, text: &str) -> (found: Range)
    requires
        text.spec_bytes() == lines@,
    ensures
        stands_at(lines@, encoding, 0, found.start),
        stands_at(lines@, encoding, lines@.len() as int, found.end),
{
    let indexed = text_len(lines);
    let len = text.len();
    assert(len == lines@.len());
    range(lines, encoding, Span::new(0, len))
}

/// The offset a position names: the start of its line plus its column in bytes. An editor
/// that counts in UTF-16 has its column turned into bytes first. There is none where the text
/// has no such line, or where the sum would not fit in 32 bits. Where the position is the
/// place of an offset that starts a character, it names that offset.
pub fn offset(lines: &Lines, encoding: Encoding, at: Position) -> (found: Option<usize>)
    ensures
        found == place(lines@, encoding, at),
        forall|o: int| 0 <= o <= lines@.len() && opens(lines@, o) && #[trigger] stands_at(lines@, encoding, o, at)
            ==> found == Some(o as usize),
{
    let len = text_len(lines);
    let located = match encoding {
        Encoding::Utf8 => Some((at.line, at.character)),
        Encoding::Utf16 => utf8_col(lines, at.line, at.character),
    };
    assert forall|o: int| 0 <= o <= lines@.len() && opens(lines@, o) && #[trigger] stands_at(lines@, encoding, o, at)
        implies place(lines@, encoding, at) == Some(o as usize) by {
        lemma_line_of(lines@, o);
        assert(places(lines@, encoding, o, at.line, at.character));
    }
    match located {
        None => None,
        Some((line, col)) => {
            proof {
                if line >= 1 {
                    lemma_line_start(lines@, line as nat);
                }
            }
            match line_offset(lines, line, 0) {
                None => None,
                Some(start) => {
                    if start as u64 + col as u64 > u32::MAX as u64 {
                        None
                    } else {
                        match line_offset(lines, line, col) {
                            Some(o) => Some(o as usize),
                            None => None,
                        }
                    }
                },
            }
        },
    }
}

/// Where the first `n` characters of a line end, counting from `at`: a newline is the last
/// character of its line, and the text's end ends the last line.
pub open spec fn chars_end(t: Seq<u8>, at: int, n: nat) -> int
    decreases t.len() - at,
{
    if at < 0 || at >= t.len() {
        t.len() as int
    } else if is_continuation_byte(t[at]) {
        chars_end(t, at + 1, n)
    } else if n == 0 {
        at
    } else if t[at] == 10u8 {
        at + 1
    } else {
        chars_end(t, at + 1, (n - 1) as nat)
    }
}

/// The offset of a one-based line and column: the start of that line plus the bytes of the
/// characters before the column, or the end of the text where it has no such line.
pub open spec fn point_of(t: Seq<u8>, at: Location) -> int {
    if at.line >= 1 && line_start(t, (at.line - 1) as nat) is Some {
        chars_end(t, line_start(t, (at.line - 1) as nat)->0 as int, if at.column >= 1 { (at.column - 1) as nat } else { 0 })
    } else {
        t.len() as int
    }
}

/// A text holds at least as many line breaks as any of its prefixes.
proof fn lemma_newlines_prefix(a: Seq<u8>, i: int)
    requires
        0 <= i <= a.len(),
    ensures
        newlines(a.subrange(0, i)) <= newlines(a),
    decreases a.len(),
{
    if i == a.len() {
        assert(a.subrange(0, i) =~= a);
    } else {
        assert(a.drop_last().subrange(0, i) =~= a.subrange(0, i));
        lemma_newlines_prefix(a.drop_last(), i);
    }
}

/// The last line of a text is the part of it after its last line break, and holds none.
proof fn lemma_last_line_shape(p: Seq<u8>)
    ensures
        last_line(p).len() <= p.len(),
        last_line(p) == p.subrange(p.len() - last_line(p).len(), p.len() as int),
        forall|k: int| 0 <= k < last_line(p).len() ==> #[trigger] last_line(p)[k] != 10u8,
        newlines(p) == 0 ==> last_line(p) == p,
    decreases p.len(),
{
    if p.len() == 0 {
        assert(p.subrange(0, 0) =~= p);
    } else if p.last() == 10u8 {
        assert(p.subrange(p.len() as int, p.len() as int) =~= Seq::<u8>::empty());
    } else {
        let d = p.drop_last();
        lemma_last_line_shape(d);
        let l = last_line(d);
        assert(last_line(p) == l.push(p.last()));
        assert(p.subrange(p.len() - (l.len() + 1), p.len() as int) =~= d.subrange(d.len() - l.len(), d.len() as int).push(p.last()));
        assert forall|k: int| 0 <= k < last_line(p).len() implies #[trigger] last_line(p)[k] != 10u8 by {
            if k < l.len() {
                assert(last_line(p)[k] == l[k]);
            }
        }
        if newlines(p) == 0 {
            assert(d.push(p.last()) =~= p);
        }
    }
}

/// A line begins right after the line break that ends the one before it.
proof fn lemma_line_start_of(text: Seq<u8>, o: int)
    requires
        0 <= o <= text.len(),
    ensures
        line_start(text, newlines(text.subrange(0, o))) == Some((o - last_line(text.subrange(0, o)).len()) as nat),
    decreases text.len(),
{
    let p = text.subrange(0, o);
    let lines = newlines(p);
    lemma_last_line_shape(p);
    if lines == 0 {
    } else if text.len() > o {
        let d = text.drop_last();
        assert(d.subrange(0, o) =~= p);
        lemma_newlines_prefix(d, o);
        lemma_line_start_of(d, o);
    } else {
        assert(p =~= text);
        let d = text.drop_last();
        if text.last() == 10u8 {
            assert(last_line(p).len() == 0);
        } else {
            assert(d.subrange(0, o - 1) =~= d);
            lemma_line_start_of(d, o - 1);
            assert(last_line(p) == last_line(d).push(text.last()));
        }
    }
}

/// Characters counted over two runs of bytes add up.
proof fn lemma_char_count_add(a: Seq<u8>, b: Seq<u8>)
    ensures
        char_count(a + b) == char_count(a) + char_count(b),
    decreases b.len(),
{
    if b.len() == 0 {
        assert(a + b =~= a);
    } else {
        assert((a + b).drop_last() =~= a + b.drop_last());
        lemma_char_count_add(a, b.drop_last());
    }
}

/// Counting the characters of a line from `s` reaches `o`, where the line runs on to `o`
/// and a character begins there.
proof fn lemma_chars_end_at(t: Seq<u8>, s: int, o: int)
    requires
        0 <= s <= o <= t.len(),
        starts_char(t, o),
        forall|k: int| s <= k < o ==> #[trigger] t[k] != 10u8,
    ensures
        chars_end(t, s, char_count(t.subrange(s, o))) == o,
    decreases o - s,
{
    if s == o {
        assert(t.subrange(s, o) =~= Seq::<u8>::empty());
        assert(char_count(Seq::<u8>::empty()) == 0);
        if o < t.len() {
            assert(!is_continuation_byte(t[o]));
        }
    } else {
        let rest = t.subrange(s + 1, o);
        let first = seq![t[s]];
        assert(t.subrange(s, o) =~= first + rest);
        lemma_char_count_add(first, rest);
        assert(first.drop_last() =~= Seq::<u8>::empty());
        assert(char_count(first) == char_count(Seq::<u8>::empty()) + if is_continuation_byte(t[s]) { 0nat } else { 1nat });
        assert(char_count(Seq::<u8>::empty()) == 0);
        lemma_chars_end_at(t, s + 1, o);
        let n = char_count(t.subrange(s, o));
        assert(t[s] != 10u8);
        if is_continuation_byte(t[s]) {
            assert(n == char_count(rest));
            assert(chars_end(t, s, n) == chars_end(t, s + 1, n));
        } else {
            assert(n == char_count(rest) + 1);
            assert(chars_end(t, s, n) == chars_end(t, s + 1, (n - 1) as nat));
        }
    }
}

/// Law: the offset of the line and column at which an offset stands is that offset, for
/// every offset at which a character begins.
pub proof fn lemma_point_inverts_location(t: Seq<u8>, o: int)
    requires
        starts_char(t, o),
        t.len() < usize::MAX,
    ensures
        point_of(t, location_of(t, o)) == o,
{
    let p = t.subrange(0, o);
    assert(before(t, o) == p);
    lemma_newlines_bound(p);
    lemma_last_line_shape(p);
    lemma_line_start_of(t, o);
    let ll = last_line(p);
    let s = o - ll.len();
    assert(ll =~= t.subrange(s, o));
    assert forall|k: int| s <= k < o implies #[trigger] t[k] != 10u8 by {
        assert(t[k] == ll[k - s]);
    }
    lemma_chars_end_at(t, s, o);
}

/// The offset at which a one-based line and column, the column counted in characters,
/// stands in `text`.
pub fn point(text: &str, at: Location) -> (offset: usize)
    ensures
        offset == point_of(text.spec_bytes(), at),
{
    let bytes = text.as_bytes();
    let n = bytes.len();
    if at.line == 0 {
        return n;
    }
    let target = at.line - 1;
    let mut i: usize = 0;
    let mut line: usize = 0;
    while line < target && i < n
        invariant
            i <= n,
            n == bytes@.len(),
            line == newlines(bytes@.subrange(0, i as int)),
            line <= target,
            line == target && target >= 1 ==> i >= 1 && bytes@[i - 1] == 10u8,
            target == 0 ==> i == 0,
        decreases n - i,
    {
        proof {
            assert(bytes@.subrange(0, i + 1).drop_last() =~= bytes@.subrange(0, i as int));
            lemma_newlines_short(bytes@.subrange(0, i as int));
        }
        if bytes[i] == 10u8 {
            line = line + 1;
        }
        i = i + 1;
    }
    proof {
        assert(bytes@.subrange(0, n as int) =~= bytes@);
        if line < target {
            lemma_line_start(bytes@, target as nat);
        } else if target >= 1 {
            lemma_line_start_at(bytes@, target as nat, i as int);
        }
    }
    if line < target {
        return n;
    }
    let mut want: usize = if at.column >= 1 { at.column - 1 } else { 0 };
    let ghost goal = chars_end(bytes@, i as int, want as nat);
    let mut j: usize = i;
    loop
        invariant
            i <= j <= n,
            n == bytes@.len(),
            bytes@ == text.spec_bytes(),
            chars_end(bytes@, j as int, want as nat) == goal,
            goal == point_of(bytes@, at),
        decreases n - j,
    {
        if j >= n {
            return n;
        }
        let b = bytes[j];
        if 0x80 <= b && b <= 0xbf {
            j = j + 1;
        } else if want == 0 {
            return j;
        } else if b == 10u8 {
            return j + 1;
        } else {
            want = want - 1;
            j = j + 1;
        }
    }
}

} // verus!
