//! A text an editor has open: its lines, what it parses to, and what reducing it last read.
use vstd::prelude::*;
use vstd::string::StringSliceAdditionalSpecFns;
use vstd::utf8::encode_utf8;
use crate::error::Error;
use crate::expr::Document;
use crate::position::{offset, opens, place, range, stands_at, whole, within, Encoding, Lines, Position, Range};
use crate::resolve::{bound_view, document_pass, read_view, Bound, Read, Resolution};
use crate::span::Span;
use crate::names::same_text;
use crate::surface::{parse, reads, well_formed};

verus! {

/// A parsed text: its tree, and what the tree's names resolve to.
pub struct Parsed {
    tree: Document,
    resolution: Resolution,
}

impl Parsed {
    /// The resolution is the tree's.
    pub closed spec fn wf(&self) -> bool {
        &&& self.resolution.wf()
        &&& self.resolution.bound_seq().map_values(|b: Bound| bound_view(b)) == document_pass(self.tree).bounds
        &&& self.resolution.read_seq().map_values(|r: Read| read_view(r)) == document_pass(self.tree).reads
    }

    pub closed spec fn tree_of(&self) -> Document {
        self.tree
    }

    pub closed spec fn resolution_of(&self) -> Resolution {
        self.resolution
    }

    /// The tree.
    pub fn tree(&self) -> (tree: &Document)
        ensures
            *tree == self.tree_of(),
    {
        &self.tree
    }

    /// What the tree's names resolve to.
    pub fn resolution(&self) -> (resolution: &Resolution)
        requires
            self.wf(),
        ensures
            *resolution == self.resolution_of(),
            resolution.wf(),
    {
        &self.resolution
    }
}

/// An open text.
pub struct Open {
    text: String,
    lines: Lines,
    parsed: Result<Parsed, Error>,
    read: Vec<String>,
    reduced: bool,
}

/// The bytes of a text.
pub open spec fn bytes_of(text: String) -> Seq<u8> {
    encode_utf8(text@)
}

impl Open {
    /// The lines are the text's, and where the text parsed, the tree is one it reads as and
    /// the resolution is the tree's.
    #[verifier::type_invariant]
    closed spec fn inv(self) -> bool {
        &&& self.lines@ == bytes_of(self.text)
        &&& self.parsed matches Ok(p) ==> p.wf() && reads(bytes_of(self.text), p.tree_of())
    }

    pub closed spec fn text_of(&self) -> String {
        self.text
    }

    pub closed spec fn parsed_of(&self) -> Result<Parsed, Error> {
        self.parsed
    }

    pub closed spec fn read_of(&self) -> Seq<String> {
        self.read@
    }

    pub closed spec fn reduced_of(&self) -> bool {
        self.reduced
    }

    /// Opens a text: indexes its lines and parses it. Nothing is read yet, and it is not yet
    /// reduced.
    pub fn new(text: String) -> (open: Open)
        requires
            bytes_of(text).len() < u32::MAX,
        ensures
            open.text_of() == text,
            open.read_of().len() == 0,
            !open.reduced_of(),
            open.parsed_of() matches Ok(p) ==> p.wf() && reads(bytes_of(text), p.tree_of()),
            open.parsed_of() is Ok <==> well_formed(bytes_of(text)),
    {
        let lines = Lines::new(text.as_str());
        let parsed = match parse(text.as_str()) {
            Ok(tree) => {
                let resolution = Resolution::of(&tree);
                Ok(Parsed { tree, resolution })
            },
            Err(error) => Err(error),
        };
        Open { text, lines, parsed, read: Vec::new(), reduced: false }
    }

    /// The text.
    pub fn text(&self) -> (text: &str)
        ensures
            text@ == self.text_of()@,
    {
        self.text.as_str()
    }

    /// The text's lines.
    pub fn lines(&self) -> (lines: &Lines)
        ensures
            lines@ == bytes_of(self.text_of()),
    {
        proof { use_type_invariant(self); }
        &self.lines
    }

    /// What the text parsed to, where it parsed.
    pub fn parsed(&self) -> (parsed: Option<&Parsed>)
        ensures
            parsed is Some == self.parsed_of() is Ok,
            parsed matches Some(p) ==> self.parsed_of() == Ok::<Parsed, Error>(*p) && p.wf()
                && reads(bytes_of(self.text_of()), p.tree_of()),
    {
        proof { use_type_invariant(self); }
        match &self.parsed {
            Ok(parsed) => Some(parsed),
            Err(_) => None,
        }
    }

    /// Why the text did not parse, where it did not.
    pub fn fault(&self) -> (fault: Option<&Error>)
        ensures
            fault is Some == self.parsed_of() is Err,
            fault matches Some(e) ==> self.parsed_of() == Err::<Parsed, Error>(*e),
    {
        match &self.parsed {
            Ok(_) => None,
            Err(error) => Some(error),
        }
    }

    /// The files the last reduction read.
    pub fn read(&self) -> (read: &[String])
        ensures
            read@ == self.read_of(),
    {
        self.read.as_slice()
    }

    /// Whether the last reduction went through.
    pub fn reduced(&self) -> (reduced: bool)
        ensures
            reduced == self.reduced_of(),
    {
        self.reduced
    }

    /// Records what the last reduction read, and whether it went through.
    pub fn record(&mut self, read: Vec<String>, reduced: bool)
        ensures
            final(self).text_of() == old(self).text_of(),
            final(self).parsed_of() == old(self).parsed_of(),
            final(self).read_of() == read@,
            final(self).reduced_of() == reduced,
    {
        proof { use_type_invariant(&*self); }
        self.read = read;
        self.reduced = reduced;
    }

    /// The range a span covers, counted in the given encoding; none where an end of the span
    /// lies inside a character, an offset the line index refuses.
    pub fn range(&self, encoding: Encoding, span: Span) -> (found: Option<Range>)
        ensures
            found is Some == (opens(bytes_of(self.text_of()), within(bytes_of(self.text_of()), span.start as int))
                && opens(bytes_of(self.text_of()), within(bytes_of(self.text_of()), span.end as int))),
            found matches Some(r) ==> stands_at(bytes_of(self.text_of()), encoding, within(bytes_of(self.text_of()), span.start as int), r.start)
                && stands_at(bytes_of(self.text_of()), encoding, within(bytes_of(self.text_of()), span.end as int), r.end),
    {
        proof { use_type_invariant(self); }
        if self.opens(span.start) && self.opens(span.end) {
            Some(range(&self.lines, encoding, span))
        } else {
            None
        }
    }

    /// Whether the line index can stand at `offset`, clamped to the text's end.
    fn opens(&self, offset: usize) -> (is: bool)
        ensures
            is == opens(bytes_of(self.text_of()), within(bytes_of(self.text_of()), offset as int)),
    {
        let bytes = self.text.as_str().as_bytes();
        let at = if offset <= bytes.len() { offset } else { bytes.len() };
        at == 0 || at == bytes.len() || !(0x80 <= bytes[at] && bytes[at] <= 0xbf)
    }

    /// The range that covers the whole text.
    pub fn whole(&self, encoding: Encoding) -> (found: Range)
        ensures
            stands_at(bytes_of(self.text_of()), encoding, 0, found.start),
            stands_at(bytes_of(self.text_of()), encoding, bytes_of(self.text_of()).len() as int, found.end),
    {
        proof { use_type_invariant(self); }
        whole(&self.lines, encoding, self.text.as_str())
    }

    /// The offset a position the editor sent names in the text.
    pub fn locate(&self, encoding: Encoding, at: Position) -> (found: Option<usize>)
        ensures
            found == place(bytes_of(self.text_of()), encoding, at),
            forall|o: int| 0 <= o <= bytes_of(self.text_of()).len() && opens(bytes_of(self.text_of()), o)
                && #[trigger] stands_at(bytes_of(self.text_of()), encoding, o, at) ==> found == Some(o as usize),
    {
        proof { use_type_invariant(self); }
        offset(&self.lines, encoding, at)
    }
}

/// Whether an open text is to be diagnosed again once `saved` is saved: it is the saved text
/// itself, its last reduction did not go through, or that reduction read the saved file, at
/// `path`.
pub fn dependent(uri: &str, open: &Open, saved: &str, path: Option<&str>) -> (is: bool)
    ensures
        is == (uri@ == saved@ || !open.reduced_of()
            || (path is Some && exists|i: int| 0 <= i < open.read_of().len() && (#[trigger] open.read_of()[i])@ == path->0@)),
{
    if same_text(uri, saved) || !open.reduced() {
        return true;
    }
    match path {
        Some(p) => {
            let read = open.read();
            let mut i: usize = 0;
            while i < read.len()
                invariant
                    i <= read@.len(),
                    read@ == open.read_of(),
                    path == Some(p),
                    forall|k: int| 0 <= k < i ==> (#[trigger] read@[k])@ != p@,
                decreases read@.len() - i,
            {
                let candidate = read[i].as_str();
                if same_text(candidate, p) {
                    assert(open.read_of()[i as int]@ == p@);
                    return true;
                }
                i = i + 1;
            }
            false
        },
        None => false,
    }
}

} // verus!

