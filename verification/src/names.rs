//! The two kinds of word the language spells: atoms and identifiers.
use vstd::prelude::*;

verus! {

/// The characters of `text`, in order.
pub fn chars_of(text: &str) -> (chars: Vec<char>)
    ensures
        chars@ == text@,
{
    let mut chars: Vec<char> = Vec::new();
    for c in it: text.chars()
        invariant
            chars@ == it.seq().take(it.index() as int),
            it.seq() == text@,
    {
        chars.push(c);
    }
    chars
}

} // verus!

verus! {

/// An ASCII capital letter.
pub open spec fn is_upper(c: char) -> bool {
    'A' <= c <= 'Z'
}

/// An ASCII lower-case letter.
pub open spec fn is_lower(c: char) -> bool {
    'a' <= c <= 'z'
}

/// An ASCII decimal digit.
pub open spec fn is_digit(c: char) -> bool {
    '0' <= c <= '9'
}

/// An atom is a capital followed by ASCII letters and digits.
pub open spec fn is_atom_spelling(s: Seq<char>) -> bool {
    &&& s.len() > 0
    &&& is_upper(s[0])
    &&& forall|i: int| 1 <= i < s.len() ==> is_upper(#[trigger] s[i]) || is_lower(s[i]) || is_digit(s[i])
}

/// An identifier is a lower-case letter followed by lower-case letters, digits and `_`.
pub open spec fn is_ident_spelling(s: Seq<char>) -> bool {
    &&& s.len() > 0
    &&& is_lower(s[0])
    &&& forall|i: int| 1 <= i < s.len() ==> is_lower(#[trigger] s[i]) || is_digit(s[i]) || s[i] == '_'
}

/// An uninterpreted word spelled in UpperCamelCase, such as `True`.
#[derive(Debug, PartialEq, Eq, PartialOrd, Ord, Hash)]
pub struct Atom {
    text: String,
}

/// A name: a tuple's field, a binding or a builtin.
#[derive(Debug, PartialEq, Eq, PartialOrd, Ord, Hash)]
pub struct Ident {
    text: String,
}

impl View for Atom {
    type V = Seq<char>;

    closed spec fn view(&self) -> Seq<char> {
        self.text@
    }
}

impl View for Ident {
    type V = Seq<char>;

    closed spec fn view(&self) -> Seq<char> {
        self.text@
    }
}

impl Clone for Atom {
    fn clone(&self) -> (copy: Self)
        ensures
            copy@ == self@,
    {
        Atom { text: self.text.clone() }
    }
}

impl Clone for Ident {
    fn clone(&self) -> (copy: Self)
        ensures
            copy@ == self@,
    {
        Ident { text: self.text.clone() }
    }
}

/// Whether two texts hold the same characters.
pub fn same_text(a: &str, b: &str) -> (same: bool)
    ensures
        same == (a@ == b@),
{
    let x = chars_of(a);
    let y = chars_of(b);
    if x.len() != y.len() {
        return false;
    }
    let mut i: usize = 0;
    while i < x.len()
        invariant
            x@ == a@,
            y@ == b@,
            x.len() == y.len(),
            i <= x.len(),
            forall|j: int| 0 <= j < i ==> x@[j] == y@[j],
        decreases x.len() - i,
    {
        if x[i] != y[i] {
            return false;
        }
        i = i + 1;
    }
    assert(x@ =~= y@);
    true
}

impl Atom {
    pub(crate) fn new(text: String) -> (atom: Atom)
        ensures
            atom@ == text@,
    {
        Atom { text }
    }

    /// The atom spelled by `text`, if `text` spells one.
    pub fn parse(text: &str) -> (atom: Option<Atom>)
        ensures
            atom is Some <==> is_atom_spelling(text@),
            atom matches Some(a) ==> a@ == text@,
    {
        let chars = chars_of(text);
        if chars.len() == 0 || !('A' <= chars[0] && chars[0] <= 'Z') {
            return None;
        }
        let mut i: usize = 1;
        while i < chars.len()
            invariant
                chars@ == text@,
                1 <= i <= chars.len(),
                forall|j: int| 1 <= j < i ==> is_upper(#[trigger] chars@[j]) || is_lower(chars@[j]) || is_digit(chars@[j]),
            decreases chars.len() - i,
        {
            let c = chars[i];
            if !(('A' <= c && c <= 'Z') || ('a' <= c && c <= 'z') || ('0' <= c && c <= '9')) {
                return None;
            }
            i = i + 1;
        }
        Some(Atom { text: text.to_owned() })
    }

    pub fn as_str(&self) -> (text: &str)
        ensures
            text@ == self@,
    {
        self.text.as_str()
    }
}

impl Ident {
    pub(crate) fn new(text: String) -> (ident: Ident)
        ensures
            ident@ == text@,
    {
        Ident { text }
    }

    /// The identifier spelled by `text`, if `text` spells one.
    pub fn parse(text: &str) -> (ident: Option<Ident>)
        ensures
            ident is Some <==> is_ident_spelling(text@),
            ident matches Some(i) ==> i@ == text@,
    {
        let chars = chars_of(text);
        if chars.len() == 0 || !('a' <= chars[0] && chars[0] <= 'z') {
            return None;
        }
        let mut i: usize = 1;
        while i < chars.len()
            invariant
                chars@ == text@,
                1 <= i <= chars.len(),
                forall|j: int| 1 <= j < i ==> is_lower(#[trigger] chars@[j]) || is_digit(chars@[j]) || chars@[j] == '_',
            decreases chars.len() - i,
        {
            let c = chars[i];
            if !(('a' <= c && c <= 'z') || ('0' <= c && c <= '9') || c == '_') {
                return None;
            }
            i = i + 1;
        }
        Some(Ident { text: text.to_owned() })
    }

    pub fn as_str(&self) -> (text: &str)
        ensures
            text@ == self@,
    {
        self.text.as_str()
    }

    /// Whether two identifiers are the same name.
    pub fn same(&self, other: &Ident) -> (same: bool)
        ensures
            same == (self@ == other@),
    {
        same_text(self.text.as_str(), other.text.as_str())
    }
}

} // verus!
