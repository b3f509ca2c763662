//! The builtins a call can name.
use vstd::prelude::*;
use crate::names::chars_of;

verus! {

/// A builtin: a function a document calls with `@`.
#[derive(Debug, Clone, Copy, PartialEq, Eq, Hash, Structural)]
pub enum Builtin {
    Concat,
    Import,
}

/// The name `concat`.
pub open spec fn concat_name() -> Seq<char> {
    seq!['c', 'o', 'n', 'c', 'a', 't']
}

/// The name `import`.
pub open spec fn import_name() -> Seq<char> {
    seq!['i', 'm', 'p', 'o', 'r', 't']
}

/// The name a builtin goes by.
pub open spec fn name_of(builtin: Builtin) -> Seq<char> {
    match builtin {
        Builtin::Concat => concat_name(),
        Builtin::Import => import_name(),
    }
}

impl Builtin {
    /// Every builtin.
    pub const ALL: [Builtin; 2] = [Builtin::Concat, Builtin::Import];

    /// The name a builtin is called by.
    pub fn name(self) -> (name: &'static str)
        ensures
            name@ == name_of(self),
    {
        proof {
            reveal_strlit("concat");
            reveal_strlit("import");
        }
        match self {
            Builtin::Concat => "concat",
            Builtin::Import => "import",
        }
    }

    /// How a call spells the builtin: `@` and its name.
    pub fn to_string(self) -> (text: String)
        ensures
            text@ == seq!['@'] + name_of(self),
    {
        let mut text = String::new();
        crate::utf::push_char(&mut text, '@');
        crate::text::append(&mut text, self.name());
        text
    }

    /// What a builtin takes and gives.
    pub fn summary(self) -> (summary: &'static str)
        ensures
            self == Builtin::Concat ==> summary@ == "takes a list of strings and gives them joined into one"@,
            self == Builtin::Import ==> summary@ == "takes a string literal and gives the document it names"@,
    {
        match self {
            Builtin::Concat => "takes a list of strings and gives them joined into one",
            Builtin::Import => "takes a string literal and gives the document it names",
        }
    }

    /// The builtin a name names, if one does.
    pub fn of(name: &str) -> (builtin: Option<Builtin>)
        ensures
            match builtin {
                Some(b) => name_of(b) == name@,
                None => name@ != concat_name() && name@ != import_name(),
            },
    {
        let c = chars_of(name);
        if c.len() == 6 && c[0] == 'c' && c[1] == 'o' && c[2] == 'n' && c[3] == 'c' && c[4] == 'a' && c[5] == 't' {
            assert(c@ =~= concat_name());
            return Some(Builtin::Concat);
        }
        if c.len() == 6 && c[0] == 'i' && c[1] == 'm' && c[2] == 'p' && c[3] == 'o' && c[4] == 'r' && c[5] == 't' {
            assert(c@ =~= import_name());
            return Some(Builtin::Import);
        }
        proof {
            if c@ == concat_name() {
                assert(c@[0] == 'c' && c@[5] == 't');
            }
            if c@ == import_name() {
                assert(c@[0] == 'i' && c@[5] == 't');
            }
        }
        None
    }
}

} // verus!
