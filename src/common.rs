use vstd::prelude::*;

verus! {

/// Key / value separator type
#[derive(Clone, Copy, Debug, PartialEq, Eq, Structural)]
pub enum Separator {
    /// Normal `: ` separator
    Normal,
    /// Text append `:>` separator
    TextAppend,
    /// Text value `:=` separator
    TextValue,
}

/// Key / value definition
#[derive(Clone, Debug, PartialEq)]
pub struct Define {
    /// Nesting depth
    pub indent: usize,
    /// Key for definition
    pub key: Vec<char>,
    /// Key / value separator
    pub separator: Separator,
    /// Value for definition
    pub value: Vec<char>,
}

/// Text of a separator
pub open spec fn separator_text(s: Separator) -> Seq<char> {
    match s {
        Separator::Normal => seq![':', ' '],
        Separator::TextAppend => seq![':', '>'],
        Separator::TextValue => seq![':', '='],
    }
}

impl Separator {
    /// Get the separator as a string slice
    pub fn as_str(&self) -> (r: &'static str)
        ensures
            r@ == separator_text(*self),
    {
        proof {
            reveal_strlit(": ");
            reveal_strlit(":>");
            reveal_strlit(":=");
        }
        match self {
            Separator::Normal => ": ",
            Separator::TextAppend => ":>",
            Separator::TextValue => ":=",
        }
    }
}

impl Define {
    /// Create a new definition
    pub fn new(indent: usize, key: Vec<char>, separator: Separator, value: Vec<char>) -> (r: Define)
        ensures
            r.indent == indent && r.key@ == key@ && r.separator == separator && r.value@ == value@,
    {
        Define { indent, key, separator, value }
    }

    /// Split a definition for a list: the value up to its first space, and a
    /// definition holding the rest, if there is a space
    pub fn split_list(self) -> (r: (Define, Option<Define>))
        ensures
            !self.value@.contains(' ') ==> r.1 is None && r.0 == self,
            self.value@.contains(' ') ==> (r.1 matches Some(d1) && {
                &&& self.value@ == r.0.value@ + seq![' '] + d1.value@
                &&& !r.0.value@.contains(' ')
                &&& d1.indent == self.indent && d1.key@ == self.key@ && d1.separator == self.separator
            }),
            r.0.indent == self.indent && r.0.key@ == self.key@ && r.0.separator == self.separator,
    {
        match crate::text::split_first_space(self.value.as_slice()) {
            Some((a, b)) => {
                let k2 = self.key.clone();
                (
                    Define::new(self.indent, self.key, self.separator, a),
                    Some(Define::new(self.indent, k2, self.separator, b)),
                )
            },
            None => (self, None),
        }
    }

    /// Check that a definition is nested right inside `indent` open branches
    pub fn check_indent(&self, indent: usize) -> (r: bool)
        ensures
            r == (indent == self.indent + 1),
    {
        indent > 0 && indent - 1 == self.indent
    }
}

/// A definition as plain values
pub struct DefineView {
    pub indent: nat,
    pub key: Seq<char>,
    pub separator: Separator,
    pub value: Seq<char>,
}

impl View for Define {
    type V = DefineView;

    open spec fn view(&self) -> DefineView {
        DefineView { indent: self.indent as nat, key: self.key@, separator: self.separator, value: self.value@ }
    }
}

impl Define {
    /// A copy of the definition
    pub fn copy(&self) -> (r: Define)
        ensures
            r@ == self@,
    {
        Define::new(self.indent, self.key.clone(), self.separator, self.value.clone())
    }
}

} // verus!
