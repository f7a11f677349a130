use vstd::prelude::*;
use crate::common::{separator_text, Separator};
use crate::error::Error;
use crate::parse::{int_literal, plain_int, sanitized, unsigned_part};
use crate::text::{chars_of, string_of};

verus! {

/// A char of the Unicode `White_Space` property
pub open spec fn is_space_char(c: char) -> bool {
    ('\u{9}' <= c <= '\u{d}') || c == ' ' || c == '\u{85}' || c == '\u{a0}' || c == '\u{1680}'
        || ('\u{2000}' <= c <= '\u{200a}') || c == '\u{2028}' || c == '\u{2029}' || c == '\u{202f}'
        || c == '\u{205f}' || c == '\u{3000}'
}

/// A control char (general category `Cc`)
pub open spec fn is_control_char(c: char) -> bool {
    c <= '\u{1f}' || ('\u{7f}' <= c <= '\u{9f}')
}

/// A homoglyph of colon
pub open spec fn is_colon_like(c: char) -> bool {
    c == '\u{02D0}' || c == '\u{02F8}' || c == '\u{0703}' || c == '\u{0704}' || c == '\u{0708}'
        || c == '\u{0709}' || c == '\u{1365}' || c == '\u{1366}' || c == '\u{1804}' || c == '\u{2254}'
        || c == '\u{2255}' || c == '\u{2982}' || c == '\u{2A74}' || c == '\u{2AF6}' || c == '\u{A789}'
        || c == '\u{FE13}' || c == '\u{FE55}' || c == '\u{FF1A}' || c == '\u{E003A}'
}

/// A key must be quoted: it starts with a space, a quote or `#`, or holds a colon
pub open spec fn quoting_required(k: Seq<char>) -> bool {
    (k.len() > 0 && (k[0] == ' ' || k[0] == '"' || k[0] == '#')) || k.contains(':')
}

/// A key had better be quoted: it starts with whitespace, or holds a control
/// char or a colon homoglyph
pub open spec fn quoting_suggested(k: Seq<char>) -> bool {
    (k.len() > 0 && is_space_char(k[0]))
        || exists|i: int| 0 <= i < k.len() && (is_control_char(k[i]) || is_colon_like(k[i]))
}

/// The chars with each quote doubled
pub open spec fn doubled_quotes(k: Seq<char>) -> Seq<char>
    decreases k.len(),
{
    if k.len() == 0 {
        k
    } else if k.last() == '"' {
        doubled_quotes(k.drop_last()) + seq!['"', '"']
    } else {
        doubled_quotes(k.drop_last()).push(k.last())
    }
}

/// A key as written: quoted where needed, with inner quotes doubled
pub open spec fn key_text(k: Seq<char>) -> Seq<char> {
    if quoting_required(k) || quoting_suggested(k) {
        seq!['"'] + doubled_quotes(k) + seq!['"']
    } else {
        k
    }
}

/// Check if a character is a homoglyph of colon
fn is_colon_homoglyph(c: char) -> (r: bool)
    ensures
        r == is_colon_like(c),
{
    c == '\u{02D0}' || c == '\u{02F8}' || c == '\u{0703}' || c == '\u{0704}' || c == '\u{0708}'
        || c == '\u{0709}' || c == '\u{1365}' || c == '\u{1366}' || c == '\u{1804}' || c == '\u{2254}'
        || c == '\u{2255}' || c == '\u{2982}' || c == '\u{2A74}' || c == '\u{2AF6}' || c == '\u{A789}'
        || c == '\u{FE13}' || c == '\u{FE55}' || c == '\u{FF1A}' || c == '\u{E003A}'
}

/// Check for Unicode whitespace
fn is_whitespace(c: char) -> (r: bool)
    ensures
        r == is_space_char(c),
{
    (c >= '\u{9}' && c <= '\u{d}') || c == ' ' || c == '\u{85}' || c == '\u{a0}' || c == '\u{1680}'
        || (c >= '\u{2000}' && c <= '\u{200a}') || c == '\u{2028}' || c == '\u{2029}' || c == '\u{202f}'
        || c == '\u{205f}' || c == '\u{3000}'
}

/// Check for a control char
fn is_control(c: char) -> (r: bool)
    ensures
        r == is_control_char(c),
{
    c <= '\u{1f}' || (c >= '\u{7f}' && c <= '\u{9f}')
}

/// Check if quoting is required for a key
fn is_quoting_required(k: &Vec<char>) -> (r: bool)
    ensures
        r == quoting_required(k@),
{
    if k.len() > 0 && (k[0] == ' ' || k[0] == '"' || k[0] == '#') {
        return true;
    }
    let mut i: usize = 0;
    while i < k.len()
        invariant
            i <= k@.len(),
            forall|j: int| 0 <= j < i ==> k@[j] != ':',
        decreases k@.len() - i,
    {
        if k[i] == ':' {
            return true;
        }
        i = i + 1;
    }
    false
}

/// Check if a string starts with whitespace
fn starts_with_whitespace(k: &Vec<char>) -> (r: bool)
    ensures
        r == (k@.len() > 0 && is_space_char(k@[0])),
{
    k.len() > 0 && is_whitespace(k[0])
}

/// Check if a string contains any problematic characters
fn contains_problematic_characters(k: &Vec<char>) -> (r: bool)
    ensures
        r == exists|i: int| 0 <= i < k@.len() && (is_control_char(k@[i]) || is_colon_like(k@[i])),
{
    let mut i: usize = 0;
    while i < k.len()
        invariant
            i <= k@.len(),
            forall|j: int| 0 <= j < i ==> !(is_control_char(k@[j]) || is_colon_like(k@[j])),
        decreases k@.len() - i,
    {
        if is_control(k[i]) || is_colon_homoglyph(k[i]) {
            return true;
        }
        i = i + 1;
    }
    false
}

/// Check if quoting is suggested for a key
fn is_quoting_suggested(k: &Vec<char>) -> (r: bool)
    ensures
        r == quoting_suggested(k@),
{
    starts_with_whitespace(k) || contains_problematic_characters(k)
}

/// Create a quoted key
pub fn quoted_key(k: &str) -> (r: Vec<char>)
    ensures
        r@ == key_text(k@),
{
    let kc = chars_of(k);
    if is_quoting_required(&kc) || is_quoting_suggested(&kc) {
        let mut s: Vec<char> = Vec::new();
        s.push('"');
        let mut i: usize = 0;
        while i < kc.len()
            invariant
                i <= kc@.len(),
                s@ == seq!['"'] + doubled_quotes(kc@.subrange(0, i as int)),
            decreases kc@.len() - i,
        {
            proof {
                assert(kc@.subrange(0, i + 1).drop_last() =~= kc@.subrange(0, i as int));
            }
            let c = kc[i];
            s.push(c);
            if c == '"' {
                s.push('"');
            }
            proof {
                assert(s@ =~= seq!['"'] + doubled_quotes(kc@.subrange(0, i + 1)));
            }
            i = i + 1;
        }
        s.push('"');
        assert(kc@.subrange(0, kc@.len() as int) =~= kc@);
        s
    } else {
        kc
    }
}

/// Position of line output
#[derive(Clone, Copy, Debug, PartialEq, Eq, Structural)]
pub enum LinePos {
    /// Start of line
    Start,
    /// After one or more values
    AfterValue,
}

/// Modifier of the current field
#[derive(Clone, Copy, Debug, PartialEq, Eq, Structural)]
pub enum FieldModifier {
    /// No modifier (default)
    No,
    /// Optional value
    Optional,
    /// List of values
    List,
}

/// One open record or map on the output side
pub struct SerBranch {
    /// Current field key, as written
    pub key: Option<Vec<char>>,
    /// Number of the current field (1 for the first)
    pub n_field: u32,
    /// Current field modifier
    pub modifier: FieldModifier,
    /// The branch's own key line has been written
    pub visited: bool,
}

impl SerBranch {
    /// Check if substitute is allowed: the first field, plain
    pub fn is_substitute_allowed(&self) -> (r: bool)
        ensures
            r == (self.modifier == FieldModifier::No && self.n_field == 1),
    {
        self.modifier == FieldModifier::No && self.n_field == 1
    }
}

/// `n` spaces
pub open spec fn spaces(n: nat) -> Seq<char> {
    Seq::new(n, |i: int| ' ')
}

/// Structure that serializes values into MuON text
pub struct Serializer {
    /// Number of spaces per indent
    n_indent: usize,
    /// Output text
    out: Vec<char>,
    /// Stack of branch values
    stack: Vec<SerBranch>,
    /// Flag if current item is a key
    is_key: bool,
    /// Depth of keys written so far
    indent: usize,
    /// Current line position
    line: LinePos,
    /// Current key / value separator
    separator: Separator,
}

impl Serializer {
    /// The text written so far
    pub closed spec fn output(&self) -> Seq<char> {
        self.out@
    }

    /// Number of open branches
    pub open spec fn depth(&self) -> nat {
        self.branches().len()
    }

    /// Spaces per indent
    pub closed spec fn unit(&self) -> nat {
        self.n_indent as nat
    }

    /// Whether a key is being serialized
    pub closed spec fn in_key(&self) -> bool {
        self.is_key
    }

    /// Whether the current line holds a value already
    pub open spec fn after_value(&self) -> bool {
        self.line_pos() == LinePos::AfterValue
    }

    /// Well-formed: at least one space per indent; written depth within the stack
    pub closed spec fn wf(&self) -> bool {
        self.n_indent >= 1 && self.indent <= self.stack@.len()
    }

    /// Create a new MuON Serializer; indents are at least one space
    pub fn new(n_indent: usize) -> (r: Serializer)
        ensures
            r.wf(),
            r.output().len() == 0,
            r.depth() == 0,
            r.unit() == if n_indent >= 1 { n_indent as nat } else { 1 },
            !r.in_key(),
            r.line_pos() == LinePos::Start,
            r.written() == 0,
            r.next_separator() == Separator::Normal,
            r.branches().len() == 0,
    {
        let n_indent = if n_indent >= 1 { n_indent } else { 1 };
        Serializer {
            n_indent,
            out: Vec::new(),
            stack: Vec::new(),
            is_key: false,
            indent: 0,
            line: LinePos::Start,
            separator: Separator::Normal,
        }
    }

    /// The text written so far
    pub fn to_text(&self) -> (r: String)
        ensures
            r@ == self.output(),
    {
        string_of(self.out.as_slice())
    }

    /// Push a new branch onto stack
    pub fn push_stack(&mut self)
        requires
            old(self).wf(),
        ensures
            final(self).line_pos() == old(self).line_pos(),
            final(self).written() == old(self).written(),
            final(self).next_separator() == old(self).next_separator(),
            final(self).branches() == old(self).branches().push(SerBranch {
                key: None,
                n_field: 0,
                modifier: FieldModifier::No,
                visited: false,
            }),
            final(self).wf(),
            final(self).depth() == old(self).depth() + 1,
            final(self).output() == old(self).output(),
            final(self).unit() == old(self).unit(),
            final(self).in_key() == old(self).in_key(),
    {
        self.stack.push(SerBranch { key: None, n_field: 0, modifier: FieldModifier::No, visited: false });
    }

    /// Get the current nesting depth
    fn nesting(&self) -> (r: usize)
        ensures
            r == self.depth(),
    {
        self.stack.len()
    }

    /// Set the output indent count
    fn set_indent(&mut self)
        ensures
            final(self).indent == old(self).stack@.len(),
            final(self).stack@ == old(self).stack@,
            final(self).out@ == old(self).out@,
            final(self).line == old(self).line,
            final(self).n_indent == old(self).n_indent,
            final(self).is_key == old(self).is_key,
            final(self).separator == old(self).separator,
    {
        self.indent = self.nesting();
    }

    /// Write a line feed if a value was written on the current line
    fn write_linefeed(&mut self)
        ensures
            final(self).out@ == (if old(self).line == LinePos::AfterValue {
                old(self).out@.push('\n')
            } else {
                old(self).out@
            }),
            final(self).line == LinePos::Start,
            final(self).stack@ == old(self).stack@,
            final(self).indent == old(self).indent,
            final(self).n_indent == old(self).n_indent,
            final(self).is_key == old(self).is_key,
            final(self).separator == old(self).separator,
    {
        if self.line == LinePos::AfterValue {
            self.out.push('\n');
            self.line = LinePos::Start;
        }
    }

    /// Write the indentation of depth `n`
    fn write_indent(&mut self, n: usize)
        ensures
            final(self).out@ == old(self).out@ + spaces((n * old(self).n_indent) as nat),
            final(self).line == old(self).line,
            final(self).stack@ == old(self).stack@,
            final(self).indent == old(self).indent,
            final(self).n_indent == old(self).n_indent,
            final(self).is_key == old(self).is_key,
            final(self).separator == old(self).separator,
    {
        let mut i: usize = 0;
        while i < n
            invariant
                i <= n,
                self.out@ == old(self).out@ + spaces((i * self.n_indent) as nat),
                self.line == old(self).line,
                self.stack@ == old(self).stack@,
                self.indent == old(self).indent,
                self.n_indent == old(self).n_indent,
                self.is_key == old(self).is_key,
                self.separator == old(self).separator,
            decreases n - i,
        {
            let mut j: usize = 0;
            while j < self.n_indent
                invariant
                    i < n,
                    j <= self.n_indent,
                    self.out@ == old(self).out@ + spaces((i * self.n_indent + j) as nat),
                    self.line == old(self).line,
                    self.stack@ == old(self).stack@,
                    self.indent == old(self).indent,
                    self.n_indent == old(self).n_indent,
                    self.is_key == old(self).is_key,
                    self.separator == old(self).separator,
                decreases self.n_indent - j,
            {
                self.out.push(' ');
                proof {
                    assert(self.out@ =~= old(self).out@ + spaces((i * self.n_indent + j + 1) as nat));
                }
                j = j + 1;
            }
            proof {
                assert((i + 1) * self.n_indent == i * self.n_indent + self.n_indent) by (nonlinear_arith);
            }
            i = i + 1;
        }
    }
}

/// The output with the current line ended, if a value is on it
pub open spec fn line_break(out: Seq<char>, line: LinePos) -> Seq<char> {
    if line == LinePos::AfterValue { out.push('\n') } else { out }
}

/// The key text of a branch, if any
pub open spec fn key_of(b: SerBranch) -> Seq<char> {
    match b.key {
        Some(k) => k@,
        None => Seq::empty(),
    }
}

/// A substituted first field may go on its record's key line
pub open spec fn sub_allowed(b: SerBranch) -> bool {
    b.modifier == FieldModifier::No && b.n_field == 1
}

/// The key lines written for open branches `n..n1`: each key at its indent,
/// ended by `:` and a linefeed but the last; a record whose first field may
/// be substituted takes its value on its own key line
pub open spec fn keys_from(stack: Seq<SerBranch>, n: int, n1: int, unit: nat) -> Seq<char>
    decreases n1 - n,
{
    if n >= n1 || n < 0 {
        Seq::empty()
    } else if n1 - n == 1 || (n1 - n == 2 && sub_allowed(stack.last())) {
        spaces((n * unit) as nat) + key_of(stack[n])
    } else {
        spaces((n * unit) as nat) + key_of(stack[n]) + seq![':', '\n'] + keys_from(stack, n + 1, n1, unit)
    }
}

/// The output once the keys that are not written yet are written: from depth
/// `indent - 1` (at least 0) down to the stack's depth
pub open spec fn keys_output(out: Seq<char>, line: LinePos, stack: Seq<SerBranch>, indent: int, unit: nat) -> Seq<char> {
    let n0 = if indent >= 1 { indent - 1 } else { 0 };
    if n0 < stack.len() {
        line_break(out, line) + keys_from(stack, n0, stack.len() as int, unit)
    } else {
        out
    }
}

/// The serializer's state after a scalar is written: on a merged line of
/// list values nothing but the line changes; else every branch from the
/// first unwritten depth is now visited, and the current key is blanked for
/// the rows that follow
pub open spec fn after_scalar(a: Serializer, b: Serializer) -> bool {
    &&& b.line_pos() == LinePos::AfterValue
    &&& b.next_separator() == a.next_separator()
    &&& after_item(a, b, a.next_separator())
}

/// The branches and written depth after an item written with separator `sep`
pub open spec fn after_item(a: Serializer, b: Serializer, sep: Separator) -> bool {
    let bs = a.branches();
    &&& b.unit() == a.unit()
    &&& b.branches().len() == bs.len()
    &&& if a.line_pos() == LinePos::AfterValue && sep == Separator::Normal {
        b.branches() == bs && b.written() == a.written()
    } else {
        &&& b.written() == bs.len()
        &&& forall|i: int| 0 <= i < bs.len() ==> (#[trigger] b.branches()[i]).visited
            == (bs[i].visited || first_unwritten(a.written()) <= i)
        &&& forall|i: int| 0 <= i < bs.len() ==> (#[trigger] b.branches()[i]).n_field == bs[i].n_field
            && b.branches()[i].modifier == bs[i].modifier
        &&& forall|i: int| 0 <= i < bs.len() - 1 ==> (#[trigger] b.branches()[i]).key == bs[i].key
        &&& bs.len() > 0 ==> key_of(b.branches().last()) == spaces(key_of(bs.last()).len())
    }
}

/// Length of text up to its first linefeed
pub open spec fn line_len(t: Seq<char>) -> int
    decreases t.len(),
{
    if t.len() == 0 || t[0] == '\n' {
        0
    } else {
        1 + line_len(t.drop_first())
    }
}

/// The `:>` rows for the lines of `t`, each after the blank key `pre`
pub open spec fn append_rows(t: Seq<char>, pre: Seq<char>) -> Seq<char>
    decreases t.len(),
{
    let i = line_len(t);
    if 0 <= i < t.len() {
        pre + seq![':', '>'] + t.subrange(0, i) + seq!['\n'] + append_rows(t.subrange(i + 1, t.len() as int), pre)
    } else {
        pre + seq![':', '>'] + t + seq!['\n']
    }
}

proof fn lemma_line_len(t: Seq<char>, k: int)
    requires
        0 <= k <= t.len(),
        forall|j: int| 0 <= j < k ==> t[j] != '\n',
        k == t.len() || t[k] == '\n',
    ensures
        line_len(t) == k,
    decreases k,
{
    if k > 0 {
        lemma_line_len(t.drop_first(), k - 1);
    }
}

proof fn lemma_spaces_add(a: nat, b: nat)
    ensures
        spaces(a) + spaces(b) == spaces(a + b),
{
    assert(spaces(a) + spaces(b) =~= spaces(a + b));
}

/// The first depth whose key is not written yet
pub open spec fn first_unwritten(indent: int) -> int {
    if indent >= 1 { indent - 1 } else { 0 }
}

/// `b` extends `a`
pub open spec fn extends(a: Seq<char>, b: Seq<char>) -> bool {
    a.len() <= b.len() && b.subrange(0, a.len() as int) == a
}

proof fn lemma_extends_trans(a: Seq<char>, b: Seq<char>, c: Seq<char>)
    requires
        extends(a, b),
        extends(b, c),
    ensures
        extends(a, c),
{
    assert(c.subrange(0, a.len() as int) =~= b.subrange(0, a.len() as int));
}

proof fn lemma_extends_refl(a: Seq<char>)
    ensures
        extends(a, a),
{
    assert(a.subrange(0, a.len() as int) =~= a);
}

impl Serializer {
    /// The written key of the top branch
    pub open spec fn top_key(&self) -> Option<Seq<char>> {
        if self.branches().len() > 0 {
            match self.branches().last().key {
                Some(k) => Some(k@),
                None => None,
            }
        } else {
            None
        }
    }

    /// The modifier of the top branch's current field
    pub open spec fn top_modifier(&self) -> Option<FieldModifier> {
        if self.branches().len() > 0 { Some(self.branches().last().modifier) } else { None }
    }

    /// The open branches, outermost first
    pub closed spec fn branches(&self) -> Seq<SerBranch> {
        self.stack@
    }

    /// Where the current line stands
    pub closed spec fn line_pos(&self) -> LinePos {
        self.line
    }

    /// The separator for the next value
    pub closed spec fn next_separator(&self) -> Separator {
        self.separator
    }

    /// How many levels of keys are written already
    pub closed spec fn written(&self) -> int {
        self.indent as int
    }

    /// The output just before the next scalar: a space on a line of list
    /// values, else the keys not written yet and the separator
    pub open spec fn lead(&self) -> Seq<char> {
        self.lead_sep(self.next_separator())
    }

    /// The output just before the next scalar written with separator `sep`
    pub open spec fn lead_sep(&self, sep: Separator) -> Seq<char> {
        if self.line_pos() == LinePos::AfterValue && sep == Separator::Normal {
            self.output() + seq![' ']
        } else {
            keys_output(self.output(), self.line_pos(), self.branches(), self.written(), self.unit())
                + separator_text(sep)
        }
    }

    /// The separator that a text value starts with: `:=` for a list item
    /// holding a space
    pub open spec fn text_separator(&self, v: Seq<char>) -> Separator {
        if self.top_modifier() == Some(FieldModifier::List) && v.contains(' ') {
            Separator::TextValue
        } else {
            self.next_separator()
        }
    }

    /// Set modifier for the top branch of stack
    pub fn set_modifier(&mut self, modifier: FieldModifier)
        requires
            old(self).wf(),
        ensures
            final(self).line_pos() == old(self).line_pos(),
            final(self).written() == old(self).written(),
            final(self).next_separator() == old(self).next_separator(),
            final(self).branches().len() == old(self).branches().len(),
            forall|i: int| 0 <= i < old(self).branches().len() - 1 ==> #[trigger] final(self).branches()[i]
                == old(self).branches()[i],
            old(self).depth() > 0 ==> final(self).branches().last().key == old(self).branches().last().key
                && final(self).branches().last().n_field == old(self).branches().last().n_field
                && final(self).branches().last().visited == old(self).branches().last().visited
                && final(self).branches().last().modifier == modifier,
            final(self).wf(),
            final(self).output() == old(self).output(),
            final(self).depth() == old(self).depth(),
            final(self).in_key() == old(self).in_key(),
            final(self).unit() == old(self).unit(),
            final(self).top_key() == old(self).top_key(),
            old(self).depth() > 0 ==> final(self).top_modifier() == Some(modifier),
    {
        let n = self.stack.len();
        if n > 0 {
            let mut b = self.stack.pop().unwrap();
            b.modifier = modifier;
            self.stack.push(b);
        }
    }

    /// Check if the current field is a list
    pub fn is_list(&self) -> (r: bool)
        ensures
            r == (self.top_modifier() == Some(FieldModifier::List)),
    {
        let n = self.stack.len();
        n > 0 && self.stack[n - 1].modifier == FieldModifier::List
    }

    /// Set the current key of the top branch (quoted where needed), counting fields
    pub fn set_key(&mut self, key: &str)
        requires
            old(self).wf(),
        ensures
            final(self).line_pos() == old(self).line_pos(),
            final(self).written() == old(self).written(),
            final(self).next_separator() == old(self).next_separator(),
            final(self).branches().len() == old(self).branches().len(),
            forall|i: int| 0 <= i < old(self).branches().len() - 1 ==> #[trigger] final(self).branches()[i]
                == old(self).branches()[i],
            old(self).depth() > 0 ==> key_of(final(self).branches().last()) == key_text(key@)
                && final(self).branches().last().key is Some
                && final(self).branches().last().n_field == (if old(self).branches().last().n_field < u32::MAX {
                    (old(self).branches().last().n_field + 1) as u32
                } else {
                    old(self).branches().last().n_field
                })
                && final(self).branches().last().visited == old(self).branches().last().visited
                && final(self).branches().last().modifier == old(self).branches().last().modifier,
            final(self).wf(),
            final(self).output() == old(self).output(),
            final(self).depth() == old(self).depth(),
            final(self).in_key() == old(self).in_key(),
            final(self).unit() == old(self).unit(),
            final(self).top_modifier() == old(self).top_modifier(),
            old(self).depth() > 0 ==> final(self).top_key() == Some(key_text(key@)),
    {
        let n = self.stack.len();
        if n > 0 {
            let mut b = self.stack.pop().unwrap();
            b.key = Some(quoted_key(key));
            if b.n_field < u32::MAX {
                b.n_field = b.n_field + 1;
            }
            self.stack.push(b);
        }
    }

    /// Set the key to blank (for repeated keys): as many spaces as it has chars
    fn set_key_blank(&mut self)
        requires
            old(self).wf(),
        ensures
            final(self).wf(),
            final(self).out@ == old(self).out@,
            final(self).stack@.len() == old(self).stack@.len(),
            final(self).line == old(self).line,
            final(self).indent == old(self).indent,
            final(self).n_indent == old(self).n_indent,
            final(self).is_key == old(self).is_key,
            final(self).separator == old(self).separator,
            final(self).top_modifier() == old(self).top_modifier(),
            old(self).top_key() matches Some(k) ==> final(self).top_key() == Some(spaces(k.len())),
            old(self).top_key() is None ==> final(self).top_key() is None,
            forall|i: int| 0 <= i < old(self).stack@.len() - 1 ==> final(self).stack@[i] == old(self).stack@[i],
            old(self).stack@.len() > 0 ==> final(self).stack@.last().n_field == old(self).stack@.last().n_field
                && final(self).stack@.last().modifier == old(self).stack@.last().modifier
                && final(self).stack@.last().visited == old(self).stack@.last().visited,
    {
        let n = self.stack.len();
        if n > 0 {
            let mut b = self.stack.pop().unwrap();
            if let Some(k) = &b.key {
                let len = k.len();
                let mut blank: Vec<char> = Vec::new();
                let mut i: usize = 0;
                while i < len
                    invariant
                        i <= len,
                        blank@ == spaces(i as nat),
                    decreases len - i,
                {
                    blank.push(' ');
                    assert(blank@ =~= spaces((i + 1) as nat));
                    i = i + 1;
                }
                b.key = Some(blank);
            }
            self.stack.push(b);
        }
    }

    /// Check if the value continues the current line, space-separated
    fn is_merge_line(&self) -> (r: bool)
        ensures
            r == (self.line == LinePos::AfterValue && self.separator == Separator::Normal),
    {
        self.line == LinePos::AfterValue && self.separator == Separator::Normal
    }

    /// Check if substitute is allowed for the current field
    fn is_substitute_allowed(&self) -> (r: bool)
        ensures
            self.stack@.len() == 0 ==> r,
            self.stack@.len() > 0 ==> r == (self.stack@.last().modifier == FieldModifier::No
                && self.stack@.last().n_field == 1),
    {
        let n = self.stack.len();
        if n > 0 {
            self.stack[n - 1].is_substitute_allowed()
        } else {
            true
        }
    }

    /// Mark branch `n` as visited (its key has been written)
    fn visit_branch(&mut self, n: usize)
        requires
            old(self).wf(),
        ensures
            final(self).wf(),
            final(self).out@ == old(self).out@,
            final(self).stack@.len() == old(self).stack@.len(),
            forall|i: int| 0 <= i < old(self).stack@.len() ==> (#[trigger] final(self).stack@[i]).key
                == old(self).stack@[i].key && final(self).stack@[i].n_field == old(self).stack@[i].n_field
                && final(self).stack@[i].modifier == old(self).stack@[i].modifier,
            final(self).line == old(self).line,
            final(self).indent == old(self).indent,
            final(self).n_indent == old(self).n_indent,
            final(self).is_key == old(self).is_key,
            final(self).separator == old(self).separator,
            forall|i: int| 0 <= i < old(self).stack@.len() ==> (#[trigger] final(self).stack@[i]).visited
                == (old(self).stack@[i].visited || i == n),
    {
        if n < self.stack.len() {
            let mut b = self.stack.remove(n);
            b.visited = true;
            self.stack.insert(n, b);
            proof {
                assert forall|i: int| 0 <= i < old(self).stack@.len() implies (#[trigger] self.stack@[i]).visited
                    == (old(self).stack@[i].visited || i == n) by {
                    if i < n {
                        assert(self.stack@[i] == old(self).stack@[i]);
                    } else if i > n {
                        assert(self.stack@[i] == old(self).stack@[i]);
                    }
                }
                assert forall|i: int| 0 <= i < old(self).stack@.len() implies (#[trigger] self.stack@[i]).key
                    == old(self).stack@[i].key && self.stack@[i].n_field == old(self).stack@[i].n_field
                    && self.stack@[i].modifier == old(self).stack@[i].modifier by {
                    if i < n {
                        assert(self.stack@[i] == old(self).stack@[i]);
                    } else if i > n {
                        assert(self.stack@[i] == old(self).stack@[i]);
                    }
                }
            }
        }
    }

    /// Write the key of branch `n` on a fresh line at its indent
    fn write_key(&mut self, n: usize)
        requires
            old(self).wf(),
            n < old(self).stack@.len(),
        ensures
            final(self).wf(),
            final(self).out@ == (if old(self).line == LinePos::AfterValue {
                old(self).out@.push('\n')
            } else {
                old(self).out@
            }) + spaces((n * old(self).n_indent) as nat) + match old(self).stack@[n as int].key {
                Some(k) => k@,
                None => Seq::empty(),
            },
            final(self).line == LinePos::Start,
            final(self).stack@.len() == old(self).stack@.len(),
            forall|i: int| 0 <= i < old(self).stack@.len() ==> (#[trigger] final(self).stack@[i]).key
                == old(self).stack@[i].key && final(self).stack@[i].n_field == old(self).stack@[i].n_field
                && final(self).stack@[i].modifier == old(self).stack@[i].modifier,
            final(self).indent == old(self).indent,
            final(self).n_indent == old(self).n_indent,
            final(self).is_key == old(self).is_key,
            final(self).separator == old(self).separator,
            forall|i: int| 0 <= i < old(self).stack@.len() ==> (#[trigger] final(self).stack@[i]).visited
                == (old(self).stack@[i].visited || i == n),
    {
        self.write_linefeed();
        self.write_indent(n);
        let ghost before = self.out@;
        if let Some(key) = &self.stack[n].key {
            let k = key.clone();
            let mut i: usize = 0;
            while i < k.len()
                invariant
                    i <= k@.len(),
                    self.out@ == before + k@.subrange(0, i as int),
                    self.wf(),
                    self.stack@ == old(self).stack@,
                    self.line == LinePos::Start,
                    self.indent == old(self).indent,
                    self.n_indent == old(self).n_indent,
                    self.is_key == old(self).is_key,
                    self.separator == old(self).separator,
                decreases k@.len() - i,
            {
                self.out.push(k[i]);
                assert(self.out@ =~= before + k@.subrange(0, i + 1));
                i = i + 1;
            }
            assert(k@.subrange(0, k@.len() as int) =~= k@);
        } else {
            assert(self.out@ =~= before + Seq::<char>::empty());
        }
        self.visit_branch(n);
    }

    /// Write the key of an unvisited branch (an empty record), ending its line
    fn write_unvisited_key(&mut self)
        requires
            old(self).wf(),
        ensures
            final(self).wf(),
            extends(old(self).out@, final(self).out@),
            final(self).stack@.len() == old(self).stack@.len(),
            final(self).indent == old(self).indent,
            final(self).n_indent == old(self).n_indent,
            final(self).is_key == old(self).is_key,
            final(self).separator == old(self).separator,
            forall|i: int| 0 <= i < old(self).stack@.len() ==> (#[trigger] final(self).stack@[i]).key
                == old(self).stack@[i].key && final(self).stack@[i].n_field == old(self).stack@[i].n_field
                && final(self).stack@[i].modifier == old(self).stack@[i].modifier,
            old(self).stack@.len() > 0 ==> final(self).line == LinePos::Start && final(self).out@
                == line_break(old(self).out@, old(self).line) + spaces(((old(self).stack@.len() - 1)
                * old(self).n_indent) as nat) + key_of(old(self).stack@.last()) + seq![':', '\n'],
            old(self).stack@.len() == 0 ==> final(self).out@ == old(self).out@ && final(self).line == old(self).line,
    {
        let indent = self.nesting();
        if indent > 0 {
            self.write_key(indent - 1);
            self.out.push(':');
            self.out.push('\n');
        } else {
            assert(old(self).out@.subrange(0, old(self).out@.len() as int) =~= old(self).out@);
        }
        assert(self.out@.subrange(0, old(self).out@.len() as int) =~= old(self).out@);
    }
}

/// Decimal digits of a natural number
pub open spec fn decimal(n: nat) -> Seq<char>
    decreases n,
{
    if n < 10 {
        seq![(n + 48) as char]
    } else {
        decimal(n / 10).push(((n % 10) + 48) as char)
    }
}

/// Decimal text of an integer, with a minus sign when negative
pub open spec fn int_text(v: int) -> Seq<char> {
    if v < 0 { seq!['-'] + decimal((-v) as nat) } else { decimal(v as nat) }
}

/// Decimal digits of an unsigned number
fn decimal_chars(v: u128) -> (r: Vec<char>)
    ensures
        r@ == decimal(v as nat),
    decreases v,
{
    let d = (v % 10) as u8;
    let c = (d + 48) as char;
    if v < 10 {
        let mut r: Vec<char> = Vec::new();
        r.push(c);
        r
    } else {
        let mut r = decimal_chars(v / 10);
        r.push(c);
        r
    }
}

/// Decimal text of a signed number
fn signed_chars(v: i128) -> (r: Vec<char>)
    ensures
        r@ == int_text(v as int),
{
    if v < 0 {
        let m: u128 = if v == i128::MIN { (i128::MAX as u128) + 1 } else { (-v) as u128 };
        let d = decimal_chars(m);
        let mut r: Vec<char> = Vec::new();
        r.push('-');
        let mut i: usize = 0;
        while i < d.len()
            invariant
                i <= d@.len(),
                r@ == seq!['-'] + d@.subrange(0, i as int),
            decreases d@.len() - i,
        {
            r.push(d[i]);
            assert(r@ =~= seq!['-'] + d@.subrange(0, i + 1));
            i = i + 1;
        }
        assert(d@.subrange(0, d@.len() as int) =~= d@);
        r
    } else {
        decimal_chars(v as u128)
    }
}

impl Serializer {
    /// Write all keys not yet written, down to the current depth, then the separator
    #[verifier::rlimit(60)]
    fn write_keys(&mut self)
        requires
            old(self).wf(),
        ensures
            final(self).wf(),
            extends(old(self).out@, final(self).out@),
            final(self).out@.len() >= 2,
            final(self).out@.subrange(final(self).out@.len() - 2, final(self).out@.len() as int)
                == separator_text(old(self).separator),
            final(self).stack@.len() == old(self).stack@.len(),
            final(self).indent == old(self).stack@.len(),
            final(self).n_indent == old(self).n_indent,
            final(self).is_key == old(self).is_key,
            final(self).separator == old(self).separator,
            final(self).out@ == keys_output(old(self).out@, old(self).line, old(self).stack@, old(self).indent as int,
                old(self).n_indent as nat) + separator_text(old(self).separator),
            forall|i: int| 0 <= i < old(self).stack@.len() ==> (#[trigger] final(self).stack@[i]).visited
                == (old(self).stack@[i].visited || first_unwritten(old(self).indent as int) <= i),
            forall|i: int| 0 <= i < old(self).stack@.len() ==> (#[trigger] final(self).stack@[i]).n_field
                == old(self).stack@[i].n_field && final(self).stack@[i].modifier == old(self).stack@[i].modifier,
            forall|i: int| 0 <= i < old(self).stack@.len() - 1 ==> (#[trigger] final(self).stack@[i]).key
                == old(self).stack@[i].key,
            old(self).stack@.len() > 0 ==> key_of(final(self).stack@.last()) == spaces(key_of(old(self).stack@.last()).len()),
    {
        let n0 = if self.indent >= 1 { self.indent - 1 } else { 0 };
        let n1 = self.nesting();
        let mut n = n0;
        let ghost st = self.stack@;
        let ghost u = self.n_indent as nat;
        proof {
            lemma_extends_refl(self.out@);
        }
        while n < n1
            invariant_except_break
                n == n0 ==> self.out@ == old(self).out@ && self.line == old(self).line,
                n > n0 ==> self.line == LinePos::Start && line_break(old(self).out@, old(self).line) + keys_from(
                    st, n0 as int, n1 as int, u) == self.out@ + keys_from(st, n as int, n1 as int, u),
                forall|i: int| 0 <= i < st.len() ==> (#[trigger] self.stack@[i]).visited == (st[i].visited || n0 <= i < n),
            invariant
                self.wf(),
                n0 <= n <= n1 || (n0 > n1 && n == n0),
                n1 == self.stack@.len(),
                self.stack@.len() == old(self).stack@.len(),
                st == old(self).stack@,
                u == self.n_indent,
                forall|i: int| 0 <= i < st.len() ==> (#[trigger] self.stack@[i]).key == st[i].key
                    && self.stack@[i].n_field == st[i].n_field && self.stack@[i].modifier == st[i].modifier,
                extends(old(self).out@, self.out@),
                self.n_indent == old(self).n_indent,
                self.is_key == old(self).is_key,
                self.separator == old(self).separator,
            ensures
                forall|i: int| 0 <= i < st.len() ==> (#[trigger] self.stack@[i]).visited == (st[i].visited || n0 <= i),
                forall|i: int| 0 <= i < st.len() ==> (#[trigger] self.stack@[i]).key == st[i].key
                    && self.stack@[i].n_field == st[i].n_field && self.stack@[i].modifier == st[i].modifier,
                n0 < n1 ==> self.out@ == line_break(old(self).out@, old(self).line) + keys_from(st, n0 as int, n1 as int, u),
                n0 >= n1 ==> self.out@ == old(self).out@,
                self.wf(),
                self.stack@.len() == old(self).stack@.len(),
                extends(old(self).out@, self.out@),
                self.n_indent == old(self).n_indent,
                self.is_key == old(self).is_key,
                self.separator == old(self).separator,
            decreases n1 - n,
        {
            let ghost o = self.out@;
            let ghost line0 = self.line;
            self.write_key(n);
            proof {
                assert(self.out@ == line_break(o, line0) + spaces((n * u) as nat) + key_of(st[n as int]));
                if n == n0 {
                    assert(line_break(o, line0) == line_break(old(self).out@, old(self).line));
                } else {
                    assert(line_break(o, line0) == o);
                }
            }
            if n1 - n == 1 {
                proof {
                    assert(keys_from(st, n as int, n1 as int, u) == spaces((n * u) as nat) + key_of(st[n as int]));
                    assert(keys_from(st, n + 1, n1 as int, u) =~= Seq::<char>::empty());
                }
            } else if n1 - n == 2 && self.is_substitute_allowed() {
                self.visit_branch(n + 1);
                proof {
                    assert(self.out@.subrange(0, o.len() as int) =~= o);
                    lemma_extends_trans(old(self).out@, o, self.out@);
                    assert(sub_allowed(st.last()));
                    assert(keys_from(st, n as int, n1 as int, u) == spaces((n * u) as nat) + key_of(st[n as int]));
                    if n == n0 {
                        assert(self.out@ =~= line_break(old(self).out@, old(self).line) + keys_from(st, n0 as int, n1 as int, u));
                    } else {
                        assert(self.out@ =~= line_break(old(self).out@, old(self).line) + keys_from(st, n0 as int, n1 as int, u));
                    }
                }
                break;
            } else {
                self.out.push(':');
                self.out.push('\n');
                proof {
                    assert(n1 - n == 2 ==> !sub_allowed(st.last()));
                    assert(keys_from(st, n as int, n1 as int, u) == spaces((n * u) as nat) + key_of(st[n as int])
                        + seq![':', '\n'] + keys_from(st, n + 1, n1 as int, u));
                }
            }
            proof {
                assert(self.out@.subrange(0, o.len() as int) =~= o);
                lemma_extends_trans(old(self).out@, o, self.out@);
                if n == n0 {
                    assert(line_break(old(self).out@, old(self).line) + keys_from(st, n0 as int, n1 as int, u)
                        =~= self.out@ + keys_from(st, n + 1, n1 as int, u));
                } else {
                    assert(line_break(old(self).out@, old(self).line) + keys_from(st, n0 as int, n1 as int, u)
                        =~= self.out@ + keys_from(st, n + 1, n1 as int, u));
                }
            }
            n = n + 1;
        }
        proof {
            if n0 < n1 && n == n1 {
                assert(keys_from(st, n as int, n1 as int, u) =~= Seq::<char>::empty());
                assert(self.out@ + keys_from(st, n as int, n1 as int, u) =~= self.out@);
            }
        }
        self.set_indent();
        self.set_key_blank();
        let ghost o2 = self.out@;
        let sep = self.separator.as_str();
        let sc = chars_of(sep);
        self.out.push(sc[0]);
        self.out.push(sc[1]);
        proof {
            assert(self.out@ =~= o2 + sc@);
            assert(self.out@.subrange(0, o2.len() as int) =~= o2);
            assert(self.out@.subrange(self.out@.len() - 2, self.out@.len() as int) =~= sc@);
            lemma_extends_trans(old(self).out@, o2, self.out@);
        }
    }

    /// Write one scalar item: after a space on a merged line, else after its keys
    fn ser_item(&mut self, item: &[char]) -> (r: Result<(), Error>)
        requires
            old(self).wf(),
        ensures
            !old(self).is_key ==> after_scalar(*old(self), *final(self)),
            final(self).wf(),
            final(self).stack@.len() == old(self).stack@.len(),
            final(self).n_indent == old(self).n_indent,
            final(self).is_key == old(self).is_key,
            final(self).separator == old(self).separator,
            old(self).is_key ==> r == Err::<(), Error>(Error::InvalidKey) && final(self).out@ == old(self).out@,
            !old(self).is_key ==> r is Ok && final(self).line == LinePos::AfterValue
                && final(self).out@.len() >= item@.len()
                && extends(old(self).out@, final(self).out@)
                && final(self).out@.subrange(final(self).out@.len() - item@.len(), final(self).out@.len() as int) == item@,
            !old(self).is_key ==> final(self).out@ == old(self).lead() + item@,
    {
        if self.is_key {
            return Err(Error::InvalidKey);
        }
        if self.is_merge_line() {
            self.out.push(' ');
        } else {
            self.write_keys();
        }
        let ghost o = self.out@;
        let ghost st1 = self.stack@;
        let ghost ind1 = self.indent;
        let mut i: usize = 0;
        while i < item.len()
            invariant
                i <= item@.len(),
                self.out@ == o + item@.subrange(0, i as int),
                self.wf(),
                self.stack@ == st1,
                self.indent == ind1,
                self.stack@.len() == old(self).stack@.len(),
                self.n_indent == old(self).n_indent,
                self.is_key == old(self).is_key,
                self.separator == old(self).separator,
            decreases item@.len() - i,
        {
            self.out.push(item[i]);
            assert(self.out@ =~= o + item@.subrange(0, i + 1));
            i = i + 1;
        }
        self.line = LinePos::AfterValue;
        proof {
            assert(item@.subrange(0, item@.len() as int) =~= item@);
            assert(self.out@.subrange(0, old(self).out@.len() as int) =~= old(self).out@) by {
                assert(o.subrange(0, old(self).out@.len() as int) == old(self).out@);
            }
            assert(self.out@.subrange(self.out@.len() - item@.len(), self.out@.len() as int) =~= item@);
        }
        Ok(())
    }

    /// Pop a branch from stack; a record with nothing written still gets its key line
    pub fn pop_stack(&mut self) -> (r: Result<(), Error>)
        requires
            old(self).wf(),
        ensures
            final(self).wf(),
            old(self).depth() > 0 ==> final(self).depth() == old(self).depth() - 1,
            old(self).depth() == 0 ==> final(self).depth() == 0,
            extends(old(self).output(), final(self).output()),
            final(self).unit() == old(self).unit(),
            final(self).in_key() == old(self).in_key(),
            r is Ok,
            old(self).depth() > 0 ==> ({
                let b = old(self).branches().last();
                let rest = old(self).branches().drop_last();
                &&& final(self).branches().len() == rest.len()
                &&& forall|i: int| 0 <= i < rest.len() ==> (#[trigger] final(self).branches()[i]).key == rest[i].key
                    && final(self).branches()[i].n_field == rest[i].n_field
                    && final(self).branches()[i].modifier == rest[i].modifier
                &&& b.visited ==> final(self).branches() == rest
                &&& final(self).line_pos() == LinePos::Start
                &&& final(self).written() == rest.len()
                &&& final(self).next_separator() == old(self).next_separator()
                &&& final(self).output() == if !b.visited && rest.len() > 0 {
                    line_break(old(self).output(), old(self).line_pos()) + spaces(((rest.len() - 1) * old(self).unit()) as nat)
                        + key_of(rest.last()) + seq![':', '\n']
                } else {
                    line_break(old(self).output(), old(self).line_pos())
                }
            }),
            old(self).depth() == 0 ==> final(self).output() == old(self).output(),
    {
        let ghost o = self.out@;
        match self.stack.pop() {
            Some(branch) => {
                if self.indent > self.stack.len() {
                    self.indent = self.stack.len();
                }
                if !branch.visited {
                    self.write_unvisited_key();
                }
                let ghost o1 = self.out@;
                self.set_indent();
                self.write_linefeed();
                assert(self.out@.subrange(0, o1.len() as int) =~= o1);
                proof {
                    let rest = old(self).stack@.drop_last();
                    assert(self.stack@.len() == rest.len());
                    assert(self.line == LinePos::Start);
                    assert(self.indent == rest.len());
                    assert(branch == old(self).stack@.last());
                    assert forall|i: int| 0 <= i < rest.len() implies (#[trigger] self.stack@[i]).key == rest[i].key
                        && self.stack@[i].n_field == rest[i].n_field && self.stack@[i].modifier == rest[i].modifier by {
                    }
                    if branch.visited {
                        assert(self.stack@ == rest);
                    }
                    if !branch.visited && rest.len() > 0 {
                        assert(self.out@ == line_break(old(self).out@, old(self).line) + spaces(((rest.len() - 1)
                            * old(self).n_indent) as nat) + key_of(rest.last()) + seq![':', '\n']);
                    } else {
                        assert(self.out@ == line_break(old(self).out@, old(self).line));
                    }
                }
            },
            None => {},
        }
        assert(self.out@.subrange(0, o.len() as int) =~= o);
        Ok(())
    }
}

impl Serializer {
    /// Write a text item: one line per linefeed-separated piece, appended with
    /// `:>`; a list item holding a space is written with `:=`
    #[verifier::rlimit(100)]
    fn write_text(&mut self, v: &str) -> (r: Result<(), Error>)
        requires
            old(self).wf(),
        ensures
            final(self).wf(),
            final(self).stack@.len() == old(self).stack@.len(),
            final(self).n_indent == old(self).n_indent,
            final(self).is_key == old(self).is_key,
            final(self).separator == Separator::Normal,
            old(self).is_key ==> r is Err,
            !old(self).is_key ==> r is Ok && extends(old(self).out@, final(self).out@),
            !old(self).is_key && !v@.contains('\n') ==> final(self).out@ == old(self).lead_sep(old(self).text_separator(v@))
                + v@ + (if old(self).text_separator(v@) == Separator::Normal { Seq::<char>::empty() } else { seq!['\n'] }),
            !old(self).is_key && !v@.contains('\n') ==> after_item(*old(self), *final(self), old(self).text_separator(v@))
                && final(self).line == (if old(self).text_separator(v@) == Separator::Normal {
                LinePos::AfterValue
            } else {
                LinePos::Start
            }),
            !old(self).is_key && v@.contains('\n') && old(self).stack@.len() > 0 && !(old(self).line
                == LinePos::AfterValue && old(self).text_separator(v@) == Separator::Normal) ==> final(self).out@
                == old(self).lead_sep(old(self).text_separator(v@)) + v@.subrange(0, line_len(v@)) + seq!['\n']
                + append_rows(v@.subrange(line_len(v@) + 1, v@.len() as int), spaces(((old(self).stack@.len() - 1)
                * old(self).n_indent + key_of(old(self).stack@.last()).len()) as nat)),
    {
        let chars = chars_of(v);
        let mut has_space = false;
        let mut k: usize = 0;
        while k < chars.len()
            invariant
                k <= chars@.len(),
                has_space == chars@.subrange(0, k as int).contains(' '),
            decreases chars@.len() - k,
        {
            proof {
                assert(chars@.subrange(0, k + 1) =~= chars@.subrange(0, k as int).push(chars@[k as int]));
                assert(chars@.subrange(0, k as int).push(chars@[k as int]).contains(' ') <==> (chars@.subrange(0, k as int).contains(' ') || chars@[k as int] == ' ')) by {
                    let t = chars@.subrange(0, k as int).push(chars@[k as int]);
                    if t.contains(' ') {
                        let j = choose|j: int| 0 <= j < t.len() && t[j] == ' ';
                        if j < k { assert(chars@.subrange(0, k as int)[j] == ' '); }
                    }
                    if chars@.subrange(0, k as int).contains(' ') {
                        let j = choose|j: int| 0 <= j < k && chars@.subrange(0, k as int)[j] == ' ';
                        assert(t[j] == ' ');
                    }
                    if chars@[k as int] == ' ' { assert(t[k as int] == ' '); }
                }
            }
            if chars[k] == ' ' {
                has_space = true;
            }
            k = k + 1;
        }
        assert(chars@.subrange(0, k as int) =~= chars@);
        let ghost sep0 = old(self).text_separator(v@);
        let ghost dd = old(self).stack@.len();
        let ghost pre = spaces(((dd - 1) * old(self).n_indent + key_of(old(self).stack@.last()).len()) as nat);
        let ghost multi = !old(self).is_key && v@.contains('\n') && dd > 0
            && !(old(self).line == LinePos::AfterValue && sep0 == Separator::Normal);
        let ghost i0 = line_len(v@);
        let ghost total = old(self).lead_sep(sep0) + v@.subrange(0, i0) + seq!['\n']
            + append_rows(v@.subrange(i0 + 1, v@.len() as int), pre);
        if self.is_list() && has_space {
            self.separator = Separator::TextValue;
        }
        proof {
            lemma_extends_refl(self.out@);
        }
        let mut start: usize = 0;
        let mut i: usize = 0;
        let mut done = false;
        while !done
            invariant
                self.wf(),
                start <= i <= chars@.len(),
                self.stack@.len() == old(self).stack@.len(),
                self.n_indent == old(self).n_indent,
                self.is_key == old(self).is_key,
                extends(old(self).out@, self.out@),
                old(self).is_key ==> !done,
                chars@ == v@,
                !done && start == 0 ==> self.out@ == old(self).out@ && self.line == old(self).line
                    && self.stack@ == old(self).stack@ && self.indent == old(self).indent && self.separator == sep0,
                start == 0 ==> forall|j: int| 0 <= j < i ==> chars@[j] != '\n',
                start > 0 ==> chars@[start - 1] == '\n',
                !v@.contains('\n') && done ==> self.out@ == old(self).lead_sep(sep0) + v@
                    + (if sep0 == Separator::Normal { Seq::<char>::empty() } else { seq!['\n'] })
                    && after_item(*old(self), *self, sep0) && self.line == (if sep0 == Separator::Normal {
                    LinePos::AfterValue
                } else {
                    LinePos::Start
                }),
                forall|j: int| start <= j < i ==> chars@[j] != '\n',
                sep0 == old(self).text_separator(v@),
                dd == old(self).stack@.len(),
                i0 == line_len(v@),
                pre == spaces(((dd - 1) * old(self).n_indent + key_of(old(self).stack@.last()).len()) as nat),
                total == old(self).lead_sep(sep0) + v@.subrange(0, i0) + seq!['\n']
                    + append_rows(v@.subrange(i0 + 1, v@.len() as int), pre),
                multi == (!old(self).is_key && v@.contains('\n') && dd > 0
                    && !(old(self).line == LinePos::AfterValue && sep0 == Separator::Normal)),
                multi && start == 0 ==> !done,
                multi && start > 0 ==> {
                    &&& self.indent == dd
                    &&& key_of(self.stack@.last()) == spaces(key_of(old(self).stack@.last()).len())
                    &&& self.separator == Separator::TextAppend
                    &&& start <= v@.len()
                    &&& !done ==> line_break(self.out@, self.line) + append_rows(v@.subrange(start as int,
                        v@.len() as int), pre) == total
                    &&& done ==> self.out@ == total
                },
            decreases chars@.len() - i + (if done { 0int } else { 1int }),
        {
            if i == chars.len() || chars[i] == '\n' {
                let piece = crate::text::copy_range(chars.as_slice(), start, i);
                let ghost o = self.out@;
                let ghost pre_state = *self;
                match self.ser_item(piece.as_slice()) {
                    Ok(()) => (),
                    Err(e) => {
                        self.separator = Separator::Normal;
                        return Err(e);
                    },
                }
                match self.separator {
                    Separator::Normal => (),
                    _ => self.write_linefeed(),
                }
                proof {
                    assert(self.out@.subrange(0, o.len() as int) =~= o);
                    lemma_extends_trans(old(self).out@, o, self.out@);
                    if !v@.contains('\n') {
                        if i < chars@.len() {
                            assert(v@[i as int] == '\n');
                        }
                        if start > 0 {
                            assert(v@[start - 1] == '\n');
                        }
                        assert(piece@ =~= v@);
                    }
                    if multi {
                        let t = v@.subrange(start as int, v@.len() as int);
                        lemma_line_len(t, i - start);
                        if start == 0 {
                            assert(t =~= v@);
                            assert(i == i0);
                            assert(line_break(self.out@, self.line) == old(self).lead_sep(sep0) + piece@ + seq!['\n']);
                            assert(piece@ =~= v@.subrange(0, i0));
                            if i == chars@.len() {
                                assert(!v@.contains('\n')) by {
                                    if v@.contains('\n') {
                                        let j = choose|j: int| 0 <= j < v@.len() && v@[j] == '\n';
                                        assert(chars@[j] != '\n');
                                    }
                                }
                            }
                        } else {
                            let d = dd as int;
                            assert(pre_state.lead() == keys_output(o, pre_state.line, pre_state.stack@, d,
                                pre_state.n_indent as nat) + seq![':', '>']);
                            assert(keys_from(pre_state.stack@, d - 1, d, pre_state.n_indent as nat)
                                == spaces(((d - 1) * pre_state.n_indent) as nat) + key_of(pre_state.stack@.last()));
                            lemma_spaces_add(((d - 1) * old(self).n_indent) as nat, key_of(old(self).stack@.last()).len());
                            assert(self.out@ == line_break(o, pre_state.line) + pre + seq![':', '>'] + piece@ + seq!['\n']);
                            assert(piece@ =~= t.subrange(0, i - start));
                            if i < chars@.len() {
                                assert(t.subrange(i - start + 1, t.len() as int) =~= v@.subrange(i + 1, v@.len() as int));
                            } else {
                                assert(t.subrange(0, i - start) =~= t);
                            }
                        }
                    }
                }
                self.separator = Separator::TextAppend;
                if i == chars.len() {
                    done = true;
                } else {
                    i = i + 1;
                    start = i;
                }
            } else {
                i = i + 1;
            }
        }
        self.separator = Separator::Normal;
        Ok(())
    }

    /// Start serializing a key: scalars are refused until it ends
    pub fn begin_key(&mut self)
        ensures
            final(self).branches() == old(self).branches(),
            final(self).line_pos() == old(self).line_pos(),
            final(self).written() == old(self).written(),
            final(self).next_separator() == old(self).next_separator(),
            final(self).in_key(),
            final(self).output() == old(self).output(),
            final(self).depth() == old(self).depth(),
            final(self).unit() == old(self).unit(),
            old(self).wf() ==> final(self).wf(),
    {
        self.is_key = true;
    }

    /// Stop serializing a key
    pub fn end_key(&mut self)
        ensures
            final(self).branches() == old(self).branches(),
            final(self).line_pos() == old(self).line_pos(),
            final(self).written() == old(self).written(),
            final(self).next_separator() == old(self).next_separator(),
            !final(self).in_key(),
            final(self).output() == old(self).output(),
            final(self).depth() == old(self).depth(),
            final(self).unit() == old(self).unit(),
            old(self).wf() ==> final(self).wf(),
    {
        self.is_key = false;
    }

    /// Serialize a str: a key while a key is serialized, else a text value
    pub fn serialize_str(&mut self, v: &str) -> (r: Result<(), Error>)
        requires
            old(self).wf(),
        ensures
            !old(self).in_key() ==> final(self).next_separator() == Separator::Normal,
            !old(self).in_key() && !v@.contains('\n') ==> after_item(*old(self), *final(self), old(self).text_separator(v@))
                && final(self).line_pos() == (if old(self).text_separator(v@) == Separator::Normal {
                LinePos::AfterValue
            } else {
                LinePos::Start
            }),
            !old(self).in_key() && v@.contains('\n') && old(self).depth() > 0 && !(old(self).line_pos()
                == LinePos::AfterValue && old(self).text_separator(v@) == Separator::Normal) ==> final(self).output()
                == old(self).lead_sep(old(self).text_separator(v@)) + v@.subrange(0, line_len(v@)) + seq!['\n']
                + append_rows(v@.subrange(line_len(v@) + 1, v@.len() as int), spaces(((old(self).depth() - 1)
                * old(self).unit() + key_of(old(self).branches().last()).len()) as nat)),
            old(self).in_key() ==> final(self).output() == line_break(old(self).output(), old(self).line_pos())
                && final(self).line_pos() == LinePos::Start && final(self).written() == old(self).written()
                && final(self).next_separator() == old(self).next_separator()
                && final(self).branches().len() == old(self).branches().len()
                && (forall|i: int| 0 <= i < old(self).branches().len() - 1 ==> #[trigger] final(self).branches()[i]
                == old(self).branches()[i])
                && (old(self).depth() > 0 ==> key_of(final(self).branches().last()) == key_text(v@)
                && final(self).branches().last().visited == old(self).branches().last().visited
                && final(self).branches().last().modifier == old(self).branches().last().modifier),
            !old(self).in_key() && !v@.contains('\n') ==> final(self).output() == old(self).lead_sep(
                old(self).text_separator(v@)) + v@ + (if old(self).text_separator(v@) == Separator::Normal {
                Seq::<char>::empty()
            } else {
                seq!['\n']
            }),
            final(self).wf(),
            final(self).depth() == old(self).depth(),
            final(self).unit() == old(self).unit(),
            final(self).in_key() == old(self).in_key(),
            r is Ok,
            extends(old(self).output(), final(self).output()),
            old(self).in_key() && old(self).depth() > 0 ==> final(self).top_key() == Some(key_text(v@)),
    {
        if self.is_key {
            self.set_key(v);
            let ghost o = self.out@;
            self.write_linefeed();
            proof {
                assert(self.out@.subrange(0, o.len() as int) =~= o);
            }
            Ok(())
        } else {
            self.write_text(v)
        }
    }

    /// Serialize a bool
    pub fn serialize_bool(&mut self, v: bool) -> (r: Result<(), Error>)
        requires
            old(self).wf(),
        ensures
            !old(self).in_key() ==> after_scalar(*old(self), *final(self)),
            final(self).wf(),
            final(self).depth() == old(self).depth(),
            final(self).unit() == old(self).unit(),
            final(self).in_key() == old(self).in_key(),
            old(self).in_key() ==> r == Err::<(), Error>(Error::InvalidKey),
            !old(self).in_key() ==> r is Ok && extends(old(self).output(), final(self).output()) && ({
                let t = if v { "true"@ } else { "false"@ };
                final(self).output().subrange(final(self).output().len() - t.len(), final(self).output().len() as int) == t
            }),
            !old(self).in_key() ==> (final(self).output() == old(self).lead() + if v { "true"@ } else { "false"@ }),
    {
        let t = if v { chars_of("true") } else { chars_of("false") };
        self.ser_item(t.as_slice())
    }

    /// Serialize a signed integer
    pub fn serialize_int(&mut self, v: i128) -> (r: Result<(), Error>)
        requires
            old(self).wf(),
        ensures
            !old(self).in_key() ==> after_scalar(*old(self), *final(self)),
            final(self).wf(),
            final(self).depth() == old(self).depth(),
            final(self).unit() == old(self).unit(),
            final(self).in_key() == old(self).in_key(),
            old(self).in_key() ==> r == Err::<(), Error>(Error::InvalidKey),
            !old(self).in_key() ==> r is Ok && extends(old(self).output(), final(self).output()) && ({
                let t = int_text(v as int);
                final(self).output().subrange(final(self).output().len() - t.len(), final(self).output().len() as int) == t
            }),
            !old(self).in_key() ==> (final(self).output() == old(self).lead() + int_text(v as int)),
    {
        let t = signed_chars(v);
        self.ser_item(t.as_slice())
    }

    /// Serialize an unsigned integer
    pub fn serialize_uint(&mut self, v: u128) -> (r: Result<(), Error>)
        requires
            old(self).wf(),
        ensures
            !old(self).in_key() ==> after_scalar(*old(self), *final(self)),
            final(self).wf(),
            final(self).depth() == old(self).depth(),
            final(self).unit() == old(self).unit(),
            final(self).in_key() == old(self).in_key(),
            old(self).in_key() ==> r == Err::<(), Error>(Error::InvalidKey),
            !old(self).in_key() ==> r is Ok && extends(old(self).output(), final(self).output()) && ({
                let t = decimal(v as nat);
                final(self).output().subrange(final(self).output().len() - t.len(), final(self).output().len() as int) == t
            }),
            !old(self).in_key() ==> (final(self).output() == old(self).lead() + decimal(v as nat)),
    {
        let t = decimal_chars(v);
        self.ser_item(t.as_slice())
    }

    /// Serialize a scalar already formatted as text (a number, a char)
    pub fn serialize_scalar(&mut self, v: &str) -> (r: Result<(), Error>)
        requires
            old(self).wf(),
        ensures
            !old(self).in_key() ==> after_scalar(*old(self), *final(self)),
            final(self).wf(),
            final(self).depth() == old(self).depth(),
            final(self).unit() == old(self).unit(),
            final(self).in_key() == old(self).in_key(),
            old(self).in_key() ==> r == Err::<(), Error>(Error::InvalidKey),
            !old(self).in_key() ==> r is Ok && extends(old(self).output(), final(self).output())
                && final(self).output().subrange(final(self).output().len() - v@.len(), final(self).output().len() as int) == v@,
            !old(self).in_key() ==> (final(self).output() == old(self).lead() + v@),
    {
        let t = chars_of(v);
        self.ser_item(t.as_slice())
    }

    /// Serialize a char
    pub fn serialize_char(&mut self, c: char) -> (r: Result<(), Error>)
        requires
            old(self).wf(),
        ensures
            !old(self).in_key() ==> after_scalar(*old(self), *final(self)),
            final(self).wf(),
            final(self).depth() == old(self).depth(),
            final(self).unit() == old(self).unit(),
            final(self).in_key() == old(self).in_key(),
            old(self).in_key() ==> r == Err::<(), Error>(Error::InvalidKey),
            !old(self).in_key() ==> r is Ok && extends(old(self).output(), final(self).output())
                && final(self).output().last() == c,
            !old(self).in_key() ==> (final(self).output() == old(self).lead() + seq![c]),
    {
        let mut t: Vec<char> = Vec::new();
        t.push(c);
        let r = self.ser_item(t.as_slice());
        proof {
            if !old(self).is_key {
                let o = self.out@;
                assert(t@ == seq![c]);
                assert(o.subrange(o.len() - 1, o.len() as int)[0] == o.last());
            }
        }
        r
    }

    /// Start an optional value that is present
    pub fn serialize_some(&mut self)
        requires
            old(self).wf(),
        ensures
            final(self).line_pos() == old(self).line_pos(),
            final(self).written() == old(self).written(),
            final(self).next_separator() == old(self).next_separator(),
            final(self).branches().len() == old(self).branches().len(),
            forall|i: int| 0 <= i < old(self).branches().len() - 1 ==> #[trigger] final(self).branches()[i]
                == old(self).branches()[i],
            final(self).wf(),
            final(self).output() == old(self).output(),
            final(self).depth() == old(self).depth(),
            final(self).in_key() == old(self).in_key(),
            final(self).unit() == old(self).unit(),
            old(self).depth() > 0 ==> final(self).top_modifier() == Some(FieldModifier::Optional),
    {
        self.set_modifier(FieldModifier::Optional);
    }

    /// Start a list value
    pub fn serialize_seq(&mut self)
        requires
            old(self).wf(),
        ensures
            final(self).line_pos() == old(self).line_pos(),
            final(self).written() == old(self).written(),
            final(self).next_separator() == old(self).next_separator(),
            final(self).branches().len() == old(self).branches().len(),
            forall|i: int| 0 <= i < old(self).branches().len() - 1 ==> #[trigger] final(self).branches()[i]
                == old(self).branches()[i],
            final(self).wf(),
            final(self).output() == old(self).output(),
            final(self).depth() == old(self).depth(),
            final(self).in_key() == old(self).in_key(),
            final(self).unit() == old(self).unit(),
            old(self).depth() > 0 ==> final(self).top_modifier() == Some(FieldModifier::List),
    {
        self.set_modifier(FieldModifier::List);
    }
}

proof fn lemma_decimal_digits(n: nat)
    ensures
        crate::intparse::all_radix_digits(decimal(n), 10),
        crate::intparse::radix_value(decimal(n), 10) == n,
        decimal(n).len() > 0,
        '0' <= decimal(n)[0] <= '9',
        !decimal(n).contains('_'),
    decreases n,
{
    if n >= 10 {
        lemma_decimal_digits(n / 10);
        let d = decimal(n / 10);
        let c = ((n % 10) + 48) as char;
        assert(c as int == (n % 10) + 48);
        assert(crate::intparse::digit_of(c) == n % 10);
        assert(decimal(n) == d.push(c));
        assert(d.push(c).drop_last() =~= d);
        assert(d.push(c).last() == c);
        assert(crate::intparse::radix_value(d.push(c), 10) == crate::intparse::radix_value(d, 10) * 10 + crate::intparse::digit_of(c));
        assert(n == (n / 10) * 10 + n % 10);
        assert forall|i: int| 0 <= i < d.push(c).len() implies crate::intparse::is_radix_digit(#[trigger] d.push(c)[i], 10) by {
            if i < d.len() {
                assert(d.push(c)[i] == d[i]);
            }
        }
        assert(d.push(c)[0] == d[0]);
        assert(!d.push(c).contains('_')) by {
            if d.push(c).contains('_') {
                let k = choose|k: int| 0 <= k < d.push(c).len() && d.push(c)[k] == '_';
                if k < d.len() {
                    assert(d[k] == '_');
                }
            }
        }
    } else {
        let c = (n + 48) as char;
        assert(c as int == n + 48);
        assert(decimal(n) == seq![c]);
        assert(seq![c].drop_last() =~= Seq::<char>::empty());
        assert(crate::intparse::radix_value(seq![c], 10) == crate::intparse::radix_value(Seq::<char>::empty(), 10) * 10 + crate::intparse::digit_of(c));
        assert(!seq![c].contains('_')) by {
            if seq![c].contains('_') {
                let k = choose|k: int| 0 <= k < 1 && seq![c][k] == '_';
            }
        }
    }
}

/// Integers written by the serializer read back as the same integers: the
/// decimal text of `v` is an integer literal of sign `v < 0` and magnitude `|v|`
pub proof fn lemma_int_text_round_trip(v: int)
    ensures
        int_literal(int_text(v)) == Some((v < 0, if v < 0 { -v } else { v })),
{
    if v < 0 {
        let m = (-v) as nat;
        lemma_decimal_digits(m);
        let t = seq!['-'] + decimal(m);
        assert(t[0] == '-');
        assert(!t.contains('_')) by {
            if t.contains('_') {
                let k = choose|k: int| 0 <= k < t.len() && t[k] == '_';
                assert(k > 0);
                assert(t[k] == decimal(m)[k - 1]);
            }
        }
        assert(sanitized(t, 10) == Some(t));
        assert(unsigned_part(t) =~= decimal(m));
        assert(plain_int(t, 10) == Some((true, m as int)));
    } else {
        let m = v as nat;
        lemma_decimal_digits(m);
        let t = decimal(m);
        assert(sanitized(t, 10) == Some(t));
        assert(unsigned_part(t) == t);
        assert(plain_int(t, 10) == Some((false, m as int)));
    }
}

/// Integer text is canonical: reading the text of `v` and writing the value
/// again gives the same text
pub proof fn lemma_int_text_canonical(v: int)
    ensures
        int_literal(int_text(v)) matches Some((neg, m)) && int_text(crate::intparse::signed_value(neg, m))
            == int_text(v),
{
    lemma_int_text_round_trip(v);
}

} // verus!
