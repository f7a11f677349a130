use vstd::prelude::*;
use crate::common::{separator_text, Define, DefineView, Separator};
use crate::schema::Schema;
use crate::error::ParseError;
use crate::text::{copy_range, count_leading_spaces, leading_spaces, lemma_leading_spaces_bound};

verus! {

/// Line scanning states
#[derive(Clone, Copy, Debug, PartialEq, Eq, Structural)]
pub enum State {
    /// Error state
    Error(ParseError),
    /// Start state (only spaces so far)
    Start,
    /// Comment
    Comment,
    /// Key with no quoting
    KeyNotQuoted,
    /// Quoted key with even number of quotes (true means key not blank)
    KeyQuotedEven(bool),
    /// Quoted key with odd number of quotes (true means key not blank)
    KeyQuotedOdd(bool),
    /// Key with colon at char offset
    KeyColon(usize),
    /// Definition with separator at char offset
    DefDone(usize, Separator),
}

/// Line types
#[derive(Clone, Debug, PartialEq)]
pub enum Line {
    /// Schema separator (`:::`)
    SchemaSeparator,
    /// Blank line
    Blank,
    /// Comment (starting with `#` after optional spaces)
    Comment(Vec<char>),
    /// Definition (key, separator, value)
    Definition(Vec<char>, Separator, Vec<char>),
}

/// One step of the line scanner on char `c` at offset `off`
pub open spec fn step(s: State, off: usize, c: char) -> State {
    match s {
        State::Start => if c == ' ' {
            State::Start
        } else if c == '#' {
            State::Comment
        } else if c == ':' {
            if off > 0 { State::KeyColon(off) } else { State::Error(ParseError::MissingKey) }
        } else if c == '"' {
            State::KeyQuotedOdd(false)
        } else {
            State::KeyNotQuoted
        },
        State::KeyNotQuoted => if c == ':' { State::KeyColon(off) } else { State::KeyNotQuoted },
        State::KeyQuotedOdd(b) => if c == '"' { State::KeyQuotedEven(b) } else { State::KeyQuotedOdd(true) },
        State::KeyQuotedEven(b) => if c == '"' {
            State::KeyQuotedOdd(true)
        } else if c == ':' && b {
            State::KeyColon(off)
        } else {
            State::Error(ParseError::InvalidSeparator)
        },
        State::KeyColon(o) => if c == ' ' {
            State::DefDone(o, Separator::Normal)
        } else if c == '>' {
            State::DefDone(o, Separator::TextAppend)
        } else if c == '=' {
            State::DefDone(o, Separator::TextValue)
        } else {
            State::Error(ParseError::InvalidSeparator)
        },
        _ => s,
    }
}

/// The scan of a line is over: a comment, a definition or an error
pub open spec fn done(s: State) -> bool {
    s is Error || s is Comment || s is DefDone
}

/// State after scanning the first `n` chars of `line`
pub open spec fn scan(line: Seq<char>, n: int) -> State
    decreases n,
{
    if n <= 0 {
        State::Start
    } else {
        step(scan(line, n - 1), (n - 1) as usize, line[n - 1])
    }
}

/// A scanned line matches the final state: same kind, with the text it names
pub open spec fn line_matches(r: Result<Line, ParseError>, s: State, line: Seq<char>) -> bool {
    match s {
        State::Comment => r matches Ok(Line::Comment(t)) && t@ == line,
        State::DefDone(off, sep) => r matches Ok(Line::Definition(k, sp, v)) && sp == sep
            && k@ == line.subrange(0, off as int)
            && v@ == line.subrange(if off + 2 <= line.len() { off + 2 } else { line.len() as int }, line.len() as int),
        State::Error(e) => r == Err::<Line, ParseError>(e),
        _ => r == Err::<Line, ParseError>(ParseError::MissingSeparator),
    }
}

/// The result of scanning a whole line (no linefeed in it)
pub open spec fn line_spec(line: Seq<char>, r: Result<Line, ParseError>) -> bool {
    if line.len() == 0 {
        r == Ok::<Line, ParseError>(Line::Blank)
    } else if line == seq![':', ':', ':'] {
        r == Ok::<Line, ParseError>(Line::SchemaSeparator)
    } else {
        line_matches(r, step(scan(line, line.len() as int), line.len() as usize, ' '), line)
    }
}

proof fn lemma_done_absorbs(line: Seq<char>, i: int, j: int)
    requires
        0 <= i <= j,
        done(scan(line, i)),
    ensures
        scan(line, j) == scan(line, i),
    decreases j - i,
{
    if j > i {
        lemma_done_absorbs(line, i, j - 1);
    }
}

impl State {
    /// Parse one character at char offset `offset`
    fn parse_char(self, offset: usize, c: char) -> (r: State)
        ensures
            r == step(self, offset, c),
    {
        match self {
            State::Start => match c {
                ' ' => State::Start,
                '#' => State::Comment,
                ':' => if offset > 0 { State::KeyColon(offset) } else { State::Error(ParseError::MissingKey) },
                '"' => State::KeyQuotedOdd(false),
                _ => State::KeyNotQuoted,
            },
            State::KeyNotQuoted => match c {
                ':' => State::KeyColon(offset),
                _ => State::KeyNotQuoted,
            },
            State::KeyQuotedOdd(b) => match c {
                '"' => State::KeyQuotedEven(b),
                _ => State::KeyQuotedOdd(true),
            },
            State::KeyQuotedEven(b) => match c {
                '"' => State::KeyQuotedOdd(true),
                ':' => if b { State::KeyColon(offset) } else { State::Error(ParseError::InvalidSeparator) },
                _ => State::Error(ParseError::InvalidSeparator),
            },
            State::KeyColon(off) => match c {
                ' ' => State::DefDone(off, Separator::Normal),
                '>' => State::DefDone(off, Separator::TextAppend),
                '=' => State::DefDone(off, Separator::TextValue),
                _ => State::Error(ParseError::InvalidSeparator),
            },
            _ => self,
        }
    }

    /// Check if line state is done
    fn is_done(&self) -> (r: bool)
        ensures
            r == done(*self),
    {
        match self {
            State::Error(_) | State::Comment | State::DefDone(_, _) => true,
            _ => false,
        }
    }

    /// Convert state to a Line
    fn to_line(&self, line: &[char]) -> (r: Result<Line, ParseError>)
        requires
            self matches State::DefDone(off, _) ==> off <= line@.len(),
        ensures
            line_matches(r, *self, line@),
    {
        match self {
            State::Comment => {
                let t = copy_range(line, 0, line.len());
                assert(t@ =~= line@);
                Ok(Line::Comment(t))
            },
            State::DefDone(off, separator) => {
                let key = copy_range(line, 0, *off);
                let v = if line.len() - *off >= 2 { *off + 2 } else { line.len() };
                let value = copy_range(line, v, line.len());
                Ok(Line::Definition(key, *separator, value))
            },
            State::Error(e) => Err(*e),
            _ => Err(ParseError::MissingSeparator),
        }
    }
}

/// Offsets held by a scanning state are within `n`
pub open spec fn offsets_within(s: State, n: int) -> bool {
    match s {
        State::KeyColon(o) => o < n,
        State::DefDone(o, _) => o < n,
        _ => true,
    }
}

proof fn lemma_scan_offsets(line: Seq<char>, n: int)
    requires
        0 <= n,
    ensures
        offsets_within(scan(line, n), n),
    decreases n,
{
    if n > 0 {
        lemma_scan_offsets(line, n - 1);
    }
}

impl Line {
    /// Scan one line of input (without its linefeed)
    pub fn new(line: &[char]) -> (r: Result<Line, ParseError>)
        ensures
            line_spec(line@, r),
            r matches Ok(Line::Definition(k, _, _)) ==> k@.len() <= line@.len(),
    {
        if line.len() == 0 {
            return Ok(Line::Blank);
        }
        if line.len() == 3 && line[0] == ':' && line[1] == ':' && line[2] == ':' {
            assert(line@ =~= seq![':', ':', ':']);
            return Ok(Line::SchemaSeparator);
        }
        proof {
            if line@ == seq![':', ':', ':'] {
                assert(line@.len() == 3);
            }
        }
        let mut state = State::Start;
        let mut i: usize = 0;
        while i < line.len()
            invariant
                i <= line@.len(),
                state == scan(line@, i as int),
                !done(state),
                line@.len() > 0,
                line@ != seq![':', ':', ':'],
            decreases line@.len() - i,
        {
            state = state.parse_char(i, line[i]);
            i = i + 1;
            if state.is_done() {
                proof {
                    lemma_done_absorbs(line@, i as int, line@.len() as int);
                    lemma_scan_offsets(line@, i as int);
                    assert(step(state, line@.len() as usize, ' ') == state);
                }
                return state.to_line(line);
            }
        }
        proof {
            lemma_scan_offsets(line@, line@.len() as int);
        }
        state.parse_char(line.len(), ' ').to_line(line)
    }
}

/// Iterator over the lines of an input
pub struct LineIter {
    /// Input chars
    input: Vec<char>,
    /// Start of the next line
    pos: usize,
}

impl LineIter {
    /// The input
    pub closed spec fn input(&self) -> Seq<char> {
        self.input@
    }

    /// Start of the input not read yet
    pub closed spec fn pos(&self) -> int {
        self.pos as int
    }

    /// Well-formed: the position lies within the input
    pub closed spec fn wf(&self) -> bool {
        self.pos <= self.input@.len()
    }

    /// Create a new line iterator
    pub fn new(input: Vec<char>) -> (r: LineIter)
        ensures
            r.wf() && r.input() == input@ && r.pos() == 0,
    {
        LineIter { input, pos: 0 }
    }

    /// Next line: scanned up to its linefeed, or `MissingLinefeed` (again and
    /// again) for a last line without one
    pub fn next(&mut self) -> (r: Option<Result<Line, ParseError>>)
        requires
            old(self).wf(),
        ensures
            final(self).wf(),
            final(self).input() == old(self).input(),
            ({
                let inp = old(self).input();
                let p = old(self).pos();
                let q = final(self).pos();
                if inp.subrange(p, inp.len() as int).contains('\n') {
                    &&& p < q <= inp.len()
                    &&& inp[q - 1] == '\n'
                    &&& !inp.subrange(p, q - 1).contains('\n')
                    &&& r matches Some(res) && line_spec(inp.subrange(p, q - 1), res)
                    &&& r matches Some(Ok(Line::Definition(k, _, _))) ==> k@.len() <= inp.len()
                } else if p < inp.len() {
                    q == p && r == Some(Err::<Line, ParseError>(ParseError::MissingLinefeed))
                } else {
                    q == p && r is None
                }
            }),
    {
        let ghost inp = self.input@;
        let ghost p = self.pos as int;
        let ghost rest = inp.subrange(p, inp.len() as int);
        let mut i: usize = self.pos;
        while i < self.input.len()
            invariant
                self.pos <= i <= self.input@.len(),
                inp == self.input@,
                p == self.pos,
                inp == old(self).input@,
                p == old(self).pos,
                rest == inp.subrange(p, inp.len() as int),
                forall|j: int| p <= j < i ==> inp[j] != '\n',
            decreases self.input@.len() - i,
        {
            if self.input[i] == '\n' {
                let line = Line::new(&self.input.as_slice()[self.pos..i]);
                proof {
                    assert(!inp.subrange(p, i as int).contains('\n')) by {
                        if inp.subrange(p, i as int).contains('\n') {
                            let k = choose|k: int| 0 <= k < i - p && inp.subrange(p, i as int)[k] == '\n';
                            assert(inp[p + k] == '\n');
                        }
                    }
                    assert(rest[i - p] == '\n');
                    assert(rest.contains('\n'));
                }
                self.pos = i + 1;
                return Some(line);
            }
            i = i + 1;
        }
        proof {
            assert(!rest.contains('\n')) by {
                if rest.contains('\n') {
                    let k = choose|k: int| 0 <= k < rest.len() && rest[k] == '\n';
                    assert(inp[p + k] == '\n');
                }
            }
        }
        if self.pos < self.input.len() {
            Some(Err(ParseError::MissingLinefeed))
        } else {
            None
        }
    }
}

/// Key indent, if any: the count of leading spaces of a key that is not all spaces
pub open spec fn key_indent_spec(key: Seq<char>) -> Option<int> {
    let i = leading_spaces(key);
    if 0 < i < key.len() { Some(i) } else { None }
}

/// Get key indent, if any
fn key_indent(key: &[char]) -> (r: Option<usize>)
    ensures
        r matches Some(i) ==> key_indent_spec(key@) == Some(i as int),
        r is None ==> key_indent_spec(key@) is None,
{
    let i = count_leading_spaces(key);
    if i > 0 && i < key.len() {
        Some(i)
    } else {
        None
    }
}

/// Depth of a key with `spaces` leading spaces, for a learned indent unit
pub open spec fn depth_of(spaces: int, unit: Option<usize>) -> Option<int> {
    match unit {
        Some(u) => if u > 0 && spaces % (u as int) == 0 { Some(spaces / (u as int)) } else { None },
        None => if spaces == 0 { Some(0) } else { None },
    }
}

/// Iterator for definitions: learns the indent unit, resolves depth and
/// continuation rows, and screens out a schema prelude
pub struct DefIter {
    /// Line iterator
    lines: LineIter,
    /// Number of spaces in one indent
    indent_spaces: Option<usize>,
    /// Parsed schema
    schema: Option<Schema>,
    /// Current definition (for continuation rows)
    define: Option<Define>,
}

impl DefIter {
    /// The indent unit, once learned
    pub closed spec fn unit(&self) -> Option<usize> {
        self.indent_spaces
    }

    /// The schema prelude read so far, if any
    pub closed spec fn spec_schema(&self) -> Option<Schema> {
        self.schema
    }

    /// The last definition handed out
    pub closed spec fn current(&self) -> Option<DefineView> {
        match self.define {
            Some(d) => Some(d@),
            None => None,
        }
    }

    /// Well-formed: the unit is 2, 3 or 4; the current definition's full key
    /// width is bounded by the input
    pub closed spec fn wf(&self) -> bool {
        &&& self.lines.wf()
        &&& (self.indent_spaces matches Some(u) ==> 2 <= u <= 4)
        &&& (self.define matches Some(d) ==> {
            &&& (self.indent_spaces is None ==> d.indent == 0)
            &&& d.indent * (if let Some(u) = self.indent_spaces { u as int } else { 0 }) + d.key@.len()
                <= self.lines.input@.len()
        })
    }

    /// Create a new definition iterator
    pub fn new(input: Vec<char>) -> (r: DefIter)
        ensures
            r.wf(),
            r.input() == input@,
            r.spec_schema() is None,
            r.consumed() == 0,
            r.unit() is None,
            r.current() is None,
    {
        DefIter { lines: LineIter::new(input), indent_spaces: None, schema: None, define: None }
    }

    /// Get the schema
    pub fn schema(&self) -> (r: Option<&Schema>)
        ensures
            r is Some <==> self.spec_schema() is Some,
            r matches Some(s) ==> self.spec_schema() == Some(*s),
    {
        match self.schema {
            Some(ref s) => Some(s),
            None => None,
        }
    }
}

/// Width of the current definition's full key: its indent and its key
pub open spec fn key_width(d: DefineView, unit: Option<usize>) -> int {
    d.indent * (if let Some(u) = unit { u as int } else { 0 }) + d.key.len()
}

impl DefIter {
    /// The input
    pub closed spec fn input(&self) -> Seq<char> {
        self.lines.input()
    }

    /// How much of the input was read
    pub closed spec fn consumed(&self) -> int {
        self.lines.pos()
    }

    /// Learn the indent unit from the first indented key: 2, 3 or 4 spaces
    fn set_indent_spaces(&mut self, key: &[char]) -> (r: Result<(), ParseError>)
        requires
            old(self).wf(),
            key@.len() <= old(self).input().len(),
        ensures
            final(self).wf(),
            final(self).input() == old(self).input(),
            final(self).lines == old(self).lines,
            final(self).current() == old(self).current(),
            final(self).spec_schema() == old(self).spec_schema(),
            old(self).unit() is Some ==> r is Ok && final(self).unit() == old(self).unit(),
            old(self).unit() is None ==> match key_indent_spec(key@) {
                Some(sp) => if 2 <= sp <= 4 {
                    r is Ok && final(self).unit() == Some(sp as usize)
                } else {
                    r == Err::<(), ParseError>(ParseError::InvalidIndent) && final(self).unit() is None
                },
                None => r is Ok && final(self).unit() is None,
            },
    {
        if self.indent_spaces.is_none() {
            match key_indent(key) {
                Some(sp) => {
                    if sp >= 2 && sp <= 4 {
                        self.indent_spaces = Some(sp);
                        Ok(())
                    } else {
                        Err(ParseError::InvalidIndent)
                    }
                },
                None => Ok(()),
            }
        } else {
            Ok(())
        }
    }

    /// Get the current key width (number of characters, indent included)
    fn key_len(&self) -> (r: usize)
        requires
            self.wf(),
        ensures
            self.current() matches Some(d) ==> r == key_width(d, self.unit()),
            self.current() is None ==> r == 0,
    {
        match &self.define {
            Some(define) => {
                let u: usize = match self.indent_spaces {
                    Some(u) => u,
                    None => 0,
                };
                let n = self.lines.input.len();
                proof {
                    assert(define.indent * u + define.key@.len() <= n);
                }
                define.indent * u + define.key.len()
            },
            None => 0,
        }
    }

    /// Get the depth of a key from its leading spaces
    fn indent_count(&self, key: &[char]) -> (r: Option<usize>)
        requires
            self.wf(),
        ensures
            r matches Some(n) ==> depth_of(leading_spaces(key@), self.unit()) == Some(n as int),
            r is None ==> depth_of(leading_spaces(key@), self.unit()) is None,
    {
        let spaces = count_leading_spaces(key);
        match self.indent_spaces {
            Some(u) => {
                if spaces % u == 0 {
                    Some(spaces / u)
                } else {
                    None
                }
            },
            None => {
                if spaces == 0 {
                    Some(0)
                } else {
                    None
                }
            },
        }
    }

    /// Make a definition from key and value: a blank key continues the
    /// current definition; another key has its depth from its leading spaces
    fn make_define(&self, key: Vec<char>, separator: Separator, value: Vec<char>) -> (r: Result<Define, ParseError>)
        requires
            self.wf(),
            key@.len() <= self.input().len(),
        ensures
            r is Err ==> r == Err::<Define, ParseError>(ParseError::InvalidIndent),
            leading_spaces(key@) == key@.len() ==> (r is Ok <==> (self.current() matches Some(d)
                && key@.len() == key_width(d, self.unit()))),
            leading_spaces(key@) == key@.len() ==> (r matches Ok(nd) ==> (self.current() matches Some(d)
                && nd@.indent == d.indent && nd@.key == d.key && nd.separator == separator && nd.value@ == value@)),
            leading_spaces(key@) < key@.len() ==> (r is Ok <==> depth_of(leading_spaces(key@), self.unit()) is Some),
            leading_spaces(key@) < key@.len() ==> (r matches Ok(nd) ==> (depth_of(leading_spaces(key@), self.unit()) == Some(nd.indent as int)
                && nd.key@ == key@.subrange(leading_spaces(key@), key@.len() as int)
                && nd.separator == separator && nd.value@ == value@)),
            r matches Ok(nd) ==> key_width(nd@, self.unit()) <= self.input().len(),
            self.unit() is None ==> (r matches Ok(nd) ==> nd.indent == 0),
    {
        let spaces = count_leading_spaces(key.as_slice());
        if spaces == key.len() {
            if key.len() == self.key_len() {
                if let Some(define) = &self.define {
                    return Ok(Define::new(define.indent, define.key.clone(), separator, value));
                }
            }
        } else if let Some(indent) = self.indent_count(key.as_slice()) {
            let k = copy_range(key.as_slice(), spaces, key.len());
            proof {
                if let Some(u) = self.indent_spaces {
                    let (a, b, c) = (indent as int, u as int, spaces as int);
                    assert(a * b == c) by (nonlinear_arith)
                        requires b > 0, c % b == 0, a == c / b;
                }
            }
            return Ok(Define::new(indent, k, separator, value));
        }
        Err(ParseError::InvalidIndent)
    }
}

impl DefIter {
    /// Process a definition line; definitions that open a document with a
    /// schema prelude go to the schema
    fn process_define(&mut self, key: Vec<char>, separator: Separator, value: Vec<char>) -> (r: Result<Option<Define>, ParseError>)
        requires
            old(self).wf(),
            key@.len() <= old(self).input().len(),
        ensures
            final(self).wf(),
            final(self).input() == old(self).input(),
            final(self).lines == old(self).lines,
            final(self).current() == old(self).current(),
            old(self).unit() is Some ==> final(self).unit() == old(self).unit(),
            r matches Ok(Some(d)) ==> key_width(d@, final(self).unit()) <= final(self).input().len()
                && (final(self).unit() is None ==> d.indent == 0),
            old(self).unit() matches Some(u) ==> (0 < leading_spaces(key@) < key@.len()
                && leading_spaces(key@) % (u as int) != 0
                ==> r == Err::<Option<Define>, ParseError>(ParseError::InvalidIndent)),
            old(self).spec_schema() is None || old(self).current() is Some ==> ({
                let (u, res) = resolve_line(old(self).unit(), old(self).current(), key@, separator, value@);
                final(self).unit() == u && resolution_matches(res, r)
            }),
            final(self).spec_schema() is None <==> old(self).spec_schema() is None,
    {
        let ghost k = key@;
        let ghost v = value@;
        proof {
            lemma_leading_spaces_bound(k);
        }
        match self.set_indent_spaces(key.as_slice()) {
            Ok(()) => (),
            Err(e) => {
                assert(learned_unit(old(self).unit(), k) == Err::<Option<usize>, ParseError>(ParseError::InvalidIndent));
                return Err(e);
            },
        }
        assert(learned_unit(old(self).unit(), k) == Ok::<Option<usize>, ParseError>(self.unit()));
        let def = match self.make_define(key, separator, value) {
            Ok(d) => d,
            Err(e) => {
                assert(resolved(self.unit(), self.current(), k, separator, v) is Err);
                return Err(e);
            },
        };
        assert(resolved(self.unit(), self.current(), k, separator, v) == Ok::<DefineView, ParseError>(def@));
        if self.define.is_none() {
            if let Some(schema) = &mut self.schema {
                match schema.add_define(&def) {
                    Ok(true) => return Ok(None),
                    Ok(false) => (),
                    Err(e) => return Err(e),
                }
            }
        }
        Ok(Some(def))
    }

    /// Process a schema separator: it opens a prelude at the start of a
    /// document and closes it once
    fn process_schema(&mut self) -> (r: Result<Option<Define>, ParseError>)
        requires
            old(self).wf(),
        ensures
            final(self).wf(),
            final(self).input() == old(self).input(),
            final(self).lines == old(self).lines,
            final(self).current() == old(self).current(),
            final(self).unit() == old(self).unit(),
            r is Ok ==> r == Ok::<Option<Define>, ParseError>(None),
            r is Err ==> r == Err::<Option<Define>, ParseError>(ParseError::UnexpectedSchemaSeparator),
            old(self).current() is Some ==> r is Err,
            old(self).current() is None && old(self).spec_schema() is None ==> (r is Ok
                && (final(self).spec_schema() matches Some(sc) && !sc.finished && sc.nodes@.len() == 0)),
            old(self).current() is None ==> (old(self).spec_schema() matches Some(sc) ==> (r is Ok <==> !sc.finished)),
    {
        if self.define.is_some() {
            return Err(ParseError::UnexpectedSchemaSeparator);
        }
        match &mut self.schema {
            None => {
                self.schema = Some(Schema::new());
                Ok(None)
            },
            Some(schema) => {
                if schema.finish() {
                    Err(ParseError::UnexpectedSchemaSeparator)
                } else {
                    Ok(None)
                }
            },
        }
    }

    /// Process a line
    fn process_line(&mut self, ln: Line) -> (r: Result<Option<Define>, ParseError>)
        requires
            old(self).wf(),
            ln matches Line::Definition(k, _, _) ==> k@.len() <= old(self).input().len(),
        ensures
            (ln is Blank || ln is Comment) ==> final(self).spec_schema() == old(self).spec_schema(),
            ln is Definition ==> (final(self).spec_schema() is None <==> old(self).spec_schema() is None),
            final(self).wf(),
            final(self).input() == old(self).input(),
            final(self).lines == old(self).lines,
            final(self).current() == old(self).current(),
            old(self).unit() is Some ==> final(self).unit() == old(self).unit(),
            (ln is Blank || ln is Comment) ==> r == Ok::<Option<Define>, ParseError>(None),
            !(ln is Definition) ==> final(self).unit() == old(self).unit(),
            ln matches Line::Definition(k, sp, v) ==> (old(self).spec_schema() is None ==> ({
                let (u, res) = resolve_line(old(self).unit(), old(self).current(), k@, sp, v@);
                final(self).unit() == u && resolution_matches(res, r)
            })),
            ln matches Line::Definition(k, _, _) ==> (old(self).unit() matches Some(u) ==> (
                0 < leading_spaces(k@) < k@.len() && leading_spaces(k@) % (u as int) != 0
                ==> r == Err::<Option<Define>, ParseError>(ParseError::InvalidIndent))),
            r matches Ok(Some(d)) ==> key_width(d@, final(self).unit()) <= final(self).input().len()
                && (final(self).unit() is None ==> d.indent == 0),
    {
        match ln {
            Line::SchemaSeparator => self.process_schema(),
            Line::Blank | Line::Comment(_) => Ok(None),
            Line::Definition(key, separator, value) => self.process_define(key, separator, value),
        }
    }

    /// Next definition, or the first error met; blank lines, comments and
    /// the schema prelude are skipped
    pub fn next(&mut self) -> (r: Option<Result<Define, ParseError>>)
        requires
            old(self).wf(),
        ensures
            final(self).wf(),
            final(self).input() == old(self).input(),
            old(self).unit() is Some ==> final(self).unit() == old(self).unit(),
            r matches Some(Ok(d)) ==> final(self).current() == Some(d@),
            !(r matches Some(Ok(_))) ==> final(self).current() == old(self).current(),
            old(self).consumed() <= final(self).consumed() <= final(self).input().len(),
            r matches Some(Ok(_)) ==> final(self).consumed() > old(self).consumed(),
            old(self).unit() matches Some(u) ==> (misindented_line(old(self).input(), content_start(old(self).input(),
                old(self).consumed()), u as int) ==> r == Some(Err::<Define, ParseError>(ParseError::InvalidIndent))),
            plain_definition_next(*old(self)) ==> ({
                let inp = old(self).input();
                let p = content_start(inp, old(self).consumed());
                let l = inp.subrange(p, line_end(inp, p));
                let (u, res) = resolve_line(old(self).unit(), old(self).current(), line_key(l), line_separator(l),
                    line_value(l));
                &&& final(self).consumed() == line_end(inp, p) + 1
                &&& final(self).unit() == u
                &&& stepped(*old(self), *final(self))
                &&& match res {
                    Ok(d) => r matches Some(Ok(x)) && x@ == d && final(self).current() == Some(d),
                    Err(e) => r == Some(Err::<Define, ParseError>(e)),
                }
            }),
    {
        let ghost q0 = content_start(old(self).input(), old(self).consumed());
        let ghost mut first = true;
        loop
            invariant
                self.wf(),
                old(self).consumed() <= self.consumed(),
                self.input() == old(self).input(),
                old(self).unit() is Some ==> self.unit() == old(self).unit(),
                self.current() == old(self).current(),
                q0 == content_start(old(self).input(), old(self).consumed()),
                first ==> content_start(self.input(), self.consumed()) == q0 && self.unit() == old(self).unit()
                    && self.spec_schema() == old(self).spec_schema(),
                !first ==> !plain_definition_next(*old(self)),
                !first ==> (old(self).unit() matches Some(u) ==> !misindented_line(old(self).input(), q0, u as int)),
            decreases self.input().len() - self.lines.pos(),
        {
            let ghost p = self.lines.pos();
            let ghost inp = self.lines.input();
            let ghost was_first = first;
            let ghost at_content = first && p == q0;
            proof {
                if first && self.indent_spaces is Some && misindented_line(inp, p, self.indent_spaces->0 as int) {
                    lemma_misindented_is_definition(inp, p, self.indent_spaces->0 as int);
                }
                if first && p != q0 {
                    lemma_skipped_line(inp, p);
                }
            }
            let nl = self.lines.next();
            proof {
                if at_content && self.indent_spaces is Some && misindented_line(inp, p, self.indent_spaces->0 as int) {
                    let e = line_end(inp, p);
                    let q = self.lines.pos();
                    lemma_line_end(inp, p, q - 1);
                    let l = inp.subrange(p, e);
                    lemma_scan_offsets(l, l.len() as int);
                    let st = step(scan(l, l.len() as int), l.len() as usize, ' ');
                    assert(st matches State::DefDone(off, _) && off < l.len());
                    assert(nl matches Some(Ok(Line::Definition(k, _, _))) && k@ == l.subrange(0, st->0 as int));
                }
                if at_content && self.spec_schema() is None && definition_line(inp, p) {
                    let e = line_end(inp, p);
                    let q = self.lines.pos();
                    lemma_definition_is_line(inp, p);
                    lemma_line_end(inp, p, q - 1);
                    let l = inp.subrange(p, e);
                    lemma_scan_offsets(l, l.len() as int);
                    assert(line_state(l) is DefDone && line_state(l)->0 < l.len());
                    assert(nl matches Some(Ok(Line::Definition(k, sp, v))) && k@ == line_key(l)
                        && sp == line_separator(l) && v@ == line_value(l));
                }
                if was_first && p != q0 {
                    let q = self.lines.pos();
                    lemma_line_end(inp, p, q - 1);
                    assert(nl matches Some(Ok(l)) && (l is Blank || l is Comment));
                } else {
                    first = false;
                }
            }
            match nl {
                None => return None,
                Some(Err(e)) => return Some(Err(e)),
                Some(Ok(ln)) => {
                    match self.process_line(ln) {
                        Ok(None) => (),
                        Ok(Some(define)) => {
                            self.define = Some(define.copy());
                            return Some(Ok(define));
                        },
                        Err(e) => return Some(Err(e)),
                    }
                },
            }
        }
    }
}

/// A line the resolver skips: blank, or a comment
pub open spec fn skippable(l: Seq<char>) -> bool {
    l.len() == 0 || line_state(l) is Comment
}

/// Start of the first line at or after `p` that is not blank or a comment
pub open spec fn content_start(inp: Seq<char>, p: int) -> int
    decreases inp.len() - p,
    via content_start_decreases
{
    if p < 0 || p >= inp.len() {
        p
    } else if line_end(inp, p) < inp.len() && skippable(inp.subrange(p, line_end(inp, p))) {
        content_start(inp, line_end(inp, p) + 1)
    } else {
        p
    }
}

#[via_fn]
proof fn content_start_decreases(inp: Seq<char>, p: int) {
    if 0 <= p < inp.len() && line_end(inp, p) < inp.len() {
        lemma_line_end_is_lf(inp, p);
    }
}

/// The indent unit once a definition with key `key` is read: learned from
/// the first indented key (2, 3 or 4 spaces), then fixed
pub open spec fn learned_unit(unit: Option<usize>, key: Seq<char>) -> Result<Option<usize>, ParseError> {
    if unit is Some {
        Ok(unit)
    } else {
        match key_indent_spec(key) {
            Some(sp) => if 2 <= sp <= 4 { Ok(Some(sp as usize)) } else { Err(ParseError::InvalidIndent) },
            None => Ok(None),
        }
    }
}

/// The definition that a key, separator and value resolve to: a blank key
/// continues the current definition, another key has its depth from its
/// leading spaces
pub open spec fn resolved(unit: Option<usize>, cur: Option<DefineView>, key: Seq<char>, sep: Separator, value: Seq<char>) -> Result<DefineView, ParseError> {
    let ls = leading_spaces(key);
    if ls == key.len() {
        if cur is Some && key.len() == key_width(cur->0, unit) {
            Ok(DefineView { indent: cur->0.indent, key: cur->0.key, separator: sep, value: value })
        } else {
            Err(ParseError::InvalidIndent)
        }
    } else {
        match depth_of(ls, unit) {
            Some(n) => Ok(DefineView { indent: n as nat, key: key.subrange(ls, key.len() as int), separator: sep, value: value }),
            None => Err(ParseError::InvalidIndent),
        }
    }
}

/// The unit afterwards and the result of resolving a definition line
pub open spec fn resolve_line(unit: Option<usize>, cur: Option<DefineView>, key: Seq<char>, sep: Separator, value: Seq<char>) -> (Option<usize>, Result<DefineView, ParseError>) {
    match learned_unit(unit, key) {
        Err(e) => (unit, Err(e)),
        Ok(u) => (u, resolved(u, cur, key, sep, value)),
    }
}

/// A resolution result matches what was returned
pub open spec fn resolution_matches(res: Result<DefineView, ParseError>, r: Result<Option<Define>, ParseError>) -> bool {
    match res {
        Ok(d) => r matches Ok(Some(x)) && x@ == d,
        Err(e) => r == Err::<Option<Define>, ParseError>(e),
    }
}

/// The final scanning state of a line
pub open spec fn line_state(l: Seq<char>) -> State {
    step(scan(l, l.len() as int), l.len() as usize, ' ')
}

/// The line starting at `p` ends with a linefeed and is a definition
pub open spec fn definition_line(inp: Seq<char>, p: int) -> bool {
    0 <= p <= line_end(inp, p) < inp.len() && line_state(inp.subrange(p, line_end(inp, p))) is DefDone
}

/// The key of a definition line
pub open spec fn line_key(l: Seq<char>) -> Seq<char> {
    l.subrange(0, line_state(l)->0 as int)
}

/// The value of a definition line
pub open spec fn line_value(l: Seq<char>) -> Seq<char> {
    let off = line_state(l)->0 as int;
    l.subrange(if off + 2 <= l.len() { off + 2 } else { l.len() as int }, l.len() as int)
}

/// The separator of a definition line
pub open spec fn line_separator(l: Seq<char>) -> Separator {
    line_state(l)->1
}

/// What the next definition line of a definition iterator resolves to
pub open spec fn next_resolved(di: DefIter) -> Result<DefineView, ParseError> {
    let inp = di.input();
    let p = content_start(inp, di.consumed());
    let l = inp.subrange(p, line_end(inp, p));
    resolve_line(di.unit(), di.current(), line_key(l), line_separator(l), line_value(l)).1
}

/// The next line of a definition iterator without a schema is a definition line
pub open spec fn plain_definition_next(di: DefIter) -> bool {
    di.spec_schema() is None && definition_line(di.input(), content_start(di.input(), di.consumed()))
}

/// `b` is `a` after reading its next line, a plain definition line: the
/// position is past the line, the unit and current definition follow it
pub open spec fn stepped(a: DefIter, b: DefIter) -> bool {
    let inp = a.input();
    let p = content_start(inp, a.consumed());
    let l = inp.subrange(p, line_end(inp, p));
    let (u, res) = resolve_line(a.unit(), a.current(), line_key(l), line_separator(l), line_value(l));
    &&& b.input() == inp
    &&& b.spec_schema() is None
    &&& b.consumed() == line_end(inp, p) + 1
    &&& b.unit() == u
    &&& match res {
        Ok(d) => b.current() == Some(d),
        Err(_) => b.current() == a.current(),
    }
}

/// End of the line that starts at `p`: the index of the next linefeed, or
/// the input's length
pub open spec fn line_end(inp: Seq<char>, p: int) -> int
    decreases inp.len() - p,
{
    if p < 0 || p >= inp.len() {
        inp.len() as int
    } else if inp[p] == '\n' {
        p
    } else {
        line_end(inp, p + 1)
    }
}

proof fn lemma_line_end(inp: Seq<char>, p: int, e: int)
    requires
        0 <= p <= e < inp.len(),
        inp[e] == '\n',
        !inp.subrange(p, e).contains('\n'),
    ensures
        line_end(inp, p) == e,
    decreases e - p,
{
    if p < e {
        assert(inp.subrange(p, e)[0] == inp[p]);
        assert(inp.subrange(p + 1, e) =~= inp.subrange(p, e).drop_first());
        let t = inp.subrange(p + 1, e);
        assert(!t.contains('\n')) by {
            if t.contains('\n') {
                let k = choose|k: int| 0 <= k < t.len() && t[k] == '\n';
                assert(inp.subrange(p, e)[k + 1] == '\n');
            }
        }
        lemma_line_end(inp, p + 1, e);
    }
}

/// The line starting at `p` is a complete definition line whose key is
/// indented by a count of spaces that is no multiple of `u`
pub open spec fn misindented_line(inp: Seq<char>, p: int, u: int) -> bool {
    let e = line_end(inp, p);
    let l = inp.subrange(p, e);
    let st = step(scan(l, l.len() as int), l.len() as usize, ' ');
    &&& 0 <= p <= e < inp.len()
    &&& st matches State::DefDone(off, _) && 0 < leading_spaces(l.subrange(0, off as int)) < off
        && leading_spaces(l.subrange(0, off as int)) % u != 0
}

proof fn lemma_misindented_is_definition(inp: Seq<char>, p: int, u: int)
    requires
        misindented_line(inp, p, u),
    ensures
        inp.subrange(p, inp.len() as int).contains('\n'),
        line_end(inp, p) - p > 0,
        inp.subrange(p, line_end(inp, p)) != seq![':', ':', ':'],
{
    let e = line_end(inp, p);
    lemma_line_end_is_lf(inp, p);
    assert(inp.subrange(p, inp.len() as int)[e - p] == '\n');
    let l = inp.subrange(p, e);
    if l.len() == 0 {
        assert(scan(l, 0) == State::Start);
    }
    if l == seq![':', ':', ':'] {
        reveal_with_fuel(scan, 4);
        assert(l[0] == ':');
        assert(scan(l, 1) == State::Error(ParseError::MissingKey));
        lemma_done_absorbs(l, 1, 3);
    }
}

proof fn lemma_definition_is_line(inp: Seq<char>, p: int)
    requires
        definition_line(inp, p),
    ensures
        inp.subrange(p, inp.len() as int).contains('\n'),
        line_end(inp, p) - p > 0,
        inp.subrange(p, line_end(inp, p)) != seq![':', ':', ':'],
{
    let e = line_end(inp, p);
    lemma_line_end_is_lf(inp, p);
    assert(inp.subrange(p, inp.len() as int)[e - p] == '\n');
    let l = inp.subrange(p, e);
    if l.len() == 0 {
        assert(scan(l, 0) == State::Start);
    }
    if l == seq![':', ':', ':'] {
        reveal_with_fuel(scan, 4);
        assert(l[0] == ':');
        assert(scan(l, 1) == State::Error(ParseError::MissingKey));
        lemma_done_absorbs(l, 1, 3);
    }
}

proof fn lemma_skipped_line(inp: Seq<char>, p: int)
    requires
        0 <= p,
        content_start(inp, p) != p,
    ensures
        p < line_end(inp, p) + 1 <= inp.len(),
        inp.subrange(p, inp.len() as int).contains('\n'),
        skippable(inp.subrange(p, line_end(inp, p))),
        content_start(inp, line_end(inp, p) + 1) == content_start(inp, p),
        inp.subrange(p, line_end(inp, p)) != seq![':', ':', ':'],
{
    let e = line_end(inp, p);
    lemma_line_end_is_lf(inp, p);
    assert(inp.subrange(p, inp.len() as int)[e - p] == '\n');
    let l = inp.subrange(p, e);
    if l == seq![':', ':', ':'] {
        reveal_with_fuel(scan, 4);
        assert(l[0] == ':');
        assert(scan(l, 1) == State::Error(ParseError::MissingKey));
        lemma_done_absorbs(l, 1, 3);
    }
}

proof fn lemma_line_end_is_lf(inp: Seq<char>, p: int)
    requires
        0 <= p,
        line_end(inp, p) < inp.len(),
    ensures
        p <= line_end(inp, p),
        inp[line_end(inp, p)] == '\n',
    decreases inp.len() - p,
{
    if p < inp.len() && inp[p] != '\n' {
        lemma_line_end_is_lf(inp, p + 1);
    }
}

proof fn lemma_scan_plain_key(line: Seq<char>, k: Seq<char>, i: int)
    requires
        k.len() > 0,
        k[0] != ' ' && k[0] != '"' && k[0] != '#',
        !k.contains(':'),
        1 <= i <= k.len(),
        k.len() <= line.len(),
        line.subrange(0, k.len() as int) == k,
    ensures
        scan(line, i) == State::KeyNotQuoted,
    decreases i,
{
    assert(line[i - 1] == k[i - 1]);
    if i > 1 {
        lemma_scan_plain_key(line, k, i - 1);
        assert(k[i - 1] != ':');
    } else {
        assert(k[0] != ':');
    }
}

/// A definition line as the serializer writes it, with a key that needs no
/// quoting, scans back into the same key, separator and value
pub proof fn lemma_definition_line_round_trip(k: Seq<char>, sep: Separator, v: Seq<char>, r: Result<Line, ParseError>)
    requires
        k.len() > 0,
        k[0] != ' ' && k[0] != '"' && k[0] != '#',
        !k.contains(':'),
        k.len() + 2 + v.len() <= usize::MAX,
        line_spec(k + separator_text(sep) + v, r),
    ensures
        r matches Ok(Line::Definition(kk, s, vv)) && kk@ == k && s == sep && vv@ == v,
{
    let line = k + separator_text(sep) + v;
    let n = k.len() as int;
    assert(line.subrange(0, n) =~= k);
    lemma_scan_plain_key(line, k, n);
    assert(line[n] == ':');
    assert(scan(line, n + 1) == State::KeyColon(n as usize));
    assert(line[n + 1] == separator_text(sep)[1]);
    assert(scan(line, n + 2) == State::DefDone(n as usize, sep));
    lemma_done_absorbs(line, n + 2, line.len() as int);
    let fin = step(scan(line, line.len() as int), line.len() as usize, ' ');
    assert(fin == State::DefDone(n as usize, sep));
    assert(line.len() > 0);
    assert(line != seq![':', ':', ':']) by {
        if line == seq![':', ':', ':'] {
            assert(line[0] == k[0]);
        }
    }
    assert(line.subrange(n + 2, line.len() as int) =~= v);
    assert(line_matches(r, fin, line));
}

} // verus!
