use vstd::prelude::*;
use crate::common::{Define, DefineView, Separator};
use crate::error::{Error, ParseError};
use crate::intparse::Integer;
use crate::lines::{next_resolved, plain_definition_next, stepped, DefIter};
use crate::parse::{self, NumLiteral};
use crate::text::{chars_of, same_chars, string_of};

verus! {

/// Branch state
#[derive(Clone, Copy, Debug, PartialEq, Eq, Structural)]
pub enum BranchState {
    /// Visiting fields of branch
    Visit,
    /// Clean up branch: hand out the fields that were not present
    Cleanup,
}

/// One open record or map on the stack
pub struct Branch {
    /// Field names (empty for a map)
    fields: Vec<Vec<char>>,
    /// Flags for visited fields (same length as fields)
    visited: Vec<bool>,
    /// Branch state
    state: BranchState,
    /// Current key (should match one field)
    key: Option<Vec<char>>,
    /// List flag (applies to current key)
    list: bool,
    /// Substitute key
    substitute: Option<Vec<char>>,
}

/// A branch as plain values
pub struct BranchView {
    pub fields: Seq<Seq<char>>,
    pub visited: Seq<bool>,
    pub state: BranchState,
    pub key: Option<Seq<char>>,
    pub list: bool,
    pub substitute: Option<Seq<char>>,
}

/// View of an optional char vector
pub open spec fn opt_view(o: Option<Vec<char>>) -> Option<Seq<char>> {
    match o {
        Some(v) => Some(v@),
        None => None,
    }
}

impl View for Branch {
    type V = BranchView;

    closed spec fn view(&self) -> BranchView {
        BranchView {
            fields: self.fields@.map_values(|f: Vec<char>| f@),
            visited: self.visited@,
            state: self.state,
            key: opt_view(self.key),
            list: self.list,
            substitute: opt_view(self.substitute),
        }
    }
}

/// Copy of an optional char vector
fn copy_opt(o: &Option<Vec<char>>) -> (r: Option<Vec<char>>)
    ensures
        opt_view(r) == opt_view(*o),
{
    match o {
        Some(v) => Some(v.clone()),
        None => None,
    }
}

impl Branch {
    /// Well-formed: one visited flag per field
    pub closed spec fn wf(&self) -> bool {
        self.visited@.len() == self.fields@.len()
    }

    /// Create a new Branch with fields
    pub fn with_fields(fields: Vec<Vec<char>>) -> (r: Branch)
        ensures
            r.wf(),
            r@.fields == fields@.map_values(|f: Vec<char>| f@),
            r@.visited == Seq::new(fields@.len(), |i: int| false),
            r@.state == BranchState::Visit,
            r@.key is None && !r@.list && r@.substitute is None,
    {
        let mut visited: Vec<bool> = Vec::new();
        let mut i: usize = 0;
        while i < fields.len()
            invariant
                i <= fields@.len(),
                visited@ == Seq::new(i as nat, |j: int| false),
            decreases fields@.len() - i,
        {
            visited.push(false);
            i = i + 1;
        }
        assert(visited@ =~= Seq::new(fields@.len(), |j: int| false));
        Branch { fields, visited, state: BranchState::Visit, key: None, list: false, substitute: None }
    }

    /// Create a new Branch for a map (no declared fields)
    pub fn new() -> (r: Branch)
        ensures
            r.wf(),
            r@.fields.len() == 0 && r@.visited.len() == 0,
            r@.state == BranchState::Visit,
            r@.key is None && !r@.list && r@.substitute is None,
    {
        Branch::with_fields(Vec::new())
    }

    /// Get first field
    pub fn first_field(&self) -> (r: Option<Vec<char>>)
        ensures
            self@.fields.len() == 0 ==> r is None,
            self@.fields.len() > 0 ==> opt_view(r) == Some(self@.fields[0]),
    {
        if self.fields.len() > 0 {
            Some(self.fields[0].clone())
        } else {
            None
        }
    }

    /// Visit one field: it becomes the current key, and every field of that
    /// name is marked visited
    pub fn visit(&mut self, key: Option<Vec<char>>)
        requires
            old(self).wf(),
        ensures
            final(self).wf(),
            final(self)@.key == opt_view(key),
            final(self)@.fields == old(self)@.fields,
            final(self)@.state == old(self)@.state,
            final(self)@.list == old(self)@.list,
            final(self)@.substitute == old(self)@.substitute,
            final(self)@.visited == Seq::new(old(self)@.visited.len(), |i: int|
                old(self)@.visited[i] || opt_view(key) == Some(old(self)@.fields[i])),
    {
        let ghost old_visited = self.visited@;
        let ghost target = Seq::new(old(self)@.visited.len(), |i: int|
            old(self)@.visited[i] || opt_view(key) == Some(old(self)@.fields[i]));
        if let Some(f) = &key {
            let mut nv: Vec<bool> = Vec::new();
            let mut i: usize = 0;
            while i < self.fields.len()
                invariant
                    self.wf(),
                    self == old(self),
                    i <= self.fields@.len(),
                    old_visited == self.visited@,
                    opt_view(key) == Some(f@),
                    target.len() == self.visited@.len(),
                    target == Seq::new(old(self)@.visited.len(), |j: int|
                        old(self)@.visited[j] || opt_view(key) == Some(old(self)@.fields[j])),
                    nv@ == target.subrange(0, i as int),
                decreases self.fields@.len() - i,
            {
                let same = same_chars(self.fields[i].as_slice(), f.as_slice());
                proof {
                    assert(old(self)@.fields[i as int] == self.fields@[i as int]@);
                }
                nv.push(self.visited[i] || same);
                assert(nv@ =~= target.subrange(0, i + 1));
                i = i + 1;
            }
            self.visited = nv;
            assert(self.visited@ =~= target);
        } else {
            assert(self.visited@ =~= target);
        }
        self.key = key;
        assert(self@.visited =~= Seq::new(old(self)@.visited.len(), |i: int|
            old(self)@.visited[i] || opt_view(key) == Some(old(self)@.fields[i])));
    }

    /// Cleanup state for one field: the first unvisited field, now visited
    pub fn cleanup_visit(&mut self) -> (r: Option<Vec<char>>)
        requires
            old(self).wf(),
        ensures
            final(self).wf(),
            final(self)@.fields == old(self)@.fields,
            final(self)@.key == old(self)@.key,
            final(self)@.state == old(self)@.state,
            final(self)@.list == old(self)@.list,
            final(self)@.substitute == old(self)@.substitute,
            (old(self)@.state is Visit || forall|i: int| 0 <= i < old(self)@.visited.len() ==> old(self)@.visited[i])
                ==> r is None && final(self)@.visited == old(self)@.visited,
            old(self)@.state is Cleanup && r is Some ==> exists|i: int| {
                &&& 0 <= i < old(self)@.visited.len() && !old(self)@.visited[i]
                &&& forall|j: int| 0 <= j < i ==> old(self)@.visited[j]
                &&& opt_view(r) == Some(old(self)@.fields[i])
                &&& final(self)@.visited == old(self)@.visited.update(i, true)
            },
            old(self)@.state is Cleanup && (exists|i: int| 0 <= i < old(self)@.visited.len() && !old(self)@.visited[i])
                ==> r is Some,
    {
        if self.state == BranchState::Cleanup {
            let mut i: usize = 0;
            while i < self.fields.len()
                invariant
                    self.wf(),
                    self == old(self),
                    self.state == BranchState::Cleanup,
                    i <= self.fields@.len(),
                    forall|j: int| 0 <= j < i ==> self.visited@[j],
                decreases self.fields@.len() - i,
            {
                if !self.visited[i] {
                    self.visited.set(i, true);
                    let r = Some(self.fields[i].clone());
                    proof {
                        assert(self@.visited =~= old(self)@.visited.update(i as int, true));
                        assert(old(self)@.fields[i as int] == old(self).fields@[i as int]@);
                        assert(!old(self)@.visited[i as int]);
                        assert(forall|j: int| 0 <= j < i ==> old(self)@.visited[j]);
                    }
                    return r;
                }
                i = i + 1;
            }
        }
        None
    }

    /// Check whether all fields have been visited
    pub fn all_visited(&self) -> (r: bool)
        ensures
            r == forall|i: int| 0 <= i < self@.visited.len() ==> self@.visited[i],
    {
        let mut i: usize = 0;
        while i < self.visited.len()
            invariant
                i <= self.visited@.len(),
                forall|j: int| 0 <= j < i ==> self.visited@[j],
            decreases self.visited@.len() - i,
        {
            if !self.visited[i] {
                assert(!self@.visited[i as int]);
                return false;
            }
            i = i + 1;
        }
        true
    }

    /// Check if current field is the substitute
    pub fn is_substitute(&self) -> (r: bool)
        ensures
            r == (self@.key is Some && self@.key == self@.substitute),
    {
        match (&self.key, &self.substitute) {
            (Some(k), Some(s)) => same_chars(k.as_slice(), s.as_slice()),
            _ => false,
        }
    }
}

/// The failed-parse error of a parse error
pub open spec fn failed(e: ParseError) -> Error {
    Error::FailedParse(e)
}

/// Iterator for key/value mappings: a definition stream with one
/// definition of lookahead, and the stack of open branches
pub struct MappingIter {
    /// Define iterator
    defs: DefIter,
    /// Current define (lookahead)
    define: Option<Define>,
    /// First error met in the definition stream
    error: Option<ParseError>,
    /// Stack of nested branches
    stack: Vec<Branch>,
}

/// The stream moved on only to fill an empty lookahead, and then by at least one line
pub open spec fn advanced(a: MappingIter, b: MappingIter) -> bool {
    &&& b.input_len() == a.input_len()
    &&& b.stream().input() == a.stream().input()
    &&& a.consumed() <= b.consumed() <= b.input_len()
    &&& (a.pending() is Some ==> b.consumed() == a.consumed())
    &&& (a.pending() is None && b.pending() is Some ==> b.consumed() > a.consumed())
    &&& (a.pending() is Some || a.stream_error() is Some ==> b.stream() == a.stream()
        && b.stream_error() == a.stream_error())
    &&& (b.stream() != a.stream() ==> a.pending() is None && a.stream_error() is None
        && (plain_definition_next(a.stream()) ==> stepped(a.stream(), b.stream())))
}

/// Filling an empty lookahead from a plain definition line gives that
/// line's resolved definition, or its error
pub open spec fn fill_result(a: MappingIter, b: MappingIter) -> bool {
    a.pending() is None && a.stream_error() is None && plain_definition_next(a.stream()) ==> match next_resolved(
        a.stream(),
    ) {
        Ok(d) => b.pending() == Some(d),
        Err(e) => b.stream_error() == Some(e) && b.pending() is None,
    }
}

/// `:>` rows read after a first value: each continues the top key, and
/// where its stream was at a plain definition line, it is that line's
/// definition and the stream moved past it
pub open spec fn text_rows(bs: Seq<BranchView>, rows: Seq<DefineView>, streams: Seq<DefIter>) -> bool {
    &&& streams.len() == rows.len() + 1
    &&& forall|k: int| 0 <= k < rows.len() ==> text_append_of(bs, Some(#[trigger] rows[k]))
    &&& forall|k: int| 0 <= k < rows.len() && plain_definition_next(#[trigger] streams[k]) ==> next_resolved(streams[k])
        == Ok::<DefineView, ParseError>(rows[k]) && stepped(streams[k], streams[k + 1])
}

proof fn lemma_advanced_trans(a: MappingIter, m: MappingIter, b: MappingIter)
    requires
        advanced(a, m),
        advanced(m, b),
        fill_result(a, m),
        a.pending() is Some ==> m.pending() == a.pending(),
    ensures
        advanced(a, b),
{
}

/// View of an optional definition
pub open spec fn opt_define(o: Option<Define>) -> Option<DefineView> {
    match o {
        Some(d) => Some(d@),
        None => None,
    }
}

impl MappingIter {
    /// The lookahead definition
    pub closed spec fn pending(&self) -> Option<DefineView> {
        opt_define(self.define)
    }

    /// The error met in the definition stream, if any
    pub closed spec fn stream_error(&self) -> Option<ParseError> {
        self.error
    }

    /// How much of the input was read
    pub closed spec fn consumed(&self) -> int {
        self.defs.consumed()
    }

    /// The definition stream
    pub closed spec fn stream(&self) -> DefIter {
        self.defs
    }

    /// Length of the input
    pub closed spec fn input_len(&self) -> int {
        self.defs.input().len() as int
    }

    /// The open branches, outermost first
    pub closed spec fn branches(&self) -> Seq<BranchView> {
        self.stack@.map_values(|b: Branch| b@)
    }

    /// Well-formed: the stream is, every branch is, and no lookahead after an error
    pub closed spec fn wf(&self) -> bool {
        &&& self.defs.wf()
        &&& self.defs.consumed() <= self.defs.input().len()
        &&& forall|i: int| 0 <= i < self.stack@.len() ==> (#[trigger] self.stack@[i]).wf()
        &&& (self.error is Some ==> self.define is None)
    }

    /// The top branch is collecting a list
    pub open spec fn top_is_list(&self) -> bool {
        self.branches().len() > 0 && self.branches().last().list
    }

    /// Create a new key/value mapping iterator
    pub fn new(input: &str) -> (r: MappingIter)
        ensures
            r.wf(),
            r.stream().input() == input@,
            r.stream().spec_schema() is None,
            r.stream().unit() is None,
            r.stream().current() is None,
            r.consumed() == 0,
            r.pending() is None,
            r.stream_error() is None,
            r.branches().len() == 0,
    {
        let chars = chars_of(input);
        let r = MappingIter { defs: DefIter::new(chars), define: None, error: None, stack: Vec::new() };
        assert(r.branches() =~= Seq::<BranchView>::empty());
        r
    }

    /// Pull the next definition into the lookahead, if it is empty
    fn fill(&mut self)
        requires
            old(self).wf(),
        ensures
            old(self).pending() is None && old(self).stream_error() is None && plain_definition_next(old(self).stream())
                ==> match next_resolved(old(self).stream()) {
                    Ok(d) => final(self).pending() == Some(d),
                    Err(e) => final(self).stream_error() == Some(e) && final(self).pending() is None,
                },
            advanced(*old(self), *final(self)),
            final(self).wf(),
            final(self).branches() == old(self).branches(),
            final(self).stack@ == old(self).stack@,
            old(self).pending() is Some || old(self).stream_error() is Some ==> final(self).pending()
                == old(self).pending() && final(self).stream_error() == old(self).stream_error(),
            old(self).stream_error() is Some ==> final(self).stream_error() == old(self).stream_error(),
    {
        if self.define.is_none() && self.error.is_none() {
            match self.defs.next() {
                Some(Ok(d)) => {
                    self.define = Some(d);
                },
                Some(Err(e)) => {
                    self.error = Some(e);
                },
                None => (),
            }
        }
    }

    /// Peek at next define
    pub fn peek(&mut self) -> (r: Result<Option<Define>, Error>)
        requires
            old(self).wf(),
        ensures
            old(self).pending() is None && old(self).stream_error() is None && plain_definition_next(old(self).stream())
                ==> match next_resolved(old(self).stream()) {
                    Ok(d) => final(self).pending() == Some(d),
                    Err(e) => final(self).stream_error() == Some(e) && final(self).pending() is None,
                },
            advanced(*old(self), *final(self)),
            final(self).wf(),
            final(self).branches() == old(self).branches(),
            final(self).stream_error() matches Some(e) ==> r == Err::<Option<Define>, Error>(failed(e)),
            final(self).stream_error() is None ==> (r matches Ok(o) && opt_define(o) == final(self).pending()),
            old(self).pending() is Some ==> final(self).pending() == old(self).pending(),
    {
        self.fill();
        match self.error {
            Some(e) => Err(Error::FailedParse(e)),
            None => match &self.define {
                Some(d) => Ok(Some(d.copy())),
                None => Ok(None),
            },
        }
    }

    /// Take the next define; in a list, a `: ` value yields one space-separated
    /// element at a time
    pub fn next(&mut self) -> (r: Option<Define>)
        requires
            old(self).wf(),
        ensures
            old(self).pending() is None && old(self).stream_error() is None && plain_definition_next(old(self).stream())
                ==> match next_resolved(old(self).stream()) {
                    Ok(d) => r is Some && next_taken(d, old(self).top_is_list(), r->0@, final(self).pending()),
                    Err(e) => r is None && final(self).stream_error() == Some(e),
                },
            advanced(*old(self), *final(self)),
            final(self).wf(),
            final(self).branches() == old(self).branches(),
            old(self).pending() matches Some(d) ==> r is Some && next_taken(d, old(self).top_is_list(),
                r->0@, final(self).pending()),
    {
        self.fill();
        if self.is_list() {
            self.next_list()
        } else {
            let r = self.define.take();
            r
        }
    }

    /// Get the next define in a list
    fn next_list(&mut self) -> (r: Option<Define>)
        requires
            old(self).wf(),
        ensures
            advanced(*old(self), *final(self)),
            final(self).wf(),
            final(self).branches() == old(self).branches(),
            final(self).stack@ == old(self).stack@,
            final(self).stream_error() == old(self).stream_error(),
            old(self).pending() is None ==> r is None && final(self).pending() is None,
            old(self).pending() matches Some(d) ==> r is Some && next_taken(d, true, r->0@, final(self).pending()),
    {
        match self.define.take() {
            Some(define) => {
                if define.separator == Separator::Normal {
                    let (d0, d1) = define.split_list();
                    self.define = d1;
                    Some(d0)
                } else {
                    Some(define)
                }
            },
            None => None,
        }
    }

    /// Push branch onto the stack
    pub fn push_stack(&mut self, branch: Branch)
        requires
            old(self).wf(),
            branch.wf(),
        ensures
            final(self).stream() == old(self).stream(),
            final(self).consumed() == old(self).consumed(),
            final(self).input_len() == old(self).input_len(),
            final(self).wf(),
            final(self).branches() == old(self).branches().push(branch@),
            final(self).pending() == old(self).pending(),
            final(self).stream_error() == old(self).stream_error(),
    {
        self.stack.push(branch);
        assert(self.branches() =~= old(self).branches().push(branch@));
    }

    /// Pop from the branch stack
    pub fn pop_stack(&mut self)
        requires
            old(self).wf(),
        ensures
            final(self).stream() == old(self).stream(),
            final(self).consumed() == old(self).consumed(),
            final(self).input_len() == old(self).input_len(),
            final(self).wf(),
            old(self).branches().len() > 0 ==> final(self).branches() == old(self).branches().drop_last(),
            old(self).branches().len() == 0 ==> final(self).branches() == old(self).branches(),
            final(self).pending() == old(self).pending(),
            final(self).stream_error() == old(self).stream_error(),
    {
        let _ = self.stack.pop();
        assert(old(self).branches().len() > 0 ==> self.branches() =~= old(self).branches().drop_last());
        assert(old(self).branches().len() == 0 ==> self.branches() =~= old(self).branches());
    }
}

/// What taking a definition from the lookahead gives: outside a list, or for
/// a `:>` / `:=` row, the whole definition; in a list, a `: ` row yields its
/// value up to the first space and keeps the rest as lookahead
pub open spec fn next_taken(d: DefineView, list: bool, r: DefineView, rest: Option<DefineView>) -> bool {
    if list && d.separator == Separator::Normal && d.value.contains(' ') {
        &&& r.indent == d.indent && r.key == d.key && r.separator == d.separator
        &&& !r.value.contains(' ')
        &&& rest matches Some(t) && t.indent == d.indent && t.key == d.key && t.separator == d.separator
            && d.value == r.value + seq![' '] + t.value
    } else {
        r == d && rest is None
    }
}

impl MappingIter {
    /// Check if the current define is in a list
    pub fn is_list(&self) -> (r: bool)
        ensures
            r == self.top_is_list(),
    {
        if self.stack.len() > 0 {
            self.stack[self.stack.len() - 1].list
        } else {
            false
        }
    }
}

/// The top branch's view, replaced
pub open spec fn with_top(bs: Seq<BranchView>, b: BranchView) -> Seq<BranchView> {
    bs.drop_last().push(b)
}

impl MappingIter {
    /// Check record substitute: a record whose key line holds a value takes
    /// that value as its first field
    pub fn check_substitute(&mut self)
        requires
            old(self).wf(),
        ensures
            final(self).stream() == old(self).stream(),
            final(self).consumed() == old(self).consumed(),
            final(self).input_len() == old(self).input_len(),
            final(self).wf(),
            final(self).stream_error() == old(self).stream_error(),
            final(self).branches().len() == old(self).branches().len(),
            ({
                let bs = old(self).branches();
                let n = bs.len();
                if n > 0 && bs.last().fields.len() > 0 && old(self).pending() is Some {
                    let d = old(self).pending()->0;
                    if d.value.len() > 0 {
                        &&& final(self).branches() == with_top(bs, BranchView {
                            substitute: Some(bs.last().fields[0]),
                            ..bs.last()
                        })
                        &&& final(self).pending() == Some(DefineView {
                            indent: (n - 1) as nat,
                            key: bs.last().fields[0],
                            separator: d.separator,
                            value: d.value,
                        })
                    } else {
                        final(self).branches() == bs && final(self).pending() is None
                    }
                } else {
                    final(self).branches() == bs && final(self).pending() == old(self).pending()
                }
            }),
    {
        let indent = self.stack.len();
        if indent == 0 {
            return;
        }
        let mut branch = self.stack.pop().unwrap();
        proof {
            assert(old(self).stack@[indent - 1] == branch);
        }
        if let Some(key) = branch.first_field() {
            if let Some(define) = self.define.take() {
                if define.value.len() > 0 {
                    branch.substitute = Some(key.clone());
                    self.define = Some(Define::new(indent - 1, key, define.separator, define.value));
                }
            }
        }
        self.stack.push(branch);
        proof {
            assert(self.stack@ =~= old(self).stack@.drop_last().push(branch));
            assert(self.branches() =~= with_top(old(self).branches(), branch@));
            assert(old(self).branches().drop_last().push(old(self).branches().last()) =~= old(self).branches());
        }
    }

    /// Set the current key of the top branch
    pub fn set_key(&mut self, key: Option<Vec<char>>)
        requires
            old(self).wf(),
        ensures
            final(self).stream() == old(self).stream(),
            final(self).consumed() == old(self).consumed(),
            final(self).input_len() == old(self).input_len(),
            final(self).wf(),
            final(self).pending() == old(self).pending(),
            final(self).stream_error() == old(self).stream_error(),
            final(self).branches().len() == old(self).branches().len(),
            old(self).branches().len() == 0 ==> final(self).branches() == old(self).branches(),
            old(self).branches().len() > 0 ==> {
                let b = old(self).branches().last();
                final(self).branches() == with_top(old(self).branches(), BranchView {
                    key: opt_view(key),
                    visited: Seq::new(b.visited.len(), |i: int| b.visited[i] || opt_view(key) == Some(b.fields[i])),
                    ..b
                })
            },
    {
        if self.stack.len() > 0 {
            let mut branch = self.stack.pop().unwrap();
            proof {
                assert(old(self).stack@[old(self).stack@.len() - 1] == branch);
            }
            branch.visit(key);
            self.stack.push(branch);
            proof {
                assert(self.branches() =~= with_top(old(self).branches(), branch@));
            }
        }
    }

    /// Set the list flag of the top branch
    pub fn set_list(&mut self, list: bool)
        requires
            old(self).wf(),
        ensures
            final(self).stream() == old(self).stream(),
            final(self).consumed() == old(self).consumed(),
            final(self).input_len() == old(self).input_len(),
            final(self).wf(),
            final(self).pending() == old(self).pending(),
            final(self).stream_error() == old(self).stream_error(),
            old(self).branches().len() == 0 ==> final(self).branches() == old(self).branches(),
            old(self).branches().len() > 0 ==> final(self).branches() == with_top(old(self).branches(),
                BranchView { list: list, ..old(self).branches().last() }),
    {
        if self.stack.len() > 0 {
            let mut branch = self.stack.pop().unwrap();
            proof {
                assert(old(self).stack@[old(self).stack@.len() - 1] == branch);
            }
            branch.list = list;
            self.stack.push(branch);
            proof {
                assert(self.branches() =~= with_top(old(self).branches(), branch@));
            }
        }
    }

    /// Check whether the next definition is nested right in the top branch
    pub fn check_indent(&mut self) -> (r: Result<bool, Error>)
        requires
            old(self).wf(),
        ensures
            fill_result(*old(self), *final(self)),
            advanced(*old(self), *final(self)),
            final(self).wf(),
            final(self).branches() == old(self).branches(),
            old(self).pending() is Some ==> final(self).pending() == old(self).pending(),
            final(self).stream_error() matches Some(e) ==> r == Err::<bool, Error>(failed(e)),
            final(self).stream_error() is None ==> r == Ok::<bool, Error>(
                final(self).pending() matches Some(d) && d.indent + 1 == final(self).branches().len()),
    {
        match self.peek() {
            Ok(Some(define)) => Ok(define.check_indent(self.stack.len())),
            Ok(None) => Ok(false),
            Err(e) => Err(e),
        }
    }

    /// Get state of the top branch (`Cleanup` when there is none)
    pub fn branch_state(&self) -> (r: BranchState)
        ensures
            self.branches().len() == 0 ==> r == BranchState::Cleanup,
            self.branches().len() > 0 ==> r == self.branches().last().state,
    {
        if self.stack.len() > 0 {
            self.stack[self.stack.len() - 1].state
        } else {
            BranchState::Cleanup
        }
    }
}

/// Every field of a branch was visited
pub open spec fn all_done(b: BranchView) -> bool {
    forall|i: int| 0 <= i < b.visited.len() ==> b.visited[i]
}

impl MappingIter {
    /// Check whether the top branch is done: once the next definition is not
    /// nested in it, it goes to cleanup, and it is done when no field is left
    pub fn check_branch_done(&mut self) -> (r: Result<bool, Error>)
        requires
            old(self).wf(),
        ensures
            fill_result(*old(self), *final(self)),
            advanced(*old(self), *final(self)),
            final(self).wf(),
            old(self).pending() is Some ==> final(self).pending() == old(self).pending(),
            final(self).branches().len() == old(self).branches().len(),
            final(self).stream_error() matches Some(e) ==> r == Err::<bool, Error>(failed(e))
                && final(self).branches() == old(self).branches(),
            final(self).stream_error() is None ==> ({
                let bs = old(self).branches();
                let nested = final(self).pending() matches Some(d) && d.indent + 1 == bs.len();
                if bs.len() == 0 {
                    r == Ok::<bool, Error>(true) && final(self).branches() == bs
                } else {
                    let b = if nested { bs.last() } else { BranchView { state: BranchState::Cleanup, ..bs.last() } };
                    &&& final(self).branches() == with_top(bs, b)
                    &&& r == Ok::<bool, Error>(b.state == BranchState::Cleanup && all_done(b))
                }
            }),
    {
        let nested = match self.check_indent() {
            Ok(n) => n,
            Err(e) => return Err(e),
        };
        let ghost st = self.stack@;
        if self.stack.len() > 0 {
            let mut branch = self.stack.pop().unwrap();
            proof {
                assert(st[st.len() - 1] == branch);
                assert(old(self).branches().last() == branch@);
            }
            if !nested {
                branch.state = BranchState::Cleanup;
            }
            let done = branch.state == BranchState::Cleanup && branch.all_visited();
            self.stack.push(branch);
            proof {
                assert(self.stack@ =~= st.drop_last().push(branch));
                assert(self.branches() =~= with_top(old(self).branches(), branch@));
                if nested {
                    assert(old(self).branches().drop_last().push(old(self).branches().last()) =~= old(self).branches());
                }
            }
            Ok(done)
        } else {
            Ok(true)
        }
    }

    /// Check that the next definition has the top branch's current key
    pub fn check_key(&mut self) -> (r: Result<bool, Error>)
        requires
            old(self).wf(),
        ensures
            advanced(*old(self), *final(self)),
            final(self).wf(),
            final(self).branches() == old(self).branches(),
            old(self).pending() is Some ==> final(self).pending() == old(self).pending(),
            r is Err ==> (final(self).stream_error() matches Some(e) && r == Err::<bool, Error>(failed(e))),
            r is Ok ==> r == Ok::<bool, Error>(old(self).branches().len() > 0
                && (old(self).branches().last().key matches Some(k)
                && (final(self).pending() matches Some(d) && d.key == k))),
            old(self).branches().len() == 0 || old(self).branches().last().key is None
                ==> r == Ok::<bool, Error>(false) && final(self).pending() == old(self).pending(),
    {
        if self.stack.len() > 0 {
            let n = self.stack.len();
            if let Some(k) = &self.stack[n - 1].key {
                let k = k.clone();
                match self.peek() {
                    Ok(Some(define)) => return Ok(same_chars(define.key.as_slice(), k.as_slice())),
                    Ok(None) => return Ok(false),
                    Err(e) => return Err(e),
                }
            }
        }
        Ok(false)
    }

    /// Check if the next definition continues the current key
    pub fn is_append(&mut self) -> (r: Result<bool, Error>)
        requires
            old(self).wf(),
        ensures
            fill_result(*old(self), *final(self)),
            final(self).stream_error() matches Some(e) ==> r == Err::<bool, Error>(failed(e)),
            advanced(*old(self), *final(self)),
            final(self).wf(),
            final(self).branches() == old(self).branches(),
            old(self).pending() is Some ==> final(self).pending() == old(self).pending(),
            r is Err ==> (final(self).stream_error() matches Some(e) && r == Err::<bool, Error>(failed(e))),
            r is Ok ==> r == Ok::<bool, Error>(final(self).pending() matches Some(d)
                && d.indent + 1 == old(self).branches().len()
                && old(self).branches().last().key == Some(d.key)),
    {
        let nested = match self.check_indent() {
            Ok(n) => n,
            Err(e) => return Err(e),
        };
        if !nested {
            return Ok(false);
        }
        self.check_key()
    }

    /// Check if the next definition is a text append (`:>`)
    pub fn is_separator_text_append(&mut self) -> (r: Result<bool, Error>)
        requires
            old(self).wf(),
        ensures
            final(self).stream_error() matches Some(e) ==> r == Err::<bool, Error>(failed(e)),
            fill_result(*old(self), *final(self)),
            advanced(*old(self), *final(self)),
            final(self).wf(),
            final(self).branches() == old(self).branches(),
            old(self).pending() is Some ==> final(self).pending() == old(self).pending(),
            r is Err ==> (final(self).stream_error() matches Some(e) && r == Err::<bool, Error>(failed(e))),
            r is Ok ==> r == Ok::<bool, Error>(final(self).pending() matches Some(d)
                && d.separator == Separator::TextAppend),
    {
        match self.peek() {
            Ok(Some(define)) => Ok(define.separator == Separator::TextAppend),
            Ok(None) => Ok(false),
            Err(e) => Err(e),
        }
    }

    /// Check if the next definition appends text to the current key
    pub fn is_text_append(&mut self) -> (r: Result<bool, Error>)
        requires
            old(self).wf(),
        ensures
            final(self).stream_error() matches Some(e) ==> r == Err::<bool, Error>(failed(e)),
            fill_result(*old(self), *final(self)),
            advanced(*old(self), *final(self)),
            final(self).wf(),
            final(self).branches() == old(self).branches(),
            old(self).pending() is Some ==> final(self).pending() == old(self).pending(),
            r is Err ==> (final(self).stream_error() matches Some(e) && r == Err::<bool, Error>(failed(e))),
            r is Ok ==> r == Ok::<bool, Error>(final(self).pending() matches Some(d)
                && d.indent + 1 == old(self).branches().len()
                && old(self).branches().last().key == Some(d.key)
                && d.separator == Separator::TextAppend),
    {
        let a = match self.is_append() {
            Ok(a) => a,
            Err(e) => return Err(e),
        };
        if !a {
            return Ok(false);
        }
        self.is_separator_text_append()
    }
}

/// Value of a bool literal
pub open spec fn bool_of(v: Seq<char>) -> Option<bool> {
    if v == seq!['t', 'r', 'u', 'e'] {
        Some(true)
    } else if v == seq!['f', 'a', 'l', 's', 'e'] {
        Some(false)
    } else {
        None
    }
}

/// Structure that deserializes MuON: the branch-stack interpreter that host
/// bindings drive (enter a record, a list or a map, read keys and scalars)
pub struct Deserializer {
    mappings: MappingIter,
}

impl Deserializer {
    /// The mapping iterator's state
    pub closed spec fn state(&self) -> MappingIter {
        self.mappings
    }

    /// Well-formed state
    pub closed spec fn wf(&self) -> bool {
        self.mappings.wf()
    }

    /// Create a Deserializer from a string slice
    pub fn new(input: &str) -> (r: Deserializer)
        ensures
            r.wf(),
            r.state().stream().input() == input@,
            r.state().stream().spec_schema() is None,
            r.state().stream().unit() is None,
            r.state().stream().current() is None,
            r.state().consumed() == 0,
            r.state().stream_error() is None,
            r.state().branches().len() == 0,
            r.state().pending() is None,
    {
        Deserializer { mappings: MappingIter::new(input) }
    }

    /// A definition, or the error for its absence: the stream's error, or
    /// `ExpectedMore` at the end of input
    fn define_result(&self, define: Option<Define>) -> (r: Result<Define, Error>)
        ensures
            define matches Some(d) ==> (r matches Ok(x) && x@ == d@),
            define is None ==> (self.mappings.stream_error() matches Some(e) ==> r == Err::<Define, Error>(failed(e))),
            define is None && self.mappings.stream_error() is None
                ==> r == Err::<Define, Error>(failed(ParseError::ExpectedMore)),
    {
        match define {
            Some(define) => Ok(define),
            None => match self.mappings.error {
                Some(e) => Err(Error::FailedParse(e)),
                None => Err(Error::FailedParse(ParseError::ExpectedMore)),
            },
        }
    }

    /// Peek the current key
    pub fn peek_key(&mut self) -> (r: Result<String, Error>)
        requires
            old(self).wf(),
        ensures
            advanced(old(self).state(), final(self).state()),
            old(self).state().pending() is Some ==> final(self).state().pending() == old(self).state().pending(),
            final(self).wf(),
            final(self).state().branches() == old(self).state().branches(),
            old(self).state().pending() matches Some(d) ==> (r matches Ok(k) && k@ == d.key),
            r matches Ok(k) ==> (final(self).state().pending() matches Some(d) && k@ == d.key),
    {
        let def = match self.mappings.peek() {
            Ok(d) => d,
            Err(e) => return Err(e),
        };
        match self.define_result(def) {
            Ok(d) => Ok(string_of(d.key.as_slice())),
            Err(e) => Err(e),
        }
    }

    /// Take the current value
    fn get_value(&mut self) -> (r: Result<Vec<char>, Error>)
        requires
            old(self).wf(),
        ensures
            advanced(old(self).state(), final(self).state()),
            final(self).wf(),
            final(self).state().branches() == old(self).state().branches(),
            old(self).state().pending() matches Some(d) ==> (r matches Ok(v) && exists|t: DefineView|
                next_taken(d, old(self).state().top_is_list(), t, final(self).state().pending()) && v@ == t.value),
    {
        let def = self.mappings.next();
        match self.define_result(def) {
            Ok(d) => Ok(d.value),
            Err(e) => Err(e),
        }
    }

    /// Parse a bool value
    pub fn parse_bool(&mut self) -> (r: Result<bool, Error>)
        requires
            old(self).wf(),
        ensures
            final(self).wf(),
            final(self).state().branches() == old(self).state().branches(),
            advanced(old(self).state(), final(self).state()),
            old(self).state().pending() matches Some(d) ==> exists|t: DefineView|
                next_taken(d, old(self).state().top_is_list(), t, final(self).state().pending())
                && r == match bool_of(t.value) {
                Some(b) => Ok::<bool, Error>(b),
                None => Err(failed(ParseError::ExpectedBool)),
            },
    {
        let v = match self.get_value() {
            Ok(v) => v,
            Err(e) => return Err(e),
        };
        let ghost t = choose|t: DefineView| next_taken(old(self).mappings.pending()->0,
            old(self).mappings.top_is_list(), t, self.mappings.pending()) && v@ == t.value;
        match parse::bool(string_of(v.as_slice()).as_str()) {
            Some(b) => Ok(b),
            None => Err(Error::FailedParse(ParseError::ExpectedBool)),
        }
    }

    /// Parse an int value
    pub fn parse_int<T: Integer>(&mut self) -> (r: Result<T, Error>)
        requires
            old(self).wf(),
        ensures
            final(self).wf(),
            final(self).state().branches() == old(self).state().branches(),
            advanced(old(self).state(), final(self).state()),
            old(self).state().pending() matches Some(d) ==> exists|t: DefineView|
                next_taken(d, old(self).state().top_is_list(), t, final(self).state().pending()) && (
                (r is Ok <==> (parse::int_literal(t.value) matches Some((neg, m)) && crate::intparse::fits::<T>(neg, m)))
                && (r matches Ok(x) ==> (parse::int_literal(t.value) matches Some((neg, m))
                    && x.to_int() == crate::intparse::signed_value(neg, m)))
                && (r is Err ==> r == Err::<T, Error>(failed(ParseError::ExpectedInt)))),
    {
        let v = match self.get_value() {
            Ok(v) => v,
            Err(e) => return Err(e),
        };
        let ghost t = choose|t: DefineView| next_taken(old(self).mappings.pending()->0,
            old(self).mappings.top_is_list(), t, self.mappings.pending()) && v@ == t.value;
        match parse::integer::<T>(string_of(v.as_slice()).as_str()) {
            Some(x) => Ok(x),
            None => Err(Error::FailedParse(ParseError::ExpectedInt)),
        }
    }

    /// Parse a number value; the conversion to floating point is the caller's
    pub fn parse_number(&mut self) -> (r: Result<NumLiteral, Error>)
        requires
            old(self).wf(),
        ensures
            final(self).wf(),
            final(self).state().branches() == old(self).state().branches(),
            advanced(old(self).state(), final(self).state()),
            old(self).state().pending() matches Some(d) ==> exists|t: DefineView|
                next_taken(d, old(self).state().top_is_list(), t, final(self).state().pending()) && (
                (r is Err <==> parse::number_literal_rejected(t.value))
                && (r is Err ==> r == Err::<NumLiteral, Error>(failed(ParseError::ExpectedNumber)))
                && parse::number_result(t.value, match r { Ok(n) => Some(n), Err(_) => None::<NumLiteral> })),
    {
        let v = match self.get_value() {
            Ok(v) => v,
            Err(e) => return Err(e),
        };
        let ghost t = choose|t: DefineView| next_taken(old(self).mappings.pending()->0,
            old(self).mappings.top_is_list(), t, self.mappings.pending()) && v@ == t.value;
        match parse::number(string_of(v.as_slice()).as_str()) {
            Some(n) => Ok(n),
            None => Err(Error::FailedParse(ParseError::ExpectedNumber)),
        }
    }
}

/// Lines of text joined with linefeeds
pub open spec fn join_lines(vals: Seq<Seq<char>>) -> Seq<char>
    decreases vals.len(),
{
    if vals.len() <= 1 {
        if vals.len() == 1 { vals[0] } else { Seq::empty() }
    } else {
        join_lines(vals.drop_last()) + seq!['\n'] + vals.last()
    }
}

/// Size of the lookahead, for progress
pub open spec fn pending_size(m: MappingIter) -> int {
    match m.pending() {
        Some(d) => d.value.len() as int + 1,
        None => 0,
    }
}

/// Append chars to a vector
fn extend_chars(v: &mut Vec<char>, s: &Vec<char>)
    ensures
        final(v)@ == old(v)@ + s@,
{
    let mut i: usize = 0;
    while i < s.len()
        invariant
            i <= s@.len(),
            v@ == old(v)@ + s@.subrange(0, i as int),
        decreases s@.len() - i,
    {
        v.push(s[i]);
        i = i + 1;
    }
}

proof fn lemma_taken_smaller(d: DefineView, list: bool, t: DefineView, rest: Option<DefineView>)
    requires
        next_taken(d, list, t, rest),
    ensures
        match rest {
            Some(x) => x.value.len() < d.value.len(),
            None => true,
        },
{
    if list && d.separator == Separator::Normal && d.value.contains(' ') {
        let x = rest->0;
        assert(d.value.len() == t.value.len() + 1 + x.value.len());
    }
}

impl Deserializer {
    /// Parse a text value: the value, and each following `:>` row of the same
    /// key on a new line
    pub fn parse_text(&mut self) -> (r: Result<String, Error>)
        requires
            old(self).wf(),
        ensures
            final(self).wf(),
            final(self).state().branches() == old(self).state().branches(),
            r matches Ok(t) ==> exists|vals: Seq<Seq<char>>| {
                &&& vals.len() >= 1
                &&& t@ == join_lines(vals)
                &&& (!old(self).state().top_is_list() ==> (old(self).state().pending() matches Some(d)
                    ==> vals[0] == d.value))
            },
            r is Ok ==> !text_append_of(old(self).state().branches(), final(self).state().pending()),
            old(self).state().pending() is Some && r is Err ==> final(self).state().stream_error() is Some,
            !old(self).state().top_is_list() ==> (old(self).state().pending() matches Some(d) ==> (r matches Ok(t)
                ==> exists|vals: Seq<Seq<char>>, rows: Seq<DefineView>, streams: Seq<DefIter>| {
                &&& vals.len() == rows.len() + 1 && vals[0] == d.value
                &&& forall|k: int| 0 <= k < rows.len() ==> vals[k + 1] == (#[trigger] rows[k]).value
                &&& t@ == join_lines(vals)
                &&& text_rows(old(self).state().branches(), rows, streams)
                &&& streams[0] == old(self).state().stream()
                &&& plain_definition_next(streams.last()) ==> (next_resolved(streams.last()) matches Ok(x)
                    && final(self).state().pending() == Some(x) && stepped(streams.last(), final(self).state().stream()))
            })),
    {
        let ghost first_list = self.mappings.top_is_list();
        let ghost first_pending = self.mappings.pending();
        let ghost mut rows: Seq<DefineView> = Seq::empty();
        let ghost mut streams: Seq<DefIter> = seq![self.mappings.stream()];
        let mut val = match self.get_value() {
            Ok(v) => v,
            Err(e) => return Err(e),
        };
        let ghost mut vals: Seq<Seq<char>> = seq![val@];
        proof {
            if !first_list && first_pending is Some {
                let d = first_pending->0;
                let t = choose|t: DefineView| next_taken(d, first_list, t, self.mappings.pending()) && val@ == t.value;
                assert(t == d);
            }
        }
        let mut value: Vec<char> = Vec::new();
        loop
            invariant_except_break
                !first_list && first_pending is Some ==> {
                    &&& streams.last() == self.mappings.stream()
                    &&& self.mappings.pending() is None
                    &&& self.mappings.stream_error() is None
                },
            invariant
                self.wf(),
                self.state().branches() == old(self).state().branches(),
                vals.len() >= 1,
                value@ + val@ == join_lines(vals),
                !first_list ==> (first_pending matches Some(d) ==> vals[0] == d.value),
                !first_list && first_pending is Some ==> {
                    &&& vals.len() == rows.len() + 1
                    &&& forall|k: int| 0 <= k < rows.len() ==> vals[k + 1] == (#[trigger] rows[k]).value
                    &&& text_rows(old(self).state().branches(), rows, streams)
                    &&& streams[0] == old(self).state().stream()
                    &&& !self.mappings.top_is_list()
                },
            ensures
                self.wf(),
                self.state().branches() == old(self).state().branches(),
                vals.len() >= 1,
                value@ + val@ == join_lines(vals),
                !first_list ==> (first_pending matches Some(d) ==> vals[0] == d.value),
                !text_append_of(old(self).state().branches(), self.mappings.pending()),
                !first_list && first_pending is Some ==> {
                    &&& vals.len() == rows.len() + 1
                    &&& forall|k: int| 0 <= k < rows.len() ==> vals[k + 1] == (#[trigger] rows[k]).value
                    &&& text_rows(old(self).state().branches(), rows, streams)
                    &&& streams[0] == old(self).state().stream()
                    &&& (plain_definition_next(streams.last()) ==> (next_resolved(streams.last()) matches Ok(x)
                        && self.mappings.pending() == Some(x) && stepped(streams.last(), self.mappings.stream())))
                },
            decreases self.mappings.input_len() - self.mappings.consumed(), pending_size(self.mappings),
        {
            let ghost m0 = self.mappings;
            let more = match self.mappings.is_text_append() {
                Ok(m) => m,
                Err(e) => return Err(e),
            };
            if !more {
                break;
            }
            let ghost m1 = self.mappings;
            extend_chars(&mut value, &val);
            value.push('\n');
            val = match self.get_value() {
                Ok(v) => v,
                Err(e) => return Err(e),
            };
            proof {
                let d = m1.pending()->0;
                let t = choose|t: DefineView| next_taken(d, m1.top_is_list(), t, self.mappings.pending()) && val@ == t.value;
                lemma_taken_smaller(d, m1.top_is_list(), t, self.mappings.pending());
                let nv = vals.push(val@);
                assert(nv.drop_last() =~= vals);
                assert(value@ + val@ =~= join_lines(nv));
                vals = nv;
                if !first_list && first_pending is Some {
                    assert(t == d);
                    let nr = rows.push(d);
                    let ns = streams.push(m1.stream());
                    assert forall|k: int| 0 <= k < nr.len() implies text_append_of(old(self).state().branches(),
                        Some(#[trigger] nr[k])) by {
                        if k < rows.len() {
                            assert(nr[k] == rows[k]);
                        }
                    }
                    assert forall|k: int| 0 <= k < nr.len() && plain_definition_next(#[trigger] ns[k]) implies
                        next_resolved(ns[k]) == Ok::<DefineView, ParseError>(nr[k]) && stepped(ns[k], ns[k + 1]) by {
                        if k < rows.len() {
                            assert(nr[k] == rows[k] && ns[k] == streams[k]);
                            if k + 1 < streams.len() {
                                assert(ns[k + 1] == streams[k + 1]);
                            }
                        }
                    }
                    assert forall|k: int| 0 <= k < nr.len() implies nv[k + 1] == (#[trigger] nr[k]).value by {
                        if k < rows.len() {
                            assert(nr[k] == rows[k]);
                        }
                    }
                    rows = nr;
                    streams = ns;
                }
            }
        }
        extend_chars(&mut value, &val);
        Ok(string_of(value.as_slice()))
    }
}

/// `i` is the first field of the branch not visited yet
pub open spec fn first_unvisited(b: BranchView, i: int) -> bool {
    &&& 0 <= i < b.visited.len() && !b.visited[i]
    &&& forall|j: int| 0 <= j < i ==> b.visited[j]
}

/// The lookahead is nested right inside the open branches
pub open spec fn nested_in(bs: Seq<BranchView>, p: Option<DefineView>) -> bool {
    p matches Some(d) && d.indent + 1 == bs.len()
}

/// The top branch once the lookahead has been checked: it goes to cleanup
/// when the lookahead is not nested in it
pub open spec fn checked_top(bs: Seq<BranchView>, p: Option<DefineView>) -> BranchView {
    if nested_in(bs, p) { bs.last() } else { BranchView { state: BranchState::Cleanup, ..bs.last() } }
}

/// A checked branch is done: in cleanup, with every field handed out
pub open spec fn checked_done(bs: Seq<BranchView>, p: Option<DefineView>) -> bool {
    bs.len() == 0 || (checked_top(bs, p).state == BranchState::Cleanup && all_done(checked_top(bs, p)))
}

/// The lookahead continues the top branch's current key
pub open spec fn continues_key(bs: Seq<BranchView>, p: Option<DefineView>) -> bool {
    p matches Some(d) && d.indent + 1 == bs.len() && bs.last().key == Some(d.key)
}

/// The lookahead is a `:>` row continuing the top branch's current key
pub open spec fn text_append_of(bs: Seq<BranchView>, p: Option<DefineView>) -> bool {
    continues_key(bs, p) && p->0.separator == Separator::TextAppend
}

/// The top branch is in cleanup with a field left to hand out
pub open spec fn cleaning_up(bs: Seq<BranchView>) -> bool {
    bs.len() > 0 && bs.last().state == BranchState::Cleanup
        && exists|i: int| 0 <= i < bs.last().visited.len() && !bs.last().visited[i]
}

/// Convert host field names
fn field_chars(fields: &Vec<String>) -> (r: Vec<Vec<char>>)
    ensures
        r@.len() == fields@.len(),
        forall|i: int| 0 <= i < r@.len() ==> (#[trigger] r@[i])@ == fields@[i]@,
{
    let mut r: Vec<Vec<char>> = Vec::new();
    let mut i: usize = 0;
    while i < fields.len()
        invariant
            i <= fields@.len(),
            r@.len() == i,
            forall|j: int| 0 <= j < i ==> (#[trigger] r@[j])@ == fields@[j]@,
        decreases fields@.len() - i,
    {
        r.push(chars_of(fields[i].as_str()));
        i = i + 1;
    }
    r
}

impl Deserializer {
    /// Parse a char (`text <=1 >=1`): one char on one line, or a newline
    /// written as an empty row followed by one empty `:>` row
    pub fn parse_char(&mut self) -> (r: Result<char, Error>)
        requires
            old(self).wf(),
        ensures
            final(self).wf(),
            final(self).state().branches() == old(self).state().branches(),
            !old(self).state().top_is_list() ==> (old(self).state().pending() matches Some(d) ==> (
                r matches Ok(c) ==> (d.value == seq![c] || (c == '\n' && d.value.len() == 0)))),
            !old(self).state().top_is_list() ==> (old(self).state().pending() matches Some(d) ==> (
                d.value.len() != 1 && d.value.len() != 0 ==> r is Err)),
            !old(self).state().top_is_list() ==> (old(self).state().pending() matches Some(d) ==> (
                d.value.len() == 1 && final(self).state().stream_error() is None
                && !text_append_of(old(self).state().branches(), final(self).state().pending())
                ==> r == Ok::<char, Error>(d.value[0]))),
            r is Ok ==> !text_append_of(old(self).state().branches(), final(self).state().pending()),
            ({
                let bs = old(self).state().branches();
                let s0 = old(self).state().stream();
                !old(self).state().top_is_list() && old(self).state().pending() is Some && plain_definition_next(s0)
                    && next_resolved(s0) is Ok ==> {
                    let d = old(self).state().pending()->0;
                    let x = next_resolved(s0)->Ok_0;
                    &&& d.value.len() == 1 && !text_append_of(bs, Some(x)) ==> r == Ok::<char, Error>(d.value[0])
                    &&& d.value.len() == 1 && text_append_of(bs, Some(x)) ==> r == Err::<char, Error>(
                        failed(ParseError::ExpectedChar))
                    &&& d.value.len() == 0 && text_append_of(bs, Some(x)) && x.value.len() == 0 && (forall|s1: DefIter|
                        stepped(s0, s1) ==> plain_definition_next(s1) && next_resolved(s1) is Ok
                        && !text_append_of(bs, Some(next_resolved(s1)->Ok_0))) ==> r == Ok::<char, Error>('\n')
                }
            }),
    {
        let ghost first_list = self.mappings.top_is_list();
        let ghost first_pending = self.mappings.pending();
        let ghost s0 = self.mappings.stream();
        let val = match self.get_value() {
            Ok(v) => v,
            Err(e) => return Err(e),
        };
        proof {
            if !first_list && first_pending is Some {
                let d = first_pending->0;
                let t = choose|t: DefineView| next_taken(d, first_list, t, self.mappings.pending()) && val@ == t.value;
                assert(t == d);
                assert(val@ == d.value);
            }
        }
        let ghost m0 = self.mappings;
        let append = match self.mappings.is_text_append() {
            Ok(a) => a,
            Err(e) => return Err(e),
        };
        proof {
            if !first_list && first_pending is Some && plain_definition_next(s0) && next_resolved(s0) is Ok {
                assert(m0.stream() == s0);
                assert(m0.pending() is None);
                assert(self.mappings.pending() == Some(next_resolved(s0)->Ok_0));
                assert(append == text_append_of(old(self).mappings.branches(), self.mappings.pending()));
                assert(self.mappings.stream() != s0);
                assert(stepped(s0, self.mappings.stream()));
            }
        }
        if append && val.len() == 0 {
            let ghost m1 = self.mappings;
            let val2 = match self.get_value() {
                Ok(v) => v,
                Err(e) => return Err(e),
            };
            proof {
                if !first_list && first_pending is Some {
                    let x = m1.pending()->0;
                    let t = choose|t: DefineView| next_taken(x, m1.top_is_list(), t, self.mappings.pending()) && val2@ == t.value;
                    assert(t == x);
                    assert(self.mappings.stream() == m1.stream());
                    assert(self.mappings.pending() is None);
                }
            }
            let more = match self.mappings.is_text_append() {
                Ok(a) => a,
                Err(e) => return Err(e),
            };
            if !more && val2.len() == 0 {
                return Ok('\n');
            }
            return Err(Error::FailedParse(ParseError::ExpectedChar));
        }
        if append {
            return Err(Error::FailedParse(ParseError::ExpectedChar));
        }
        if val.len() == 1 {
            assert(val@ == seq![val@[0]]);
            Ok(val[0])
        } else {
            Err(Error::FailedParse(ParseError::ExpectedChar))
        }
    }

    /// The top branch is cleaning up: the field asked for is absent
    pub fn is_missing(&self) -> (r: bool)
        ensures
            r == (self.state().branches().len() == 0
                || self.state().branches().last().state == BranchState::Cleanup),
    {
        self.mappings.branch_state() == BranchState::Cleanup
    }

    /// Read a text field: `MissingField` when it is absent
    pub fn str_value(&mut self) -> (r: Result<String, Error>)
        requires
            old(self).wf(),
        ensures
            !(old(self).state().branches().len() == 0 || old(self).state().branches().last().state == BranchState::Cleanup) ==> (
            !old(self).state().top_is_list() ==> (old(self).state().pending() matches Some(d) ==> (r matches Ok(t)
                ==> exists|vals: Seq<Seq<char>>, rows: Seq<DefineView>, streams: Seq<DefIter>| {
                &&& vals.len() == rows.len() + 1 && vals[0] == d.value
                &&& forall|k: int| 0 <= k < rows.len() ==> vals[k + 1] == (#[trigger] rows[k]).value
                &&& t@ == join_lines(vals)
                &&& text_rows(old(self).state().branches(), rows, streams)
                &&& streams[0] == old(self).state().stream()
                &&& plain_definition_next(streams.last()) ==> (next_resolved(streams.last()) matches Ok(x)
                    && final(self).state().pending() == Some(x) && stepped(streams.last(), final(self).state().stream()))
            }))),
            final(self).wf(),
            final(self).state().branches() == old(self).state().branches(),
            (old(self).state().branches().len() == 0
                || old(self).state().branches().last().state == BranchState::Cleanup)
                ==> r == Err::<String, Error>(failed(ParseError::MissingField)),
            !(old(self).state().branches().len() == 0
                || old(self).state().branches().last().state == BranchState::Cleanup) ==> ({
                &&& r matches Ok(t) ==> exists|vals: Seq<Seq<char>>| {
                    &&& vals.len() >= 1
                    &&& t@ == join_lines(vals)
                    &&& (!old(self).state().top_is_list() ==> (old(self).state().pending() matches Some(d)
                        ==> vals[0] == d.value))
                }
                &&& r is Ok ==> !text_append_of(old(self).state().branches(), final(self).state().pending())
                &&& old(self).state().pending() is Some && r is Err ==> final(self).state().stream_error() is Some
            }),
    {
        if self.is_missing() {
            return Err(Error::FailedParse(ParseError::MissingField));
        }
        self.parse_text()
    }

    /// Enter an optional value: `Ok(false)` when it is absent; a substituted
    /// value cannot be optional
    pub fn begin_option(&self) -> (r: Result<bool, Error>)
        ensures
            ({
                let bs = self.state().branches();
                if bs.len() == 0 {
                    r == Ok::<bool, Error>(true)
                } else if bs.last().state == BranchState::Cleanup {
                    r == Ok::<bool, Error>(false)
                } else if bs.last().key is Some && bs.last().key == bs.last().substitute {
                    r == Err::<bool, Error>(failed(ParseError::InvalidSubstitute))
                } else {
                    r == Ok::<bool, Error>(true)
                }
            }),
    {
        let n = self.mappings.stack.len();
        if n > 0 {
            let branch = &self.mappings.stack[n - 1];
            if branch.state == BranchState::Cleanup {
                return Ok(false);
            }
            if branch.is_substitute() {
                return Err(Error::FailedParse(ParseError::InvalidSubstitute));
            }
        }
        Ok(true)
    }

    /// Enter a list: the current key collects a list; a substituted value
    /// cannot be a list
    pub fn begin_seq(&mut self) -> (r: Result<(), Error>)
        requires
            old(self).wf(),
        ensures
            final(self).state().stream() == old(self).state().stream(),
            final(self).state().stream_error() == old(self).state().stream_error(),
            final(self).wf(),
            final(self).state().pending() == old(self).state().pending(),
            old(self).state().branches().len() > 0 ==> final(self).state().branches() == with_top(
                old(self).state().branches(), BranchView { list: true, ..old(self).state().branches().last() }),
            old(self).state().branches().len() > 0 ==> (r is Err <==> (old(self).state().branches().last().key is Some
                && old(self).state().branches().last().key == old(self).state().branches().last().substitute)),
            r is Err ==> r == Err::<(), Error>(failed(ParseError::InvalidSubstitute)),
    {
        self.mappings.set_list(true);
        let n = self.mappings.stack.len();
        let sub = if n > 0 { self.mappings.stack[n - 1].is_substitute() } else { false };
        proof {
            let ob = old(self).mappings.branches();
            if ob.len() > 0 {
                let nb = self.mappings.branches();
                assert(nb.len() == ob.len());
                assert(nb.last() == BranchView { list: true, ..ob.last() });
                assert(self.mappings.stack@[n - 1]@ == nb[nb.len() - 1]);
                assert(sub == (ob.last().key is Some && ob.last().key == ob.last().substitute));
            }
        }
        if sub {
            return Err(Error::FailedParse(ParseError::InvalidSubstitute));
        }
        Ok(())
    }

    /// Enter a map (dictionary): its key line is consumed and a branch with
    /// no declared fields opens
    pub fn begin_map(&mut self)
        requires
            old(self).wf(),
        ensures
            final(self).wf(),
            final(self).state().branches().len() == old(self).state().branches().len() + 1,
            final(self).state().branches().last().fields.len() == 0,
            final(self).state().branches().drop_last() == old(self).state().branches(),
            old(self).state().pending() matches Some(d) ==> exists|t: DefineView|
                next_taken(d, old(self).state().top_is_list(), t, final(self).state().pending()),
    {
        let _ = self.mappings.next();
        self.mappings.push_stack(Branch::new());
    }

    /// Enter a record with the given field names; a value on the record's own
    /// key line stands for its first field
    pub fn begin_struct(&mut self, fields: &Vec<String>)
        requires
            old(self).wf(),
        ensures
            final(self).state().stream() == old(self).state().stream(),
            final(self).state().stream_error() == old(self).state().stream_error(),
            final(self).wf(),
            final(self).state().branches().len() == old(self).state().branches().len() + 1,
            final(self).state().branches().last().fields.len() == fields@.len(),
            forall|i: int| 0 <= i < fields@.len() ==> final(self).state().branches().last().fields[i] == fields@[i]@,
            final(self).state().branches().last().state == BranchState::Visit,
            ({
                let n = old(self).state().branches().len();
                let b = final(self).state().branches().last();
                let d = old(self).state().pending()->0;
                if fields@.len() > 0 && old(self).state().pending() is Some && d.value.len() > 0 {
                    &&& b.substitute == Some(fields@[0]@)
                    &&& final(self).state().pending() == Some(DefineView {
                        indent: n,
                        key: fields@[0]@,
                        separator: d.separator,
                        value: d.value,
                    })
                } else if old(self).state().pending() is Some && fields@.len() > 0 {
                    b.substitute is None && final(self).state().pending() is None
                } else {
                    b.substitute is None && final(self).state().pending() == old(self).state().pending()
                }
            }),
    {
        let names = field_chars(fields);
        let branch = Branch::with_fields(names);
        self.mappings.push_stack(branch);
        self.mappings.check_substitute();
    }

    /// Next element of a list: `false` (and the list closes) once the next
    /// definition does not continue the current key
    pub fn next_element(&mut self) -> (r: Result<bool, Error>)
        requires
            old(self).wf(),
        ensures
            final(self).wf(),
            final(self).state().branches().len() == old(self).state().branches().len(),
            advanced(old(self).state(), final(self).state()),
            final(self).state().stream_error() matches Some(e) ==> r == Err::<bool, Error>(failed(e)),
            final(self).state().stream_error() is None ==> r == Ok::<bool, Error>(
                continues_key(old(self).state().branches(), final(self).state().pending())),
            old(self).state().pending() is Some ==> final(self).state().pending() == old(self).state().pending(),
            r == Ok::<bool, Error>(true) ==> final(self).state().branches() == old(self).state().branches(),
            r == Ok::<bool, Error>(false) && old(self).state().branches().len() > 0
                ==> final(self).state().branches() == with_top(old(self).state().branches(), BranchView {
                    list: false,
                    key: None,
                    ..old(self).state().branches().last()
                }),
    {
        let a = match self.mappings.is_append() {
            Ok(a) => a,
            Err(e) => return Err(e),
        };
        if a {
            Ok(true)
        } else {
            let ghost ob = self.mappings.branches();
            self.mappings.set_list(false);
            let ghost b1 = self.mappings.branches();
            self.mappings.set_key(None);
            proof {
                if ob.len() > 0 {
                    let b = ob.last();
                    let x = BranchView { list: false, ..b };
                    assert(b1.last() == x);
                    assert(Seq::new(x.visited.len(), |i: int| x.visited[i] || opt_view(None) == Some(x.fields[i]))
                        =~= b.visited);
                    assert(self.mappings.branches() =~= with_top(ob, BranchView { list: false, key: None, ..b }));
                }
            }
            Ok(false)
        }
    }

    /// Next key of the open record or map: declared fields that were absent
    /// are handed out during cleanup; `None` once the branch is done, which
    /// closes it
    pub fn next_key(&mut self) -> (r: Result<Option<String>, Error>)
        requires
            old(self).wf(),
        ensures
            advanced(old(self).state(), final(self).state()),
            final(self).wf(),
            old(self).state().pending() is Some ==> final(self).state().pending() == old(self).state().pending(),
            ({
                let bs = old(self).state().branches();
                let p = final(self).state().pending();
                &&& final(self).state().stream_error() is None && checked_done(bs, p) ==> r
                    == Ok::<Option<String>, Error>(None) && final(self).state().branches() == if bs.len() == 0 {
                    bs
                } else {
                    bs.drop_last()
                }
                &&& !checked_done(bs, p) && checked_top(bs, p).state == BranchState::Visit
                    ==> (r matches Ok(Some(k)) && k@ == p->0.key
                    && final(self).state().branches().last().key == Some(p->0.key)
                    && final(self).state().branches().len() == bs.len())
                &&& !checked_done(bs, p) && checked_top(bs, p).state == BranchState::Cleanup
                    && final(self).state().stream_error() is None
                    ==> (r matches Ok(Some(k)) && exists|i: int| first_unvisited(checked_top(bs, p), i)
                    && k@ == #[trigger] checked_top(bs, p).fields[i])
            }),
    {
        let ghost a = self.mappings;
        let done = match self.branch_done() {
            Ok(d) => d,
            Err(e) => return Err(e),
        };
        let ghost m = self.mappings;
        if done {
            return Ok(None);
        }
        proof {
            let bs = old(self).mappings.branches();
            let p = self.mappings.pending();
            let b = checked_top(bs, p);
            assert(self.mappings.branches().last() == b);
            if b.state == BranchState::Cleanup {
                assert(!all_done(b));
                let i = choose|i: int| !(0 <= i < b.visited.len() ==> b.visited[i]);
                assert(0 <= i < b.visited.len() && !b.visited[i]);
                assert(cleaning_up(self.mappings.branches()));
            } else {
                assert(nested_in(bs, p));
                assert(!cleaning_up(self.mappings.branches()));
            }
        }
        let r = self.identifier();
        proof {
            lemma_advanced_trans(a, m, self.mappings);
        }
        match r {
            Ok(k) => Ok(Some(k)),
            Err(e) => Err(e),
        }
    }

    /// A value without a host shape: its key is read, and it is refused as
    /// a key that the record does not declare
    pub fn any_value(&mut self) -> (r: Result<(), Error>)
        requires
            old(self).wf(),
        ensures
            final(self).wf(),
            r is Err,
            !cleaning_up(old(self).state().branches()) && old(self).state().pending() is Some
                ==> r == Err::<(), Error>(failed(ParseError::UnexpectedKey)),
    {
        match self.identifier() {
            Ok(_) => Err(Error::FailedParse(ParseError::UnexpectedKey)),
            Err(e) => Err(e),
        }
    }

    /// Check whether the open record or map is done, and close it if so
    pub fn branch_done(&mut self) -> (r: Result<bool, Error>)
        requires
            old(self).wf(),
        ensures
            fill_result(old(self).state(), final(self).state()),
            final(self).wf(),
            advanced(old(self).state(), final(self).state()),
            old(self).state().pending() is Some ==> final(self).state().pending() == old(self).state().pending(),
            final(self).state().stream_error() matches Some(e) ==> r == Err::<bool, Error>(failed(e))
                && final(self).state().branches() == old(self).state().branches(),
            final(self).state().stream_error() is None ==> ({
                let bs = old(self).state().branches();
                let p = final(self).state().pending();
                &&& r == Ok::<bool, Error>(checked_done(bs, p))
                &&& final(self).state().branches() == if bs.len() == 0 {
                    bs
                } else if checked_done(bs, p) {
                    bs.drop_last()
                } else {
                    with_top(bs, checked_top(bs, p))
                }
            }),
    {
        let done = match self.mappings.check_branch_done() {
            Ok(d) => d,
            Err(e) => return Err(e),
        };
        if done {
            let ghost b1 = self.mappings.branches();
            self.mappings.pop_stack();
            proof {
                let bs = old(self).mappings.branches();
                if bs.len() > 0 {
                    assert(b1.drop_last() =~= bs.drop_last());
                }
            }
        }
        Ok(done)
    }

    /// The next key: an absent field during cleanup, else the next
    /// definition's key, which becomes current
    pub fn identifier(&mut self) -> (r: Result<String, Error>)
        requires
            old(self).wf(),
        ensures
            cleaning_up(old(self).state().branches()) ==> final(self).state().pending() == old(self).state().pending()
                && final(self).state().stream_error() == old(self).state().stream_error(),
            advanced(old(self).state(), final(self).state()),
            old(self).state().pending() is Some ==> final(self).state().pending() == old(self).state().pending(),
            final(self).wf(),
            final(self).state().branches().len() == old(self).state().branches().len(),
            cleaning_up(old(self).state().branches()) ==> (r matches Ok(k) && exists|i: int|
                first_unvisited(old(self).state().branches().last(), i)
                && k@ == #[trigger] old(self).state().branches().last().fields[i]),
            !cleaning_up(old(self).state().branches()) ==> (old(self).state().pending() matches Some(d)
                ==> (r matches Ok(k) && k@ == d.key
                && (old(self).state().branches().len() > 0 ==> final(self).state().branches().last().key == Some(d.key)))),
    {
        let n = self.mappings.stack.len();
        if n > 0 {
            let mut branch = self.mappings.stack.pop().unwrap();
            proof {
                assert(old(self).mappings.stack@[n - 1] == branch);
            }
            let field = branch.cleanup_visit();
            self.mappings.stack.push(branch);
            proof {
                assert(self.mappings.branches() =~= with_top(old(self).mappings.branches(), branch@));
            }
            if let Some(f) = field {
                return Ok(string_of(f.as_slice()));
            }
        }
        let key = match self.peek_key() {
            Ok(k) => k,
            Err(e) => return Err(e),
        };
        self.mappings.set_key(Some(chars_of(key.as_str())));
        Ok(key)
    }
}

/// Booleans written as `true` / `false` read back as the same booleans
pub proof fn lemma_bool_text_round_trip(b: bool)
    ensures
        bool_of(if b { "true"@ } else { "false"@ }) == Some(b),
{
    reveal_strlit("true");
    reveal_strlit("false");
    assert("true"@ =~= seq!['t', 'r', 'u', 'e']);
    assert("false"@ =~= seq!['f', 'a', 'l', 's', 'e']);
}

/// Words joined by single spaces
pub open spec fn join_words(ws: Seq<Seq<char>>) -> Seq<char>
    decreases ws.len(),
{
    if ws.len() <= 1 {
        if ws.len() == 1 { ws[0] } else { Seq::empty() }
    } else {
        ws[0] + seq![' '] + join_words(ws.drop_first())
    }
}

pub proof fn lemma_first_space_split(a: Seq<char>, b: Seq<char>, c: Seq<char>, e: Seq<char>)
    requires
        a + seq![' '] + b == c + seq![' '] + e,
        !a.contains(' '),
        !c.contains(' '),
    ensures
        a == c,
        b == e,
{
    let x = a + seq![' '] + b;
    if a.len() < c.len() {
        assert(x[a.len() as int] == ' ');
        assert(c[a.len() as int] == x[a.len() as int]);
    } else if c.len() < a.len() {
        assert(x[c.len() as int] == ' ');
        assert(a[c.len() as int] == x[c.len() as int]);
    }
    assert(a =~= x.subrange(0, a.len() as int));
    assert(c =~= x.subrange(0, c.len() as int));
    assert(b =~= x.subrange(a.len() as int + 1, x.len() as int));
    assert(e =~= x.subrange(c.len() as int + 1, x.len() as int));
}

/// A list row `k: w1 w2 ... wn` hands out its words in order: the first
/// word, then a row of the same key, depth and separator holding the others,
/// just as the rows `k: w1`, ..., `k: wn` would
pub proof fn lemma_list_row_words(d: DefineView, ws: Seq<Seq<char>>, t: DefineView, rest: Option<DefineView>)
    requires
        d.separator == Separator::Normal,
        ws.len() >= 1,
        forall|i: int| 0 <= i < ws.len() ==> !(#[trigger] ws[i]).contains(' '),
        d.value == join_words(ws),
        next_taken(d, true, t, rest),
    ensures
        t.value == ws[0],
        t.key == d.key && t.indent == d.indent,
        ws.len() == 1 ==> rest is None,
        ws.len() > 1 ==> (rest matches Some(r) && r.value == join_words(ws.drop_first())
            && r.key == d.key && r.indent == d.indent && r.separator == d.separator),
{
    if ws.len() == 1 {
        assert(d.value == ws[0]);
    } else {
        let w = ws[0];
        assert(d.value == w + seq![' '] + join_words(ws.drop_first()));
        assert(d.value[w.len() as int] == ' ');
        assert(d.value.contains(' '));
        let r = rest->0;
        lemma_first_space_split(t.value, r.value, w, join_words(ws.drop_first()));
    }
}

} // verus!
