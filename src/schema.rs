use vstd::prelude::*;
use crate::common::Define;
use crate::datetime::{offset_seconds, offset_start, valid_date, valid_datetime, valid_time, Date, DateTime, Time};
use crate::error::ParseError;
use crate::intparse::{fits, signed_value, Integer};
use crate::parse::{self, int_literal, NumLiteral};
use crate::text::{split_first_space, string_of};

verus! {

/// Integer value
#[derive(Clone, Copy, Debug, PartialEq, Eq, Structural)]
pub enum IntValue {
    /// Unsigned integer value
    Unsigned(u128),
    /// Signed integer value
    Signed(i128),
}

/// A MuON value
#[derive(Debug, PartialEq)]
pub enum Value {
    /// Text value
    Text(String),
    /// Boolean value
    Bool(bool),
    /// Integer value
    Int(IntValue),
    /// Number value, as a checked literal
    Number(NumLiteral),
    /// Date and time with offset
    DateTime(DateTime),
    /// Date with no time or offset
    Date(Date),
    /// Time with no date or offset
    Time(Time),
    /// Record value
    Record(Vec<(String, Value)>),
    /// Dictionary value
    Dictionary(Vec<(Value, Value)>),
    /// Any value
    Any(Box<Value>),
    /// Optional value
    Optional(Option<Box<Value>>),
    /// List of values
    List(Vec<Value>),
}

/// Type modifier for a schema
#[derive(Clone, Copy, Debug, PartialEq, Eq, Structural)]
pub enum Modifier {
    /// Optional values may not be present
    Optional,
    /// List of values
    List,
}

/// Schema type
#[derive(Clone, Copy, Debug, PartialEq, Eq, Structural)]
pub enum Type {
    Text,
    Bool,
    Int,
    Number,
    DateTime,
    Date,
    Time,
    Record,
    Dictionary,
    Any,
}

/// Schema node
#[derive(Debug)]
pub struct Node {
    /// Indent level
    pub indent: usize,
    /// Type name
    pub name: Vec<char>,
    /// Type modifier
    pub modifier: Option<Modifier>,
    /// Node type
    pub node_type: Type,
    /// Default value
    pub default: Option<Value>,
}

/// Full schema
#[derive(Debug)]
pub struct Schema {
    /// List of all nodes
    pub nodes: Vec<Node>,
    /// Flag indicating reading finished
    pub finished: bool,
}

/// The keyword naming each type
pub open spec fn keyword_of(t: Type) -> Seq<char> {
    match t {
        Type::Text => seq!['t', 'e', 'x', 't'],
        Type::Bool => seq!['b', 'o', 'o', 'l'],
        Type::Int => seq!['i', 'n', 't'],
        Type::Number => seq!['n', 'u', 'm', 'b', 'e', 'r'],
        Type::DateTime => seq!['d', 'a', 't', 'e', 't', 'i', 'm', 'e'],
        Type::Date => seq!['d', 'a', 't', 'e'],
        Type::Time => seq!['t', 'i', 'm', 'e'],
        Type::Record => seq!['r', 'e', 'c', 'o', 'r', 'd'],
        Type::Dictionary => seq!['d', 'i', 'c', 't', 'i', 'o', 'n', 'a', 'r', 'y'],
        Type::Any => seq!['a', 'n', 'y'],
    }
}

proof fn lemma_keywords()
    ensures
        forall|t: Type| !(#[trigger] keyword_of(t)).contains(' ') && keyword_of(t) != "optional"@ && keyword_of(t) != "list"@,
        forall|t: Type, u: Type| #[trigger] keyword_of(t) == #[trigger] keyword_of(u) ==> t == u,
{
    reveal_strlit("optional");
    reveal_strlit("list");
    assert forall|t: Type| !(#[trigger] keyword_of(t)).contains(' ') && keyword_of(t) != "optional"@
        && keyword_of(t) != "list"@ by {
        let k = keyword_of(t);
        assert(forall|i: int| 0 <= i < k.len() ==> k[i] != ' ');
        assert(k.len() != 8 || k[0] != 'o');
        assert(k.len() != 4 || k[0] != 'l');
    }
    assert forall|t: Type, u: Type| #[trigger] keyword_of(t) == #[trigger] keyword_of(u) implies t == u by {
        let a = keyword_of(t);
        let b = keyword_of(u);
        if t != u {
            assert(a.len() != b.len() || a[0] != b[0] || a[1] != b[1] || a[2] != b[2]);
        }
    }
}

/// Compare chars with a keyword
fn is_word(s: &[char], w: &str) -> (r: bool)
    ensures
        r == (s@ == w@),
{
    let wv = crate::text::chars_of(w);
    crate::text::same_chars(s, wv.as_slice())
}

impl Type {
    /// Parse a type keyword
    pub fn from_chars(val: &[char]) -> (r: Result<Type, ParseError>)
        ensures
            r matches Ok(t) ==> keyword_of(t) == val@,
            r is Err ==> r == Err::<Type, ParseError>(ParseError::InvalidType)
                && forall|t: Type| keyword_of(t) != val@,
    {
        proof {
            reveal_strlit("text");
            reveal_strlit("bool");
            reveal_strlit("int");
            reveal_strlit("number");
            reveal_strlit("datetime");
            reveal_strlit("date");
            reveal_strlit("time");
            reveal_strlit("record");
            reveal_strlit("dictionary");
            reveal_strlit("any");
        }
        if is_word(val, "text") {
            Ok(Type::Text)
        } else if is_word(val, "bool") {
            Ok(Type::Bool)
        } else if is_word(val, "int") {
            Ok(Type::Int)
        } else if is_word(val, "number") {
            Ok(Type::Number)
        } else if is_word(val, "datetime") {
            Ok(Type::DateTime)
        } else if is_word(val, "date") {
            Ok(Type::Date)
        } else if is_word(val, "time") {
            Ok(Type::Time)
        } else if is_word(val, "record") {
            Ok(Type::Record)
        } else if is_word(val, "dictionary") {
            Ok(Type::Dictionary)
        } else if is_word(val, "any") {
            Ok(Type::Any)
        } else {
            assert forall|t: Type| keyword_of(t) != val@ by {
                assert(keyword_of(t) == "text"@ || keyword_of(t) == "bool"@ || keyword_of(t) == "int"@
                    || keyword_of(t) == "number"@ || keyword_of(t) == "datetime"@ || keyword_of(t) == "date"@
                    || keyword_of(t) == "time"@ || keyword_of(t) == "record"@
                    || keyword_of(t) == "dictionary"@ || keyword_of(t) == "any"@);
            }
            Err(ParseError::InvalidType)
        }
    }
}

/// The mathematical value of an integer value
pub open spec fn int_value_of(v: IntValue) -> int {
    match v {
        IntValue::Unsigned(u) => u as int,
        IntValue::Signed(i) => i as int,
    }
}

/// The UTF-8 bytes of some text
pub open spec fn utf8_of(v: Seq<char>) -> Seq<u8> {
    vstd::utf8::encode_utf8(v)
}

impl IntValue {
    /// Parse an integer literal as signed if it fits an `i128`, else as unsigned
    pub fn from_text(val: &str) -> (r: Result<IntValue, ParseError>)
        ensures
            r is Ok <==> (int_literal(val@) matches Some((neg, m))
                && (fits::<i128>(neg, m) || fits::<u128>(neg, m))),
            r is Err ==> r == Err::<IntValue, ParseError>(ParseError::ExpectedInt),
            r matches Ok(v) ==> (int_literal(val@) matches Some((neg, m))
                && int_value_of(v) == signed_value(neg, m)
                && (v is Signed <==> fits::<i128>(neg, m))),
    {
        if let Some(vi) = parse::integer::<i128>(val) {
            return Ok(IntValue::Signed(vi));
        }
        if let Some(vu) = parse::integer::<u128>(val) {
            return Ok(IntValue::Unsigned(vu));
        }
        Err(ParseError::ExpectedInt)
    }
}

impl Modifier {
    /// Take a type modifier (`optional` or `list` and a space) from the start of a value
    pub fn from_str_start(val: &[char]) -> (r: (Option<Modifier>, Vec<char>))
        ensures
            r.0 matches Some(m) ==> val@ == (if m is Optional {
                "optional"@
            } else {
                "list"@
            }) + seq![' '] + r.1@,
            r.0 is None ==> r.1@ == val@ && !(val@.contains(' ')
                && exists|b: Seq<char>| (val@ == "optional"@ + seq![' '] + b || val@ == "list"@ + seq![' '] + b)),
    {
        proof {
            reveal_strlit("optional");
            reveal_strlit("list");
        }
        let mut whole: Vec<char> = Vec::new();
        let mut i: usize = 0;
        while i < val.len()
            invariant
                i <= val@.len(),
                whole@ == val@.subrange(0, i as int),
            decreases val@.len() - i,
        {
            whole.push(val[i]);
            i = i + 1;
        }
        assert(whole@ =~= val@);
        match split_first_space(val) {
            Some((first, rest)) => {
                if is_word(first.as_slice(), "optional") {
                    (Some(Modifier::Optional), rest)
                } else if is_word(first.as_slice(), "list") {
                    (Some(Modifier::List), rest)
                } else {
                    proof {
                        assert forall|b: Seq<char>| !(val@ == "optional"@ + seq![' '] + b || val@ == "list"@ + seq![' '] + b) by {
                            if val@ == "optional"@ + seq![' '] + b {
                                assert(val@[8] == ' ');
                                assert(first@.len() == 8) by {
                                    if first@.len() > 8 {
                                        assert(first@[8] == val@[8]);
                                    }
                                    if first@.len() < 8 {
                                        assert(val@[first@.len() as int] == ' ');
                                        assert(("optional"@)[first@.len() as int] != ' ');
                                    }
                                }
                                assert(first@ =~= val@.subrange(0, 8));
                                assert(val@.subrange(0, 8) =~= "optional"@);
                            }
                            if val@ == "list"@ + seq![' '] + b {
                                assert(val@[4] == ' ');
                                assert(first@.len() == 4) by {
                                    if first@.len() > 4 {
                                        assert(first@[4] == val@[4]);
                                    }
                                    if first@.len() < 4 {
                                        assert(val@[first@.len() as int] == ' ');
                                        assert(("list"@)[first@.len() as int] != ' ');
                                    }
                                }
                                assert(first@ =~= val@.subrange(0, 4));
                                assert(val@.subrange(0, 4) =~= "list"@);
                            }
                        }
                    }
                    (None, whole)
                }
            },
            None => (None, whole),
        }
    }
}

/// The value a default literal `v` of type `t` gives
pub open spec fn default_value(t: Type, v: Seq<char>, val: Value) -> bool {
    match t {
        Type::Text => val matches Value::Text(x) && x@ == v,
        Type::Bool => val == Value::Bool(v == "true"@),
        Type::Int => val matches Value::Int(i) && (int_literal(v) matches Some((neg, m))
            && int_value_of(i) == signed_value(neg, m) && (i is Signed <==> fits::<i128>(neg, m))),
        Type::Number => val matches Value::Number(n) && parse::number_result(v, Some(n)),
        Type::Date => val matches Value::Date(d) && d.wf() && d.read_from(utf8_of(v)),
        Type::Time => val matches Value::Time(x) && x.wf() && x.read_from(utf8_of(v)),
        Type::DateTime => val matches Value::DateTime(dt) && dt.wf() && dt.spec_date().read_from(utf8_of(v).subrange(0, 10))
            && dt.spec_time().read_from(utf8_of(v).subrange(11, offset_start(utf8_of(v)))),
        _ => false,
    }
}

/// A default literal that a type and modifier accept
pub open spec fn accepted_default(t: Type, m: Option<Modifier>, v: Seq<char>) -> bool {
    m is None && match t {
        Type::Text => true,
        Type::Bool => v == "true"@ || v == "false"@,
        Type::Int => int_literal(v) matches Some((neg, mg)) && (fits::<i128>(neg, mg) || fits::<u128>(neg, mg)),
        Type::Number => !parse::number_literal_rejected(v),
        Type::DateTime => valid_datetime(utf8_of(v)),
        Type::Date => valid_date(utf8_of(v)),
        Type::Time => valid_time(utf8_of(v)),
        _ => false,
    }
}

impl Type {
    /// Parse a default value of this type; only plain scalar types take one
    pub fn parse_value(&self, modifier: &Option<Modifier>, v: &[char]) -> (r: Result<Value, ParseError>)
        ensures
            (modifier is Some || *self is Record || *self is Dictionary || *self is Any)
                ==> r == Err::<Value, ParseError>(ParseError::InvalidDefault),
            modifier is None && *self is Text ==> (r matches Ok(Value::Text(t)) && t@ == v@),
            modifier is None && *self is Bool ==> (if v@ == "true"@ {
                r == Ok::<Value, ParseError>(Value::Bool(true))
            } else if v@ == "false"@ {
                r == Ok::<Value, ParseError>(Value::Bool(false))
            } else {
                r == Err::<Value, ParseError>(ParseError::ExpectedBool)
            }),
            modifier is None && *self is Int ==> (r is Ok <==> (int_literal(v@) matches Some((neg, m))
                && (fits::<i128>(neg, m) || fits::<u128>(neg, m)))),
            modifier is None && *self is Int && r is Ok ==> r matches Ok(Value::Int(_)),
            modifier is None && *self is Number ==> (r is Err <==> parse::number_literal_rejected(v@)),
            modifier is None && *self is Number && r is Ok ==> r matches Ok(Value::Number(_)),
            modifier is None && *self is Date ==> (r is Ok <==> valid_date(utf8_of(v@))),
            modifier is None && *self is Time ==> (r is Ok <==> valid_time(utf8_of(v@))),
            modifier is None && *self is DateTime ==> (r is Ok <==> valid_datetime(utf8_of(v@))),
            r matches Ok(Value::Int(i)) ==> (int_literal(v@) matches Some((neg, m))
                && int_value_of(i) == signed_value(neg, m) && (i is Signed <==> fits::<i128>(neg, m))),
            r matches Ok(Value::Number(n)) ==> parse::number_result(v@, Some(n)),
            r matches Ok(Value::Date(d)) ==> d.wf() && d.read_from(utf8_of(v@)),
            r matches Ok(Value::Time(t)) ==> t.wf() && t.read_from(utf8_of(v@)),
            r matches Ok(Value::DateTime(dt)) ==> dt.wf() && dt.spec_date().read_from(utf8_of(v@).subrange(0, 10))
                && dt.spec_time().read_from(utf8_of(v@).subrange(11, offset_start(utf8_of(v@))))
                && dt.spec_time_offset().spec_seconds() == offset_seconds(utf8_of(v@).subrange(
                offset_start(utf8_of(v@)), utf8_of(v@).len() as int)),
            r is Ok ==> accepted_default(*self, *modifier, v@),
            r matches Ok(val) ==> default_value(*self, v@, val),
            accepted_default(*self, *modifier, v@) ==> r is Ok,
    {
        proof {
            reveal_strlit("true");
            reveal_strlit("false");
            assert("true"@ =~= seq!['t', 'r', 'u', 'e']);
            assert("false"@ =~= seq!['f', 'a', 'l', 's', 'e']);
        }
        if modifier.is_some() {
            return Err(ParseError::InvalidDefault);
        }
        let text = string_of(v);
        match self {
            Type::Text => Ok(Value::Text(text)),
            Type::Bool => match parse::bool(text.as_str()) {
                Some(b) => Ok(Value::Bool(b)),
                None => Err(ParseError::ExpectedBool),
            },
            Type::Int => match IntValue::from_text(text.as_str()) {
                Ok(i) => Ok(Value::Int(i)),
                Err(e) => Err(e),
            },
            Type::Number => match parse::number(text.as_str()) {
                Some(n) => Ok(Value::Number(n)),
                None => Err(ParseError::ExpectedNumber),
            },
            Type::DateTime => match DateTime::new(text.as_str().as_bytes()) {
                Ok(d) => Ok(Value::DateTime(d)),
                Err(e) => Err(e),
            },
            Type::Date => match Date::new(text.as_str().as_bytes()) {
                Ok(d) => Ok(Value::Date(d)),
                Err(e) => Err(e),
            },
            Type::Time => match Time::new(text.as_str().as_bytes()) {
                Ok(t) => Ok(Value::Time(t)),
                Err(e) => Err(e),
            },
            _ => Err(ParseError::InvalidDefault),
        }
    }
}

impl Node {
    /// Create a schema node from a definition: `[modifier ]type[ default]`
    pub fn from_define(define: &Define) -> (r: Result<Node, ParseError>)
        ensures
            r matches Ok(n) ==> n.indent == define.indent && n.name@ == define.key@,
            r matches Ok(n) ==> (n.default is Some ==> n.modifier is None && !(n.node_type is Record
                || n.node_type is Dictionary || n.node_type is Any)),
            !define.value@.contains(' ') ==> (r matches Ok(n) ==> keyword_of(n.node_type) == define.value@
                && n.modifier is None && n.default is None),
            !define.value@.contains(' ') && (forall|t: Type| keyword_of(t) != define.value@)
                ==> r == Err::<Node, ParseError>(ParseError::InvalidType),
            forall|t: Type| keyword_of(t) == define.value@ ==> (r matches Ok(n) && n.node_type == t),
            forall|t: Type, d: Seq<char>| define.value@ == keyword_of(t) + seq![' '] + d && accepted_default(t, None, d)
                ==> (r matches Ok(n) && n.node_type == t && n.modifier is None && (n.default matches Some(val)
                && default_value(t, d, val))),
            forall|t: Type| define.value@ == "optional"@ + seq![' '] + keyword_of(t) ==> (r matches Ok(n)
                && n.node_type == t && n.modifier == Some(Modifier::Optional) && n.default is None),
            forall|t: Type| define.value@ == "list"@ + seq![' '] + keyword_of(t) ==> (r matches Ok(n)
                && n.node_type == t && n.modifier == Some(Modifier::List) && n.default is None),
    {
        let (modifier, value) = Modifier::from_str_start(define.value.as_slice());
        proof {
            reveal_strlit("optional");
            reveal_strlit("list");
            lemma_keywords();
            assert forall|t: Type, d: Seq<char>| define.value@ == keyword_of(t) + seq![' '] + d implies modifier is None
                && value@ == define.value@ by {
                if modifier is Some {
                    let w = if modifier->0 is Optional { "optional"@ } else { "list"@ };
                    crate::de::lemma_first_space_split(keyword_of(t), d, w, value@);
                }
            }
            if modifier is Some {
                let w = if modifier->0 is Optional { "optional"@ } else { "list"@ };
                assert(define.value@[w.len() as int] == ' ');
            }
        }
        proof {
            assert forall|t: Type| define.value@ == "optional"@ + seq![' '] + keyword_of(t) implies modifier == Some(
                Modifier::Optional) && value@ == keyword_of(t) by {
                assert(define.value@[8] == ' ');
                assert(define.value@.contains(' '));
                if modifier is None {
                    assert(define.value@ == "optional"@ + seq![' '] + keyword_of(t));
                } else {
                    let w = if modifier->0 is Optional { "optional"@ } else { "list"@ };
                    crate::de::lemma_first_space_split(w, value@, "optional"@, keyword_of(t));
                }
            }
            assert forall|t: Type| define.value@ == "list"@ + seq![' '] + keyword_of(t) implies modifier == Some(
                Modifier::List) && value@ == keyword_of(t) by {
                assert(define.value@[4] == ' ');
                assert(define.value@.contains(' '));
                if modifier is None {
                    assert(define.value@ == "list"@ + seq![' '] + keyword_of(t));
                } else {
                    let w = if modifier->0 is Optional { "optional"@ } else { "list"@ };
                    crate::de::lemma_first_space_split(w, value@, "list"@, keyword_of(t));
                }
            }
        }
        let ghost vv = value@;
        let sp = split_first_space(value.as_slice());
        proof {
            assert forall|t: Type, d: Seq<char>| define.value@ == keyword_of(t) + seq![' '] + d implies (sp matches Some(
                (a, b)) && a@ == keyword_of(t) && b@ == d) by {
                assert(vv[keyword_of(t).len() as int] == ' ');
                assert(vv.contains(' '));
                let (a, b) = sp->0;
                crate::de::lemma_first_space_split(a@, b@, keyword_of(t), d);
            }
        }
        let (tp, dflt) = match sp {
            Some((a, b)) => (a, Some(b)),
            None => (value, None),
        };
        let node_type = match Type::from_chars(tp.as_slice()) {
            Ok(t) => t,
            Err(e) => return Err(e),
        };
        let default = match dflt {
            Some(d) => match node_type.parse_value(&modifier, d.as_slice()) {
                Ok(v) => Some(v),
                Err(e) => return Err(e),
            },
            None => None,
        };
        Ok(Node { indent: define.indent, name: define.key.clone(), modifier, node_type, default })
    }

    /// Check if node indent is valid after the previous node
    pub fn is_indent_valid(&self, prev: Option<&Node>) -> (r: bool)
        ensures
            r == match prev {
                None => self.indent == 0,
                Some(p) => self.indent <= p.indent || ((p.node_type is Record
                    || p.node_type is Dictionary || p.node_type is Any) && self.indent == p.indent + 1),
            },
    {
        match prev {
            None => self.indent == 0,
            Some(p) => {
                self.indent <= p.indent || (match p.node_type {
                    Type::Record | Type::Dictionary | Type::Any => self.indent - 1 == p.indent,
                    _ => false,
                })
            },
        }
    }
}

/// A node at `indent` may follow the nodes so far: the first is at depth 0;
/// later ones at most as deep as the last, or one deeper under a record,
/// dictionary or any
pub open spec fn indent_fits(nodes: Seq<Node>, indent: int) -> bool {
    if nodes.len() == 0 {
        indent == 0
    } else {
        let p = nodes.last();
        indent <= p.indent || ((p.node_type is Record || p.node_type is Dictionary || p.node_type is Any)
            && indent == p.indent + 1)
    }
}

impl Schema {
    /// Create a new, empty schema
    pub fn new() -> (r: Schema)
        ensures
            r.nodes@.len() == 0,
            !r.finished,
    {
        Schema { nodes: Vec::new(), finished: false }
    }

    /// Add a node, checking its indent against the last one
    fn add_node(&mut self, node: Node) -> (r: Result<(), ParseError>)
        ensures
            final(self).finished == old(self).finished,
            r is Ok <==> indent_fits(old(self).nodes@, node.indent as int),
            r is Ok ==> final(self).nodes@ == old(self).nodes@.push(node),
            r is Ok ==> final(self).nodes@.len() == old(self).nodes@.len() + 1,
            r is Err ==> r == Err::<(), ParseError>(ParseError::InvalidIndent)
                && final(self).nodes@ == old(self).nodes@,
    {
        let ok = if self.nodes.len() > 0 {
            node.is_indent_valid(Some(&self.nodes[self.nodes.len() - 1]))
        } else {
            node.is_indent_valid(None)
        };
        if !ok {
            return Err(ParseError::InvalidIndent);
        }
        self.nodes.push(node);
        Ok(())
    }

    /// Add a definition while the schema is open; `Ok(false)` once it is finished
    pub fn add_define(&mut self, def: &Define) -> (r: Result<bool, ParseError>)
        ensures
            final(self).finished == old(self).finished,
            old(self).finished ==> r == Ok::<bool, ParseError>(false) && final(self).nodes@ == old(self).nodes@,
            !old(self).finished && r is Ok ==> r == Ok::<bool, ParseError>(true)
                && final(self).nodes@.len() == old(self).nodes@.len() + 1,
            !old(self).finished && r is Ok ==> final(self).nodes@.last().indent == def.indent
                && final(self).nodes@.last().name@ == def.key@,
            !old(self).finished && indent_fits(old(self).nodes@, def.indent as int) && (exists|t: Type| keyword_of(t)
                == def.value@) ==> r == Ok::<bool, ParseError>(true),
    {
        let not_finished = !self.finished;
        if not_finished {
            let node = match Node::from_define(def) {
                Ok(n) => n,
                Err(e) => return Err(e),
            };
            match self.add_node(node) {
                Ok(()) => (),
                Err(e) => return Err(e),
            }
        }
        Ok(not_finished)
    }

    /// Finish the schema; returns whether it had been finished before
    pub fn finish(&mut self) -> (r: bool)
        ensures
            r == old(self).finished,
            final(self).finished,
            final(self).nodes@ == old(self).nodes@,
    {
        let finished = self.finished;
        self.finished = true;
        finished
    }
}

} // verus!
