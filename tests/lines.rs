use muon_rs::{chars_of, DefIter, Define, Line, LineIter, ParseError, Separator};

fn line(s: &str) -> Vec<char> {
    chars_of(s)
}

fn def(indent: usize, key: &str, separator: Separator, value: &str) -> Define {
    Define::new(indent, chars_of(key), separator, chars_of(value))
}

#[test]
fn valid_li() {
    let a = ":::\n# Comment\n:::\n\na: value a\nb:=value b\nc:>value c\n";
    let mut li = LineIter::new(chars_of(a));
    assert_eq!(li.next().unwrap(), Ok(Line::SchemaSeparator));
    assert_eq!(li.next().unwrap(), Ok(Line::Comment(line("# Comment"))));
    assert_eq!(li.next().unwrap(), Ok(Line::SchemaSeparator));
    assert_eq!(li.next().unwrap(), Ok(Line::Blank));
    assert_eq!(
        li.next().unwrap(),
        Ok(Line::Definition(line("a"), Separator::Normal, line("value a"))),
    );
    assert_eq!(
        li.next().unwrap(),
        Ok(Line::Definition(line("b"), Separator::TextValue, line("value b"))),
    );
    assert_eq!(
        li.next().unwrap(),
        Ok(Line::Definition(line("c"), Separator::TextAppend, line("value c"))),
    );
}

#[test]
fn invalid_li() {
    let a = ":value\nkey value\n\"key: value\"\na:value a\nb: value b";
    let mut li = LineIter::new(chars_of(a));
    assert_eq!(li.next(), Some(Err(ParseError::MissingKey)));
    assert_eq!(li.next(), Some(Err(ParseError::MissingSeparator)));
    assert_eq!(li.next(), Some(Err(ParseError::InvalidSeparator)));
    assert_eq!(li.next(), Some(Err(ParseError::InvalidSeparator)));
    assert_eq!(li.next(), Some(Err(ParseError::MissingLinefeed)));
    assert_eq!(li.next(), Some(Err(ParseError::MissingLinefeed)));
}

#[test]
fn def_iter() {
    let a = ":::\na: text\nb: text\nc: record\n  d: list bool\n:::\na: value a\n# Comment\n:::\n\nb: value b\n\nc:\n : append\n  : bad\n";
    let mut di = DefIter::new(chars_of(a));
    let d = di.next();
    assert_ne!(d, None);
    assert_eq!(d.unwrap(), Ok(def(0, "a", Separator::Normal, "value a")));
    assert_eq!(di.next(), Some(Err(ParseError::UnexpectedSchemaSeparator)));
    assert_eq!(di.next().unwrap(), Ok(def(0, "b", Separator::Normal, "value b")));
    assert_eq!(di.next().unwrap(), Ok(def(0, "c", Separator::Normal, "")));
    assert_eq!(di.next().unwrap(), Ok(def(0, "c", Separator::Normal, "append")));
    assert_eq!(di.next(), Some(Err(ParseError::InvalidIndent)));
}

#[test]
fn def_iter2() {
    let a = "a:\n  b: 1\n  cc:=this\n  c:>test\n  d:\n   x: bad\n    e: 5.5\n  f: -9\n";
    let mut di = DefIter::new(chars_of(a));
    assert_eq!(di.next().unwrap(), Ok(def(0, "a", Separator::Normal, "")));
    assert_eq!(di.next().unwrap(), Ok(def(1, "b", Separator::Normal, "1")));
    assert_eq!(di.next().unwrap(), Ok(def(1, "cc", Separator::TextValue, "this")));
    assert_eq!(di.next().unwrap(), Ok(def(1, "c", Separator::TextAppend, "test")));
    assert_eq!(di.next().unwrap(), Ok(def(1, "d", Separator::Normal, "")));
    assert_eq!(di.next(), Some(Err(ParseError::InvalidIndent)));
    assert_eq!(di.next().unwrap(), Ok(def(2, "e", Separator::Normal, "5.5")));
    assert_eq!(di.next().unwrap(), Ok(def(1, "f", Separator::Normal, "-9")));
}

#[test]
fn indent_unit_fixed() {
    let a = "a:\n  b: 1\nc:\n   d: 2\n";
    let mut di = DefIter::new(chars_of(a));
    assert_eq!(di.next().unwrap(), Ok(def(0, "a", Separator::Normal, "")));
    assert_eq!(di.next().unwrap(), Ok(def(1, "b", Separator::Normal, "1")));
    assert_eq!(di.next().unwrap(), Ok(def(0, "c", Separator::Normal, "")));
    assert_eq!(di.next(), Some(Err(ParseError::InvalidIndent)));
}

#[test]
fn indent_unit_too_wide() {
    let mut di = DefIter::new(chars_of("a:\n     b: 1\n"));
    assert_eq!(di.next().unwrap(), Ok(def(0, "a", Separator::Normal, "")));
    assert_eq!(di.next(), Some(Err(ParseError::InvalidIndent)));
}

#[test]
fn quoted_key_line() {
    let mut li = LineIter::new(chars_of("\"a \"\"b\"\": c\": v\n\"\": x\n  # note\n"));
    assert_eq!(
        li.next().unwrap(),
        Ok(Line::Definition(line("\"a \"\"b\"\": c\""), Separator::Normal, line("v"))),
    );
    assert_eq!(li.next(), Some(Err(ParseError::InvalidSeparator)));
    assert_eq!(li.next().unwrap(), Ok(Line::Comment(line("  # note"))));
    assert_eq!(li.next(), None);
}
