use muon_rs::{Date, DateTime, Deserializer, Error, NumLiteral, ParseError, Sign, Time};

fn names(v: &[&str]) -> Vec<String> {
    v.iter().map(|s| s.to_string()).collect()
}

fn key(de: &mut Deserializer) -> Option<String> {
    de.next_key().unwrap()
}

fn f32_of(n: NumLiteral) -> Option<f32> {
    match n {
        NumLiteral::Infinity(Sign::Negative) => Some(f32::NEG_INFINITY),
        NumLiteral::Infinity(Sign::Positive) => Some(f32::INFINITY),
        NumLiteral::NaN(_) => Some(f32::NAN),
        NumLiteral::Decimal(sign, text) => {
            let x = text.parse::<f32>().ok()?;
            Some(if sign == Sign::Negative { -x } else { x })
        }
    }
}

fn f64_of(n: NumLiteral) -> Option<f64> {
    match n {
        NumLiteral::Infinity(Sign::Negative) => Some(f64::NEG_INFINITY),
        NumLiteral::Infinity(Sign::Positive) => Some(f64::INFINITY),
        NumLiteral::NaN(_) => Some(f64::NAN),
        NumLiteral::Decimal(sign, text) => {
            let x = text.parse::<f64>().ok()?;
            Some(if sign == Sign::Negative { -x } else { x })
        }
    }
}

/// Reads `{b: bool, uint: u32, int: i32}`
fn read_integers(data: &str) -> (bool, u32, i32) {
    let mut de = Deserializer::new(data);
    de.begin_struct(&names(&["b", "uint", "int"]));
    assert_eq!(key(&mut de), Some("b".to_string()));
    let b = de.parse_bool().unwrap();
    assert_eq!(key(&mut de), Some("uint".to_string()));
    let uint = de.parse_int::<u32>().unwrap();
    assert_eq!(key(&mut de), Some("int".to_string()));
    let int = de.parse_int::<i32>().unwrap();
    assert_eq!(key(&mut de), None);
    (b, uint, int)
}

#[test]
fn integers() {
    assert_eq!(read_integers("b: false\nuint: 7\nint: -5\n"), (false, 7, -5));
    assert_eq!(
        read_integers("b: true\nuint: xF00D\nint: b1111_0000_1111\n"),
        (true, 0xF00D, 0xF0F)
    );
}

/// Reads `{flags: Vec<bool>, values: Vec<String>, ints: [i16; 3]}`
fn read_lists(data: &str) -> (Vec<bool>, Vec<String>, [i16; 3]) {
    let mut de = Deserializer::new(data);
    de.begin_struct(&names(&["flags", "values", "ints"]));
    let mut flags = Vec::new();
    let mut values = Vec::new();
    let mut ints = [0i16; 3];
    while let Some(k) = key(&mut de) {
        de.begin_seq().unwrap();
        match k.as_str() {
            "flags" => {
                while de.next_element().unwrap() {
                    flags.push(de.parse_bool().unwrap());
                }
            }
            "values" => {
                while de.next_element().unwrap() {
                    values.push(de.str_value().unwrap());
                }
            }
            "ints" => {
                for i in ints.iter_mut() {
                    assert!(de.next_element().unwrap());
                    *i = de.parse_int::<i16>().unwrap();
                }
            }
            _ => panic!("unexpected key {k}"),
        }
    }
    (flags, values, ints)
}

#[test]
fn lists() {
    let data = "flags: false true true false\nvalues: Hello World\nints: 1 2 -5\n";
    assert_eq!(
        read_lists(data),
        (
            vec![false, true, true, false],
            vec!["Hello".to_string(), "World".to_string()],
            [1, 2, -5]
        )
    );
    let data = "flags: true true\nflags: false false\nints: 30 -25 0\n";
    assert_eq!(read_lists(data), (vec![true, true, false, false], Vec::new(), [30, -25, 0]));
}

/// Reads `{float: f32, double: f64}`
fn read_numbers(data: &str) -> Result<(f32, f64), Error> {
    let mut de = Deserializer::new(data);
    de.begin_struct(&names(&["float", "double"]));
    assert_eq!(key(&mut de), Some("float".to_string()));
    let float = f32_of(de.parse_number()?).ok_or(Error::FailedParse(ParseError::ExpectedNumber))?;
    assert_eq!(key(&mut de), Some("double".to_string()));
    let double = f64_of(de.parse_number()?).ok_or(Error::FailedParse(ParseError::ExpectedNumber))?;
    Ok((float, double))
}

#[test]
fn de_numbers() {
    assert_eq!(
        read_numbers("float: +3.1415927\ndouble: -123.456789e0\n").unwrap(),
        (std::f32::consts::PI, -123.456789)
    );
    assert_eq!(read_numbers("float: 1e15\ndouble: inf\n").unwrap(), (1e15, f64::INFINITY));
    assert_eq!(
        read_numbers("float: 8_765.432\ndouble: -inf\n").unwrap(),
        (8_765.432, f64::NEG_INFINITY)
    );
    assert!(read_numbers("float: 123_.456\ndouble: 1.0\n").is_err());
    assert!(read_numbers("float: _123.456\ndouble: 1.0\n").is_err());
    assert!(read_numbers("float: 123.456_\ndouble: 1.0\n").is_err());
    assert!(read_numbers("float: 123.456\ndouble: 1__0.0\n").is_err());
    assert!(read_numbers("float: .123_456\ndouble: 1.0\n").is_err());
}

#[test]
fn number_scenarios() {
    assert_eq!(
        read_numbers("float: 123_.456\ndouble: 1.0\n"),
        Err(Error::FailedParse(ParseError::ExpectedNumber))
    );
    assert_eq!(
        read_numbers("float: 8_765.432_1\ndouble: 1.0\n").unwrap(),
        (8765.4321, 1.0)
    );
}

/// Reads `{nested: {wrapper: {int: i64}, flag: bool}}`
fn read_nesting(data: &str) -> (i64, bool) {
    let mut de = Deserializer::new(data);
    de.begin_struct(&names(&["nested"]));
    assert_eq!(key(&mut de), Some("nested".to_string()));
    de.begin_struct(&names(&["wrapper", "flag"]));
    let mut int = 0;
    let mut flag = true;
    while let Some(k) = key(&mut de) {
        match k.as_str() {
            "wrapper" => {
                de.begin_struct(&names(&["int"]));
                assert_eq!(key(&mut de), Some("int".to_string()));
                int = de.parse_int::<i64>().unwrap();
                assert_eq!(key(&mut de), None);
            }
            "flag" => flag = de.parse_bool().unwrap(),
            _ => panic!("unexpected key {k}"),
        }
    }
    assert_eq!(key(&mut de), None);
    (int, flag)
}

#[test]
fn nesting() {
    let data = "nested:\n  wrapper:\n    int: 321\n  flag: false\n";
    assert_eq!(read_nesting(data), (321, false));
    let data = "nested:\n  flag: false\n  wrapper:\n    int: 321\n";
    assert_eq!(read_nesting(data), (321, false));
    // a substituted first field given again is handed out twice: the host
    // shape rejects the duplicate
    let mut de = Deserializer::new("wrapper: 223344\n  int: 55\n");
    de.begin_struct(&names(&["wrapper", "flag"]));
    assert_eq!(key(&mut de), Some("wrapper".to_string()));
    de.begin_struct(&names(&["int"]));
    assert_eq!(key(&mut de), Some("int".to_string()));
    assert_eq!(de.parse_int::<i64>().unwrap(), 223344);
    assert_eq!(key(&mut de), Some("int".to_string()));
}

fn read_char(data: &str) -> Result<char, Error> {
    let mut de = Deserializer::new(data);
    de.begin_struct(&names(&["char"]));
    assert_eq!(key(&mut de), Some("char".to_string()));
    de.parse_char()
}

#[test]
fn char_append() {
    assert_eq!(read_char("char: \u{e7}\n").unwrap(), '\u{e7}');
    assert_eq!(read_char("char:\n    :>\n").unwrap(), '\n');
    match read_char("char: \u{e7}\n    :>append some junk\n").unwrap_err() {
        Error::FailedParse(ParseError::ExpectedChar) => (),
        r => panic!("bad result: {r:?}"),
    }
}

#[test]
fn text_append() {
    let data = "string: This is a long string\n      :>for testing\n      :>append definitions\n";
    let mut de = Deserializer::new(data);
    de.begin_struct(&names(&["string"]));
    assert_eq!(key(&mut de), Some("string".to_string()));
    assert_eq!(
        de.str_value().unwrap(),
        "This is a long string\nfor testing\nappend definitions"
    );
    assert_eq!(key(&mut de), None);

    let mut de = Deserializer::new("string: test\njunk: stuff\n");
    de.begin_struct(&names(&["string"]));
    assert_eq!(key(&mut de), Some("string".to_string()));
    assert_eq!(de.str_value().unwrap(), "test");
    assert!(!de.branch_done().unwrap());
    match de.any_value().unwrap_err() {
        Error::FailedParse(ParseError::UnexpectedKey) => (),
        r => panic!("bad result: {r:?}"),
    }
}

#[test]
fn text_append_two_lines() {
    let data = "string: This is a long string\n      :>for testing\n";
    let mut de = Deserializer::new(data);
    de.begin_struct(&names(&["string"]));
    assert_eq!(key(&mut de), Some("string".to_string()));
    assert_eq!(de.str_value().unwrap(), "This is a long string\nfor testing");
    assert_eq!(key(&mut de), None);
}

#[test]
fn de_text_list() {
    let data = "strings: first second third\n       :>item\n       : fourth\n       :=fifth item\n       : sixth\n";
    let mut de = Deserializer::new(data);
    de.begin_struct(&names(&["strings"]));
    assert_eq!(key(&mut de), Some("strings".to_string()));
    de.begin_seq().unwrap();
    let mut strings = Vec::new();
    while de.next_element().unwrap() {
        strings.push(de.str_value().unwrap());
    }
    assert_eq!(strings, vec!["first", "second", "third\nitem", "fourth", "fifth item", "sixth"]);
}

/// Reads `{flag: Option<bool>, int: Option<i64>, float: Option<f32>}`
fn read_options(data: &str) -> (Option<bool>, Option<i64>, Option<f32>) {
    let mut de = Deserializer::new(data);
    de.begin_struct(&names(&["flag", "int", "float"]));
    let (mut flag, mut int, mut float) = (None, None, None);
    while let Some(k) = key(&mut de) {
        let present = de.begin_option().unwrap();
        match k.as_str() {
            "flag" if present => flag = Some(de.parse_bool().unwrap()),
            "int" if present => int = Some(de.parse_int::<i64>().unwrap()),
            "float" if present => float = f32_of(de.parse_number().unwrap()),
            _ => (),
        }
    }
    (flag, int, float)
}

#[test]
fn options() {
    assert_eq!(read_options("flag: false\n"), (Some(false), None, None));
    assert_eq!(read_options("int: xfab\n"), (None, Some(0xFAB), None));
    assert_eq!(read_options("float: -5e37\n"), (None, None, Some(-5e37)));
}

/// Reads `{person: Vec<{name: String, score: i32}>}`
fn read_people(data: &str) -> Result<Vec<(String, i32)>, Error> {
    let mut de = Deserializer::new(data);
    de.begin_struct(&names(&["person"]));
    let mut people = Vec::new();
    while let Some(k) = de.next_key()? {
        assert_eq!(k, "person");
        de.begin_seq()?;
        while de.next_element()? {
            de.begin_struct(&names(&["name", "score"]));
            let (mut name, mut score) = (String::new(), 0);
            while let Some(f) = de.next_key()? {
                match f.as_str() {
                    "name" => name = de.str_value()?,
                    "score" => score = de.parse_int::<i32>()?,
                    _ => panic!("unexpected key {f}"),
                }
            }
            people.push((name, score));
        }
    }
    Ok(people)
}

#[test]
fn de_record_list() {
    let data = "person:\n   name: Genghis Khan\n   score: 500\nperson:\n   name: Josef Stalin\n   score: 250\nperson:\n   name: Dudley Do-Right\n   score: 800\n";
    assert_eq!(
        read_people(data).unwrap(),
        vec![
            ("Genghis Khan".to_string(), 500),
            ("Josef Stalin".to_string(), 250),
            ("Dudley Do-Right".to_string(), 800),
        ]
    );
}

#[test]
fn record_bad() {
    let people = "person:\n  score: 500\nperson:\n  name: Josef Stalin\n  score: 250\n";
    match read_people(people).unwrap_err() {
        Error::FailedParse(ParseError::MissingField) => (),
        r => panic!("bad error {r:?}"),
    }
}

#[test]
fn datetime() {
    let data = "name: one day\ndate: 2019-08-07\ntime: 12:34:56.789\ndatetime: 1999-12-31T23:59:59.999-00:00\n";
    let mut de = Deserializer::new(data);
    de.begin_struct(&names(&["name", "date", "time", "datetime"]));
    assert_eq!(key(&mut de), Some("name".to_string()));
    assert_eq!(de.str_value().unwrap(), "one day");
    assert_eq!(key(&mut de), Some("date".to_string()));
    let date: Date = de.str_value().unwrap().parse().unwrap();
    assert_eq!(date, "2019-08-07".parse::<Date>().unwrap());
    assert_eq!(key(&mut de), Some("time".to_string()));
    let time: Time = de.str_value().unwrap().parse().unwrap();
    assert_eq!(time, "12:34:56.789".parse::<Time>().unwrap());
    assert_eq!(key(&mut de), Some("datetime".to_string()));
    let datetime: DateTime = de.str_value().unwrap().parse().unwrap();
    assert_eq!(datetime, "1999-12-31T23:59:59.999-00:00".parse::<DateTime>().unwrap());
    assert_eq!(key(&mut de), None);
}

#[test]
fn record_substitute() {
    let data = "person: Immanuel Kant\n  score: 600\nperson: Arthur Schopenhauer\n  score: 225\nperson: Ren\u{e9} Descartes\n  score: 400\n";
    assert_eq!(
        read_people(data).unwrap(),
        vec![
            ("Immanuel Kant".to_string(), 600),
            ("Arthur Schopenhauer".to_string(), 225),
            ("Ren\u{e9} Descartes".to_string(), 400),
        ]
    );
}

#[test]
fn person_substitute_and_missing() {
    assert_eq!(
        read_people("person: Immanuel Kant\n  score: 600\n").unwrap(),
        vec![("Immanuel Kant".to_string(), 600)]
    );
    assert_eq!(
        read_people("person:\n  score: 600\n"),
        Err(Error::FailedParse(ParseError::MissingField))
    );
}

/// Reads `{thing: Vec<{name: Option<String>, id: u32}>}`
fn read_things(data: &str) -> Result<Vec<(Option<String>, u32)>, Error> {
    let mut de = Deserializer::new(data);
    de.begin_struct(&names(&["thing"]));
    let mut things = Vec::new();
    while let Some(_) = de.next_key()? {
        de.begin_seq()?;
        while de.next_element()? {
            de.begin_struct(&names(&["name", "id"]));
            let (mut name, mut id) = (None, 0);
            while let Some(f) = de.next_key()? {
                match f.as_str() {
                    "name" => {
                        if de.begin_option()? {
                            name = Some(de.str_value()?);
                        }
                    }
                    _ => id = de.parse_int::<u32>()?,
                }
            }
            things.push((name, id));
        }
    }
    Ok(things)
}

#[test]
fn record_optional() {
    assert_eq!(
        read_things("thing:\n  name: X\n  id: 1\nthing:\n  id: 2\n").unwrap(),
        vec![(Some("X".to_string()), 1), (None, 2)]
    );
    match read_things("thing: X\n  id: 1\nthing:\n  id: 2\n").unwrap_err() {
        Error::FailedParse(ParseError::InvalidSubstitute) => (),
        r => panic!("bad error {r:?}"),
    }
}

/// Reads `{name: {int: i64}, other: u32}`
fn read_substitute(data: &str) -> (i64, u32) {
    let mut de = Deserializer::new(data);
    de.begin_struct(&names(&["name", "other"]));
    assert_eq!(key(&mut de), Some("name".to_string()));
    de.begin_struct(&names(&["int"]));
    assert_eq!(key(&mut de), Some("int".to_string()));
    let int = de.parse_int::<i64>().unwrap();
    assert_eq!(key(&mut de), None);
    assert_eq!(key(&mut de), Some("other".to_string()));
    let other = de.parse_int::<u32>().unwrap();
    assert_eq!(key(&mut de), None);
    (int, other)
}

#[test]
fn substitute_record() {
    assert_eq!(read_substitute("name: 999\nother: 15\n"), (999, 15));
    assert_eq!(read_substitute("name:\n  int: 999\nother: 15\n"), (999, 15));
}

#[test]
fn no_substitute_optional() {
    let mut de = Deserializer::new("group: group label\n");
    de.begin_struct(&names(&["group"]));
    assert_eq!(key(&mut de), Some("group".to_string()));
    assert!(de.begin_option().unwrap());
    de.begin_struct(&names(&["label"]));
    assert_eq!(key(&mut de), Some("label".to_string()));
    assert_eq!(de.str_value().unwrap(), "group label");
    assert_eq!(key(&mut de), None);
    assert_eq!(key(&mut de), None);
}

#[test]
fn no_substitute_list() {
    let mut de = Deserializer::new("chan: first second\n");
    de.begin_struct(&names(&["chan"]));
    assert_eq!(key(&mut de), Some("chan".to_string()));
    de.begin_seq().unwrap();
    assert!(de.next_element().unwrap());
    de.begin_struct(&names(&["strings"]));
    assert_eq!(key(&mut de), Some("strings".to_string()));
    match de.begin_seq().unwrap_err() {
        Error::FailedParse(ParseError::InvalidSubstitute) => (),
        r => panic!("bad error {r:?}"),
    }
}

#[test]
fn inconsistent_indent() {
    let mut de = Deserializer::new("a:\n  b: 1\nc:\n   d: 2\n");
    de.begin_struct(&names(&["a", "c"]));
    assert_eq!(key(&mut de), Some("a".to_string()));
    de.begin_struct(&names(&["b"]));
    assert_eq!(key(&mut de), Some("b".to_string()));
    assert_eq!(de.parse_int::<i32>().unwrap(), 1);
    assert_eq!(key(&mut de), None);
    assert_eq!(key(&mut de), Some("c".to_string()));
    de.begin_struct(&names(&["d"]));
    assert_eq!(de.next_key(), Err(Error::FailedParse(ParseError::InvalidIndent)));
}

#[test]
fn missing_linefeed() {
    let mut de = Deserializer::new("a: 1");
    de.begin_struct(&names(&["a"]));
    assert_eq!(de.next_key(), Err(Error::FailedParse(ParseError::MissingLinefeed)));
}

#[test]
fn end_of_input() {
    let mut de = Deserializer::new("");
    de.begin_struct(&names(&["a"]));
    assert_eq!(key(&mut de), Some("a".to_string()));
    assert_eq!(de.parse_bool(), Err(Error::FailedParse(ParseError::ExpectedMore)));
}
