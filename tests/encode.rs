use muon_rs::{Deserializer, Error, Serializer};

fn put_key(s: &mut Serializer, k: &str) {
    s.begin_key();
    s.serialize_str(k).unwrap();
    s.end_key();
}

#[test]
fn struct_a() {
    let mut s = Serializer::new(2);
    s.push_stack();
    put_key(&mut s, "b");
    s.serialize_bool(true).unwrap();
    put_key(&mut s, "int");
    s.serialize_uint(1).unwrap();
    put_key(&mut s, "neg");
    s.serialize_int(-15).unwrap();
    put_key(&mut s, "string_a");
    s.serialize_str("first second").unwrap();
    s.pop_stack().unwrap();
    assert_eq!(s.to_text(), "b: true\nint: 1\nneg: -15\nstring_a: first second\n");
}

#[test]
fn struct_p() {
    let mut s = Serializer::new(2);
    s.push_stack();
    put_key(&mut s, "b");
    s.serialize_bool(true).unwrap();
    put_key(&mut s, "ubyte");
    s.serialize_uint(255).unwrap();
    put_key(&mut s, "byte");
    s.serialize_int(-128).unwrap();
    put_key(&mut s, "ushort");
    s.serialize_uint(65535).unwrap();
    put_key(&mut s, "short");
    s.serialize_int(-32768).unwrap();
    put_key(&mut s, "uint");
    s.serialize_uint(0xFFFFFFFF).unwrap();
    put_key(&mut s, "int");
    s.serialize_int(-12345678).unwrap();
    put_key(&mut s, "ulong");
    s.serialize_uint(1234567890123456).unwrap();
    put_key(&mut s, "long");
    s.serialize_int(-9876543210987654).unwrap();
    put_key(&mut s, "ull");
    s.serialize_uint(12345678901234567890).unwrap();
    put_key(&mut s, "ll");
    s.serialize_int(23456789012345678901).unwrap();
    put_key(&mut s, "float");
    s.serialize_scalar(&format!("{}", -123.456f32)).unwrap();
    put_key(&mut s, "double");
    s.serialize_scalar(&format!("{}", 789.012f64)).unwrap();
    put_key(&mut s, "ninf");
    s.serialize_scalar(&format!("{}", -f32::INFINITY)).unwrap();
    put_key(&mut s, "nan");
    s.serialize_scalar(&format!("{}", f64::NAN)).unwrap();
    s.pop_stack().unwrap();
    assert_eq!(
        s.to_text(),
        "b: true\nubyte: 255\nbyte: -128\nushort: 65535\nshort: -32768\nuint: 4294967295\nint: -12345678\nulong: 1234567890123456\nlong: -9876543210987654\null: 12345678901234567890\nll: 23456789012345678901\nfloat: -123.456\ndouble: 789.012\nninf: -inf\nnan: NaN\n"
    );
}

#[test]
fn list_b() {
    let mut s = Serializer::new(2);
    s.push_stack();
    put_key(&mut s, "b");
    s.serialize_seq();
    for v in [false, true, false] {
        s.serialize_bool(v).unwrap();
    }
    put_key(&mut s, "string_b");
    s.serialize_seq();
    for v in ["first", "second"] {
        s.serialize_str(v).unwrap();
    }
    s.pop_stack().unwrap();
    assert_eq!(s.to_text(), "b: false true false\nstring_b: first second\n");
}

#[test]
fn list_c() {
    let mut s = Serializer::new(2);
    s.push_stack();
    put_key(&mut s, "ints");
    s.serialize_seq();
    s.serialize_int(-1234567890123456).unwrap();
    s.serialize_int(55555).unwrap();
    put_key(&mut s, "string_c");
    s.serialize_seq();
    for v in ["first item", "second", "third", "fourth item"] {
        s.serialize_str(v).unwrap();
    }
    s.pop_stack().unwrap();
    assert_eq!(
        s.to_text(),
        "ints: -1234567890123456 55555\nstring_c:=first item\n        : second third\n        :=fourth item\n"
    );
}

#[test]
fn ser_text_list() {
    let mut s = Serializer::new(2);
    s.push_stack();
    put_key(&mut s, "num");
    s.serialize_uint(15).unwrap();
    put_key(&mut s, "text_list");
    s.serialize_seq();
    for v in ["first item", "second", "third", "fourth item", "fifth\nitem", "sixth"] {
        s.serialize_str(v).unwrap();
    }
    s.pop_stack().unwrap();
    assert_eq!(
        s.to_text(),
        "num: 15\ntext_list:=first item\n         : second third\n         :=fourth item\n         : fifth\n         :>item\n         : sixth\n"
    );

    let mut s = Serializer::new(2);
    s.push_stack();
    put_key(&mut s, "num");
    s.serialize_uint(12).unwrap();
    put_key(&mut s, "text_list");
    s.serialize_seq();
    s.pop_stack().unwrap();
    assert_eq!(s.to_text(), "num: 12\n");
}

#[test]
fn ser_record_list() {
    let mut s = Serializer::new(2);
    s.push_stack();
    put_key(&mut s, "struct_e");
    s.serialize_seq();
    for flag in [false, false, true, false] {
        s.push_stack();
        put_key(&mut s, "flag");
        s.serialize_bool(flag).unwrap();
        s.pop_stack().unwrap();
    }
    s.pop_stack().unwrap();
    assert_eq!(
        s.to_text(),
        "struct_e: false\nstruct_e: false\nstruct_e: true\nstruct_e: false\n"
    );
}

#[test]
fn optional() {
    let mut s = Serializer::new(2);
    s.push_stack();
    put_key(&mut s, "option_a");
    put_key(&mut s, "option_b");
    s.serialize_some();
    s.serialize_uint(37).unwrap();
    s.pop_stack().unwrap();
    assert_eq!(s.to_text(), "option_b: 37\n");

    let mut s = Serializer::new(2);
    s.push_stack();
    put_key(&mut s, "option_a");
    s.serialize_some();
    s.serialize_bool(false).unwrap();
    put_key(&mut s, "option_b");
    s.pop_stack().unwrap();
    assert_eq!(s.to_text(), "option_a: false\n");
}

#[test]
fn use_substitute() {
    let mut s = Serializer::new(2);
    s.push_stack();
    put_key(&mut s, "name");
    s.push_stack();
    put_key(&mut s, "flag");
    s.serialize_bool(true).unwrap();
    s.pop_stack().unwrap();
    put_key(&mut s, "other");
    s.serialize_uint(15).unwrap();
    s.pop_stack().unwrap();
    assert_eq!(s.to_text(), "name: true\nother: 15\n");
}

#[test]
fn no_substitute_option() {
    let mut s = Serializer::new(2);
    s.push_stack();
    put_key(&mut s, "name");
    s.push_stack();
    put_key(&mut s, "label");
    s.serialize_some();
    s.serialize_str("A label").unwrap();
    s.pop_stack().unwrap();
    put_key(&mut s, "other");
    s.serialize_uint(15).unwrap();
    s.pop_stack().unwrap();
    assert_eq!(s.to_text(), "name:\n  label: A label\nother: 15\n");

    let mut s = Serializer::new(2);
    s.push_stack();
    put_key(&mut s, "name");
    s.push_stack();
    put_key(&mut s, "label");
    s.pop_stack().unwrap();
    put_key(&mut s, "other");
    s.serialize_uint(25).unwrap();
    s.pop_stack().unwrap();
    assert_eq!(s.to_text(), "name:\nother: 25\n");
}

#[test]
fn list_record() {
    let mut s = Serializer::new(2);
    s.push_stack();
    put_key(&mut s, "record_l");
    s.push_stack();
    put_key(&mut s, "list_i");
    s.serialize_seq();
    for t in ["abc", "def", "ghi", "xyz"] {
        s.push_stack();
        put_key(&mut s, "txt");
        s.serialize_str(t).unwrap();
        s.pop_stack().unwrap();
    }
    s.pop_stack().unwrap();
    s.pop_stack().unwrap();
    assert_eq!(
        s.to_text(),
        "record_l:\n  list_i: abc\n  list_i: def\n  list_i: ghi\n  list_i: xyz\n"
    );
}

#[test]
fn map_quoted_keys() {
    let cases = [
        ("\"quoted\" key", "\"quoted\" value", "\"\"\"quoted\"\" key\": \"quoted\" value\n"),
        (" spacey key", "value", "\" spacey key\": value\n"),
        ("# commenty key", "value", "\"# commenty key\": value\n"),
        ("colon: key", "value", "\"colon: key\": value\n"),
        ("\ttabby key", "value", "\"\ttabby key\": value\n"),
        ("key\u{ff1a}fake value, ", "value", "\"key\u{ff1a}fake value, \": value\n"),
    ];
    for (k, v, expected) in cases {
        let mut s = Serializer::new(2);
        s.push_stack();
        put_key(&mut s, k);
        s.serialize_str(v).unwrap();
        s.pop_stack().unwrap();
        assert_eq!(s.to_text(), expected);
    }
}

#[test]
fn scalar_as_key_refused() {
    let mut s = Serializer::new(2);
    s.push_stack();
    s.begin_key();
    assert_eq!(s.serialize_int(5), Err(Error::InvalidKey));
    assert_eq!(s.serialize_bool(true), Err(Error::InvalidKey));
}

#[test]
fn derived_de_ser() {
    let text = "name: Me, Myself\nage: 99\ndebt: -2\n";
    let fields: Vec<String> = ["name", "age", "debt"].iter().map(|s| s.to_string()).collect();
    let mut de = Deserializer::new(text);
    de.begin_struct(&fields);
    assert_eq!(de.next_key().unwrap(), Some("name".to_string()));
    let name = de.str_value().unwrap();
    assert_eq!(de.next_key().unwrap(), Some("age".to_string()));
    let age = de.parse_int::<u8>().unwrap();
    assert_eq!(de.next_key().unwrap(), Some("debt".to_string()));
    let debt = de.parse_int::<i64>().unwrap();
    assert_eq!(de.next_key().unwrap(), None);

    let mut s = Serializer::new(2);
    s.push_stack();
    put_key(&mut s, "name");
    s.serialize_str(&name).unwrap();
    put_key(&mut s, "age");
    s.serialize_uint(age as u128).unwrap();
    put_key(&mut s, "debt");
    s.serialize_int(debt as i128).unwrap();
    s.pop_stack().unwrap();
    assert_eq!(s.to_text(), text);
}

#[test]
fn int_round_trip() {
    for v in [0i128, 7, -5, i64::MIN as i128, i128::MAX, i128::MIN] {
        let mut s = Serializer::new(2);
        s.push_stack();
        put_key(&mut s, "n");
        s.serialize_int(v).unwrap();
        s.pop_stack().unwrap();
        let text = s.to_text();
        let mut de = Deserializer::new(&text);
        de.begin_struct(&vec!["n".to_string()]);
        assert_eq!(de.next_key().unwrap(), Some("n".to_string()));
        assert_eq!(de.parse_int::<i128>().unwrap(), v);
    }
}

#[test]
fn no_substitute_option2() {
    let mut s = Serializer::new(2);
    s.push_stack();
    put_key(&mut s, "name");
    s.serialize_str("Your Name").unwrap();
    put_key(&mut s, "other");
    s.serialize_some();
    s.push_stack();
    put_key(&mut s, "label");
    s.serialize_some();
    s.serialize_str("My Name").unwrap();
    s.pop_stack().unwrap();
    s.pop_stack().unwrap();
    assert_eq!(s.to_text(), "name: Your Name\nother:\n  label: My Name\n");
}

#[test]
fn list_optional() {
    let items: [(Option<bool>, Option<u32>); 5] = [
        (None, None),
        (None, Some(55)),
        (Some(true), None),
        (Some(false), Some(99)),
        (None, None),
    ];
    let mut s = Serializer::new(2);
    s.push_stack();
    put_key(&mut s, "list_g");
    s.serialize_seq();
    for (a, b) in items {
        s.push_stack();
        put_key(&mut s, "option_a");
        if let Some(a) = a {
            s.serialize_some();
            s.serialize_bool(a).unwrap();
        }
        put_key(&mut s, "option_b");
        if let Some(b) = b {
            s.serialize_some();
            s.serialize_uint(u128::from(b)).unwrap();
        }
        s.pop_stack().unwrap();
    }
    s.pop_stack().unwrap();
    assert_eq!(
        s.to_text(),
        "list_g:\nlist_g:\n  option_b: 55\nlist_g:\n  option_a: true\nlist_g:\n  option_a: false\n  option_b: 99\nlist_g:\n"
    );
}

#[test]
fn list_vec() {
    let items: [(Option<i32>, Vec<&str>); 4] = [
        (Some(99), vec!["test"]),
        (None, vec!["abc"]),
        (Some(77), vec!["xyz"]),
        (None, vec![]),
    ];
    let mut s = Serializer::new(2);
    s.push_stack();
    put_key(&mut s, "list_j");
    s.serialize_seq();
    for (a, txts) in items {
        s.push_stack();
        put_key(&mut s, "option_a");
        if let Some(a) = a {
            s.serialize_some();
            s.serialize_int(i128::from(a)).unwrap();
        }
        put_key(&mut s, "option_b");
        s.serialize_seq();
        for t in txts {
            s.push_stack();
            put_key(&mut s, "txt");
            s.serialize_str(t).unwrap();
            s.pop_stack().unwrap();
        }
        s.pop_stack().unwrap();
    }
    s.pop_stack().unwrap();
    assert_eq!(
        s.to_text(),
        "list_j:\n  option_a: 99\n  option_b: test\nlist_j:\n  option_b: abc\nlist_j:\n  option_a: 77\n  option_b: xyz\nlist_j:\n"
    );
}

#[test]
fn date() {
    let date: muon_rs::Date = "2019-08-07".parse().unwrap();
    let time: muon_rs::Time = "12:34:56.789".parse().unwrap();
    let datetime: muon_rs::DateTime = "1999-12-31T23:59:59.999-00:00".parse().unwrap();
    let mut s = Serializer::new(2);
    s.push_stack();
    put_key(&mut s, "name");
    s.serialize_str("one day").unwrap();
    put_key(&mut s, "date");
    s.serialize_str(&date.to_string()).unwrap();
    put_key(&mut s, "time");
    s.serialize_str(&time.to_string()).unwrap();
    put_key(&mut s, "datetime");
    s.serialize_str(&datetime.to_string()).unwrap();
    s.pop_stack().unwrap();
    assert_eq!(
        s.to_text(),
        "name: one day\ndate: 2019-08-07\ntime: 12:34:56.789\ndatetime: 1999-12-31T23:59:59.999-00:00\n"
    );
}

#[test]
fn derived_ser_de() {
    let (name, age, debt) = ("First, Last", 21u8, -5_000_000i64);
    let mut s = Serializer::new(2);
    s.push_stack();
    put_key(&mut s, "name");
    s.serialize_str(name).unwrap();
    put_key(&mut s, "age");
    s.serialize_uint(u128::from(age)).unwrap();
    put_key(&mut s, "debt");
    s.serialize_int(i128::from(debt)).unwrap();
    s.pop_stack().unwrap();
    let text = s.to_text();

    let fields: Vec<String> = ["name", "age", "debt"].iter().map(|s| s.to_string()).collect();
    let mut de = Deserializer::new(&text);
    de.begin_struct(&fields);
    assert_eq!(de.next_key().unwrap(), Some("name".to_string()));
    assert_eq!(de.str_value().unwrap(), name);
    assert_eq!(de.next_key().unwrap(), Some("age".to_string()));
    assert_eq!(de.parse_int::<u8>().unwrap(), age);
    assert_eq!(de.next_key().unwrap(), Some("debt".to_string()));
    assert_eq!(de.parse_int::<i64>().unwrap(), debt);
    assert_eq!(de.next_key().unwrap(), None);
}
