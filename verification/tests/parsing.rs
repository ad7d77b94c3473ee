use rfc822ish::ParseErrorKind;
use rfc822ish::RFC822ish;

fn values(doc: &RFC822ish, name: &str) -> Vec<String> {
    doc.fields.get(name).expect("field should be present")
}

fn owned(items: &[&str]) -> Vec<String> {
    items.iter().map(|s| s.to_string()).collect()
}

#[test]
fn test_successful_parsing() {
    let doc = RFC822ish::parse("A: b\nC: d\n   continued\n\nthis is the\nbody!\n").unwrap();
    assert_eq!(values(&doc, "A"), owned(&["b"]));
    assert_eq!(values(&doc, "C"), owned(&["d\n   continued"]));
    assert_eq!(doc.fields.names().len(), 2);
    assert_eq!(doc.body, Some("this is the\nbody!\n".to_string()));

    let doc = RFC822ish::parse("no: body\n").unwrap();
    assert_eq!(values(&doc, "no"), owned(&["body"]));
    assert_eq!(doc.fields.names().len(), 1);
    assert_eq!(doc.body, None);

    let doc =
        RFC822ish::parse("duplicate: one\nduplicate: two\nanother: field\nduplicate: three\n")
            .unwrap();
    assert_eq!(values(&doc, "duplicate"), owned(&["one", "two", "three"]));
    assert_eq!(values(&doc, "another"), owned(&["field"]));
    assert_eq!(doc.fields.names().len(), 2);
    assert_eq!(doc.body, None);

    let doc = RFC822ish::parse("no: trailing newline").unwrap();
    assert_eq!(values(&doc, "no"), owned(&["trailing newline"]));
    assert_eq!(doc.fields.names().len(), 1);
    assert_eq!(doc.body, None);
}

#[test]
fn test_failed_parsing() {
    let test_cases = vec![
        "",
        "   continuation line\nat: beginning\n\nnot good\n",
        "bad key name: whee\n",
        ": no key name\n",
    ];
    for test_case in test_cases {
        let got = RFC822ish::parse(test_case);
        println!("{:?} -> {:?}", test_case, got);
        assert!(got.is_err());
    }
}

#[test]
fn round_trip_of_plain_value() {
    let doc = RFC822ish::parse("Name: value, with: punctuation\n").unwrap();
    assert_eq!(values(&doc, "Name"), owned(&["value, with: punctuation"]));
    assert_eq!(doc.body, None);
}

#[test]
fn continuation_preserves_line_endings() {
    let doc = RFC822ish::parse("C: d\n   continued\n\n").unwrap();
    assert_eq!(values(&doc, "C"), owned(&["d\n   continued"]));
    assert_eq!(doc.fields.names().len(), 1);
    // the blank line after the header opens a body, even an empty one
    assert_eq!(doc.body, Some(String::new()));
}

#[test]
fn carriage_return_line_endings() {
    let doc = RFC822ish::parse("A: b\r\n   c\r\nD: e\r").unwrap();
    assert_eq!(values(&doc, "A"), owned(&["b\r\n   c"]));
    assert_eq!(values(&doc, "D"), owned(&["e"]));
    assert_eq!(doc.fields.names().len(), 2);
    assert_eq!(doc.body, None);

    let doc = RFC822ish::parse("A: b\r c\nE: f\r\n\r\nbody\r\n").unwrap();
    assert_eq!(values(&doc, "A"), owned(&["b\r c"]));
    assert_eq!(values(&doc, "E"), owned(&["f"]));
    assert_eq!(doc.body, Some("body\r\n".to_string()));
}

#[test]
fn separator_swallows_spaces_and_tabs() {
    let doc = RFC822ish::parse("foo: \tbar  \n  baz\r\n").unwrap();
    assert_eq!(values(&doc, "foo"), owned(&["bar  \n  baz"]));

    let doc = RFC822ish::parse("a:\tb\n").unwrap();
    assert_eq!(values(&doc, "a"), owned(&["b"]));
}

#[test]
fn empty_values_are_kept() {
    let doc = RFC822ish::parse("a:\n").unwrap();
    assert_eq!(values(&doc, "a"), owned(&[""]));
    assert_eq!(doc.body, None);

    let doc = RFC822ish::parse("a: b\n\n").unwrap();
    assert_eq!(values(&doc, "a"), owned(&["b"]));
    assert_eq!(doc.body, Some(String::new()));
}

#[test]
fn absent_fields_are_absent() {
    let doc = RFC822ish::parse("present: yes\n").unwrap();
    assert!(doc.fields.get("absent").is_none());
    assert!(doc.fields.get("Present").is_none());
}

#[test]
fn error_positions_and_kinds() {
    let e = RFC822ish::parse("").unwrap_err();
    assert_eq!(e.kind, ParseErrorKind::FieldName);
    assert_eq!(e.offset, 0);

    let e = RFC822ish::parse(": no key name\n").unwrap_err();
    assert_eq!(e.kind, ParseErrorKind::FieldName);
    assert_eq!(e.offset, 0);

    let e = RFC822ish::parse("bad key name: whee\n").unwrap_err();
    assert_eq!(e.kind, ParseErrorKind::Separator);
    assert_eq!(e.offset, 3);

    // trailing content where another field would have to begin
    let e = RFC822ish::parse("good: field\n%%%\n").unwrap_err();
    assert_eq!(e.kind, ParseErrorKind::Separator);

    let e = RFC822ish::parse("good: field\nno-colon").unwrap_err();
    assert_eq!(e.kind, ParseErrorKind::Separator);
}

#[test]
fn name_scan_is_exact() {
    // 0x21..0x39 and 0x3b..0x7e are name characters; space is not
    let doc = RFC822ish::parse("!#9;~z: ok\n").unwrap();
    assert_eq!(values(&doc, "!#9;~z"), owned(&["ok"]));

    // a non-ASCII character cannot stand in a name
    assert!(RFC822ish::parse("n\u{e9}: nope\n").is_err());
    // but a value may hold anything except bare line breaks
    let doc = RFC822ish::parse("greeting: caf\u{e9} \u{2603}\n").unwrap();
    assert_eq!(values(&doc, "greeting"), owned(&["caf\u{e9} \u{2603}"]));
}
