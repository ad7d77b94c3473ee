use rfc822ish::parse_metadata;
use rfc822ish::FieldMap;

#[test]
fn append_accumulates_in_order() {
    let mut m = FieldMap::new();
    assert!(m.get("k").is_none());
    m.append("k".to_string(), "one".to_string());
    m.append("other".to_string(), "x".to_string());
    m.append("k".to_string(), "two".to_string());
    assert_eq!(m.get("k").unwrap(), vec!["one".to_string(), "two".to_string()]);
    assert_eq!(m.get("other").unwrap(), vec!["x".to_string()]);
    let names = m.names();
    assert_eq!(names, vec!["k".to_string(), "other".to_string()]);
}

#[test]
fn parse_metadata_entry_point() {
    let doc = parse_metadata("Metadata-Version: 2.1\nName: example\n").unwrap();
    assert_eq!(
        doc.fields.get("Metadata-Version").unwrap(),
        vec!["2.1".to_string()]
    );
    assert_eq!(doc.fields.get("Name").unwrap(), vec!["example".to_string()]);
    assert_eq!(doc.body, None);

    assert!(parse_metadata("").is_err());
}
