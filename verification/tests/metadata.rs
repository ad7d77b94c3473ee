use rfc822ish::CoreMetadata;
use rfc822ish::RFC822ish;

fn owned(items: &[&str]) -> Vec<String> {
    items.iter().map(|s| s.to_string()).collect()
}

#[test]
fn body_becomes_description() {
    let meta = CoreMetadata::parse("A: b\nC: d\n   continued\n\nthis is the\nbody!\n").unwrap();
    assert_eq!(
        meta.fields().get("Description").unwrap(),
        owned(&["this is the\nbody!\n"])
    );
    assert_eq!(meta.fields().get("A").unwrap(), owned(&["b"]));
    assert_eq!(meta.fields().get("C").unwrap(), owned(&["d\n   continued"]));
    assert_eq!(meta.fields().names().len(), 3);
}

#[test]
fn body_appends_after_explicit_description() {
    let meta = CoreMetadata::parse("Description: first\nother: x\n\nsecond body\n").unwrap();
    assert_eq!(
        meta.fields().get("Description").unwrap(),
        owned(&["first", "second body\n"])
    );
    assert_eq!(meta.fields().get("other").unwrap(), owned(&["x"]));
    assert_eq!(meta.fields().names().len(), 2);
}

#[test]
fn no_body_leaves_description_alone() {
    let meta = CoreMetadata::parse("Description: only\n").unwrap();
    assert_eq!(meta.fields().get("Description").unwrap(), owned(&["only"]));

    let meta = CoreMetadata::parse("name: pkg\n").unwrap();
    assert!(meta.fields().get("Description").is_none());
}

#[test]
fn folding_twice_changes_nothing() {
    let meta = CoreMetadata::parse("A: b\n\nthe body\n").unwrap();
    // re-wrap the folded mapping as a fresh document without a body
    let again = CoreMetadata::from_document(RFC822ish {
        fields: meta.fields().clone(),
        body: None,
    });
    let old_names = meta.fields().names();
    let new_names = again.fields().names();
    assert_eq!(old_names, new_names);
    for name in old_names {
        assert_eq!(meta.fields().get(&name), again.fields().get(&name));
    }
}

#[test]
fn parse_errors_pass_through() {
    assert!(CoreMetadata::parse("").is_err());
    assert!(CoreMetadata::parse(": no key name\n").is_err());
}
