use public_ip_notifier::document::{find_entry, push_entry, Document, InvalidPathError, JsonNumber};

fn text(s: &str) -> Document {
    Document::Text(s.to_string())
}

fn object(entries: Vec<(&str, Document)>) -> Document {
    Document::Object(entries.into_iter().map(|(k, v)| (k.to_string(), v)).collect())
}

#[test]
fn order_of_entries_is_irrelevant_to_equality() {
    let a = object(vec![("x", text("1")), ("y", Document::Array(vec![object(vec![("p", text("q")), ("r", text("s"))])]))]);
    let b = object(vec![("y", Document::Array(vec![object(vec![("r", text("s")), ("p", text("q"))])])), ("x", text("1"))]);
    assert_eq!(a, b);
    assert!(a.same(&b));
}

#[test]
fn order_of_elements_is_relevant_to_equality() {
    let a = Document::Array(vec![text("1"), text("2")]);
    let b = Document::Array(vec![text("2"), text("1")]);
    assert_ne!(a, b);
    assert_ne!(a, Document::Array(vec![text("1")]));
    assert_eq!(a, Document::Array(vec![text("1"), text("2")]));
}

#[test]
fn documents_that_differ_are_not_equal() {
    assert_ne!(object(vec![("x", text("1"))]), object(vec![("x", text("2"))]));
    assert_ne!(object(vec![("x", text("1"))]), object(vec![("y", text("1"))]));
    assert_ne!(object(vec![("x", text("1"))]), object(vec![("x", text("1")), ("y", text("1"))]));
    assert_ne!(object(vec![("x", text("1")), ("y", text("1"))]), object(vec![("x", text("1"))]));
    assert_ne!(object(vec![]), Document::Null);
    assert_ne!(Document::Array(vec![]), object(vec![]));
    assert_ne!(Document::Bool(true), Document::Bool(false));
    assert_ne!(text("1"), Document::from_u64(1));
    assert_eq!(Document::Null, Document::Null);
}

#[test]
fn an_overridden_entry_does_not_count() {
    let a = object(vec![("x", text("old")), ("x", text("new"))]);
    assert_eq!(a, object(vec![("x", text("new"))]));
    assert_ne!(a, object(vec![("x", text("old"))]));
}

#[test]
fn numbers_are_equal_by_what_they_hold() {
    assert_eq!(JsonNumber::Unsigned(5), JsonNumber::Signed(5));
    assert_eq!(JsonNumber::Signed(0), JsonNumber::Unsigned(0));
    assert_ne!(JsonNumber::Signed(-5), JsonNumber::Unsigned(5));
    assert_ne!(JsonNumber::Unsigned(u64::MAX), JsonNumber::Signed(-1));
    assert_eq!(JsonNumber::Real("1.5".to_string()), JsonNumber::Real("1.5".to_string()));
    assert_ne!(JsonNumber::Real("1.5".to_string()), JsonNumber::Real("2.5".to_string()));
    assert_ne!(JsonNumber::Real("5".to_string()), JsonNumber::Unsigned(5));
}

#[test]
fn clone_gives_an_equal_document() {
    let a = object(vec![
        ("n", Document::Number(JsonNumber::Real("1.5".to_string()))),
        ("l", Document::Array(vec![Document::Null, Document::Bool(true), Document::from_u64(3)])),
        ("o", object(vec![("t", text("x"))])),
    ]);
    assert_eq!(a.clone(), a);
    assert_eq!(JsonNumber::Signed(-3).clone(), JsonNumber::Signed(-3));
}

#[test]
fn get_finds_the_last_entry_of_a_key() {
    let a = object(vec![("x", text("old")), ("y", text("other")), ("x", text("new"))]);
    assert_eq!(a.get("x"), Some(&text("new")));
    assert_eq!(a.get("y"), Some(&text("other")));
    assert_eq!(a.get("z"), None);
    assert_eq!(text("x").get("x"), None);
    assert_eq!(Document::Null.get("x"), None);
    match &a {
        Document::Object(entries) => {
            assert_eq!(find_entry(entries, &"x".to_string()), Some(2));
            assert_eq!(find_entry(entries, &"y".to_string()), Some(1));
            assert_eq!(find_entry(entries, &"z".to_string()), None);
        }
        other => panic!("not an object: {:?}", other),
    }
}

#[test]
fn set_replaces_or_adds() {
    let a = object(vec![("x", text("1"))]);
    let b = a.set("x".to_string(), text("2")).unwrap();
    assert_eq!(b, object(vec![("x", text("2"))]));
    let c = b.set("y".to_string(), text("3")).unwrap();
    assert_eq!(c, object(vec![("x", text("2")), ("y", text("3"))]));
    assert_eq!(Document::Null.set("k".to_string(), text("v")), Ok(object(vec![("k", text("v"))])));
    assert_eq!(text("t").set("k".to_string(), text("v")), Err(InvalidPathError::NotAnObject));
    assert_eq!(
        Document::Array(vec![]).set("k".to_string(), text("v")),
        Err(InvalidPathError::NotAnObject)
    );
    assert_eq!(Document::empty_object(), object(vec![]));
}

#[test]
fn push_entry_adds_at_the_end() {
    let mut entries = vec![("a".to_string(), text("1"))];
    push_entry(&mut entries, "b", text("2"));
    assert_eq!(entries.len(), 2);
    assert_eq!(entries[1].0, "b");
    assert_eq!(Document::Object(entries), object(vec![("a", text("1")), ("b", text("2"))]));
}

#[test]
fn readers_give_what_the_document_holds() {
    assert_eq!(Document::from_u64(7).as_u64(), Some(7));
    assert_eq!(Document::Number(JsonNumber::Signed(7)).as_u64(), Some(7));
    assert_eq!(Document::Number(JsonNumber::Signed(-7)).as_u64(), None);
    assert_eq!(Document::Number(JsonNumber::Real("7.0".to_string())).as_u64(), None);
    assert_eq!(text("7").as_u64(), None);
    assert_eq!(text("7").as_str(), Some("7"));
    assert_eq!(Document::from_u64(7).as_str(), None);
}
