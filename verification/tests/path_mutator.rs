use public_ip_notifier::document::{Document, InvalidPathError};
use public_ip_notifier::path::write_nested_json_no_io;

fn text(s: &str) -> Document {
    Document::Text(s.to_string())
}

fn object(entries: Vec<(&str, Document)>) -> Document {
    Document::Object(entries.into_iter().map(|(k, v)| (k.to_string(), v)).collect())
}

fn write(json: Document, keys: &str, value: Document) -> Result<Document, InvalidPathError> {
    write_nested_json_no_io(json, keys.to_string(), value)
}

#[test]
fn nested_keys_are_created() {
    let got = write(object(vec![]), "a.b", text("x"));
    assert_eq!(got, Ok(object(vec![("a", object(vec![("b", text("x"))]))])));
}

#[test]
fn subscript_on_empty_array_appends() {
    let start = object(vec![("arr", Document::Array(vec![]))]);
    let once = write(start, "arr[0]", text("y")).unwrap();
    assert_eq!(once, object(vec![("arr", Document::Array(vec![text("y")]))]));
    let twice = write(once, "arr[5]", text("z")).unwrap();
    assert_eq!(twice, object(vec![("arr", Document::Array(vec![text("y"), text("z")]))]));
}

#[test]
fn plain_key_is_set_directly() {
    let got = write(object(vec![]), "key", text("v"));
    assert_eq!(got, Ok(object(vec![("key", text("v"))])));
}

#[test]
fn plain_key_replaces_its_old_value_in_place() {
    let start = object(vec![("a", text("1")), ("b", text("2"))]);
    let got = write(start, "a", text("3"));
    assert_eq!(got, Ok(object(vec![("a", text("3")), ("b", text("2"))])));
}

#[test]
fn null_counts_as_an_empty_object() {
    assert_eq!(write(Document::Null, "a", text("v")), Ok(object(vec![("a", text("v"))])));
    let start = object(vec![("a", Document::Null)]);
    assert_eq!(
        write(start, "a.b", text("v")),
        Ok(object(vec![("a", object(vec![("b", text("v"))]))]))
    );
}

#[test]
fn subscript_descends_into_an_element() {
    let start = object(vec![(
        "key",
        Document::Array(vec![object(vec![("nestedKey", text("oldValue"))])]),
    )]);
    let got = write(start, "key[0].nestedKey", text("newValue"));
    assert_eq!(
        got,
        Ok(object(vec![(
            "key",
            Document::Array(vec![object(vec![("nestedKey", text("newValue"))])]),
        )]))
    );
}

#[test]
fn subscript_at_the_end_replaces_the_element() {
    let start = object(vec![("a", Document::Array(vec![text("0"), text("1"), text("2")]))]);
    let got = write(start, "a[1]", text("x"));
    assert_eq!(
        got,
        Ok(object(vec![("a", Document::Array(vec![text("0"), text("x"), text("2")]))]))
    );
}

#[test]
fn subscripts_follow_one_another() {
    let start = object(vec![(
        "m",
        Document::Array(vec![Document::Array(vec![text("a"), text("b")])]),
    )]);
    let got = write(start, "m[0][1]", text("x"));
    assert_eq!(
        got,
        Ok(object(vec![("m", Document::Array(vec![Document::Array(vec![text("a"), text("x")])]))]))
    );
}

#[test]
fn missing_array_is_created_for_a_subscript() {
    let got = write(object(vec![]), "list[0]", text("first"));
    assert_eq!(got, Ok(object(vec![("list", Document::Array(vec![text("first")]))])));
}

#[test]
fn append_ignores_the_rest_of_the_path() {
    let start = object(vec![("a", Document::Array(vec![]))]);
    let got = write(start, "a[0].b.c", text("v"));
    assert_eq!(got, Ok(object(vec![("a", Document::Array(vec![text("v")]))])));
}

#[test]
fn malformed_rest_after_an_append_is_refused() {
    for path in ["a[0].", "a[0][x", "a[0][", "a[0]b", "a[5].b.", "a[0].b[", "a[0][1]x", "a[0]..b["] {
        assert_eq!(write(object(vec![]), path, text("v")), Err(InvalidPathError::Syntax), "{}", path);
        let filled = object(vec![("a", Document::Array(vec![object(vec![])]))]);
        assert_eq!(write(filled, path, text("v")), Err(InvalidPathError::Syntax), "{}", path);
    }
}

#[test]
fn malformed_path_is_refused_whatever_the_document_holds() {
    for path in ["", "a.", "a[x]", "a[", "a.b.", "a[1"] {
        for doc in [Document::Null, text("t"), Document::Array(vec![]), object(vec![("a", text("t"))])] {
            assert_eq!(write(doc, path, text("v")), Err(InvalidPathError::Syntax), "{}", path);
        }
    }
}

#[test]
fn subscript_without_a_key_addresses_an_array_document() {
    let list = || Document::Array(vec![text("0"), object(vec![("k", text("1"))])]);
    assert_eq!(
        write(list(), "[0]", text("x")),
        Ok(Document::Array(vec![text("x"), object(vec![("k", text("1"))])]))
    );
    assert_eq!(
        write(list(), "[1].k", text("x")),
        Ok(Document::Array(vec![text("0"), object(vec![("k", text("x"))])]))
    );
    assert_eq!(
        write(list(), "[7]", text("x")),
        Ok(Document::Array(vec![text("0"), object(vec![("k", text("1"))]), text("x")]))
    );
    let nested = object(vec![("a", Document::Array(vec![Document::Array(vec![text("0")])]))]);
    assert_eq!(
        write(nested, "a[0].[0]", text("x")),
        Ok(object(vec![("a", Document::Array(vec![Document::Array(vec![text("x")])]))]))
    );
    assert_eq!(
        write(object(vec![]), "[0]", text("x")),
        Ok(object(vec![("", Document::Array(vec![text("x")]))]))
    );
    assert_eq!(write(list(), "a[0]", text("x")), Err(InvalidPathError::NotAnObject));
    assert_eq!(write(list(), "a", text("x")), Err(InvalidPathError::NotAnObject));
}

#[test]
fn index_with_several_digits() {
    let items: Vec<Document> = (0..12).map(|n| Document::from_u64(n)).collect();
    let mut expected = items.clone();
    expected[11] = text("x");
    let got = write(object(vec![("a", Document::Array(items))]), "a[11]", text("x"));
    assert_eq!(got, Ok(object(vec![("a", Document::Array(expected))])));
}

#[test]
fn index_beyond_any_length_appends() {
    let start = object(vec![("a", Document::Array(vec![text("0")]))]);
    let got = write(start, "a[99999999999999999999999999999999]", text("x"));
    assert_eq!(got, Ok(object(vec![("a", Document::Array(vec![text("0"), text("x")]))])));
}

#[test]
fn stray_closing_bracket_is_skipped() {
    assert_eq!(write(object(vec![]), "a]b", text("v")), Ok(object(vec![("ab", text("v"))])));
    let start = object(vec![("a", Document::Array(vec![text("0")]))]);
    assert_eq!(
        write(start, "a[0]]", text("v")),
        Ok(object(vec![("a", Document::Array(vec![text("v")]))]))
    );
}

#[test]
fn empty_key_in_the_middle_is_a_key() {
    assert_eq!(
        write(object(vec![]), ".a", text("v")),
        Ok(object(vec![("", object(vec![("a", text("v"))]))]))
    );
}

#[test]
fn trailing_dot_is_refused() {
    assert_eq!(write(object(vec![]), "a.", text("v")), Err(InvalidPathError::Syntax));
}

#[test]
fn empty_path_is_refused() {
    assert_eq!(write(object(vec![]), "", text("v")), Err(InvalidPathError::Syntax));
}

#[test]
fn malformed_brackets_are_refused() {
    let start = || object(vec![("a", Document::Array(vec![text("0")]))]);
    assert_eq!(write(start(), "a[x]", text("v")), Err(InvalidPathError::Syntax));
    assert_eq!(write(start(), "a[]", text("v")), Err(InvalidPathError::Syntax));
    assert_eq!(write(start(), "a[0", text("v")), Err(InvalidPathError::Syntax));
    assert_eq!(write(start(), "a[", text("v")), Err(InvalidPathError::Syntax));
    assert_eq!(write(start(), "a[-1]", text("v")), Err(InvalidPathError::Syntax));
    assert_eq!(write(start(), "a[0]b", text("v")), Err(InvalidPathError::Syntax));
    assert_eq!(write(start(), "a[0].", text("v")), Err(InvalidPathError::Syntax));
}

#[test]
fn key_on_something_that_is_no_object_is_refused() {
    assert_eq!(write(text("t"), "a", text("v")), Err(InvalidPathError::NotAnObject));
    let start = object(vec![("a", Document::from_u64(1))]);
    assert_eq!(write(start, "a.b", text("v")), Err(InvalidPathError::NotAnObject));
    assert_eq!(write(Document::Array(vec![]), "a[0]", text("v")), Err(InvalidPathError::NotAnObject));
}

#[test]
fn subscript_on_something_that_is_no_array_is_refused() {
    let start = object(vec![("a", text("t"))]);
    assert_eq!(write(start, "a[0]", text("v")), Err(InvalidPathError::NotAnArray));
    let null = object(vec![("a", Document::Null)]);
    assert_eq!(write(null, "a[0]", text("v")), Err(InvalidPathError::NotAnArray));
    let nested = object(vec![("a", Document::Array(vec![text("t")]))]);
    assert_eq!(write(nested, "a[0][0]", text("v")), Err(InvalidPathError::NotAnArray));
}

#[test]
fn everything_else_is_left_as_it_was() {
    let start = object(vec![
        ("keep", Document::Array(vec![Document::Bool(true), Document::Null])),
        ("a", object(vec![("x", text("1")), ("y", text("2"))])),
        ("z", Document::from_u64(7)),
    ]);
    let got = write(start, "a.y", text("new")).unwrap();
    assert_eq!(
        got,
        object(vec![
            ("keep", Document::Array(vec![Document::Bool(true), Document::Null])),
            ("a", object(vec![("x", text("1")), ("y", text("new"))])),
            ("z", Document::from_u64(7)),
        ])
    );
}

#[test]
fn writing_twice_is_writing_the_second_value() {
    let start = || {
        object(vec![
            ("a", object(vec![("b", Document::Array(vec![text("0"), text("1")]))])),
            ("c", text("c")),
        ])
    };
    for path in ["a.b[1]", "a.b[2]", "a.new.deep", "c", "fresh[0]", "a.b"] {
        let once = write(start(), path, text("first")).unwrap();
        let twice = write(once, path, text("second"));
        let direct = write(start(), path, text("second"));
        assert_eq!(twice, direct, "path {}", path);
        assert!(direct.is_ok(), "path {}", path);
    }
}

#[test]
fn appending_past_the_end_twice_appends_twice() {
    let start = || object(vec![("a", Document::Array(vec![]))]);
    let once = write(start(), "a[5]", text("first")).unwrap();
    let twice = write(once, "a[5]", text("second")).unwrap();
    assert_eq!(twice, object(vec![("a", Document::Array(vec![text("first"), text("second")]))]));
    let direct = write(start(), "a[5]", text("second")).unwrap();
    assert_eq!(direct, object(vec![("a", Document::Array(vec![text("second")]))]));
}
