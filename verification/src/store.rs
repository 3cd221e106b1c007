//! The document store without its file: what is read from the contents of
//! the file, and what is written to it.

use crate::config::number_tree;
use crate::document::{
    elements, key_ordered, lemma_members_unfold, push_entry, tree_member, with_member, Document,
    InvalidPathError, Tree,
};
use crate::error::StoreError;
use crate::json::{
    compact_text, json_compact, json_parse, json_pretty, parse_document, pretty_text, writable,
};
use vstd::prelude::*;

verus! {

/// The document that a new file is created with.
pub open spec fn default_tree() -> Tree {
    Tree::Object(
        Map::<Seq<char>, Tree>::empty().insert(
            "emailAddress"@,
            Tree::Text("me@example.com"@),
        ).insert("emailPassword"@, Tree::Text("1243124231"@)).insert(
            "emailSMTPHost"@,
            Tree::Text("smtp.example.com"@),
        ).insert("emailSMTPPort"@, number_tree(465)).insert(
            "recipientAddress"@,
            Tree::Text("person@example.com"@),
        ).insert("checkIntervalMinutes"@, number_tree(15)).insert(
            "ipAddress"@,
            Tree::Text("127.0.0.1"@),
        ),
    )
}

/// What the contents of the file stand for: the tree that is read from
/// them, null where the file is empty, nothing where they are malformed.
pub open spec fn loaded(contents: Seq<char>) -> Option<Tree> {
    if contents.len() == 0 {
        Some(Tree::Null)
    } else {
        json_parse(contents)
    }
}

/// The elements of an array, and no elements for any other tree.
pub open spec fn array_items(tree: Tree) -> Seq<Tree> {
    match tree {
        Tree::Array(items) => items,
        _ => Seq::empty(),
    }
}

/// The default document can be written as text.
pub proof fn lemma_default_is_writable()
    ensures
        writable(default_tree()),
{
    let tree = default_tree();
    match tree {
        Tree::Object(m) => {
            assert(writable(tree) == (forall|k: Seq<char>|
                m.dom().contains(k) ==> writable(#[trigger] m[k])));
            assert forall|k: Seq<char>| m.dom().contains(k) implies writable(#[trigger] m[k]) by {
                assert(m[k] is Text || m[k] == number_tree(465) || m[k] == number_tree(15));
            }
        },
        _ => {},
    }
}

/// The document that a new file is created with: the settings of an
/// example account, port 465, a check every 15 minutes, and the loopback
/// address as the last known address.
pub fn get_default_config() -> (r: Document)
    ensures
        r@ == default_tree(),
{
    let mut entries: Vec<(String, Document)> = Vec::new();
    proof {
        lemma_members_unfold(entries@);
    }
    push_entry(&mut entries, "emailAddress", Document::Text("me@example.com".to_owned()));
    push_entry(&mut entries, "emailPassword", Document::Text("1243124231".to_owned()));
    push_entry(&mut entries, "emailSMTPHost", Document::Text("smtp.example.com".to_owned()));
    push_entry(&mut entries, "emailSMTPPort", Document::from_u64(465));
    push_entry(&mut entries, "recipientAddress", Document::Text("person@example.com".to_owned()));
    push_entry(&mut entries, "checkIntervalMinutes", Document::from_u64(15));
    push_entry(&mut entries, "ipAddress", Document::Text("127.0.0.1".to_owned()));
    Document::Object(entries)
}

/// Reads the document from the contents of its file. An empty file stands
/// for a document that is not yet populated, and gives null. Contents that
/// are not well-formed JSON give `Parse`. The objects of the document list
/// their entries in the order of their keys.
pub fn load(contents: &str) -> (r: Result<Document, StoreError>)
    ensures
        match r {
            Ok(d) => loaded(contents@) == Some(d@) && key_ordered(d),
            Err(e) => e == StoreError::Parse && loaded(contents@) is None,
        },
{
    if contents.is_empty() {
        Ok(Document::Null)
    } else {
        parse_document(contents)
    }
}

/// The contents of a file that is reset to the default document: the
/// default document as indented text.
pub fn reset_config() -> (r: Result<String, StoreError>)
    ensures
        r matches Ok(text) && text@ == json_pretty(default_tree()),
{
    let document = get_default_config();
    proof {
        lemma_default_is_writable();
    }
    pretty_text(&document)
}

/// What a changed document gives as the new contents of the file: its
/// indented text where it can be written as text, `Encode` where it cannot,
/// and `InvalidPath` where the change was refused.
pub open spec fn written(changed: Result<Tree, InvalidPathError>, r: Result<String, StoreError>) -> bool {
    match changed {
        Err(fault) => r == Err::<String, StoreError>(StoreError::InvalidPath(fault)),
        Ok(t) => if writable(t) {
            r matches Ok(text) && text@ == json_pretty(t)
        } else {
            r == Err::<String, StoreError>(StoreError::Encode)
        },
    }
}

/// A document that can be written as text can still be written after a
/// key of it is set to a value that can be written.
pub proof fn lemma_change_stays_writable(tree: Tree, key: Seq<char>, value: Tree)
    requires
        writable(tree),
        writable(value),
        with_member(tree, key, value) is Ok,
    ensures
        writable(with_member(tree, key, value)->Ok_0),
{
    let changed = with_member(tree, key, value)->Ok_0;
    match changed {
        Tree::Object(after) => {
            assert(writable(changed) == (forall|k: Seq<char>|
                after.dom().contains(k) ==> writable(#[trigger] after[k])));
            match tree {
                Tree::Object(before) => {
                    assert(writable(tree) == (forall|k: Seq<char>|
                        before.dom().contains(k) ==> writable(#[trigger] before[k])));
                    assert forall|k: Seq<char>| after.dom().contains(k) implies writable(
                        #[trigger] after[k],
                    ) by {
                        if k != key {
                            assert(writable(before[k]));
                        }
                    }
                },
                _ => {},
            }
        },
        _ => {},
    }
}

/// The contents of the file after `json_key` is set to `value` at the top
/// of the document `json`: the changed document as indented text. A
/// document that is neither an object nor null gives `InvalidPath`; a
/// changed document that cannot be written as text gives `Encode`.
pub fn set_key(json: Document, json_key: &str, value: Document) -> (r: Result<String, StoreError>)
    ensures
        written(with_member(json@, json_key@, value@), r),
{
    match json.set(json_key.to_owned(), value) {
        Ok(changed) => pretty_text(&changed),
        Err(fault) => Err(StoreError::InvalidPath(fault)),
    }
}

/// The value that the document holds under `key`. A document without that
/// key, or one that is no object, gives `MissingKey`.
pub fn read_json_from_ref(key: &str, json: &Document) -> (r: Result<Document, StoreError>)
    ensures
        match r {
            Ok(d) => tree_member(json@, key@) == Some(d@),
            Err(e) => e == StoreError::MissingKey && tree_member(json@, key@) is None,
        },
{
    match json.get(key) {
        Some(d) => Ok(d.clone()),
        None => Err(StoreError::MissingKey),
    }
}

/// The value that the document holds under `key`, as JSON text on one
/// line. A document without that key gives `MissingKey`; a value that
/// cannot be written as text gives `Encode`.
pub fn read_config_string(json: &Document, key: &str) -> (r: Result<String, StoreError>)
    ensures
        match tree_member(json@, key@) {
            None => r == Err::<String, StoreError>(StoreError::MissingKey),
            Some(t) => if writable(t) {
                r matches Ok(text) && text@ == json_compact(t)
            } else {
                r == Err::<String, StoreError>(StoreError::Encode)
            },
        },
{
    match json.get(key) {
        Some(d) => compact_text(d),
        None => Err(StoreError::MissingKey),
    }
}

/// The elements of the array that the document holds under `key`; no
/// elements where the value is not an array. A document without that key
/// gives `MissingKey`.
pub fn read_config_array(json: &Document, key: &str) -> (r: Result<Vec<Document>, StoreError>)
    ensures
        match r {
            Ok(items) => tree_member(json@, key@) matches Some(t) && elements(items@)
                == array_items(t),
            Err(e) => e == StoreError::MissingKey && tree_member(json@, key@) is None,
        },
{
    match json.get(key) {
        Some(d) => match d.clone() {
            Document::Array(items) => Ok(items),
            _ => {
                let none: Vec<Document> = Vec::new();
                proof {
                    crate::document::lemma_elements_unfold(none@);
                }
                Ok(none)
            },
        },
        None => Err(StoreError::MissingKey),
    }
}

} // verus!
