//! JSON text: reading a document from it and writing a document as it.
//!
//! The text is parsed and printed by `serde_json`. This module converts
//! between that crate's value and the library's document, and states of
//! each call into the crate what the rest of the library relies on.
//!
//! A floating-point number is held by the text that `serde_json` prints for
//! it. The crate is built to read floating-point numbers exactly, so that a
//! number that was read can be written again.

use crate::document::{
    elements, find_entry, key_ordered, last_index, lemma_elements, lemma_key_ordered_unfold,
    lemma_last_index_is, lemma_members_last, lemma_members_lookup, members, Document, JsonNumber,
    Numeral, Tree,
};
use crate::error::StoreError;
use crate::text::comes_before;
use vstd::prelude::*;

verus! {

/// `serde_json::Value`, a JSON value of any kind. Nothing is known of one
/// but what the functions below say.
#[verifier::external_type_specification]
#[verifier::external_body]
pub struct ExValue(serde_json::Value);

/// `serde_json::Number`, a JSON number.
#[verifier::external_type_specification]
#[verifier::external_body]
pub struct ExNumber(serde_json::Number);

/// `serde_json::Map`, the entries of a JSON object.
#[verifier::external_type_specification]
#[verifier::external_body]
#[verifier::reject_recursive_types(K)]
#[verifier::reject_recursive_types(V)]
pub struct ExMap<K, V>(serde_json::Map<K, V>);

/// `serde_json::Error`, the error of reading or printing JSON text.
#[verifier::external_type_specification]
#[verifier::external_body]
pub struct ExError(serde_json::Error);

/// The tree that a `serde_json::Value` holds.
pub uninterp spec fn value_tree(v: serde_json::Value) -> Tree;

/// The number that a `serde_json::Number` holds: its integer, or, where it
/// is a floating-point number, the text that `serde_json` prints for it.
pub uninterp spec fn number_numeral(n: serde_json::Number) -> Numeral;

/// The mapping that a `serde_json::Map` holds.
pub uninterp spec fn map_trees(m: serde_json::Map<String, serde_json::Value>) -> Map<
    Seq<char>,
    Tree,
>;

/// The tree that `serde_json::from_str` reads from a text, where it reads one.
pub uninterp spec fn json_parse(text: Seq<char>) -> Option<Tree>;

/// The text that `serde_json::to_string` prints for a tree.
pub uninterp spec fn json_compact(tree: Tree) -> Seq<char>;

/// The text that `serde_json::to_string_pretty` prints for a tree.
pub uninterp spec fn json_pretty(tree: Tree) -> Seq<char>;

/// The trees of a list of values, in order.
pub open spec fn value_trees(items: Seq<serde_json::Value>) -> Seq<Tree> {
    Seq::new(items.len(), |i: int| value_tree(items[i]))
}

/// The mapping without keys.
pub open spec fn no_members() -> Map<Seq<char>, Tree> {
    Map::empty()
}

/// Whether `entries` lists the mapping `m`: each entry is in `m` with its
/// value, each key of `m` is in an entry, and `m` has finitely many keys.
pub open spec fn lists(
    entries: Seq<(&String, &serde_json::Value)>,
    m: Map<Seq<char>, Tree>,
) -> bool {
    &&& m.dom().finite()
    &&& forall|i: int|
        0 <= i < entries.len() ==> m.dom().contains((#[trigger] entries[i]).0@) && m[entries[i].0@]
            == value_tree(*entries[i].1)
    &&& forall|k: Seq<char>|
        m.dom().contains(k) ==> exists|i: int|
            0 <= i < entries.len() && (#[trigger] entries[i]).0@ == k
}

/// Whether `entries` are in the order of their keys, each key once.
pub open spec fn in_order(entries: Seq<(&String, &serde_json::Value)>) -> bool {
    forall|i: int, j: int|
        0 <= i < j < entries.len() ==> comes_before(
            (#[trigger] entries[i]).0@,
            (#[trigger] entries[j]).0@,
        )
}

/// `serde_json::Value::as_bool`: the boolean of a `Bool`, and `None` for
/// every other value.
#[verifier::external_body]
fn value_as_bool(v: &serde_json::Value) -> (r: Option<bool>)
    ensures
        match r {
            Some(b) => value_tree(*v) == Tree::Bool(b),
            None => !(value_tree(*v) is Bool),
        },
{
    v.as_bool()
}

/// `serde_json::Value::as_number`: the number of a `Number`, and `None` for
/// every other value.
#[verifier::external_body]
fn value_as_number(v: &serde_json::Value) -> (r: Option<&serde_json::Number>)
    ensures
        match r {
            Some(n) => value_tree(*v) == Tree::Number(number_numeral(*n)),
            None => !(value_tree(*v) is Number),
        },
{
    v.as_number()
}

/// `serde_json::Number::as_u64`: the integer of a number that is an integer
/// and not negative, and `None` for every other number.
#[verifier::external_body]
fn number_as_u64(n: &serde_json::Number) -> (r: Option<u64>)
    ensures
        match r {
            Some(u) => number_numeral(*n) == Numeral::Int(u as int),
            None => !(number_numeral(*n) matches Numeral::Int(i) && 0 <= i),
        },
{
    n.as_u64()
}

/// `serde_json::Number::as_i64`: the integer of a number that is an integer
/// and fits in 64 signed bits, and `None` for every other number.
#[verifier::external_body]
fn number_as_i64(n: &serde_json::Number) -> (r: Option<i64>)
    ensures
        match r {
            Some(i) => number_numeral(*n) == Numeral::Int(i as int),
            None => !(number_numeral(*n) matches Numeral::Int(i) && i <= i64::MAX),
        },
{
    n.as_i64()
}

/// `Display` of `serde_json::Number`: the text of the number. For a
/// floating-point number this text is what the model holds.
#[verifier::external_body]
fn number_text(n: &serde_json::Number) -> (r: String)
    ensures
        number_numeral(*n) matches Numeral::Real(t) ==> r@ == t,
{
    n.to_string()
}

/// `serde_json::Value::as_str`: the text of a `String`, and `None` for
/// every other value.
#[verifier::external_body]
fn value_as_str(v: &serde_json::Value) -> (r: Option<&str>)
    ensures
        match r {
            Some(t) => value_tree(*v) == Tree::Text(t@),
            None => !(value_tree(*v) is Text),
        },
{
    v.as_str()
}

/// `serde_json::Value::as_array`: the elements of an `Array`, and `None`
/// for every other value.
#[verifier::external_body]
fn value_as_array(v: &serde_json::Value) -> (r: Option<&Vec<serde_json::Value>>)
    ensures
        match r {
            Some(items) => value_tree(*v) == Tree::Array(value_trees(items@)),
            None => !(value_tree(*v) is Array),
        },
{
    v.as_array()
}

/// `serde_json::Value::as_object`: the map of an `Object`, and `None` for
/// every other value.
#[verifier::external_body]
fn value_as_object(v: &serde_json::Value) -> (r: Option<&serde_json::Map<String, serde_json::Value>>)
    ensures
        match r {
            Some(m) => value_tree(*v) == Tree::Object(map_trees(*m)),
            None => !(value_tree(*v) is Object),
        },
{
    v.as_object()
}

/// `serde_json::Map::iter`: the entries of the map. Each entry that comes
/// out is in the map with its value, each key of the map comes out, and the
/// map has finitely many keys. The map is a `BTreeMap`, so that the entries
/// come out in the order of their keys, which is the order of strings.
#[verifier::external_body]
fn map_entries(m: &serde_json::Map<String, serde_json::Value>) -> (r: Vec<(&String, &serde_json::Value)>)
    ensures
        lists(r@, map_trees(*m)),
        in_order(r@),
{
    m.iter().collect()
}

/// `serde_json::Value::Null`.
#[verifier::external_body]
fn value_null() -> (r: serde_json::Value)
    ensures
        value_tree(r) == Tree::Null,
{
    serde_json::Value::Null
}

/// `serde_json::Value::Bool`.
#[verifier::external_body]
fn value_from_bool(b: bool) -> (r: serde_json::Value)
    ensures
        value_tree(r) == Tree::Bool(b),
{
    serde_json::Value::Bool(b)
}

/// `From<u64>` of `serde_json::Value`: the number that holds the integer.
#[verifier::external_body]
fn value_from_u64(n: u64) -> (r: serde_json::Value)
    ensures
        value_tree(r) == Tree::Number(Numeral::Int(n as int)),
{
    serde_json::Value::from(n)
}

/// `From<i64>` of `serde_json::Value`: the number that holds the integer.
#[verifier::external_body]
fn value_from_i64(n: i64) -> (r: serde_json::Value)
    ensures
        value_tree(r) == Tree::Number(Numeral::Int(n as int)),
{
    serde_json::Value::from(n)
}

/// `serde_json::Value::String`.
#[verifier::external_body]
fn value_from_string(text: String) -> (r: serde_json::Value)
    ensures
        value_tree(r) == Tree::Text(text@),
{
    serde_json::Value::String(text)
}

/// `serde_json::Value::Array`.
#[verifier::external_body]
fn value_from_vec(items: Vec<serde_json::Value>) -> (r: serde_json::Value)
    ensures
        value_tree(r) == Tree::Array(value_trees(items@)),
{
    serde_json::Value::Array(items)
}

/// `serde_json::Value::Object`.
#[verifier::external_body]
fn value_from_map(m: serde_json::Map<String, serde_json::Value>) -> (r: serde_json::Value)
    ensures
        value_tree(r) == Tree::Object(map_trees(m)),
{
    serde_json::Value::Object(m)
}

/// `serde_json::Map::new`: a map without entries.
#[verifier::external_body]
fn map_new() -> (r: serde_json::Map<String, serde_json::Value>)
    ensures
        map_trees(r) == no_members(),
{
    serde_json::Map::new()
}

/// `serde_json::Map::insert`: the map holds the value under the key, in
/// place of what it held there before, and is otherwise unchanged.
#[verifier::external_body]
fn map_insert(m: &mut serde_json::Map<String, serde_json::Value>, key: String, value: serde_json::Value)
    ensures
        map_trees(*final(m)) == map_trees(*old(m)).insert(key@, value_tree(value)),
{
    m.insert(key, value);
}

/// `serde_json::from_str` at `serde_json::Value`: what it reads depends on
/// the text alone.
#[verifier::external_body]
fn parse_value(text: &str) -> (r: Result<serde_json::Value, serde_json::Error>)
    ensures
        match r {
            Ok(v) => json_parse(text@) == Some(value_tree(v)),
            Err(_) => json_parse(text@) is None,
        },
{
    serde_json::from_str::<serde_json::Value>(text)
}

/// `serde_json::to_string` on a value: it gives a text, and the text
/// depends on the value alone. It passes on no error but that of its
/// writer, and it writes into a vector of bytes, which gives none.
#[verifier::external_body]
fn compact_value(v: &serde_json::Value) -> (r: Result<String, serde_json::Error>)
    ensures
        match r {
            Ok(text) => text@ == json_compact(value_tree(*v)),
            Err(_) => false,
        },
{
    serde_json::to_string(v)
}

/// `serde_json::to_string_pretty` on a value: it gives a text, and the
/// text depends on the value alone. It passes on no error but that of its
/// writer, and it writes into a vector of bytes, which gives none.
#[verifier::external_body]
fn pretty_value(v: &serde_json::Value) -> (r: Result<String, serde_json::Error>)
    ensures
        match r {
            Ok(text) => text@ == json_pretty(value_tree(*v)),
            Err(_) => false,
        },
{
    serde_json::to_string_pretty(v)
}

/// Whether a text is one that `serde_json` prints for a floating-point
/// number: read as JSON it gives that number back.
pub open spec fn real_text(text: Seq<char>) -> bool {
    json_parse(text) == Some(Tree::Number(Numeral::Real(text)))
}

/// Whether a tree can be written as text: each of its numbers that is
/// held as text is a text of a floating-point number.
pub open spec fn writable(tree: Tree) -> bool
    decreases tree,
{
    match tree {
        Tree::Number(Numeral::Real(t)) => real_text(t),
        Tree::Array(items) => forall|i: int| 0 <= i < items.len() ==> writable(#[trigger] items[i]),
        Tree::Object(m) => forall|k: Seq<char>|
            m.dom().contains(k) ==> writable(#[trigger] m[k]),
        _ => true,
    }
}

/// An array with an element that cannot be written as text cannot be
/// written as text.
pub proof fn lemma_unwritable_element(tree: Tree, i: int)
    requires
        tree is Array,
        0 <= i < tree->Array_0.len(),
        !writable(tree->Array_0[i]),
    ensures
        !writable(tree),
{
    match tree {
        Tree::Array(items) => {
            assert(writable(tree) == (forall|j: int|
                0 <= j < items.len() ==> writable(#[trigger] items[j])));
            assert(!writable(items[i]));
        },
        _ => {},
    }
}

/// An object with a value that cannot be written as text cannot be
/// written as text.
pub proof fn lemma_unwritable_value(tree: Tree, key: Seq<char>)
    requires
        tree is Object,
        tree->Object_0.dom().contains(key),
        !writable(tree->Object_0[key]),
    ensures
        !writable(tree),
{
    match tree {
        Tree::Object(m) => {
            assert(writable(tree) == (forall|k: Seq<char>|
                m.dom().contains(k) ==> writable(#[trigger] m[k])));
            assert(!writable(m[key]));
        },
        _ => {},
    }
}

/// The document that a value of `serde_json` holds. Its objects list their
/// entries in the order of their keys.
pub fn document_from_value(v: &serde_json::Value) -> (d: Document)
    ensures
        d@ == value_tree(*v),
        key_ordered(d),
    decreases value_tree(*v),
{
    if let Some(b) = value_as_bool(v) {
        return Document::Bool(b);
    }
    if let Some(n) = value_as_number(v) {
        return match number_as_u64(n) {
            Some(u) => Document::Number(JsonNumber::Unsigned(u)),
            None => match number_as_i64(n) {
                Some(i) => Document::Number(JsonNumber::Signed(i)),
                None => Document::Number(JsonNumber::Real(number_text(n))),
            },
        };
    }
    if let Some(t) = value_as_str(v) {
        return Document::Text(t.to_owned());
    }
    if let Some(items) = value_as_array(v) {
        let mut out: Vec<Document> = Vec::new();
        let mut i: usize = 0;
        while i < items.len()
            invariant
                i <= items.len(),
                out.len() == i,
                value_tree(*v) == Tree::Array(value_trees(items@)),
                forall|j: int| 0 <= j < i ==> (#[trigger] out[j])@ == value_tree(items[j]),
                forall|j: int| 0 <= j < i ==> key_ordered(#[trigger] out[j]),
            decreases items.len() - i,
        {
            proof {
                let trees = value_trees(items@);
                assert(trees[i as int] == value_tree(items[i as int]));
                let whole = value_tree(*v);
                assert(decreases_to!(whole => whole->Array_0));
                assert(decreases_to!(whole->Array_0 => whole->Array_0[i as int]));
            }
            let d = document_from_value(&items[i]);
            out.push(d);
            i = i + 1;
        }
        proof {
            lemma_elements(out@);
            assert(elements(out@) =~= value_trees(items@));
            lemma_key_ordered_unfold(Document::Array(out));
        }
        return Document::Array(out);
    }
    if let Some(m) = value_as_object(v) {
        let entries = map_entries(m);
        let mut out: Vec<(String, Document)> = Vec::new();
        let mut i: usize = 0;
        while i < entries.len()
            invariant
                i <= entries.len(),
                out.len() == i,
                value_tree(*v) == Tree::Object(map_trees(*m)),
                lists(entries@, map_trees(*m)),
                forall|j: int|
                    0 <= j < i ==> (#[trigger] out[j]).0@ == entries[j].0@ && out[j].1@
                        == value_tree(*entries[j].1) && key_ordered(out[j].1),
            decreases entries.len() - i,
        {
            let (key, value) = entries[i];
            proof {
                let held = map_trees(*m);
                let k = entries[i as int].0@;
                assert(held.dom().contains(k));
                assert(held[k] == value_tree(*value));
                let whole = value_tree(*v);
                assert(decreases_to!(whole => whole->Object_0));
                assert(decreases_to!(whole->Object_0 => whole->Object_0[k]));
            }
            let d = document_from_value(value);
            out.push((key.clone(), d));
            i = i + 1;
        }
        proof {
            let held = map_trees(*m);
            assert forall|k: Seq<char>| #[trigger]
                members(out@).dom().contains(k) <==> held.dom().contains(k) by {
                lemma_members_lookup(out@, k);
                if held.dom().contains(k) {
                    let j = choose|j: int| 0 <= j < entries.len() && (#[trigger] entries[j]).0@ == k;
                    assert(out[j].0@ == k);
                }
            }
            assert forall|k: Seq<char>| members(out@).dom().contains(k) implies #[trigger]
                members(out@)[k] == held[k] by {
                lemma_members_lookup(out@, k);
                let j = last_index(out@, k);
                assert(out[j].1@ == value_tree(*entries[j].1));
            }
            assert(members(out@) =~= held);
            lemma_key_ordered_unfold(Document::Object(out));
        }
        return Document::Object(out);
    }
    Document::Null
}

/// The value of `serde_json` for a number that is held as text.
fn real_value(text: &String) -> (r: Option<serde_json::Value>)
    ensures
        match r {
            Some(v) => real_text(text@) && value_tree(v) == Tree::Number(Numeral::Real(text@)),
            None => !real_text(text@),
        },
{
    match parse_value(text.as_str()) {
        Err(_) => None,
        Ok(v) => {
            let same = match value_as_number(&v) {
                None => false,
                Some(n) => match number_as_u64(n) {
                    Some(_) => false,
                    None => match number_as_i64(n) {
                        Some(_) => false,
                        None => number_text(n) == *text,
                    },
                },
            };
            if same {
                Some(v)
            } else {
                None
            }
        },
    }
}

/// The value of `serde_json` that holds a document, where the document can
/// be written as text. Of the entries of an object, only the last one of
/// each key is looked at.
pub fn value_from_document(doc: &Document) -> (r: Option<serde_json::Value>)
    ensures
        match r {
            Some(v) => writable(doc@) && value_tree(v) == doc@,
            None => !writable(doc@),
        },
    decreases doc,
{
    match doc {
        Document::Null => Some(value_null()),
        Document::Bool(b) => Some(value_from_bool(*b)),
        Document::Number(JsonNumber::Unsigned(u)) => Some(value_from_u64(*u)),
        Document::Number(JsonNumber::Signed(i)) => Some(value_from_i64(*i)),
        Document::Number(JsonNumber::Real(t)) => real_value(t),
        Document::Text(t) => Some(value_from_string(t.clone())),
        Document::Array(items) => {
            let mut out: Vec<serde_json::Value> = Vec::new();
            let mut i: usize = 0;
            proof {
                lemma_elements(items@);
            }
            while i < items.len()
                invariant
                    i <= items.len(),
                    out.len() == i,
                    *doc == Document::Array(*items),
                    elements(items@).len() == items.len(),
                    forall|j: int|
                        0 <= j < items.len() ==> (#[trigger] elements(items@)[j]) == items[j]@,
                    forall|j: int|
                        0 <= j < i ==> writable((#[trigger] items[j])@) && value_tree(out[j])
                            == items[j]@,
                decreases items.len() - i,
            {
                match value_from_document(&items[i]) {
                    Some(v) => {
                        out.push(v);
                    },
                    None => {
                        proof {
                            assert(doc@ == Tree::Array(elements(items@)));
                            lemma_unwritable_element(doc@, i as int);
                        }
                        return None;
                    },
                }
                i = i + 1;
            }
            proof {
                assert(value_trees(out@) =~= elements(items@));
                assert forall|j: int| 0 <= j < elements(items@).len() implies writable(
                    #[trigger] elements(items@)[j],
                ) by {
                    assert(writable(items[j]@));
                }
            }
            Some(value_from_vec(out))
        },
        Document::Object(entries) => {
            let mut out = map_new();
            let mut i: usize = 0;
            let ghost held = members(entries@);
            while i < entries.len()
                invariant
                    i <= entries.len(),
                    *doc == Document::Object(*entries),
                    held == members(entries@),
                    forall|k: Seq<char>| #[trigger]
                        map_trees(out).dom().contains(k) <==> 0 <= last_index(entries@, k) < i,
                    forall|k: Seq<char>|
                        map_trees(out).dom().contains(k) ==> (#[trigger] map_trees(out)[k])
                            == held[k] && writable(held[k]),
                decreases entries.len() - i,
            {
                let ghost key = entries[i as int].0@;
                let ghost before = map_trees(out);
                match find_entry(entries, &entries[i].0) {
                    Some(last) => {
                        proof {
                            lemma_last_index_is(entries@, last as int);
                        }
                        if last == i {
                            proof {
                                lemma_members_last(entries@, i as int);
                                assert(decreases_to!(entries => entries[i as int]));
                                assert(decreases_to!(entries[i as int] => entries[i as int].1));
                            }
                            match value_from_document(&entries[i].1) {
                                Some(v) => {
                                    map_insert(&mut out, entries[i].0.clone(), v);
                                },
                                None => {
                                    proof {
                                        assert(doc@ == Tree::Object(held));
                                        lemma_unwritable_value(doc@, key);
                                    }
                                    return None;
                                },
                            }
                            proof {
                                assert(map_trees(out) == before.insert(key, held[key]));
                            }
                        }
                    },
                    None => {},
                }
                proof {
                    assert(last_index(entries@, key) >= i);
                    assert forall|k: Seq<char>| #[trigger]
                        map_trees(out).dom().contains(k) <==> 0 <= last_index(entries@, k) < i
                            + 1 by {
                        lemma_members_lookup(entries@, k);
                        if k != key {
                            assert(before.dom().contains(k) == map_trees(out).dom().contains(k));
                        }
                    }
                    assert forall|k: Seq<char>| map_trees(out).dom().contains(k) implies (
                    #[trigger] map_trees(out)[k]) == held[k] && writable(held[k]) by {
                        lemma_members_lookup(entries@, k);
                        if k != key {
                            assert(before.dom().contains(k));
                            assert(before[k] == map_trees(out)[k]);
                        }
                    }
                }
                i = i + 1;
            }
            proof {
                assert forall|k: Seq<char>| #[trigger]
                    held.dom().contains(k) <==> map_trees(out).dom().contains(k) by {
                    lemma_members_lookup(entries@, k);
                }
                assert(map_trees(out) =~= held);
            }
            Some(value_from_map(out))
        },
    }
}

/// Reads a document from JSON text.
///
/// The text is read by `serde_json::from_str`. Where that reads a value,
/// the result is the document of that value, with the entries of each
/// object in the order of their keys; where it refuses the text, the result
/// is `Parse`.
pub fn parse_document(text: &str) -> (r: Result<Document, StoreError>)
    ensures
        match r {
            Ok(d) => json_parse(text@) == Some(d@) && key_ordered(d),
            Err(e) => e == StoreError::Parse && json_parse(text@) is None,
        },
{
    match parse_value(text) {
        Ok(v) => Ok(document_from_value(&v)),
        Err(_) => Err(StoreError::Parse),
    }
}

/// What a printed text is handed on as: the text itself, or `Encode` where
/// `serde_json` gave an error in its place.
pub fn encoded(printed: Result<String, serde_json::Error>) -> (r: Result<String, StoreError>)
    ensures
        match printed {
            Ok(text) => r == Ok::<String, StoreError>(text),
            Err(_) => r == Err::<String, StoreError>(StoreError::Encode),
        },
{
    match printed {
        Ok(text) => Ok(text),
        Err(_) => Err(StoreError::Encode),
    }
}

/// Writes a document as JSON text on one line, as `serde_json::to_string`
/// prints it. A document that can be written as text gives its text; any
/// other gives `Encode`.
pub fn compact_text(doc: &Document) -> (r: Result<String, StoreError>)
    ensures
        match r {
            Ok(text) => writable(doc@) && text@ == json_compact(doc@),
            Err(e) => e == StoreError::Encode && !writable(doc@),
        },
{
    match value_from_document(doc) {
        Some(v) => encoded(compact_value(&v)),
        None => Err(StoreError::Encode),
    }
}

/// Writes a document as indented JSON text, as
/// `serde_json::to_string_pretty` prints it. A document that can be written
/// as text gives its text; any other gives `Encode`.
pub fn pretty_text(doc: &Document) -> (r: Result<String, StoreError>)
    ensures
        match r {
            Ok(text) => writable(doc@) && text@ == json_pretty(doc@),
            Err(e) => e == StoreError::Encode && !writable(doc@),
        },
{
    match value_from_document(doc) {
        Some(v) => encoded(pretty_value(&v)),
        None => Err(StoreError::Encode),
    }
}

} // verus!
