//! The path mutator: writing a value at a dotted and bracketed path.
//!
//! A path is a list of segments separated by `.`; a segment is a key that
//! may be followed by subscripts `[n]`. A key addresses an entry of an
//! object, a subscript an element of an array. Keys that do not exist yet are
//! created on the way. A subscript past the end of its array appends the
//! value to the array. A path that is not well-formed is refused before
//! the document is looked at.

use crate::document::{
    fields_of, find_entry, lemma_elements, lemma_elements_push, lemma_elements_update,
    lemma_members_absent, lemma_members_last, lemma_members_push, lemma_members_unfold,
    lemma_members_update, members, with_member, Document, InvalidPathError, Tree,
};
use crate::text::{decimal, digit_of, is_digit, without};
use vstd::prelude::*;
use vstd::string::*;

verus! {

/// Whether a character ends a key: `.` or `[`.
pub open spec fn is_structural(c: char) -> bool {
    c == '.' || c == '['
}

/// The length of the key text at the start of `path`: the position of the
/// first `.` or `[`, or the length of the path where it has none.
pub open spec fn key_end(path: Seq<char>) -> nat
    decreases path.len(),
{
    if path.len() == 0 || is_structural(path[0]) {
        0
    } else {
        1 + key_end(path.skip(1))
    }
}

/// The number of decimal digits at the start of `text`.
pub open spec fn digits_end(text: Seq<char>) -> nat
    decreases text.len(),
{
    if text.len() == 0 || !is_digit(text[0]) {
        0
    } else {
        1 + digits_end(text.skip(1))
    }
}

/// Whether a path is well-formed from the start of a segment: the segment
/// is not empty, each subscript is made of digits closed by `]`, and what
/// follows a subscript is the end of the path, another subscript, or a dot
/// and a further segment.
pub open spec fn well_formed(path: Seq<char>) -> bool
    decreases path.len(),
{
    if path.len() == 0 {
        false
    } else {
        let k = key_end(path);
        if k >= path.len() {
            true
        } else if path[k as int] == '.' {
            well_formed(path.skip(k as int + 1))
        } else {
            subscript_formed(path.skip(k as int + 1))
        }
    }
}

/// Whether the text after an opening `[` is a well-formed subscript and a
/// well-formed rest of a path.
pub open spec fn subscript_formed(rest: Seq<char>) -> bool
    decreases rest.len(),
{
    let n = digits_end(rest);
    if n == 0 || n >= rest.len() || rest[n as int] != ']' {
        false
    } else {
        rest_formed(rest.skip(n as int + 1))
    }
}

/// Whether the text after a subscript is a well-formed rest of a path.
pub open spec fn rest_formed(rest: Seq<char>) -> bool
    decreases rest.len(),
{
    if rest.len() == 0 {
        true
    } else if rest[0] == ']' {
        rest_formed(rest.skip(1))
    } else if rest[0] == '.' {
        well_formed(rest.skip(1))
    } else if rest[0] == '[' {
        subscript_formed(rest.skip(1))
    } else {
        false
    }
}

/// The document with `value` placed at `path`: a path that is not
/// well-formed is refused, whatever the document holds.
pub open spec fn apply_path(doc: Tree, path: Seq<char>, value: Tree) -> Result<
    Tree,
    InvalidPathError,
> {
    if well_formed(path) {
        place(doc, path, value)
    } else {
        Err(InvalidPathError::Syntax)
    }
}

/// The document with `value` placed at `path`, where `path` starts a
/// segment. A key names an entry of an object; a subscript without a key
/// before it, on a document that is an array, addresses the array itself.
pub open spec fn place(doc: Tree, path: Seq<char>, value: Tree) -> Result<
    Tree,
    InvalidPathError,
>
    decreases path.len(),
{
    if path.len() == 0 {
        Err(InvalidPathError::Syntax)
    } else {
        let k = key_end(path);
        let key = without(path.take(k as int), ']');
        if k >= path.len() {
            with_member(doc, key, value)
        } else if path[k as int] == '[' && key.len() == 0 && doc is Array {
            place_subscript(doc, path.skip(k as int + 1), value)
        } else {
            match fields_of(doc) {
                None => Err(InvalidPathError::NotAnObject),
                Some(m) => {
                    let changed = if path[k as int] == '.' {
                        let child = if m.dom().contains(key) {
                            m[key]
                        } else {
                            Tree::Object(Map::empty())
                        };
                        place(child, path.skip(k as int + 1), value)
                    } else {
                        let target = if m.dom().contains(key) {
                            m[key]
                        } else {
                            Tree::Array(Seq::empty())
                        };
                        place_subscript(target, path.skip(k as int + 1), value)
                    };
                    match changed {
                        Ok(c) => Ok(Tree::Object(m.insert(key, c))),
                        Err(e) => Err(e),
                    }
                },
            }
        }
    }
}

/// The array `target` with `value` placed at the subscript whose text, after
/// the opening `[`, starts `rest`.
pub open spec fn place_subscript(target: Tree, rest: Seq<char>, value: Tree) -> Result<
    Tree,
    InvalidPathError,
>
    decreases rest.len(),
{
    let n = digits_end(rest);
    if n == 0 || n >= rest.len() || rest[n as int] != ']' {
        Err(InvalidPathError::Syntax)
    } else {
        match target {
            Tree::Array(items) => {
                let i = decimal(rest.take(n as int));
                if i >= items.len() {
                    Ok(Tree::Array(items.push(value)))
                } else {
                    match place_rest(items[i as int], rest.skip(n as int + 1), value) {
                        Ok(c) => Ok(Tree::Array(items.update(i as int, c))),
                        Err(e) => Err(e),
                    }
                }
            },
            _ => Err(InvalidPathError::NotAnArray),
        }
    }
}

/// The element `doc` of an array with `value` placed at what follows the
/// element's subscript in the path.
pub open spec fn place_rest(doc: Tree, rest: Seq<char>, value: Tree) -> Result<
    Tree,
    InvalidPathError,
>
    decreases rest.len(),
{
    if rest.len() == 0 {
        Ok(value)
    } else if rest[0] == ']' {
        place_rest(doc, rest.skip(1), value)
    } else if rest[0] == '.' {
        place(doc, rest.skip(1), value)
    } else if rest[0] == '[' {
        place_subscript(doc, rest.skip(1), value)
    } else {
        Err(InvalidPathError::Syntax)
    }
}

/// What a result holds, with the document taken by its view.
pub open spec fn outcome(r: Result<Document, InvalidPathError>) -> Result<Tree, InvalidPathError> {
    match r {
        Ok(d) => Ok(d@),
        Err(e) => Err(e),
    }
}

/// Reads the key text that starts at `from`: where it ends, and the key.
fn scan_key(path: &str, len: usize, from: usize) -> (r: (usize, String))
    requires
        len == path@.len(),
        from <= len,
    ensures
        from <= r.0 <= len,
        r.0 - from == key_end(path@.skip(from as int)),
        r.1@ == without(path@.skip(from as int).take(r.0 - from), ']'),
{
    let mut i: usize = from;
    let mut key = String::new();
    let mut scanning = true;
    assert(path@.subrange(from as int, from as int) =~= Seq::<char>::empty());
    while scanning && i < len
        invariant
            len == path@.len(),
            from <= i <= len,
            key_end(path@.skip(from as int)) == (i - from) + key_end(path@.skip(i as int)),
            key@ == without(path@.subrange(from as int, i as int), ']'),
            !scanning ==> i < len && is_structural(path@[i as int]),
        decreases (len - i) + (if scanning { 1int } else { 0int }),
    {
        let c = path.get_char(i);
        if c == '.' || c == '[' {
            scanning = false;
        } else {
            proof {
                let here = path@.skip(i as int);
                assert(here[0] == c);
                assert(here.skip(1) =~= path@.skip(i + 1));
                let grown = path@.subrange(from as int, i + 1);
                assert(grown.drop_last() =~= path@.subrange(from as int, i as int));
                assert(grown.last() == c);
                assert(path@.subrange(i as int, i + 1) =~= seq![c]);
            }
            if c != ']' {
                let piece = path.substring_char(i, i + 1);
                proof {
                    assert(key@ + piece@ =~= key@.push(c));
                }
                key.append(piece);
            }
            i = i + 1;
        }
    }
    proof {
        assert(path@.skip(from as int).take(i - from) =~= path@.subrange(from as int, i as int));
    }
    (i, key)
}

/// Reads the digits that start at `from`: where they end, and their
/// number, capped at the largest index.
fn scan_index(path: &str, len: usize, from: usize) -> (r: (usize, usize))
    requires
        len == path@.len(),
        from <= len,
    ensures
        from <= r.0 <= len,
        r.0 - from == digits_end(path@.skip(from as int)),
        r.1 == if decimal(path@.skip(from as int).take(r.0 - from)) <= usize::MAX {
            decimal(path@.skip(from as int).take(r.0 - from))
        } else {
            usize::MAX as nat
        },
{
    let mut i: usize = from;
    let mut number: usize = 0;
    let mut scanning = true;
    assert(path@.subrange(from as int, from as int) =~= Seq::<char>::empty());
    while scanning && i < len
        invariant
            len == path@.len(),
            from <= i <= len,
            digits_end(path@.skip(from as int)) == (i - from) + digits_end(path@.skip(i as int)),
            number == if decimal(path@.subrange(from as int, i as int)) <= usize::MAX {
                decimal(path@.subrange(from as int, i as int))
            } else {
                usize::MAX as nat
            },
            !scanning ==> i < len && !is_digit(path@[i as int]),
        decreases (len - i) + (if scanning { 1int } else { 0int }),
    {
        let c = path.get_char(i);
        match digit_of(c) {
            None => {
                scanning = false;
            },
            Some(d) => {
                proof {
                    let here = path@.skip(i as int);
                    assert(here[0] == c);
                    assert(here.skip(1) =~= path@.skip(i + 1));
                    let grown = path@.subrange(from as int, i + 1);
                    assert(grown.drop_last() =~= path@.subrange(from as int, i as int));
                    assert(grown.last() == c);
                }
                let d: usize = d as usize;
                number = if number > (usize::MAX - d) / 10 {
                    usize::MAX
                } else {
                    number * 10 + d
                };
                i = i + 1;
            },
        }
    }
    proof {
        assert(path@.skip(from as int).take(i - from) =~= path@.subrange(from as int, i as int));
    }
    (i, number)
}

/// Whether the part of `path` that starts a segment at `from` is
/// well-formed.
fn check_segment(path: &str, len: usize, from: usize) -> (r: bool)
    requires
        len == path@.len(),
        from <= len,
    ensures
        r == well_formed(path@.skip(from as int)),
    decreases len - from,
{
    if from >= len {
        return false;
    }
    let (end, _) = scan_key(path, len, from);
    if end >= len {
        return true;
    }
    let c = path.get_char(end);
    proof {
        let rest = path@.skip(from as int);
        assert(rest[end - from] == c);
        assert(rest.skip(end - from + 1) =~= path@.skip(end + 1));
    }
    if c == '.' {
        check_segment(path, len, end + 1)
    } else {
        check_subscript(path, len, end + 1)
    }
}

/// Whether the part of `path` at `from`, after an opening `[`, is a
/// well-formed subscript and rest.
fn check_subscript(path: &str, len: usize, from: usize) -> (r: bool)
    requires
        len == path@.len(),
        from <= len,
    ensures
        r == subscript_formed(path@.skip(from as int)),
    decreases len - from,
{
    let (end, _) = scan_index(path, len, from);
    if end == from || end >= len {
        return false;
    }
    let c = path.get_char(end);
    proof {
        let rest = path@.skip(from as int);
        assert(rest[end - from] == c);
        assert(rest.skip(end - from + 1) =~= path@.skip(end + 1));
    }
    if c != ']' {
        return false;
    }
    check_rest(path, len, end + 1)
}

/// Whether the part of `path` at `from`, after a subscript, is a
/// well-formed rest.
fn check_rest(path: &str, len: usize, from: usize) -> (r: bool)
    requires
        len == path@.len(),
        from <= len,
    ensures
        r == rest_formed(path@.skip(from as int)),
    decreases len - from,
{
    if from >= len {
        return true;
    }
    let c = path.get_char(from);
    proof {
        let rest = path@.skip(from as int);
        assert(rest[0] == c);
        assert(rest.skip(1) =~= path@.skip(from + 1));
    }
    if c == ']' {
        check_rest(path, len, from + 1)
    } else if c == '.' {
        check_segment(path, len, from + 1)
    } else if c == '[' {
        check_subscript(path, len, from + 1)
    } else {
        false
    }
}

/// Places `value` at the part of `path` that starts a segment at `from`.
fn put_at(doc: Document, path: &str, len: usize, from: usize, value: Document) -> (r: Result<
    Document,
    InvalidPathError,
>)
    requires
        len == path@.len(),
        from <= len,
    ensures
        outcome(r) == place(doc@, path@.skip(from as int), value@),
    decreases len - from,
{
    if from >= len {
        return Err(InvalidPathError::Syntax);
    }
    let (end, key) = scan_key(path, len, from);
    if end >= len {
        return doc.set(key, value);
    }
    let c = path.get_char(end);
    let ghost rest = path@.skip(from as int);
    proof {
        assert(rest[end - from] == c);
        assert(rest.skip(end - from + 1) =~= path@.skip(end + 1));
    }
    let on_array = match &doc {
        Document::Array(_) => c == '[' && key.as_str().is_empty(),
        _ => false,
    };
    if on_array {
        return index_at(doc, path, len, end + 1, value);
    }
    let mut entries: Vec<(String, Document)> = match doc {
        Document::Null => Vec::new(),
        Document::Object(entries) => entries,
        _ => {
            return Err(InvalidPathError::NotAnObject);
        },
    };
    let ghost before = entries@;
    proof {
        lemma_members_unfold(before);
    }
    let found = find_entry(&entries, &key);
    let child = match found {
        Some(j) => {
            proof {
                lemma_members_last(before, j as int);
            }
            entries.remove(j).1
        },
        None => {
            proof {
                lemma_members_absent(before, key@);
            }
            if c == '.' {
                Document::empty_object()
            } else {
                Document::Array(Vec::new())
            }
        },
    };
    let changed = if c == '.' {
        put_at(child, path, len, end + 1, value)
    } else {
        index_at(child, path, len, end + 1, value)
    };
    match changed {
        Ok(placed) => {
            match found {
                Some(j) => {
                    proof {
                        lemma_members_update(before, j as int, (key, placed));
                        assert(before.remove(j as int).insert(j as int, (key, placed))
                            =~= before.update(j as int, (key, placed)));
                    }
                    entries.insert(j, (key, placed));
                },
                None => {
                    proof {
                        lemma_members_push(before, (key, placed));
                    }
                    entries.push((key, placed));
                },
            }
            Ok(Document::Object(entries))
        },
        Err(e) => Err(e),
    }
}

/// Places `value` at the subscript of `target` whose digits start at `from`.
fn index_at(target: Document, path: &str, len: usize, from: usize, value: Document) -> (r: Result<
    Document,
    InvalidPathError,
>)
    requires
        len == path@.len(),
        from <= len,
    ensures
        outcome(r) == place_subscript(target@, path@.skip(from as int), value@),
    decreases len - from,
{
    let (end, index) = scan_index(path, len, from);
    if end == from || end >= len {
        return Err(InvalidPathError::Syntax);
    }
    let c = path.get_char(end);
    let ghost rest = path@.skip(from as int);
    proof {
        assert(rest[end - from] == c);
        assert(rest.skip(end - from + 1) =~= path@.skip(end + 1));
    }
    if c != ']' {
        return Err(InvalidPathError::Syntax);
    }
    match target {
        Document::Array(mut items) => {
            let ghost before = items@;
            proof {
                lemma_elements(before);
            }
            if index >= items.len() {
                proof {
                    lemma_elements_push(before, value);
                }
                items.push(value);
                Ok(Document::Array(items))
            } else {
                let element = items.remove(index);
                match follow_at(element, path, len, end + 1, value) {
                    Ok(placed) => {
                        proof {
                            lemma_elements_update(before, index as int, placed);
                            assert(before.remove(index as int).insert(index as int, placed)
                                =~= before.update(index as int, placed));
                        }
                        items.insert(index, placed);
                        Ok(Document::Array(items))
                    },
                    Err(e) => Err(e),
                }
            }
        },
        _ => Err(InvalidPathError::NotAnArray),
    }
}

/// Places `value` at what follows a subscript of the element `doc`; the
/// text after the subscript starts at `from`.
fn follow_at(doc: Document, path: &str, len: usize, from: usize, value: Document) -> (r: Result<
    Document,
    InvalidPathError,
>)
    requires
        len == path@.len(),
        from <= len,
    ensures
        outcome(r) == place_rest(doc@, path@.skip(from as int), value@),
    decreases len - from,
{
    if from >= len {
        return Ok(value);
    }
    let c = path.get_char(from);
    proof {
        let rest = path@.skip(from as int);
        assert(rest[0] == c);
        assert(rest.skip(1) =~= path@.skip(from + 1));
    }
    if c == ']' {
        follow_at(doc, path, len, from + 1, value)
    } else if c == '.' {
        put_at(doc, path, len, from + 1, value)
    } else if c == '[' {
        index_at(doc, path, len, from + 1, value)
    } else {
        Err(InvalidPathError::Syntax)
    }
}

/// Returns `json` with `value` placed at the path `keys`, and everything
/// else as it was.
///
/// The path is read from left to right. A key before a `.` names an entry of
/// an object; where the entry is missing, an empty object is created for it.
/// A key before a `[` names an entry that holds an array; where the entry is
/// missing, an empty array is created for it. A subscript with no key
/// before it, on a document that is an array, addresses that array. A
/// subscript within the array descends into that element; a subscript at or
/// past the end appends `value` to the array and walks no further. The last
/// key of the path is set to `value`. A `]` outside a subscript is skipped.
/// Null counts as an object without entries.
///
/// The write is refused with `Syntax` where the path is not well-formed,
/// whatever the document holds: where the path or a segment after a dot is
/// empty, where a subscript is not made of digits closed by `]`, or where a
/// subscript is followed by anything but the end, a `]`, a dot or another
/// subscript. On a well-formed path it is refused with `NotAnObject` where
/// a key meets a value that is neither an object nor null, and with
/// `NotAnArray` where a subscript meets a value that is not an array.
pub fn write_nested_json_no_io(json: Document, keys: String, value: Document) -> (r: Result<
    Document,
    InvalidPathError,
>)
    ensures
        outcome(r) == apply_path(json@, keys@, value@),
{
    let path = keys.as_str();
    let len = path.unicode_len();
    proof {
        assert(path@.skip(0) =~= path@);
    }
    if !check_segment(path, len, 0) {
        return Err(InvalidPathError::Syntax);
    }
    put_at(json, path, len, 0, value)
}

/// Whether `text` holds nothing but `]`.
pub open spec fn only_closers(text: Seq<char>) -> bool
    decreases text.len(),
{
    text.len() == 0 || (text[0] == ']' && only_closers(text.skip(1)))
}

/// Whether a write at `path` lands on a place that a second write at the
/// same path reaches again: every subscript on the way is within its array,
/// or is the last thing in the path and exactly one past the end.
pub open spec fn lands_in_place(doc: Tree, path: Seq<char>) -> bool
    decreases path.len(),
{
    if path.len() == 0 {
        true
    } else {
        let k = key_end(path);
        let key = without(path.take(k as int), ']');
        if k >= path.len() {
            true
        } else if path[k as int] == '[' && key.len() == 0 && doc is Array {
            subscript_lands_in_place(doc, path.skip(k as int + 1))
        } else {
            match fields_of(doc) {
                None => true,
                Some(m) => {
                    if path[k as int] == '.' {
                        let child = if m.dom().contains(key) {
                            m[key]
                        } else {
                            Tree::Object(Map::empty())
                        };
                        lands_in_place(child, path.skip(k as int + 1))
                    } else {
                        let target = if m.dom().contains(key) {
                            m[key]
                        } else {
                            Tree::Array(Seq::empty())
                        };
                        subscript_lands_in_place(target, path.skip(k as int + 1))
                    }
                },
            }
        }
    }
}

/// `lands_in_place` for a subscript of `target`; `rest` starts after `[`.
pub open spec fn subscript_lands_in_place(target: Tree, rest: Seq<char>) -> bool
    decreases rest.len(),
{
    let n = digits_end(rest);
    if n == 0 || n >= rest.len() || rest[n as int] != ']' {
        true
    } else {
        match target {
            Tree::Array(items) => {
                let i = decimal(rest.take(n as int));
                if i > items.len() {
                    false
                } else if i == items.len() {
                    only_closers(rest.skip(n as int + 1))
                } else {
                    rest_lands_in_place(items[i as int], rest.skip(n as int + 1))
                }
            },
            _ => true,
        }
    }
}

/// `lands_in_place` for what follows a subscript of the element `doc`.
pub open spec fn rest_lands_in_place(doc: Tree, rest: Seq<char>) -> bool
    decreases rest.len(),
{
    if rest.len() == 0 {
        true
    } else if rest[0] == ']' {
        rest_lands_in_place(doc, rest.skip(1))
    } else if rest[0] == '.' {
        lands_in_place(doc, rest.skip(1))
    } else if rest[0] == '[' {
        subscript_lands_in_place(doc, rest.skip(1))
    } else {
        true
    }
}

/// The key text ends within the path, and where it ends before the end of
/// the path it ends at a `.` or a `[`.
pub proof fn lemma_key_end(path: Seq<char>)
    ensures
        key_end(path) <= path.len(),
        key_end(path) < path.len() ==> is_structural(path[key_end(path) as int]),
    decreases path.len(),
{
    if path.len() > 0 && !is_structural(path[0]) {
        lemma_key_end(path.skip(1));
    }
}

/// A write at a path without subscripts always lands in place.
pub proof fn lemma_dotted_path_lands_in_place(doc: Tree, path: Seq<char>)
    requires
        forall|i: int| 0 <= i < path.len() ==> path[i] != '[',
    ensures
        lands_in_place(doc, path),
    decreases path.len(),
{
    if path.len() > 0 {
        lemma_key_end(path);
        let k = key_end(path);
        if k < path.len() {
            let key = without(path.take(k as int), ']');
            let rest = path.skip(k as int + 1);
            assert forall|i: int| 0 <= i < rest.len() implies rest[i] != '[' by {
                assert(rest[i] == path[k + 1 + i]);
            }
            match fields_of(doc) {
                None => {},
                Some(m) => {
                    let child = if m.dom().contains(key) {
                        m[key]
                    } else {
                        Tree::Object(Map::empty())
                    };
                    lemma_dotted_path_lands_in_place(child, rest);
                },
            }
        }
    }
}

/// After a subscript, text made of `]` alone puts the value in the
/// element's place.
pub proof fn lemma_only_closers_replace(doc: Tree, rest: Seq<char>, value: Tree)
    requires
        only_closers(rest),
    ensures
        place_rest(doc, rest, value) == Ok::<Tree, InvalidPathError>(value),
    decreases rest.len(),
{
    if rest.len() > 0 {
        lemma_only_closers_replace(doc, rest.skip(1), value);
    }
}

/// The law of the overwrite for the walk from the start of a segment.
pub proof fn lemma_place_idempotent(doc: Tree, path: Seq<char>, first: Tree, second: Tree)
    requires
        place(doc, path, first) is Ok,
        lands_in_place(doc, path),
    ensures
        place(place(doc, path, first)->Ok_0, path, second) == place(
            doc,
            path,
            second,
        ),
    decreases path.len(),
{
    let k = key_end(path);
    let key = without(path.take(k as int), ']');
    let m = fields_of(doc)->Some_0;
    if k >= path.len() {
        assert(m.insert(key, first).insert(key, second) =~= m.insert(key, second));
    } else if path[k as int] == '[' && key.len() == 0 && doc is Array {
        lemma_subscript_idempotent(doc, path.skip(k as int + 1), first, second);
    } else {
        let rest = path.skip(k as int + 1);
        if path[k as int] == '.' {
            let child = if m.dom().contains(key) {
                m[key]
            } else {
                Tree::Object(Map::empty())
            };
            lemma_place_idempotent(child, rest, first, second);
            let once = place(child, rest, first)->Ok_0;
            let direct = place(child, rest, second);
            if direct is Ok {
                assert(m.insert(key, once).insert(key, direct->Ok_0) =~= m.insert(
                    key,
                    direct->Ok_0,
                ));
            }
        } else {
            let target = if m.dom().contains(key) {
                m[key]
            } else {
                Tree::Array(Seq::empty())
            };
            lemma_subscript_idempotent(target, rest, first, second);
            let once = place_subscript(target, rest, first)->Ok_0;
            let direct = place_subscript(target, rest, second);
            if direct is Ok {
                assert(m.insert(key, once).insert(key, direct->Ok_0) =~= m.insert(
                    key,
                    direct->Ok_0,
                ));
            }
        }
    }
}

/// Writing twice at one path leaves what the second write alone would
/// leave: where the first write succeeds and lands in place, a second write
/// at the same path gives the same result as that write on the document
/// as it was at first.
pub proof fn lemma_overwrite_idempotent(doc: Tree, path: Seq<char>, first: Tree, second: Tree)
    requires
        apply_path(doc, path, first) is Ok,
        lands_in_place(doc, path),
    ensures
        apply_path(apply_path(doc, path, first)->Ok_0, path, second) == apply_path(
            doc,
            path,
            second,
        ),
{
    lemma_place_idempotent(doc, path, first, second);
}

/// A write is refused for its syntax exactly where the path is not
/// well-formed, whatever the document and the value are.
pub proof fn lemma_syntax_is_of_the_path(doc: Tree, path: Seq<char>, value: Tree)
    ensures
        apply_path(doc, path, value) == Err::<Tree, InvalidPathError>(InvalidPathError::Syntax)
            <==> !well_formed(path),
{
    if well_formed(path) {
        lemma_place_no_syntax_error(doc, path, value);
    }
}

/// On a well-formed path, no step of the walk meets a fault of syntax.
pub proof fn lemma_place_no_syntax_error(doc: Tree, path: Seq<char>, value: Tree)
    requires
        well_formed(path),
    ensures
        place(doc, path, value) != Err::<Tree, InvalidPathError>(InvalidPathError::Syntax),
    decreases path.len(),
{
    let k = key_end(path);
    let key = without(path.take(k as int), ']');
    if k < path.len() {
        let rest = path.skip(k as int + 1);
        lemma_key_end(path);
        if path[k as int] == '[' && key.len() == 0 && doc is Array {
            lemma_subscript_no_syntax_error(doc, rest, value);
        } else {
            match fields_of(doc) {
                None => {},
                Some(m) => {
                    if path[k as int] == '.' {
                        let child = if m.dom().contains(key) {
                            m[key]
                        } else {
                            Tree::Object(Map::empty())
                        };
                        lemma_place_no_syntax_error(child, rest, value);
                    } else {
                        let target = if m.dom().contains(key) {
                            m[key]
                        } else {
                            Tree::Array(Seq::empty())
                        };
                        lemma_subscript_no_syntax_error(target, rest, value);
                    }
                },
            }
        }
    }
}

/// The same for a subscript; `rest` starts after `[`.
pub proof fn lemma_subscript_no_syntax_error(target: Tree, rest: Seq<char>, value: Tree)
    requires
        subscript_formed(rest),
    ensures
        place_subscript(target, rest, value) != Err::<Tree, InvalidPathError>(
            InvalidPathError::Syntax,
        ),
    decreases rest.len(),
{
    let n = digits_end(rest);
    match target {
        Tree::Array(items) => {
            let i = decimal(rest.take(n as int));
            if i < items.len() {
                lemma_rest_no_syntax_error(items[i as int], rest.skip(n as int + 1), value);
            }
        },
        _ => {},
    }
}

/// The same for what follows a subscript.
pub proof fn lemma_rest_no_syntax_error(doc: Tree, rest: Seq<char>, value: Tree)
    requires
        rest_formed(rest),
    ensures
        place_rest(doc, rest, value) != Err::<Tree, InvalidPathError>(InvalidPathError::Syntax),
    decreases rest.len(),
{
    if rest.len() == 0 {
    } else if rest[0] == ']' {
        lemma_rest_no_syntax_error(doc, rest.skip(1), value);
    } else if rest[0] == '.' {
        lemma_place_no_syntax_error(doc, rest.skip(1), value);
    } else if rest[0] == '[' {
        lemma_subscript_no_syntax_error(doc, rest.skip(1), value);
    }
}

/// The same law for a subscript of `target`; `rest` starts after `[`.
pub proof fn lemma_subscript_idempotent(target: Tree, rest: Seq<char>, first: Tree, second: Tree)
    requires
        place_subscript(target, rest, first) is Ok,
        subscript_lands_in_place(target, rest),
    ensures
        place_subscript(place_subscript(target, rest, first)->Ok_0, rest, second)
            == place_subscript(target, rest, second),
    decreases rest.len(),
{
    let n = digits_end(rest);
    let after = rest.skip(n as int + 1);
    let items = target->Array_0;
    let i = decimal(rest.take(n as int));
    if i == items.len() {
        lemma_only_closers_replace(first, after, second);
        assert(items.push(first).update(i as int, second) =~= items.push(second));
    } else {
        lemma_rest_idempotent(items[i as int], after, first, second);
        let once = place_rest(items[i as int], after, first)->Ok_0;
        let direct = place_rest(items[i as int], after, second);
        if direct is Ok {
            assert(items.update(i as int, once).update(i as int, direct->Ok_0) =~= items.update(
                i as int,
                direct->Ok_0,
            ));
        }
    }
}

/// The same law for what follows a subscript of the element `doc`.
pub proof fn lemma_rest_idempotent(doc: Tree, rest: Seq<char>, first: Tree, second: Tree)
    requires
        place_rest(doc, rest, first) is Ok,
        rest_lands_in_place(doc, rest),
    ensures
        place_rest(place_rest(doc, rest, first)->Ok_0, rest, second) == place_rest(
            doc,
            rest,
            second,
        ),
    decreases rest.len(),
{
    if rest.len() == 0 {
    } else if rest[0] == ']' {
        lemma_rest_idempotent(doc, rest.skip(1), first, second);
    } else if rest[0] == '.' {
        lemma_place_idempotent(doc, rest.skip(1), first, second);
    } else if rest[0] == '[' {
        lemma_subscript_idempotent(doc, rest.skip(1), first, second);
    }
}

} // verus!
