//! The document tree and its mathematical model.

use crate::text::{comes_before, lemma_not_before_itself};
use vstd::prelude::*;

verus! {

/// The model of a JSON number: an integer, or a number with a fraction or
/// an exponent as the text that it is printed as.
pub enum Numeral {
    Int(int),
    Real(Seq<char>),
}

/// The model of a document: a tree whose objects are maps from keys to trees.
pub enum Tree {
    Null,
    Bool(bool),
    Number(Numeral),
    Text(Seq<char>),
    Array(Seq<Tree>),
    Object(Map<Seq<char>, Tree>),
}

/// A JSON number. Two numbers are equal where they hold the same integer
/// or the same text.
#[derive(Debug)]
pub enum JsonNumber {
    /// An integer that is not negative.
    Unsigned(u64),
    /// An integer of either sign.
    Signed(i64),
    /// A number with a fraction or an exponent, held as the text that it is
    /// printed as in JSON, such as `1.5` or `1e+300`. A text of another
    /// form, also one for the same number, cannot be written out.
    Real(String),
}

impl View for JsonNumber {
    type V = Numeral;

    open spec fn view(&self) -> Numeral {
        match self {
            JsonNumber::Unsigned(u) => Numeral::Int(*u as int),
            JsonNumber::Signed(i) => Numeral::Int(*i as int),
            JsonNumber::Real(t) => Numeral::Real(t@),
        }
    }
}

/// An untyped tree value. An object is a list of entries; where a key occurs
/// more than once, the last entry holds its value. Two documents are equal
/// where they stand for the same tree, in whatever order their objects list
/// their entries.
#[derive(Debug)]
pub enum Document {
    Null,
    Bool(bool),
    Number(JsonNumber),
    Text(String),
    Array(Vec<Document>),
    Object(Vec<(String, Document)>),
}

/// The mapping that a list of entries stands for: later entries override
/// earlier ones.
pub open spec fn members(entries: Seq<(String, Document)>) -> Map<Seq<char>, Tree>
    decreases entries,
{
    if entries.len() == 0 {
        Map::empty()
    } else {
        members(entries.drop_last()).insert(entries.last().0@, entries.last().1@)
    }
}

/// The trees of a list of documents, in order.
pub open spec fn elements(items: Seq<Document>) -> Seq<Tree>
    decreases items,
{
    if items.len() == 0 {
        Seq::empty()
    } else {
        elements(items.drop_last()).push(items.last()@)
    }
}

impl View for Document {
    type V = Tree;

    open spec fn view(&self) -> Tree
        decreases self,
    {
        match self {
            Document::Null => Tree::Null,
            Document::Bool(b) => Tree::Bool(*b),
            Document::Number(n) => Tree::Number(n@),
            Document::Text(t) => Tree::Text(t@),
            Document::Array(items) => Tree::Array(elements(items@)),
            Document::Object(entries) => Tree::Object(members(entries@)),
        }
    }
}

/// Why a write into a document was refused.
#[derive(Debug, Clone, Copy, PartialEq, Eq)]
pub enum InvalidPathError {
    /// The path is empty, ends in a dot, or holds a malformed subscript.
    Syntax,
    /// A key addresses a value that is neither an object nor null.
    NotAnObject,
    /// A subscript addresses a value that is not an array.
    NotAnArray,
}

/// The mapping that a tree offers to a key: an object offers its own, and
/// null stands for an object that is not yet populated.
pub open spec fn fields_of(tree: Tree) -> Option<Map<Seq<char>, Tree>> {
    match tree {
        Tree::Null => Some(Map::empty()),
        Tree::Object(m) => Some(m),
        _ => None,
    }
}

/// The tree with `key` set to `value`.
pub open spec fn with_member(tree: Tree, key: Seq<char>, value: Tree) -> Result<
    Tree,
    InvalidPathError,
> {
    match fields_of(tree) {
        Some(m) => Ok(Tree::Object(m.insert(key, value))),
        None => Err(InvalidPathError::NotAnObject),
    }
}

/// The defining equation of `elements`.
pub proof fn lemma_elements_unfold(items: Seq<Document>)
    ensures
        items.len() == 0 ==> elements(items) == Seq::<Tree>::empty(),
        items.len() > 0 ==> elements(items) == elements(items.drop_last()).push(items.last()@),
{
    if items.len() > 0 {
        assert(elements(items) == elements(items.drop_last()).push(items.last()@));
    } else {
        assert(elements(items) == Seq::<Tree>::empty());
    }
}

/// The defining equation of `members`.
pub proof fn lemma_members_unfold(entries: Seq<(String, Document)>)
    ensures
        entries.len() == 0 ==> members(entries) == Map::<Seq<char>, Tree>::empty(),
        entries.len() > 0 ==> members(entries) == members(entries.drop_last()).insert(
            entries.last().0@,
            entries.last().1@,
        ),
{
    if entries.len() > 0 {
        assert(members(entries) == members(entries.drop_last()).insert(
            entries.last().0@,
            entries.last().1@,
        ));
    } else {
        assert(members(entries) == Map::<Seq<char>, Tree>::empty());
    }
}

/// A list of documents has as many trees as documents, each the tree of
/// its document.
pub proof fn lemma_elements(items: Seq<Document>)
    ensures
        elements(items).len() == items.len(),
        forall|i: int| 0 <= i < items.len() ==> (#[trigger] elements(items)[i]) == items[i]@,
    decreases items.len(),
{
    lemma_elements_unfold(items);
    if items.len() > 0 {
        lemma_elements(items.drop_last());
    }
}

/// A document added at the end adds its tree at the end.
pub proof fn lemma_elements_push(items: Seq<Document>, item: Document)
    ensures
        elements(items.push(item)) == elements(items).push(item@),
{
    lemma_elements_unfold(items.push(item));
    assert(items.push(item).drop_last() =~= items);
}

/// A document put in the place of another puts its tree in that place.
pub proof fn lemma_elements_update(items: Seq<Document>, i: int, item: Document)
    requires
        0 <= i < items.len(),
    ensures
        elements(items.update(i, item)) == elements(items).update(i, item@),
{
    lemma_elements(items);
    lemma_elements(items.update(i, item));
    assert(elements(items.update(i, item)) =~= elements(items).update(i, item@));
}

/// A key that no entry holds is not in the mapping.
pub proof fn lemma_members_absent(entries: Seq<(String, Document)>, key: Seq<char>)
    requires
        forall|i: int| 0 <= i < entries.len() ==> (#[trigger] entries[i]).0@ != key,
    ensures
        !members(entries).dom().contains(key),
    decreases entries.len(),
{
    lemma_members_unfold(entries);
    if entries.len() > 0 {
        lemma_members_absent(entries.drop_last(), key);
    }
}

/// The last entry that holds a key gives the key's value.
pub proof fn lemma_members_last(entries: Seq<(String, Document)>, j: int)
    requires
        0 <= j < entries.len(),
        forall|i: int| j < i < entries.len() ==> (#[trigger] entries[i]).0@ != entries[j].0@,
    ensures
        members(entries).dom().contains(entries[j].0@),
        members(entries)[entries[j].0@] == entries[j].1@,
    decreases entries.len(),
{
    lemma_members_unfold(entries);
    if j < entries.len() - 1 {
        lemma_members_last(entries.drop_last(), j);
    }
}

/// Replacing the last entry that holds a key sets the key in the mapping.
pub proof fn lemma_members_update(
    entries: Seq<(String, Document)>,
    j: int,
    entry: (String, Document),
)
    requires
        0 <= j < entries.len(),
        entry.0@ == entries[j].0@,
        forall|i: int| j < i < entries.len() ==> (#[trigger] entries[i]).0@ != entries[j].0@,
    ensures
        members(entries.update(j, entry)) == members(entries).insert(entry.0@, entry.1@),
    decreases entries.len(),
{
    let updated = entries.update(j, entry);
    lemma_members_unfold(entries);
    lemma_members_unfold(updated);
    if j == entries.len() - 1 {
        assert(updated.drop_last() =~= entries.drop_last());
        assert(members(updated) =~= members(entries).insert(entry.0@, entry.1@));
    } else {
        lemma_members_update(entries.drop_last(), j, entry);
        assert(updated.drop_last() =~= entries.drop_last().update(j, entry));
        assert(members(updated) =~= members(entries).insert(entry.0@, entry.1@));
    }
}

/// The index of the last entry that holds `key`, or -1 where none does.
pub open spec fn last_index(entries: Seq<(String, Document)>, key: Seq<char>) -> int
    decreases entries.len(),
{
    if entries.len() == 0 {
        -1
    } else if entries.last().0@ == key {
        entries.len() - 1
    } else {
        last_index(entries.drop_last(), key)
    }
}

/// An entry whose key no later entry holds is the last entry of its key.
pub proof fn lemma_last_index_is(entries: Seq<(String, Document)>, j: int)
    requires
        0 <= j < entries.len(),
        forall|i: int| j < i < entries.len() ==> (#[trigger] entries[i]).0@ != entries[j].0@,
    ensures
        last_index(entries, entries[j].0@) == j,
    decreases entries.len(),
{
    if j < entries.len() - 1 {
        lemma_last_index_is(entries.drop_last(), j);
    }
}

/// A key is in the mapping exactly where an entry holds it, and its value is
/// that of the last such entry.
pub proof fn lemma_members_lookup(entries: Seq<(String, Document)>, key: Seq<char>)
    ensures
        -1 <= last_index(entries, key) < entries.len(),
        members(entries).dom().contains(key) <==> last_index(entries, key) >= 0,
        last_index(entries, key) >= 0 ==> entries[last_index(entries, key)].0@ == key
            && members(entries)[key] == entries[last_index(entries, key)].1@,
        last_index(entries, key) < 0 ==> forall|i: int|
            0 <= i < entries.len() ==> (#[trigger] entries[i]).0@ != key,
    decreases entries.len(),
{
    lemma_members_unfold(entries);
    if entries.len() > 0 {
        lemma_members_lookup(entries.drop_last(), key);
        if entries.last().0@ != key {
            assert forall|i: int| 0 <= i < entries.len() && last_index(entries, key)
                < 0 implies (#[trigger] entries[i]).0@ != key by {
                if i < entries.len() - 1 {
                    assert(entries.drop_last()[i] == entries[i]);
                }
            }
        }
    }
}

/// An entry added at the end sets its key in the mapping.
pub proof fn lemma_members_push(entries: Seq<(String, Document)>, entry: (String, Document))
    ensures
        members(entries.push(entry)) == members(entries).insert(entry.0@, entry.1@),
{
    lemma_members_unfold(entries.push(entry));
    assert(entries.push(entry).drop_last() =~= entries);
}

/// The index of the last entry that holds `key`.
pub fn find_entry(entries: &Vec<(String, Document)>, key: &String) -> (r: Option<usize>)
    ensures
        match r {
            Some(j) => j < entries.len() && entries[j as int].0@ == key@ && forall|i: int|
                j < i < entries.len() ==> (#[trigger] entries[i]).0@ != key@,
            None => forall|i: int| 0 <= i < entries.len() ==> (#[trigger] entries[i]).0@ != key@,
        },
{
    let mut j: usize = entries.len();
    while j > 0
        invariant
            j <= entries.len(),
            forall|i: int| j <= i < entries.len() ==> (#[trigger] entries[i]).0@ != key@,
        decreases j,
    {
        j = j - 1;
        if entries[j].0 == *key {
            return Some(j);
        }
    }
    None
}

impl Document {
    /// An object without entries.
    pub fn empty_object() -> (r: Document)
        ensures
            r@ == Tree::Object(Map::empty()),
    {
        Document::Object(Vec::new())
    }

    /// The value that an object holds under `key`.
    pub fn get(&self, key: &str) -> (r: Option<&Document>)
        ensures
            match r {
                Some(d) => self@ matches Tree::Object(m) && m.dom().contains(key@) && m[key@]
                    == d@,
                None => !(self@ matches Tree::Object(m) && m.dom().contains(key@)),
            },
    {
        match self {
            Document::Object(entries) => {
                let owned = key.to_owned();
                match find_entry(entries, &owned) {
                    Some(j) => {
                        proof {
                            lemma_members_last(entries@, j as int);
                        }
                        Some(&entries[j].1)
                    },
                    None => {
                        proof {
                            lemma_members_absent(entries@, key@);
                        }
                        None
                    },
                }
            },
            _ => None,
        }
    }

    /// Sets `key` to `value` in an object; null becomes an object with that
    /// one entry. Any other document is refused.
    pub fn set(self, key: String, value: Document) -> (r: Result<Document, InvalidPathError>)
        ensures
            match r {
                Ok(d) => with_member(self@, key@, value@) == Ok::<Tree, InvalidPathError>(d@),
                Err(e) => with_member(self@, key@, value@) == Err::<Tree, InvalidPathError>(e),
            },
    {
        match self {
            Document::Null => {
                let mut entries: Vec<(String, Document)> = Vec::new();
                proof {
                    lemma_members_push(entries@, (key, value));
                }
                entries.push((key, value));
                Ok(Document::Object(entries))
            },
            Document::Object(mut entries) => {
                match find_entry(&entries, &key) {
                    Some(j) => {
                        proof {
                            lemma_members_update(entries@, j as int, (key, value));
                        }
                        entries.set(j, (key, value));
                    },
                    None => {
                        proof {
                            lemma_members_push(entries@, (key, value));
                        }
                        entries.push((key, value));
                    },
                }
                Ok(Document::Object(entries))
            },
            _ => Err(InvalidPathError::NotAnObject),
        }
    }
}

/// The unsigned integer that a tree holds, if it is one that fits in 64 bits.
pub open spec fn tree_u64(tree: Tree) -> Option<u64> {
    match tree {
        Tree::Number(Numeral::Int(i)) => if 0 <= i <= u64::MAX {
            Some(i as u64)
        } else {
            None
        },
        _ => None,
    }
}

/// The text that a tree holds, if it is a text.
pub open spec fn tree_text(tree: Tree) -> Option<Seq<char>> {
    match tree {
        Tree::Text(t) => Some(t),
        _ => None,
    }
}

/// The value under `key` in a tree, if the tree is an object that has one.
pub open spec fn tree_member(tree: Tree, key: Seq<char>) -> Option<Tree> {
    match tree {
        Tree::Object(m) => if m.dom().contains(key) {
            Some(m[key])
        } else {
            None
        },
        _ => None,
    }
}

impl Document {
    /// A number document that holds `n`.
    pub fn from_u64(n: u64) -> (r: Document)
        ensures
            r@ == Tree::Number(Numeral::Int(n as int)),
    {
        Document::Number(JsonNumber::Unsigned(n))
    }

    /// The number as an unsigned integer, where the document is an integer
    /// from 0 to the largest `u64`.
    pub fn as_u64(&self) -> (r: Option<u64>)
        ensures
            r == tree_u64(self@),
    {
        match self {
            Document::Number(JsonNumber::Unsigned(u)) => Some(*u),
            Document::Number(JsonNumber::Signed(i)) => {
                if 0 <= *i {
                    Some(*i as u64)
                } else {
                    None
                }
            },
            _ => None,
        }
    }

    /// The text of a text document.
    pub fn as_str(&self) -> (r: Option<&str>)
        ensures
            match r {
                Some(t) => tree_text(self@) == Some(t@),
                None => tree_text(self@) is None,
            },
    {
        match self {
            Document::Text(t) => Some(t.as_str()),
            _ => None,
        }
    }
}

impl Clone for JsonNumber {
    fn clone(&self) -> (r: JsonNumber)
        ensures
            r == *self,
    {
        match self {
            JsonNumber::Unsigned(u) => JsonNumber::Unsigned(*u),
            JsonNumber::Signed(i) => JsonNumber::Signed(*i),
            JsonNumber::Real(t) => JsonNumber::Real(t.clone()),
        }
    }
}

impl Clone for Document {
    /// A copy that stands for the same tree.
    fn clone(&self) -> (r: Document)
        ensures
            r@ == self@,
        decreases self,
    {
        match self {
            Document::Null => Document::Null,
            Document::Bool(b) => Document::Bool(*b),
            Document::Number(n) => Document::Number(n.clone()),
            Document::Text(t) => Document::Text(t.clone()),
            Document::Array(items) => {
                let mut out: Vec<Document> = Vec::new();
                let mut i: usize = 0;
                while i < items.len()
                    invariant
                        i <= items.len(),
                        out.len() == i,
                        *self == Document::Array(*items),
                        forall|j: int| 0 <= j < i ==> (#[trigger] out[j])@ == items[j]@,
                    decreases items.len() - i,
                {
                    proof {
                        assert(decreases_to!(self => self->Array_0));
                        assert(decreases_to!(items => items[i as int]));
                    }
                    let item = items[i].clone();
                    out.push(item);
                    i = i + 1;
                }
                proof {
                    lemma_elements(out@);
                    lemma_elements(items@);
                    assert(elements(out@) =~= elements(items@));
                }
                Document::Array(out)
            },
            Document::Object(entries) => {
                let mut out: Vec<(String, Document)> = Vec::new();
                let mut i: usize = 0;
                proof {
                    lemma_members_unfold(out@);
                    lemma_members_unfold(entries@.take(0));
                }
                while i < entries.len()
                    invariant
                        i <= entries.len(),
                        out.len() == i,
                        *self == Document::Object(*entries),
                        members(out@) == members(entries@.take(i as int)),
                    decreases entries.len() - i,
                {
                    proof {
                        assert(decreases_to!(self => self->Object_0));
                        assert(decreases_to!(entries => entries[i as int]));
                        assert(decreases_to!(entries[i as int] => entries[i as int].1));
                    }
                    let value = entries[i].1.clone();
                    let entry = (entries[i].0.clone(), value);
                    proof {
                        let grown = entries@.take(i + 1);
                        lemma_members_unfold(grown);
                        assert(grown.drop_last() =~= entries@.take(i as int));
                        lemma_members_push(out@, entry);
                    }
                    out.push(entry);
                    i = i + 1;
                }
                proof {
                    assert(entries@.take(entries.len() as int) =~= entries@);
                }
                Document::Object(out)
            },
        }
    }
}

/// Adds an entry at the end of a list of entries: the mapping then holds
/// `value` under `key`.
pub fn push_entry(entries: &mut Vec<(String, Document)>, key: &str, value: Document)
    ensures
        members(final(entries)@) == members(old(entries)@).insert(key@, value@),
{
    let entry = (key.to_owned(), value);
    proof {
        lemma_members_push(entries@, entry);
    }
    entries.push(entry);
}

impl JsonNumber {
    /// Whether two numbers are the same number.
    pub fn same(&self, other: &JsonNumber) -> (r: bool)
        ensures
            r == (self@ == other@),
    {
        match (self, other) {
            (JsonNumber::Unsigned(a), JsonNumber::Unsigned(b)) => *a == *b,
            (JsonNumber::Signed(a), JsonNumber::Signed(b)) => *a == *b,
            (JsonNumber::Unsigned(a), JsonNumber::Signed(b)) => *b >= 0 && *b as u64 == *a,
            (JsonNumber::Signed(a), JsonNumber::Unsigned(b)) => *a >= 0 && *a as u64 == *b,
            (JsonNumber::Real(a), JsonNumber::Real(b)) => *a == *b,
            _ => false,
        }
    }
}

/// Whether each key of `ours` is a key of `theirs` with the same value.
fn entries_within(ours: &Vec<(String, Document)>, theirs: &Vec<(String, Document)>) -> (r: bool)
    ensures
        r == forall|k: Seq<char>| #[trigger]
            members(ours@).dom().contains(k) ==> members(theirs@).dom().contains(k) && members(
                ours@,
            )[k] == members(theirs@)[k],
    decreases ours,
{
    let mut i: usize = 0;
    while i < ours.len()
        invariant
            i <= ours.len(),
            forall|j: int|
                0 <= j < i ==> members(theirs@).dom().contains((#[trigger] ours[j]).0@) && members(
                    ours@,
                )[ours[j].0@] == members(theirs@)[ours[j].0@],
        decreases ours.len() - i,
    {
        let key = &ours[i].0;
        let ghost k = key@;
        let here = find_entry(ours, key);
        let there = find_entry(theirs, key);
        proof {
            lemma_members_lookup(ours@, k);
            lemma_members_lookup(theirs@, k);
        }
        match (here, there) {
            (Some(a), Some(b)) => {
                proof {
                    lemma_members_last(ours@, a as int);
                    lemma_members_last(theirs@, b as int);
                    assert(decreases_to!(ours => ours[a as int]));
                    assert(decreases_to!(ours[a as int] => ours[a as int].1));
                }
                if !ours[a].1.same(&theirs[b].1) {
                    return false;
                }
            },
            _ => {
                proof {
                    if there is None {
                        lemma_members_absent(theirs@, k);
                    }
                    lemma_members_last(ours@, here->Some_0 as int);
                }
                return false;
            },
        }
        i = i + 1;
    }
    proof {
        assert forall|k: Seq<char>| #[trigger]
            members(ours@).dom().contains(k) implies members(theirs@).dom().contains(k) && members(
            ours@,
        )[k] == members(theirs@)[k] by {
            lemma_members_lookup(ours@, k);
            let j = last_index(ours@, k);
            assert(ours[j].0@ == k);
        }
    }
    true
}

/// Whether each key of `ours` is a key of `theirs`.
fn keys_within(ours: &Vec<(String, Document)>, theirs: &Vec<(String, Document)>) -> (r: bool)
    ensures
        r == forall|k: Seq<char>| #[trigger]
            members(ours@).dom().contains(k) ==> members(theirs@).dom().contains(k),
{
    let mut i: usize = 0;
    while i < ours.len()
        invariant
            i <= ours.len(),
            forall|j: int| 0 <= j < i ==> members(theirs@).dom().contains((#[trigger] ours[j]).0@),
        decreases ours.len() - i,
    {
        let ghost k = ours[i as int].0@;
        proof {
            lemma_members_lookup(ours@, k);
            lemma_members_lookup(theirs@, k);
        }
        match find_entry(theirs, &ours[i].0) {
            Some(_) => {},
            None => {
                proof {
                    lemma_members_absent(theirs@, k);
                    if last_index(ours@, k) < 0 {
                        assert(ours[i as int].0@ != k);
                    }
                }
                return false;
            },
        }
        i = i + 1;
    }
    proof {
        assert forall|k: Seq<char>| #[trigger]
            members(ours@).dom().contains(k) implies members(theirs@).dom().contains(k) by {
            lemma_members_lookup(ours@, k);
            let j = last_index(ours@, k);
            assert(ours[j].0@ == k);
        }
    }
    true
}

impl Document {
    /// Whether two documents stand for the same tree.
    pub fn same(&self, other: &Document) -> (r: bool)
        ensures
            r == (self@ == other@),
        decreases self,
    {
        match (self, other) {
            (Document::Null, Document::Null) => true,
            (Document::Bool(a), Document::Bool(b)) => *a == *b,
            (Document::Number(a), Document::Number(b)) => a.same(b),
            (Document::Text(a), Document::Text(b)) => *a == *b,
            (Document::Array(ours), Document::Array(theirs)) => {
                proof {
                    lemma_elements(ours@);
                    lemma_elements(theirs@);
                }
                if ours.len() != theirs.len() {
                    return false;
                }
                let mut i: usize = 0;
                while i < ours.len()
                    invariant
                        i <= ours.len(),
                        ours.len() == theirs.len(),
                        *self == Document::Array(*ours),
                        *other == Document::Array(*theirs),
                        elements(ours@).len() == ours.len(),
                        elements(theirs@).len() == theirs.len(),
                        forall|j: int|
                            0 <= j < ours.len() ==> (#[trigger] elements(ours@)[j]) == ours[j]@,
                        forall|j: int|
                            0 <= j < theirs.len() ==> (#[trigger] elements(theirs@)[j])
                                == theirs[j]@,
                        forall|j: int| 0 <= j < i ==> (#[trigger] ours[j])@ == theirs[j]@,
                    decreases ours.len() - i,
                {
                    proof {
                        assert(decreases_to!(self => self->Array_0));
                        assert(decreases_to!(ours => ours[i as int]));
                    }
                    if !ours[i].same(&theirs[i]) {
                        proof {
                            assert(elements(ours@)[i as int] != elements(theirs@)[i as int]);
                        }
                        return false;
                    }
                    i = i + 1;
                }
                proof {
                    assert(elements(ours@) =~= elements(theirs@));
                }
                true
            },
            (Document::Object(ours), Document::Object(theirs)) => {
                proof {
                    assert(decreases_to!(self => self->Object_0));
                }
                let equal = entries_within(ours, theirs) && keys_within(theirs, ours);
                proof {
                    if equal {
                        assert(members(ours@) =~= members(theirs@));
                    }
                }
                equal
            },
            _ => false,
        }
    }
}

/// Whether each object of a document lists its entries in the order of
/// their keys, each key once.
pub open spec fn key_ordered(doc: Document) -> bool
    decreases doc,
{
    match doc {
        Document::Array(items) => forall|i: int|
            0 <= i < items.len() ==> key_ordered(#[trigger] items[i]),
        Document::Object(entries) => {
            &&& forall|i: int, j: int|
                0 <= i < j < entries.len() ==> comes_before(
                    (#[trigger] entries[i]).0@,
                    (#[trigger] entries[j]).0@,
                )
            &&& forall|i: int| 0 <= i < entries.len() ==> key_ordered((#[trigger] entries[i]).1)
        },
        _ => true,
    }
}

/// The defining equation of `key_ordered` on arrays and objects.
pub proof fn lemma_key_ordered_unfold(doc: Document)
    ensures
        doc matches Document::Array(items) ==> (key_ordered(doc) <==> forall|i: int|
            0 <= i < items.len() ==> key_ordered(#[trigger] items[i])),
        doc matches Document::Object(entries) ==> (key_ordered(doc) <==> (forall|i: int, j: int|
            0 <= i < j < entries.len() ==> comes_before(
                (#[trigger] entries[i]).0@,
                (#[trigger] entries[j]).0@,
            )) && (forall|i: int|
            0 <= i < entries.len() ==> key_ordered((#[trigger] entries[i]).1))),
{
    match doc {
        Document::Array(items) => {
            assert(key_ordered(doc) == (forall|i: int|
                0 <= i < items.len() ==> key_ordered(#[trigger] items[i])));
        },
        Document::Object(entries) => {
            assert(key_ordered(doc) == ((forall|i: int, j: int|
                0 <= i < j < entries.len() ==> comes_before(
                    (#[trigger] entries[i]).0@,
                    (#[trigger] entries[j]).0@,
                )) && (forall|i: int|
                0 <= i < entries.len() ==> key_ordered((#[trigger] entries[i]).1))));
        },
        _ => {},
    }
}

/// In an object that lists its entries in the order of their keys, no
/// entry is overridden: each is the last of its key.
pub proof fn lemma_key_ordered_entries_count(entries: Vec<(String, Document)>, i: int)
    requires
        key_ordered(Document::Object(entries)),
        0 <= i < entries.len(),
    ensures
        last_index(entries@, entries[i].0@) == i,
{
    lemma_key_ordered_unfold(Document::Object(entries));
    assert forall|j: int| i < j < entries.len() implies (#[trigger] entries@[j]).0@
        != entries@[i].0@ by {
        assert(comes_before(entries[i].0@, entries[j].0@));
        lemma_not_before_itself(entries[i].0@);
    }
    lemma_last_index_is(entries@, i);
}

} // verus!
