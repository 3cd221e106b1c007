//! Searching a document for the values under a key.

use crate::document::{
    find_entry, last_index, lemma_last_index_is, Document, InvalidPathError, Tree,
};
use crate::error::StoreError;
use crate::json::{compact_text, json_compact, writable};
use crate::text::{remove_char, texts, without};
use vstd::prelude::*;

verus! {

/// The text that a found value is listed as: its JSON text on one line,
/// without any double quote.
pub open spec fn listing(tree: Tree) -> Seq<char> {
    without(json_compact(tree), '"')
}

/// The texts that a list of found values is listed as, in order.
pub open spec fn listings(trees: Seq<Tree>) -> Seq<Seq<char>> {
    Seq::new(trees.len(), |i: int| listing(trees[i]))
}

/// Whether each tree of a list can be written as text.
pub open spec fn all_writable(trees: Seq<Tree>) -> bool {
    forall|i: int| 0 <= i < trees.len() ==> writable(#[trigger] trees[i])
}

/// What is found under `key` in a document that is an object; nothing is
/// found in any other document.
pub open spec fn found_in(doc: Document, key: Seq<char>) -> Seq<Tree>
    decreases doc, 0nat,
{
    match doc {
        Document::Object(entries) => found_among(entries@, entries@.len(), key),
        _ => Seq::empty(),
    }
}

/// What is found under `key` among the first `n` entries of an object, in
/// their order. An entry that a later entry of the same key overrides gives
/// nothing; an entry with the key gives its value; any other entry gives
/// what is found in its value.
pub open spec fn found_among(entries: Seq<(String, Document)>, n: nat, key: Seq<char>) -> Seq<Tree>
    decreases entries, n,
{
    if n == 0 || n > entries.len() {
        Seq::empty()
    } else {
        let before = found_among(entries, (n - 1) as nat, key);
        let entry = entries[n - 1];
        if last_index(entries, entry.0@) != n - 1 {
            before
        } else if entry.0@ == key {
            before.push(entry.1@)
        } else {
            before + found_in(entry.1, key)
        }
    }
}

/// What is found under `key` in each of the first `n` documents of a list,
/// in order.
pub open spec fn found_in_all(items: Seq<Document>, n: nat, key: Seq<char>) -> Seq<Tree>
    decreases n,
{
    if n == 0 || n > items.len() {
        Seq::empty()
    } else {
        found_in_all(items, (n - 1) as nat, key) + found_in(items[n - 1], key)
    }
}

/// Whether a document can be searched: it is an object, or an array of
/// objects.
pub open spec fn searchable(doc: Document) -> bool {
    match doc {
        Document::Object(_) => true,
        Document::Array(items) => forall|i: int|
            0 <= i < items.len() ==> (#[trigger] items[i]) is Object,
        _ => false,
    }
}

/// What is found under `key` in a document: in the object, or in each
/// object of the array.
pub open spec fn found(doc: Document, key: Seq<char>) -> Seq<Tree> {
    match doc {
        Document::Array(items) => found_in_all(items@, items@.len(), key),
        _ => found_in(doc, key),
    }
}

/// What the search gives for a document: `InvalidPath` where the document
/// cannot be searched, `Encode` where a found value cannot be written as
/// text, and else the found values as they are listed.
pub open spec fn searched(doc: Document, key: Seq<char>, r: Result<Vec<String>, StoreError>) -> bool {
    if !searchable(doc) {
        r == Err::<Vec<String>, StoreError>(StoreError::InvalidPath(InvalidPathError::NotAnObject))
    } else if all_writable(found(doc, key)) {
        r matches Ok(list) && texts(list@) == listings(found(doc, key))
    } else {
        r == Err::<Vec<String>, StoreError>(StoreError::Encode)
    }
}

/// The defining equation of `found_among`.
pub proof fn lemma_found_among_unfold(entries: Seq<(String, Document)>, n: nat, key: Seq<char>)
    requires
        0 < n <= entries.len(),
    ensures
        found_among(entries, n, key) == {
            let before = found_among(entries, (n - 1) as nat, key);
            let entry = entries[n - 1];
            if last_index(entries, entry.0@) != n - 1 {
                before
            } else if entry.0@ == key {
                before.push(entry.1@)
            } else {
                before + found_in(entry.1, key)
            }
        },
{
    let before = found_among(entries, (n - 1) as nat, key);
    let entry = entries[n - 1];
    if last_index(entries, entry.0@) != n - 1 {
        assert(found_among(entries, n, key) == before);
    } else if entry.0@ == key {
        assert(found_among(entries, n, key) == before.push(entry.1@));
    } else {
        assert(found_among(entries, n, key) == before + found_in(entry.1, key));
    }
}

/// What is found among fewer entries starts what is found among more.
pub proof fn lemma_found_among_grows(
    entries: Seq<(String, Document)>,
    n: nat,
    m: nat,
    key: Seq<char>,
)
    requires
        n <= m <= entries.len(),
    ensures
        found_among(entries, n, key).len() <= found_among(entries, m, key).len(),
        forall|i: int|
            0 <= i < found_among(entries, n, key).len() ==> found_among(entries, m, key)[i]
                == #[trigger] found_among(entries, n, key)[i],
    decreases m - n,
{
    if n < m {
        lemma_found_among_grows(entries, n, (m - 1) as nat, key);
        lemma_found_among_unfold(entries, m, key);
    }
}

/// What is found in fewer documents starts what is found in more.
pub proof fn lemma_found_in_all_grows(items: Seq<Document>, n: nat, m: nat, key: Seq<char>)
    requires
        n <= m <= items.len(),
    ensures
        found_in_all(items, n, key).len() <= found_in_all(items, m, key).len(),
        forall|i: int|
            0 <= i < found_in_all(items, n, key).len() ==> found_in_all(items, m, key)[i]
                == #[trigger] found_in_all(items, n, key)[i],
    decreases m - n,
{
    if n < m {
        lemma_found_in_all_grows(items, n, (m - 1) as nat, key);
    }
}

/// A list that starts with an unwritable list is unwritable.
proof fn lemma_unwritable_start(start: Seq<Tree>, whole: Seq<Tree>)
    requires
        !all_writable(start),
        start.len() <= whole.len(),
        forall|i: int| 0 <= i < start.len() ==> whole[i] == #[trigger] start[i],
    ensures
        !all_writable(whole),
{
    let i = choose|i: int| 0 <= i < start.len() && !writable(#[trigger] start[i]);
    assert(!writable(whole[i]));
}

/// Adds to `out` what is found under `key` among the entries of an object.
fn collect(entries: &Vec<(String, Document)>, key: &String, out: &mut Vec<String>) -> (r: Result<
    (),
    StoreError,
>)
    ensures
        match r {
            Ok(_) => all_writable(found_among(entries@, entries@.len(), key@)) && texts(
                final(out)@,
            ) == texts(old(out)@) + listings(found_among(entries@, entries@.len(), key@)),
            Err(e) => e == StoreError::Encode && !all_writable(
                found_among(entries@, entries@.len(), key@),
            ),
        },
    decreases entries,
{
    let ghost start = texts(out@);
    let ghost total = entries@.len();
    let mut i: usize = 0;
    proof {
        assert(start + listings(found_among(entries@, 0, key@)) =~= start);
    }
    while i < entries.len()
        invariant
            i <= entries.len(),
            total == entries@.len(),
            all_writable(found_among(entries@, i as nat, key@)),
            texts(out@) == start + listings(found_among(entries@, i as nat, key@)),
        decreases entries.len() - i,
    {
        let ghost before = found_among(entries@, i as nat, key@);
        let ghost after = found_among(entries@, (i + 1) as nat, key@);
        let ghost listed = texts(out@);
        proof {
            lemma_found_among_unfold(entries@, (i + 1) as nat, key@);
            lemma_found_among_grows(entries@, (i + 1) as nat, total, key@);
        }
        let effective = match find_entry(entries, &entries[i].0) {
            Some(last) => {
                proof {
                    lemma_last_index_is(entries@, last as int);
                }
                last == i
            },
            None => false,
        };
        if !effective {
            assert(after == before);
        } else if entries[i].0 == *key {
            assert(after == before.push(entries[i as int].1@));
            match compact_text(&entries[i].1) {
                Ok(text) => {
                    let line = remove_char(text.as_str(), '"');
                    out.push(line);
                    proof {
                        assert(texts(out@) =~= listed.push(line@));
                        assert(listings(after) =~= listings(before).push(line@));
                        assert(texts(out@) =~= start + listings(after));
                    }
                },
                Err(_) => {
                    proof {
                        assert(!writable(after[before.len() as int]));
                        lemma_unwritable_start(after, found_among(entries@, total, key@));
                    }
                    return Err(StoreError::Encode);
                },
            }
        } else {
            assert(after == before + found_in(entries[i as int].1, key@));
            match &entries[i].1 {
                Document::Object(inner) => {
                    proof {
                        assert(decreases_to!(entries => entries[i as int]));
                        assert(decreases_to!(entries[i as int] => entries[i as int].1));
                        assert(decreases_to!(entries[i as int].1 => entries[i as int].1->Object_0));
                    }
                    let ghost deeper = found_among(inner@, inner@.len(), key@);
                    assert(found_in(entries[i as int].1, key@) == deeper);
                    match collect(inner, key, out) {
                        Ok(_) => {
                            proof {
                                assert(listings(after) =~= listings(before) + listings(deeper));
                                assert(texts(out@) =~= start + listings(after));
                                assert forall|j: int| 0 <= j < after.len() implies writable(
                                    #[trigger] after[j],
                                ) by {
                                    if j < before.len() {
                                        assert(after[j] == before[j]);
                                    } else {
                                        assert(after[j] == deeper[j - before.len()]);
                                    }
                                }
                            }
                        },
                        Err(_) => {
                            proof {
                                let j = choose|j: int|
                                    0 <= j < deeper.len() && !writable(#[trigger] deeper[j]);
                                assert(after[before.len() + j] == deeper[j]);
                                lemma_unwritable_start(after, found_among(entries@, total, key@));
                            }
                            return Err(StoreError::Encode);
                        },
                    }
                },
                _ => {
                    proof {
                        assert(after =~= before);
                    }
                },
            }
        }
        i = i + 1;
    }
    Ok(())
}

/// Whether each document of a list is an object.
fn all_objects(items: &Vec<Document>) -> (r: bool)
    ensures
        r == forall|i: int| 0 <= i < items.len() ==> (#[trigger] items[i]) is Object,
{
    let mut i: usize = 0;
    while i < items.len()
        invariant
            i <= items.len(),
            forall|j: int| 0 <= j < i ==> (#[trigger] items[j]) is Object,
        decreases items.len() - i,
    {
        match &items[i] {
            Document::Object(_) => {},
            _ => {
                return false;
            },
        }
        i = i + 1;
    }
    true
}

/// Lists the values that a document holds under the key `json_key`, each as
/// its JSON text on one line without double quotes.
///
/// The document is an object, or an array of objects; each object is gone
/// through entry by entry. An entry with the key gives its value. Any other
/// entry is searched in turn where its value is an object, and is passed
/// over where it is not. An entry that a later entry of the same key
/// overrides is passed over. A document of another shape gives
/// `InvalidPath`; a found value that cannot be written as text gives
/// `Encode`.
pub fn iterate_json(json_key: &str, json: &Document) -> (r: Result<Vec<String>, StoreError>)
    ensures
        searched(*json, json_key@, r),
{
    let key = json_key.to_owned();
    let mut out: Vec<String> = Vec::new();
    match json {
        Document::Object(entries) => {
            proof {
                let all = found_among(entries@, entries@.len(), key@);
                assert(texts(out@) + listings(all) =~= listings(all));
            }
            match collect(entries, &key, &mut out) {
                Ok(_) => Ok(out),
                Err(e) => Err(e),
            }
        },
        Document::Array(items) => {
            if !all_objects(items) {
                return Err(StoreError::InvalidPath(InvalidPathError::NotAnObject));
            }
            let ghost total = items@.len();
            let mut i: usize = 0;
            proof {
                assert(texts(out@) =~= listings(found_in_all(items@, 0, key@)));
            }
            while i < items.len()
                invariant
                    i <= items.len(),
                    total == items@.len(),
                    key@ == json_key@,
                    *json == Document::Array(*items),
                    forall|j: int| 0 <= j < items.len() ==> (#[trigger] items[j]) is Object,
                    all_writable(found_in_all(items@, i as nat, key@)),
                    texts(out@) == listings(found_in_all(items@, i as nat, key@)),
                decreases items.len() - i,
            {
                let ghost before = found_in_all(items@, i as nat, key@);
                let ghost after = found_in_all(items@, (i + 1) as nat, key@);
                proof {
                    lemma_found_in_all_grows(items@, (i + 1) as nat, total, key@);
                }
                match &items[i] {
                    Document::Object(entries) => {
                        let ghost deeper = found_among(entries@, entries@.len(), key@);
                        assert(after == before + deeper);
                        match collect(entries, &key, &mut out) {
                            Ok(_) => {
                                proof {
                                    assert(listings(after) =~= listings(before) + listings(deeper));
                                    assert forall|j: int| 0 <= j < after.len() implies writable(
                                        #[trigger] after[j],
                                    ) by {
                                        if j < before.len() {
                                            assert(after[j] == before[j]);
                                        } else {
                                            assert(after[j] == deeper[j - before.len()]);
                                        }
                                    }
                                }
                            },
                            Err(e) => {
                                proof {
                                    let j = choose|j: int|
                                        0 <= j < deeper.len() && !writable(#[trigger] deeper[j]);
                                    assert(after[before.len() + j] == deeper[j]);
                                    lemma_unwritable_start(
                                        after,
                                        found_in_all(items@, total, key@),
                                    );
                                }
                                return Err(e);
                            },
                        }
                    },
                    _ => {},
                }
                i = i + 1;
            }
            Ok(out)
        },
        _ => Err(StoreError::InvalidPath(InvalidPathError::NotAnObject)),
    }
}

} // verus!
