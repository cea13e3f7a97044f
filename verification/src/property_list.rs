//! Property lists, as far as the kerning files use them.
//!
//! The files are read by the `plist` crate. What it returns is copied into
//! `PlistValue`, which keeps arrays, dictionaries, strings and integers and
//! stands every other kind of value as `Other`.

use std::collections::BTreeMap;
use vstd::prelude::*;
use crate::dictionary::{arrangement, arranges, keys_of, lemma_arrangement, strictly_ascending, Dictionary};
use crate::order::lemma_name_order_total;

verus! {

/// A value of a property list.
#[derive(Debug, PartialEq, Eq)]
pub enum PlistValue {
    Array(Vec<PlistValue>),
    /// The entries of a dictionary, in the order of the document.
    Dictionary(Vec<(String, PlistValue)>),
    String(String),
    Integer(i128),
    /// A boolean, a real number, a date, binary data or a UID.
    Other,
}

/// A `PlistValue` as a mathematical value.
pub enum PlistView {
    Array(Seq<PlistView>),
    Dictionary(Seq<(Seq<char>, PlistView)>),
    String(Seq<char>),
    Integer(int),
    Other,
}

impl PlistValue {
    /// What the value holds.
    pub open spec fn model(&self) -> PlistView
        decreases self,
    {
        match self {
            PlistValue::Array(items) => PlistView::Array(
                Seq::new(
                    items.len() as nat,
                    |i: int|
                        if 0 <= i < items.len() {
                            items[i].model()
                        } else {
                            PlistView::Other
                        },
                ),
            ),
            PlistValue::Dictionary(entries) => PlistView::Dictionary(
                Seq::new(
                    entries.len() as nat,
                    |i: int|
                        if 0 <= i < entries.len() {
                            (entries[i].0@, entries[i].1.model())
                        } else {
                            (Seq::empty(), PlistView::Other)
                        },
                ),
            ),
            PlistValue::String(s) => PlistView::String(s@),
            PlistValue::Integer(n) => PlistView::Integer(*n as int),
            PlistValue::Other => PlistView::Other,
        }
    }
}

impl DeepView for PlistValue {
    type V = PlistView;

    open spec fn deep_view(&self) -> PlistView {
        self.model()
    }
}

/// A property list that could not be read; holds what the reader said of it.
#[derive(Clone, Debug, PartialEq, Eq)]
pub struct PlistError {
    pub message: String,
}

/// `plist::Value`, a value of a property list as the `plist` crate holds
/// it. Nothing is known of what is in it but through `plist_content`.
#[verifier::external_type_specification]
#[verifier::external_body]
pub struct ExValue(plist::Value);

/// `plist::Error`, the error of the `plist` crate. Nothing is known of what
/// is in it.
#[verifier::external_type_specification]
#[verifier::external_body]
pub struct ExError(plist::Error);

/// What a `plist::Value` holds.
pub uninterp spec fn plist_content(value: plist::Value) -> PlistView;

/// The entries that `plist::from_bytes` reads from a text as a dictionary
/// ordered by key, or `None` where it reports an error.
pub uninterp spec fn parsed_entries(text: Seq<char>) -> Option<Seq<(Seq<char>, PlistView)>>;

/// The entries of `entries`, each key as its characters and each value as
/// what it holds.
spec fn content_of_entries(entries: Seq<(String, plist::Value)>) -> Seq<(Seq<char>, PlistView)> {
    Seq::new(entries.len(), |i: int| (entries[i].0@, plist_content(entries[i].1)))
}

/// `plist::from_bytes`, asked for a `BTreeMap` from strings to values: the
/// entries of the map in its order, or the error. The result depends on the
/// text alone.
#[verifier::external_body]
fn read_entries(text: &str) -> (r: Result<Vec<(String, plist::Value)>, plist::Error>)
    ensures
        match r {
            Ok(entries) => parsed_entries(text@) == Some(content_of_entries(entries@)),
            Err(_) => parsed_entries(text@) is None,
        },
{
    let map: BTreeMap<String, plist::Value> = plist::from_bytes(text.as_bytes())?;
    Ok(map.into_iter().collect())
}

/// A `plist::Value` taken apart: what lies directly in it, the values below
/// it still as the `plist` crate holds them.
enum ValueParts<'a> {
    Array(&'a Vec<plist::Value>),
    Dictionary(Vec<(&'a String, &'a plist::Value)>),
    String(&'a String),
    /// An integer: as an `i64` where it is one, and as a `u64` where it is
    /// one.
    Integer(Option<i64>, Option<u64>),
    Other,
}

/// What the parts of a value hold together.
spec fn parts_content(parts: ValueParts) -> PlistView {
    match parts {
        ValueParts::Array(items) => PlistView::Array(items@.map_values(|v: plist::Value| plist_content(v))),
        ValueParts::Dictionary(entries) => PlistView::Dictionary(
            entries@.map_values(|e: (&String, &plist::Value)| (e.0@, plist_content(*e.1))),
        ),
        ValueParts::String(s) => PlistView::String(s@),
        ValueParts::Integer(Some(n), _) => PlistView::Integer(n as int),
        ValueParts::Integer(None, Some(n)) => PlistView::Integer(n as int),
        ValueParts::Integer(None, None) => PlistView::Other,
        ValueParts::Other => PlistView::Other,
    }
}

/// Takes a `plist::Value` apart by its variant: the items of an array, the
/// entries of a dictionary in its order, a string, an integer as
/// `Integer::as_signed` and `Integer::as_unsigned` give it; any other variant
/// gives `Other`.
#[verifier::external_body]
fn value_parts<'a>(value: &'a plist::Value) -> (parts: ValueParts<'a>)
    ensures
        parts_content(parts) == plist_content(*value),
{
    match value {
        plist::Value::Array(items) => ValueParts::Array(items),
        plist::Value::Dictionary(entries) => ValueParts::Dictionary(entries.iter().collect()),
        plist::Value::String(s) => ValueParts::String(s),
        plist::Value::Integer(n) => ValueParts::Integer(n.as_signed(), n.as_unsigned()),
        _ => ValueParts::Other,
    }
}

/// Copies a value with all that is below it.
fn copy_value(value: &plist::Value) -> (copy: PlistValue)
    ensures
        copy.deep_view() == plist_content(*value),
    decreases plist_content(*value),
{
    match value_parts(value) {
        ValueParts::Array(items) => {
            let ghost content = plist_content(*value)->Array_0;
            let mut copies: Vec<PlistValue> = Vec::new();
            let mut i: usize = 0;
            while i < items.len()
                invariant
                    i <= items.len(),
                    copies.len() == i,
                    plist_content(*value) == PlistView::Array(content),
                    content == items@.map_values(|v: plist::Value| plist_content(v)),
                    forall|j: int| 0 <= j < i ==> (#[trigger] copies[j]).model() == content[j],
                decreases items.len() - i,
            {
                assert(content[i as int] == plist_content(items[i as int]));
                assert(decreases_to!(plist_content(*value) => plist_content(*value)->Array_0[i as int]));
                copies.push(copy_value(&items[i]));
                i += 1;
            }
            let copy = PlistValue::Array(copies);
            assert(copy.deep_view()->Array_0 =~= content);
            copy
        },
        ValueParts::Dictionary(entries) => {
            let ghost content = plist_content(*value)->Dictionary_0;
            let mut copies: Vec<(String, PlistValue)> = Vec::new();
            let mut i: usize = 0;
            while i < entries.len()
                invariant
                    i <= entries.len(),
                    copies.len() == i,
                    plist_content(*value) == PlistView::Dictionary(content),
                    content == entries@.map_values(|e: (&String, &plist::Value)| (e.0@, plist_content(*e.1))),
                    forall|j: int|
                        0 <= j < i ==> (#[trigger] copies[j]).0@ == content[j].0 && copies[j].1.model()
                            == content[j].1,
                decreases entries.len() - i,
            {
                assert(content[i as int] == (entries[i as int].0@, plist_content(*entries[i as int].1)));
                assert(decreases_to!(plist_content(*value) => plist_content(*value)->Dictionary_0[i as int].1));
                let key = entries[i].0.clone();
                let below = copy_value(entries[i].1);
                copies.push((key, below));
                i += 1;
            }
            let copy = PlistValue::Dictionary(copies);
            assert(copy.deep_view()->Dictionary_0 =~= content);
            copy
        },
        ValueParts::String(s) => PlistValue::String(s.clone()),
        ValueParts::Integer(Some(n), _) => PlistValue::Integer(n as i128),
        ValueParts::Integer(None, Some(n)) => PlistValue::Integer(n as i128),
        ValueParts::Integer(None, None) => PlistValue::Other,
        ValueParts::Other => PlistValue::Other,
    }
}

/// The text of a `plist::Error`, as its `Display` gives it.
#[verifier::external_body]
fn error_text(error: &plist::Error) -> (text: String) {
    error.to_string()
}

/// The entries of a dictionary of property-list values.
pub open spec fn entries_of(dictionary: Dictionary<PlistValue>) -> Seq<(Seq<char>, PlistView)> {
    dictionary.entries().map_values(|e: (Seq<char>, PlistValue)| (e.0, e.1.deep_view()))
}

/// The map that results from storing the entries of `entries` one after the
/// other, a later entry in place of an earlier one with the same key.
pub open spec fn map_of_entries(entries: Seq<(Seq<char>, PlistView)>) -> Map<Seq<char>, PlistView>
    decreases entries.len(),
{
    if entries.len() == 0 {
        Map::empty()
    } else {
        map_of_entries(entries.drop_last()).insert(entries.last().0, entries.last().1)
    }
}

/// The dictionary of property-list values as a map.
pub open spec fn map_of(dictionary: Dictionary<PlistValue>) -> Map<Seq<char>, PlistView> {
    dictionary@.map_values(|v: PlistValue| v.deep_view())
}

/// Storing a value in the dictionary stores what it holds in the map.
pub proof fn lemma_map_of_insert(
    before: Dictionary<PlistValue>,
    after: Dictionary<PlistValue>,
    key: Seq<char>,
    value: PlistValue,
)
    requires
        after@ == before@.insert(key, value),
    ensures
        map_of(after) == map_of(before).insert(key, value.deep_view()),
{
    assert(map_of(after) =~= map_of(before).insert(key, value.deep_view()));
}

/// The entries of a dictionary of property-list values are the arrangement
/// of its map.
pub proof fn lemma_entries_of_arrange(dictionary: Dictionary<PlistValue>)
    requires
        dictionary.wf(),
    ensures
        entries_of(dictionary) == arrangement(map_of(dictionary)),
{
    let entries = entries_of(dictionary);
    dictionary.lemma_entries_arrange();
    assert(keys_of(entries) =~= keys_of(dictionary.entries()));
    assert forall|i: int| 0 <= i < entries.len() implies map_of(dictionary).contains_pair(
        (#[trigger] entries[i]).0,
        entries[i].1,
    ) by {
        assert(dictionary@.contains_pair(dictionary.entries()[i].0, dictionary.entries()[i].1));
    }
    assert forall|k: Seq<char>| #[trigger] map_of(dictionary).contains_key(k) implies exists|i: int|
        0 <= i < entries.len() && (#[trigger] entries[i]).0 == k by {
        assert(dictionary@.contains_key(k));
        let i = choose|i: int| 0 <= i < dictionary.entries().len() && (#[trigger] dictionary.entries()[i]).0 == k;
        assert(entries[i].0 == k);
    }
    assert(arranges(entries, map_of(dictionary)));
    lemma_arrangement(entries, map_of(dictionary));
}

/// Entries whose keys ascend strictly are the arrangement of the map that
/// results from storing them one after the other.
pub proof fn lemma_ascending_entries_arrange(entries: Seq<(Seq<char>, PlistView)>)
    requires
        strictly_ascending(keys_of(entries)),
    ensures
        arranges(entries, map_of_entries(entries)),
        arrangement(map_of_entries(entries)) == entries,
    decreases entries.len(),
{
    let map = map_of_entries(entries);
    if entries.len() > 0 {
        let front = entries.drop_last();
        let last = entries.last();
        let n = entries.len() - 1;
        assert(keys_of(front) =~= keys_of(entries).drop_last());
        lemma_ascending_entries_arrange(front);
        let before = map_of_entries(front);
        assert forall|i: int| 0 <= i < entries.len() implies map.contains_pair(
            (#[trigger] entries[i]).0,
            entries[i].1,
        ) by {
            if i < n {
                assert(front[i] == entries[i]);
                assert(before.contains_pair(front[i].0, front[i].1));
                assert(keys_of(entries)[i] == entries[i].0 && keys_of(entries)[n] == last.0);
                lemma_name_order_total(entries[i].0, last.0);
            }
        }
        assert forall|k: Seq<char>| #[trigger] map.contains_key(k) implies exists|i: int|
            0 <= i < entries.len() && (#[trigger] entries[i]).0 == k by {
            if k == last.0 {
                assert(entries[n].0 == k);
            } else {
                assert(before.contains_key(k));
                let i = choose|i: int| 0 <= i < front.len() && (#[trigger] front[i]).0 == k;
                assert(entries[i].0 == k);
            }
        }
    }
    lemma_arrangement(entries, map);
}

/// Reads the text of a property list whose root is a dictionary.
///
/// The result holds the entries of the root ordered by key. Where a key
/// occurs twice, the later entry stands.
pub fn read_dictionary(text: &str) -> (r: Result<Dictionary<PlistValue>, PlistError>)
    ensures
        match parsed_entries(text@) {
            Some(entries) => r matches Ok(d) && d.wf() && entries_of(d) == arrangement(
                map_of_entries(entries),
            ),
            None => r is Err,
        },
{
    match read_entries(text) {
        Err(e) => Err(PlistError { message: error_text(&e) }),
        Ok(entries) => {
            let d = dictionary_of(&entries);
            proof {
                lemma_entries_of_arrange(d);
            }
            Ok(d)
        },
    }
}

/// Copies the entries read from a property list into a dictionary.
fn dictionary_of(entries: &Vec<(String, plist::Value)>) -> (d: Dictionary<PlistValue>)
    ensures
        d.wf(),
        map_of(d) == map_of_entries(content_of_entries(entries@)),
{
    let mut d: Dictionary<PlistValue> = Dictionary::new();
    let mut i: usize = 0;
    assert(map_of(d) =~= map_of_entries(content_of_entries(entries@).take(0)));
    while i < entries.len()
        invariant
            i <= entries.len(),
            d.wf(),
            map_of(d) == map_of_entries(content_of_entries(entries@).take(i as int)),
        decreases entries.len() - i,
    {
        let key = entries[i].0.clone();
        let value = copy_value(&entries[i].1);
        let ghost before = d;
        proof {
            let now = content_of_entries(entries@).take(i + 1);
            assert(now.drop_last() =~= content_of_entries(entries@).take(i as int));
            assert(now.last() == (key@, value.deep_view()));
        }
        d.insert(key, value);
        proof {
            lemma_map_of_insert(before, d, key@, value);
        }
        i += 1;
    }
    assert(content_of_entries(entries@).take(entries.len() as int) == content_of_entries(entries@));
    d
}

} // verus!
