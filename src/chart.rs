//! The chart document and the accessors for its large-string entries.
use vstd::prelude::*;

verus! {

/// A chart document: the object-value container, which is carried through
/// untouched, and the large-string container that holds keyed payloads.
pub struct RawSrtbFile {
    pub unity_object_values_container: UnityObjectValuesContainer,
    pub large_string_values_container: LargeStringValuesContainer,
}

/// The object-value container of a chart.
pub struct UnityObjectValuesContainer {
    pub values: Vec<UnityObjectValue>,
}

/// One entry of the object-value container.
pub struct UnityObjectValue {
    pub key: String,
    pub json_key: String,
    pub full_type: String,
}

/// The large-string container of a chart: keyed payloads, in order.
pub struct LargeStringValuesContainer {
    pub values: Vec<LargeStringValue>,
}

/// One `{key, val}` entry of the large-string container.
pub struct LargeStringValue {
    pub key: String,
    pub val: String,
}

/// A key/value entry as mathematical text.
pub type Entry = (Seq<char>, Seq<char>);

impl View for LargeStringValue {
    type V = Entry;

    open spec fn view(&self) -> Entry {
        (self.key@, self.val@)
    }
}

/// The position of the first entry whose key is `key`, if any.
pub open spec fn first_index(entries: Seq<Entry>, key: Seq<char>) -> Option<int>
    decreases entries.len(),
{
    if entries.len() == 0 {
        None
    } else if entries[0].0 == key {
        Some(0)
    } else {
        match first_index(entries.drop_first(), key) {
            Some(i) => Some(i + 1),
            None => None,
        }
    }
}

/// `first_index` is the least position holding `key`, or `None` when no
/// entry holds it.
pub proof fn lemma_first_index(entries: Seq<Entry>, key: Seq<char>)
    ensures
        match first_index(entries, key) {
            Some(i) => 0 <= i < entries.len() && entries[i].0 == key && forall|j: int|
                0 <= j < i ==> entries[j].0 != key,
            None => forall|j: int| 0 <= j < entries.len() ==> entries[j].0 != key,
        },
    decreases entries.len(),
{
    if entries.len() > 0 && entries[0].0 != key {
        let rest = entries.drop_first();
        lemma_first_index(rest, key);
        assert forall|j: int| 1 <= j < entries.len() implies entries[j] == rest[j - 1] by {}
    }
}

/// The entries of a list of values.
pub open spec fn entries_of(values: Seq<LargeStringValue>) -> Seq<Entry> {
    values.map_values(|v: LargeStringValue| v@)
}

/// Finds the position of the first entry whose key equals `key`.
pub fn find_key(values: &Vec<LargeStringValue>, key: &str) -> (r: Option<usize>)
    ensures
        r matches Some(i) ==> i < values@.len() && first_index(entries_of(values@), key@) == Some(
            i as int,
        ),
        r is None ==> first_index(entries_of(values@), key@) is None,
{
    let wanted = String::from_str(key);
    let mut i: usize = 0;
    while i < values.len()
        invariant
            i <= values.len(),
            wanted@ == key@,
            forall|j: int| 0 <= j < i ==> values@[j].key@ != key@,
        decreases values.len() - i,
    {
        if values[i].key == wanted {
            proof {
                let entries = entries_of(values@);
                lemma_first_index(entries, key@);
                assert(entries[i as int].0 == key@);
                assert forall|j: int| 0 <= j < i implies entries[j].0 != key@ by {
                    assert(entries[j] == values@[j]@);
                }
            }
            return Some(i);
        }
        i = i + 1;
    }
    proof {
        let entries = entries_of(values@);
        lemma_first_index(entries, key@);
        if first_index(entries, key@) is Some {
            let k = first_index(entries, key@)->0;
            assert(entries[k] == values@[k]@);
        }
    }
    None
}

/// The entries after storing `payload` under `key`: the first entry with that
/// key gets the payload in place, or a new entry is appended.
pub open spec fn integrated(entries: Seq<Entry>, key: Seq<char>, payload: Seq<char>) -> Seq<Entry> {
    match first_index(entries, key) {
        Some(i) => entries.update(i, (entries[i].0, payload)),
        None => entries.push((key, payload)),
    }
}

/// The payload of the first entry with `key`, if any.
pub open spec fn extracted(entries: Seq<Entry>, key: Seq<char>) -> Option<Seq<char>> {
    match first_index(entries, key) {
        Some(i) => Some(entries[i].1),
        None => None,
    }
}

/// The entries after dropping the first entry with `key`, if any.
pub open spec fn removed(entries: Seq<Entry>, key: Seq<char>) -> Seq<Entry> {
    match first_index(entries, key) {
        Some(i) => entries.remove(i),
        None => entries,
    }
}

impl RawSrtbFile {
    /// The large-string entries of the chart.
    pub open spec fn entries(&self) -> Seq<Entry> {
        entries_of(self.large_string_values_container.values@)
    }
}

/// Stores `speeds_json` under `diff_key`: the first entry with that key has its
/// payload replaced in place; without one, a new entry goes to the end.
pub fn integrate(chart: &mut RawSrtbFile, diff_key: &str, speeds_json: String)
    ensures
        final(chart).unity_object_values_container == old(chart).unity_object_values_container,
        final(chart).entries() == integrated(old(chart).entries(), diff_key@, speeds_json@),
{
    let ghost expected = integrated(chart.entries(), diff_key@, speeds_json@);
    let found = find_key(&chart.large_string_values_container.values, diff_key);
    match found {
        Some(i) => {
            let key = chart.large_string_values_container.values[i].key.clone();
            chart.large_string_values_container.values.set(
                i,
                LargeStringValue { key, val: speeds_json },
            );
            proof {
                assert(chart.entries() =~= expected);
            }
        },
        None => {
            let key = String::from_str(diff_key);
            chart.large_string_values_container.values.push(
                LargeStringValue { key, val: speeds_json },
            );
            proof {
                assert(chart.entries() =~= expected);
            }
        },
    }
}

/// The payload stored under `diff_key`, or `None` when no entry has that key.
pub fn extract(chart: &RawSrtbFile, diff_key: &str) -> (r: Option<String>)
    ensures
        r matches Some(v) ==> extracted(chart.entries(), diff_key@) == Some(v@),
        r is None ==> extracted(chart.entries(), diff_key@) is None,
{
    match find_key(&chart.large_string_values_container.values, diff_key) {
        Some(i) => Some(chart.large_string_values_container.values[i].val.clone()),
        None => None,
    }
}

/// Removes the first entry with `diff_key`; returns whether there was one.
pub fn remove(chart: &mut RawSrtbFile, diff_key: &str) -> (r: bool)
    ensures
        r == first_index(old(chart).entries(), diff_key@) is Some,
        final(chart).unity_object_values_container == old(chart).unity_object_values_container,
        final(chart).entries() == removed(old(chart).entries(), diff_key@),
{
    match find_key(&chart.large_string_values_container.values, diff_key) {
        Some(i) => {
            chart.large_string_values_container.values.remove(i);
            proof {
                assert(final(chart).entries() =~= removed(old(chart).entries(), diff_key@));
            }
            true
        },
        None => false,
    }
}

/// A matching position with no match before it is the first index.
pub proof fn lemma_first_index_at(entries: Seq<Entry>, key: Seq<char>, i: int)
    requires
        0 <= i < entries.len(),
        entries[i].0 == key,
        forall|j: int| 0 <= j < i ==> entries[j].0 != key,
    ensures
        first_index(entries, key) == Some(i),
{
    lemma_first_index(entries, key);
}

/// Integrating under a key that no entry has appends one entry, with that key
/// and the payload, at the end. Under a key that some entry has, the first
/// such entry gets the payload in its place; every other entry keeps its
/// position and value.
pub proof fn lemma_integrate_appends_or_replaces(
    entries: Seq<Entry>,
    key: Seq<char>,
    payload: Seq<char>,
)
    ensures
        (forall|j: int| 0 <= j < entries.len() ==> entries[j].0 != key) ==> integrated(
            entries,
            key,
            payload,
        ) == entries.push((key, payload)),
        (exists|j: int| 0 <= j < entries.len() && entries[j].0 == key) ==> ({
            let r = integrated(entries, key, payload);
            &&& r.len() == entries.len()
            &&& exists|i: int|
                0 <= i < entries.len() && entries[i].0 == key && (forall|j: int|
                    0 <= j < i ==> entries[j].0 != key) && r[i] == (key, payload) && (forall|j: int|
                    0 <= j < entries.len() && j != i ==> r[j] == entries[j])
        }),
{
    lemma_first_index(entries, key);
    if let Some(i) = first_index(entries, key) {
        let r = integrated(entries, key, payload);
        assert(r[i] == (key, payload));
    }
}

/// Removing under a key that some entry has drops exactly the first such
/// entry: the entries before it stay, and those after it move down by one.
/// Under a key that no entry has, nothing is removed, `remove` reports so,
/// and the entries are unchanged.
pub proof fn lemma_remove_first_match(entries: Seq<Entry>, key: Seq<char>)
    ensures
        (forall|j: int| 0 <= j < entries.len() ==> entries[j].0 != key) ==> first_index(
            entries,
            key,
        ) is None && removed(entries, key) == entries,
        (exists|j: int| 0 <= j < entries.len() && entries[j].0 == key) ==> ({
            let r = removed(entries, key);
            &&& first_index(entries, key) is Some
            &&& r.len() == entries.len() - 1
            &&& exists|i: int|
                0 <= i < entries.len() && entries[i].0 == key && (forall|j: int|
                    0 <= j < i ==> entries[j].0 != key) && (forall|j: int|
                    0 <= j < i ==> r[j] == entries[j]) && (forall|j: int|
                    i <= j < r.len() ==> r[j] == entries[j + 1])
        }),
{
    lemma_first_index(entries, key);
}

/// After storing a payload under a key, extracting that key gives back exactly
/// that payload.
pub proof fn lemma_extract_after_integrate(entries: Seq<Entry>, key: Seq<char>, payload: Seq<char>)
    ensures
        extracted(integrated(entries, key, payload), key) == Some(payload),
{
    lemma_first_index(entries, key);
    let r = integrated(entries, key, payload);
    match first_index(entries, key) {
        Some(i) => {
            lemma_first_index_at(r, key, i);
        },
        None => {
            lemma_first_index_at(r, key, entries.len() as int);
        },
    }
}

} // verus!
