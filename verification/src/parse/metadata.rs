//! What a file says about itself.

use crate::float::Float;
use crate::pdf::file;
use crate::pdf::file::FileView;
use crate::pdf::file::PdfFile;
use crate::pdf::object;
use crate::pdf::object::DictView;
use crate::pdf::object::ObjectView;
use crate::pdf::object::PdfDictionary;
use crate::pdf::object::PdfObject;
use crate::pdf::text;
use crate::pdf::text::decode_bytes;
use crate::pdf::text::from_utf8_lossy;
use crate::strings;
use crate::types;
use vstd::prelude::*;

verus! {

/// A value that a file gives about itself.
#[derive(Debug)]
pub enum MetadataValue {
    Null,
    Boolean(bool),
    Integer(i64),
    Real(Float),
    Text(String),
    /// An object that is shown as it is.
    Shown(PdfObject),
}

/// What is seen of a [`MetadataValue`].
pub enum ValueView {
    Null,
    Boolean(bool),
    Integer(i64),
    Real(Float),
    Text(Seq<char>),
    Shown(ObjectView),
}

impl View for MetadataValue {
    type V = ValueView;

    open spec fn view(&self) -> ValueView {
        match *self {
            MetadataValue::Null => ValueView::Null,
            MetadataValue::Boolean(v) => ValueView::Boolean(v),
            MetadataValue::Integer(v) => ValueView::Integer(v),
            MetadataValue::Real(v) => ValueView::Real(v),
            MetadataValue::Text(v) => ValueView::Text(v@),
            MetadataValue::Shown(v) => ValueView::Shown(v@),
        }
    }
}

/// A value under its key.
#[derive(Debug)]
pub struct MetadataEntry {
    pub key: String,
    pub value: MetadataValue,
}

impl View for MetadataEntry {
    type V = (Seq<char>, ValueView);

    open spec fn view(&self) -> (Seq<char>, ValueView) {
        (self.key@, self.value@)
    }
}

/// The value that an object stands for.
pub open spec fn value_of(object: ObjectView) -> ValueView {
    match object {
        ObjectView::Text(bytes, _) => match text::text_of(bytes) {
            Some(t) => ValueView::Text(t),
            None => ValueView::Null,
        },
        ObjectView::Name(bytes) => ValueView::Text(text::lossy_text(bytes)),
        ObjectView::Integer(v) => ValueView::Integer(v),
        ObjectView::Real(v) => ValueView::Real(v.widened()),
        ObjectView::Boolean(v) => ValueView::Boolean(v),
        _ => ValueView::Shown(object),
    }
}

/// The place of the entry with the given key, at or behind `from`.
pub open spec fn place(entries: Seq<(Seq<char>, ValueView)>, key: Seq<char>, from: int) -> int
    decreases entries.len() - from,
{
    if 0 <= from < entries.len() && entries[from].0 != key {
        place(entries, key, from + 1)
    } else {
        from
    }
}

/// The entries with a value under a key; one that was there is replaced.
pub open spec fn inserted(
    entries: Seq<(Seq<char>, ValueView)>,
    key: Seq<char>,
    value: ValueView,
) -> Seq<(Seq<char>, ValueView)> {
    let at = place(entries, key, 0);
    if at < entries.len() {
        entries.update(at, (entries[at].0, value))
    } else {
        entries.push((key, value))
    }
}

/// The values that a dictionary stands for.
pub open spec fn values_of(dict: DictView) -> Seq<(Seq<char>, ValueView)>
    decreases dict.len(),
{
    if dict.len() == 0 {
        Seq::empty()
    } else {
        inserted(
            values_of(dict.drop_last()),
            text::lossy_text(dict.last().0),
            value_of(dict.last().1),
        )
    }
}

/// What a file says about itself; nothing where that cannot be found.
pub open spec fn metadata(file: FileView) -> Seq<(Seq<char>, ValueView)> {
    match object::named(file.trailer, "Info"@) {
        Some(o) => match file::dictionary_of(file, o) {
            Ok(dict) => values_of(dict),
            Err(_) => Seq::empty(),
        },
        None => Seq::empty(),
    }
}

/// No key occurs twice.
pub open spec fn distinct(entries: Seq<(Seq<char>, ValueView)>) -> bool {
    forall|i: int, j: int|
        0 <= i < j < entries.len() ==> (#[trigger] entries[i]).0 != (#[trigger] entries[j]).0
}

proof fn lemma_place(entries: Seq<(Seq<char>, ValueView)>, key: Seq<char>, from: int)
    requires
        0 <= from <= entries.len(),
    ensures
        from <= place(entries, key, from) <= entries.len(),
        place(entries, key, from) < entries.len() ==> entries[place(entries, key, from)].0 == key,
        forall|i: int| from <= i < place(entries, key, from) ==> (#[trigger] entries[i]).0 != key,
    decreases entries.len() - from,
{
    if from < entries.len() && entries[from].0 != key {
        lemma_place(entries, key, from + 1);
    }
}

/// No key of the metadata occurs twice, and the value under a key is that of the last entry
/// whose key reads the same.
pub proof fn law_metadata_keys(dict: DictView)
    ensures
        distinct(values_of(dict)),
        dict.len() > 0 ==> values_of(dict).contains(
            (text::lossy_text(dict.last().0), value_of(dict.last().1)),
        ),
    decreases dict.len(),
{
    if dict.len() > 0 {
        law_metadata_keys(dict.drop_last());
        let before = values_of(dict.drop_last());
        let key = text::lossy_text(dict.last().0);
        let value = value_of(dict.last().1);
        lemma_place(before, key, 0);
        let at = place(before, key, 0);
        assert(values_of(dict)[at] == (key, value));
    }
}

/// What a file says under a key is found there, where no later entry has the same key:
/// texts and names as texts, and numbers and truth values as they are.
pub proof fn law_metadata_is_found(dict: DictView, k: int)
    requires
        0 <= k < dict.len(),
        forall|j: int|
            k < j < dict.len() ==> text::lossy_text((#[trigger] dict[j]).0) != text::lossy_text(
                dict[k].0,
            ),
    ensures
        ({
            let key = text::lossy_text(dict[k].0);
            let found = values_of(dict);
            match dict[k].1 {
                ObjectView::Text(bytes, _) => match text::text_of(bytes) {
                    Some(t) => found.contains((key, ValueView::Text(t))),
                    None => found.contains((key, ValueView::Null)),
                },
                ObjectView::Name(bytes) => found.contains(
                    (key, ValueView::Text(text::lossy_text(bytes))),
                ),
                ObjectView::Integer(v) => found.contains((key, ValueView::Integer(v))),
                ObjectView::Real(v) => found.contains((key, ValueView::Real(v.widened()))),
                ObjectView::Boolean(v) => found.contains((key, ValueView::Boolean(v))),
                other => found.contains((key, ValueView::Shown(other))),
            }
        }),
{
    lemma_found(dict, k);
}

proof fn lemma_found(dict: DictView, k: int)
    requires
        0 <= k < dict.len(),
        forall|j: int|
            k < j < dict.len() ==> text::lossy_text((#[trigger] dict[j]).0) != text::lossy_text(
                dict[k].0,
            ),
    ensures
        values_of(dict).contains((text::lossy_text(dict[k].0), value_of(dict[k].1))),
    decreases dict.len(),
{
    law_metadata_keys(dict);
    if k < dict.len() - 1 {
        let fewer = dict.drop_last();
        assert forall|j: int| k < j < fewer.len() implies text::lossy_text((#[trigger] fewer[j]).0)
            != text::lossy_text(fewer[k].0) by {
            assert(fewer[j] == dict[j]);
        }
        lemma_found(fewer, k);
        let before = values_of(fewer);
        let key = text::lossy_text(dict[k].0);
        let i = choose|i: int| 0 <= i < before.len() && before[i] == (key, value_of(dict[k].1));
        let last = text::lossy_text(dict.last().0);
        lemma_place(before, last, 0);
        assert(dict[dict.len() - 1] == dict.last());
        assert(values_of(dict)[i] == before[i]);
    }
}

/// Every key of the metadata is one that the file has.
pub proof fn law_metadata_adds_nothing(dict: DictView, i: int) -> (k: int)
    requires
        0 <= i < values_of(dict).len(),
    ensures
        0 <= k < dict.len(),
        values_of(dict)[i].0 == text::lossy_text(dict[k].0),
    decreases dict.len(),
{
    let fewer = dict.drop_last();
    let before = values_of(fewer);
    let last = text::lossy_text(dict.last().0);
    lemma_place(before, last, 0);
    if i < before.len() {
        let k = law_metadata_adds_nothing(fewer, i);
        assert(fewer[k] == dict[k]);
        k
    } else {
        dict.len() - 1
    }
}

fn find_value(object: &PdfObject) -> (r: MetadataValue)
    ensures
        r@ == value_of(object@),
{
    match object {
        PdfObject::Text(bytes, _) => match decode_bytes(bytes) {
            Some(t) => MetadataValue::Text(t),
            None => MetadataValue::Null,
        },
        PdfObject::Name(bytes) => MetadataValue::Text(from_utf8_lossy(bytes)),
        PdfObject::Integer(v) => MetadataValue::Integer(*v),
        PdfObject::Real(v) => MetadataValue::Real(v.widen()),
        PdfObject::Boolean(v) => MetadataValue::Boolean(*v),
        other => MetadataValue::Shown(other.copy()),
    }
}

fn insert(entries: &mut Vec<MetadataEntry>, key: String, value: MetadataValue)
    ensures
        types::seen(final(entries)@) == inserted(types::seen(old(entries)@), key@, value@),
{
    let ghost all = types::seen(entries@);
    let n: usize = entries.len();
    let mut at: usize = 0;
    while at < n && !strings::same_text(entries[at].key.as_str(), key.as_str())
        invariant
            at <= n,
            n == entries@.len(),
            all == types::seen(entries@),
            place(all, key@, 0) == place(all, key@, at as int),
        decreases n - at,
    {
        assert(all[at as int].0 == entries@[at as int].key@);
        at = at + 1;
    }
    if at < n {
        let ghost before = entries@;
        assert(all[at as int].0 == entries@[at as int].key@);
        entries[at].value = value;
        assert(entries@ =~= before.update(at as int, entries@[at as int]));
        assert(types::seen(entries@) =~= inserted(all, key@, value@));
    } else {
        let entry: MetadataEntry = MetadataEntry { key, value };
        proof {
            types::lemma_seen_push(entries@, entry);
        }
        entries.push(entry);
    }
}

/// What a file says about itself; nothing where that cannot be found.
pub fn extract_metadata(file: &PdfFile) -> (r: Vec<MetadataEntry>)
    ensures
        types::seen(r@) == metadata(file@),
{
    let mut out: Vec<MetadataEntry> = Vec::new();
    assert(types::seen(out@) =~= Seq::<(Seq<char>, ValueView)>::empty());
    let info: &PdfObject = match file.trailer.get("Info") {
        Some(info) => info,
        None => {
            return out;
        },
    };
    let dict: &PdfDictionary = match file.object_to_dict(info) {
        Ok(dict) => dict,
        Err(_) => {
            return out;
        },
    };
    let n: usize = dict.entries.len();
    let ghost all = dict@;
    for i in 0..n
        invariant
            n == dict.entries@.len(),
            all == dict@,
            types::seen(out@) == values_of(all.take(i as int)),
    {
        assert(all.take(i + 1).drop_last() =~= all.take(i as int));
        assert(all[i as int] == (dict.entries@[i as int].key@, dict.entries@[i as int].value@));
        let key: String = from_utf8_lossy(&dict.entries[i].key);
        let value: MetadataValue = find_value(&dict.entries[i].value);
        insert(&mut out, key, value);
    }
    assert(all.take(n as int) =~= all);
    out
}

} // verus!
