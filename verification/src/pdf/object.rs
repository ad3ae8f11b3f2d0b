//! Objects, dictionaries and streams.

use crate::float::convert::Single;
use crate::float::Float;
use crate::strings;
use crate::types;
use vstd::prelude::*;
use vstd::utf8::encode_utf8;

verus! {

/// The number and the generation of an object.
pub type ObjectId = (u32, u16);

/// How a string was written.
#[derive(Clone, Copy, PartialEq, Eq, Structural, Debug)]
pub enum Notation {
    Literal,
    Hexadecimal,
}

#[derive(Debug)]
pub enum PdfObject {
    Null,
    Boolean(bool),
    Integer(i64),
    Real(Single),
    Name(Vec<u8>),
    Text(Vec<u8>, Notation),
    Array(Vec<PdfObject>),
    Dictionary(PdfDictionary),
    Stream(PdfStream),
    Reference(ObjectId),
}

/// Entries by their keys, in the order in which they were written.
#[derive(Debug)]
pub struct PdfDictionary {
    pub entries: Vec<Entry>,
}

#[derive(Debug)]
pub struct Entry {
    pub key: Vec<u8>,
    pub value: PdfObject,
}

#[derive(Debug)]
pub struct PdfStream {
    pub dict: PdfDictionary,
    pub content: PdfContent,
}

/// Bytes among which no image can be: nowhere is a `BI` at the beginning or behind white
/// space, with an `ID` somewhere behind it.
#[derive(Debug)]
pub struct PlainBytes {
    bytes: Vec<u8>,
}

/// Whether an operator `BI` may stand at `i`.
pub open spec fn image_begins(bytes: Seq<u8>, i: int) -> bool {
    &&& 0 <= i < bytes.len() - 1
    &&& bytes[i] == 0x42
    &&& bytes[i + 1] == 0x49
    &&& i == 0 || bytes[i - 1] == 0x20 || bytes[i - 1] == 0x09 || bytes[i - 1] == 0x0d || bytes[i
        - 1] == 0x0a
}

/// Whether an operator `ID` may stand at `j`.
pub open spec fn data_begins(bytes: Seq<u8>, j: int) -> bool {
    0 <= j < bytes.len() - 1 && bytes[j] == 0x49 && bytes[j + 1] == 0x44
}

/// Whether an image may be somewhere among the bytes.
pub open spec fn mentions_image(bytes: Seq<u8>) -> bool {
    exists|i: int, j: int|
        i + 2 <= j && #[trigger] image_begins(bytes, i) && #[trigger] data_begins(bytes, j)
}

impl View for PlainBytes {
    type V = Seq<u8>;

    closed spec fn view(&self) -> Seq<u8> {
        self.bytes@
    }
}

impl PlainBytes {
    #[verifier::type_invariant]
    spec fn plain(self) -> bool {
        !mentions_image(self.bytes@)
    }

    /// The bytes, unless an image may be among them.
    pub fn new(bytes: Vec<u8>) -> (r: Option<PlainBytes>)
        ensures
            match r {
                Some(plain) => plain@ == bytes@ && !mentions_image(bytes@),
                None => mentions_image(bytes@),
            },
    {
        let n: usize = bytes.len();
        let mut begun: Option<usize> = None;
        for i in 0..n
            invariant
                n == bytes@.len(),
                begun matches Some(b) ==> b < i && image_begins(bytes@, b as int),
                begun matches Some(b) ==> forall|k: int|
                    0 <= k < b ==> !#[trigger] image_begins(bytes@, k),
                begun matches Some(b) ==> forall|k: int|
                    b + 2 <= k < i ==> !#[trigger] data_begins(bytes@, k),
                begun is None ==> forall|k: int|
                    0 <= k < i ==> !#[trigger] image_begins(bytes@, k),
        {
            if i + 1 < n {
                match begun {
                    None => {
                        if bytes[i] == 0x42 && bytes[i + 1] == 0x49 && (i == 0 || bytes[i - 1] == 0x20
                            || bytes[i - 1] == 0x09 || bytes[i - 1] == 0x0d || bytes[i - 1] == 0x0a) {
                            begun = Some(i);
                        }
                    },
                    Some(b) => {
                        if i - b >= 2 && bytes[i] == 0x49 && bytes[i + 1] == 0x44 {
                            assert(image_begins(bytes@, b as int) && data_begins(bytes@, i as int));
                            return None;
                        }
                    },
                }
            }
        }
        Some(PlainBytes { bytes })
    }

    /// Another copy of the bytes.
    pub fn copy(&self) -> (r: PlainBytes)
        ensures
            r@ == self@,
    {
        proof {
            use_type_invariant(self);
        }
        PlainBytes { bytes: copy_bytes(&self.bytes) }
    }

    /// The bytes.
    pub fn as_vec(&self) -> (r: &Vec<u8>)
        ensures
            r@ == self@,
            !mentions_image(r@),
    {
        proof {
            use_type_invariant(self);
        }
        &self.bytes
    }
}

/// What a stream holds once its filters have been undone.
#[derive(Debug)]
pub enum PdfContent {
    Bytes(PlainBytes),
    /// Operations, where the bytes hold images of their own.
    Operations(Vec<PdfOperation>),
    /// Bytes that hold images of their own and are no operations.
    Unreadable,
}

/// An operator with the operands before it.
#[derive(Debug)]
pub struct PdfOperation {
    pub operator: String,
    pub operands: Vec<PdfObject>,
}

/// What is seen of a [`PdfObject`].
pub enum ObjectView {
    Null,
    Boolean(bool),
    Integer(i64),
    Real(Single),
    Name(Seq<u8>),
    Text(Seq<u8>, Notation),
    Array(Seq<ObjectView>),
    Dictionary(Seq<(Seq<u8>, ObjectView)>),
    Stream(Seq<(Seq<u8>, ObjectView)>, ContentView),
    Reference(ObjectId),
}

/// What is seen of a [`PdfContent`].
pub enum ContentView {
    Bytes(Seq<u8>),
    Operations(Seq<(Seq<char>, Seq<ObjectView>)>),
    Unreadable,
}

/// What is seen of a [`PdfDictionary`].
pub type DictView = Seq<(Seq<u8>, ObjectView)>;

/// What is seen of a [`PdfOperation`].
pub type OperationView = (Seq<char>, Seq<ObjectView>);

impl View for PdfObject {
    type V = ObjectView;

    open spec fn view(&self) -> ObjectView
        decreases *self,
    {
        match *self {
            PdfObject::Null => ObjectView::Null,
            PdfObject::Boolean(b) => ObjectView::Boolean(b),
            PdfObject::Integer(i) => ObjectView::Integer(i),
            PdfObject::Real(r) => ObjectView::Real(r),
            PdfObject::Name(n) => ObjectView::Name(n@),
            PdfObject::Text(s, n) => ObjectView::Text(s@, n),
            PdfObject::Array(items) => ObjectView::Array(
                Seq::new(
                    items@.len(),
                    |i: int|
                        if 0 <= i < items@.len() {
                            items@[i].view()
                        } else {
                            ObjectView::Null
                        },
                ),
            ),
            PdfObject::Dictionary(d) => ObjectView::Dictionary(d.view()),
            PdfObject::Stream(s) => ObjectView::Stream(s.dict.view(), s.content.view()),
            PdfObject::Reference(id) => ObjectView::Reference(id),
        }
    }
}

impl View for PdfDictionary {
    type V = DictView;

    open spec fn view(&self) -> DictView
        decreases *self,
    {
        Seq::new(
            self.entries@.len(),
            |i: int|
                if 0 <= i < self.entries@.len() {
                    (self.entries@[i].key@, self.entries@[i].value.view())
                } else {
                    (Seq::empty(), ObjectView::Null)
                },
        )
    }
}

impl View for PdfContent {
    type V = ContentView;

    open spec fn view(&self) -> ContentView
        decreases *self,
    {
        match *self {
            PdfContent::Bytes(b) => ContentView::Bytes(b@),
            PdfContent::Operations(ops) => ContentView::Operations(
                Seq::new(
                    ops@.len(),
                    |i: int|
                        if 0 <= i < ops@.len() {
                            ops@[i].view()
                        } else {
                            (Seq::empty(), Seq::empty())
                        },
                ),
            ),
            PdfContent::Unreadable => ContentView::Unreadable,
        }
    }
}

impl View for PdfOperation {
    type V = OperationView;

    open spec fn view(&self) -> OperationView
        decreases *self,
    {
        (
            self.operator@,
            Seq::new(
                self.operands@.len(),
                |i: int|
                    if 0 <= i < self.operands@.len() {
                        self.operands@[i].view()
                    } else {
                        ObjectView::Null
                    },
            ),
        )
    }
}

/// Another copy of bytes.
pub fn copy_bytes(bytes: &Vec<u8>) -> (r: Vec<u8>)
    ensures
        r@ == bytes@,
{
    let mut out: Vec<u8> = Vec::new();
    let n: usize = bytes.len();
    for i in 0..n
        invariant
            n == bytes@.len(),
            out@ =~= bytes@.take(i as int),
    {
        out.push(bytes[i]);
    }
    assert(out@ =~= bytes@);
    out
}

/// Whether two runs of bytes are the same.
pub fn same_bytes(a: &Vec<u8>, b: &Vec<u8>) -> (r: bool)
    ensures
        r == (a@ == b@),
{
    let n: usize = a.len();
    if n != b.len() {
        return false;
    }
    for i in 0..n
        invariant
            n == a@.len(),
            n == b@.len(),
            forall|k: int| 0 <= k < i ==> a@[k] == b@[k],
    {
        if a[i] != b[i] {
            assert(a@[i as int] != b@[i as int]);
            return false;
        }
    }
    assert(a@ =~= b@);
    true
}

impl PdfObject {
    /// Another object that looks the same.
    pub fn copy(&self) -> (r: PdfObject)
        ensures
            r@ == self@,
        decreases *self,
    {
        match self {
            PdfObject::Null => PdfObject::Null,
            PdfObject::Boolean(b) => PdfObject::Boolean(*b),
            PdfObject::Integer(i) => PdfObject::Integer(*i),
            PdfObject::Real(r) => PdfObject::Real(*r),
            PdfObject::Name(n) => PdfObject::Name(copy_bytes(n)),
            PdfObject::Text(s, n) => PdfObject::Text(copy_bytes(s), *n),
            PdfObject::Array(items) => {
                let r: Vec<PdfObject> = copy_objects(items);
                let out: PdfObject = PdfObject::Array(r);
                assert(out@->Array_0 =~= self@->Array_0) by {
                    lemma_array_view(r);
                    lemma_array_view(*items);
                }
                out
            },
            PdfObject::Dictionary(d) => PdfObject::Dictionary(d.copy()),
            PdfObject::Stream(s) => PdfObject::Stream(
                PdfStream { dict: s.dict.copy(), content: s.content.copy() },
            ),
            PdfObject::Reference(id) => PdfObject::Reference(*id),
        }
    }
}

/// An array shows its items.
pub proof fn lemma_array_view(items: Vec<PdfObject>)
    ensures
        PdfObject::Array(items)@ == ObjectView::Array(types::seen(items@)),
{
    reveal_with_fuel(<PdfObject as View>::view, 2);
    assert(PdfObject::Array(items)@->Array_0 =~= types::seen(items@));
}

/// Copies of objects.
pub fn copy_objects(items: &Vec<PdfObject>) -> (r: Vec<PdfObject>)
    ensures
        types::seen(r@) == types::seen(items@),
    decreases *items,
{
    let mut out: Vec<PdfObject> = Vec::new();
    let n: usize = items.len();
    for i in 0..n
        invariant
            n == items@.len(),
            types::seen(out@) =~= types::seen(items@).take(i as int),
    {
        let item: PdfObject = items[i].copy();
        proof {
            types::lemma_seen_push(out@, item);
        }
        out.push(item);
    }
    assert(types::seen(out@) =~= types::seen(items@));
    out
}

impl PdfDictionary {
    /// Another dictionary that looks the same.
    pub fn copy(&self) -> (r: PdfDictionary)
        ensures
            r@ == self@,
        decreases *self,
    {
        let mut out: Vec<Entry> = Vec::new();
        let n: usize = self.entries.len();
        for i in 0..n
            invariant
                n == self.entries@.len(),
                out@.len() == i,
                forall|k: int|
                    0 <= k < i ==> (#[trigger] out@[k]).key@ == self.entries@[k].key@
                        && out@[k].value@ == self.entries@[k].value@,
        {
            let entry: Entry = Entry {
                key: copy_bytes(&self.entries[i].key),
                value: self.entries[i].value.copy(),
            };
            out.push(entry);
        }
        let r: PdfDictionary = PdfDictionary { entries: out };
        assert(r@ =~= self@);
        r
    }
}

impl PdfContent {
    /// Content without a byte.
    pub fn empty() -> (r: PdfContent)
        ensures
            r@ == ContentView::Bytes(Seq::empty()),
    {
        let plain: PlainBytes = PlainBytes { bytes: Vec::new() };
        assert(plain@ =~= Seq::<u8>::empty());
        PdfContent::Bytes(plain)
    }

    /// Another content that looks the same.
    pub fn copy(&self) -> (r: PdfContent)
        ensures
            r@ == self@,
        decreases *self,
    {
        match self {
            PdfContent::Bytes(b) => PdfContent::Bytes(b.copy()),
            PdfContent::Operations(ops) => {
                let out: Vec<PdfOperation> = copy_operations(ops);
                proof {
                    lemma_operations_view(out);
                    lemma_operations_view(*ops);
                }
                PdfContent::Operations(out)
            },
            PdfContent::Unreadable => PdfContent::Unreadable,
        }
    }
}

/// Operations that have been read show as they are.
pub proof fn lemma_operations_view(ops: Vec<PdfOperation>)
    ensures
        PdfContent::Operations(ops)@ == ContentView::Operations(types::seen(ops@)),
{
    assert(PdfContent::Operations(ops)@->Operations_0 =~= types::seen(ops@));
}

/// Copies of operations.
pub fn copy_operations(ops: &Vec<PdfOperation>) -> (r: Vec<PdfOperation>)
    ensures
        types::seen(r@) == types::seen(ops@),
    decreases *ops,
{
    let mut out: Vec<PdfOperation> = Vec::new();
    let n: usize = ops.len();
    for i in 0..n
        invariant
            n == ops@.len(),
            types::seen(out@) =~= types::seen(ops@).take(i as int),
    {
        let op: PdfOperation = ops[i].copy();
        proof {
            types::lemma_seen_push(out@, op);
        }
        out.push(op);
    }
    assert(types::seen(out@) =~= types::seen(ops@));
    out
}

impl PdfOperation {
    /// Another operation that looks the same.
    pub fn copy(&self) -> (r: PdfOperation)
        ensures
            r@ == self@,
        decreases *self,
    {
        let r: PdfOperation = PdfOperation {
            operator: self.operator.clone(),
            operands: copy_objects(&self.operands),
        };
        proof {
            lemma_operation_view(r);
            lemma_operation_view(*self);
        }
        r
    }
}

/// An operation shows its operator and its operands.
pub proof fn lemma_operation_view(op: PdfOperation)
    ensures
        op@ == (op.operator@, types::seen(op.operands@)),
{
    assert(op@.1 =~= types::seen(op.operands@));
}

/// The value of the first entry with the given key.
pub open spec fn entry(dict: DictView, key: Seq<u8>) -> Option<ObjectView>
    decreases dict.len(),
{
    if dict.len() == 0 {
        None
    } else if dict[0].0 == key {
        Some(dict[0].1)
    } else {
        entry(dict.skip(1), key)
    }
}

/// What is seen of an object that may be missing.
pub open spec fn seen_object(object: Option<&PdfObject>) -> Option<ObjectView> {
    match object {
        Some(o) => Some(o@),
        None => None,
    }
}

/// The value of the first entry whose key is the encoding of a text.
pub open spec fn named(dict: DictView, key: Seq<char>) -> Option<ObjectView> {
    entry(dict, encode_utf8(key))
}

impl PdfDictionary {
    /// The value of the first entry with the given key.
    pub fn get(&self, key: &str) -> (r: Option<&PdfObject>)
        ensures
            seen_object(r) == named(self@, key@),
    {
        let ghost bytes = encode_utf8(key@);
        let n: usize = self.entries.len();
        assert(self@.skip(0) =~= self@);
        for i in 0..n
            invariant
                n == self.entries@.len(),
                bytes == encode_utf8(key@),
                entry(self@, bytes) == entry(self@.skip(i as int), bytes),
        {
            assert(self@.skip(i as int)[0] == self@[i as int]);
            assert(self@[i as int] == (self.entries@[i as int].key@, self.entries@[i as int].value@));
            if strings::encodes(&self.entries[i].key, key) {
                return Some(&self.entries[i].value);
            }
            assert(self@.skip(i as int).skip(1) =~= self@.skip(i + 1));
        }
        None
    }

    /// The value of the first entry with the given bytes as its key.
    pub fn get_bytes(&self, key: &Vec<u8>) -> (r: Option<&PdfObject>)
        ensures
            seen_object(r) == entry(self@, key@),
    {
        let n: usize = self.entries.len();
        assert(self@.skip(0) =~= self@);
        for i in 0..n
            invariant
                n == self.entries@.len(),
                entry(self@, key@) == entry(self@.skip(i as int), key@),
        {
            assert(self@.skip(i as int)[0] == self@[i as int]);
            assert(self@[i as int] == (self.entries@[i as int].key@, self.entries@[i as int].value@));
            if same_bytes(&self.entries[i].key, key) {
                return Some(&self.entries[i].value);
            }
            assert(self@.skip(i as int).skip(1) =~= self@.skip(i + 1));
        }
        None
    }
}

/// The place of the first entry with the given key, at or behind `from`.
pub open spec fn place(dict: DictView, key: Seq<u8>, from: int) -> int
    decreases dict.len() - from,
{
    if 0 <= from < dict.len() && dict[from].0 != key {
        place(dict, key, from + 1)
    } else {
        from
    }
}

/// The dictionary with a value under a key; one that was there is replaced.
pub open spec fn with_entry(dict: DictView, key: Seq<u8>, value: ObjectView) -> DictView {
    let at = place(dict, key, 0);
    if at < dict.len() {
        dict.update(at, (dict[at].0, value))
    } else {
        dict.push((key, value))
    }
}

/// What has been put into a dictionary is found there.
pub proof fn law_entry_found(dict: DictView, key: Seq<u8>, value: ObjectView)
    ensures
        entry(with_entry(dict, key, value), key) == Some(value),
{
    lemma_place(dict, key, 0);
    let at = place(dict, key, 0);
    let after = with_entry(dict, key, value);
    assert(after.skip(0) =~= after);
    lemma_entry_at(after, key, 0, at);
}

/// What is put into a dictionary leaves the values under other keys alone.
pub proof fn law_entry_kept(dict: DictView, key: Seq<u8>, value: ObjectView, other: Seq<u8>)
    requires
        other != key,
    ensures
        entry(with_entry(dict, key, value), other) == entry(dict, other),
{
    lemma_place(dict, key, 0);
    let after = with_entry(dict, key, value);
    assert(after.skip(0) =~= after);
    assert(dict.skip(0) =~= dict);
    lemma_entry_elsewhere(dict, after, other, 0);
}

proof fn lemma_place(dict: DictView, key: Seq<u8>, from: int)
    requires
        0 <= from <= dict.len(),
    ensures
        from <= place(dict, key, from) <= dict.len(),
        place(dict, key, from) < dict.len() ==> dict[place(dict, key, from)].0 == key,
        forall|i: int| from <= i < place(dict, key, from) ==> (#[trigger] dict[i]).0 != key,
    decreases dict.len() - from,
{
    if from < dict.len() && dict[from].0 != key {
        lemma_place(dict, key, from + 1);
    }
}

proof fn lemma_entry_at(dict: DictView, key: Seq<u8>, from: int, at: int)
    requires
        0 <= from <= at < dict.len(),
        dict[at].0 == key,
        forall|i: int| from <= i < at ==> (#[trigger] dict[i]).0 != key,
    ensures
        entry(dict.skip(from), key) == Some(dict[at].1),
    decreases at - from,
{
    assert(dict.skip(from)[0] == dict[from]);
    if from < at {
        lemma_entry_at(dict, key, from + 1, at);
        assert(dict.skip(from).skip(1) =~= dict.skip(from + 1));
    }
}

proof fn lemma_entry_elsewhere(a: DictView, b: DictView, key: Seq<u8>, from: int)
    requires
        0 <= from <= a.len() <= b.len(),
        forall|i: int|
            0 <= i < a.len() ==> (#[trigger] a[i]).0 == b[i].0 && (a[i].0 == key ==> a[i] == b[i]),
        forall|i: int| a.len() <= i < b.len() ==> (#[trigger] b[i]).0 != key,
    ensures
        entry(a.skip(from), key) == entry(b.skip(from), key),
    decreases b.len() - from,
{
    if from < a.len() {
        assert(a.skip(from)[0] == a[from]);
        assert(b.skip(from)[0] == b[from]);
        lemma_entry_elsewhere(a, b, key, from + 1);
        assert(a.skip(from).skip(1) =~= a.skip(from + 1));
        assert(b.skip(from).skip(1) =~= b.skip(from + 1));
    } else {
        lemma_entry_missing(b, key, from);
    }
}

proof fn lemma_entry_missing(dict: DictView, key: Seq<u8>, from: int)
    requires
        0 <= from <= dict.len(),
        forall|i: int| from <= i < dict.len() ==> (#[trigger] dict[i]).0 != key,
    ensures
        entry(dict.skip(from), key) is None,
    decreases dict.len() - from,
{
    if from < dict.len() {
        assert(dict.skip(from)[0] == dict[from]);
        lemma_entry_missing(dict, key, from + 1);
        assert(dict.skip(from).skip(1) =~= dict.skip(from + 1));
    }
}

impl PdfDictionary {
    /// A dictionary without entries.
    pub fn new() -> (r: PdfDictionary)
        ensures
            r@ == Seq::<(Seq<u8>, ObjectView)>::empty(),
    {
        let r: PdfDictionary = PdfDictionary { entries: Vec::new() };
        assert(r@ =~= Seq::<(Seq<u8>, ObjectView)>::empty());
        r
    }

    /// Puts a value under a key; one that was there is replaced.
    pub fn set(&mut self, key: Vec<u8>, value: PdfObject)
        ensures
            final(self)@ == with_entry(old(self)@, key@, value@),
    {
        let ghost all = self@;
        let n: usize = self.entries.len();
        let mut at: usize = 0;
        while at < n && !same_bytes(&self.entries[at].key, &key)
            invariant
                at <= n,
                n == self.entries@.len(),
                all == self@,
                place(all, key@, 0) == place(all, key@, at as int),
            decreases n - at,
        {
            assert(all[at as int].0 == self.entries@[at as int].key@);
            at = at + 1;
        }
        if at < n {
            let ghost before = self.entries@;
            assert(all[at as int].0 == self.entries@[at as int].key@);
            self.entries[at].value = value;
            assert(self.entries@ =~= before.update(at as int, self.entries@[at as int]));
            assert(self@ =~= with_entry(all, key@, value@));
        } else {
            self.entries.push(Entry { key, value });
            assert(self@ =~= with_entry(all, key@, value@));
        }
    }
}

/// The number that an object is.
pub open spec fn number(object: ObjectView) -> Option<Float> {
    match object {
        ObjectView::Integer(v) => Some(Float::integer(v as int)),
        ObjectView::Real(v) => Some(v.widened()),
        _ => None,
    }
}

/// The integer that an object is, without a fraction.
pub open spec fn whole(object: ObjectView) -> Option<i64> {
    match object {
        ObjectView::Integer(v) => Some(v),
        ObjectView::Real(v) => Some(v.truncated()),
        _ => None,
    }
}

pub open spec fn truth(object: ObjectView) -> Option<bool> {
    match object {
        ObjectView::Boolean(v) => Some(v),
        _ => None,
    }
}

pub open spec fn target(object: ObjectView) -> Option<ObjectId> {
    match object {
        ObjectView::Reference(id) => Some(id),
        _ => None,
    }
}

/// The number that an object is.
pub fn obj_to_f64(object: &PdfObject) -> (r: Option<Float>)
    ensures
        r == number(object@),
{
    match object {
        PdfObject::Integer(v) => Some(Float::from_i64(*v)),
        PdfObject::Real(v) => Some(v.widen()),
        _ => None,
    }
}

pub fn obj_to_bool(object: &PdfObject) -> (r: Option<bool>)
    ensures
        r == truth(object@),
{
    match object {
        PdfObject::Boolean(v) => Some(*v),
        _ => None,
    }
}

/// The integer that an object is, without a fraction.
pub fn obj_to_i64(object: &PdfObject) -> (r: Option<i64>)
    ensures
        r == whole(object@),
{
    match object {
        PdfObject::Integer(v) => Some(*v),
        PdfObject::Real(v) => Some(v.truncate()),
        _ => None,
    }
}

pub fn obj_to_reference(object: &PdfObject) -> (r: Option<ObjectId>)
    ensures
        r == target(object@),
{
    match object {
        PdfObject::Reference(id) => Some(*id),
        _ => None,
    }
}

/// Whether two runs of objects look the same.
pub fn same_objects(a: &Vec<PdfObject>, b: &Vec<PdfObject>) -> (r: bool)
    ensures
        r == (types::seen(a@) == types::seen(b@)),
    decreases *a,
{
    let n: usize = a.len();
    let ghost x = types::seen(a@);
    let ghost y = types::seen(b@);
    assert(x.len() == a@.len() && y.len() == b@.len());
    if n != b.len() {
        return false;
    }
    for i in 0..n
        invariant
            n == a@.len(),
            n == b@.len(),
            x == types::seen(a@),
            y == types::seen(b@),
            forall|k: int| 0 <= k < i ==> x[k] == y[k],
    {
        assert(x[i as int] == a@[i as int]@ && y[i as int] == b@[i as int]@);
        if !a[i].same(&b[i]) {
            return false;
        }
    }
    assert(x =~= y);
    true
}

/// Whether two runs of operations look the same.
pub fn same_operations(a: &Vec<PdfOperation>, b: &Vec<PdfOperation>) -> (r: bool)
    ensures
        r == (types::seen(a@) == types::seen(b@)),
    decreases *a,
{
    let n: usize = a.len();
    let ghost x = types::seen(a@);
    let ghost y = types::seen(b@);
    assert(x.len() == a@.len() && y.len() == b@.len());
    if n != b.len() {
        return false;
    }
    for i in 0..n
        invariant
            n == a@.len(),
            n == b@.len(),
            x == types::seen(a@),
            y == types::seen(b@),
            forall|k: int| 0 <= k < i ==> x[k] == y[k],
    {
        assert(x[i as int] == a@[i as int]@ && y[i as int] == b@[i as int]@);
        if !a[i].same(&b[i]) {
            return false;
        }
    }
    assert(x =~= y);
    true
}

impl PdfOperation {
    /// Whether two operations look the same.
    pub fn same(&self, other: &PdfOperation) -> (r: bool)
        ensures
            r == (self@ == other@),
        decreases *self,
    {
        proof {
            lemma_operation_view(*self);
            lemma_operation_view(*other);
        }
        strings::same_text(self.operator.as_str(), other.operator.as_str()) && same_objects(
            &self.operands,
            &other.operands,
        )
    }
}

impl PdfContent {
    /// Whether two contents look the same.
    pub fn same(&self, other: &PdfContent) -> (r: bool)
        ensures
            r == (self@ == other@),
        decreases *self,
    {
        match (self, other) {
            (PdfContent::Bytes(a), PdfContent::Bytes(b)) => same_bytes(a.as_vec(), b.as_vec()),
            (PdfContent::Operations(a), PdfContent::Operations(b)) => {
                proof {
                    lemma_operations_view(*a);
                    lemma_operations_view(*b);
                }
                same_operations(a, b)
            },
            (PdfContent::Unreadable, PdfContent::Unreadable) => true,
            _ => false,
        }
    }
}

impl PdfDictionary {
    /// Whether two dictionaries have the same entries in the same order.
    pub fn same(&self, other: &PdfDictionary) -> (r: bool)
        ensures
            r == (self@ == other@),
        decreases *self,
    {
        let n: usize = self.entries.len();
        assert(self@.len() == self.entries@.len() && other@.len() == other.entries@.len());
        if n != other.entries.len() {
            return false;
        }
        for i in 0..n
            invariant
                n == self.entries@.len(),
                n == other.entries@.len(),
                forall|k: int| 0 <= k < i ==> self@[k] == other@[k],
        {
            assert(self@[i as int] == (self.entries@[i as int].key@, self.entries@[i as int].value@));
            assert(other@[i as int] == (
                other.entries@[i as int].key@,
                other.entries@[i as int].value@,
            ));
            if !same_bytes(&self.entries[i].key, &other.entries[i].key)
                || !self.entries[i].value.same(&other.entries[i].value) {
                assert(self@[i as int] != other@[i as int]);
                return false;
            }
        }
        assert(self@ =~= other@);
        true
    }
}

impl PdfObject {
    /// Whether two objects look the same.
    pub fn same(&self, other: &PdfObject) -> (r: bool)
        ensures
            r == (self@ == other@),
        decreases *self,
    {
        match (self, other) {
            (PdfObject::Null, PdfObject::Null) => true,
            (PdfObject::Boolean(a), PdfObject::Boolean(b)) => *a == *b,
            (PdfObject::Integer(a), PdfObject::Integer(b)) => *a == *b,
            (PdfObject::Real(a), PdfObject::Real(b)) => a.bits == b.bits,
            (PdfObject::Name(a), PdfObject::Name(b)) => same_bytes(a, b),
            (PdfObject::Text(a, m), PdfObject::Text(b, n)) => same_bytes(a, b) && *m == *n,
            (PdfObject::Array(a), PdfObject::Array(b)) => {
                proof {
                    lemma_array_view(*a);
                    lemma_array_view(*b);
                }
                same_objects(a, b)
            },
            (PdfObject::Dictionary(a), PdfObject::Dictionary(b)) => a.same(b),
            (PdfObject::Stream(a), PdfObject::Stream(b)) => a.dict.same(&b.dict)
                && a.content.same(&b.content),
            (PdfObject::Reference(a), PdfObject::Reference(b)) => a.0 == b.0 && a.1 == b.1,
            _ => false,
        }
    }
}

} // verus!
