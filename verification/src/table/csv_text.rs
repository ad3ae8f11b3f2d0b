//! Rows as comma-separated values.

use crate::error::Error;
use crate::strings;
use crate::types;
use vstd::prelude::*;
use vstd::utf8::encode_utf8;

verus! {

/// What collects records and renders them as comma-separated values: a
/// `csv::Writer` with the settings it has from the start.
#[verifier::external_body]
pub struct Records {
    inner: csv::Writer<Vec<u8>>,
}

/// The records that have been collected.
pub uninterp spec fn collected(records: Records) -> Seq<Seq<Seq<char>>>;

/// Whether a field is put in quotes: where it holds a quote, a comma or a line break.
pub open spec fn needs_quotes(field: Seq<char>) -> bool {
    field.contains('"') || field.contains(',') || field.contains('\n') || field.contains('\r')
}

/// The text with every quote in it doubled.
pub open spec fn doubled(field: Seq<char>) -> Seq<char>
    decreases field.len(),
{
    if field.len() == 0 {
        Seq::empty()
    } else if field.last() == '"' {
        doubled(field.drop_last()).push('"').push('"')
    } else {
        doubled(field.drop_last()).push(field.last())
    }
}

/// A field as it is written.
pub open spec fn field_text(field: Seq<char>) -> Seq<char> {
    if needs_quotes(field) {
        seq!['"'] + doubled(field) + seq!['"']
    } else {
        field
    }
}

/// The fields with commas between them.
pub open spec fn fields_text(fields: Seq<Seq<char>>) -> Seq<char>
    decreases fields.len(),
{
    if fields.len() == 0 {
        Seq::empty()
    } else if fields.len() == 1 {
        field_text(fields.last())
    } else {
        fields_text(fields.drop_last()).push(',') + field_text(fields.last())
    }
}

/// A record as it is written; where nothing would be written, an empty field in quotes.
pub open spec fn record_text(record: Seq<Seq<char>>) -> Seq<char> {
    let text = fields_text(record);
    (if text.len() == 0 {
        seq!['"', '"']
    } else {
        text
    }).push('\n')
}

/// The records as they are written, one behind the other.
pub open spec fn csv_text(all: Seq<Seq<Seq<char>>>) -> Seq<char>
    decreases all.len(),
{
    if all.len() == 0 {
        Seq::empty()
    } else {
        csv_text(all.drop_last()) + record_text(all.last())
    }
}

/// Where a reader of comma-separated values stands within a field.
pub enum Within {
    /// Nothing of the field has been read.
    Start,
    /// The field has no quotes around it.
    Plain,
    /// The quotes around the field are open.
    Quoted,
    /// A quote has been read within the quotes: it closes them, or is half of a doubled one.
    Closed,
}

/// What a reader of comma-separated values has read.
pub struct Reading {
    pub records: Seq<Seq<Seq<char>>>,
    pub record: Seq<Seq<char>>,
    pub field: Seq<char>,
    pub within: Within,
}

/// What a reader starts with.
pub open spec fn nothing_read() -> Reading {
    Reading {
        records: Seq::empty(),
        record: Seq::empty(),
        field: Seq::empty(),
        within: Within::Start,
    }
}

/// What has been read when a line ends: one more record, unless nothing stands on the line.
pub open spec fn line_read(r: Reading) -> Reading {
    if r.record.len() == 0 && r.within is Start {
        r
    } else {
        Reading {
            records: r.records.push(r.record.push(r.field)),
            record: Seq::empty(),
            field: Seq::empty(),
            within: Within::Start,
        }
    }
}

/// What has been read with one more character outside of quotes.
pub open spec fn plain_read(r: Reading, c: char) -> Reading {
    if c == ',' {
        Reading {
            record: r.record.push(r.field),
            field: Seq::empty(),
            within: Within::Start,
            ..r
        }
    } else if c == '\n' || c == '\r' {
        line_read(r)
    } else {
        Reading { field: r.field.push(c), within: Within::Plain, ..r }
    }
}

/// What has been read with one more character.
pub open spec fn char_read(r: Reading, c: char) -> Reading {
    match r.within {
        Within::Start => if c == '"' {
            Reading { within: Within::Quoted, ..r }
        } else {
            plain_read(r, c)
        },
        Within::Plain => plain_read(r, c),
        Within::Quoted => if c == '"' {
            Reading { within: Within::Closed, ..r }
        } else {
            Reading { field: r.field.push(c), ..r }
        },
        Within::Closed => if c == '"' {
            Reading { field: r.field.push(c), within: Within::Quoted, ..r }
        } else {
            plain_read(r, c)
        },
    }
}

/// What has been read with one more text.
pub open spec fn text_read(r: Reading, text: Seq<char>) -> Reading
    decreases text.len(),
{
    if text.len() == 0 {
        r
    } else {
        char_read(text_read(r, text.drop_last()), text.last())
    }
}

/// The records in a text of comma-separated values.
pub open spec fn csv_records(text: Seq<char>) -> Seq<Seq<Seq<char>>> {
    line_read(text_read(nothing_read(), text)).records
}

/// A record as it is read back: one without fields has an empty one.
pub open spec fn read_record(record: Seq<Seq<char>>) -> Seq<Seq<char>> {
    if record.len() == 0 {
        seq![Seq::empty()]
    } else {
        record
    }
}

pub open spec fn read_records(all: Seq<Seq<Seq<char>>>) -> Seq<Seq<Seq<char>>> {
    all.map_values(|record: Seq<Seq<char>>| read_record(record))
}

proof fn lemma_read_on(r: Reading, a: Seq<char>, b: Seq<char>)
    ensures
        text_read(r, a + b) == text_read(text_read(r, a), b),
    decreases b.len(),
{
    if b.len() == 0 {
        assert(a + b =~= a);
    } else {
        lemma_read_on(r, a, b.drop_last());
        assert((a + b).drop_last() =~= a + b.drop_last());
    }
}

proof fn lemma_read_one(r: Reading, text: Seq<char>, c: char)
    ensures
        text_read(r, text.push(c)) == char_read(text_read(r, text), c),
{
    assert(text.push(c).drop_last() =~= text);
}

proof fn lemma_read_single(r: Reading, c: char)
    ensures
        text_read(r, seq![c]) == char_read(r, c),
{
    lemma_read_one(r, Seq::empty(), c);
    assert(Seq::empty().push(c) =~= seq![c]);
}

proof fn lemma_read_doubled(r: Reading, field: Seq<char>)
    requires
        r.within is Quoted,
    ensures
        text_read(r, doubled(field)) == (Reading { field: r.field + field, ..r }),
    decreases field.len(),
{
    if field.len() == 0 {
        assert(r.field + field =~= r.field);
    } else {
        let front = doubled(field.drop_last());
        lemma_read_doubled(r, field.drop_last());
        lemma_read_one(r, front, field.last());
        lemma_read_one(r, front.push('"'), '"');
        assert((r.field + field.drop_last()).push(field.last()) =~= r.field + field);
    }
}

proof fn lemma_read_plain(r: Reading, field: Seq<char>)
    requires
        r.within is Start,
        r.field.len() == 0,
        !needs_quotes(field),
    ensures
        text_read(r, field) == (Reading {
            field: field,
            within: if field.len() == 0 {
                Within::Start
            } else {
                Within::Plain
            },
            ..r
        }),
    decreases field.len(),
{
    if field.len() == 0 {
        assert(r.field =~= field);
    } else {
        let front = field.drop_last();
        assert(field.contains(field.last()));
        assert forall|c: char| front.contains(c) implies field.contains(c) by {
            let i = choose|i: int| 0 <= i < front.len() && front[i] == c;
            assert(field[i] == c);
        }
        lemma_read_plain(r, front);
        assert(front.push(field.last()) =~= field);
    }
}

proof fn lemma_read_field(r: Reading, field: Seq<char>)
    requires
        r.within is Start,
        r.field.len() == 0,
    ensures
        ({
            let after = text_read(r, field_text(field));
            &&& after == (Reading { field: field, within: after.within, ..r })
            &&& !(after.within is Quoted)
            &&& after.within is Start <==> field.len() == 0
        }),
{
    if needs_quotes(field) {
        let quote = seq!['"'];
        lemma_read_on(r, quote + doubled(field), quote);
        lemma_read_on(r, quote, doubled(field));
        lemma_read_single(r, '"');
        let open = char_read(r, '"');
        lemma_read_doubled(open, field);
        lemma_read_single(text_read(open, doubled(field)), '"');
        assert(r.field + field =~= field);
    } else {
        lemma_read_plain(r, field);
    }
}

proof fn lemma_read_fields(r: Reading, fields: Seq<Seq<char>>)
    requires
        r.within is Start,
        r.field.len() == 0,
        r.record.len() == 0,
        fields.len() > 0,
    ensures
        ({
            let after = text_read(r, fields_text(fields));
            &&& after == (Reading {
                record: fields.drop_last(),
                field: fields.last(),
                within: after.within,
                ..r
            })
            &&& !(after.within is Quoted)
            &&& after.within is Start <==> fields.last().len() == 0
        }),
    decreases fields.len(),
{
    if fields.len() == 1 {
        lemma_read_field(r, fields.last());
        assert(fields.drop_last() =~= r.record);
    } else {
        let front = fields.drop_last();
        lemma_read_fields(r, front);
        lemma_read_one(r, fields_text(front), ',');
        lemma_read_on(r, fields_text(front).push(','), field_text(fields.last()));
        assert(front.drop_last().push(front.last()) =~= front);
        lemma_read_field(text_read(r, fields_text(front).push(',')), fields.last());
    }
}

proof fn lemma_read_record(r: Reading, record: Seq<Seq<char>>)
    requires
        r.within is Start,
        r.field.len() == 0,
        r.record.len() == 0,
    ensures
        text_read(r, record_text(record)) == (Reading {
            records: r.records.push(read_record(record)),
            record: Seq::empty(),
            field: Seq::empty(),
            within: Within::Start,
        }),
{
    let text = fields_text(record);
    if text.len() == 0 {
        let quote = seq!['"'];
        assert(seq!['"', '"'] =~= quote + quote);
        lemma_read_on(r, quote, quote);
        lemma_read_single(r, '"');
        lemma_read_single(char_read(r, '"'), '"');
        lemma_read_one(r, seq!['"', '"'], '\n');
        assert(record.len() <= 1);
        if record.len() == 1 {
            assert(record.last() =~= Seq::<char>::empty());
            assert(record =~= seq![Seq::<char>::empty()]);
        }
        assert(r.field =~= Seq::<char>::empty());
        assert(r.record.push(r.field) =~= seq![Seq::<char>::empty()]);
    } else {
        lemma_read_fields(r, record);
        lemma_read_one(r, text, '\n');
        assert(record.drop_last().push(record.last()) =~= record);
        if record.len() == 1 && record.last().len() == 0 {
            assert(text =~= record.last());
        }
    }
}

proof fn lemma_read_all(all: Seq<Seq<Seq<char>>>)
    ensures
        text_read(nothing_read(), csv_text(all)) == (Reading {
            records: read_records(all),
            ..nothing_read()
        }),
    decreases all.len(),
{
    if all.len() == 0 {
        assert(read_records(all) =~= Seq::empty());
    } else {
        let front = all.drop_last();
        lemma_read_all(front);
        lemma_read_on(nothing_read(), csv_text(front), record_text(all.last()));
        lemma_read_record(text_read(nothing_read(), csv_text(front)), all.last());
        assert(read_records(front).push(read_record(all.last())) =~= read_records(all));
    }
}

/// Records that have been written are read back as they were, but for those without
/// fields, which have an empty one then.
pub proof fn law_written_records_are_read_back(all: Seq<Seq<Seq<char>>>)
    ensures
        csv_records(csv_text(all)) == read_records(all),
{
    lemma_read_all(all);
}

/// Why a record with `len` fields is refused behind records with `expected` fields.
pub open spec fn unequal_text(len: nat, expected: nat) -> Seq<char> {
    "CSV error: found record with "@ + strings::decimal(len)
        + " fields, but the previous record has "@ + strings::decimal(expected) + " fields"@
}

/// `csv::Writer::from_writer` starts without records.
#[verifier::external_body]
fn start() -> (r: Records)
    ensures
        collected(r) == Seq::<Seq<Seq<char>>>::empty(),
{
    Records { inner: csv::Writer::from_writer(Vec::new()) }
}

/// `csv::Writer::write_record` collects one more record, and refuses one whose number of
/// fields is not that of the first record.
#[verifier::external_body]
fn put(records: Records, record: &Vec<String>) -> (r: Result<Records, String>)
    ensures
        r is Ok <==> (collected(records).len() == 0 || collected(records)[0].len()
            == record@.len()),
        r matches Ok(more) ==> collected(more) == collected(records).push(types::seen(record@)),
        r matches Err(text) ==> text@ == unequal_text(
            record@.len(),
            collected(records)[0].len(),
        ),
{
    let mut inner = records.inner;
    match inner.write_record(record) {
        Ok(()) => Ok(Records { inner }),
        Err(err) => Err(err.to_string()),
    }
}

/// `csv::Writer::into_inner` hands out what the collected records look like, in UTF-8.
/// Nothing stops a growing vector from taking the bytes, so there is no failure.
#[verifier::external_body]
fn finish(records: Records) -> (r: Result<Vec<u8>, String>)
    ensures
        r is Ok,
        r->Ok_0@ == encode_utf8(csv_text(collected(records))),
{
    match records.inner.into_inner() {
        Ok(bytes) => Ok(bytes),
        Err(err) => Err(err.to_string()),
    }
}

/// A row's cells, each missing one as an empty text.
pub open spec fn row_fields(row: Seq<Option<String>>) -> Seq<Seq<char>> {
    row.map_values(
        |cell: Option<String>|
            match cell {
                Some(text) => text@,
                None => Seq::empty(),
            },
    )
}

pub open spec fn all_fields(rows: Seq<Vec<Option<String>>>) -> Seq<Seq<Seq<char>>> {
    rows.map_values(|row: Vec<Option<String>>| row_fields(row@))
}

/// The number of leading rows that are as long as the first.
pub open spec fn even_rows(rows: Seq<Vec<Option<String>>>) -> int
    decreases rows.len(),
{
    if rows.len() == 0 {
        0
    } else {
        let before = even_rows(rows.drop_last());
        if before == rows.len() - 1 && rows.last()@.len() == rows[0]@.len() {
            rows.len() as int
        } else {
            before
        }
    }
}

fn fields_of(row: &Vec<Option<String>>) -> (r: Vec<String>)
    ensures
        types::seen(r@) == row_fields(row@),
{
    let mut out: Vec<String> = Vec::new();
    let n: usize = row.len();
    for i in 0..n
        invariant
            n == row@.len(),
            types::seen(out@) =~= row_fields(row@).take(i as int),
    {
        let field: String = match &row[i] {
            Some(text) => text.clone(),
            None => String::new(),
        };
        proof {
            types::lemma_seen_push(out@, field);
        }
        out.push(field);
    }
    assert(row_fields(row@).take(n as int) =~= row_fields(row@));
    out
}

/// Rows as comma-separated values. All rows must have the same number of cells.
pub fn table_rows_to_csv(rows: &[Vec<Option<String>>]) -> (r: Result<String, Error>)
    ensures
        ({
            let even = even_rows(rows@);
            if even == rows@.len() {
                r matches Ok(text) && text@ == csv_text(all_fields(rows@)) && csv_records(text@)
                    == read_records(all_fields(rows@))
            } else {
                r matches Err(Error::Csv(text)) && text@ == unequal_text(
                    rows@[even]@.len(),
                    rows@[0]@.len(),
                )
            }
        }),
{
    let mut records: Records = start();
    let n: usize = rows.len();
    for i in 0..n
        invariant
            n == rows@.len(),
            even_rows(rows@.take(i as int)) == i,
            collected(records) =~= all_fields(rows@).take(i as int),
    {
        assert(rows@.take(i + 1).drop_last() =~= rows@.take(i as int));
        let fields: Vec<String> = fields_of(&rows[i]);
        assert(fields@.len() == types::seen(fields@).len());
        records = match put(records, &fields) {
            Ok(more) => more,
            Err(text) => {
                proof {
                    lemma_even_rows_stop(rows@, i as int);
                }
                return Err(Error::Csv(text));
            },
        };
    }
    assert(rows@.take(n as int) =~= rows@);
    assert(all_fields(rows@).take(n as int) =~= all_fields(rows@));
    match finish(records) {
        Ok(bytes) => {
            proof {
                law_written_records_are_read_back(all_fields(rows@));
                vstd::utf8::encode_utf8_valid_utf8(csv_text(all_fields(rows@)));
                vstd::utf8::encode_utf8_decode_utf8(csv_text(all_fields(rows@)));
            }
            match strings::from_utf8(bytes) {
                Some(text) => Ok(text),
                // The bytes encode a text, so they are valid.
                None => Err(Error::Message(String::new())),
            }
        },
        Err(text) => Err(Error::Csv(text)),
    }
}

proof fn lemma_even_rows_stop(rows: Seq<Vec<Option<String>>>, i: int)
    requires
        0 < i < rows.len(),
        even_rows(rows.take(i)) == i,
        rows[i]@.len() != rows[0]@.len(),
    ensures
        even_rows(rows) == i,
    decreases rows.len(),
{
    if i == rows.len() - 1 {
        assert(rows.take(i) =~= rows.drop_last());
    } else {
        assert(rows.drop_last().take(i) =~= rows.take(i));
        lemma_even_rows_stop(rows.drop_last(), i);
    }
}

} // verus!
