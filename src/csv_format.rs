//! Reading a CSV document into rows and writing rows back as CSV, through
//! the `csv` crate. Rows may have any number of fields.
use vstd::prelude::*;
use vstd::utf8::encode_utf8;

verus! {

/// `csv::Error`, carried through unopened to the caller.
#[verifier::external_type_specification]
#[verifier::external_body]
pub struct ExCsvError(csv::Error);

/// The header row and the record rows of a CSV document, or `None` when the
/// document cannot be read (a row that is not valid UTF-8, a malformed row).
pub uninterp spec fn csv_table_of(bytes: Seq<u8>) -> Option<(Seq<Seq<char>>, Seq<Seq<Seq<char>>>)>;

/// A field must be quoted when it holds the delimiter, a quote or a line
/// break.
pub open spec fn needs_quotes(field: Seq<char>) -> bool {
    exists|i: int| 0 <= i < field.len() && (field[i] == ',' || field[i] == '"' || field[i] == '\r' || field[i] == '\n')
}

/// `field` with each quote doubled.
pub open spec fn double_quotes(field: Seq<char>) -> Seq<char>
    decreases field.len(),
{
    if field.len() == 0 {
        Seq::empty()
    } else {
        let rest = double_quotes(field.drop_first());
        if field[0] == '"' {
            seq!['"', '"'] + rest
        } else {
            seq![field[0]] + rest
        }
    }
}

/// A field as written: quoted, with its quotes doubled, where it needs it;
/// as it is otherwise.
pub open spec fn field_text(field: Seq<char>) -> Seq<char> {
    if needs_quotes(field) {
        seq!['"'] + double_quotes(field) + seq!['"']
    } else {
        field
    }
}

/// The written fields joined by commas.
pub open spec fn joined_fields(fields: Seq<Seq<char>>) -> Seq<char>
    decreases fields.len(),
{
    if fields.len() == 0 {
        Seq::empty()
    } else if fields.len() == 1 {
        field_text(fields[0])
    } else {
        joined_fields(fields.drop_last()) + seq![','] + field_text(fields.last())
    }
}

/// The text of one CSV row: the joined fields, or `""` where they would
/// leave the row empty, then a line feed.
pub open spec fn csv_row_text(fields: Seq<Seq<char>>) -> Seq<char> {
    let body = joined_fields(fields);
    (if body.len() == 0 {
        seq!['"', '"']
    } else {
        body
    }) + seq!['\n']
}

/// The bytes of one CSV row holding `fields`: its text in UTF-8.
pub open spec fn csv_row_of(fields: Seq<Seq<char>>) -> Seq<u8> {
    encode_utf8(csv_row_text(fields))
}

/// Relies on `csv::ReaderBuilder` (with `flexible(true)`), `Reader::headers`
/// and `Reader::records`: the first row is the header, every later row a
/// record, rows of any length accepted. What comes back depends on the bytes
/// alone.
#[verifier::external_body]
pub(crate) fn read_table(bytes: &[u8]) -> (r: Result<(Vec<String>, Vec<Vec<String>>), csv::Error>)
    ensures
        match r {
            Ok((h, rs)) => csv_table_of(bytes@) == Some((h.deep_view(), rs.deep_view())),
            Err(_) => csv_table_of(bytes@) is None,
        },
{
    let mut rdr = csv::ReaderBuilder::new().flexible(true).from_reader(bytes);
    let header: Vec<String> = rdr.headers()?.iter().map(String::from).collect();
    let mut records: Vec<Vec<String>> = Vec::new();
    for row in rdr.records() {
        records.push(row?.iter().map(String::from).collect());
    }
    Ok((header, records))
}

/// Relies on `csv::Writer::write_record` (default quoting, `flexible(true)`)
/// and `Writer::into_inner`, writing into a `Vec<u8>`: no I/O error can
/// arise and no length check is made, so the row is always written, as
/// `csv_row_of` states.
#[verifier::external_body]
pub(crate) fn encode_row(fields: &Vec<String>) -> (r: Result<Vec<u8>, csv::Error>)
    ensures
        r is Ok,
        r matches Ok(b) ==> b@ == csv_row_of(fields.deep_view()),
{
    let mut wtr = csv::WriterBuilder::new().flexible(true).from_writer(Vec::new());
    wtr.write_record(fields)?;
    wtr.into_inner().map_err(|e| csv::Error::from(e.into_error()))
}

/// Concatenates a header row and the record rows that follow it into the
/// bytes of one CSV document.
pub fn render_rows(header_row: &Vec<u8>, rows: &Vec<Vec<u8>>) -> (r: Vec<u8>)
    ensures
        r@ == header_row@ + rows.deep_view().flatten(),
{
    let mut out: Vec<u8> = Vec::new();
    out.extend_from_slice(header_row.as_slice());
    let ghost rv = rows.deep_view();
    let mut i: usize = 0;
    while i < rows.len()
        invariant
            i <= rows@.len(),
            rv == rows.deep_view(),
            out@ == header_row@ + rv.take(i as int).flatten(),
        decreases rows@.len() - i,
    {
        proof {
            assert(rv.take(i + 1) =~= rv.take(i as int).push(rv[i as int]));
            rv.take(i as int).lemma_flatten_push(rv[i as int]);
        }
        out.extend_from_slice(rows[i].as_slice());
        i = i + 1;
    }
    assert(rv.take(rv.len() as int) =~= rv);
    out
}

} // verus!
