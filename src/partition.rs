//! The whole pipeline on a downloaded document: read it, group its records
//! by key, and render one CSV document per group.
use crate::cache::{classify_spec, CacheProbe, CacheState};
use crate::csv_format::{csv_row_of, csv_table_of, encode_row, read_table, render_rows};
use crate::group::{group_records, grouped, GroupView, RecordView};
use vstd::pervasive::unreached;
use vstd::prelude::*;
use vstd::string::StringExecFns;

verus! {

/// One output document: the name of its file and its bytes.
pub struct GroupFile {
    pub name: String,
    pub contents: Vec<u8>,
}

impl View for GroupFile {
    type V = (Seq<char>, Seq<u8>);

    open spec fn view(&self) -> (Seq<char>, Seq<u8>) {
        (self.name@, self.contents@)
    }
}

/// Why a document could not be partitioned.
pub enum PartitionError {
    /// The input is not readable CSV.
    Parse(csv::Error),
}

/// The file name of the group keyed `key`: the key itself, unaltered, with
/// the `.csv` extension.
pub open spec fn file_name_of(key: Seq<char>) -> Seq<char> {
    key + ".csv"@
}

/// The bytes of a group's document: the header row, then each record's row
/// in order.
pub open spec fn rendered(header: Seq<Seq<char>>, records: Seq<RecordView>) -> Seq<u8> {
    csv_row_of(header) + records.map_values(|r: RecordView| csv_row_of(r)).flatten()
}

/// The output documents for a header and its records: one per group, in
/// the order of the groups.
pub open spec fn outputs(header: Seq<Seq<char>>, records: Seq<RecordView>) -> Seq<(Seq<char>, Seq<u8>)> {
    grouped(records).map_values(|g: GroupView| (file_name_of(g.0), rendered(header, g.1)))
}

/// The file name for the group keyed `key`.
pub fn file_name_for(key: &str) -> (r: String)
    ensures
        r@ == file_name_of(key@),
{
    let mut name = key.to_owned();
    name.append(".csv");
    name
}

/// Renders one group: the header row, then each record's row in order.
pub fn encode_group(header: &Vec<String>, records: &Vec<Vec<String>>) -> (r: Vec<u8>)
    ensures
        r@ == rendered(header.deep_view(), records.deep_view()),
{
    let header_row = match encode_row(header) {
        Ok(b) => b,
        Err(_) => unreached(),
    };
    let ghost rv = records.deep_view();
    let mut rows: Vec<Vec<u8>> = Vec::new();
    let mut i: usize = 0;
    while i < records.len()
        invariant
            i <= records@.len(),
            rv == records.deep_view(),
            rows.deep_view() == rv.take(i as int).map_values(|r: RecordView| csv_row_of(r)),
        decreases records@.len() - i,
    {
        let row = match encode_row(&records[i]) {
            Ok(b) => b,
            Err(_) => unreached(),
        };
        let ghost prev = rows.deep_view();
        proof {
            assert(rv.len() == records@.len());
            assert(rv[i as int] == records@[i as int].deep_view());
            assert(row.deep_view() =~= row@);
        }
        rows.push(row);
        proof {
            assert(rows.deep_view() =~= prev.push(row@));
            assert(rv.take(i + 1).map_values(|r: RecordView| csv_row_of(r))[i as int] == csv_row_of(rv[i as int]));
            assert(rv.take(i + 1).map_values(|r: RecordView| csv_row_of(r)) =~= rv.take(i as int).map_values(|r: RecordView| csv_row_of(r)).push(row@));
            assert(rows.deep_view() =~= rv.take(i + 1).map_values(|r: RecordView| csv_row_of(r)));
        }
        i = i + 1;
    }
    assert(rv.take(rv.len() as int) =~= rv);
    render_rows(&header_row, &rows)
}

/// What partitioning a document gives: its output documents, or `None`
/// when it is not readable CSV.
pub open spec fn partition_of(bytes: Seq<u8>) -> Option<Seq<(Seq<char>, Seq<u8>)>> {
    match csv_table_of(bytes) {
        Some((h, rs)) => Some(outputs(h, rs)),
        None => None,
    }
}

/// Reads a CSV document, groups its records by key and renders one document
/// per group, in order of each key's first occurrence. Fails exactly when
/// the input is not readable CSV.
pub fn partition_csv(bytes: &[u8]) -> (r: Result<Vec<GroupFile>, PartitionError>)
    ensures
        match r {
            Ok(files) => partition_of(bytes@) == Some(files@.map_values(|f: GroupFile| f@)),
            Err(PartitionError::Parse(_)) => partition_of(bytes@) is None,
        },
{
    let (header, records) = match read_table(bytes) {
        Ok(t) => t,
        Err(e) => return Err(PartitionError::Parse(e)),
    };
    let ghost h = header.deep_view();
    let ghost rs = records.deep_view();
    let table = group_records(records);
    let ghost out = outputs(h, rs);
    let mut files: Vec<GroupFile> = Vec::new();
    let n = table.len();
    let mut i: usize = 0;
    while i < n
        invariant
            n == table@.len(),
            table.wf(),
            table@ == grouped(rs),
            h == header.deep_view(),
            csv_table_of(bytes@) == Some((h, rs)),
            out == outputs(h, rs),
            i <= n,
            files@.map_values(|f: GroupFile| f@) == out.take(i as int),
        decreases n - i,
    {
        let contents = encode_group(&header, table.records(i));
        let name = file_name_for(table.key(i).as_str());
        let ghost prev = files@.map_values(|f: GroupFile| f@);
        let file = GroupFile { name, contents };
        proof {
            assert(out[i as int] == (file_name_of(grouped(rs)[i as int].0), rendered(h, grouped(rs)[i as int].1)));
            assert(file@ == out[i as int]);
        }
        files.push(file);
        proof {
            assert(files@.map_values(|f: GroupFile| f@) =~= prev.push(out[i as int]));
            assert(files@.map_values(|f: GroupFile| f@) =~= out.take(i + 1));
        }
        i = i + 1;
    }
    assert(out.take(out.len() as int) =~= out);
    Ok(files)
}

/// Running twice against an unchanged, fresh cache file gives identical
/// results: the file is neither deleted nor fetched again, so both runs read
/// the same bytes, and what `partition_csv` returns for them, documents or a
/// parse failure, is fixed by those bytes.
pub proof fn lemma_rerun_identical(
    probe: CacheProbe,
    first_input: Seq<u8>,
    second_input: Seq<u8>,
)
    requires
        classify_spec(Some(probe)) == CacheState::Fresh,
        first_input == second_input,
    ensures
        !classify_spec(Some(probe)).spec_must_delete(),
        !classify_spec(Some(probe)).spec_must_fetch(),
        partition_of(first_input) == partition_of(second_input),
        partition_of(first_input) is Some <==> csv_table_of(first_input) is Some,
{
}

} // verus!
