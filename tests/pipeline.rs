use csv_partition::csv_format::render_rows;
use csv_partition::group::{group_key, group_records};
use csv_partition::partition::{encode_group, file_name_for, partition_csv, GroupFile, PartitionError};

fn files_of(input: &str) -> Vec<GroupFile> {
    match partition_csv(input.as_bytes()) {
        Ok(files) => files,
        Err(_) => panic!("partitioning failed"),
    }
}

fn text(f: &GroupFile) -> String {
    String::from_utf8(f.contents.clone()).unwrap()
}

fn row(fields: &[&str]) -> Vec<String> {
    fields.iter().map(|s| s.to_string()).collect()
}

#[test]
fn four_row_document_splits_into_two_files() {
    let files = files_of("id,name,disaster,amount\n1,A,100,50\n2,B,200,10\n3,C,100,20\n");
    assert_eq!(files.len(), 2);
    assert_eq!(files[0].name, "100.csv");
    assert_eq!(text(&files[0]), "id,name,disaster,amount\n1,A,100,50\n3,C,100,20\n");
    assert_eq!(files[1].name, "200.csv");
    assert_eq!(text(&files[1]), "id,name,disaster,amount\n2,B,200,10\n");
}

#[test]
fn short_row_goes_to_unknown() {
    let files = files_of("id,name,disaster,amount\n1,A,100,50\n4,D\n");
    assert_eq!(files.len(), 2);
    assert_eq!(files[1].name, "unknown.csv");
    assert_eq!(text(&files[1]), "id,name,disaster,amount\n4,D\n");
}

#[test]
fn blank_key_goes_to_unknown() {
    let files = files_of("id,name,disaster\n1,A,\n2,B,7\n3,C\n");
    assert_eq!(files.len(), 2);
    assert_eq!(files[0].name, "unknown.csv");
    assert_eq!(text(&files[0]), "id,name,disaster\n1,A,\n3,C\n");
    assert_eq!(files[1].name, "7.csv");
}

#[test]
fn every_record_lands_in_exactly_one_file() {
    let input = "a,b,k\n1,x,p\n2,x,q\n3,x,p\n4,x\n5,x,r\n6,x,q\n7,x,p\n";
    let files = files_of(input);
    let names: Vec<&str> = files.iter().map(|f| f.name.as_str()).collect();
    assert_eq!(names, vec!["p.csv", "q.csv", "unknown.csv", "r.csv"]);
    let mut total = 0;
    for f in &files {
        let lines: Vec<String> = text(f).lines().map(|l| l.to_string()).collect();
        assert_eq!(lines[0], "a,b,k");
        total += lines.len() - 1;
    }
    assert_eq!(total, 7);
    assert_eq!(text(&files[0]), "a,b,k\n1,x,p\n3,x,p\n7,x,p\n");
    assert_eq!(text(&files[1]), "a,b,k\n2,x,q\n6,x,q\n");
}

#[test]
fn running_twice_gives_identical_output() {
    let input = "id,name,disaster\n1,A,9\n2,B,8\n3,C,9\n";
    let first = files_of(input);
    let second = files_of(input);
    assert_eq!(first.len(), second.len());
    for (a, b) in first.iter().zip(second.iter()) {
        assert_eq!(a.name, b.name);
        assert_eq!(a.contents, b.contents);
    }
}

#[test]
fn header_only_document_gives_no_files() {
    assert!(files_of("id,name,disaster\n").is_empty());
    assert!(files_of("").is_empty());
}

#[test]
fn invalid_utf8_is_a_parse_error() {
    let bytes: Vec<u8> = vec![b'a', b',', b'b', b'\n', 0xff, 0xfe, b',', b'c', b'\n'];
    assert!(matches!(partition_csv(&bytes), Err(PartitionError::Parse(_))));
}

#[test]
fn fields_needing_quotes_are_quoted() {
    let files = files_of("id,name,disaster\n1,\"Smith, J\",5\n");
    assert_eq!(text(&files[0]), "id,name,disaster\n1,\"Smith, J\",5\n");
}

#[test]
fn key_of_record() {
    assert_eq!(group_key(&row(&["1", "A", "100", "50"])), "100");
    assert_eq!(group_key(&row(&["1", "A"])), "unknown");
    assert_eq!(group_key(&row(&["1", "A", ""])), "unknown");
    assert_eq!(group_key(&row(&[])), "unknown");
}

#[test]
fn grouping_keeps_first_occurrence_and_input_order() {
    let records = vec![
        row(&["1", "A", "100"]),
        row(&["2", "B", "200"]),
        row(&["3", "C", "100"]),
        row(&["4"]),
    ];
    let table = group_records(records);
    assert_eq!(table.len(), 3);
    assert_eq!(table.key(0), "100");
    assert_eq!(table.records(0), &vec![row(&["1", "A", "100"]), row(&["3", "C", "100"])]);
    assert_eq!(table.key(1), "200");
    assert_eq!(table.records(1), &vec![row(&["2", "B", "200"])]);
    assert_eq!(table.key(2), "unknown");
    assert_eq!(table.records(2), &vec![row(&["4"])]);
}

#[test]
fn grouping_nothing_gives_no_groups() {
    assert_eq!(group_records(Vec::new()).len(), 0);
}

#[test]
fn file_name_appends_extension() {
    assert_eq!(file_name_for("4337"), "4337.csv");
    assert_eq!(file_name_for("unknown"), "unknown.csv");
}

#[test]
fn encode_group_writes_header_then_rows() {
    let out = encode_group(&row(&["h1", "h2"]), &vec![row(&["a", "b"]), row(&["c"])]);
    assert_eq!(String::from_utf8(out).unwrap(), "h1,h2\na,b\nc\n");
}

fn encoded(records: Vec<Vec<String>>) -> String {
    String::from_utf8(encode_group(&row(&["h"]), &records)).unwrap()
}

#[test]
fn quotes_inside_fields_are_doubled() {
    assert_eq!(encoded(vec![row(&["say \"hi\"", "x"])]), "h\n\"say \"\"hi\"\"\",x\n");
}

#[test]
fn line_breaks_force_quotes() {
    assert_eq!(encoded(vec![row(&["a\nb", "c\rd"])]), "h\n\"a\nb\",\"c\rd\"\n");
}

#[test]
fn empty_rows_are_written_as_two_quotes() {
    assert_eq!(encoded(vec![row(&[""]), row(&[])]), "h\n\"\"\n\"\"\n");
    assert_eq!(encoded(vec![row(&["", ""])]), "h\n,\n");
}

#[test]
fn non_ascii_fields_are_written_as_utf8() {
    assert_eq!(encoded(vec![row(&["São Paulo", "東京"])]), "h\nSão Paulo,東京\n");
}

#[test]
fn render_rows_concatenates() {
    let out = render_rows(&b"h\n".to_vec(), &vec![b"a\n".to_vec(), b"b\n".to_vec()]);
    assert_eq!(out, b"h\na\nb\n".to_vec());
    assert_eq!(render_rows(&b"h\n".to_vec(), &Vec::new()), b"h\n".to_vec());
}
