//! Tests for the combining engine: schema unification, row remapping, the
//! duplicate policies, and whole combining runs.

use csv_combiner::engine::{
    combine_files_by_keys, join_fields, merge_duplicate_rows, place_row, remove_duplicate_rows,
};
use csv_combiner::schema::build_schema;
use csv_combiner::CsvError;

fn file(raw: &[&str]) -> Vec<String> {
    raw.iter().map(|s| s.to_string()).collect()
}

fn row(raw: &[&str]) -> Vec<String> {
    raw.iter().map(|s| s.to_string()).collect()
}

fn combine(
    files: &[Vec<String>],
    keys: Option<&[&str]>,
    remove_duplicates: bool,
    merge_duplicates: bool,
) -> Result<Vec<String>, CsvError> {
    let files: Vec<Vec<String>> = files.to_vec();
    let keys_owned: Option<Vec<String>> = keys.map(|k| k.iter().map(|s| s.to_string()).collect());
    combine_files_by_keys(
        &files,
        keys_owned.as_ref(),
        ',',
        "EMPTY",
        remove_duplicates,
        merge_duplicates,
        "\n",
    )
}

#[test]
fn join_fields_inserts_delimiter() {
    assert_eq!(join_fields(&row(&["a", "b"]), ','), "a,b");
    assert_eq!(join_fields(&row(&["only"]), ','), "only");
    assert_eq!(join_fields(&row(&[]), ','), "");
}

#[test]
fn build_schema_assigns_new_and_existing_columns() {
    let keys = row(&["id", "name"]);
    let headers = vec![row(&["id", "name"]), row(&["name", "id", "dept"])];
    let (unified, maps) = build_schema(&keys, &headers);
    assert_eq!(unified, row(&["id", "name", "dept"]));
    assert_eq!(maps, vec![vec![0, 1], vec![1, 0, 2]]);
}

#[test]
fn place_row_fills_unmapped_columns_with_placeholder() {
    let placed = place_row(&row(&["7", "x"]), &vec![2, 0], 4, "EMPTY");
    assert_eq!(placed, row(&["x", "EMPTY", "7", "EMPTY"]));
}

#[test]
fn place_row_ignores_fields_beyond_the_header() {
    let placed = place_row(&row(&["a", "b", "extra"]), &vec![0, 1], 2, "EMPTY");
    assert_eq!(placed, row(&["a", "b"]));
}

#[test]
fn remove_duplicate_rows_keeps_first_occurrence() {
    let rows = vec![row(&["1", "x"]), row(&["1", "y"]), row(&["2", "z"])];
    let kept = remove_duplicate_rows(&rows, 1);
    assert_eq!(kept, vec![row(&["1", "x"]), row(&["2", "z"])]);
}

#[test]
fn merge_duplicate_rows_first_non_empty_wins() {
    let rows = vec![
        row(&["1", "EMPTY", "b1"]),
        row(&["1", "a2", "b2"]),
        row(&["2", "a3", "EMPTY"]),
    ];
    let (keys, vals) = merge_duplicate_rows(&rows, 1, "EMPTY");
    assert_eq!(keys, vec![row(&["1"]), row(&["2"])]);
    assert_eq!(vals, vec![row(&["a2", "b1"]), row(&["a3", "EMPTY"])]);
}

#[test]
fn combine_two_files_with_overlapping_schemas() {
    // Files with overlapping schemas, no keys given: the first file's
    // header is the key-column list, and the unified header gains the
    // second file's new column.
    let a = file(&["id,name", "1,Ann", "2,Bob"]);
    let b = file(&["id,dept", "1,Eng", "3,Ops"]);
    let out = combine(&[a, b], None, false, false).unwrap();
    assert_eq!(
        out,
        vec![
            "id,name,dept".to_string(),
            "1,Ann,EMPTY".to_string(),
            "2,Bob,EMPTY".to_string(),
            "1,EMPTY,Eng".to_string(),
            "3,EMPTY,Ops".to_string(),
        ]
    );
}

#[test]
fn combine_same_schema_keeps_all_rows() {
    let a = file(&["id,name", "1,Ann", "2,Bob", "3,Cid", "4,Dee", "5,Eve"]);
    let b = file(&["id,name", "6,Fay", "7,Gus", "8,Hal", "9,Ida", "10,Joe"]);
    let out = combine(&[a, b], None, false, false).unwrap();
    assert_eq!(out.len(), 11);
    assert_eq!(out[0], "id,name");
    assert_eq!(out[10], "10,Joe");
}

#[test]
fn combine_reorders_columns_to_first_header() {
    let a = file(&["id,name,salary", "1,Ann,100"]);
    let b = file(&["salary,id,name", "200,2,Bob"]);
    let out = combine(&[a, b], None, false, false).unwrap();
    assert_eq!(out[0], "id,name,salary");
    assert_eq!(out[1], "1,Ann,100");
    assert_eq!(out[2], "2,Bob,200");
}

#[test]
fn combine_missing_columns_use_placeholder() {
    let a = file(&["id,name", "1,Ann"]);
    let b = file(&["id,name,gender", "2,Bob,m"]);
    let out = combine(&[a, b], None, false, false).unwrap();
    assert_eq!(out[0], "id,name,gender");
    assert_eq!(out[1], "1,Ann,EMPTY");
    assert_eq!(out[2], "2,Bob,m");
}

#[test]
fn combine_quoted_fields_with_delimiters_survive() {
    let a = file(&["id,name", "1,\"Ann, the first\""]);
    let out = combine(&[a], None, false, false).unwrap();
    assert_eq!(out[1], "1,\"Ann, the first\"");
}

#[test]
fn combine_multiline_fields_survive() {
    let a = file(&["id,note", "1,\"first", "second\"", "2,plain"]);
    let out = combine(&[a], None, false, false).unwrap();
    assert_eq!(out.len(), 3);
    assert_eq!(out[1], "1,\"first\nsecond\"");
    assert_eq!(out[2], "2,plain");
}

#[test]
fn combine_incompatible_schemas_unions_all_columns() {
    let a = file(&["id,name", "1,Ann"]);
    let b = file(&["sku,price", "9,5"]);
    let out = combine(&[a, b], None, false, false).unwrap();
    assert_eq!(out[0], "id,name,sku,price");
    assert_eq!(out[1], "1,Ann,EMPTY,EMPTY");
    assert_eq!(out[2], "EMPTY,EMPTY,9,5");
}

#[test]
fn combine_remove_duplicates_drops_later_key() {
    // Remove-duplicates with a repeated key inside one file: only the
    // first row with the key survives as a data row.
    let a = file(&["id,v", "1,x", "1,y"]);
    let out = combine(&[a], Some(&["id"]), true, false).unwrap();
    assert_eq!(out, vec!["id,v".to_string(), "1,x".to_string()]);
}

#[test]
fn combine_remove_duplicates_across_files() {
    let a = file(&["id,v", "1,x", "2,y"]);
    let b = file(&["id,v", "2,z", "3,w"]);
    let out = combine(&[a, b], Some(&["id"]), true, false).unwrap();
    assert_eq!(
        out,
        vec![
            "id,v".to_string(),
            "1,x".to_string(),
            "2,y".to_string(),
            "3,w".to_string(),
        ]
    );
}

#[test]
fn combine_merge_duplicates_placeholder_does_not_block() {
    // A buffered placeholder value takes the next real value for the
    // column, so the merged row carries the later file's name.
    let a = file(&["id,name", "1,EMPTY"]);
    let b = file(&["id,name", "1,Ann"]);
    let out = combine(&[a, b], Some(&["id"]), false, true).unwrap();
    assert_eq!(out, vec!["id,name".to_string(), "1,Ann".to_string()]);
}

#[test]
fn combine_merge_duplicates_reconstructs_split_columns() {
    let a = file(&["id,name", "1,Ann", "2,Bob"]);
    let b = file(&["id,dept", "1,Eng", "2,Ops"]);
    let c = file(&["id,salary", "1,100", "2,200"]);
    let out = combine(&[a, b, c], Some(&["id"]), false, true).unwrap();
    assert_eq!(out[0], "id,name,dept,salary");
    assert_eq!(out[1], "1,Ann,Eng,100");
    assert_eq!(out[2], "2,Bob,Ops,200");
    assert_eq!(out.len(), 3);
}

#[test]
fn combine_merge_duplicates_earlier_value_wins() {
    let a = file(&["id,name", "1,Ann"]);
    let b = file(&["id,name", "1,Bea"]);
    let out = combine(&[a, b], Some(&["id"]), false, true).unwrap();
    assert_eq!(out, vec!["id,name".to_string(), "1,Ann".to_string()]);
}

#[test]
fn combine_no_files_is_a_configuration_error() {
    let out = combine(&[], Some(&["id"]), false, false);
    assert_eq!(out, Err(CsvError::ConfigurationError));
}

#[test]
fn combine_empty_file_is_unexpected_end_of_input() {
    let a: Vec<String> = Vec::new();
    let out = combine(&[a], Some(&["id"]), false, false);
    assert_eq!(out, Err(CsvError::UnexpectedEndOfInput));
}

#[test]
fn combine_unterminated_quote_is_unexpected_end_of_input() {
    let a = file(&["id,v", "1,\"open"]);
    let out = combine(&[a], None, false, false);
    assert_eq!(out, Err(CsvError::UnexpectedEndOfInput));
}

#[test]
fn combine_custom_delimiter() {
    let a: Vec<String> = vec!["id;name".to_string(), "1;Ann".to_string()];
    let out = combine_files_by_keys(&vec![a], None, ';', "", false, false, "\n").unwrap();
    assert_eq!(out, vec!["id;name".to_string(), "1;Ann".to_string()]);
}

#[test]
fn combine_default_empty_placeholder() {
    let a = file(&["id,name", "1,Ann"]);
    let b = file(&["id,dept", "2,Ops"]);
    let out = combine_files_by_keys(&vec![a, b], None, ',', "", false, false, "\n").unwrap();
    assert_eq!(out[1], "1,Ann,");
    assert_eq!(out[2], "2,,Ops");
}
