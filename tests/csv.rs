use frame_engine::csv::{decimal_string, parse_int, read_csv, split_text, CsvOptions};
use frame_engine::error::EngineError;
use frame_engine::model::DataType;
use frame_engine::series::Scalar;

fn opts(has_header: bool, infer_rows: usize) -> CsvOptions {
    CsvOptions { has_header, infer_rows, delimiter: ',' }
}

#[test]
fn reads_header_and_infers_types() {
    let df = read_csv("Name,Age,Member\nAnn,30,true\nBob,,false\n", &opts(true, 100)).unwrap();
    assert_eq!(df.height(), 2);
    let name = df.column("Name").unwrap();
    let age = df.column("Age").unwrap();
    let member = df.column("Member").unwrap();
    assert_eq!(name.dtype(), DataType::Utf8);
    assert_eq!(age.dtype(), DataType::Int64);
    assert_eq!(member.dtype(), DataType::Boolean);
    assert_eq!(age.to_options(), vec![Some(Scalar::Int(30)), None]);
    assert_eq!(age.null_count(), 1);
    assert_eq!(member.to_options(), vec![Some(Scalar::Bool(true)), Some(Scalar::Bool(false))]);
    assert_eq!(name.get(1), Some(Scalar::Text("Bob".to_string())));
}

#[test]
fn synthesizes_names_without_header() {
    let df = read_csv("1;x\n-2;y", &CsvOptions { has_header: false, infer_rows: 10, delimiter: ';' }).unwrap();
    let names: Vec<String> = df.columns().iter().map(|c| c.name().clone()).collect();
    assert_eq!(names, vec!["column_1", "column_2"]);
    assert_eq!(df.column("column_1").unwrap().to_options(), vec![Some(Scalar::Int(1)), Some(Scalar::Int(-2))]);
}

#[test]
fn ragged_row_is_a_parse_error() {
    let r = read_csv("a,b\n1,2\nx\n", &opts(true, 10));
    assert_eq!(
        r.err(),
        Some(EngineError::ParseError { row: 2, column: 1, raw_text: "x".to_string() })
    );
}

#[test]
fn values_past_the_sample_become_null() {
    let df = read_csv("a\n1\nx\n3\n", &opts(true, 1)).unwrap();
    let a = df.column("a").unwrap();
    assert_eq!(a.dtype(), DataType::Int64);
    assert_eq!(a.to_options(), vec![Some(Scalar::Int(1)), None, Some(Scalar::Int(3))]);
}

#[test]
fn mixed_values_widen_to_text() {
    let df = read_csv("a,b\ntrue,5\n7,99999999999999999999\n", &opts(true, 10)).unwrap();
    assert_eq!(df.column("a").unwrap().dtype(), DataType::Utf8);
    assert_eq!(df.column("b").unwrap().dtype(), DataType::Utf8);
}

#[test]
fn duplicate_header_is_a_schema_error() {
    assert_eq!(read_csv("a,a\n1,2\n", &opts(true, 10)).err(), Some(EngineError::SchemaError));
}

#[test]
fn empty_text_is_an_empty_frame() {
    let df = read_csv("", &opts(true, 10)).unwrap();
    assert_eq!(df.width(), 0);
    assert_eq!(df.height(), 0);
}

#[test]
fn helpers() {
    assert_eq!(split_text("a,,b", ','), vec!["a", "", "b"]);
    assert_eq!(parse_int("-9223372036854775808"), Some(i64::MIN));
    assert_eq!(parse_int("9223372036854775807"), Some(i64::MAX));
    assert_eq!(parse_int("9223372036854775808"), None);
    assert_eq!(parse_int("-"), None);
    assert_eq!(parse_int("+1"), None);
    assert_eq!(parse_int("12a"), None);
    assert_eq!(decimal_string(0), "0");
    assert_eq!(decimal_string(407), "407");
}
