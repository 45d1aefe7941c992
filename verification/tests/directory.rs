use nasdaq::{Error, Table};

const SAMPLE: &str = "Symbol|Security Name|Test Issue\n\
AAPL|Apple Inc. - Common Stock|N\n\
MSFT|Microsoft Corporation - Common Stock|N\n\
ZXYZ.A|Test Row|Y\n\
File Creation Time: 0702202522:01||";

#[test]
fn parse_table() {
    let t = Table::parse("sample.txt", SAMPLE).unwrap();
    assert_eq!(t.headers, vec!["Symbol", "Security Name", "Test Issue"]);
    assert_eq!(t.rows.len(), 3); // trailer dropped
    assert_eq!(t.rows[0][0], "AAPL");
}

#[test]
fn column_extraction() {
    let t = Table::parse("sample.txt", SAMPLE).unwrap();
    let syms = t.column("sample.txt", "Symbol").unwrap();
    assert_eq!(syms, vec!["AAPL", "MSFT", "ZXYZ.A"]);
}

#[test]
fn missing_column_error() {
    let t = Table::parse("sample.txt", SAMPLE).unwrap();
    let err = t.column("sample.txt", "Nope").unwrap_err();
    assert!(matches!(err, Error::MissingColumn { .. }));
}

#[test]
fn records_map() {
    let t = Table::parse("sample.txt", SAMPLE).unwrap();
    let first = t.records().into_iter().next().unwrap();
    assert_eq!(first.get("Symbol").unwrap(), "AAPL");
    assert_eq!(first.get("Test Issue").unwrap(), "N");
}

#[test]
fn ragged_rows_are_padded() {
    let ragged = "A|B|C\n1|2\nFile Creation Time: x||";
    let t = Table::parse("r.txt", ragged).unwrap();
    assert_eq!(t.rows[0], vec!["1", "2", ""]);
}
