use nasdaq::{all_tickers, Client, DirectoryFile, Error, FetchStep, Table, Transport};

#[test]
fn file_names_and_symbol_columns() {
    assert_eq!(DirectoryFile::NasdaqListed.file_name(), "nasdaqlisted.txt");
    assert_eq!(DirectoryFile::MutualFunds.file_name(), "mfundslist.txt");
    assert_eq!(DirectoryFile::OtherListed.symbol_column(), "ACT Symbol");
    assert_eq!(DirectoryFile::Bonds.symbol_column(), "Symbol");
}

#[test]
fn https_url_joins_base_and_name() {
    assert_eq!(
        DirectoryFile::Options.https_url(),
        "https://www.nasdaqtrader.com/dynamic/SymDir/options.txt"
    );
}

#[test]
fn transports_tried_in_order() {
    assert_eq!(Client::new().attempts(), vec![Transport::Ftp, Transport::Https]);
    assert_eq!(Client::with_transport(Transport::Https).attempts(), vec![Transport::Https]);
    assert_eq!(Client::with_transport(Transport::Ftp).attempts(), vec![Transport::Ftp]);
}

#[test]
fn empty_content_is_malformed() {
    let err = Table::parse("x.txt", "").unwrap_err();
    assert_eq!(err, Error::Malformed { file: "x.txt".to_string() });
}

#[test]
fn crlf_and_blank_lines() {
    let t = Table::parse("c.txt", "A|B\r\n1|2\r\n   \r\n\n3|4|5\r\n").unwrap();
    assert_eq!(t.headers, vec!["A", "B"]);
    assert_eq!(t.rows, vec![vec!["1", "2"], vec!["3", "4"]]);
}

#[test]
fn header_only_table() {
    let t = Table::parse("h.txt", "A|B|C").unwrap();
    assert_eq!(t.headers, vec!["A", "B", "C"]);
    assert!(t.rows.is_empty());
}

#[test]
fn column_takes_first_matching_header() {
    let t = Table::parse("d.txt", "K|V|K\n1|2|3\n").unwrap();
    assert_eq!(t.column_index("K"), Some(0));
    assert_eq!(t.column_index("Z"), None);
    assert_eq!(t.column("d.txt", "K").unwrap(), vec!["1"]);
    match t.column("d.txt", "Z").unwrap_err() {
        Error::MissingColumn { file, column, available } => {
            assert_eq!(file, "d.txt");
            assert_eq!(column, "Z");
            assert_eq!(available, vec!["K", "V", "K"]);
        }
        other => panic!("wrong error: {other:?}"),
    }
}

#[test]
fn record_takes_last_duplicate_header() {
    let t = Table::parse("d.txt", "K|V|K\n1|2|3\n").unwrap();
    let r = &t.records()[0];
    assert_eq!(r.get("K"), Some("3"));
    assert_eq!(r.get("V"), Some("2"));
    assert_eq!(r.get("nope"), None);
    assert_eq!(r.fields().len(), 3);
}

#[test]
fn auto_falls_back_to_https_after_ftp_fails() {
    let auto = Client::new();
    assert_eq!(auto.first_attempt(), Transport::Ftp);
    assert_eq!(auto.after_attempt(0, true), FetchStep::Parse);
    assert_eq!(auto.after_attempt(0, false), FetchStep::TryNext(Transport::Https));
    assert_eq!(auto.after_attempt(1, true), FetchStep::Parse);
    assert_eq!(auto.after_attempt(1, false), FetchStep::GiveUp);
}

#[test]
fn single_transport_gives_up_after_one_failure() {
    let ftp = Client::with_transport(Transport::Ftp);
    assert_eq!(ftp.first_attempt(), Transport::Ftp);
    assert_eq!(ftp.after_attempt(0, false), FetchStep::GiveUp);
    assert_eq!(ftp.after_attempt(0, true), FetchStep::Parse);
    let https = Client::with_transport(Transport::Https);
    assert_eq!(https.first_attempt(), Transport::Https);
    assert_eq!(https.after_attempt(0, false), FetchStep::GiveUp);
}

#[test]
fn all_tickers_lists_other_then_nasdaq() {
    let other = vec!["IBM".to_string(), "GE".to_string()];
    let nasdaq = vec!["AAPL".to_string()];
    assert_eq!(all_tickers(other, nasdaq), vec!["IBM", "GE", "AAPL"]);
    assert!(all_tickers(Vec::new(), Vec::new()).is_empty());
}
