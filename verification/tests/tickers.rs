use std::io::{BufRead, BufReader, Cursor, Read};
use streaming_quotes::tickers::{read_tickers_from, ReadTickerError, Tickers};

/// The lines of a reader, up to and including the first one that fails.
fn lines_of<R: BufRead>(reader: R) -> Vec<std::io::Result<String>> {
    let mut lines = Vec::new();
    for line in reader.lines() {
        let failed = line.is_err();
        lines.push(line);
        if failed {
            break;
        }
    }
    lines
}

struct FailingReader;

impl Read for FailingReader {
    fn read(&mut self, _buf: &mut [u8]) -> std::io::Result<usize> {
        Err(std::io::Error::new(std::io::ErrorKind::Other, "test"))
    }
}

fn names(v: &[&str]) -> Vec<String> {
    v.iter().map(|s| s.to_string()).collect()
}

fn read_case(raw: &str) {
    let mut cursor = Cursor::new(raw);
    let tickers = read_tickers_from(lines_of(&mut cursor));
    assert!(tickers.is_ok());
    assert_eq!(tickers.unwrap(), vec!["APL", "GPN", "VLU"])
}

#[test]
fn test_read_tickers() {
    read_case("APL,GPN,VLU");
    read_case("APL, GPN, VLU");
    read_case(
        r#"
        APL
        GPN
        VLU
    "#,
    );
}

#[test]
fn test_empty_tickers() {
    let mut cursor = Cursor::new("");
    let tickers = read_tickers_from(lines_of(&mut cursor));
    assert!(tickers.is_err());
    assert!(matches!(tickers.err(), Some(ReadTickerError::EmptyFile)))
}

#[test]
fn test_read_error() {
    let fake_reader = FailingReader;
    let buf = BufReader::new(fake_reader);
    let result = read_tickers_from(lines_of(buf));
    assert!(result.is_err());
    assert!(matches!(result.err(), Some(ReadTickerError::File(_))));
}

#[test]
fn blank_lines_and_commas_hold_no_ticker() {
    let lines = vec![Ok(" , ,".to_string()), Ok(String::new()), Ok("\t".to_string())];
    assert!(matches!(read_tickers_from(lines), Err(ReadTickerError::EmptyFile)));
}

#[test]
fn first_failed_line_ends_reading() {
    let lines = vec![
        Ok("A,B".to_string()),
        Err(std::io::Error::new(std::io::ErrorKind::Other, "first")),
        Err(std::io::Error::new(std::io::ErrorKind::Other, "second")),
    ];
    match read_tickers_from(lines) {
        Err(ReadTickerError::File(e)) => assert_eq!(e.to_string(), "first"),
        other => panic!("unexpected {:?}", other),
    }
}

#[test]
fn tickers_keep_order_and_repetitions() {
    let lines = vec![Ok("B, A ,B".to_string()), Ok("C".to_string())];
    assert_eq!(read_tickers_from(lines).unwrap(), names(&["B", "A", "B", "C"]));
}

#[test]
fn new_drops_repetitions() {
    let t = Tickers::new(names(&["A", "B", "A", "C", "B"]));
    assert_eq!(t.tickers, names(&["A", "B", "C"]));
}

#[test]
fn find_unknown_lists_unknown_names_in_order() {
    let t = Tickers::new(names(&["APL", "GPN"]));
    assert_eq!(t.find_unknown(&names(&["GPN", "APL"])), None);
    assert_eq!(t.find_unknown(&names(&[])), None);
    assert_eq!(t.find_unknown(&names(&["X", "APL", "Y", "X"])), Some(names(&["X", "Y", "X"])));
}

#[test]
fn new_knows_its_names() {
    let given = names(&["A", "B", "A"]);
    let t = Tickers::new(given.clone());
    assert_eq!(t.find_unknown(&given), None);
}

#[test]
fn tickers_equal_as_sets() {
    assert_eq!(Tickers::new(names(&["A", "B"])), Tickers::new(names(&["B", "A", "B"])));
    assert_ne!(Tickers::new(names(&["A", "B"])), Tickers::new(names(&["A"])));
    assert_ne!(Tickers::new(names(&["A"])), Tickers::new(names(&["A", "C"])));
}
