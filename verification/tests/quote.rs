use streaming_quotes::numbers::{FloatErrorKind, IntErrorKind};
use streaming_quotes::protocol::errors::{FieldError, ParseError};
use streaming_quotes::protocol::quote::StockQuote;
use streaming_quotes::receiver::read_datagram;

fn quote(ticker: &str, price: &str, volume: u32, timestamp_ms: u64) -> StockQuote {
    StockQuote { ticker: ticker.to_string(), price: price.to_string(), volume, timestamp_ms }
}

#[test]
fn from_wire_line_test_happy_path() {
    let got = StockQuote::from_wire_line("test|2.2|1|1");
    let got = got.unwrap();
    let expected = quote("test", "2.2", 1, 1);
    assert_eq!(expected, got);
    assert_eq!(got.price.parse::<f64>().unwrap(), 2.2);
}

#[test]
fn from_wire_line_test_error() {
    let got = StockQuote::from_wire_line("test|abc|1|1");
    assert!(matches!(
        got.unwrap_err(),
        ParseError::InvalidField { field, .. } if field == "price",
    ));
    let got = StockQuote::from_wire_line("test|1|2");
    assert!(matches!(got.unwrap_err(), ParseError::EmptyField(..)));
}

#[test]
fn wrong_field_count_keeps_the_line() {
    assert_eq!(
        StockQuote::from_wire_line("  a|b  "),
        Err(ParseError::EmptyField("  a|b  ".to_string()))
    );
    assert_eq!(StockQuote::from_wire_line(""), Err(ParseError::EmptyField(String::new())));
    assert_eq!(
        StockQuote::from_wire_line("a|1|2|3|4"),
        Err(ParseError::EmptyField("a|1|2|3|4".to_string()))
    );
}

#[test]
fn field_errors_in_order() {
    assert_eq!(
        StockQuote::from_wire_line("T||x|y"),
        Err(ParseError::InvalidField {
            field: "price",
            value: String::new(),
            source: FieldError::Float(FloatErrorKind::Empty)
        })
    );
    assert_eq!(
        StockQuote::from_wire_line("T|1.5|4294967296|y"),
        Err(ParseError::InvalidField {
            field: "value",
            value: "4294967296".to_string(),
            source: FieldError::Int(IntErrorKind::PosOverflow)
        })
    );
    assert_eq!(
        StockQuote::from_wire_line("T|1.5|-1|0"),
        Err(ParseError::InvalidField {
            field: "value",
            value: "-1".to_string(),
            source: FieldError::Int(IntErrorKind::InvalidDigit)
        })
    );
    assert_eq!(
        StockQuote::from_wire_line("T|1.5|7| "),
        Err(ParseError::InvalidField {
            field: "timestamp_ms",
            value: String::new(),
            source: FieldError::Int(IntErrorKind::Empty)
        })
    );
}

#[test]
fn fields_are_trimmed() {
    assert_eq!(
        StockQuote::from_wire_line("  BRK A | -1e3 | +42 | 18446744073709551615 \n"),
        Ok(quote("BRK A", "-1e3", 42, u64::MAX))
    );
}

#[test]
fn to_wire_line_writes_fields() {
    assert_eq!(quote("APL", "101.25", 7, 1700000000000).to_wire_line(), "APL|101.25|7|1700000000000");
    assert_eq!(quote("", "0", 0, 0).to_wire_line(), "|0|0|0");
    assert_eq!(quote("Z", "inf", u32::MAX, u64::MAX).to_wire_line(), "Z|inf|4294967295|18446744073709551615");
}

#[test]
fn wire_line_roundtrip() {
    for q in [quote("APL", "2.5", 10, 99), quote("", "NaN", 0, 0), quote("A B", "-0.0", u32::MAX, u64::MAX)] {
        let line = q.to_wire_line();
        assert_eq!(StockQuote::from_wire_line(&line), Ok(q));
    }
}

#[test]
fn datagrams() {
    assert_eq!(read_datagram(b"X|1|2|3"), Ok(Ok(quote("X", "1", 2, 3))));
    assert!(read_datagram(&[0x58, 0xff, 0x7c]).is_err());
    assert!(matches!(read_datagram("é|1|2".as_bytes()), Ok(Err(ParseError::EmptyField(_)))));
    assert_eq!(read_datagram("€|1|2|3".as_bytes()), Ok(Ok(quote("€", "1", 2, 3))));
}
