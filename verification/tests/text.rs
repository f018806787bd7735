use streaming_quotes::numbers::{check_float, parse_u32, parse_u64, FloatErrorKind, IntErrorKind};
use streaming_quotes::text::{is_space_char, join_strings, split_chars, split_words, trim_str, Sep};

fn std_kind(e: &std::num::ParseIntError) -> IntErrorKind {
    match e.kind() {
        std::num::IntErrorKind::Empty => IntErrorKind::Empty,
        std::num::IntErrorKind::InvalidDigit => IntErrorKind::InvalidDigit,
        std::num::IntErrorKind::PosOverflow => IntErrorKind::PosOverflow,
        other => panic!("unexpected {:?}", other),
    }
}

const SAMPLES: &[&str] = &[
    "", "+", "-", "0", "+0", "-0", "007", "42", "+42", "4294967295", "4294967296", "99999999999x",
    "1x99999999999", "18446744073709551615", "18446744073709551616", "184467440737095516150", " 1",
    "1 ", "1_000", "١", "++1", "+-1", "12a", "a12",
];

#[test]
fn integers_read_as_std_reads_them() {
    for s in SAMPLES {
        match s.parse::<u32>() {
            Ok(n) => assert_eq!(parse_u32(s), Ok(n), "{:?}", s),
            Err(e) => assert_eq!(parse_u32(s), Err(std_kind(&e)), "{:?}", s),
        }
        match s.parse::<u64>() {
            Ok(n) => assert_eq!(parse_u64(s), Ok(n), "{:?}", s),
            Err(e) => assert_eq!(parse_u64(s), Err(std_kind(&e)), "{:?}", s),
        }
    }
}

#[test]
fn float_literals_as_std_accepts_them() {
    let samples = [
        "", "1", "1.", ".5", ".", "-.5e3", "+1E-7", "1e", "1e+", "e5", "inf", "-Infinity", "NaN",
        "nan1", "1.2.3", "0x10", "1_0", " 1", "1 ", "+", "-", "infinit", "INF", "1e5.0", "12e-003",
        "--1", "+nan", "٣", "1,5",
    ];
    for s in samples {
        let want = match s.parse::<f64>() {
            Ok(_) => Ok(()),
            Err(_) if s.is_empty() => Err(FloatErrorKind::Empty),
            Err(_) => Err(FloatErrorKind::Invalid),
        };
        assert_eq!(check_float(s), want, "{:?}", s);
    }
}

#[test]
fn trim_as_std() {
    for s in ["", "  ", " a ", "\u{3000}x y\u{85}", "\u{200B}z", "a\t\n", "\u{A0}b"] {
        assert_eq!(trim_str(s), s.trim(), "{:?}", s);
    }
}

#[test]
fn whitespace_as_std() {
    for c in ['\t', ' ', '\u{85}', '\u{A0}', '\u{1680}', '\u{2000}', '\u{200A}', '\u{200B}', '\u{3000}', 'a', '\u{FEFF}'] {
        assert_eq!(is_space_char(c), c.is_whitespace(), "{:?}", c);
    }
}

#[test]
fn split_as_std() {
    for s in ["", ",", "a,,b", ",a,", "abc"] {
        let v: Vec<char> = s.chars().collect();
        let want: Vec<String> = s.split(',').map(String::from).collect();
        assert_eq!(split_chars(&v, Sep::Char(',')), want);
        assert_eq!(join_strings(&want, ','), s);
    }
    for s in ["", "  ", " a  b\tc\n", "x"] {
        let want: Vec<String> = s.split_whitespace().map(String::from).collect();
        assert_eq!(split_words(s), want);
    }
}
