//! Quote lines: `<ticker>|<price>|<volume>|<timestamp_ms>`.
//!
//! The price is held as the decimal text of a float, a text that
//! `f64::from_str` accepts; turning it into a float is the caller's part.
use vstd::prelude::*;
use crate::text::{
    Sep, split, trim, trim_all, join, views, free_of, is_space, chars_of, split_chars, trim_str,
    trimmed_all, push_str, push_char, lemma_split_join, lemma_trim_keeps, lemma_trim_fixed,
    lemma_trim_free,
};
use crate::numbers::{
    parse_unsigned, float_check, decimal, is_digit, check_float, parse_u32, parse_u64,
    push_decimal, lemma_decimal_roundtrip, plain_decimal, law_decimal_literals_accepted,
};
use crate::protocol::errors::{ParseError, FieldError};

verus! {

/// One quote of a ticker.
#[derive(Debug, PartialEq, Eq)]
pub struct StockQuote {
    pub ticker: String,
    /// The price, as the text of a float literal.
    pub price: String,
    pub volume: u32,
    pub timestamp_ms: u64,
}

/// The line that carries a quote.
pub open spec fn quote_line(ticker: Seq<char>, price: Seq<char>, volume: nat, timestamp_ms: nat) -> Seq<char> {
    join(seq![ticker, price, decimal(volume), decimal(timestamp_ms)], '|')
}

/// The fields of a line: the trimmed line cut at each `|`, each piece trimmed.
pub open spec fn wire_fields(line: Seq<char>) -> Seq<Seq<char>> {
    trim_all(split(trim(line), Sep::Char('|')))
}

/// The first of the four fields (price, volume, timestamp) that does not hold
/// a value of its type, and why.
pub open spec fn field_error(f: Seq<Seq<char>>) -> Option<(int, FieldError)> {
    if float_check(f[1]) is Err {
        Some((1, FieldError::Float(float_check(f[1])->Err_0)))
    } else if parse_unsigned(f[2], u32::MAX as nat) is Err {
        Some((2, FieldError::Int(parse_unsigned(f[2], u32::MAX as nat)->Err_0)))
    } else if parse_unsigned(f[3], u64::MAX as nat) is Err {
        Some((3, FieldError::Int(parse_unsigned(f[3], u64::MAX as nat)->Err_0)))
    } else {
        None
    }
}

/// The name under which a field's error is reported.
pub open spec fn field_name(i: int) -> Seq<char> {
    if i == 1 {
        "price"@
    } else if i == 2 {
        "value"@
    } else {
        "timestamp_ms"@
    }
}

/// What reading a line gives: the ticker, price, volume and timestamp; or
/// `Err(None)` for a line that does not hold four fields; or the position and
/// error of the first bad field.
pub open spec fn quote_of(line: Seq<char>) -> Result<(Seq<char>, Seq<char>, nat, nat), Option<(int, FieldError)>> {
    let f = wire_fields(line);
    if f.len() != 4 {
        Err(None)
    } else {
        match field_error(f) {
            Some(x) => Err(Some(x)),
            None => Ok(
                (
                    f[0],
                    f[1],
                    parse_unsigned(f[2], u32::MAX as nat)->Ok_0,
                    parse_unsigned(f[3], u64::MAX as nat)->Ok_0,
                ),
            ),
        }
    }
}

/// Whether `r` is what reading `line` gives: the quote with its fields, the
/// whole line for a wrong number of fields, or the name, text and error of the
/// first bad field.
pub open spec fn reads_as(r: Result<StockQuote, ParseError>, line: Seq<char>) -> bool {
    match quote_of(line) {
        Ok((t, p, v, ts)) => r matches Ok(q) && q.ticker@ == t && q.price@ == p && q.volume == v
            && q.timestamp_ms == ts,
        Err(None) => r matches Err(ParseError::EmptyField(l)) && l@ == line,
        Err(Some((i, e))) => r matches Err(ParseError::InvalidField { field, value, source })
            && field@ == field_name(i) && value@ == wire_fields(line)[i] && source == e,
    }
}

impl StockQuote {
    /// The line that carries this quote.
    pub open spec fn wire(&self) -> Seq<char> {
        quote_line(self.ticker@, self.price@, self.volume as nat, self.timestamp_ms as nat)
    }

    /// The line that carries this quote.
    pub fn to_wire_line(&self) -> (r: String)
        ensures
            r@ == self.wire(),
    {
        let mut r = String::new();
        push_str(&mut r, self.ticker.as_str());
        push_char(&mut r, '|');
        push_str(&mut r, self.price.as_str());
        push_char(&mut r, '|');
        push_decimal(&mut r, self.volume as u64);
        push_char(&mut r, '|');
        push_decimal(&mut r, self.timestamp_ms);
        proof {
            lemma_quote_line(self.ticker@, self.price@, self.volume as nat, self.timestamp_ms as nat);
            assert(r@ =~= self.wire());
        }
        r
    }

    /// Reads a quote line.
    pub fn from_wire_line(line: &str) -> (r: Result<Self, ParseError>)
        ensures
            reads_as(r, line@),
    {
        let t = trim_str(line);
        let chars = chars_of(t.as_str());
        let raw = split_chars(&chars, Sep::Char('|'));
        let fields = trimmed_all(&raw);
        let ghost f = wire_fields(line@);
        assert(views(fields@) == f);
        if fields.len() != 4 {
            return Err(ParseError::EmptyField(line.to_owned()));
        }
        assert(fields@[1]@ == f[1]);
        assert(fields@[2]@ == f[2]);
        assert(fields@[3]@ == f[3]);
        assert(fields@[0]@ == f[0]);
        if let Err(k) = check_float(fields[1].as_str()) {
            return Err(
                ParseError::InvalidField {
                    field: "price",
                    value: fields[1].clone(),
                    source: FieldError::Float(k),
                },
            );
        }
        let volume = match parse_u32(fields[2].as_str()) {
            Ok(v) => v,
            Err(k) => {
                return Err(
                    ParseError::InvalidField {
                        field: "value",
                        value: fields[2].clone(),
                        source: FieldError::Int(k),
                    },
                );
            },
        };
        let timestamp_ms = match parse_u64(fields[3].as_str()) {
            Ok(v) => v,
            Err(k) => {
                return Err(
                    ParseError::InvalidField {
                        field: "timestamp_ms",
                        value: fields[3].clone(),
                        source: FieldError::Int(k),
                    },
                );
            },
        };
        Ok(
            StockQuote {
                ticker: fields[0].clone(),
                price: fields[1].clone(),
                volume,
                timestamp_ms,
            },
        )
    }
}

/// A quote line is its four fields with a `|` between each two.
proof fn lemma_quote_line(ticker: Seq<char>, price: Seq<char>, volume: nat, timestamp_ms: nat)
    ensures
        quote_line(ticker, price, volume, timestamp_ms) == ((ticker.push('|') + price).push('|')
            + decimal(volume)).push('|') + decimal(timestamp_ms),
{
    let dv = decimal(volume);
    let dt = decimal(timestamp_ms);
    let ps = seq![ticker, price, dv, dt];
    let p3 = seq![ticker, price, dv];
    let p2 = seq![ticker, price];
    assert(ps.drop_last() =~= p3);
    assert(p3.drop_last() =~= p2);
    assert(p2.drop_last() =~= seq![ticker]);
    assert(join(seq![ticker], '|') == ticker);
    assert(join(p2, '|') == ticker.push('|') + price);
    assert(join(p3, '|') == join(p2, '|').push('|') + dv);
    assert(join(ps, '|') == join(p3, '|').push('|') + dt);
}

/// The decimal digits of a number are their own trim and hold no `|`.
proof fn lemma_decimal_plain(n: nat, max: nat)
    requires
        n <= max,
    ensures
        free_of(decimal(n), Sep::Char('|')),
        free_of(decimal(n), Sep::Space),
        parse_unsigned(decimal(n), max) == Ok::<nat, crate::numbers::IntErrorKind>(n),
{
    lemma_decimal_roundtrip(n, max);
    let d = decimal(n);
    assert forall|i: int| 0 <= i < d.len() implies !Sep::Char('|').accepts(#[trigger] d[i]) && !Sep::Space.accepts(d[i]) by {
        assert(is_digit(d[i]));
    }
    assert(is_digit(d[0]));
}

/// Reading the line of a quote gives the quote back, for a ticker and a price
/// that hold no `|` and do not start or end with a space, and a price that
/// `f64::from_str` accepts.
pub proof fn law_quote_roundtrip(ticker: Seq<char>, price: Seq<char>, volume: u32, timestamp_ms: u64)
    requires
        free_of(ticker, Sep::Char('|')),
        trim(ticker) == ticker,
        free_of(price, Sep::Char('|')),
        trim(price) == price,
        float_check(price) == Ok::<(), crate::numbers::FloatErrorKind>(()),
    ensures
        quote_of(quote_line(ticker, price, volume as nat, timestamp_ms as nat)) == Ok::<
            (Seq<char>, Seq<char>, nat, nat),
            Option<(int, FieldError)>,
        >((ticker, price, volume as nat, timestamp_ms as nat)),
{
    let dv = decimal(volume as nat);
    let dt = decimal(timestamp_ms as nat);
    lemma_decimal_plain(volume as nat, u32::MAX as nat);
    lemma_decimal_plain(timestamp_ms as nat, u64::MAX as nat);
    let ps = seq![ticker, price, dv, dt];
    let line = quote_line(ticker, price, volume as nat, timestamp_ms as nat);
    let a = ticker.push('|') + price;
    let b = a.push('|') + dv;
    lemma_quote_line(ticker, price, volume as nat, timestamp_ms as nat);
    assert(line.len() > 0);
    assert(line.last() == dt.last());
    assert(!is_space(dt[dt.len() - 1])) by {
        assert(!Sep::Space.accepts(dt[dt.len() - 1]));
    }
    if ticker.len() > 0 {
        lemma_trim_fixed(ticker);
        assert(line[0] == ticker[0]);
    } else {
        assert(line[0] == '|');
    }
    lemma_trim_keeps(line);
    assert forall|i: int| 0 <= i < ps.len() implies free_of(#[trigger] ps[i], Sep::Char('|')) by {}
    lemma_split_join(ps, '|', Sep::Char('|'));
    lemma_trim_free(dv);
    lemma_trim_free(dt);
    assert(wire_fields(line) =~= ps);
}

/// A quote line whose price is written in plain decimal notation (digits and
/// at most one `.`, however many digits) reads as the quote, for a ticker that
/// holds no `|` and does not start or end with a space.
pub proof fn law_quote_decimal_price(ticker: Seq<char>, price: Seq<char>, volume: u32, timestamp_ms: u64)
    requires
        free_of(ticker, Sep::Char('|')),
        trim(ticker) == ticker,
        plain_decimal(price),
    ensures
        quote_of(quote_line(ticker, price, volume as nat, timestamp_ms as nat)) == Ok::<
            (Seq<char>, Seq<char>, nat, nat),
            Option<(int, FieldError)>,
        >((ticker, price, volume as nat, timestamp_ms as nat)),
{
    law_decimal_literals_accepted(price);
    assert forall|i: int| 0 <= i < price.len() implies !Sep::Char('|').accepts(#[trigger] price[i])
        && !Sep::Space.accepts(price[i]) by {
        assert(is_digit(price[i]) || price[i] == '.');
    }
    lemma_trim_free(price);
    law_quote_roundtrip(ticker, price, volume, timestamp_ms);
}

} // verus!
