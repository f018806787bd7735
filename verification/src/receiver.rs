//! What a client makes of one datagram from the server.
use vstd::prelude::*;
use vstd::utf8::{valid_utf8, decode_utf8};
use crate::protocol::quote::{StockQuote, reads_as};
use crate::protocol::errors::ParseError;

verus! {

/// `std::str::Utf8Error`, the error for bytes that are not UTF-8; carried as
/// an opaque value.
#[verifier::external_type_specification]
#[verifier::external_body]
pub struct ExUtf8Error(std::str::Utf8Error);

/// `std::str::from_utf8`: the text that `bytes` encode in UTF-8, or an error
/// when they are not well-formed UTF-8. Claimed: success exactly on
/// well-formed UTF-8 (vstd's `valid_utf8`), and then the decoded characters.
/// The error's content (where decoding stopped) is not described.
#[verifier::external_body]
fn utf8_text(bytes: &[u8]) -> (r: Result<&str, std::str::Utf8Error>)
    ensures
        match r {
            Ok(s) => valid_utf8(bytes@) && s@ == decode_utf8(bytes@),
            Err(_) => !valid_utf8(bytes@),
        },
{
    std::str::from_utf8(bytes)
}

/// Reads a datagram as a quote line: bytes that are not UTF-8 are an error
/// of their own; otherwise the line is read as a quote.
pub fn read_datagram(datagram: &[u8]) -> (r: Result<Result<StockQuote, ParseError>, std::str::Utf8Error>)
    ensures
        r is Ok <==> valid_utf8(datagram@),
        r matches Ok(q) ==> reads_as(q, decode_utf8(datagram@)),
{
    let text = utf8_text(datagram)?;
    Ok(StockQuote::from_wire_line(text))
}

} // verus!
