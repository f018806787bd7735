//! Commands a client sends to the server, and the server's responses.
//!
//! A command is one line of words separated by spaces:
//! `STREAM <udp_addr> <ticker,ticker,...>` subscribes an address to tickers,
//! `PING <udp_addr>` tells the server that the subscriber is still there.
use vstd::prelude::*;
use crate::text::{
    Sep, split, tokens, words, join, views, free_of, split_words, chars_of, split_chars,
    trimmed_tokens, same_text, push_str, push_char, join_strings, lemma_split_join,
    lemma_join_free, lemma_join_len, lemma_tokens_keep, lemma_nonempty_keep, lemma_trim_free,
};
use crate::protocol::errors::{CommandError, CommandErrorView, error_message};
use crate::addr::{ClientAddr, parse_socket_addr, addr_text, parse_addr, addr_to_string, law_addr_roundtrip, fully_written};

verus! {

/// A request of a client.
#[derive(Debug, PartialEq, Eq)]
pub enum RequestCommand {
    /// Send the quotes of `tickers` to `addr`.
    Stream { addr: ClientAddr, tickers: Vec<String> },
    /// The subscriber at the address is still listening.
    Ping(ClientAddr),
}

/// A [`RequestCommand`] as values of the specification.
pub enum RequestView {
    Stream { addr: ClientAddr, tickers: Seq<Seq<char>> },
    Ping(ClientAddr),
}

impl View for RequestCommand {
    type V = RequestView;

    open spec fn view(&self) -> RequestView {
        match self {
            RequestCommand::Stream { addr, tickers } => RequestView::Stream {
                addr: *addr,
                tickers: views(tickers@),
            },
            RequestCommand::Ping(a) => RequestView::Ping(*a),
        }
    }
}

/// A result seen as values of the specification.
pub open spec fn result_view<T: View, E: View>(r: Result<T, E>) -> Result<T::V, E::V> {
    match r {
        Ok(t) => Ok(t@),
        Err(e) => Err(e@),
    }
}

/// What a command line asks for, or why it is refused.
pub open spec fn command_of(s: Seq<char>) -> Result<RequestView, CommandErrorView> {
    let w = words(s);
    if w.len() == 0 {
        Err(CommandErrorView::UnknownCommand("No command specified"@))
    } else if w[0] == "STREAM"@ {
        if w.len() != 3 {
            Err(CommandErrorView::InvalidStreamArgs)
        } else {
            let t = tokens(split(w[2], Sep::Char(',')));
            if t.len() == 0 {
                Err(CommandErrorView::EmptyTicker)
            } else {
                match parse_socket_addr(w[1]) {
                    Some(a) => Ok(RequestView::Stream { addr: a, tickers: t }),
                    None => Err(CommandErrorView::InvalidUdpAddr),
                }
            }
        }
    } else if w[0] == "PING"@ {
        if w.len() != 2 {
            Err(CommandErrorView::InvalidPingArgs)
        } else {
            match parse_socket_addr(w[1]) {
                Some(a) => Ok(RequestView::Ping(a)),
                None => Err(CommandErrorView::InvalidUdpAddr),
            }
        }
    } else {
        Err(CommandErrorView::UnknownCommand(w[0]))
    }
}

/// The line that sends a request.
pub open spec fn command_line(v: RequestView) -> Seq<char> {
    match v {
        RequestView::Stream { addr, tickers } => "STREAM "@ + addr_text(addr) + " "@ + join(
            tickers,
            ',',
        ),
        RequestView::Ping(a) => "PING "@ + addr_text(a),
    }
}

impl RequestCommand {
    /// Reads a command line: its first word names the command, the others are
    /// its arguments.
    pub fn from_str(s: &str) -> (r: Result<Self, CommandError>)
        ensures
            result_view(r) == command_of(s@),
    {
        let w = split_words(s);
        if w.len() == 0 {
            let msg = "No command specified".to_owned();
            return Err(CommandError::UnknownCommand(msg));
        }
        if same_text(w[0].as_str(), "STREAM") {
            if w.len() != 3 {
                return Err(CommandError::InvalidStreamArgs);
            }
            let list = chars_of(w[2].as_str());
            let parts = split_chars(&list, Sep::Char(','));
            let tickers = trimmed_tokens(&parts);
            if tickers.len() == 0 {
                return Err(CommandError::EmptyTicker);
            }
            match parse_addr(w[1].as_str()) {
                Some(addr) => Ok(RequestCommand::Stream { addr, tickers }),
                None => Err(CommandError::InvalidUdpAddr),
            }
        } else if same_text(w[0].as_str(), "PING") {
            if w.len() != 2 {
                return Err(CommandError::InvalidPingArgs);
            }
            match parse_addr(w[1].as_str()) {
                Some(addr) => Ok(RequestCommand::Ping(addr)),
                None => Err(CommandError::InvalidUdpAddr),
            }
        } else {
            let name = w[0].clone();
            Err(CommandError::UnknownCommand(name))
        }
    }

    /// The line that sends this request.
    pub fn to_string(&self) -> (r: String)
        ensures
            r@ == command_line(self@),
    {
        let mut r = String::new();
        match self {
            RequestCommand::Stream { addr, tickers } => {
                push_str(&mut r, "STREAM ");
                let a = addr_to_string(addr);
                push_str(&mut r, a.as_str());
                push_char(&mut r, ' ');
                let list = join_strings(tickers, ',');
                push_str(&mut r, list.as_str());
                proof {
                    reveal_strlit(" ");
                }
            },
            RequestCommand::Ping(a) => {
                push_str(&mut r, "PING ");
                let t = addr_to_string(a);
                push_str(&mut r, t.as_str());
            },
        }
        r
    }
}

/// The server's answer to a request.
#[derive(Debug, PartialEq, Eq)]
pub enum Response {
    /// The subscription is accepted.
    OK { addr: ClientAddr, ticks: Vec<String> },
    /// The subscriber's presence is noted.
    PONG(ClientAddr),
    /// The request is refused.
    ERR(CommandError),
}

/// The line that carries a response.
pub open spec fn response_line(r: Response) -> Seq<char> {
    match r {
        Response::OK { .. } => "OK\n"@,
        Response::PONG(_) => "PONG\n"@,
        Response::ERR(e) => "ERR: "@ + error_message(e@) + "\n"@,
    }
}

impl Response {
    /// The line that carries this response.
    pub fn to_string(&self) -> (r: String)
        ensures
            r@ == response_line(*self),
    {
        let mut r = String::new();
        match self {
            Response::OK { .. } => push_str(&mut r, "OK\n"),
            Response::PONG(_) => push_str(&mut r, "PONG\n"),
            Response::ERR(e) => {
                push_str(&mut r, "ERR: ");
                let m = e.message();
                push_str(&mut r, m.as_str());
                push_str(&mut r, "\n");
            },
        }
        r
    }
}

/// The requests that a command line can carry unchanged: an address that its
/// text says all of (IPv6 flow information is not written), and ticker lists
/// that are not empty, of names that are not empty and hold neither a space
/// nor a comma.
pub open spec fn sendable(v: RequestView) -> bool {
    match v {
        RequestView::Stream { addr, tickers } => {
            &&& fully_written(addr)
            &&& tickers.len() > 0
            &&& forall|i: int|
                0 <= i < tickers.len() ==> (#[trigger] tickers[i]).len() > 0 && free_of(
                    tickers[i],
                    Sep::Space,
                ) && free_of(tickers[i], Sep::Char(','))
        },
        RequestView::Ping(a) => fully_written(a),
    }
}

/// Reading the line of a sendable request gives the request back, and writing
/// what was read gives the line back.
pub proof fn law_command_roundtrip(v: RequestView)
    requires
        sendable(v),
    ensures
        command_of(command_line(v)) == Ok::<RequestView, CommandErrorView>(v),
        command_line(command_of(command_line(v))->Ok_0) == command_line(v),
{
    reveal_strlit("STREAM");
    reveal_strlit("STREAM ");
    reveal_strlit("PING");
    reveal_strlit("PING ");
    reveal_strlit(" ");
    let stream = "STREAM"@;
    let ping = "PING"@;
    assert(free_of(stream, Sep::Space));
    assert(free_of(ping, Sep::Space));
    match v {
        RequestView::Stream { addr, tickers } => {
            law_addr_roundtrip(addr);
            let at = addr_text(addr);
            let list = join(tickers, ',');
            assert forall|i: int| 0 <= i < tickers.len() implies free_of(
                #[trigger] tickers[i],
                Sep::Space,
            ) by {}
            lemma_join_free(tickers, ',', Sep::Space);
            lemma_join_len(tickers, ',');
            let ps = seq![stream, at, list];
            assert(join(ps, ' ') =~= command_line(v)) by {
                assert(ps.drop_last().drop_last() =~= seq![stream]);
                assert(ps.drop_last() =~= seq![stream, at]);
                assert(join(seq![stream], ' ') == stream);
                assert(join(seq![stream, at], ' ') == stream.push(' ') + at);
                assert("STREAM "@ =~= stream.push(' '));
                assert(" "@ =~= seq![' ']);
            }
            assert forall|i: int| 0 <= i < ps.len() implies free_of(#[trigger] ps[i], Sep::Space) by {}
            lemma_split_join(ps, ' ', Sep::Space);
            assert forall|i: int| 0 <= i < ps.len() implies (#[trigger] ps[i]).len() > 0 by {}
            lemma_nonempty_keep(ps);
            assert forall|i: int| 0 <= i < tickers.len() implies free_of(
                #[trigger] tickers[i],
                Sep::Char(','),
            ) by {}
            lemma_split_join(tickers, ',', Sep::Char(','));
            assert forall|i: int| 0 <= i < tickers.len() implies (#[trigger] tickers[i]).len() > 0
                && crate::text::trim(tickers[i]) == tickers[i] by {
                lemma_trim_free(tickers[i]);
            }
            lemma_tokens_keep(tickers);
        },
        RequestView::Ping(a) => {
            law_addr_roundtrip(a);
            let at = addr_text(a);
            let ps = seq![ping, at];
            assert(join(ps, ' ') =~= command_line(v)) by {
                assert(ps.drop_last() =~= seq![ping]);
                assert(join(seq![ping], ' ') == ping);
                assert("PING "@ =~= ping.push(' '));
            }
            assert forall|i: int| 0 <= i < ps.len() implies free_of(#[trigger] ps[i], Sep::Space) by {}
            lemma_split_join(ps, ' ', Sep::Space);
            assert forall|i: int| 0 <= i < ps.len() implies (#[trigger] ps[i]).len() > 0 by {}
            lemma_nonempty_keep(ps);
        },
    }
}

} // verus!
