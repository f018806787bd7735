//! What the server does with each request line, and how a client reads the
//! reply.
use vstd::prelude::*;
use crate::text::{trim, trim_str, chars_of, trim_end, trim_start, lemma_trim_keeps_first};
use crate::numbers::{lower, ascii_lower};
use crate::registry::{Registry, pinged};
use crate::protocol::command::{Response, RequestCommand, response_line};
use crate::protocol::errors::CommandError;
use crate::tickers::{Tickers, unknown, lemma_unknown};
use crate::text::{views, join, join_strings};

verus! {

/// The server's answer to a request, given the tickers it quotes: a
/// subscription to tickers that are all quoted is accepted, one that names
/// other tickers is refused with those names, a ping is answered, and a
/// refused command is answered with its error.
pub fn process_line(parsed: Result<RequestCommand, CommandError>, ticker: &Tickers) -> (r:
    Response)
    ensures
        match parsed {
            Ok(RequestCommand::Stream { addr, tickers }) => {
                let u = unknown(views(tickers@), ticker.known());
                &&& u.len() == 0 ==> r == Response::OK { addr, ticks: tickers }
                &&& u.len() > 0 ==> (r matches Response::ERR(CommandError::UnknownTicker(s)) && s@
                    == join(u, ','))
            },
            Ok(RequestCommand::Ping(a)) => r == Response::PONG(a),
            Err(e) => r == Response::ERR(e),
        },
{
    match parsed {
        Ok(request) => match request {
            RequestCommand::Stream { tickers, addr } => {
                proof {
                    lemma_unknown(views(tickers@), ticker.known());
                }
                match ticker.find_unknown(&tickers) {
                    Some(ticks) => Response::ERR(
                        CommandError::UnknownTicker(join_strings(&ticks, ',')),
                    ),
                    None => Response::OK { addr, ticks: tickers },
                }
            },
            RequestCommand::Ping(addr) => Response::PONG(addr),
        },
        Err(e) => Response::ERR(e),
    }
}

/// Applies the server's answer to the table of subscribers at `now`: an
/// accepted subscription is registered, a ping notes the subscriber's sign of
/// life, a refused request changes nothing.
pub fn handle_response(reg: &mut Registry, response: Response, now: u64)
    requires
        old(reg).wf(),
    ensures
        final(reg).wf(),
        match response {
            Response::OK { addr, ticks } => final(reg)@ == old(reg)@.insert(
                addr,
                (views(ticks@).to_set(), now),
            ),
            Response::PONG(addr) => final(reg)@ == pinged(old(reg)@, addr, now),
            Response::ERR(_) => final(reg)@ == old(reg)@,
        },
{
    match response {
        Response::OK { addr, ticks } => reg.register(addr, ticks, now),
        Response::PONG(addr) => reg.update_ping(addr, now),
        Response::ERR(_) => {},
    }
}

/// What a client makes of the server's reply line.
#[derive(Clone, Copy, Debug, PartialEq, Eq)]
pub enum ClientReply {
    /// Nothing but spaces.
    Empty,
    /// `OK`, in any case: the subscription was accepted.
    Registered,
    /// `PONG`, in any case: the ping was answered.
    Connected,
    /// Anything else.
    Other,
}

/// How a client reads a reply line: trimmed, and compared without regard to
/// ASCII case.
pub open spec fn reply_of(line: Seq<char>) -> ClientReply {
    let t = trim(line);
    if t.len() == 0 {
        ClientReply::Empty
    } else if lower(t) == seq!['o', 'k'] {
        ClientReply::Registered
    } else if lower(t) == seq!['p', 'o', 'n', 'g'] {
        ClientReply::Connected
    } else {
        ClientReply::Other
    }
}

/// Whether the lower case of `v` is `word` (given in lower case).
fn lower_is(v: &Vec<char>, word: &Vec<char>) -> (b: bool)
    ensures
        b == (lower(v@) == word@),
{
    if v.len() != word.len() {
        return false;
    }
    let n = v.len();
    for i in 0..n
        invariant
            n == v.len() == word.len(),
            forall|k: int| 0 <= k < i ==> lower(v@)[k] == word@[k],
    {
        let c = v[i];
        let code = c as u32;
        let l = if 0x41 <= code && code <= 0x5A {
            let b: u8 = (code + 32) as u8;
            let r = b as char;
            assert(r as u32 == code + 32);
            r
        } else {
            c
        };
        assert(l == ascii_lower(v@[i as int]));
        if l != word[i] {
            assert(lower(v@)[i as int] != word@[i as int]);
            return false;
        }
    }
    assert(lower(v@) =~= word@);
    true
}

/// Reads the server's reply line.
pub fn classify_reply(line: &str) -> (r: ClientReply)
    ensures
        r == reply_of(line@),
{
    let t = trim_str(line);
    let v = chars_of(t.as_str());
    if v.len() == 0 {
        return ClientReply::Empty;
    }
    let ok = vec!['o', 'k'];
    let pong = vec!['p', 'o', 'n', 'g'];
    assert(ok@ =~= seq!['o', 'k']);
    assert(pong@ =~= seq!['p', 'o', 'n', 'g']);
    if lower_is(&v, &ok) {
        ClientReply::Registered
    } else if lower_is(&v, &pong) {
        ClientReply::Connected
    } else {
        ClientReply::Other
    }
}

/// A client reads every reply line of the server as what was answered: `OK`
/// as an accepted subscription, `PONG` as an answered ping, an error as
/// neither.
pub proof fn law_client_reads_server_replies(r: Response)
    ensures
        reply_of(response_line(r)) == match r {
            Response::OK { .. } => ClientReply::Registered,
            Response::PONG(_) => ClientReply::Connected,
            Response::ERR(_) => ClientReply::Other,
        },
{
    match r {
        Response::OK { .. } => {
            reveal_strlit("OK\n");
            let s = "OK\n"@;
            let w = seq!['O', 'K'];
            assert(s =~= w.push('\n'));
            assert(trim_start(s) == s);
            assert(s.drop_last() =~= w);
            assert(trim_end(w) == w);
            assert(trim(s) == w);
            assert(lower(w) =~= seq!['o', 'k']);
        },
        Response::PONG(_) => {
            reveal_strlit("PONG\n");
            let s = "PONG\n"@;
            let w = seq!['P', 'O', 'N', 'G'];
            assert(s =~= w.push('\n'));
            assert(trim_start(s) == s);
            assert(s.drop_last() =~= w);
            assert(trim_end(w) == w);
            assert(trim(s) == w);
            assert(lower(w) =~= seq!['p', 'o', 'n', 'g']);
            assert(lower(w) != seq!['o', 'k']);
        },
        Response::ERR(_) => {
            reveal_strlit("ERR: ");
            let s = response_line(r);
            assert(s[0] == 'E');
            lemma_trim_keeps_first(s);
            let t = trim(s);
            assert(lower(t)[0] == 'e');
            assert(lower(t) != seq!['o', 'k']);
            assert(lower(t) != seq!['p', 'o', 'n', 'g']);
        },
    }
}

/// A reply that reads `pong` in any mix of ASCII case, around which spaces do
/// not count, is an answered ping.
pub proof fn law_pong_in_any_case(line: Seq<char>)
    requires
        lower(trim(line)) == seq!['p', 'o', 'n', 'g'],
    ensures
        reply_of(line) == ClientReply::Connected,
{
    assert(lower(trim(line)).len() == 4);
    assert(lower(trim(line)) != seq!['o', 'k']);
}

} // verus!
