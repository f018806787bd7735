use streaming_quotes::net::handler::{classify_reply, handle_response, ClientReply};
use streaming_quotes::protocol::command::Response;
use streaming_quotes::protocol::errors::CommandError;
use streaming_quotes::protocol::quote::StockQuote;
use streaming_quotes::registry::STATE_TIMEOUT_NANOS;
use streaming_quotes::{ClientAddr, Registry};

fn v4(port: u16) -> ClientAddr {
    ClientAddr::V4 { ip: 0x7f000001, port }
}

fn names(v: &[&str]) -> Vec<String> {
    v.iter().map(|s| s.to_string()).collect()
}

fn quote(ticker: &str) -> StockQuote {
    StockQuote { ticker: ticker.to_string(), price: "1".to_string(), volume: 1, timestamp_ms: 1 }
}

fn sorted(mut v: Vec<ClientAddr>) -> Vec<ClientAddr> {
    v.sort_by_key(|a| match a {
        ClientAddr::V4 { port, .. } => *port,
        ClientAddr::V6 { port, .. } => *port,
    });
    v
}

#[test]
fn route_reaches_subscribers_of_the_ticker() {
    let mut reg = Registry::new();
    reg.register(v4(1), names(&["A", "B"]), 0);
    reg.register(v4(2), names(&["B"]), 0);
    reg.register(v4(3), names(&["C", "C"]), 0);
    assert_eq!(sorted(reg.route(&quote("B"))), vec![v4(1), v4(2)]);
    assert_eq!(reg.route(&quote("A")), vec![v4(1)]);
    assert_eq!(reg.route(&quote("C")), vec![v4(3)]);
    assert!(reg.route(&quote("D")).is_empty());
}

#[test]
fn register_replaces_a_subscription() {
    let mut reg = Registry::new();
    reg.register(v4(1), names(&["A"]), 0);
    reg.register(v4(1), names(&["B"]), 5);
    assert!(reg.route(&quote("A")).is_empty());
    assert_eq!(reg.route(&quote("B")), vec![v4(1)]);
}

#[test]
fn unregister_removes() {
    let mut reg = Registry::new();
    reg.register(v4(1), names(&["A"]), 0);
    reg.register(v4(2), names(&["A"]), 0);
    reg.unregister(v4(1));
    reg.unregister(v4(9));
    assert_eq!(reg.route(&quote("A")), vec![v4(2)]);
}

#[test]
fn clear_stale_drops_silent_subscribers() {
    let mut reg = Registry::new();
    reg.register(v4(1), names(&["A"]), 0);
    reg.register(v4(2), names(&["A"]), 10);
    reg.clear_stale(STATE_TIMEOUT_NANOS - 1);
    assert_eq!(sorted(reg.route(&quote("A"))), vec![v4(1), v4(2)]);
    reg.clear_stale(STATE_TIMEOUT_NANOS);
    assert_eq!(reg.route(&quote("A")), vec![v4(2)]);
    reg.update_ping(v4(2), STATE_TIMEOUT_NANOS + 5);
    reg.clear_stale(2 * STATE_TIMEOUT_NANOS);
    assert_eq!(reg.route(&quote("A")), vec![v4(2)]);
    reg.clear_stale(3 * STATE_TIMEOUT_NANOS);
    assert!(reg.route(&quote("A")).is_empty());
}

#[test]
fn clock_going_back_counts_as_no_time() {
    let mut reg = Registry::new();
    reg.register(v4(1), names(&["A"]), 1_000);
    reg.clear_stale(0);
    assert_eq!(reg.route(&quote("A")), vec![v4(1)]);
}

#[test]
fn ping_of_unknown_subscriber_changes_nothing() {
    let mut reg = Registry::new();
    reg.update_ping(v4(1), 5);
    assert!(reg.route(&quote("A")).is_empty());
}

#[test]
fn handle_response_applies_answers() {
    let v6 = ClientAddr::V6 { ip: 1, port: 7, flowinfo: 0, scope_id: 0 };
    let mut reg = Registry::new();
    handle_response(&mut reg, Response::OK { addr: v6, ticks: names(&["A"]) }, 0);
    assert_eq!(reg.route(&quote("A")), vec![v6]);
    handle_response(&mut reg, Response::ERR(CommandError::EmptyTicker), 0);
    assert_eq!(reg.route(&quote("A")), vec![v6]);
    handle_response(&mut reg, Response::PONG(v6), STATE_TIMEOUT_NANOS);
    reg.clear_stale(STATE_TIMEOUT_NANOS + 1);
    assert_eq!(reg.route(&quote("A")), vec![v6]);
}

#[test]
fn replies() {
    assert_eq!(classify_reply("OK\n"), ClientReply::Registered);
    assert_eq!(classify_reply(" ok "), ClientReply::Registered);
    assert_eq!(classify_reply("PoNg\r\n"), ClientReply::Connected);
    assert_eq!(classify_reply(" \n"), ClientReply::Empty);
    assert_eq!(classify_reply("ERR: empty ticker list\n"), ClientReply::Other);
    assert_eq!(classify_reply("OKAY"), ClientReply::Other);
}

#[test]
fn default_table_is_empty() {
    let reg = Registry::default();
    assert!(reg.route(&quote("A")).is_empty());
}
