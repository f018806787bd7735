use streaming_quotes::net::handler::process_line;
use streaming_quotes::protocol::command::{RequestCommand, Response};
use streaming_quotes::protocol::errors::CommandError;
use streaming_quotes::tickers::Tickers;
use streaming_quotes::ClientAddr;

fn names(v: &[&str]) -> Vec<String> {
    v.iter().map(|s| s.to_string()).collect()
}

fn v4(a: u8, b: u8, c: u8, d: u8, port: u16) -> ClientAddr {
    ClientAddr::V4 { ip: u32::from_be_bytes([a, b, c, d]), port }
}

#[test]
fn happy_path_test() {
    let got = RequestCommand::from_str("STREAM 127.0.0.1:9999 ADDR,TTM");
    assert!(got.is_ok());
    let got = got.unwrap();
    let want = RequestCommand::Stream {
        addr: v4(127, 0, 0, 1, 9999),
        tickers: "ADDR,TTM".split(",").map(String::from).collect(),
    };
    assert_eq!(got, want)
}

#[test]
fn unknown_command_test() {
    let got = RequestCommand::from_str("TEST 123.123.0.1:9999 APL");
    assert!(got.is_err());
    assert!(matches!(got.unwrap_err(), CommandError::UnknownCommand(_)));

    let got = RequestCommand::from_str("STREAM APL,TEST");
    assert!(got.is_err());
    assert!(matches!(got.unwrap_err(), CommandError::InvalidStreamArgs));

    let got = RequestCommand::from_str("STREAM 123.0.0 ALP");
    assert!(got.is_err());
    assert!(matches!(got.unwrap_err(), CommandError::InvalidUdpAddr));
}

#[test]
fn parse_client_sync() {
    let command = "STREAM 127.0.0.1:9999 APL,TTM";
    let got = RequestCommand::from_str(command);
    assert_eq!(command, got.unwrap().to_string())
}

#[test]
fn unknown_command_keeps_its_name() {
    assert_eq!(
        RequestCommand::from_str("TEST 1.2.3.4:5 A"),
        Err(CommandError::UnknownCommand("TEST".to_string()))
    );
    assert_eq!(
        RequestCommand::from_str("   "),
        Err(CommandError::UnknownCommand("No command specified".to_string()))
    );
    assert_eq!(
        RequestCommand::from_str("stream 1.2.3.4:5 A"),
        Err(CommandError::UnknownCommand("stream".to_string()))
    );
}

#[test]
fn stream_arguments_in_order() {
    assert_eq!(RequestCommand::from_str("STREAM x A B"), Err(CommandError::InvalidStreamArgs));
    assert_eq!(RequestCommand::from_str("STREAM x ,,,"), Err(CommandError::EmptyTicker));
    assert_eq!(RequestCommand::from_str("STREAM x A"), Err(CommandError::InvalidUdpAddr));
    assert_eq!(
        RequestCommand::from_str("\t STREAM   1.2.3.4:5   ,A,,B, \n"),
        Ok(RequestCommand::Stream { addr: v4(1, 2, 3, 4, 5), tickers: names(&["A", "B"]) })
    );
}

#[test]
fn ping_command() {
    assert_eq!(
        RequestCommand::from_str("PING 127.0.0.1:9000"),
        Ok(RequestCommand::Ping(v4(127, 0, 0, 1, 9000)))
    );
    assert_eq!(RequestCommand::from_str("PING"), Err(CommandError::InvalidPingArgs));
    assert_eq!(RequestCommand::from_str("PING a b"), Err(CommandError::InvalidPingArgs));
    assert_eq!(RequestCommand::from_str("PING nowhere"), Err(CommandError::InvalidUdpAddr));
    let ping = RequestCommand::Ping(v4(127, 0, 0, 1, 9000));
    assert_eq!(ping.to_string(), "PING 127.0.0.1:9000");
}

#[test]
fn command_line_roundtrip() {
    let cmd = RequestCommand::Stream {
        addr: ClientAddr::V6 { ip: 1, port: 80, flowinfo: 0, scope_id: 0 },
        tickers: names(&["X", "Y", "Z"]),
    };
    let line = cmd.to_string();
    assert_eq!(line, "STREAM [::1]:80 X,Y,Z");
    assert_eq!(RequestCommand::from_str(&line), Ok(cmd));
}

#[test]
fn process_line_accepts_known_tickers() {
    let known = Tickers::new(names(&["APL", "GPN"]));
    let req = Ok(RequestCommand::Stream { addr: v4(1, 1, 1, 1, 1), tickers: names(&["GPN", "APL"]) });
    assert_eq!(
        process_line(req, &known),
        Response::OK { addr: v4(1, 1, 1, 1, 1), ticks: names(&["GPN", "APL"]) }
    );
}

#[test]
fn process_line_refuses_unknown_tickers() {
    let known = Tickers::new(names(&["APL"]));
    let req = Ok(RequestCommand::Stream { addr: v4(1, 1, 1, 1, 1), tickers: names(&["X", "APL", "Y"]) });
    let got = process_line(req, &known);
    assert_eq!(got, Response::ERR(CommandError::UnknownTicker("X,Y".to_string())));
    assert_eq!(got.to_string(), "ERR: ticker X,Y not found in database\n");
}

#[test]
fn process_line_answers_ping_and_errors() {
    let known = Tickers::new(names(&["APL"]));
    let got = process_line(Ok(RequestCommand::Ping(v4(1, 2, 3, 4, 3))), &known);
    assert_eq!(got, Response::PONG(v4(1, 2, 3, 4, 3)));
    assert_eq!(got.to_string(), "PONG\n");
    let got = process_line(Err(CommandError::EmptyTicker), &known);
    assert_eq!(got, Response::ERR(CommandError::EmptyTicker));
    assert_eq!(got.to_string(), "ERR: empty ticker list\n");
    let ok = Response::OK { addr: v4(1, 2, 3, 4, 3), ticks: vec![] };
    assert_eq!(ok.to_string(), "OK\n");
}

#[test]
fn error_messages() {
    assert_eq!(CommandError::UnknownCommand("X".to_string()).message(), "command `X` not found");
    assert_eq!(CommandError::InvalidUdpAddr.message(), "invalid socket address syntax");
    assert_eq!(
        CommandError::InvalidStreamArgs.message(),
        "invalid STREAM args. Use STREAM <udp_addr> <ticker...>"
    );
    assert_eq!(CommandError::InvalidPingArgs.message(), "invalid PING args. Use PING <udp_addr>");
    assert_eq!(CommandError::EmptyTicker.message(), "empty ticker list");
    assert_eq!(
        CommandError::UnknownTicker("A,B".to_string()).message(),
        "ticker A,B not found in database"
    );
}
