# streaming_quotes

A quote streaming service. Clients subscribe to tickers over TCP with
`STREAM <udp_addr> <ticker,...>` and keep their subscription alive with
`PING <udp_addr>`; the server answers `OK`, `PONG` or `ERR: ...` and sends
quote lines `<ticker>|<price>|<volume>|<timestamp_ms>` over UDP to every
subscriber of a ticker, dropping subscribers that stay silent for twenty
seconds.

- `src/` is the library, verified with Verus: text handling (`text`,
  `numbers`), socket addresses (`addr`), the protocol (`protocol`), ticker
  lists (`tickers`), the subscriber table (`registry`), and the decisions of
  the TCP and UDP sides (`net::handler`, `receiver`). Each public function
  states its result exactly; the `law_*` proof functions state what holds
  across functions (reading a written command, address or quote line gives
  it back; what the subscriber table keeps and routes).
- `tests/` runs the library, partly against the standard library's own
  parsers.
- `app/` holds the two programs (`server` and `client` subcommands): sockets,
  threads, files, the clock, floats, and the types with `serde`, `clap` and
  `thiserror` derives.
