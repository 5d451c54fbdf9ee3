# crypto-market

Services around a crypto market data feed: a replay server that answers
WebSocket subscriptions and history requests, a recorder that stores the
messages of a channel in day files, a QUIC publisher, a multicast relay and
an integration service that crawls exchanges and publishes their messages.

`src/` is the verified library (Verus): the rules and data structures of
these services, each with its contract.

- `text`: strings as character sequences, splitting, decimal parsing and
  formatting.
- `assoc`: association lists and the maps they stand for.
- `json`: JSON string quoting and base64, through `serde_json` and `base64`.
- `market`: market data arguments, request parameters and the path of a
  market data file.
- `config`: the configuration of the replay service and the registry of
  subscription tasks that follows the dynamic configuration file.
- `replay`: the subscription book of the replay server and its replies.
- `socket`: session ids, WebSocket frames and commands, history requests.
- `naming`: channel, address and writer names.
- `record`: the record file format, its reader, record paths, and the set
  of files the record writer keeps open.
- `quic`: address validation tokens, the connection decision, the topic
  subscription table and partial stream responses of the publisher.
- `msg_type`: decoding the binary market messages.
- `integration`: the candlestick intervals of a crawl, which records of a
  crawled message are kept, and their routing to writer channels, each
  opened once.

`app/` is the unverified part: `main` functions, sockets, files, threads,
timers and the outside crates' I/O. It hands the library plain values and
acts on what comes back.

`tests/` runs the library on concrete values.
