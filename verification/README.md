# waterfall

The signal path of a packet-radio waterfall, written and proved in Verus: VITA 49
datagrams in, spectrogram rows out, and the bookkeeping that keeps every loss
visible on the way.

## Layout

- `src/` is the library. Everything in it is verified.
  - `vita49.rs` – datagrams: header, payload, timestamps, and loss tracking.
  - `stft.rs` – framing of a sample stream into overlapping windows, incrementally
    and in one batch. The transform itself is a function that the caller supplies.
  - `consumer.rs` – datagrams to rows.
  - `publish.rs` – rows on the wire, and the latest-wins buffer in front of it.
  - `receiver.rs` – decisions of the consumer: counts, logging, capture,
    publication, inspection, configuration.
  - `bridge.rs` – state of the web tier: history of rows, freshness, answers,
    configuration.
  - `cli.rs`, `text.rs` – flags and the text handling they need.
  - `parallel.rs` – the thread pool.
- `app/` is the ordinary Rust around it: sockets, HTTP, JSON, and floating point.
  One executable holds both programs: under the name `waterfall-consumer` it is the
  consumer, under any other the bridge.
- `tests/` runs the library, with a real transform where one is needed.

Powers and frequencies are type parameters of the library, so that it says nothing
about floating-point numbers; the programs use `f32` and `f64` for them. Samples are
the 16-bit integers that arrive on the wire.

## What is stated

Each module ends with its laws, as proof functions: that cutting a stream into calls
or packets changes no window, that unusable datagrams do not disturb it, that gap
counts are exactly the gaps reported, that every datagram and every row is accounted
for, that the newest rows win, that no flag is silently ignored, and that a dead feed
goes stale.

Two calls are believed rather than proved: the parallel map of `rayon` in
`parallel.rs`, and `str::parse` in `cli.rs`. What is believed of them stands above
each.
