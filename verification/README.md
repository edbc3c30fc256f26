# tokio_experiments

Small futures/tokio programs with their logic verified in Verus.

- `src/` — the verified library:
  - `codec`: newline delimited UTF-8 line codec over `bytes::BytesMut`
    (round trip and in-order decoding proved against vstd's UTF-8 model);
  - `buffer`: the `BytesMut` operations the codec uses, as trusted wrappers;
  - `generator`: Fibonacci (`u128`, completes before overflow) and
    powers-of-two generators;
  - `poll`: hand written futures and streams as poll state machines;
  - `peers`: the connection table of a websocket broadcast server;
  - `service`: echo and reversing line services, line termination, the
    listen-address argument.
- `app/` — the programs: event loops, sockets, threads and printing, with
  the `futures`, `tokio-io`, `tokio-proto` and `tokio-service` trait impls.
- `tests/` — tests of the library, including the tokio-core driven futures.
