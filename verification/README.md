# lbroker

A publish/subscribe broker over msgpack, whose decision logic is verified with Verus.

## Layout

- `src/` — the verified library.
  - `glob_tree.rs`: a tree of glob patterns (`*` for any run of characters, the empty one
    included, `?` for exactly one) that counts how often each pattern was inserted; a
    string is matched when some stored pattern matches it, every branch being searched.
  - `broker_glob_tree.rs`: the broker's pattern tree, where only `*` is a wildcard, and the
    rule that admits system topics (those starting with `!`) only through patterns that
    start with `!`.
  - `subscription_tree.rs`: per-client subscriptions built on that tree.
  - `pattern_counts.rs`: how insertion and removal change the reference counts of a tree,
    stated on the maps of counts alone.
  - `broker.rs`: the topic registry (each topic with its last message) and the topics one
    connection receives.
  - `processor.rs`: which messages a connection forwards and where client commands go.
  - `datagram.rs`: messages, commands, datagrams and the framing decisions of the codec.
  - `metrics.rs`: throughput and count metrics and their topics.
  - `buffer_config.rs`: write-buffer presets, flush decisions and the server's command line
    settings.
- `app/` — the executable: TCP servers, the client, channels and serialization.
- `tests/` — tests of the library.
