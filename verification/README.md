# mosh_client

A wire-compatible Mosh client core whose protocol logic is verified with Verus.

## Layout

- `src/` is the verified library. Its functions carry `requires` / `ensures`
  contracts that Verus proves, with one exception: the few small wrappers
  marked `#[verifier::external_body]` that call `ocb3`, `miniz_oxide`,
  `base64`, `zeroize` and `unicode-width`. Their contracts are taken on trust
  from those crates' sources and documentation, and each says in its doc
  comment what it claims. The modules:
  - `bootstrap` parses the `MOSH CONNECT` record that `mosh-server` prints;
  - `crypto` and `packet` seal and open authenticated datagrams (AES-128 OCB3
    through the `ocb3` crate), with a replay window per direction;
  - `fragment` splits instructions into fragments and reassembles them within
    fixed limits;
  - `protobuf` and `instruction` encode and decode transport instructions and
    client differences, compressed with `miniz_oxide`;
  - `terminal` decodes host differences and holds the per-cell scalar budget
    and repaint rules;
  - `timing`, `synchronization`, `reachability` and `prediction` are the state
    machines of state synchronization, retransmission, reachability reports,
    and local echo prediction;
  - `states` keeps the authoritative states by number, and `driver` is the
    protocol core that a Session's event loop drives with datagrams, commands,
    and the time;
  - `fuzzing` runs the untrusted-input parsers and the state machines on
    arbitrary bytes, with their resource bounds proved.
- `tests/` runs the library on concrete values.
- `app/` is the asynchronous Session API on tokio, with vt100 screens for the
  terminal states; it calls the verified core for every protocol decision.
  Verus has no `Drop`, so the library offers explicit `zeroize` methods: app/
  clears the bootstrap's copy of the key as soon as the core holds its own,
  and the Session driver clears the core's copies (`zeroize_keys`) when it is
  dropped.
