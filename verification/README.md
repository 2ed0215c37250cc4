# wyrd-sync

The synchronisation core of a decentralised, append-only, content-addressed
drive, verified with Verus.

- `src/` is the library. Everything in it is verified: the runtime state and
  its fetch plan, control-plane intake, fetching and admitting sealed bytes,
  the sealed-object envelope, the mailbox, node addresses, route publication
  and the serving surface. Files ending in `laws.rs`, and the functions whose
  names begin with `law_`, state what holds across operations.
- `tests/` runs the library, with the real cryptography linked.
- `app/` is ordinary Rust around the library: the vault on disk, live node
  addresses, randomness, error texts, and the loops that carry out what the
  library decides.

The cryptography (XChaCha20-Poly1305, secp256k1, NIP-44), the check of node
ids and the parsing of relay URLs come from other crates. Each call stands in
one small function in `src/seal.rs`, `src/transport/mailbox.rs` or
`src/transport/addr.rs`, whose comment says what is taken on trust.

The object format, that is hashing, canonical encodings and limits, is handed
in by the caller as functions.
