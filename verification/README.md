# ciruela (verified core)

The logic of ciruela's image signing, upload tracking, connection
bookkeeping and hardlink selection, with contracts proved by Verus.

- `src/cbor.rs`: the CBOR bytes that a signature covers (path, image id,
  timestamp), and the proof that these bytes determine all three.
- `src/signature.rs`, `src/sig_order.rs`: signatures, signing and checking
  with Ed25519 keys, rebuilding a signature from its serialized parts, and
  the byte order of signatures with its laws.
- `src/ed25519.rs`: the calls into `rust-crypto` and `base64`.
- `src/upload.rs`, `src/progress.rs`: the decisions of an upload and the
  progress tracker that the client feeds with notifications.
- `src/remote.rs`: incoming/outgoing connections and image declarations.
- `src/hardlink.rs`: which stored images lend files to a new one, and which
  files are linked.
- `app/`: serde forms of signatures, conversions from `ssh_keys` keys and
  socket addresses, and the printing side of the progress tracker.
