# terminox

The verified core of a desktop SSH/SFTP client, written in Verus.

- `src/` — the library, every function verified:
  - `config` — saved server, folder and port-forward settings; keepalive
    and address derivation.
  - `ssh_config_parser` — import of `Host` blocks from an OpenSSH client
    configuration, with its full semantics as a spec.
  - `credential_escrow` — single-use, expiring password tokens.
  - `metrics_store` — bounded per-server metrics history.
  - `session` — batching of terminal input, buffering of terminal output,
    authentication verdicts, event names.
  - `sftp` — remote paths, directory listings in display order, file
    metadata, request validation.
  - `text` — Unicode trimming, decimal rendering, `u16` parsing.
- `app/` — the I/O around it: serde forms of the types, locks, the SSH and
  SFTP connections (russh, russh-sftp, tokio), file access.
- `tests/` — tests of the library on concrete values.

## Collections

The escrow and the metrics store keep their records in a `Vec` with unique
keys (an invariant of each type) and are viewed as a `Map`. A `HashMap`
keyed by `String` was not used: vstd specifies `HashMap` only for key types
that it knows obey its hash-table model, and `String` is not among them, so
nothing could be proved of the map's contents. The metrics history per
server is a `VecDeque`, which vstd specifies.
