# x2clip core

Clipboard history for two machines, synchronised end to end encrypted
through a store-and-forward mailbox bucket. The library in `src/` is
verified with Verus; `app/` is the command line around it.

- `store` – the history table: deduplication by content hash, the send
  queue, the mailbox keys already taken in, listing, search and pruning.
- `retention` – the bound pruning guarantees: at most `MAX_ITEMS` unpinned
  items, none older than `MAX_AGE_MS`.
- `watcher` – one clipboard poll and its echo guard.
- `sync` – the payload, sending the queue and taking in the inbox.
- `wire` – the JSON text of a payload, written and read byte for byte.
- `crypto` – Argon2id key derivation and XSalsa20-Poly1305 sealing (dryoc).
- `mailbox`, `clip` – the two traits the program implements, HTTP error
  classification, LIST parsing (rusty-s3), SHA-256 content hashes (sha2).
- `config` – checks and values derived from `config.toml`.
- `tray`, `text` – tray states and previews.

`app/` holds what touches the outside world: the SQLite file, the system
clipboard, the R2 HTTP client, the config file and its permissions, and the
poll loop.
