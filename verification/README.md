# immutable_ledger

A double-entry ledger whose journal entries are hash-chained with SHA-256 and
whose account balances are committed to by a Merkle root, with its rules
proved in Verus.

- `src/` is the verified library: `types` (amounts, account identifiers,
  journal entries and their hash), `merkle` (the balance tree, its root and
  balance proofs), `ledger` (which postings are accepted, what a committed
  posting does, and the check of a stored hash chain), `hashing` (byte
  encodings and the SHA-256 call) and `text` (decimal rendering for
  rejection messages).
- `app/` keeps what the library leaves to its caller: the SQLite store, the
  lock, the clock, and serde/`Display` forms of the library's types. A
  posting is prepared by the library, stored by `app/`, then committed.
- `tests/` exercises the library on concrete values.
