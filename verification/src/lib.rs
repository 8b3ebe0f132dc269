//! A double-entry ledger whose journal entries are hash-chained and whose
//! account balances are committed to by a Merkle root.
//!
//! `types` holds amounts, account identifiers and journal entries,
//! `merkle` the balance tree and its proofs, `ledger` the posting rules,
//! `hashing` the byte encodings and the SHA-256 digest they are hashed with,
//! and `text` the decimal rendering used in rejection messages.

pub mod hashing;
pub mod text;
pub mod types;
pub mod merkle;
pub mod ledger;
