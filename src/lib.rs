//! A single-user ledger store: journal entries kept in append order, with
//! store-assigned identifiers, recomputed totals and soft deletion. The store
//! decides what is kept and what a backing file holds, record by record; the
//! caller reads and writes that file and encodes the records.
pub mod date;
pub mod entry;
pub mod store;
pub mod laws;
pub mod framing;
pub mod amount;
