//! Longest-prefix-match lookup over sequences of bits.
//!
//! Two interchangeable table implementations share one idea: insert a batch
//! of bit sequences, then ask for the longest inserted sequence that is a
//! prefix of a query.  [`trie::BinaryTrie`] answers in a single pass over the
//! query; [`linear::LinearLookup`] scans every stored entry and serves as a
//! simple oracle to check the trie against.  Both satisfy the shared
//! [`table::LookUpTable`] contract, [`oracle`] proves where their answers
//! coincide, and [`codec`] converts between bit sequences and textual
//! `0`/`1` strings.

pub mod bits;
pub mod codec;
pub mod errors;
pub mod linear;
pub mod oracle;
pub mod table;
pub mod trie;
