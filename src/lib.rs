//! Selective protection of labelled regions of text documents.
//!
//! A document is read into a tree of blocks (`doc`), whose regions are
//! planned for fetching, decrypting, encrypting and storing (`transform`).
//! Protected payloads have a one-line text form (`prot`), stored bodies
//! live under digest-derived names (`cas`), and the cryptographic choices
//! are gated by policies (`policy`) and mapped onto botan's algorithms
//! (`crypto`, with derivation parameters in `params`). `options` reads the
//! values of command-line options.

pub mod cas;
pub mod crypto;
pub mod doc;
pub mod options;
pub mod params;
pub mod policy;
pub mod prot;
pub mod text;
pub mod transform;
