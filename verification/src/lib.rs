//! Management of XDG `mimeapps.list` associations: MIME identifiers mapped to
//! ordered, deduplicated handler lists, with deterministic canonicalization of
//! MIME aliases and a verified parser and serializer for the file grammar.
pub mod order;
pub mod ident;
pub mod error;
pub mod table;
pub mod canon;
pub mod codec;
pub mod config;
