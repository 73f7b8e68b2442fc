//! Conversion between CBOR's binary encoding and its diagnostic notation
//! (EDN): a data model for CBOR values, a decoder and an encoder for the
//! binary form, a parser and a serializer for the textual form, and
//! rewrite passes that turn recognized tags into application-oriented
//! literals and back.
pub mod api;
pub mod binary;
pub mod decode;
pub mod encode;
pub mod errors;
pub mod items;
pub mod parse_exec;
pub mod rewrite;
pub mod roundtrip;
pub mod text_in;
pub mod text_out;
pub mod utf8;
