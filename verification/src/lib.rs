//! An authoritative DNS responder that answers A and AAAA queries by
//! decoding an IPv4 or IPv6 address embedded in the queried name's labels
//! (dotted, hyphenated, or hex-encoded), serves a fixed NS record with its
//! glue address for its own name, and falls back to an SOA record for
//! every other name.
//!
//! The protocol engine is pure: `query::parse_query` decodes the raw
//! query, `ip_parser::interpret_ip` extracts an embedded address, the
//! encoders in `response` build the reply byte for byte, and
//! `query::handle_query_internal` sequences the three. The transport
//! around it supplies raw bytes and a `config::Config`.

pub mod addr;
pub mod config;
pub mod ip_parser;
pub mod laws;
pub mod query;
pub mod response;
pub mod text;
