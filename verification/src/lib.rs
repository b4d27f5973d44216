//! Parsing and validation of network resource identifiers.
//!
//! The crate recognises URIs according to the RFC 3986 grammar, including
//! IPv4 and IPv6 literal hosts, and performs Internationalized Domain Name
//! processing according to Unicode TR46: per-codepoint mapping, NFC
//! normalization, label validity with contextual joiner rules, Bidi label
//! rules, and Punycode transcoding.

pub mod bidi;
pub mod chars;
pub mod conformance;
pub mod idna;
pub mod ipv4;
pub mod ipv6;
pub mod joiners;
pub mod labels;
pub mod mapping;
pub mod parse;
pub mod percent_encode;
pub mod unicode_data;
pub mod uri;
