//! A small utility for reading and writing simple line-oriented
//! configuration files bound to strongly typed field schemas.
//!
//! A configuration file is UTF-8 text, one field per line, in the form
//! `name=value` with no whitespace trimming, quoting, or escaping. The
//! codec maps an ordered schema of named, typed fields to that format and
//! back, reporting malformed lines, missing fields, and type-parse
//! failures precisely.

pub mod codec;
pub mod config;
pub mod error;
pub mod laws;
pub mod numeric;
pub mod schema;
