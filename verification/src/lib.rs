//! Resolves MAC addresses to vendor names against an OUI database.
//!
//! `mac` normalizes MAC-like strings to their lowercase hex-digit form;
//! `db` parses the line-oriented OUI database format and performs
//! prefix lookups against a normalized query.

pub mod db;
pub mod mac;
