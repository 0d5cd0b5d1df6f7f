//! Verified core of a small HTTP(S) diagnostic client.
//!
//! The library normalizes loosely formatted URL text into a canonical
//! `{hostname, is_https, path}` record, builds the request line that a
//! transport sends, classifies raw response bytes by their status line,
//! and aggregates the outcomes of repeated request attempts into
//! latency, error-code, and response-size statistics.
//!
//! The transport itself (sockets, TLS) and the command line are outside
//! the library; they exchange plain values with it.

pub mod http;
pub mod profile;
pub mod url;
