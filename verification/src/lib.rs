//! Core building blocks for an Archive.org client: identifier validation,
//! path and header helpers, item and file selection, authentication,
//! account and catalog records, configuration merging and metadata patches.
//!
//! The library's own functions carry contracts that Verus proves. The calls
//! into std and the outside crates (serde_json, json-patch, glob, chrono,
//! urlencoding) stand in small trusted wrappers marked
//! `#[verifier::external_body]`, whose contracts Verus takes as given; the
//! few that only convert values for such a call have none.

pub mod errors;
pub mod identifier;
pub mod strings;
pub mod strmap;
pub mod json;
pub mod interop;
pub mod utils;
pub mod search;
pub mod session;
pub mod auth;
pub mod item;
pub mod catalog;
pub mod config;
pub mod account;
pub mod iarequest;
