//! Core Foundation.
pub mod cf_string;
