//! Pieces of the C standard library that guest programs call.
pub mod generic_char;
pub mod stdlib;
