//! Framework functions that guest programs call.
pub mod core_foundation;
