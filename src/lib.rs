pub mod frameworks;
pub mod libc;
pub mod mem;
