pub mod bitset;
pub mod malloc;
pub mod serial;
