pub mod ata;
pub mod filesystem;
pub mod memory_disk;
pub mod serial;
