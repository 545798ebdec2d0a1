use vstd::prelude::*;

pub mod bits;
pub mod memory;
pub mod rand;
pub mod std_lib;
pub mod keyboard;
pub mod input;
pub mod interrupts;
pub mod trap;
pub mod gdt;
pub mod text;
pub mod scheduler;
pub mod shell;
pub mod disk;
pub mod elf;
pub mod le;
pub mod memory_disk;
pub mod program_runner;
