pub mod bit;
pub mod bump;
pub mod frames;
pub mod layout;
pub mod memory;
pub mod region;
pub mod slab;
pub mod ring_buffer;
pub mod uart;
pub mod input;
pub mod console;
pub mod dtb;
pub mod board;
pub mod mmu;
pub mod heap;
pub mod zhemon;
pub mod exception;
pub mod gic;
pub mod timer;
pub mod context;
pub mod sched;
