//! Physical and virtual memory management for a small x86_64 kernel,
//! together with the descriptor tables it is booted with, its scheduler,
//! and what it shows on its screen and sends over its serial line.

pub mod bump_alloc;
pub mod cpuio;
pub mod interrupts;
pub mod memory;
pub mod scheduler;
pub mod tap;
pub mod vga_buffer;
pub mod vmm;
