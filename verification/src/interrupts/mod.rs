//! The descriptor tables of the processor and the interrupt controllers, as
//! far as they are data: what their entries hold, bit by bit.

pub mod bitfield;
pub mod context;
pub mod gdt;
pub mod idt;
pub mod keyboard;
pub mod pic;
