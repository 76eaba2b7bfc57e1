//! What the processor and the handlers' entry code leave on the stack when
//! an interrupt arrives: the registers, an error code and the frame that the
//! processor returns by.

use vstd::prelude::*;

verus! {

/// The number of bytes that a context takes on the stack: fifteen registers,
/// the error code and the five words of the stack frame.
pub const CONTEXT_SIZE: u64 = 168;

/// The general registers, as the entry code of a handler pushes them.
#[derive(Debug, Clone, Copy, PartialEq, Eq, Structural)]
pub struct Regs {
    pub r15: u64,
    pub r14: u64,
    pub r13: u64,
    pub r12: u64,
    pub r11: u64,
    pub r10: u64,
    pub r9: u64,
    pub r8: u64,
    pub rdi: u64,
    pub rsi: u64,
    pub rdx: u64,
    pub rcx: u64,
    pub rbx: u64,
    pub rbp: u64,
    pub rax: u64,
}

impl Regs {
    /// Registers that all hold zero.
    pub open spec fn zeroed() -> Regs {
        Regs {
            r15: 0,
            r14: 0,
            r13: 0,
            r12: 0,
            r11: 0,
            r10: 0,
            r9: 0,
            r8: 0,
            rdi: 0,
            rsi: 0,
            rdx: 0,
            rcx: 0,
            rbx: 0,
            rbp: 0,
            rax: 0,
        }
    }

    /// Sets every register to zero.
    pub fn zero(&mut self)
        ensures
            *final(self) == Regs::zeroed(),
    {
        self.r15 = 0;
        self.r14 = 0;
        self.r13 = 0;
        self.r12 = 0;
        self.r11 = 0;
        self.r10 = 0;
        self.r9 = 0;
        self.r8 = 0;
        self.rdi = 0;
        self.rsi = 0;
        self.rdx = 0;
        self.rcx = 0;
        self.rbx = 0;
        self.rbp = 0;
        self.rax = 0;
    }
}

/// The frame that the processor pushes when an interrupt arrives, and by
/// which it returns.
#[derive(Debug, Clone, Copy, PartialEq, Eq, Structural)]
pub struct ExceptionStackFrame {
    pub instruction_pointer: u64,
    pub code_segment: u64,
    pub cpu_flags: u64,
    pub stack_pointer: u64,
    pub stack_segment: u64,
}

/// All that lies on the stack when a handler runs.
#[derive(Debug, Clone, Copy, PartialEq, Eq, Structural)]
pub struct Context {
    pub regs: Regs,
    pub error_code: u64,
    pub stack_frame: ExceptionStackFrame,
}

} // verus!
