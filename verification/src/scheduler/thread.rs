//! A thread of the kernel: its stack, its saved context while it waits, and
//! the time it has left.

use vstd::prelude::*;
use crate::interrupts::context::{Context, ExceptionStackFrame, Regs, CONTEXT_SIZE};
use crate::memory::stack_allocator::{Stack, StackError};
use crate::memory::{stack_allocated, PAGE_SIZE};
use crate::vmm::{alloc_stack, VMM};

verus! {

/// The number of ticks that a thread may run before another gets its turn.
pub const TICKS: u8 = 10;

/// The code segment of the kernel.
pub const KERNEL_CODE_SEGMENT: u64 = 0b1000;

/// The flags that a thread starts with: interrupts enabled, and the bit
/// that is always set.
pub const INITIAL_CPU_FLAGS: u64 = 0x202;

/// The number of bytes of a return address.
pub const RETURN_SLOT_SIZE: u64 = 8;

/// What a thread is doing.
#[derive(Debug, Clone, Copy, PartialEq, Eq, Structural)]
pub enum State {
    Running,
    Ready,
    Sleeping,
}

/// A thread of the kernel.
#[derive(Debug)]
pub struct KThread {
    /// The number of the thread.
    pub id: usize,
    /// The stack of the thread.
    pub stack: Stack,
    /// The address of the context that the thread left on its stack when it
    /// last stopped running; `None` while it runs.
    pub context: Option<u64>,
    /// The ticks that the thread has left to run or, while it sleeps, the
    /// ticks by which it wakes later than the sleeper before it.
    pub quanta: u8,
    /// What the thread is doing.
    pub state: State,
}

/// What has to lie on the stack of a new thread before it first runs.
#[derive(Debug, Clone, Copy, PartialEq, Eq, Structural)]
pub struct Launch {
    /// The address of the topmost word of the stack.
    pub return_slot: u64,
    /// The address that the word holds: where the thread goes when its
    /// function returns.
    pub return_address: u64,
    /// The address of the context below that word.
    pub context_address: u64,
    /// The context that the thread starts from.
    pub context: Context,
}

/// What has to lie on a stack with the given top for a thread that starts
/// at `start` and goes to `exit` when it returns.
pub open spec fn launch_spec(top: u64, start: u64, exit: u64) -> Launch {
    Launch {
        return_slot: (top - RETURN_SLOT_SIZE) as u64,
        return_address: exit,
        context_address: (top - RETURN_SLOT_SIZE - CONTEXT_SIZE) as u64,
        context: Context {
            regs: Regs::zeroed(),
            error_code: 0,
            stack_frame: ExceptionStackFrame {
                instruction_pointer: start,
                code_segment: KERNEL_CODE_SEGMENT,
                cpu_flags: INITIAL_CPU_FLAGS,
                stack_pointer: (top - RETURN_SLOT_SIZE) as u64,
                stack_segment: 0,
            },
        },
    }
}

/// What has to lie on a stack with the given top for a thread that starts
/// at `start` and goes to `exit` when it returns.
pub fn launch(top: u64, start: u64, exit: u64) -> (launch: Launch)
    requires
        top >= RETURN_SLOT_SIZE + CONTEXT_SIZE,
    ensures
        launch == launch_spec(top, start, exit),
{
    let stack_pointer = top - RETURN_SLOT_SIZE;
    let mut regs = Regs {
        r15: 0,
        r14: 0,
        r13: 0,
        r12: 0,
        r11: 0,
        r10: 0,
        r9: 0,
        r8: 0,
        rdi: 0,
        rsi: 0,
        rdx: 0,
        rcx: 0,
        rbx: 0,
        rbp: 0,
        rax: 0,
    };
    regs.zero();
    Launch {
        return_slot: stack_pointer,
        return_address: exit,
        context_address: stack_pointer - CONTEXT_SIZE,
        context: Context {
            regs,
            error_code: 0,
            stack_frame: ExceptionStackFrame {
                instruction_pointer: start,
                code_segment: KERNEL_CODE_SEGMENT,
                cpu_flags: INITIAL_CPU_FLAGS,
                stack_pointer,
                stack_segment: 0,
            },
        },
    }
}

/// The stack of the thread that came out, or why none did.
pub open spec fn stack_of(result: Result<(KThread, Launch), StackError>) -> Result<
    Stack,
    StackError,
> {
    match result {
        Ok((thread, _)) => Ok(thread.stack),
        Err(e) => Err(e),
    }
}

impl KThread {
    /// The thread after it stopped running with its context at the given
    /// address.
    pub open spec fn swapped_out(self, context: u64) -> KThread {
        KThread { context: Some(context), state: State::Ready, ..self }
    }

    /// The thread after it started to run, with a whole time slice.
    pub open spec fn swapped_in(self) -> KThread {
        KThread { context: None, state: State::Running, quanta: TICKS, ..self }
    }

    /// The thread with the given ticks left.
    pub open spec fn with_quanta(self, quanta: u8) -> KThread {
        KThread { quanta, ..self }
    }

    /// The thread asleep, with the given ticks left.
    pub open spec fn asleep(self, quanta: u8) -> KThread {
        KThread { state: State::Sleeping, quanta, ..self }
    }

    /// Creates a thread with the number `id` that starts at `start` and goes
    /// to `exit` when its function returns. Its stack of one page comes from
    /// the stack allocator of `vmm`. Returned with the thread is what has to
    /// lie on that stack before the thread first runs.
    ///
    /// Fails as the allocation of a stack of one page fails, and exactly
    /// then.
    pub fn new(vmm: &mut VMM, id: usize, start: u64, exit: u64) -> (result: Result<
        (KThread, Launch),
        StackError,
    >)
        requires
            old(vmm).wf(),
        ensures
            final(vmm).wf(),
            final(vmm)@ == old(vmm)@,
            stack_allocated(old(vmm).arch(), final(vmm).arch(), 1, stack_of(result)),
            old(vmm).arch().stack_allocator.range().remaining() < 2 ==> result == Err::<
                (KThread, Launch),
                StackError,
            >(StackError::NotEnoughPages),
            old(vmm).arch().stack_allocator.range().remaining() >= 2 ==> match result {
                Ok((thread, launch)) => {
                    &&& thread.id == id
                    &&& thread.stack.bottom_spec() == (
                    old(vmm).arch().stack_allocator.range().next_number() + 1) * PAGE_SIZE
                    &&& thread.stack.top_spec() == thread.stack.bottom_spec() + PAGE_SIZE
                    &&& thread.quanta == TICKS
                    &&& thread.state == State::Ready
                    &&& thread.context == Some(launch.context_address)
                    &&& launch == launch_spec(thread.stack.top_spec(), start, exit)
                },
                Err(e) => e is Mapping,
            },
    {
        match alloc_stack(vmm, 1) {
            Ok(stack) => {
                let on_stack = launch(stack.top(), start, exit);
                let thread = KThread {
                    id,
                    stack,
                    context: Some(on_stack.context_address),
                    quanta: TICKS,
                    state: State::Ready,
                };
                Ok((thread, on_stack))
            },
            Err(e) => Err(e),
        }
    }

    /// The thread that runs when the scheduler is made, on the given stack.
    pub fn main(id: usize, stack: Stack) -> (thread: KThread)
        ensures
            thread == (KThread {
                id,
                stack,
                context: None,
                quanta: TICKS,
                state: State::Running,
            }),
    {
        KThread { id, stack, context: None, quanta: TICKS, state: State::Running }
    }

    /// Takes this thread off the processor, with its context at the address
    /// `context`, and puts `other` on: `other` runs with a whole time slice,
    /// from its own saved context, whose address is returned.
    pub fn swap(&mut self, context: u64, other: &mut KThread) -> (next: u64)
        requires
            old(self).context.is_none(),
            old(other).context.is_some(),
        ensures
            *final(self) == old(self).swapped_out(context),
            *final(other) == old(other).swapped_in(),
            Some(next) == old(other).context,
    {
        self.context = Some(context);
        self.state = State::Ready;
        other.state = State::Running;
        other.quanta = TICKS;
        let next = other.context.unwrap();
        other.context = None;
        next
    }
}

} // verus!
