use esalp::interrupts::context::{Regs, CONTEXT_SIZE};
use esalp::memory::area_frame_allocator::MemoryArea;
use esalp::memory::boot::{init, BootInformation, ElfSection};
use esalp::memory::stack_allocator::{Stack, StackError};
use esalp::memory::{KERNEL_BASE, PAGE_SIZE};
use esalp::scheduler::thread::{launch, KThread, State, TICKS};
use esalp::scheduler::{
    add, sched_exit, sched_sleep, sched_yield, sleep_handler, tick, Scheduler,
};
use esalp::vmm::{alloc_stack, VMM};

const MAIN_STACK: u64 = 0x9000;
const IDLE_CONTEXT: u64 = 0x1_0f00;

fn waiting(id: usize) -> KThread {
    let base = 0x10_0000 + 0x1000 * id as u64;
    KThread {
        id,
        stack: Stack::new(base + 0x1000, base),
        context: Some(base + 0xf00),
        quanta: TICKS,
        state: State::Ready,
    }
}

fn context_of(id: usize) -> u64 {
    0x10_0000 + 0x1000 * id as u64 + 0xf00
}

fn scheduler() -> Scheduler {
    let main = KThread::main(0, Stack::new(0xa000, 0x8000));
    let idle = KThread {
        id: 1,
        stack: Stack::new(0x1_1000, 0x1_0000),
        context: Some(IDLE_CONTEXT),
        quanta: TICKS,
        state: State::Ready,
    };
    Scheduler::new(main, idle)
}

fn ready(scheduler: &Scheduler) -> Vec<usize> {
    (0..scheduler.ready_count()).map(|i| scheduler.ready_id(i).unwrap()).collect()
}

fn sleepers(scheduler: &Scheduler) -> Vec<(usize, u8)> {
    (0..scheduler.sleeping_count()).map(|i| scheduler.sleeper(i).unwrap()).collect()
}

fn vmm() -> VMM {
    let boot = BootInformation {
        start_address: KERNEL_BASE + 0x108000,
        end_address: KERNEL_BASE + 0x108800,
        memory_areas: vec![MemoryArea { base_addr: 0x100000, length: 0x2000000 - 0x100000 }],
        sections: vec![ElfSection {
            addr: KERNEL_BASE + 0x100000,
            size: 0x8000,
            allocated: true,
            writable: true,
            executable: true,
            init: false,
        }],
        modules: Vec::new(),
        root: 0x105000,
    };
    VMM::new(init(&boot).unwrap())
}

#[test]
fn main_thread_runs_first() {
    let main = KThread::main(7, Stack::new(0xa000, 0x8000));
    assert_eq!(main.id, 7);
    assert_eq!(main.context, None);
    assert_eq!(main.quanta, 10);
    assert_eq!(main.state, State::Running);
    let scheduler = scheduler();
    assert_eq!(scheduler.running(), Some(0));
    assert_eq!(scheduler.ready_count(), 0);
    assert_eq!(scheduler.sleeping_count(), 0);
    assert_eq!(scheduler.ready_id(0), None);
    assert_eq!(scheduler.sleeper(0), None);
}

#[test]
fn launch_puts_return_address_and_context_below_the_top() {
    let on_stack = launch(0x5000, 0x1234, 0x5678);
    assert_eq!(on_stack.return_slot, 0x5000 - 8);
    assert_eq!(on_stack.return_address, 0x5678);
    assert_eq!(on_stack.context_address, 0x5000 - 8 - 168);
    assert_eq!(CONTEXT_SIZE, 168);
    let frame = on_stack.context.stack_frame;
    assert_eq!(frame.instruction_pointer, 0x1234);
    assert_eq!(frame.code_segment, 8);
    assert_eq!(frame.cpu_flags, 0x202);
    assert_eq!(frame.stack_pointer, 0x5000 - 8);
    assert_eq!(frame.stack_segment, 0);
    assert_eq!(on_stack.context.error_code, 0);
    assert_eq!(on_stack.context.regs.rax, 0);
    assert_eq!(on_stack.context.regs.r15, 0);
}

#[test]
fn zero_clears_every_register() {
    let mut regs = Regs {
        r15: 1,
        r14: 2,
        r13: 3,
        r12: 4,
        r11: 5,
        r10: 6,
        r9: 7,
        r8: 8,
        rdi: 9,
        rsi: 10,
        rdx: 11,
        rcx: 12,
        rbx: 13,
        rbp: 14,
        rax: 15,
    };
    regs.zero();
    let zero = Regs {
        r15: 0,
        r14: 0,
        r13: 0,
        r12: 0,
        r11: 0,
        r10: 0,
        r9: 0,
        r8: 0,
        rdi: 0,
        rsi: 0,
        rdx: 0,
        rcx: 0,
        rbx: 0,
        rbp: 0,
        rax: 0,
    };
    assert_eq!(regs, zero);
}

#[test]
fn new_thread_gets_a_stack_of_one_page() {
    let mut vmm = vmm();
    let (thread, on_stack) = KThread::new(&mut vmm, 3, 0x4000, 0x6000).unwrap();
    assert_eq!(thread.id, 3);
    assert_eq!(thread.quanta, TICKS);
    assert_eq!(thread.state, State::Ready);
    assert_eq!(thread.stack.top() - thread.stack.bottom(), PAGE_SIZE);
    assert_eq!(thread.context, Some(thread.stack.top() - 176));
    assert_eq!(on_stack, launch(thread.stack.top(), 0x4000, 0x6000));
    assert!(vmm.translate(thread.stack.top() - 8).is_some());
    let (second, _) = KThread::new(&mut vmm, 4, 0x4000, 0x6000).unwrap();
    assert_eq!(second.stack.bottom(), thread.stack.top() + PAGE_SIZE);
}

#[test]
fn new_thread_fails_without_pages_for_its_stack() {
    let mut vmm = vmm();
    alloc_stack(&mut vmm, 99).unwrap();
    assert_eq!(KThread::new(&mut vmm, 3, 0x4000, 0x6000).err(), Some(StackError::NotEnoughPages));
    let mut scheduler = scheduler();
    assert_eq!(
        add(&mut scheduler, &mut vmm, 3, 0x4000, 0x6000).err(),
        Some(StackError::NotEnoughPages)
    );
    assert_eq!(scheduler.ready_count(), 0);
}

#[test]
fn add_lets_a_new_thread_wait() {
    let mut vmm = vmm();
    let mut scheduler = scheduler();
    let on_stack = add(&mut scheduler, &mut vmm, 5, 0x4000, 0x6000).unwrap();
    assert_eq!(ready(&scheduler), vec![5]);
    assert_eq!(scheduler.running(), Some(0));
    assert_eq!(sched_yield(&mut scheduler, MAIN_STACK), on_stack.context_address);
    assert_eq!(scheduler.running(), Some(5));
}

#[test]
fn swap_hands_the_processor_over() {
    let mut main = KThread::main(0, Stack::new(0xa000, 0x8000));
    main.quanta = 3;
    let mut other = waiting(2);
    other.quanta = 1;
    other.state = State::Sleeping;
    assert_eq!(main.swap(MAIN_STACK, &mut other), context_of(2));
    assert_eq!(main.context, Some(MAIN_STACK));
    assert_eq!(main.state, State::Ready);
    assert_eq!(main.quanta, 3);
    assert_eq!(other.context, None);
    assert_eq!(other.state, State::Running);
    assert_eq!(other.quanta, TICKS);
}

#[test]
fn yield_goes_round_in_turn() {
    let mut scheduler = scheduler();
    scheduler.push(waiting(2));
    scheduler.push(waiting(3));
    assert_eq!(sched_yield(&mut scheduler, MAIN_STACK), context_of(2));
    assert_eq!(scheduler.running(), Some(2));
    assert_eq!(ready(&scheduler), vec![3, 0]);
    assert_eq!(sched_yield(&mut scheduler, 0x2222), context_of(3));
    assert_eq!(ready(&scheduler), vec![0, 2]);
    assert_eq!(sched_yield(&mut scheduler, 0x3333), MAIN_STACK);
    assert_eq!(scheduler.running(), Some(0));
    assert_eq!(sched_yield(&mut scheduler, MAIN_STACK), 0x2222);
    assert_eq!(ready(&scheduler), vec![3, 0]);
}

#[test]
fn yield_with_nobody_waiting_runs_the_idle_thread() {
    let mut scheduler = scheduler();
    assert_eq!(sched_yield(&mut scheduler, MAIN_STACK), IDLE_CONTEXT);
    assert_eq!(scheduler.running(), None);
    assert_eq!(ready(&scheduler), vec![0]);
}

#[test]
fn exit_drops_the_running_thread() {
    let mut scheduler = scheduler();
    scheduler.push(waiting(2));
    assert_eq!(sched_exit(&mut scheduler, MAIN_STACK), context_of(2));
    assert_eq!(scheduler.running(), Some(2));
    assert_eq!(scheduler.ready_count(), 0);
    assert_eq!(scheduler.sleeping_count(), 0);
    assert_eq!(sched_exit(&mut scheduler, 0x2222), IDLE_CONTEXT);
    assert_eq!(scheduler.running(), None);
    assert_eq!(scheduler.ready_count(), 0);
}

#[test]
fn sleepers_are_kept_by_the_ticks_between_them() {
    let mut scheduler = scheduler();
    for id in 2..6 {
        scheduler.push(waiting(id));
    }
    assert_eq!(sched_sleep(&mut scheduler, MAIN_STACK, 5), context_of(2));
    assert_eq!(sleepers(&scheduler), vec![(0, 5)]);
    assert_eq!(sched_sleep(&mut scheduler, 0x2222, 8), context_of(3));
    assert_eq!(sleepers(&scheduler), vec![(0, 5), (2, 3)]);
    assert_eq!(sched_sleep(&mut scheduler, 0x3333, 2), context_of(4));
    assert_eq!(sleepers(&scheduler), vec![(3, 2), (0, 3), (2, 3)]);
    assert_eq!(sched_sleep(&mut scheduler, 0x4444, 5), context_of(5));
    assert_eq!(sleepers(&scheduler), vec![(3, 2), (0, 3), (4, 0), (2, 3)]);
    assert_eq!(sched_sleep(&mut scheduler, 0x5555, 7), IDLE_CONTEXT);
    assert_eq!(sleepers(&scheduler), vec![(3, 2), (0, 3), (4, 0), (5, 2), (2, 1)]);
    assert_eq!(scheduler.running(), None);
    assert_eq!(scheduler.ready_count(), 0);
}

#[test]
fn tick_wakes_the_sleepers_that_are_due() {
    let mut scheduler = scheduler();
    for id in 2..5 {
        scheduler.push(waiting(id));
    }
    sched_sleep(&mut scheduler, MAIN_STACK, 2);
    sched_sleep(&mut scheduler, 0x2222, 2);
    sched_sleep(&mut scheduler, 0x3333, 3);
    assert_eq!(sleepers(&scheduler), vec![(0, 2), (2, 0), (3, 1)]);
    assert_eq!(scheduler.running(), Some(4));
    assert_eq!(tick(&mut scheduler, 0x4444), 0x4444);
    assert_eq!(sleepers(&scheduler), vec![(0, 1), (2, 0), (3, 1)]);
    assert_eq!(scheduler.ready_count(), 0);
    assert_eq!(tick(&mut scheduler, 0x4444), 0x4444);
    assert_eq!(sleepers(&scheduler), vec![(3, 1)]);
    assert_eq!(ready(&scheduler), vec![0, 2]);
    assert_eq!(tick(&mut scheduler, 0x4444), 0x4444);
    assert_eq!(sleepers(&scheduler), vec![]);
    assert_eq!(ready(&scheduler), vec![0, 2, 3]);
    assert_eq!(scheduler.running(), Some(4));
}

#[test]
fn tick_ends_a_turn_after_ten_ticks() {
    let mut scheduler = scheduler();
    scheduler.push(waiting(2));
    for _ in 0..9 {
        assert_eq!(tick(&mut scheduler, MAIN_STACK), MAIN_STACK);
        assert_eq!(scheduler.running(), Some(0));
    }
    assert_eq!(tick(&mut scheduler, MAIN_STACK), context_of(2));
    assert_eq!(scheduler.running(), Some(2));
    assert_eq!(ready(&scheduler), vec![0]);
    for _ in 0..9 {
        assert_eq!(tick(&mut scheduler, 0x2222), 0x2222);
    }
    assert_eq!(tick(&mut scheduler, 0x2222), MAIN_STACK);
    assert_eq!(scheduler.running(), Some(0));
    assert_eq!(ready(&scheduler), vec![2]);
}

#[test]
fn tick_gives_way_to_the_idle_thread_and_back() {
    let mut scheduler = scheduler();
    for _ in 0..9 {
        assert_eq!(tick(&mut scheduler, MAIN_STACK), MAIN_STACK);
    }
    assert_eq!(tick(&mut scheduler, MAIN_STACK), IDLE_CONTEXT);
    assert_eq!(scheduler.running(), None);
    assert_eq!(ready(&scheduler), vec![0]);
    for _ in 0..9 {
        assert_eq!(tick(&mut scheduler, 0x1_0e00), 0x1_0e00);
        assert_eq!(scheduler.running(), None);
    }
    assert_eq!(tick(&mut scheduler, 0x1_0e00), MAIN_STACK);
    assert_eq!(scheduler.running(), Some(0));
    assert_eq!(scheduler.ready_count(), 0);
    assert_eq!(sched_yield(&mut scheduler, MAIN_STACK), 0x1_0e00);
}

#[test]
fn idle_thread_goes_on_when_nobody_waits() {
    let mut scheduler = scheduler();
    assert_eq!(sched_exit(&mut scheduler, MAIN_STACK), IDLE_CONTEXT);
    for _ in 0..25 {
        assert_eq!(tick(&mut scheduler, 0x1_0e00), 0x1_0e00);
        assert_eq!(scheduler.running(), None);
        assert_eq!(scheduler.ready_count(), 0);
    }
    scheduler.push(waiting(2));
    let mut switched = 0;
    for _ in 0..5 {
        if tick(&mut scheduler, 0x1_0e00) == context_of(2) {
            break;
        }
        switched += 1;
    }
    assert_eq!(switched, 4);
    assert_eq!(scheduler.running(), Some(2));
}

#[test]
fn every_thread_stays_through_yield_sleep_and_tick() {
    let mut scheduler = scheduler();
    for id in 2..6 {
        scheduler.push(waiting(id));
    }
    let mut stack = MAIN_STACK;
    for round in 0..60u8 {
        stack = match round % 3 {
            0 => sched_yield(&mut scheduler, stack),
            1 if scheduler.running().is_some() => sched_sleep(&mut scheduler, stack, round % 7 + 1),
            _ => tick(&mut scheduler, stack),
        };
        while scheduler.running().is_none() {
            stack = tick(&mut scheduler, stack);
        }
        let mut all = ready(&scheduler);
        all.extend(sleepers(&scheduler).iter().map(|sleeper| sleeper.0));
        all.extend(scheduler.running());
        all.sort();
        assert_eq!(all, vec![0, 2, 3, 4, 5]);
    }
}

#[test]
fn sleep_handler_yields_or_sleeps() {
    let mut scheduler = scheduler();
    scheduler.push(waiting(2));
    scheduler.push(waiting(3));
    assert_eq!(sleep_handler(&mut scheduler, MAIN_STACK, 0), context_of(2));
    assert_eq!(ready(&scheduler), vec![3, 0]);
    assert_eq!(scheduler.sleeping_count(), 0);
    assert_eq!(sleep_handler(&mut scheduler, 0x2222, 4), context_of(3));
    assert_eq!(ready(&scheduler), vec![0]);
    assert_eq!(sleepers(&scheduler), vec![(2, 4)]);
    assert_eq!(sleep_handler(&mut scheduler, 0x3333, 0x1_0000_0103), MAIN_STACK);
    assert_eq!(sleepers(&scheduler), vec![(3, 3), (2, 1)]);
}
