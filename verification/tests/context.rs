use mcu_runtime::constants::{ram_begin, ram_size};
use mcu_runtime::context::{
    current_context, for_remotecall, in_current_context, init_contexts,
    is_readable_from_current_context, is_writable_from_current_context, pop, push,
    remote_call_enter, send_result, switch_to_heap, switch_userland, AtomicContextID, ContextID,
    ContextMetadata, Contexts, TopOfStack,
};
use mcu_runtime::context_ll::{
    Context, Frames, CONTEXT_SIZE, END_OF_REMOTE_CALL, START_OF_REMOTE_CALL,
};
use mcu_runtime::contextallocator::{allocate_contexts, AllocatableContext};
use mcu_runtime::emulator::EmulatorState;
use mcu_runtime::mpu::Mpu;
use mcu_runtime::mpu_ll::{PROT_NONE, PROT_READ, PROT_WRITE};
use mcu_runtime::ram::Ram;

const ENTRY: [usize; 3] = [0x0806_1000, 0x0806_2000, 0x0806_3000];
const INTERRUPT_STACK: usize = 0x2000_0000 + 0x18000;

fn regs(r0: usize) -> Context {
    Context { r0, r1: 1, r2: 2, r3: 3, r12: 12, lr: 0x0806_0010, pc: 0x0806_0020, psr: 0x0100_0000 }
}

/// Three contexts, of which the first runs, unprivileged
fn booted() -> Contexts {
    let mut ram = Ram::new(ram_begin(), ram_size());
    let mut mpu = Mpu::get();
    mpu.setup();
    mpu.setup_unpriv_regions();
    mpu.switch_userland(ram_begin(), 0x20000);
    let c: Vec<AllocatableContext> =
        ENTRY.iter().map(|&entrypoint| AllocatableContext { entrypoint }).collect();
    let meta = allocate_contexts(&mut ram, &c);
    let mut state = Contexts::new(EmulatorState::new(), mpu);
    assert!(!state.is_initialised());
    assert_eq!(state.count(), 0);
    init_contexts(&mut state, meta);
    assert!(state.is_initialised());
    assert_eq!(state.count(), 3);
    state.drop_privileges(INTERRUPT_STACK);
    state
}

#[test]
fn top_of_stack_pushes_and_pops() {
    let mut frames = Frames::new();
    let mut top = TopOfStack::empty(0x1000, 0x1000 + 3 * CONTEXT_SIZE);
    assert_eq!(top.saved_context(), None);
    assert!(top.has_room());
    top.push_context(&mut frames, regs(1));
    assert_eq!(top.saved_context(), Some(0x1000 + 2 * CONTEXT_SIZE));
    top.push_context(&mut frames, regs(2));
    top.push_context(&mut frames, regs(3));
    assert_eq!(top.saved_context(), Some(0x1000));
    assert!(!top.has_room());
    assert_eq!(frames.get(0x1000), Some(regs(3)));
    assert_eq!(frames.get(0x1000 + CONTEXT_SIZE), Some(regs(2)));
    assert_eq!(frames.get(0x1000 + 2 * CONTEXT_SIZE), Some(regs(1)));
    assert_eq!(frames.get(0x1000 + 1), None);
    let top = top.pop_context();
    assert_eq!(top.saved_context(), Some(0x1000 + CONTEXT_SIZE));
    // The last context of a stack leaves it empty, and so does the one
    // before it
    let top = top.pop_context();
    assert_eq!(top, TopOfStack::empty(0x1000, 0x1000 + 3 * CONTEXT_SIZE));
    assert_eq!(top.please_clone(), top);
    assert!(!TopOfStack::empty(0, 0).has_room());
    assert!(!TopOfStack::empty(0x1000, 0x1000 + CONTEXT_SIZE - 1).has_room());
}

#[test]
fn frames_keep_the_last_that_was_saved() {
    let mut frames = Frames::new();
    frames.set(8, regs(1));
    frames.set(40, regs(2));
    frames.set(8, regs(3));
    assert_eq!(frames.get(8), Some(regs(3)));
    assert_eq!(frames.get(40), Some(regs(2)));
    assert_eq!(frames.get(9), None);
}

#[test]
fn context_ids() {
    let state = booted();
    assert_eq!(ContextID::zero().id(), 0);
    assert_eq!(ContextID::from_id_unchecked(7).id(), 7);
    assert_eq!(ContextID::new(&state, 2).id(), 2);
    let mut a = AtomicContextID::zero();
    assert_eq!(a.id(), 0);
    a.set(ContextID::from_id_unchecked(3));
    assert_eq!(a.id(), 3);
    assert_eq!(a.ctxid(), ContextID::from_id_unchecked(3));
    assert_eq!(state.current().id(), 0);
}

#[test]
fn remote_call_frame() {
    let f = for_remotecall(0x0806_2000, 1, 32, 21);
    assert_eq!(
        f,
        Context {
            r0: 0x0806_2000,
            r1: 1,
            r2: 32,
            r3: 21,
            r12: 0x6612_0712,
            lr: END_OF_REMOTE_CALL,
            pc: START_OF_REMOTE_CALL,
            psr: 0x0100_0000,
        }
    );
}

#[test]
fn range_of_the_current_context() {
    let mut state = Contexts::new(EmulatorState::new(), Mpu::get());
    // Before the contexts are initialized the range is empty
    assert!(!in_current_context(&state, 5, 10));
    assert!(!in_current_context(&state, usize::MAX, 10));
    assert!(!in_current_context(&state, 0, 1));
    assert!(in_current_context(&state, 0, 0));
    assert!(!is_writable_from_current_context(&state, 0x2000_0000, 4));
    let meta = vec![ContextMetadata {
        remote_call_enter: 0,
        begin: 0x2000_8000,
        size: 0x8000,
        top_of_stack: TopOfStack::empty(0x2000_8000, 0x2000_C000),
        heap_begin: 0x2000_C000,
        heap_size: 0x4000,
    }];
    init_contexts(&mut state, meta);
    assert!(in_current_context(&state, 0x2000_8000, 0x8000));
    assert!(in_current_context(&state, 0x2000_FFFF, 1));
    assert!(in_current_context(&state, 0x2000_8000, 0));
    assert!(!in_current_context(&state, 0x2000_8000, 0x8001));
    assert!(!in_current_context(&state, 0x2000_7FFF, 1));
    assert!(!in_current_context(&state, 0x2001_0000, 1));
    assert!(!in_current_context(&state, 0x2000_8000, usize::MAX));
    assert!(!in_current_context(&state, usize::MAX, 1));
    assert!(is_writable_from_current_context(&state, 0x2000_9000, 16));
    assert!(!is_writable_from_current_context(&state, 0x0806_0000, 16));
    assert!(is_readable_from_current_context(&state, 0x2000_9000, 16));
    assert!(is_readable_from_current_context(&state, 0x0806_0000, 0x20000));
    assert!(!is_readable_from_current_context(&state, 0x0806_0000, 0x20001));
    assert!(!is_readable_from_current_context(&state, 0x0805_FFFF, 2));
    assert!(!is_readable_from_current_context(&state, 0x0806_0000, usize::MAX));
    assert!(!is_readable_from_current_context(&state, 0x2000_0000, 4));
}

#[test]
fn heap_of_the_current_context() {
    let mut state = booted();
    assert_eq!(state.current_heap_bottom(), 0x2000_1000);
    assert_eq!(state.current_heap_size(), 0x1000);
    switch_to_heap(&mut state, ContextID::from_id_unchecked(1));
    assert_eq!(state.current_heap_bottom(), 0x2000_C000);
    assert_eq!(state.current_heap_size(), 0x4000);
    switch_to_heap(&mut state, ContextID::from_id_unchecked(2));
    assert_eq!(state.current_heap_bottom(), 0x2001_4000);
    switch_to_heap(&mut state, ContextID::zero());
    assert_eq!(state.current_heap_bottom(), 0x2000_1000);
    assert_eq!(remote_call_enter(&state, ContextID::from_id_unchecked(1)), ENTRY[1]);
}

#[test]
fn processor_saves_and_restores_the_registers() {
    let mut state = booted();
    let sp = 0x2000_3F00;
    assert_eq!(state.leave_exception(0), None);
    assert_eq!(state.enter_exception(CONTEXT_SIZE - 1, regs(0)), None);
    let handler_sp = state.enter_exception(sp, regs(5)).unwrap();
    assert_eq!(handler_sp, INTERRUPT_STACK);
    assert!(state.cpu().privileged && state.cpu().in_exception);
    assert_eq!(state.enter_exception(sp, regs(5)), None);
    assert_eq!(state.frames().get(sp - CONTEXT_SIZE), Some(regs(5)));
    let here = current_context(&state);
    assert_eq!(here.saved_context(), Some(sp - CONTEXT_SIZE));
    assert!(send_result(&mut state, 99, &here));
    assert_eq!(state.leave_exception(handler_sp), Some((regs(99), sp)));
    assert!(!state.cpu().privileged && !state.cpu().in_exception);
    assert_eq!(state.cpu().other_sp, INTERRUPT_STACK);
}

#[test]
fn push_and_pop_switch_contexts() {
    let mut state = booted();
    let sp0 = 0x2000_3F00;
    let handler_sp = state.enter_exception(sp0, regs(0)).unwrap();
    let one = ContextID::new(&state, 1);
    push(&mut state, one, for_remotecall(ENTRY[1], 0, 12, 23));
    assert_eq!(state.current().id(), 1);
    assert_eq!(state.depth(), 1);
    assert_eq!(state.caller(), Some(ContextID::zero()));
    assert_eq!(state.metadata(0).unwrap().top_of_stack.saved_context(), Some(sp0 - CONTEXT_SIZE));
    assert_eq!(
        state.metadata(1).unwrap().top_of_stack.saved_context(),
        Some(0x2000_C000 - CONTEXT_SIZE)
    );
    switch_userland(&mut state, one);
    assert!(in_current_context(&state, 0x2000_8000, 0x8000));
    assert!(!in_current_context(&state, 0x2000_3F00, 4));
    assert_eq!(state.mpu().allows_addr(false, 0x2000_8000), PROT_READ | PROT_WRITE);
    assert_eq!(state.mpu().allows_addr(false, 0x2000_3F00), PROT_NONE);
    assert_eq!(state.mpu().allows_addr(false, 0x2001_0000), PROT_NONE);
    // The called context starts from the context that was made for it
    let (r, sp1) = state.leave_exception(handler_sp).unwrap();
    assert_eq!(r, for_remotecall(ENTRY[1], 0, 12, 23));
    assert_eq!(sp1, 0x2000_C000);
    // It returns by a syscall, which the processor saves the registers of
    let handler_sp = state.enter_exception(sp1, regs(42)).unwrap();
    pop(&mut state);
    assert_eq!(state.current().id(), 0);
    assert_eq!(state.depth(), 0);
    assert_eq!(state.caller(), None);
    assert_eq!(state.metadata(1).unwrap().top_of_stack, TopOfStack::empty(0x2000_8000, 0x2000_C000));
    assert_eq!(state.mpu().allows_addr(false, 0x2000_3F00), PROT_READ | PROT_WRITE);
    assert!(in_current_context(&state, 0x2000_3F00, 4));
    let here = current_context(&state);
    assert!(send_result(&mut state, 42, &here));
    assert_eq!(state.leave_exception(handler_sp), Some((regs(42), sp0)));
}

#[test]
fn boot_sets_the_contexts_up() {
    let mut ram = Ram::new(ram_begin(), ram_size());
    ram.fill(ram_begin(), ram_size(), 0x33);
    let c: Vec<AllocatableContext> =
        ENTRY.iter().map(|&entrypoint| AllocatableContext { entrypoint }).collect();
    let state = mcu_runtime::ffi::mpu_init(&mut ram, &c, INTERRUPT_STACK).unwrap();
    assert_eq!(state.count(), 3);
    assert_eq!(state.current().id(), 0);
    assert_eq!(state.depth(), 0);
    assert_eq!(*state.cpu(), EmulatorState {
        privileged: false,
        in_exception: false,
        other_sp: INTERRUPT_STACK,
    });
    assert!(state.mpu().ready());
    assert_eq!(state.mpu().allows_addr(false, 0x2000_3F00), PROT_READ | PROT_WRITE);
    assert_eq!(state.mpu().allows_addr(false, 0x2001_FFFF), PROT_READ | PROT_WRITE);
    assert_eq!(state.mpu().allows_addr(false, 0x2002_0000), PROT_NONE);
    // The range of the context 0 is the whole memory, the shared data too
    assert_eq!(state.mpu().allows_addr(false, 0x2000_0000), PROT_READ | PROT_WRITE);
    assert!(in_current_context(&state, 0x2000_0000, 0x20000));
    assert_eq!(state.metadata(1).unwrap().begin, 0x2000_8000);
    assert_eq!(state.metadata(2).unwrap().remote_call_enter, ENTRY[2]);
    assert_eq!(state.metadata(3), None);
    assert_eq!(ram.read(0x2000_8000 - 1, 2), [0x33, 0]);
    // One context is not enough, and 0x1001 are too many for the unit to
    // protect the range of each
    assert!(mcu_runtime::ffi::mpu_init(&mut ram, &c[..1], INTERRUPT_STACK).is_none());
    let many = vec![AllocatableContext { entrypoint: 0 }; 0x1001];
    assert!(mcu_runtime::ffi::mpu_init(&mut ram, &many, INTERRUPT_STACK).is_none());
    assert_eq!(ram.read(0x2000_8000 - 1, 2), [0x33, 0]);
    let four = mcu_runtime::ffi::mpu_init_javacard(&mut ram, [1, 2, 3, 4], 0x2001_7000).unwrap();
    assert_eq!(four.count(), 4);
    assert_eq!(four.metadata(3).unwrap().remote_call_enter, 4);
    // 0x14000 bytes for three: 0x4000 each
    assert_eq!(four.metadata(3).unwrap().begin, 0x2000_4000 + 2 * 0x4000);
    assert_eq!(four.metadata(3).unwrap().size, 0x4000);
}


#[test]
fn stack_and_heap_lie_in_the_range_of_their_context() {
    let good = ContextMetadata {
        remote_call_enter: 0,
        begin: 0x2000_8000,
        size: 0x8000,
        top_of_stack: TopOfStack::empty(0x2000_8000, 0x2000_C000),
        heap_begin: 0x2000_C000,
        heap_size: 0x4000,
    };
    assert!(good.is_ranged());
    assert!(good.is_wf());
    // A heap that ends one byte after the range
    assert!(!ContextMetadata { heap_size: 0x4001, ..good }.is_wf());
    assert!(ContextMetadata { heap_size: 0x4001, ..good }.is_ranged());
    // A heap that begins before the range
    assert!(!ContextMetadata { heap_begin: 0x2000_7FFF, heap_size: 1, ..good }.is_wf());
    // A stack that begins before the range, or ends after it
    let low = TopOfStack::empty(0x2000_7FFC, 0x2000_C000);
    assert!(!ContextMetadata { top_of_stack: low, ..good }.is_wf());
    let high = TopOfStack::empty(0x2000_8000, 0x2001_0004);
    assert!(!ContextMetadata { top_of_stack: high, ..good }.is_wf());
    assert!(ContextMetadata { top_of_stack: TopOfStack::empty(0x2000_8000, 0x2001_0000), ..good }
        .is_wf());
    // A stack that ends before it begins
    let crossed = TopOfStack::empty(0x2000_C000, 0x2000_8000);
    assert!(!ContextMetadata { top_of_stack: crossed, ..good }.is_wf());
    // A range that the unit cannot protect
    assert!(!ContextMetadata { begin: 0x2000_8010, ..good }.is_ranged());
    assert!(!ContextMetadata { begin: 0x2000_8010, ..good }.is_wf());
}

#[test]
fn calls_keep_each_stack_in_the_range_of_its_context() {
    let mut state = booted();
    for i in 0..3 {
        assert!(state.metadata(i).unwrap().is_wf());
    }
    state.enter_exception(0x2000_3F00, regs(0)).unwrap();
    let one = ContextID::new(&state, 1);
    push(&mut state, one, for_remotecall(ENTRY[1], 0, 12, 23));
    switch_userland(&mut state, one);
    for i in 0..3 {
        assert!(state.metadata(i).unwrap().is_wf());
    }
    // The called context runs from a processor context in its own range
    assert!(in_current_context(&state, state.cpu().other_sp, CONTEXT_SIZE));
    assert_eq!(state.cpu().other_sp, 0x2000_C000 - CONTEXT_SIZE);
    pop(&mut state);
    for i in 0..3 {
        assert!(state.metadata(i).unwrap().is_wf());
    }
}
