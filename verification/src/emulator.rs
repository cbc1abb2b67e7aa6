//! The processor, as far as privileges and stacks go
//!
//! The processor runs privileged or not, in thread mode or in an exception,
//! and has two stack pointers, of which it uses one at a time: that of the
//! thread outside exceptions, that of the exceptions inside.

use vstd::prelude::*;

verus! {

/// What the processor is doing
#[derive(Debug, PartialEq, Eq, Clone, Copy, Structural)]
pub struct EmulatorState {
    /// Whether the code that runs is privileged
    pub privileged: bool,
    /// Whether an exception is being handled
    pub in_exception: bool,
    /// The stack pointer that is not in use
    pub other_sp: usize,
}

/// What can be asked of the processor
#[derive(Debug, PartialEq, Eq, Clone, Copy, Structural)]
pub enum EmulatorCall {
    /// Return from what the processor was made to call
    DowncallReturn,
    /// Whether an exception is being handled
    IsInException,
    /// Drop privileges
    DropPrivileges,
    /// Whether the code that runs is privileged
    IsPrivileged,
    /// Get the stack pointer of the thread
    CurrentPsp,
    /// Set the stack pointer of the thread
    SetPsp,
    /// Syscall
    Syscall,
}

impl EmulatorCall {
    /// The number of the call.
    pub open spec fn number_spec(&self) -> usize {
        match self {
            EmulatorCall::DowncallReturn => 0,
            EmulatorCall::IsInException => 1,
            EmulatorCall::DropPrivileges => 2,
            EmulatorCall::IsPrivileged => 3,
            EmulatorCall::CurrentPsp => 4,
            EmulatorCall::SetPsp => 5,
            EmulatorCall::Syscall => 6,
        }
    }

    /// Converts an integer into an `EmulatorCall` if possible.
    pub fn from_usize(x: usize) -> (r: Option<EmulatorCall>)
        ensures
            match r {
                Some(c) => c.number_spec() == x,
                None => x > 6,
            },
    {
        match x {
            0 => Some(EmulatorCall::DowncallReturn),
            1 => Some(EmulatorCall::IsInException),
            2 => Some(EmulatorCall::DropPrivileges),
            3 => Some(EmulatorCall::IsPrivileged),
            4 => Some(EmulatorCall::CurrentPsp),
            5 => Some(EmulatorCall::SetPsp),
            6 => Some(EmulatorCall::Syscall),
            _ => None,
        }
    }

    /// The number of the call
    pub fn number(&self) -> (r: usize)
        ensures
            r == self.number_spec(),
    {
        match self {
            EmulatorCall::DowncallReturn => 0,
            EmulatorCall::IsInException => 1,
            EmulatorCall::DropPrivileges => 2,
            EmulatorCall::IsPrivileged => 3,
            EmulatorCall::CurrentPsp => 4,
            EmulatorCall::SetPsp => 5,
            EmulatorCall::Syscall => 6,
        }
    }
}

impl EmulatorState {
    /// The processor as it starts: privileged, in thread mode.
    pub fn new() -> (s: EmulatorState)
        ensures
            s == (EmulatorState { privileged: true, in_exception: false, other_sp: 0 }),
    {
        EmulatorState { privileged: true, in_exception: false, other_sp: 0 }
    }
}

/// Whether this is the emulated processor: it is
pub fn in_emulator() -> (r: bool)
    ensures
        r,
{
    true
}

/// Is the processor handling an exception?
pub fn is_in_exception(state: &EmulatorState) -> (r: bool)
    ensures
        r == state.in_exception,
{
    state.in_exception
}

/// Drops privileges: from now on the thread runs unprivileged, on the stack
/// it was on, and exceptions on the stack `interrupt_stack`. This is done
/// from privileged code in thread mode.
pub fn drop_privileges(state: &mut EmulatorState, interrupt_stack: usize)
    requires
        !old(state).in_exception,
        old(state).privileged,
    ensures
        *final(state) == (EmulatorState {
            privileged: false,
            in_exception: false,
            other_sp: interrupt_stack,
        }),
{
    state.privileged = false;
    state.other_sp = interrupt_stack;
}

/// Is the code that runs privileged?
pub fn is_privileged(state: &EmulatorState) -> (r: bool)
    ensures
        r == state.privileged,
{
    state.privileged
}

/// The stack pointer of the thread, which is the one not in use while an
/// exception is handled
pub fn current_psp(state: &EmulatorState) -> (r: usize)
    requires
        state.in_exception,
    ensures
        r == state.other_sp,
{
    state.other_sp
}

/// Sets the stack pointer of the thread, while an exception is handled
pub fn set_psp(state: &mut EmulatorState, psp: usize)
    requires
        old(state).in_exception,
    ensures
        *final(state) == (EmulatorState { other_sp: psp, ..*old(state) }),
{
    state.other_sp = psp;
}

/// Enters the exception of a syscall from the thread, whose stack pointer is
/// `sp` once the processor has saved its registers: the processor is
/// privileged then and on the stack of the exceptions, whose pointer is
/// returned.
pub fn syscall(state: &mut EmulatorState, sp: usize) -> (r: usize)
    requires
        !old(state).in_exception,
    ensures
        r == old(state).other_sp,
        *final(state) == (EmulatorState { privileged: true, in_exception: true, other_sp: sp }),
{
    let handler_sp = state.other_sp;
    state.privileged = true;
    state.in_exception = true;
    state.other_sp = sp;
    handler_sp
}

/// Leaves the exception of a syscall, whose stack pointer is `sp`: the
/// thread runs again, unprivileged, on its stack, whose pointer is returned.
pub fn syscall_return(state: &mut EmulatorState, sp: usize) -> (r: usize)
    requires
        old(state).in_exception,
    ensures
        r == old(state).other_sp,
        *final(state) == (EmulatorState { privileged: false, in_exception: false, other_sp: sp }),
{
    let thread_sp = state.other_sp;
    state.privileged = false;
    state.in_exception = false;
    state.other_sp = sp;
    thread_sp
}

} // verus!
