//! Various helpers for manipulating the registers

use crate::emulator::EmulatorState;
use vstd::prelude::*;

verus! {

/// Type of stack current code is executing in
#[derive(Debug, PartialEq, Eq, Clone, Copy, Structural)]
pub enum Stack {
    /// Thread-mode stack (PSP)
    Thread,
    /// Exception-mode stack (MSP)
    Exception,
}

/// A (user-controlled) PSP that (should) point to a `Context` structure
#[derive(Debug, PartialEq, Eq, Clone, Copy, Structural)]
pub struct UntrustedPsp(pub u32);

impl UntrustedPsp {
    /// Retrieves the PSP value, which is entirely user-controlled
    pub fn get(&self) -> (r: u32)
        ensures
            r == self.0,
    {
        self.0
    }
}

/// Returns the type of stack current code is executing in
pub fn current_stack(state: &EmulatorState) -> (r: Stack)
    ensures
        r == if state.in_exception {
            Stack::Exception
        } else {
            Stack::Thread
        },
{
    match crate::emulator::is_in_exception(state) {
        true => Stack::Exception,
        false => Stack::Thread,
    }
}

} // verus!
