//! Handle stack switches

use crate::emulator::EmulatorState;
use vstd::prelude::*;

verus! {

/// Type for a remote call handler function: the address of its code
pub type RemoteCallEnter = usize;

/// Context saved and restored by hardware during an interrupt, especially
/// during a syscall.
#[derive(Debug, PartialEq, Eq, Clone, Copy, Structural)]
pub struct Context {
    /// First argument, and the result
    pub r0: usize,
    /// Second argument
    pub r1: usize,
    /// Third argument
    pub r2: usize,
    /// Fourth argument
    pub r3: usize,
    /// Scratch register
    pub r12: usize,
    /// Where the code that runs returns to
    pub lr: usize,
    /// Where the code that runs is
    pub pc: usize,
    /// Status of the program
    pub psr: usize,
}

/// Size that a saved context takes on a stack
pub const CONTEXT_SIZE: usize = 32;

/// Address of the code that starts a remote call: it calls the function at
/// its first argument with the other three
pub const START_OF_REMOTE_CALL: usize = 0x0806_0100;

/// Address of the code that ends a remote call: it hands what the called
/// function returned back to the calling context
pub const END_OF_REMOTE_CALL: usize = 0x0806_0200;

/// Marker left in the scratch register of the context of a remote call
pub const REMOTE_CALL_MARKER: usize = 0x6612_0712;

/// Status of a program that starts
pub const INITIAL_PSR: usize = 0x0100_0000;

/// The contexts saved on the stacks, each by its address
pub struct Frames {
    /// The addresses and the contexts, no address twice
    slots: Vec<(usize, Context)>,
}

/// No address occurs twice.
pub open spec fn distinct(s: Seq<(usize, Context)>) -> bool {
    forall|i: int, j: int| 0 <= i < j < s.len() ==> (#[trigger] s[i]).0 != (#[trigger] s[j]).0
}

/// Whether a context is saved at `addr`.
pub open spec fn saved(s: Seq<(usize, Context)>, addr: usize) -> bool {
    exists|i: int| 0 <= i < s.len() && (#[trigger] s[i]).0 == addr
}

/// Where the context saved at `addr` is.
pub open spec fn slot_of(s: Seq<(usize, Context)>, addr: usize) -> int {
    choose|i: int| 0 <= i < s.len() && (#[trigger] s[i]).0 == addr
}

/// The contexts by their addresses.
pub open spec fn frames_of(s: Seq<(usize, Context)>) -> Map<usize, Context> {
    Map::new(|a: usize| saved(s, a), |a: usize| s[slot_of(s, a)].1)
}

/// A context that is saved is found where it is.
pub proof fn lemma_slot(s: Seq<(usize, Context)>, i: int)
    requires
        distinct(s),
        0 <= i < s.len(),
    ensures
        saved(s, s[i].0),
        slot_of(s, s[i].0) == i,
        frames_of(s)[s[i].0] == s[i].1,
{
    let k = slot_of(s, s[i].0);
    if k < i {
        assert(s[k].0 != s[i].0);
    }
    if i < k {
        assert(s[i].0 != s[k].0);
    }
}

impl Frames {
    /// No address occurs twice.
    pub closed spec fn wf(&self) -> bool {
        distinct(self.slots@)
    }

    /// The contexts by their addresses.
    pub closed spec fn view(&self) -> Map<usize, Context> {
        frames_of(self.slots@)
    }

    /// No context is saved.
    pub fn new() -> (f: Frames)
        ensures
            f.wf(),
            f@ == Map::<usize, Context>::empty(),
    {
        let f = Frames { slots: Vec::new() };
        assert(f@ =~= Map::<usize, Context>::empty());
        f
    }

    /// Where `addr` is among the addresses, if it is.
    fn find(&self, addr: usize) -> (r: Option<usize>)
        requires
            self.wf(),
        ensures
            match r {
                Some(i) => i < self.slots@.len() && self.slots@[i as int].0 == addr,
                None => !saved(self.slots@, addr),
            },
    {
        let mut i: usize = 0;
        while i < self.slots.len()
            invariant
                i <= self.slots@.len(),
                forall|j: int| 0 <= j < i ==> (#[trigger] self.slots@[j]).0 != addr,
            decreases self.slots@.len() - i,
        {
            if self.slots[i].0 == addr {
                return Some(i);
            }
            i += 1;
        }
        None
    }

    /// The context saved at `addr`, if there is one
    pub fn get(&self, addr: usize) -> (r: Option<Context>)
        requires
            self.wf(),
        ensures
            r == if self@.contains_key(addr) {
                Some(self@[addr])
            } else {
                None
            },
    {
        match self.find(addr) {
            Some(i) => {
                proof {
                    lemma_slot(self.slots@, i as int);
                }
                Some(self.slots[i].1)
            },
            None => None,
        }
    }

    /// Saves a context at `addr`
    pub fn set(&mut self, addr: usize, ctxt: Context)
        requires
            old(self).wf(),
        ensures
            final(self).wf(),
            final(self)@ == old(self)@.insert(addr, ctxt),
    {
        let ghost before = self.slots@;
        match self.find(addr) {
            Some(i) => {
                self.slots[i] = (addr, ctxt);
                proof {
                    let after = self.slots@;
                    assert forall|a: usize| saved(after, a) == saved(before, a) by {
                        if saved(before, a) {
                            let k = slot_of(before, a);
                            assert(after[k].0 == a);
                        }
                        if saved(after, a) {
                            let k = slot_of(after, a);
                            assert(before[k].0 == a);
                        }
                    }
                    assert forall|a: usize| saved(after, a) implies #[trigger] frames_of(after)[a]
                        == frames_of(before).insert(addr, ctxt)[a] by {
                        let k = slot_of(after, a);
                        lemma_slot(after, k);
                        lemma_slot(before, k);
                    }
                    assert(frames_of(after) =~= frames_of(before).insert(addr, ctxt));
                }
            },
            None => {
                self.slots.push((addr, ctxt));
                proof {
                    let after = self.slots@;
                    assert(after[before.len() as int].0 == addr);
                    assert forall|a: usize| saved(after, a) == (saved(before, a) || a == addr) by {
                        if saved(before, a) {
                            let k = slot_of(before, a);
                            assert(after[k].0 == a);
                        }
                        if saved(after, a) && a != addr {
                            let k = slot_of(after, a);
                            assert(before[k].0 == a);
                        }
                    }
                    assert forall|a: usize| saved(after, a) implies #[trigger] frames_of(after)[a]
                        == frames_of(before).insert(addr, ctxt)[a] by {
                        let k = slot_of(after, a);
                        lemma_slot(after, k);
                        if a != addr {
                            lemma_slot(before, k);
                        }
                    }
                    assert(frames_of(after) =~= frames_of(before).insert(addr, ctxt));
                }
            },
        }
    }
}

/// Whether the `len` bytes from `addr` on lie in the window of `size` bytes
/// from `low` on.
pub open spec fn within(low: usize, size: usize, addr: usize, len: usize) -> bool {
    low <= addr && addr + len <= low + size
}

/// Retrieves the stack pointer of the thread, which points to the context
/// that the processor saved, while an exception is handled. That context
/// lies in the window of `size` bytes from `low` on.
pub fn current_sp(cpu: &EmulatorState, low: usize, size: usize) -> (r: usize)
    requires
        cpu.in_exception,
        within(low, size, cpu.other_sp, CONTEXT_SIZE),
    ensures
        r == cpu.other_sp,
{
    crate::emulator::current_psp(cpu)
}

/// Switch the stack pointer of the thread to `new_location`, while an
/// exception is handled.
pub fn switch_sp(cpu: &mut EmulatorState, new_location: usize)
    requires
        old(cpu).in_exception,
    ensures
        *final(cpu) == (EmulatorState { other_sp: new_location, ..*old(cpu) }),
{
    crate::emulator::set_psp(cpu, new_location)
}

/// The context with another result.
pub open spec fn with_result(ctxt: Context, res: usize) -> Context {
    Context { r0: res, ..ctxt }
}

/// Sets the return value in the context saved at `ptr`, while an exception
/// is handled. Returns whether a context is saved there: nothing is done
/// where none is.
pub fn send_result(cpu: &EmulatorState, frames: &mut Frames, res: usize, ptr: usize) -> (r: bool)
    requires
        cpu.in_exception,
        old(frames).wf(),
    ensures
        final(frames).wf(),
        r == old(frames)@.contains_key(ptr),
        r ==> final(frames)@ == old(frames)@.insert(ptr, with_result(old(frames)@[ptr], res)),
        !r ==> *final(frames) == *old(frames),
{
    match frames.get(ptr) {
        Some(c) => {
            frames.set(ptr, Context { r0: res, ..c });
            true
        },
        None => false,
    }
}

/// The context of a remote call.
pub open spec fn remote_frame(
    entrypoint: RemoteCallEnter,
    caller: usize,
    arg1: usize,
    arg2: usize,
) -> Context {
    Context {
        r0: entrypoint,
        r1: caller,
        r2: arg1,
        r3: arg2,
        r12: REMOTE_CALL_MARKER,
        lr: END_OF_REMOTE_CALL,
        pc: START_OF_REMOTE_CALL,
        psr: INITIAL_PSR,
    }
}

/// Returns the context to be pushed for a remotecall with given entry point
/// and arguments
pub fn for_remotecall(entrypoint: RemoteCallEnter, caller: usize, arg1: usize, arg2: usize) -> (r:
    Context)
    ensures
        r == remote_frame(entrypoint, caller, arg1, arg2),
{
    Context {
        r0: entrypoint,
        r1: caller,
        r2: arg1,
        r3: arg2,
        r12: REMOTE_CALL_MARKER,
        lr: END_OF_REMOTE_CALL,
        pc: START_OF_REMOTE_CALL,
        psr: INITIAL_PSR,
    }
}

} // verus!
