//! The syscalls by which a context calls another and returns to it

use crate::context::{
    can_return, current_context, in_current_context, pop, push, remote_call_enter, send_result,
    switch_userland, ContextID, Snapshot, TopOfStack,
};
use crate::context_ll::{remote_frame, with_result, CONTEXT_SIZE};
use crate::syscall::fs::{fault, Handled};
use crate::syscall::{Fault, Halt, Kernel};
use vstd::prelude::*;

verus! {

/// Why the context that runs cannot call the context `cid`, if it cannot.
pub open spec fn call_fault(s: Snapshot, cid: usize) -> Option<Fault> {
    if !(s.contexts matches Some(cs) && cid < cs.len()) {
        Some(Fault::BadContext)
    } else if !s.framed() {
        Some(Fault::BadAddress)
    } else if !s.can_call(cid) {
        Some(Fault::NoRoom)
    } else if !s.protecting {
        Some(Fault::Unprotected)
    } else {
        None
    }
}

/// Why the context that runs cannot return to the one that called it, if it
/// cannot.
pub open spec fn return_fault(s: Snapshot) -> Option<Fault> {
    if s.contexts is None {
        Some(Fault::BadContext)
    } else if !s.framed() {
        Some(Fault::BadAddress)
    } else if !can_return(s) {
        Some(Fault::NoCaller)
    } else if !s.protecting {
        Some(Fault::Unprotected)
    } else {
        None
    }
}

/// What is so once the context that runs has called `cid` with two
/// arguments: the caller waits, and `cid` runs from the context that enters
/// it, in its own range of the memory.
pub open spec fn called(s: Snapshot, cid: usize, arg1: usize, arg2: usize) -> Snapshot {
    s.pushed(
        cid,
        remote_frame(s.contexts.unwrap()[cid as int].remote_call_enter, s.current, arg1, arg2),
    ).switched(cid)
}

/// What is so once the context that runs has returned `res`: its caller
/// runs again, in its own range of the memory, from where it was, with
/// `res` as the result of its call. None where the caller has no saved
/// context there.
pub open spec fn returned(s: Snapshot, res: usize) -> Option<Snapshot> {
    let back = s.popped();
    if back.framed() && back.frames.contains_key(back.cpu.other_sp) {
        Some(
            Snapshot {
                frames: back.frames.insert(
                    back.cpu.other_sp,
                    with_result(back.frames[back.cpu.other_sp], res),
                ),
                ..back
            },
        )
    } else {
        None
    }
}

impl<'a> Kernel<'a> {
    /// The kernel is as `old` but for its contexts.
    pub open spec fn same_but_contexts(&self, old: Kernel<'a>) -> bool {
        self.fs == old.fs && self.ram == old.ram && self.output == old.output
    }

    /// Whether the processor handles an exception and the context that it
    /// saved lies in the range of the context that runs
    fn framed(&self) -> (r: bool)
        requires
            self.wf(),
        ensures
            r == self.contexts@.framed(),
    {
        let cpu = self.contexts.cpu();
        cpu.in_exception && in_current_context(&self.contexts, cpu.other_sp, CONTEXT_SIZE)
    }

    /// What the syscall of like name makes of the kernel `old`, and returns.
    pub open spec fn did_remote_call(
        &self,
        old: Kernel<'a>,
        cid: usize,
        arg1: usize,
        arg2: usize,
        r: Handled,
    ) -> bool {
        &&& self.wf()
        &&& self.same_but_contexts(old)
        &&& match call_fault(old.contexts@, cid) {
            Some(f) => r == fault(f) && *self == old,
            None => {
                &&& r == Ok::<Option<usize>, Halt>(None)
                &&& self.contexts@ == called(old.contexts@, cid, arg1, arg2)
                &&& self.contexts@.settled()
                &&& self.contexts@.chain() == old.contexts@.chain().push(cid)
            },
        }
    }

    /// The remote call syscall: the context that runs calls the context
    /// `cid` with two arguments. Returns nothing: the called context runs,
    /// and the result comes when it returns.
    pub fn syscall_remote_call(&mut self, cid: usize, arg1: usize, arg2: usize) -> (r: Handled)
        requires
            old(self).wf(),
        ensures
            final(self).did_remote_call(*old(self), cid, arg1, arg2, r),
    {
        broadcast use ContextID::lemma_of, TopOfStack::lemma_of;

        proof {
            self.contexts.lemma_wf();
        }
        if cid >= self.contexts.count() {
            return Err(Halt::Fault(Fault::BadContext));
        }
        if !self.framed() {
            return Err(Halt::Fault(Fault::BadAddress));
        }
        let current = self.contexts.current().id();
        let top = if cid == current {
            current_context(&self.contexts)
        } else {
            match self.contexts.metadata(cid) {
                Some(m) => m.top_of_stack,
                None => current_context(&self.contexts),
            }
        };
        if !top.has_room() {
            return Err(Halt::Fault(Fault::NoRoom));
        }
        if !self.contexts.mpu().ready() {
            return Err(Halt::Fault(Fault::Unprotected));
        }
        let target = ContextID::new(&self.contexts, cid);
        let with = crate::context::for_remotecall(
            remote_call_enter(&self.contexts, target),
            current,
            arg1,
            arg2,
        );
        push(&mut self.contexts, target, with);
        switch_userland(&mut self.contexts, target);
        Ok(None)
    }

    /// What the syscall of like name makes of the kernel `old`, and returns.
    pub open spec fn did_remote_result(
        &self,
        old: Kernel<'a>,
        res: usize,
        _b: usize,
        _c: usize,
        r: Handled,
    ) -> bool {
        &&& self.wf()
        &&& self.same_but_contexts(old)
        &&& match return_fault(old.contexts@) {
            Some(f) => r == fault(f) && *self == old,
            None => {
                &&& self.contexts@.settled()
                &&& old.contexts@.chain() == self.contexts@.chain().push(old.contexts@.current)
                &&& match returned(old.contexts@, res) {
                    Some(s) => r == Ok::<Option<usize>, Halt>(None) && self.contexts@ == s,
                    None => r == fault(Fault::BadAddress) && self.contexts@
                        == old.contexts@.popped(),
                }
            },
        }
    }

    /// The syscall that returns a result to a remote call: the context that
    /// called the one that runs runs again, and gets `res`. Returns nothing.
    pub fn syscall_remote_result(&mut self, res: usize, _b: usize, _c: usize) -> (r: Handled)
        requires
            old(self).wf(),
        ensures
            final(self).did_remote_result(*old(self), res, _b, _c, r),
    {
        broadcast use ContextID::lemma_of, TopOfStack::lemma_of;

        proof {
            self.contexts.lemma_wf();
        }
        if !self.contexts.is_initialised() {
            return Err(Halt::Fault(Fault::BadContext));
        }
        if !self.framed() {
            return Err(Halt::Fault(Fault::BadAddress));
        }
        let next = match self.contexts.caller() {
            Some(next) => next,
            None => {
                return Err(Halt::Fault(Fault::NoCaller));
            },
        };
        let current = self.contexts.current().id();
        let top = if next.id() == current {
            current_context(&self.contexts).pop_context()
        } else {
            match self.contexts.metadata(next.id()) {
                Some(m) => m.top_of_stack,
                None => current_context(&self.contexts),
            }
        };
        if top.saved_context().is_none() {
            return Err(Halt::Fault(Fault::NoCaller));
        }
        if !self.contexts.mpu().ready() {
            return Err(Halt::Fault(Fault::Unprotected));
        }
        pop(&mut self.contexts);
        if !self.framed() {
            return Err(Halt::Fault(Fault::BadAddress));
        }
        let here = current_context(&self.contexts);
        if send_result(&mut self.contexts, res, &here) {
            Ok(None)
        } else {
            Err(Halt::Fault(Fault::BadAddress))
        }
    }
}

} // verus!
