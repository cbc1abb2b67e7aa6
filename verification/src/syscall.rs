//! Handle syscalls

use crate::context::{
    current_context, in_program, is_readable_from_current_context,
    is_writable_from_current_context, send_result, switch_to_heap, ContextID, Contexts, Snapshot,
};
use crate::context_ll::{with_result, within, CONTEXT_SIZE};
use crate::filename::{may_read, may_write};
use crate::fs::{Error, FileSystem};
use crate::ram::Ram;
use crate::syscall::fs::{low_bytes, word_of_number, Handled};
use vstd::prelude::*;
use vstd::slice::slice_to_vec;

pub mod codes;
pub mod fs;
pub mod remotecall;

verus! {

/// Association from a syscall name to an ID
#[derive(Debug, PartialEq, Eq, Clone, Copy, Structural)]
pub enum Syscall {
    /// Remote call syscall
    RemoteCall,
    /// Return a result to a remote call
    RemoteResult,
    /// Test syscall
    Test,
    /// Output data on the USART syscall
    UsartOutput,
    /// Whether a file exists
    FsExists,
    /// Reads a file into a buffer
    FsRead,
    /// Returns a pointer to a file in flash
    FsReadInplace,
    /// Writes a file from a buffer
    FsWrite,
    /// Removes a file
    FsErase,
    /// Reads one byte from a file at some offset
    FsRead1b,
    /// Reads two bytes from a file at some offset
    FsRead2b,
    /// Reads four bytes from a file at some offset
    FsRead4b,
    /// Retrieves the length of a file (in bytes)
    FsLength,
    /// Writes an applet from a buffer
    FsWriteApplet,
    /// Erases an applet
    FsEraseApplet,
    /// Writes one byte to a file at some offset
    FsWrite1b,
    /// Writes two bytes to a file at some offset
    FsWrite2b,
    /// Writes four bytes to a file at some offset
    FsWrite4b,
}

impl Syscall {
    /// The ID of the syscall.
    pub open spec fn number_spec(&self) -> usize {
        match self {
            Syscall::RemoteCall => 0,
            Syscall::RemoteResult => 1,
            Syscall::Test => 2,
            Syscall::UsartOutput => 3,
            Syscall::FsExists => 4,
            Syscall::FsRead => 5,
            Syscall::FsReadInplace => 6,
            Syscall::FsWrite => 7,
            Syscall::FsErase => 8,
            Syscall::FsRead1b => 9,
            Syscall::FsRead2b => 10,
            Syscall::FsRead4b => 11,
            Syscall::FsLength => 12,
            Syscall::FsWriteApplet => 13,
            Syscall::FsEraseApplet => 14,
            Syscall::FsWrite1b => 15,
            Syscall::FsWrite2b => 16,
            Syscall::FsWrite4b => 17,
        }
    }

    /// The syscall of an ID, if there is one.
    pub open spec fn of(x: usize) -> Option<Syscall> {
        if x == 0 {
            Some(Syscall::RemoteCall)
        } else if x == 1 {
            Some(Syscall::RemoteResult)
        } else if x == 2 {
            Some(Syscall::Test)
        } else if x == 3 {
            Some(Syscall::UsartOutput)
        } else if x == 4 {
            Some(Syscall::FsExists)
        } else if x == 5 {
            Some(Syscall::FsRead)
        } else if x == 6 {
            Some(Syscall::FsReadInplace)
        } else if x == 7 {
            Some(Syscall::FsWrite)
        } else if x == 8 {
            Some(Syscall::FsErase)
        } else if x == 9 {
            Some(Syscall::FsRead1b)
        } else if x == 10 {
            Some(Syscall::FsRead2b)
        } else if x == 11 {
            Some(Syscall::FsRead4b)
        } else if x == 12 {
            Some(Syscall::FsLength)
        } else if x == 13 {
            Some(Syscall::FsWriteApplet)
        } else if x == 14 {
            Some(Syscall::FsEraseApplet)
        } else if x == 15 {
            Some(Syscall::FsWrite1b)
        } else if x == 16 {
            Some(Syscall::FsWrite2b)
        } else if x == 17 {
            Some(Syscall::FsWrite4b)
        } else {
            None
        }
    }

    /// Converts an integer into a `Syscall` if possible.
    pub fn from_usize(x: usize) -> (r: Option<Syscall>)
        ensures
            r == Syscall::of(x),
            match r {
                Some(s) => s.number_spec() == x,
                None => x > 17,
            },
    {
        match x {
            0 => Some(Syscall::RemoteCall),
            1 => Some(Syscall::RemoteResult),
            2 => Some(Syscall::Test),
            3 => Some(Syscall::UsartOutput),
            4 => Some(Syscall::FsExists),
            5 => Some(Syscall::FsRead),
            6 => Some(Syscall::FsReadInplace),
            7 => Some(Syscall::FsWrite),
            8 => Some(Syscall::FsErase),
            9 => Some(Syscall::FsRead1b),
            10 => Some(Syscall::FsRead2b),
            11 => Some(Syscall::FsRead4b),
            12 => Some(Syscall::FsLength),
            13 => Some(Syscall::FsWriteApplet),
            14 => Some(Syscall::FsEraseApplet),
            15 => Some(Syscall::FsWrite1b),
            16 => Some(Syscall::FsWrite2b),
            17 => Some(Syscall::FsWrite4b),
            _ => None,
        }
    }

    /// The ID of the syscall
    pub fn number(&self) -> (r: usize)
        ensures
            r == self.number_spec(),
    {
        match self {
            Syscall::RemoteCall => 0,
            Syscall::RemoteResult => 1,
            Syscall::Test => 2,
            Syscall::UsartOutput => 3,
            Syscall::FsExists => 4,
            Syscall::FsRead => 5,
            Syscall::FsReadInplace => 6,
            Syscall::FsWrite => 7,
            Syscall::FsErase => 8,
            Syscall::FsRead1b => 9,
            Syscall::FsRead2b => 10,
            Syscall::FsRead4b => 11,
            Syscall::FsLength => 12,
            Syscall::FsWriteApplet => 13,
            Syscall::FsEraseApplet => 14,
            Syscall::FsWrite1b => 15,
            Syscall::FsWrite2b => 16,
            Syscall::FsWrite4b => 17,
        }
    }
}

/// Why the kernel gives up on a syscall
#[derive(Debug, PartialEq, Eq, Clone, Copy, Structural)]
pub enum Fault {
    /// No syscall has the number
    BadSyscall,
    /// The context may not read or write at an address that it gave, or
    /// there is no memory there
    BadAddress,
    /// A tag is not laid out as it should
    BadTag,
    /// The context may not do to the file what it asked for
    Denied,
    /// An address is not a multiple of the size of what goes there
    Misaligned,
    /// An offset is not in the file
    OutOfFile,
    /// There is no context of the number
    BadContext,
    /// The stack of the context that is called has no room
    NoRoom,
    /// No context waits for the one that returns
    NoCaller,
    /// The memory protection unit has not been set up
    Unprotected,
    /// An applet could not be written or erased
    Failed(Error),
}

/// How a syscall ends when it does not return to the thread
#[derive(Debug, PartialEq, Eq, Clone, Copy, Structural)]
pub enum Halt {
    /// The processor is to reboot
    Reboot,
    /// The kernel gives up
    Fault(Fault),
}

/// What the handlers of the syscalls work on
pub struct Kernel<'a> {
    /// The contexts, the processor and the memory protection unit
    pub contexts: Contexts,
    /// The filesystem
    pub fs: FileSystem<'a>,
    /// The memory that the contexts run in
    pub ram: Ram,
    /// What was output for debugging and has not been sent yet
    pub output: Vec<u8>,
}

/// Why a context may not read a file, if it may not.
pub open spec fn read_fault(id: usize, tag: Seq<u8>) -> Option<Fault> {
    if !may_read(id as int, tag) {
        Some(Fault::Denied)
    } else {
        None
    }
}

/// Why a context may not write a file, which is or is not to be an applet,
/// if it may not.
pub open spec fn write_fault(id: usize, tag: Seq<u8>, applet: bool) -> Option<Fault> {
    if !(may_write(id as int, tag) && crate::filename::names_applet(tag) == applet) {
        Some(Fault::Denied)
    } else {
        None
    }
}

/// Whether the context `context` may read the file `tag`
pub fn check_read(context: ContextID, tag: &[u8]) -> (r: Result<(), Halt>)
    ensures
        r == match read_fault(context.id_spec(), tag@) {
            Some(f) => Err::<(), Halt>(Halt::Fault(f)),
            None => Ok(()),
        },
{
    if !crate::filename::can_read(context, tag) {
        Err(Halt::Fault(Fault::Denied))
    } else {
        Ok(())
    }
}

/// Whether the context `context` may write the file `tag`, which is to be
/// an applet or not to be one
pub fn check_write(context: ContextID, tag: &[u8], applet: bool) -> (r: Result<(), Halt>)
    ensures
        r == match write_fault(context.id_spec(), tag@, applet) {
            Some(f) => Err::<(), Halt>(Halt::Fault(f)),
            None => Ok(()),
        },
{
    if !(crate::filename::can_write(context, tag) && crate::filename::is_applet(tag) == applet) {
        Err(Halt::Fault(Fault::Denied))
    } else {
        Ok(())
    }
}

impl<'a> Kernel<'a> {
    /// The parts are as they should.
    pub open spec fn wf(&self) -> bool {
        self.contexts.wf() && self.fs.wf() && self.ram.wf()
    }

    /// The context that runs.
    pub open spec fn current(&self) -> usize {
        self.contexts@.current
    }

    /// Whether the context that runs may read the `len` bytes from `addr` on:
    /// they are in its range or in the program.
    pub open spec fn readable(&self, addr: usize, len: usize) -> bool {
        within(self.contexts@.window.bottom, self.contexts@.window.size, addr, len) || in_program(
            addr,
            len,
        )
    }

    /// Whether the context that runs may write the `len` bytes from `addr`
    /// on: they are in its range.
    pub open spec fn writable(&self, addr: usize, len: usize) -> bool {
        within(self.contexts@.window.bottom, self.contexts@.window.size, addr, len)
    }

    /// The `len` bytes from `addr` on, where the RAM or the flash has them.
    pub open spec fn memory(&self, addr: usize, len: usize) -> Option<Seq<u8>> {
        if self.ram.holds(addr, len as int) {
            Some(self.ram.range(addr, len as int))
        } else if self.fs.storage().spans(addr, len as int) {
            Some(self.fs.storage().span(addr, len as int))
        } else {
            None
        }
    }

    /// The `len` bytes from `addr` on, where the context that runs may read
    /// them and there are such bytes.
    pub open spec fn loaded(&self, addr: usize, len: usize) -> Option<Seq<u8>> {
        if self.readable(addr, len) {
            self.memory(addr, len)
        } else {
            None
        }
    }

    /// Whether the context that runs may write the `len` bytes from `addr`
    /// on, and the RAM has them.
    pub open spec fn storable(&self, addr: usize, len: usize) -> bool {
        self.writable(addr, len) && self.ram.holds(addr, len as int)
    }

    /// The tag laid out at `addr`: a byte that holds its length, under 32,
    /// then its bytes, in 33 bytes that the context that runs may read.
    pub open spec fn tag_at(&self, addr: usize) -> Result<Seq<u8>, Fault> {
        match self.loaded(addr, 33) {
            None => Err(Fault::BadAddress),
            Some(b) => if b[0] >= 32 {
                Err(Fault::BadTag)
            } else {
                Ok(b.subrange(1, 1 + b[0]))
            },
        }
    }

    /// The kernel is as `old` but for what its RAM holds, and for its RAM
    /// holds `bytes`.
    pub open spec fn stored(&self, old: Kernel<'a>, bytes: Seq<u8>) -> bool {
        &&& self.contexts == old.contexts
        &&& self.fs == old.fs
        &&& self.output == old.output
        &&& self.ram.wf()
        &&& self.ram.begin() == old.ram.begin()
        &&& self.ram@ == bytes
    }

    /// The kernel over its parts, with nothing output
    pub fn new(contexts: Contexts, fs: FileSystem<'a>, ram: Ram) -> (k: Kernel<'a>)
        ensures
            k.contexts == contexts,
            k.fs == fs,
            k.ram == ram,
            k.output@ == Seq::<u8>::empty(),
    {
        Kernel { contexts, fs, ram, output: Vec::new() }
    }

    /// Reads the `len` bytes from `addr` on for the context that runs
    pub fn load(&self, addr: usize, len: usize) -> (r: Result<Vec<u8>, Halt>)
        requires
            self.wf(),
        ensures
            match self.loaded(addr, len) {
                Some(b) => r matches Ok(v) && v@ == b,
                None => r == Err::<Vec<u8>, Halt>(Halt::Fault(Fault::BadAddress)),
            },
    {
        if !is_readable_from_current_context(&self.contexts, addr, len) {
            return Err(Halt::Fault(Fault::BadAddress));
        }
        if self.ram.has(addr, len) {
            return Ok(self.ram.read(addr, len));
        }
        proof {
            self.fs.lemma_structure();
        }
        match self.fs.flash().peek(addr, len) {
            Some(s) => Ok(slice_to_vec(s)),
            None => Err(Halt::Fault(Fault::BadAddress)),
        }
    }

    /// Writes `data` from `addr` on for the context that runs
    pub fn store(&mut self, addr: usize, data: &[u8]) -> (r: Result<(), Halt>)
        requires
            old(self).wf(),
        ensures
            final(self).wf(),
            if old(self).storable(addr, data@.len() as usize) {
                r is Ok && final(self).stored(*old(self), old(self).ram.with(addr, data@))
            } else {
                r == Err::<(), Halt>(Halt::Fault(Fault::BadAddress)) && *final(self) == *old(self)
            },
    {
        if !is_writable_from_current_context(&self.contexts, addr, data.len()) || !self.ram.has(
            addr,
            data.len(),
        ) {
            return Err(Halt::Fault(Fault::BadAddress));
        }
        self.ram.write(addr, data);
        Ok(())
    }

    /// Whether the context that runs may write the `len` bytes from `addr`
    /// on, and the RAM has them
    pub fn can_store(&self, addr: usize, len: usize) -> (r: Result<(), Halt>)
        requires
            self.wf(),
        ensures
            r == if self.storable(addr, len) {
                Ok::<(), Halt>(())
            } else {
                Err::<(), Halt>(Halt::Fault(Fault::BadAddress))
            },
    {
        if is_writable_from_current_context(&self.contexts, addr, len) && self.ram.has(addr, len) {
            Ok(())
        } else {
            Err(Halt::Fault(Fault::BadAddress))
        }
    }

    /// Reads the tag laid out at `tagaddr` for the context that runs
    pub fn retrieve_tag(&self, tagaddr: usize) -> (r: Result<Vec<u8>, Halt>)
        requires
            self.wf(),
        ensures
            match self.tag_at(tagaddr) {
                Ok(t) => r matches Ok(v) && v@ == t,
                Err(f) => r == Err::<Vec<u8>, Halt>(Halt::Fault(f)),
            },
    {
        let b = match self.load(tagaddr, 33) {
            Ok(b) => b,
            Err(e) => {
                return Err(e);
            },
        };
        if b[0] >= 32 {
            return Err(Halt::Fault(Fault::BadTag));
        }
        let n = b[0] as usize;
        Ok(slice_to_vec(vstd::slice::slice_subrange(b.as_slice(), 1, 1 + n)))
    }

    /// The test syscall: returns 42
    pub fn syscall_test(&self, _a: usize, _b: usize, _c: usize) -> (r: Handled)
        ensures
            r == Ok::<Option<usize>, Halt>(Some(42)),
    {
        Ok(Some(42))
    }

    /// What the syscall of like name makes of the kernel `old`, and returns.
    pub open spec fn did_output(&self, old: Kernel<'a>, ptr: usize, len: usize, _c: usize, r: Handled) -> bool {
        &&& self.wf()
        &&& self.contexts == old.contexts
        &&& self.fs == old.fs
        &&& self.ram == old.ram
        &&& match old.loaded(ptr, len) {
            Some(b) => r == Ok::<Option<usize>, Halt>(Some(0)) && self.output@ == old.output@ + b,
            None => r == Err::<Option<usize>, Halt>(Halt::Fault(Fault::BadAddress)) && self.output@
                == old.output@,
        }
    }

    /// The output syscall: the `len` bytes from `ptr` on, which the context
    /// that runs may read, are output for debugging. Returns 0.
    pub fn syscall_output(&mut self, ptr: usize, len: usize, _c: usize) -> (r: Handled)
        requires
            old(self).wf(),
        ensures
            final(self).did_output(*old(self), ptr, len, _c, r),
    {
        let mut b = match self.load(ptr, len) {
            Ok(b) => b,
            Err(e) => {
                return Err(e);
            },
        };
        self.output.append(&mut b);
        Ok(Some(0))
    }
}

/// Begin and size of the range reserved to the heap of the context `id`.
pub open spec fn heap_of(s: Snapshot, id: usize) -> (usize, usize) {
    if id == 0 {
        (0x2000_1000usize, 0x1000usize)
    } else {
        (s.contexts.unwrap()[id as int].heap_begin, s.contexts.unwrap()[id as int].heap_size)
    }
}

/// The kernel `new` is `old` with the heap of the context `id` in use.
pub open spec fn heap_switched(old: Kernel, new: Kernel, id: usize) -> bool {
    &&& new.same_but_contexts(old)
    &&& new.contexts.wf()
    &&& new.contexts@ == (Snapshot { heap: heap_of(old.contexts@, id), ..old.contexts@ })
}

/// What the handler of the syscall `s` makes of the kernel `old`, and
/// returns.
pub open spec fn handled(
    old: Kernel,
    s: Syscall,
    arg1: usize,
    arg2: usize,
    arg3: usize,
    new: Kernel,
    r: Handled,
) -> bool {
    new.wf() && match s {
        Syscall::RemoteCall => new.did_remote_call(old, arg1, arg2, arg3, r),
        Syscall::RemoteResult => new.did_remote_result(old, arg1, arg2, arg3, r),
        Syscall::Test => r == Ok::<Option<usize>, Halt>(Some(42)) && new == old,
        Syscall::UsartOutput => new.did_output(old, arg1, arg2, arg3, r),
        Syscall::FsExists => new.did_exists(old, arg1, arg2, arg3, r),
        Syscall::FsRead => new.did_read(old, arg1, arg2, arg3, r),
        Syscall::FsReadInplace => new.did_read_inplace(old, arg1, arg2, arg3, r),
        Syscall::FsWrite => new.did_write(old, arg1, arg2, arg3, r),
        Syscall::FsErase => new.did_erase(old, arg1, arg2, arg3, r),
        Syscall::FsRead1b => new.read_at(old, arg1, arg2, arg3, 1, r),
        Syscall::FsRead2b => new.read_at(old, arg1, arg2, arg3, 2, r),
        Syscall::FsRead4b => new.read_at(old, arg1, arg2, arg3, 4, r),
        Syscall::FsLength => new.did_length(old, arg1, arg2, arg3, r),
        Syscall::FsWriteApplet => new.did_write_applet(old, arg1, arg2, arg3, r),
        Syscall::FsEraseApplet => new.did_erase_applet(old, arg1, arg2, arg3, r),
        Syscall::FsWrite1b => new.write_at(old, arg1, arg2, seq![(arg3 % 256) as u8], r),
        Syscall::FsWrite2b => new.write_at(old, arg1, arg2, low_bytes(arg3), r),
        Syscall::FsWrite4b => new.write_at(old, arg1, arg2, word_of_number(arg3), r),
    }
}

/// The kernel `new` is `old` once what a handler returned is in the context
/// that the processor saved, where the handler returned something; the
/// kernel gives up where there is no such context in the range of the
/// context that runs.
pub open spec fn delivered(old: Kernel, v: Option<usize>, new: Kernel, r: Result<(), Halt>) -> bool {
    match v {
        None => r is Ok && new == old,
        Some(res) => if old.contexts@.framed() && old.contexts@.frames.contains_key(
            old.contexts@.cpu.other_sp,
        ) {
            &&& r is Ok
            &&& new.same_but_contexts(old)
            &&& new.contexts.wf()
            &&& new.contexts@ == (Snapshot {
                frames: old.contexts@.frames.insert(
                    old.contexts@.cpu.other_sp,
                    with_result(old.contexts@.frames[old.contexts@.cpu.other_sp], res),
                ),
                ..old.contexts@
            })
        } else {
            r == Err::<(), Halt>(Halt::Fault(Fault::BadAddress)) && new == old
        },
    }
}

/// What a syscall makes of the kernel `old`, through the kernels `pre`, in
/// which the heap of the context 0 is in use, `mid`, which the handler
/// leaves and in which it returns `hr`, and `after`, in which what it
/// returned is delivered. In the end the heap of the context that runs is in
/// use again, unless the kernel has given up or the processor is to reboot.
pub open spec fn received(
    old: Kernel,
    num: usize,
    arg1: usize,
    arg2: usize,
    arg3: usize,
    pre: Kernel,
    mid: Kernel,
    hr: Handled,
    after: Kernel,
    new: Kernel,
    r: Result<(), Halt>,
) -> bool {
    &&& heap_switched(old, pre, 0)
    &&& match Syscall::of(num) {
        None => r == Err::<(), Halt>(Halt::Fault(Fault::BadSyscall)) && new == pre,
        Some(s) => handled(pre, s, arg1, arg2, arg3, mid, hr) && match hr {
            Err(h) => r == Err::<(), Halt>(h) && new == mid,
            Ok(v) => delivered(mid, v, after, r) && match r {
                Err(_) => new == after,
                Ok(()) => heap_switched(after, new, after.contexts@.current),
            },
        },
    }
}

/// Function called privileged when a syscall is performed: the handler of
/// the syscall `num` runs with the three arguments, on the heap of the
/// context 0, and what it returns, if anything, goes to the context that
/// the processor saved.
pub fn syscall_received(
    kernel: &mut Kernel,
    num: usize,
    arg1: usize,
    arg2: usize,
    arg3: usize,
) -> (r: Result<(), Halt>)
    requires
        old(kernel).wf(),
    ensures
        final(kernel).wf(),
        exists|pre: Kernel, mid: Kernel, hr: Handled, after: Kernel|
            #[trigger] received(
                *old(kernel),
                num,
                arg1,
                arg2,
                arg3,
                pre,
                mid,
                hr,
                after,
                *final(kernel),
                r,
            ),
{
    broadcast use ContextID::lemma_of;

    switch_to_heap(&mut kernel.contexts, ContextID::zero());
    let ghost pre = *kernel;
    let num = match Syscall::from_usize(num) {
        Some(s) => s,
        None => {
            proof {
                assert(received(
                    *old(kernel),
                    num,
                    arg1,
                    arg2,
                    arg3,
                    pre,
                    pre,
                    Ok(None),
                    pre,
                    *kernel,
                    Err(Halt::Fault(Fault::BadSyscall)),
                ));
            }
            return Err(Halt::Fault(Fault::BadSyscall));
        },
    };
    let syscall_res = match num {
        Syscall::RemoteCall => kernel.syscall_remote_call(arg1, arg2, arg3),
        Syscall::RemoteResult => kernel.syscall_remote_result(arg1, arg2, arg3),
        Syscall::Test => kernel.syscall_test(arg1, arg2, arg3),
        Syscall::UsartOutput => kernel.syscall_output(arg1, arg2, arg3),
        Syscall::FsExists => kernel.syscall_exists(arg1, arg2, arg3),
        Syscall::FsRead => kernel.syscall_read(arg1, arg2, arg3),
        Syscall::FsReadInplace => kernel.syscall_read_inplace(arg1, arg2, arg3),
        Syscall::FsWrite => kernel.syscall_write(arg1, arg2, arg3),
        Syscall::FsErase => kernel.syscall_erase(arg1, arg2, arg3),
        Syscall::FsRead1b => kernel.syscall_read_1b_at(arg1, arg2, arg3),
        Syscall::FsRead2b => kernel.syscall_read_2b_at(arg1, arg2, arg3),
        Syscall::FsRead4b => kernel.syscall_read_4b_at(arg1, arg2, arg3),
        Syscall::FsLength => kernel.syscall_length(arg1, arg2, arg3),
        Syscall::FsWriteApplet => kernel.syscall_write_applet(arg1, arg2, arg3),
        Syscall::FsEraseApplet => kernel.syscall_erase_applet(arg1, arg2, arg3),
        Syscall::FsWrite1b => kernel.syscall_write_1b_at(arg1, arg2, arg3),
        Syscall::FsWrite2b => kernel.syscall_write_2b_at(arg1, arg2, arg3),
        Syscall::FsWrite4b => kernel.syscall_write_4b_at(arg1, arg2, arg3),
    };
    let ghost mid = *kernel;
    proof {
        assert(handled(pre, num, arg1, arg2, arg3, mid, syscall_res));
    }
    let res = match syscall_res {
        Ok(res) => res,
        Err(h) => {
            proof {
                assert(received(
                    *old(kernel),
                    num.number_spec(),
                    arg1,
                    arg2,
                    arg3,
                    pre,
                    mid,
                    syscall_res,
                    mid,
                    *kernel,
                    Err(h),
                ));
            }
            return Err(h);
        },
    };
    if let Some(res) = res {
        let cpu = kernel.contexts.cpu();
        if !(cpu.in_exception && crate::context::in_current_context(
            &kernel.contexts,
            cpu.other_sp,
            CONTEXT_SIZE,
        )) {
            proof {
                assert(received(
                    *old(kernel),
                    num.number_spec(),
                    arg1,
                    arg2,
                    arg3,
                    pre,
                    mid,
                    syscall_res,
                    mid,
                    *kernel,
                    Err(Halt::Fault(Fault::BadAddress)),
                ));
            }
            return Err(Halt::Fault(Fault::BadAddress));
        }
        let cur_context = current_context(&kernel.contexts);
        proof {
            crate::context::TopOfStack::lemma_of(
                kernel.contexts@.window.bottom,
                kernel.contexts@.window.stack_heap_limit,
                Some(kernel.contexts@.cpu.other_sp),
            );
        }
        if !send_result(&mut kernel.contexts, res, &cur_context) {
            proof {
                assert(received(
                    *old(kernel),
                    num.number_spec(),
                    arg1,
                    arg2,
                    arg3,
                    pre,
                    mid,
                    syscall_res,
                    mid,
                    *kernel,
                    Err(Halt::Fault(Fault::BadAddress)),
                ));
            }
            return Err(Halt::Fault(Fault::BadAddress));
        }
    }
    let ghost after = *kernel;
    proof {
        kernel.contexts.lemma_wf();
        assert(delivered(mid, res, after, Ok(())));
    }
    let current = kernel.contexts.current().ctxid();
    proof {
        ContextID::lemma_of(kernel.contexts@.current);
    }
    switch_to_heap(&mut kernel.contexts, current);
    proof {
        assert(received(
            *old(kernel),
            num.number_spec(),
            arg1,
            arg2,
            arg3,
            pre,
            mid,
            syscall_res,
            after,
            *kernel,
            Ok(()),
        ));
    }
    Ok(())
}

/// Whatever the syscall, the range of the memory that unprivileged code
/// writes stays that of the context that runs: the memory protection unit
/// lets unprivileged code write in the range of the context that runs after
/// the syscall and in the shared data that is writable, and nowhere else,
/// while privileged code may do everything everywhere.
pub proof fn law_protected(
    old: Kernel,
    num: usize,
    arg1: usize,
    arg2: usize,
    arg3: usize,
    pre: Kernel,
    mid: Kernel,
    hr: Handled,
    after: Kernel,
    new: Kernel,
    r: Result<(), Halt>,
    addr: usize,
)
    requires
        old.contexts@.protected(),
        received(old, num, arg1, arg2, arg3, pre, mid, hr, after, new, r),
    ensures
        new.contexts@.protected(),
        crate::mpu::writing(crate::mpu_ll::allowed(new.contexts@.regions, 8, addr)) ==> within(
            new.contexts@.window.bottom,
            new.contexts@.window.size,
            addr,
            1,
        ) || 0x2000_0800 <= addr < 0x2000_1000,
        new.contexts.mpu_spec().allows(true, addr) == 7,
{
    assert(pre.contexts@.protected());
    match Syscall::of(num) {
        None => {},
        Some(s) => {
            assert(handled(pre, s, arg1, arg2, arg3, mid, hr));
            assert(mid.contexts@.protected()) by {
                match s {
                    Syscall::RemoteCall => {
                        if crate::syscall::remotecall::call_fault(pre.contexts@, arg1) is None {
                            assert(mid.contexts@.settled());
                        }
                    },
                    Syscall::RemoteResult => {
                        if crate::syscall::remotecall::return_fault(pre.contexts@) is None {
                            assert(mid.contexts@.settled());
                        }
                    },
                    _ => {},
                }
            }
        },
    }
    crate::mpu::lemma_window(
        new.contexts@.regions,
        new.contexts@.window.bottom,
        new.contexts@.window.size,
        addr,
    );
}

/// A syscall keeps the stack, the heap and the saved processor context of
/// each context in the range of that context, where the memory protection
/// unit protected the range of the context that ran.
pub proof fn law_bounded(
    old: Kernel,
    num: usize,
    arg1: usize,
    arg2: usize,
    arg3: usize,
    pre: Kernel,
    mid: Kernel,
    hr: Handled,
    after: Kernel,
    new: Kernel,
    r: Result<(), Halt>,
)
    requires
        old.contexts@.protected(),
        old.contexts@.bounded(),
        received(old, num, arg1, arg2, arg3, pre, mid, hr, after, new, r),
    ensures
        new.contexts@.bounded(),
{
    assert(pre.contexts@.settled());
    assert(pre.contexts@.bounded());
    match Syscall::of(num) {
        None => {},
        Some(s) => {
            assert(handled(pre, s, arg1, arg2, arg3, mid, hr));
            assert(mid.contexts@.bounded()) by {
                match s {
                    Syscall::RemoteCall => {
                        if crate::syscall::remotecall::call_fault(pre.contexts@, arg1) is None {
                            pre.contexts@.law_call_bounded(
                                arg1,
                                crate::context_ll::remote_frame(
                                    pre.contexts@.contexts.unwrap()[arg1 as int].remote_call_enter,
                                    pre.contexts@.current,
                                    arg2,
                                    arg3,
                                ),
                            );
                        }
                    },
                    Syscall::RemoteResult => {
                        if crate::syscall::remotecall::return_fault(pre.contexts@) is None {
                            pre.contexts@.law_return_bounded();
                        }
                    },
                    _ => {},
                }
            }
        },
    }
}

} // verus!
