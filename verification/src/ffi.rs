//! The codes by which errors are told to C, and what else is computed for C

use crate::constants::ram_begin;
use crate::context::{init_contexts, Contexts, Snapshot, Window};
use crate::context_ll::RemoteCallEnter;
use crate::contextallocator::{
    allocate_contexts, allocation, choose_size, chosen_size, cleared, pool_begin, pool_size,
    AllocatableContext, CTX0_SIZE,
};
use crate::emulator::EmulatorState;
use crate::flash::{and_range, blank, zeros, Flash, IOError, InitError, Lock, SectorID};
use crate::fs::Error;
use crate::mpu::{lemma_userland, read_write, with_fixed_regions, Mpu};
use crate::ram::Ram;
use vstd::prelude::*;

verus! {

/// The code of a `flash::IOError`.
pub open spec fn io_errno(e: IOError) -> u32 {
    match e {
        IOError::LockedError => 1,
        IOError::OutOfBounds => 2,
        IOError::UnknownError(_) => 3,
    }
}

/// The code of a `fs::Error`.
pub open spec fn fs_errno(e: Error) -> u8 {
    match e {
        Error::OutOfFlash => 1,
        Error::NoSuchTag => 2,
        Error::InvalidLengthForTag => 3,
        Error::IO(e) => (0x80 + io_errno(e)) as u8,
    }
}

/// Converts a `flash::IOError` to an error code
pub fn flash_io_error_to_errno(e: IOError) -> (r: u32)
    ensures
        r == io_errno(e),
        1 <= r <= 3,
{
    match e {
        IOError::LockedError => 1,
        IOError::OutOfBounds => 2,
        IOError::UnknownError(_) => 3,
    }
}

/// Converts a `flash::InitError` to an error code
pub fn flash_init_error_to_errno(e: InitError) -> (r: u32)
    ensures
        r == 1,
{
    match e {
        InitError::FlashInUse => 1,
    }
}

/// Converts a `fs::Error` to an error code
pub fn fs_error_to_errno(e: Error) -> (r: u8)
    ensures
        r == fs_errno(e),
        r != 0,
{
    match e {
        Error::OutOfFlash => 1,
        Error::NoSuchTag => 2,
        Error::InvalidLengthForTag => 3,
        Error::IO(e) => {
            let code = flash_io_error_to_errno(e) as u8;
            assert(0x80u8 | code == 0x80 + code) by (bit_vector)
                requires
                    code <= 3,
            ;
            0x80 | code
        },
    }
}

/// No two errors of the filesystem have the same code, but for the unknown
/// errors of the flash, which all have one.
pub proof fn lemma_errno_distinct(a: Error, b: Error)
    requires
        fs_errno(a) == fs_errno(b),
    ensures
        a == b || (a matches Error::IO(IOError::UnknownError(_)) && b matches Error::IO(
            IOError::UnknownError(_),
        )),
{
}

/// Extracts `package`, `class` and `method` value to execute from `value`:
/// its third, second and first byte.
pub fn compute_method_info(value: u32) -> (r: (u8, u8, u8))
    ensures
        r.0 == (value >> 16) & 0xFF,
        r.1 == (value >> 8) & 0xFF,
        r.2 == value & 0xFF,
{
    let package = (((value >> 16) & 0x0000_FFFF) & 0xFF) as u8;
    let class = (((value >> 8) & 0x0000_FFFF) & 0xFF) as u8;
    let method = ((value & 0x0000_FFFF) & 0xFF) as u8;
    assert(((value >> 16) & 0x0000_FFFF) & 0xFF == (value >> 16) & 0xFF && ((value >> 8)
        & 0x0000_FFFF) & 0xFF == (value >> 8) & 0xFF && (value & 0x0000_FFFF) & 0xFF == value
        & 0xFF && (value >> 16) & 0xFF <= 0xFF && (value >> 8) & 0xFF <= 0xFF && value & 0xFF
        <= 0xFF) by (bit_vector);
    (package, class, method)
}

/// What the contexts are once the board has booted with the contexts `c`,
/// each but the first with `size` bytes: the memory protection unit is set
/// up for unprivileged code that runs in the range of the context 0, which
/// runs, in thread mode and unprivileged, and nothing else has happened.
pub open spec fn booted(c: Seq<AllocatableContext>, size: usize, interrupt_stack: usize) -> Snapshot {
    Snapshot {
        contexts: Some(allocation(c, size)),
        current: 0,
        heap: (0, 0),
        window: Window { bottom: 0x2000_0000, size: CTX0_SIZE, stack_heap_limit: 0x2000_4000 },
        calls: Seq::empty(),
        frames: Map::empty(),
        cpu: EmulatorState { privileged: false, in_exception: false, other_sp: interrupt_stack },
        regions: with_fixed_regions(Seq::new(8, |i: int| crate::mpu_ll::unset())).update(
            6,
            read_write(0x2000_0000, CTX0_SIZE),
        ),
        protecting: true,
    }
}

/// Initializes the memory protection unit and sets up the contexts `c`, in
/// ranges of the memory that are zeroed. Also drops privileges: exceptions
/// run on the stack `interrupt_stack` from then on.
///
/// Returns nothing, and does nothing, where there are less than two
/// contexts, or so many that the memory has no range for each that the unit
/// can protect.
pub fn mpu_init(ram: &mut Ram, c: &[AllocatableContext], interrupt_stack: usize) -> (r: Option<
    Contexts,
>)
    requires
        old(ram).wf(),
        old(ram).holds(pool_begin(), pool_size() as int),
    ensures
        final(ram).wf(),
        final(ram).begin() == old(ram).begin(),
        match r {
            Some(state) => {
                &&& chosen_size(c@.len() as int) matches Some(size)
                &&& size >= 32
                &&& state.wf()
                &&& state@ == booted(c@, size, interrupt_stack)
                &&& state@.protected()
                &&& state@.bounded()
                &&& final(ram)@ == cleared(*old(ram), c@.len() as int, size)
            },
            None => {
                &&& !(chosen_size(c@.len() as int) matches Some(size) && size >= 32)
                &&& final(ram)@ == old(ram)@
            },
        },
{
    match choose_size(c.len()) {
        Some(size) => {
            if size < 32 {
                return None;
            }
        },
        None => {
            return None;
        },
    }
    proof {
        assert(0x20000usize & 0x1ffffusize == 0) by (bit_vector);
        assert(0x2000_0000usize & 0x1ffffusize == 0) by (bit_vector);
    }
    let mut mpu = Mpu::get();
    let ghost unset = mpu.regions();
    mpu.setup();
    mpu.setup_unpriv_regions();
    mpu.switch_userland(ram_begin(), CTX0_SIZE);
    let contexts = allocate_contexts(ram, c);
    let mut state = Contexts::new(EmulatorState::new(), mpu);
    init_contexts(&mut state, contexts);
    state.drop_privileges(interrupt_stack);
    proof {
        lemma_userland(unset, 0x2000_0000, CTX0_SIZE);
        assert(unset =~= Seq::new(8, |i: int| crate::mpu_ll::unset()));
        crate::context::TopOfStack::lemma_of(0x2000_2000, 0x2000_4000, None);
    }
    Some(state)
}

/// The contexts of the card: the kernel, the buffer of the commands, the
/// installer and one more
pub fn mpu_init_javacard(ram: &mut Ram, entrypoints: [RemoteCallEnter; 4], interrupt_stack: usize) -> (r:
    Option<Contexts>)
    requires
        old(ram).wf(),
        old(ram).holds(pool_begin(), pool_size() as int),
    ensures
        final(ram).wf(),
        final(ram).begin() == old(ram).begin(),
        match r {
            Some(state) => {
                &&& chosen_size(4) matches Some(size)
                &&& size >= 32
                &&& state.wf()
                &&& state@ == booted(
                    Seq::new(4, |i: int| AllocatableContext { entrypoint: entrypoints@[i] }),
                    size,
                    interrupt_stack,
                )
                &&& state@.protected()
                &&& state@.bounded()
                &&& final(ram)@ == cleared(*old(ram), 4, size)
            },
            None => {
                &&& !(chosen_size(4) matches Some(size) && size >= 32)
                &&& final(ram)@ == old(ram)@
            },
        },
{
    let c = [
        AllocatableContext { entrypoint: entrypoints[0] },
        AllocatableContext { entrypoint: entrypoints[1] },
        AllocatableContext { entrypoint: entrypoints[2] },
        AllocatableContext { entrypoint: entrypoints[3] },
    ];
    proof {
        assert(c@ =~= Seq::new(4, |i: int| AllocatableContext { entrypoint: entrypoints@[i] }));
    }
    mpu_init(ram, c.as_slice(), interrupt_stack)
}

/// The code of what taking a lock on `length` bytes from `start` on of the
/// `i`-th sector of `flash` gives, for writing or for reading: zero where the
/// lock is given.
pub open spec fn lock_errno(flash: Flash, i: int, write: bool, start: usize, length: usize) -> u32 {
    if flash.handle(i).out_of_bounds(start, length) {
        2
    } else if (write && flash.writing()) || flash.conflicts(i, Lock { write, start, length }) {
        1
    } else {
        0
    }
}

/// The flash `new` is `old` but for what the `i`-th sector holds.
pub open spec fn rewritten(new: Flash, old: Flash, i: int) -> bool {
    &&& new.wf()
    &&& new.writing() == old.writing()
    &&& new.same_but_locks(old, i)
    &&& new.same_but_bytes(old, i)
    &&& forall|l: Lock| #![trigger new.holds(i, l)] new.holds(i, l) <==> old.holds(i, l)
}

/// Writes a byte to the flash.
///
/// Writes byte `val` to sector `sector`, which is a sector of the flash, at
/// index `idx`: the bits of the byte that `val` does not have are cleared.
/// Returns zero, or the code of the error.
///
/// # Errors
///
/// Errors if an out-of-bounds index is given, if the byte position being
/// written is currently locked, or if the flash is open in writing.
pub fn flash_write(flash: &mut Flash, sector: u8, idx: u32, val: u8) -> (r: u32)
    requires
        old(flash).wf(),
        sector < old(flash).sector_count(),
    ensures
        rewritten(*final(flash), *old(flash), sector as int),
        r == lock_errno(*old(flash), sector as int, true, idx as usize, 1),
        final(flash).bytes(sector as int) == if r == 0 {
            old(flash).bytes(sector as int).update(
                idx as int,
                old(flash).bytes(sector as int)[idx as int] & val,
            )
        } else {
            old(flash).bytes(sector as int)
        },
{
    let s = flash.sector(SectorID(sector as usize));
    proof {
        flash.lemma_bytes_len(sector as int);
    }
    let b = match s.with_writer(flash, idx as usize, 1) {
        Ok(b) => b,
        Err(e) => {
            return flash_io_error_to_errno(e);
        },
    };
    let res = b.write(flash, 0, val);
    b.release(flash);
    match res {
        Ok(()) => 0,
        Err(e) => flash_io_error_to_errno(e),
    }
}

/// Reads a byte from the flash.
///
/// Reads byte on sector `sector`, which is a sector of the flash, at index
/// `idx` and returns it, with zero. If an error is raised, returns zero with
/// the code of the error.
///
/// A lock for reading that was held on that byte alone is given back with
/// the one that this takes.
///
/// # Errors
///
/// Errors if an out-of-bounds index is given, or if the byte position being
/// read is currently locked in writing.
pub fn flash_read(flash: &mut Flash, sector: u8, idx: u32) -> (r: (u8, u32))
    requires
        old(flash).wf(),
        sector < old(flash).sector_count(),
    ensures
        final(flash).wf(),
        final(flash).writing() == old(flash).writing(),
        final(flash).same_but_locks(*old(flash), sector as int),
        final(flash).same_bytes(*old(flash)),
        forall|l: Lock|
            #![trigger final(flash).holds(sector as int, l)]
            final(flash).holds(sector as int, l) <==> (old(flash).holds(sector as int, l) && !(r.1
                == 0 && l == Lock { write: false, start: idx as usize, length: 1 })),
        r.1 == lock_errno(*old(flash), sector as int, false, idx as usize, 1),
        r.0 == if r.1 == 0 {
            old(flash).bytes(sector as int)[idx as int]
        } else {
            0
        },
{
    let s = flash.sector(SectorID(sector as usize));
    proof {
        flash.lemma_bytes_len(sector as int);
    }
    match s.read(flash, idx as usize, 1) {
        Ok(x) => {
            let v = match x.get(flash, 0) {
                Some(v) => v,
                None => 0,
            };
            x.release(flash);
            (v, 0)
        },
        Err(e) => (0, flash_io_error_to_errno(e)),
    }
}

/// Erases a flash sector.
///
/// Erases flash sector `sector`, which is a sector of the flash. Returns
/// zero, or the code of the error.
///
/// # Errors
///
/// Errors if a part of the sector is currently being locked in reading or
/// writing somewhere else, or if the flash is open in writing.
pub fn flash_erase(flash: &mut Flash, sector: u8) -> (r: u32)
    requires
        old(flash).wf(),
        sector < old(flash).sector_count(),
        old(flash).handle(sector as int).length() > 0,
    ensures
        rewritten(*final(flash), *old(flash), sector as int),
        r == lock_errno(
            *old(flash),
            sector as int,
            true,
            0,
            old(flash).handle(sector as int).length() as usize,
        ),
        final(flash).bytes(sector as int) == if r == 0 {
            blank(old(flash).handle(sector as int).length() as nat)
        } else {
            old(flash).bytes(sector as int)
        },
{
    let s = flash.sector(SectorID(sector as usize));
    proof {
        flash.lemma_bytes_len(sector as int);
        s.lemma_range();
    }
    match s.erase(flash) {
        Ok(()) => 0,
        Err(e) => flash_io_error_to_errno(e),
    }
}

/// Erases a flash sector with 0's.
///
/// Erases flash sector `sector`, which is a sector of the flash, with 0's.
/// Returns zero, or the code of the error.
///
/// # Errors
///
/// Errors if a part of the sector is currently being locked in reading or
/// writing somewhere else, or if the flash is open in writing.
pub fn flash_erase0(flash: &mut Flash, sector: u8) -> (r: u32)
    requires
        old(flash).wf(),
        sector < old(flash).sector_count(),
        old(flash).handle(sector as int).length() > 0,
    ensures
        rewritten(*final(flash), *old(flash), sector as int),
        r == lock_errno(
            *old(flash),
            sector as int,
            true,
            0,
            old(flash).handle(sector as int).length() as usize,
        ),
        final(flash).bytes(sector as int) == if r == 0 {
            zeros(old(flash).handle(sector as int).length() as nat)
        } else {
            old(flash).bytes(sector as int)
        },
{
    let s = flash.sector(SectorID(sector as usize));
    proof {
        flash.lemma_bytes_len(sector as int);
        s.lemma_range();
    }
    let b = match s.with_writer(flash, 0, s.len()) {
        Ok(b) => b,
        Err(e) => {
            return flash_io_error_to_errno(e);
        },
    };
    let res = b.zero_block(flash, 0, s.len());
    b.release(flash);
    proof {
        let n = s.length() as nat;
        assert forall|j: int| 0 <= j < n implies #[trigger] and_range(
            old(flash).bytes(sector as int),
            0,
            zeros(n),
        )[j] == 0u8 by {
            let x = old(flash).bytes(sector as int)[j];
            assert(x & 0u8 == 0u8) by (bit_vector);
        }
        assert(and_range(old(flash).bytes(sector as int), 0, zeros(n)) =~= zeros(n));
    }
    match res {
        Ok(()) => 0,
        Err(e) => flash_io_error_to_errno(e),
    }
}

} // verus!
