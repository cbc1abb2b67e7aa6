//! The flash device: NOR memory cut into sectors, behind a write latch.
//!
//! A bit of the memory can be written from 1 to 0 at any time, one word at a
//! time; only the erasure of a whole sector brings bits back to 1. Nothing is
//! written or erased while the latch is locked. The device has a register in
//! which it reports an operation that went wrong; none of this device does,
//! and it is never busy.

use crate::flash::SectorInfo;
use crate::memory::FlashAligned;
use vstd::prelude::*;

verus! {

/// The `k`-th byte of a word, the lowest first.
pub open spec fn byte_of(word: u32, k: int) -> u8 {
    if k == 0 {
        (word & 0xFF) as u8
    } else if k == 1 {
        ((word >> 8) & 0xFF) as u8
    } else if k == 2 {
        ((word >> 16) & 0xFF) as u8
    } else {
        ((word >> 24) & 0xFF) as u8
    }
}

/// The word made of four bytes, the lowest first.
pub open spec fn word_of(b0: u8, b1: u8, b2: u8, b3: u8) -> u32 {
    (b0 as u32) | ((b1 as u32) << 8) | ((b2 as u32) << 16) | ((b3 as u32) << 24)
}

/// The bytes of a word are those it was made of.
pub proof fn lemma_word_bytes(b0: u8, b1: u8, b2: u8, b3: u8)
    ensures
        byte_of(word_of(b0, b1, b2, b3), 0) == b0,
        byte_of(word_of(b0, b1, b2, b3), 1) == b1,
        byte_of(word_of(b0, b1, b2, b3), 2) == b2,
        byte_of(word_of(b0, b1, b2, b3), 3) == b3,
{
    let w = word_of(b0, b1, b2, b3);
    assert((w & 0xFF) as u8 == b0 && ((w >> 8) & 0xFF) as u8 == b1 && ((w >> 16) & 0xFF) as u8
        == b2 && ((w >> 24) & 0xFF) as u8 == b3) by (bit_vector)
        requires
            w == (b0 as u32) | ((b1 as u32) << 8) | ((b2 as u32) << 16) | ((b3 as u32) << 24),
    ;
}

/// What programming the word `val` at `addr` leaves in the memory: each of the
/// four bytes keeps only the bits that `val` has too.
pub open spec fn programmed(mem: Seq<u8>, addr: int, val: u32) -> Seq<u8> {
    Seq::new(
        mem.len(),
        |i: int|
            if addr <= i < addr + 4 {
                mem[i] & byte_of(val, i - addr)
            } else {
                mem[i]
            },
    )
}

/// What erasing the bytes from `begin` on, `size` of them, leaves in the memory.
pub open spec fn erased(mem: Seq<u8>, begin: int, size: int) -> Seq<u8> {
    Seq::new(
        mem.len(),
        |i: int|
            if begin <= i < begin + size {
                0xFFu8
            } else {
                mem[i]
            },
    )
}

/// The flash device
pub struct FlashDevice {
    /// The memory-mapped contents
    mem: FlashAligned,
    /// For each sector its first byte in the memory and its length
    layout: Vec<(usize, usize)>,
    /// Whether the latch refuses writes
    locked: bool,
    /// What the device reports of an operation that went wrong: zero when
    /// none did
    error: u32,
}

impl FlashDevice {
    /// Every sector lies within the memory, and the device reports no error.
    pub closed spec fn wf(&self) -> bool {
        &&& self.mem.wf()
        &&& self.error == 0
        &&& forall|i: int|
            0 <= i < self.layout@.len() ==> (#[trigger] self.layout@[i]).0 + self.layout@[i].1
                <= self.mem@.len()
    }

    /// The contents of the memory.
    pub closed spec fn view(&self) -> Seq<u8> {
        self.mem@
    }

    /// For each sector its first byte in the memory and its length.
    pub closed spec fn layout(&self) -> Seq<(usize, usize)> {
        self.layout@
    }

    /// Whether the latch refuses writes.
    pub closed spec fn is_locked(&self) -> bool {
        self.locked
    }

    /// What the device reports of an operation that went wrong: zero when
    /// none did.
    pub closed spec fn error(&self) -> u32 {
        self.error
    }

    /// The device once it reports no error any more.
    pub closed spec fn cleared(&self) -> FlashDevice {
        FlashDevice { error: 0, ..*self }
    }

    /// A device that is as it should reports no error, and one that reports
    /// none is what it is once it reports none any more.
    pub proof fn lemma_error(&self)
        ensures
            self.wf() ==> self.error() == 0,
            self.error() == 0 ==> self.cleared() == *self,
            self.cleared().error() == 0,
            self.cleared()@ == self@,
            self.cleared().layout() == self.layout(),
            self.cleared().is_locked() == self.is_locked(),
            self.cleared().begin() == self.begin(),
    {
    }

    /// Address of the first byte of the memory.
    pub closed spec fn begin(&self) -> int {
        self.mem.begin()
    }

    /// A device whose memory, an array at address `origin`, is aligned to
    /// `align` and holds `size` erased bytes, cut into the sectors of
    /// `layout`. `None` if a sector of `layout` reaches past the memory.
    pub fn new(origin: usize, align: usize, size: usize, layout: Vec<(usize, usize)>) -> (r:
        Option<FlashDevice>)
        requires
            align > 0,
            origin + align + size <= usize::MAX,
        ensures
            r is Some <==> forall|i: int|
                0 <= i < layout@.len() ==> (#[trigger] layout@[i]).0 + layout@[i].1 <= size,
            r matches Some(d) ==> {
                &&& d.wf()
                &&& d.is_locked()
                &&& d.layout() == layout@
                &&& d@ == Seq::new(size as nat, |i: int| 0xFFu8)
            },
    {
        let mut i: usize = 0;
        while i < layout.len()
            invariant
                i <= layout@.len(),
                forall|j: int| 0 <= j < i ==> (#[trigger] layout@[j]).0 + layout@[j].1 <= size,
            decreases layout@.len() - i,
        {
            let (begin, length) = layout[i];
            if begin > size || length > size - begin {
                return None;
            }
            i += 1;
        }
        Some(
            FlashDevice {
                mem: FlashAligned::new(origin, align, size, 0xFF),
                layout,
                locked: true,
                error: 0,
            },
        )
    }

    /// Each sector lies within the memory.
    pub proof fn lemma_layout(&self, i: int)
        requires
            self.wf(),
            0 <= i < self.layout().len(),
        ensures
            self.layout()[i].0 + self.layout()[i].1 <= self@.len(),
            self@.len() <= usize::MAX,
    {
        self.mem.lemma_len();
    }

    /// The memory is no longer than an array can be.
    pub proof fn lemma_len(&self)
        requires
            self.wf(),
        ensures
            self@.len() <= usize::MAX,
            0 <= self.begin(),
            self.begin() + self@.len() <= usize::MAX,
    {
        self.mem.lemma_len();
    }

    /// The contents of the memory.
    pub fn memory(&self) -> (r: &[u8])
        requires
            self.wf(),
        ensures
            r@ == self@,
    {
        self.mem.get()
    }

    /// Address of the first byte of the memory.
    pub fn begin_addr(&self) -> (a: usize)
        requires
            self.wf(),
        ensures
            a == self.begin(),
    {
        self.mem.begin_addr()
    }
}

/// The sectors of the device, as the flash layer wants them described
pub fn sectors(dev: &FlashDevice) -> (r: Vec<SectorInfo>)
    requires
        dev.wf(),
        dev.layout().len() <= u32::MAX,
    ensures
        r@.len() == dev.layout().len(),
        forall|i: int|
            0 <= i < r@.len() ==> (#[trigger] r@[i]).num == i && r@[i].start == dev.layout()[i].0
                && r@[i].length == dev.layout()[i].1,
{
    let mut r: Vec<SectorInfo> = Vec::new();
    let mut i: usize = 0;
    while i < dev.layout.len()
        invariant
            i <= dev.layout@.len(),
            dev.layout@.len() <= u32::MAX,
            r@.len() == i,
            forall|j: int|
                0 <= j < i ==> (#[trigger] r@[j]).num == j && r@[j].start == dev.layout@[j].0
                    && r@[j].length == dev.layout@[j].1,
        decreases dev.layout@.len() - i,
    {
        let (begin, length) = dev.layout[i];
        r.push(SectorInfo { num: i as u32, start: begin, length });
        i += 1;
    }
    r
}

/// Whether the latch refuses writes
pub fn locked(dev: &FlashDevice) -> (r: bool)
    ensures
        r == dev.is_locked(),
{
    dev.locked
}

/// Opens the latch, so that the memory can be written
pub fn unlock(dev: &mut FlashDevice)
    requires
        old(dev).is_locked(),
    ensures
        !final(dev).is_locked(),
        final(dev)@ == old(dev)@,
        final(dev).layout() == old(dev).layout(),
        final(dev).begin() == old(dev).begin(),
        final(dev).wf() == old(dev).wf(),
{
    dev.locked = false;
}

/// Closes the latch, so that the memory cannot be written until the next
/// `unlock`
pub fn lock(dev: &mut FlashDevice)
    requires
        !old(dev).is_locked(),
    ensures
        final(dev).is_locked(),
        final(dev)@ == old(dev)@,
        final(dev).layout() == old(dev).layout(),
        final(dev).begin() == old(dev).begin(),
        final(dev).wf() == old(dev).wf(),
{
    dev.locked = true;
}

/// Configures the device, which must be unlocked. This device has nothing to
/// configure.
pub fn setup(dev: &mut FlashDevice)
    requires
        !old(dev).is_locked(),
    ensures
        *final(dev) == *old(dev),
{
}

/// Returns 0 if there was no error, and a non-zero value if the device
/// reports one. No operation of this device goes wrong, so that a device
/// that is as it should reports none.
pub fn has_error(dev: &FlashDevice) -> (r: u32)
    ensures
        r == dev.error(),
        dev.wf() ==> r == 0,
{
    dev.error
}

/// Clears the error that the device reports
pub fn clear_error(dev: &mut FlashDevice)
    ensures
        *final(dev) == old(dev).cleared(),
        old(dev).wf() ==> *final(dev) == *old(dev),
{
    dev.error = 0;
}

/// Returns `true` if the device is busy writing something. This device is
/// done with each operation when it returns.
pub fn currently_busy(dev: &FlashDevice) -> (r: bool)
    ensures
        !r,
{
    false
}

/// Erases a sector, which leaves `0xFF` in each of its bytes. The device must
/// be unlocked.
pub fn erase(dev: &mut FlashDevice, sector: u32)
    requires
        old(dev).wf(),
        !old(dev).is_locked(),
        sector < old(dev).layout().len(),
    ensures
        final(dev).wf(),
        !final(dev).is_locked(),
        final(dev).layout() == old(dev).layout(),
        final(dev).begin() == old(dev).begin(),
        final(dev)@ == erased(
            old(dev)@,
            old(dev).layout()[sector as int].0 as int,
            old(dev).layout()[sector as int].1 as int,
        ),
{
    let (begin, size) = dev.layout[sector as usize];
    let total = dev.mem.len();
    assert(dev.layout@[sector as int].0 + dev.layout@[sector as int].1 <= total);
    let mut i: usize = begin;
    while i < begin + size
        invariant
            begin <= i <= begin + size,
            begin + size <= total,
            total == old(dev)@.len(),
            dev.mem.wf(),
            dev.mem.begin() == old(dev).mem.begin(),
            dev.layout == old(dev).layout,
            dev.locked == old(dev).locked,
            dev.error == old(dev).error,
            dev.mem@ == erased(old(dev)@, begin as int, i - begin),
        decreases begin + size - i,
    {
        dev.mem.set(i, 0xFF);
        proof {
            assert(dev.mem@ =~= erased(old(dev)@, begin as int, i + 1 - begin));
        }
        i += 1;
    }
    proof {
        assert(erased(old(dev)@, begin as int, 0) =~= old(dev)@);
    }
}

/// Programs a 32-bit value at the word-aligned place `addr` of the memory:
/// bits that are 0 in `val` become 0 there. The device must be unlocked.
pub fn write(dev: &mut FlashDevice, addr: usize, val: u32)
    requires
        old(dev).wf(),
        !old(dev).is_locked(),
        addr % 4 == 0,
        addr + 4 <= old(dev)@.len(),
    ensures
        final(dev).wf(),
        !final(dev).is_locked(),
        final(dev).layout() == old(dev).layout(),
        final(dev).begin() == old(dev).begin(),
        final(dev)@ == programmed(old(dev)@, addr as int, val),
{
    let m = dev.mem.get();
    let b0 = m[addr] & ((val & 0xFF) as u8);
    let b1 = m[addr + 1] & (((val >> 8) & 0xFF) as u8);
    let b2 = m[addr + 2] & (((val >> 16) & 0xFF) as u8);
    let b3 = m[addr + 3] & (((val >> 24) & 0xFF) as u8);
    dev.mem.set(addr, b0);
    dev.mem.set(addr + 1, b1);
    dev.mem.set(addr + 2, b2);
    dev.mem.set(addr + 3, b3);
    proof {
        assert(dev.mem@ =~= programmed(old(dev)@, addr as int, val));
    }
}

/// Reads the word at the word-aligned place `addr` of the memory, its lowest
/// byte first.
pub fn read(dev: &FlashDevice, addr: usize) -> (r: u32)
    requires
        dev.wf(),
        addr + 4 <= dev@.len(),
    ensures
        r == word_of(dev@[addr as int], dev@[addr + 1], dev@[addr + 2], dev@[addr + 3]),
{
    let m = dev.mem.get();
    (m[addr] as u32) | ((m[addr + 1] as u32) << 8) | ((m[addr + 2] as u32) << 16) | ((m[addr
        + 3] as u32) << 24)
}

} // verus!
