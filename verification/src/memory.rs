//! Byte arrays that stand for the memories of the board.
//!
//! The protection unit works on naturally aligned regions, so each memory is a
//! window cut out of a larger array: the window starts at the first multiple
//! of the alignment that lies after the array's first byte.

use vstd::prelude::*;
use vstd::slice::slice_subrange;

verus! {

/// `addr` with the bits of `align - 1` cleared, plus `align`: where the window
/// of an array that starts at `addr` begins.
pub open spec fn aligned_after(addr: usize, align: usize) -> int {
    (addr & !((align - 1) as usize)) + align
}

proof fn lemma_aligned_after(addr: usize, align: usize)
    requires
        align > 0,
    ensures
        addr < aligned_after(addr, align) <= addr + align,
{
    let mask = (align - 1) as usize;
    assert(addr & !mask <= addr && addr - (addr & !mask) <= mask) by (bit_vector);
}

/// RAM memory organization
pub struct RamAligned {
    unaligned: Vec<u8>,
    origin: usize,
    align: usize,
    size: usize,
}

/// Flash memory organization
pub struct FlashAligned {
    unaligned: Vec<u8>,
    origin: usize,
    align: usize,
    size: usize,
}

/// RAM accessor
impl RamAligned {
    /// The array is as long as the alignment and the window together, which
    /// is enough wherever the array lies.
    pub closed spec fn wf(&self) -> bool {
        &&& self.align > 0
        &&& self.origin + self.align + self.size <= usize::MAX
        &&& self.unaligned@.len() == self.align + self.size
    }

    /// Address of the first byte of the window.
    pub closed spec fn begin(&self) -> int {
        aligned_after(self.origin, self.align)
    }

    /// The bytes of the window.
    pub closed spec fn view(&self) -> Seq<u8> {
        self.unaligned@.subrange(
            self.begin() - self.origin,
            self.begin() - self.origin + self.size,
        )
    }

    /// A memory of `size` bytes, each `fill`, aligned to `align`, in an array
    /// that the machine has put at address `origin`.
    pub fn new(origin: usize, align: usize, size: usize, fill: u8) -> (m: RamAligned)
        requires
            align > 0,
            origin + align + size <= usize::MAX,
        ensures
            m.wf(),
            m@ == Seq::new(size as nat, |i: int| fill),
            m.begin() == aligned_after(origin, align),
    {
        let mut unaligned: Vec<u8> = Vec::new();
        let total = align + size;
        let mut i: usize = 0;
        while i < total
            invariant
                i <= total,
                unaligned@.len() == i,
                forall|j: int| 0 <= j < i ==> unaligned@[j] == fill,
            decreases total - i,
        {
            unaligned.push(fill);
            i += 1;
        }
        proof {
            lemma_aligned_after(origin, align);
        }
        RamAligned { unaligned, origin, align, size }
    }

    /// The window is no longer than an array can be.
    pub proof fn lemma_len(&self)
        requires
            self.wf(),
        ensures
            self@.len() <= usize::MAX,
            0 <= self.begin(),
            self.begin() + self@.len() <= usize::MAX,
    {
        lemma_aligned_after(self.origin, self.align);
    }

    /// Address of the first byte of the window.
    pub fn begin_addr(&self) -> (a: usize)
        requires
            self.wf(),
        ensures
            a == self.begin(),
    {
        proof {
            lemma_aligned_after(self.origin, self.align);
        }
        (self.origin & !(self.align - 1)) + self.align
    }

    /// Length of the window.
    pub fn len(&self) -> (n: usize)
        requires
            self.wf(),
        ensures
            n == self@.len(),
    {
        proof {
            lemma_aligned_after(self.origin, self.align);
        }
        self.size
    }

    /// Const getter memory access
    pub fn get(&self) -> (r: &[u8])
        requires
            self.wf(),
        ensures
            r@ == self@,
    {
        proof {
            lemma_aligned_after(self.origin, self.align);
        }
        let begin_addr = self.origin;
        let aligned_begin_addr = (begin_addr & !(self.align - 1)) + self.align;
        let offset = aligned_begin_addr - begin_addr;
        slice_subrange(self.unaligned.as_slice(), offset, offset + self.size)
    }

    /// Mutable getter memory access: what is written through it, which
    /// leaves the length as it is, is written in the window
    pub fn get_mut(&mut self) -> (r: &mut [u8])
        requires
            old(self).wf(),
        ensures
            r@ == old(self)@,
            final(r)@.len() == r@.len() ==> final(self).wf() && final(self).begin() == old(
                self,
            ).begin() && final(self)@ == final(r)@,
    {
        proof {
            lemma_aligned_after(self.origin, self.align);
        }
        let offset = (self.origin & !(self.align - 1)) + self.align - self.origin;
        let size = self.size;
        let whole = self.unaligned.as_mut_slice();
        let (_, rest) = whole.split_at_mut(offset);
        let (window, _) = rest.split_at_mut(size);
        proof {
            assert(window@ =~= old(self)@);
        }
        window
    }

    /// Writes one byte of the window.
    pub fn set(&mut self, i: usize, v: u8)
        requires
            old(self).wf(),
            i < old(self)@.len(),
        ensures
            final(self).wf(),
            final(self).begin() == old(self).begin(),
            final(self)@ == old(self)@.update(i as int, v),
    {
        proof {
            lemma_aligned_after(self.origin, self.align);
        }
        let offset = (self.origin & !(self.align - 1)) + self.align - self.origin;
        self.unaligned[offset + i] = v;
        proof {
            assert(self@ =~= old(self)@.update(i as int, v));
        }
    }
}

/// FLASH accessor
impl FlashAligned {
    /// The array is as long as the alignment and the window together, which
    /// is enough wherever the array lies.
    pub closed spec fn wf(&self) -> bool {
        &&& self.align > 0
        &&& self.origin + self.align + self.size <= usize::MAX
        &&& self.unaligned@.len() == self.align + self.size
    }

    /// Address of the first byte of the window.
    pub closed spec fn begin(&self) -> int {
        aligned_after(self.origin, self.align)
    }

    /// The bytes of the window.
    pub closed spec fn view(&self) -> Seq<u8> {
        self.unaligned@.subrange(
            self.begin() - self.origin,
            self.begin() - self.origin + self.size,
        )
    }

    /// A memory of `size` bytes, each `fill`, aligned to `align`, in an array
    /// that the machine has put at address `origin`.
    pub fn new(origin: usize, align: usize, size: usize, fill: u8) -> (m: FlashAligned)
        requires
            align > 0,
            origin + align + size <= usize::MAX,
        ensures
            m.wf(),
            m@ == Seq::new(size as nat, |i: int| fill),
            m.begin() == aligned_after(origin, align),
    {
        let mut unaligned: Vec<u8> = Vec::new();
        let total = align + size;
        let mut i: usize = 0;
        while i < total
            invariant
                i <= total,
                unaligned@.len() == i,
                forall|j: int| 0 <= j < i ==> unaligned@[j] == fill,
            decreases total - i,
        {
            unaligned.push(fill);
            i += 1;
        }
        proof {
            lemma_aligned_after(origin, align);
        }
        FlashAligned { unaligned, origin, align, size }
    }

    /// The window is no longer than an array can be.
    pub proof fn lemma_len(&self)
        requires
            self.wf(),
        ensures
            self@.len() <= usize::MAX,
            0 <= self.begin(),
            self.begin() + self@.len() <= usize::MAX,
    {
        lemma_aligned_after(self.origin, self.align);
    }

    /// Address of the first byte of the window.
    pub fn begin_addr(&self) -> (a: usize)
        requires
            self.wf(),
        ensures
            a == self.begin(),
    {
        proof {
            lemma_aligned_after(self.origin, self.align);
        }
        (self.origin & !(self.align - 1)) + self.align
    }

    /// Length of the window.
    pub fn len(&self) -> (n: usize)
        requires
            self.wf(),
        ensures
            n == self@.len(),
    {
        proof {
            lemma_aligned_after(self.origin, self.align);
        }
        self.size
    }

    /// Const getter memory access
    pub fn get(&self) -> (r: &[u8])
        requires
            self.wf(),
        ensures
            r@ == self@,
    {
        proof {
            lemma_aligned_after(self.origin, self.align);
        }
        let begin_addr = self.origin;
        let aligned_begin_addr = (begin_addr & !(self.align - 1)) + self.align;
        let offset = aligned_begin_addr - begin_addr;
        slice_subrange(self.unaligned.as_slice(), offset, offset + self.size)
    }

    /// Mutable getter memory access: what is written through it, which
    /// leaves the length as it is, is written in the window
    pub fn get_mut(&mut self) -> (r: &mut [u8])
        requires
            old(self).wf(),
        ensures
            r@ == old(self)@,
            final(r)@.len() == r@.len() ==> final(self).wf() && final(self).begin() == old(
                self,
            ).begin() && final(self)@ == final(r)@,
    {
        proof {
            lemma_aligned_after(self.origin, self.align);
        }
        let offset = (self.origin & !(self.align - 1)) + self.align - self.origin;
        let size = self.size;
        let whole = self.unaligned.as_mut_slice();
        let (_, rest) = whole.split_at_mut(offset);
        let (window, _) = rest.split_at_mut(size);
        proof {
            assert(window@ =~= old(self)@);
        }
        window
    }

    /// Writes one byte of the window.
    pub fn set(&mut self, i: usize, v: u8)
        requires
            old(self).wf(),
            i < old(self)@.len(),
        ensures
            final(self).wf(),
            final(self).begin() == old(self).begin(),
            final(self)@ == old(self)@.update(i as int, v),
    {
        proof {
            lemma_aligned_after(self.origin, self.align);
        }
        let offset = (self.origin & !(self.align - 1)) + self.align - self.origin;
        self.unaligned[offset + i] = v;
        proof {
            assert(self@ =~= old(self)@.update(i as int, v));
        }
    }
}

} // verus!
