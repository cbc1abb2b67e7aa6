//! The memory that the contexts run in, as bytes at addresses

use crate::flash_ll::{byte_of, lemma_word_bytes, word_of};
use vstd::prelude::*;

verus! {

/// Size of a word of the processor, in bytes
pub const WORD: usize = 4;

/// The memory
pub struct Ram {
    /// Address of the first byte
    begin: usize,
    /// The bytes
    bytes: Vec<u8>,
}

/// The bytes `mem` with `data` in place of those from the `at`-th on.
pub open spec fn patched(mem: Seq<u8>, at: int, data: Seq<u8>) -> Seq<u8> {
    Seq::new(
        mem.len(),
        |i: int|
            if at <= i < at + data.len() {
                data[i - at]
            } else {
                mem[i]
            },
    )
}

/// The four bytes of a word, the lowest first.
pub open spec fn word_bytes(word: u32) -> Seq<u8> {
    seq![byte_of(word, 0), byte_of(word, 1), byte_of(word, 2), byte_of(word, 3)]
}

/// The word that four bytes make, the lowest first.
pub open spec fn bytes_word(bytes: Seq<u8>) -> u32 {
    word_of(bytes[0], bytes[1], bytes[2], bytes[3])
}

/// The bytes of a word make the word.
pub proof fn lemma_word(word: u32)
    ensures
        bytes_word(word_bytes(word)) == word,
{
    assert(((word & 0xFF) as u8 as u32) | ((((word >> 8) & 0xFF) as u8 as u32) << 8) | ((((word
        >> 16) & 0xFF) as u8 as u32) << 16) | ((((word >> 24) & 0xFF) as u8 as u32) << 24) == word)
        by (bit_vector);
}

impl Ram {
    /// The memory ends in the address space.
    pub closed spec fn wf(&self) -> bool {
        self.begin + self.bytes@.len() <= usize::MAX
    }

    /// Address of the first byte.
    pub closed spec fn begin(&self) -> usize {
        self.begin
    }

    /// The bytes.
    pub closed spec fn view(&self) -> Seq<u8> {
        self.bytes@
    }

    /// Whether the memory has the `len` bytes from `addr` on.
    pub open spec fn holds(&self, addr: usize, len: int) -> bool {
        self.begin() <= addr && addr + len <= self.begin() + self@.len()
    }

    /// The `len` bytes from `addr` on.
    pub open spec fn range(&self, addr: usize, len: int) -> Seq<u8> {
        self@.subrange(addr - self.begin(), addr - self.begin() + len)
    }

    /// The bytes once `data` is written from `addr` on.
    pub open spec fn with(&self, addr: usize, data: Seq<u8>) -> Seq<u8> {
        patched(self@, addr - self.begin(), data)
    }

    /// The memory ends in the address space.
    pub proof fn lemma_len(&self)
        requires
            self.wf(),
        ensures
            self.begin() + self@.len() <= usize::MAX,
    {
    }

    /// A memory of `size` bytes from `begin` on, all zero
    pub fn new(begin: usize, size: usize) -> (m: Ram)
        requires
            begin + size <= usize::MAX,
        ensures
            m.wf(),
            m.begin() == begin,
            m@ == Seq::new(size as nat, |i: int| 0u8),
    {
        let mut bytes: Vec<u8> = Vec::new();
        let mut i: usize = 0;
        while i < size
            invariant
                i <= size,
                bytes@ == Seq::new(i as nat, |k: int| 0u8),
            decreases size - i,
        {
            bytes.push(0);
            i += 1;
            proof {
                assert(bytes@ =~= Seq::new(i as nat, |k: int| 0u8));
            }
        }
        Ram { begin, bytes }
    }

    /// Address of the first byte
    pub fn begin_addr(&self) -> (r: usize)
        ensures
            r == self.begin(),
    {
        self.begin
    }

    /// Size of the memory
    pub fn len(&self) -> (r: usize)
        ensures
            r == self@.len(),
    {
        self.bytes.len()
    }

    /// The bytes of the memory
    pub fn as_slice(&self) -> (r: &[u8])
        ensures
            r@ == self@,
    {
        self.bytes.as_slice()
    }

    /// Whether the memory has the `len` bytes from `addr` on
    pub fn has(&self, addr: usize, len: usize) -> (r: bool)
        requires
            self.wf(),
        ensures
            r == self.holds(addr, len as int),
    {
        self.begin <= addr && addr - self.begin <= self.bytes.len() && len <= self.bytes.len() - (
        addr - self.begin)
    }

    /// Reads the `len` bytes from `addr` on
    pub fn read(&self, addr: usize, len: usize) -> (r: Vec<u8>)
        requires
            self.wf(),
            self.holds(addr, len as int),
        ensures
            r@ == self.range(addr, len as int),
    {
        let at = addr - self.begin;
        let mut r: Vec<u8> = Vec::new();
        let mut i: usize = 0;
        while i < len
            invariant
                i <= len,
                at + len <= self.bytes@.len() <= usize::MAX,
                r@ == self.bytes@.subrange(at as int, at + i),
            decreases len - i,
        {
            r.push(self.bytes[at + i]);
            i += 1;
            proof {
                assert(r@ =~= self.bytes@.subrange(at as int, at + i));
            }
        }
        r
    }

    /// Writes `data` from `addr` on
    pub fn write(&mut self, addr: usize, data: &[u8])
        requires
            old(self).wf(),
            old(self).holds(addr, data@.len() as int),
        ensures
            final(self).wf(),
            final(self).begin() == old(self).begin(),
            final(self)@ == old(self).with(addr, data@),
    {
        let at = addr - self.begin;
        let mut i: usize = 0;
        while i < data.len()
            invariant
                i <= data@.len(),
                at + data@.len() <= self.bytes@.len() <= usize::MAX,
                self.begin == old(self).begin,
                self.bytes@.len() == old(self).bytes@.len(),
                self.bytes@ == patched(old(self).bytes@, at as int, data@.take(i as int)),
            decreases data@.len() - i,
        {
            self.bytes[at + i] = data[i];
            i += 1;
            proof {
                assert(self.bytes@ =~= patched(old(self).bytes@, at as int, data@.take(i as int)));
            }
        }
        proof {
            assert(data@.take(data@.len() as int) =~= data@);
        }
    }

    /// Writes `len` bytes `v` from `addr` on
    pub fn fill(&mut self, addr: usize, len: usize, v: u8)
        requires
            old(self).wf(),
            old(self).holds(addr, len as int),
        ensures
            final(self).wf(),
            final(self).begin() == old(self).begin(),
            final(self)@ == old(self).with(addr, Seq::new(len as nat, |i: int| v)),
    {
        let at = addr - self.begin;
        let mut i: usize = 0;
        while i < len
            invariant
                i <= len,
                at + len <= self.bytes@.len() <= usize::MAX,
                self.begin == old(self).begin,
                self.bytes@.len() == old(self).bytes@.len(),
                self.bytes@ == patched(old(self).bytes@, at as int, Seq::new(i as nat, |k: int| v)),
            decreases len - i,
        {
            self.bytes[at + i] = v;
            i += 1;
            proof {
                assert(self.bytes@ =~= patched(
                    old(self).bytes@,
                    at as int,
                    Seq::new(i as nat, |k: int| v),
                ));
            }
        }
    }

    /// Reads the word at `addr`, its lowest byte first
    pub fn read_word(&self, addr: usize) -> (r: u32)
        requires
            self.wf(),
            self.holds(addr, WORD as int),
        ensures
            r == bytes_word(self.range(addr, WORD as int)),
    {
        let at = addr - self.begin;
        let b0 = self.bytes[at];
        let b1 = self.bytes[at + 1];
        let b2 = self.bytes[at + 2];
        let b3 = self.bytes[at + 3];
        (b0 as u32) | ((b1 as u32) << 8) | ((b2 as u32) << 16) | ((b3 as u32) << 24)
    }

    /// Writes the word `v` at `addr`, its lowest byte first
    pub fn write_word(&mut self, addr: usize, v: u32)
        requires
            old(self).wf(),
            old(self).holds(addr, WORD as int),
        ensures
            final(self).wf(),
            final(self).begin() == old(self).begin(),
            final(self)@ == old(self).with(addr, word_bytes(v)),
            bytes_word(final(self).range(addr, WORD as int)) == v,
    {
        let at = addr - self.begin;
        self.bytes[at] = (v & 0xFF) as u8;
        self.bytes[at + 1] = ((v >> 8) & 0xFF) as u8;
        self.bytes[at + 2] = ((v >> 16) & 0xFF) as u8;
        self.bytes[at + 3] = ((v >> 24) & 0xFF) as u8;
        proof {
            assert(self.bytes@ =~= patched(old(self).bytes@, at as int, word_bytes(v)));
            assert(self.range(addr, WORD as int) =~= word_bytes(v));
            lemma_word(v);
        }
    }
}

/// What is written is read back, and the rest is as it was.
pub proof fn lemma_patched(mem: Seq<u8>, at: int, data: Seq<u8>)
    requires
        0 <= at,
        at + data.len() <= mem.len(),
    ensures
        patched(mem, at, data).len() == mem.len(),
        patched(mem, at, data).subrange(at, at + data.len()) == data,
        forall|i: int|
            0 <= i < mem.len() && !(at <= i < at + data.len()) ==> patched(mem, at, data)[i]
                == mem[i],
{
    assert(patched(mem, at, data).subrange(at, at + data.len()) =~= data);
}

} // verus!
