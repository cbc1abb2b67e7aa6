//! The argument buffer: the one place where a context leaves bytes for the
//! context that it calls, or that it returns to
//!
//! The buffer starts with a word that holds the length of what is left in
//! it, which is zero when nothing is.

use crate::constants::{argbuf_size, argbuf_start};
use crate::ram::{bytes_word, lemma_patched, patched, word_bytes, Ram, WORD};
use vstd::prelude::*;

verus! {

/// Address of the buffer.
pub open spec fn start() -> usize {
    0x2000_0C00
}

/// How many bytes can be left in the buffer, at most, and one more.
pub open spec fn limit() -> usize {
    0x3FC
}

/// Address of the bytes that are left in the buffer.
pub open spec fn body() -> usize {
    0x2000_0C04
}

/// The length that the buffer starts with.
pub open spec fn length(ram: Ram) -> u32 {
    bytes_word(ram.range(start(), WORD as int))
}

/// The memory has the buffer, and the length that the buffer starts with is
/// one that it can have.
pub open spec fn argbuf_ok(ram: Ram) -> bool {
    ram.wf() && ram.holds(start(), 0x400) && length(ram) < limit()
}

/// What is left in the buffer.
pub open spec fn staged(ram: Ram) -> Seq<u8> {
    ram.range(body(), length(ram) as int)
}

/// The bytes of the memory once `data` is left in the buffer.
pub open spec fn filled(ram: Ram, data: Seq<u8>) -> Seq<u8> {
    patched(
        ram.with(body(), data),
        start() - ram.begin(),
        word_bytes(data.len() as u32),
    )
}

/// The bytes of the memory once what is left in the buffer is taken.
pub open spec fn taken(ram: Ram) -> Seq<u8> {
    patched(
        ram.with(body(), Seq::new(length(ram) as nat, |i: int| 0u8)),
        start() - ram.begin(),
        word_bytes(0),
    )
}

/// The length that the buffer starts with
fn get_argbuf_len(ram: &Ram) -> (res: usize)
    requires
        argbuf_ok(*ram),
    ensures
        res == length(*ram),
        res < limit(),
{
    ram.read_word(argbuf_start()) as usize
}

/// Sets the length that the buffer starts with
fn set_argbuf_len(ram: &mut Ram, val: usize)
    requires
        old(ram).wf(),
        old(ram).holds(start(), 0x400),
        val < limit(),
    ensures
        final(ram).wf(),
        final(ram).begin() == old(ram).begin(),
        final(ram)@ == old(ram).with(start(), word_bytes(val as u32)),
        length(*final(ram)) == val,
        argbuf_ok(*final(ram)),
{
    ram.write_word(argbuf_start(), val as u32);
}

/// Empties the buffer, at boot: its length is zero, and so are its bytes
pub fn setup_argbuf(ram: &mut Ram)
    requires
        old(ram).wf(),
        old(ram).holds(start(), 0x400),
    ensures
        argbuf_ok(*final(ram)),
        final(ram).begin() == old(ram).begin(),
        final(ram)@ == patched(
            old(ram).with(start(), word_bytes(0)),
            body() - old(ram).begin(),
            Seq::new((limit() - 1) as nat, |i: int| 0u8),
        ),
        staged(*final(ram)) == Seq::<u8>::empty(),
{
    set_argbuf_len(ram, 0);
    let ghost mid = *ram;
    ram.fill(argbuf_start() + WORD, argbuf_size() - WORD - 1, 0);
    proof {
        assert(ram.range(start(), WORD as int) =~= mid.range(start(), WORD as int));
        assert(staged(*ram) =~= Seq::<u8>::empty());
    }
}

/// Takes what is left in the buffer, which is something, and as long as
/// `ret`: `ret` gets it, and the buffer is empty again
pub fn get_argbuf(ram: &mut Ram, ret: &mut [u8])
    requires
        argbuf_ok(*old(ram)),
        length(*old(ram)) != 0,
        old(ret)@.len() == length(*old(ram)),
    ensures
        argbuf_ok(*final(ram)),
        final(ram).begin() == old(ram).begin(),
        final(ret)@ == staged(*old(ram)),
        final(ram)@ == taken(*old(ram)),
        staged(*final(ram)) == Seq::<u8>::empty(),
{
    let len = get_argbuf_len(ram);
    let argbuf = ram.read(argbuf_start() + WORD, len);
    let mut i: usize = 0;
    while i < len
        invariant
            i <= len,
            len == argbuf@.len(),
            ret@.len() == len,
            forall|k: int| 0 <= k < i ==> ret@[k] == argbuf@[k],
        decreases len - i,
    {
        ret[i] = argbuf[i];
        i += 1;
    }
    proof {
        assert(ret@ =~= argbuf@);
    }
    ram.fill(argbuf_start() + WORD, len, 0);
    set_argbuf_len(ram, 0);
    proof {
        assert(staged(*ram) =~= Seq::<u8>::empty());
    }
}

/// Leaves `data` in the buffer, which is empty and has room for it
pub fn set_argbuf(ram: &mut Ram, data: &[u8])
    requires
        argbuf_ok(*old(ram)),
        length(*old(ram)) == 0,
        data@.len() < limit(),
    ensures
        argbuf_ok(*final(ram)),
        final(ram).begin() == old(ram).begin(),
        final(ram)@ == filled(*old(ram), data@),
        staged(*final(ram)) == data@,
{
    ram.write(argbuf_start() + WORD, data);
    let ghost mid = *ram;
    set_argbuf_len(ram, data.len());
    proof {
        lemma_patched(old(ram)@, body() - ram.begin(), data@);
        assert(ram.range(body(), data@.len() as int) =~= mid.range(body(), data@.len() as int));
        assert(mid.range(body(), data@.len() as int) =~= data@);
    }
}

/// What a context leaves in the empty buffer is what the next takes from
/// it, and the buffer is empty again.
pub proof fn lemma_argbuf(ram: Ram, data: Seq<u8>, left: Ram, after: Ram)
    requires
        argbuf_ok(ram),
        length(ram) == 0,
        0 < data.len() < limit(),
        left.begin() == ram.begin(),
        left@ == filled(ram, data),
        after.begin() == ram.begin(),
        after@ == taken(left),
    ensures
        staged(left) == data,
        length(after) == 0,
{
    let at = start() - ram.begin();
    lemma_patched(ram@, at + 4, data);
    lemma_patched(ram.with(body(), data), at, word_bytes(data.len() as u32));
    crate::ram::lemma_word(data.len() as u32);
    assert(left.range(start(), WORD as int) =~= word_bytes(data.len() as u32));
    assert(staged(left) =~= data);
    let zeros = Seq::new(length(left) as nat, |i: int| 0u8);
    lemma_patched(left@, at + 4, zeros);
    lemma_patched(left.with(body(), zeros), at, word_bytes(0));
    crate::ram::lemma_word(0);
    assert(after.range(start(), WORD as int) =~= word_bytes(0));
}

} // verus!
