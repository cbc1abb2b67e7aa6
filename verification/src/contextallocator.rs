//! Allocator allocating RAM blocks to contexts

use crate::constants::{
    available_size, begin_addr, ctx0_heap_begin, ctx0_heap_size, ctx0_stack_highest,
    ctx0_stack_lowest, ram_begin,
};
use crate::context::{ContextMetadata, TopOfStack};
use crate::context_ll::RemoteCallEnter;
use crate::ram::Ram;
use vstd::prelude::*;

verus! {

/// Metadata about a context that can't be auto-filled
#[derive(Debug, PartialEq, Eq, Clone, Copy, Structural)]
pub struct AllocatableContext {
    /// Function to call when the context receives a remote call
    pub entrypoint: RemoteCallEnter,
}

/// Size of the range of context 0: that of the RAM, up to a power of two
pub const CTX0_SIZE: usize = 0x20000;

/// Address of the beginning of the range allocated to contexts.
pub open spec fn pool_begin() -> usize {
    0x2000_4000
}

/// Size of the range allocated to contexts.
pub open spec fn pool_size() -> usize {
    0x14000
}

/// The largest power of two that is `x` at most, for an `x` that is not zero.
pub open spec fn power_floor(x: usize) -> usize
    decreases x,
{
    if x < 2 {
        1
    } else {
        (2 * power_floor(x / 2)) as usize
    }
}

/// The first multiple of `size`, a power of two, from `addr` on.
pub open spec fn aligned_up(addr: usize, size: usize) -> usize {
    ((addr + size - 1) as usize) & !((size - 1) as usize)
}

/// Metadata of context 0.
pub open spec fn first(entrypoint: RemoteCallEnter) -> ContextMetadata {
    ContextMetadata {
        remote_call_enter: entrypoint,
        begin: 0x2000_0000,
        size: CTX0_SIZE,
        top_of_stack: TopOfStack::of(0x2000_2000, 0x2000_4000, None),
        heap_begin: 0x2000_1000,
        heap_size: 0x1000,
    }
}

/// Metadata of the `i`-th context, which is not the first, where each has
/// `size` bytes: its stack is the first half of them, its heap the second.
pub open spec fn window(entrypoint: RemoteCallEnter, size: usize, i: int) -> ContextMetadata {
    let begin = (aligned_up(pool_begin(), size) + size * (i - 1)) as usize;
    ContextMetadata {
        remote_call_enter: entrypoint,
        begin,
        size,
        top_of_stack: TopOfStack::of(begin, (begin + size / 2) as usize, None),
        heap_begin: (begin + size / 2) as usize,
        heap_size: size / 2,
    }
}

/// Metadata of the contexts `c`, where each but the first has `size` bytes.
pub open spec fn allocation(c: Seq<AllocatableContext>, size: usize) -> Seq<ContextMetadata> {
    Seq::new(
        c.len(),
        |i: int|
            if i == 0 {
                first(c[i].entrypoint)
            } else {
                window(c[i].entrypoint, size, i)
            },
    )
}

/// Whether `n` contexts, each but the first with `size` bytes, have room in
/// the range allocated to contexts.
pub open spec fn fits(n: int, size: usize) -> bool {
    (aligned_up(pool_begin(), size) - pool_begin()) + (n - 1) * size <= pool_size()
}

/// The size that each of `n` contexts but the first gets: the largest power
/// of two of which the range allocated to contexts has that many, or half of
/// it where the alignment leaves no room for as much. None where `n` is one
/// or neither has room.
pub open spec fn chosen_size(n: int) -> Option<usize> {
    if n <= 1 || n - 1 > pool_size() {
        None
    } else {
        let size = power_floor((pool_size() as int / (n - 1)) as usize);
        if fits(n, size) {
            Some(size)
        } else if size >= 2 && fits(n, size / 2) {
            Some(size / 2)
        } else {
            None
        }
    }
}

/// The largest power of two under a number is a power of two, under the
/// number and over its half.
pub proof fn lemma_power_floor(x: usize)
    requires
        x >= 1,
    ensures
        1 <= power_floor(x) <= x,
        x < 2 * power_floor(x),
        power_floor(x) & ((power_floor(x) - 1) as usize) == 0,
    decreases x,
{
    if x < 2 {
        assert(1usize & 0usize == 0) by (bit_vector);
    } else {
        lemma_power_floor(x / 2);
        let h = power_floor(x / 2);
        let d = (2 * h) as usize;
        assert(d & ((d - 1) as usize) == 0) by (bit_vector)
            requires
                h & ((h - 1) as usize) == 0,
                1 <= h,
                d == 2 * h,
        ;
    }
}

/// The first multiple of a power of two from an address on is a multiple of
/// it, and less than it away from the address.
pub proof fn lemma_aligned_up(addr: usize, size: usize)
    requires
        size >= 1,
        size & ((size - 1) as usize) == 0,
        addr + size <= usize::MAX,
    ensures
        addr <= aligned_up(addr, size) < addr + size,
        aligned_up(addr, size) & ((size - 1) as usize) == 0,
{
    let x = (addr + size - 1) as usize;
    let m = (size - 1) as usize;
    assert(x & !m <= x && x - (x & !m) <= m && (x & !m) & m == 0) by (bit_vector);
}

/// A power of two further, a multiple of the power of two is one again.
pub proof fn lemma_next_window(begin: usize, size: usize)
    requires
        size >= 1,
        size & ((size - 1) as usize) == 0,
        begin & ((size - 1) as usize) == 0,
        begin + size <= usize::MAX,
    ensures
        ((begin + size) as usize) & ((size - 1) as usize) == 0,
{
    let next = (begin + size) as usize;
    assert(next & ((size - 1) as usize) == 0) by (bit_vector)
        requires
            size >= 1,
            size & ((size - 1) as usize) == 0,
            begin & ((size - 1) as usize) == 0,
            next == begin + size,
    ;
}

/// The largest power of two that is `x` at most
pub fn largest_power_of_two(x: usize) -> (r: usize)
    requires
        x >= 1,
    ensures
        r == power_floor(x),
{
    let mut k = x;
    let mut size: usize = 1;
    proof {
        lemma_power_floor(x);
    }
    while k >= 2
        invariant
            1 <= k,
            size >= 1,
            size * power_floor(k) == power_floor(x),
            power_floor(x) <= x,
        decreases k,
    {
        proof {
            lemma_power_floor(k);
            lemma_power_floor(k / 2);
            let f = power_floor(k / 2) as int;
            assert(size * (2 * f) == (size * 2) * f) by (nonlinear_arith);
            assert(size * 2 <= (size * 2) * f) by (nonlinear_arith)
                requires
                    f >= 1,
                    size >= 1,
            ;
        }
        k = k / 2;
        size = size * 2;
    }
    proof {
        assert(size * 1 == size) by (nonlinear_arith);
    }
    size
}

/// Metadata to be used for context 0
///
/// Its `top_of_stack` is set when the context first calls another.
pub fn ctx0_metadata(entrypoint: RemoteCallEnter) -> (r: ContextMetadata)
    ensures
        r == first(entrypoint),
        r.wf(),
{
    proof {
        assert(0x20000usize & 0x1ffffusize == 0) by (bit_vector);
        assert(0x2000_0000usize & 0x1ffffusize == 0) by (bit_vector);
        TopOfStack::lemma_of(0x2000_2000, 0x2000_4000, None);
    }
    ContextMetadata {
        remote_call_enter: entrypoint,
        begin: ram_begin(),
        size: CTX0_SIZE,
        top_of_stack: TopOfStack::empty(ctx0_stack_lowest(), ctx0_stack_highest()),
        heap_begin: ctx0_heap_begin(),
        heap_size: ctx0_heap_size(),
    }
}

/// The bytes of the memory once the ranges of `n` contexts, each but the
/// first with `size` bytes, are zeroed.
pub open spec fn cleared(ram: Ram, n: int, size: usize) -> Seq<u8> {
    ram.with(
        aligned_up(pool_begin(), size),
        Seq::new(((n - 1) * size) as nat, |i: int| 0u8),
    )
}

/// Allocates space for the contexts `c`, `size` bytes for each but the first,
/// if the range allocated to contexts has room for them, and zeroes it
pub fn allocate_contexts_of_size(ram: &mut Ram, c: &[AllocatableContext], size: usize) -> (r:
    Option<Vec<ContextMetadata>>)
    requires
        old(ram).wf(),
        old(ram).holds(pool_begin(), pool_size() as int),
        c@.len() >= 1,
        1 <= size <= pool_size(),
        size & ((size - 1) as usize) == 0,
    ensures
        final(ram).wf(),
        final(ram).begin() == old(ram).begin(),
        match r {
            Some(v) => {
                &&& fits(c@.len() as int, size)
                &&& v@ == allocation(c@, size)
                &&& size >= 32 ==> forall|i: int| 0 <= i < v@.len() ==> (#[trigger] v@[i]).wf()
                &&& final(ram)@ == cleared(*old(ram), c@.len() as int, size)
            },
            None => !fits(c@.len() as int, size) && final(ram)@ == old(ram)@,
        },
{
    let half_size = size >> 1;
    let aligned_begin = (begin_addr() + size - 1) & !(size - 1);
    proof {
        lemma_aligned_up(pool_begin(), size);
        assert(size >> 1 == size / 2) by (bit_vector);
    }
    let n = c.len();
    let total = match (n - 1).checked_mul(size) {
        Some(t) => t,
        None => {
            return None;
        },
    };
    if total > available_size() || aligned_begin - begin_addr() > available_size() - total {
        return None;
    }
    let mut v: Vec<ContextMetadata> = Vec::new();
    v.push(ctx0_metadata(c[0].entrypoint));
    let mut i: usize = 1;
    let mut begin = aligned_begin;
    while i < n
        invariant
            1 <= i <= n,
            n == c@.len(),
            v@.len() == i,
            begin == aligned_begin + size * (i - 1),
            aligned_begin == aligned_up(pool_begin(), size),
            (aligned_begin - pool_begin()) + (n - 1) * size <= pool_size(),
            half_size == size / 2,
            1 <= size,
            size & ((size - 1) as usize) == 0,
            begin & ((size - 1) as usize) == 0,
            forall|k: int| 0 <= k < i ==> v@[k] == allocation(c@, size)[k],
            size >= 32 ==> forall|k: int| 0 <= k < i ==> (#[trigger] v@[k]).wf(),
        decreases n - i,
    {
        proof {
            assert(size * (i - 1) + size == size * i) by (nonlinear_arith);
            assert(size * i <= (n - 1) * size) by (nonlinear_arith)
                requires
                    i <= n - 1,
                    size >= 1,
            ;
            lemma_next_window(begin, size);
            TopOfStack::lemma_of(begin, (begin + half_size) as usize, None);
        }
        v.push(
            ContextMetadata {
                remote_call_enter: c[i].entrypoint,
                begin,
                size,
                top_of_stack: TopOfStack::empty(begin, begin + half_size),
                heap_begin: begin + half_size,
                heap_size: half_size,
            },
        );
        begin = begin + size;
        i += 1;
    }
    proof {
        assert(v@ =~= allocation(c@, size));
    }
    // Zero-out each allocated contexts, except the zero'th one (from which
    // we are currently running)
    ram.fill(aligned_begin, total, 0);
    Some(v)
}

/// Allocates space for contexts, more than one, each but the first with the
/// biggest size that the memory protection unit can protect and that leaves
/// room for all
pub fn allocate_contexts(ram: &mut Ram, c: &[AllocatableContext]) -> (r: Vec<ContextMetadata>)
    requires
        old(ram).wf(),
        old(ram).holds(pool_begin(), pool_size() as int),
        chosen_size(c@.len() as int) is Some,
    ensures
        final(ram).wf(),
        final(ram).begin() == old(ram).begin(),
        r@ == allocation(c@, chosen_size(c@.len() as int).unwrap()),
        final(ram)@ == cleared(*old(ram), c@.len() as int, chosen_size(c@.len() as int).unwrap()),
        chosen_size(c@.len() as int).unwrap() >= 32 ==> forall|i: int|
            0 <= i < r@.len() ==> (#[trigger] r@[i]).wf(),
{
    // Compute biggest size mpu-protectable that can be allocated to all contexts.
    // The size has to be a power of two
    // All contexts also have to be naturally aligned.
    proof {
        let d = c@.len() - 1;
        assert(0x14000int / d >= 1) by (nonlinear_arith)
            requires
                1 <= d <= 0x14000,
        ;
    }
    let optimal_size = available_size() / (c.len() - 1);
    let size = largest_power_of_two(optimal_size);
    proof {
        lemma_power_floor(optimal_size);
    }
    if let Some(res) = allocate_contexts_of_size(ram, c, size) {
        return res;
    }
    // The padding required for alignment took up too much space
    let half = size >> 1;
    proof {
        assert(size >> 1 == size / 2) by (bit_vector);
        assert(half >= 1 && half & ((half - 1) as usize) == 0) by (bit_vector)
            requires
                size >= 2,
                size & ((size - 1) as usize) == 0,
                half == size / 2,
        ;
    }
    match allocate_contexts_of_size(ram, c, half) {
        Some(res) => res,
        None => Vec::new(),
    }
}

/// The size that each of `n` contexts but the first gets, if space can be
/// allocated for them
pub fn choose_size(n: usize) -> (r: Option<usize>)
    ensures
        r == chosen_size(n as int),
{
    if n <= 1 || n - 1 > available_size() {
        return None;
    }
    proof {
        let d = n - 1;
        assert(0x14000int / d >= 1) by (nonlinear_arith)
            requires
                1 <= d <= 0x14000,
        ;
    }
    let size = largest_power_of_two(available_size() / (n - 1));
    proof {
        lemma_power_floor((pool_size() / ((n - 1) as usize)) as usize);
    }
    if has_room(n, size) {
        Some(size)
    } else if size >= 2 && has_room(n, size / 2) {
        Some(size / 2)
    } else {
        None
    }
}

/// Whether space can be allocated for `n` contexts
pub fn can_allocate(n: usize) -> (r: bool)
    ensures
        r == chosen_size(n as int) is Some,
{
    choose_size(n).is_some()
}

/// Whether `n` contexts, each but the first with `size` bytes, have room in
/// the range allocated to contexts
fn has_room(n: usize, size: usize) -> (r: bool)
    requires
        n >= 1,
        1 <= size <= pool_size(),
    ensures
        r == fits(n as int, size),
{
    let aligned_begin = (begin_addr() + size - 1) & !(size - 1);
    proof {
        let x = (pool_begin() + size - 1) as usize;
        let m = (size - 1) as usize;
        assert(x & !m <= x) by (bit_vector);
    }
    match (n - 1).checked_mul(size) {
        Some(total) => if aligned_begin >= begin_addr() {
            total <= available_size() && aligned_begin - begin_addr() <= available_size() - total
        } else {
            total <= available_size() + (begin_addr() - aligned_begin)
        },
        None => false,
    }
}

} // verus!
