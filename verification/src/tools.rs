//! Tools for manipulating memory-mapped registers

use vstd::prelude::*;

verus! {

/// Type of a linker symbol
///
/// Nothing can be done with it except take its address, which is exactly what
/// is wanted from a linker symbol.
pub struct LinkerSymbol {
    /// Field making sure this struct cannot be made elsewhere.
    _non_instantiable: (),
}

/// Sets bits to 1 in `bits` to 1 in the register `addr`
pub fn add_bits_volatile(addr: &mut u32, bits: u32)
    ensures
        *final(addr) == *old(addr) | bits,
{
    *addr = *addr | bits;
}

/// Sets bits to 1 in `mask` to their value in `val` in the register `addr`
///
/// Note that it is assumed that `val & mask == val`.
pub fn set_bits_volatile(addr: &mut u32, mask: u32, val: u32)
    ensures
        *final(addr) == (*old(addr) & !mask) | val,
{
    *addr = (*addr & !mask) | val;
}

/// What was set is read back, and the other bits keep their values.
pub proof fn lemma_set_bits(old: u32, mask: u32, val: u32)
    by (bit_vector)
    requires
        val & mask == val,
    ensures
        ((old & !mask) | val) & mask == val,
        ((old & !mask) | val) & !mask == old & !mask,
        (old | val) & val == val,
{
}

} // verus!
