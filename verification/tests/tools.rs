use mcu_runtime::tools::{add_bits_volatile, set_bits_volatile};

#[test]
fn add_bits_volatile_adds_bits_when_required() {
    let mut base = 0x0F_u32;
    add_bits_volatile(&mut base, 0x80);
    assert_eq!(base, 0x8F);
}

#[test]
fn add_bits_volatile_does_nothing_when_bit_is_already_present() {
    let mut base = 0x0F_u32;
    add_bits_volatile(&mut base, 0x04);
    assert_eq!(base, 0x0F);
}

#[test]
fn add_bits_volatile_adds_some_bits() {
    let mut base = 0x0F_u32;
    add_bits_volatile(&mut base, 0x75);
    assert_eq!(base, 0x7F);
}

#[test]
fn set_bits_volatile_sets_unset_bits() {
    let mut base = 0x0F_u32;
    set_bits_volatile(&mut base, 0xF0, 0x40);
    assert_eq!(base, 0x4F);
}

#[test]
fn set_bits_volatile_unsets_set_bits() {
    let mut base = 0x0F_u32;
    set_bits_volatile(&mut base, 0xF4, 0x00);
    assert_eq!(base, 0x0B);
}

#[test]
fn set_bits_volatile_both_sets_and_unsets_bits() {
    let mut base = 0x0F_u32;
    set_bits_volatile(&mut base, 0x35, 0x14);
    assert_eq!(base, 0x1E);
}
