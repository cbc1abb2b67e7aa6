use mcu_runtime::argbuf::{get_argbuf, set_argbuf, setup_argbuf};
use mcu_runtime::constants::{argbuf_size, argbuf_start, ram_begin, ram_size};
use mcu_runtime::contextallocator::{
    allocate_contexts, can_allocate, ctx0_metadata, largest_power_of_two, AllocatableContext,
};
use mcu_runtime::context::TopOfStack;
use mcu_runtime::memory::{FlashAligned, RamAligned};
use mcu_runtime::ram::Ram;

fn ram() -> Ram {
    Ram::new(ram_begin(), ram_size())
}

#[test]
fn ram_reads_what_was_written() {
    let mut ram = ram();
    assert_eq!(ram.begin_addr(), 0x2000_0000);
    assert_eq!(ram.len(), 0x18000);
    assert!(ram.has(0x2000_0000, 0x18000));
    assert!(!ram.has(0x2000_0000, 0x18001));
    assert!(!ram.has(0x1FFF_FFFF, 1));
    assert!(!ram.has(usize::MAX, 2));
    ram.write(0x2000_0010, &[1, 2, 3]);
    assert_eq!(ram.read(0x2000_000F, 5), [0, 1, 2, 3, 0]);
    ram.fill(0x2000_0011, 4, 9);
    assert_eq!(ram.read(0x2000_000F, 7), [0, 1, 9, 9, 9, 9, 0]);
    ram.write_word(0x2000_0020, 0x1234_5678);
    assert_eq!(ram.read(0x2000_0020, 4), [0x78, 0x56, 0x34, 0x12]);
    assert_eq!(ram.read_word(0x2000_0020), 0x1234_5678);
    assert_eq!(ram.as_slice()[0x20], 0x78);
}

#[test]
fn aligned_memory_is_aligned() {
    let mut m = RamAligned::new(0x1234_5678, 0x1000, 0x100, 0);
    assert_eq!(m.begin_addr(), 0x1234_6000);
    assert_eq!(m.len(), 0x100);
    assert_eq!(m.get().len(), 0x100);
    m.set(3, 7);
    assert_eq!(m.get()[3], 7);
    m.get_mut()[4] = 8;
    assert_eq!(&m.get()[2..6], &[0, 7, 8, 0]);
    // An array that is aligned already is not used from its first byte on
    let mut f = FlashAligned::new(0x1000, 0x1000, 0x10, 0xFF);
    assert_eq!(f.begin_addr(), 0x2000);
    assert_eq!(f.get(), &[0xFF; 0x10]);
    f.get_mut()[0] = 1;
    f.set(0xF, 2);
    assert_eq!(f.get()[0], 1);
    assert_eq!(f.get()[0xF], 2);
}

#[test]
fn argbuf_passes_bytes_once() {
    let mut ram = ram();
    ram.fill(argbuf_start(), argbuf_size(), 0x5A);
    setup_argbuf(&mut ram);
    assert_eq!(ram.read_word(argbuf_start()), 0);
    assert_eq!(ram.read(argbuf_start() + 4, 0x3FB), vec![0; 0x3FB]);
    set_argbuf(&mut ram, b"arguments");
    assert_eq!(ram.read_word(argbuf_start()), 9);
    assert_eq!(ram.read(argbuf_start() + 4, 9), b"arguments");
    let mut buf = [0u8; 9];
    get_argbuf(&mut ram, &mut buf);
    assert_eq!(&buf, b"arguments");
    assert_eq!(ram.read_word(argbuf_start()), 0);
    assert_eq!(ram.read(argbuf_start() + 4, 9), [0; 9]);
    // And once more, with as much as the buffer takes
    let most: Vec<u8> = (0..0x3FB).map(|x| x as u8).collect();
    set_argbuf(&mut ram, &most);
    let mut back = vec![0u8; 0x3FB];
    get_argbuf(&mut ram, &mut back);
    assert_eq!(back, most);
    assert_eq!(ram.read_word(argbuf_start()), 0);
}

#[test]
fn allocator_finds_the_largest_power_of_two() {
    assert_eq!(largest_power_of_two(1), 1);
    assert_eq!(largest_power_of_two(2), 2);
    assert_eq!(largest_power_of_two(3), 2);
    assert_eq!(largest_power_of_two(0xA000), 0x8000);
    assert_eq!(largest_power_of_two(0x14000), 0x10000);
    assert_eq!(largest_power_of_two(usize::MAX), (usize::MAX >> 1) + 1);
}

#[test]
fn allocator_allocates_three_contexts() {
    let mut ram = ram();
    ram.fill(ram_begin(), ram_size(), 0x77);
    let c = [
        AllocatableContext { entrypoint: 0x10 },
        AllocatableContext { entrypoint: 0x20 },
        AllocatableContext { entrypoint: 0x30 },
    ];
    assert!(can_allocate(3));
    let contexts = allocate_contexts(&mut ram, &c);
    assert_eq!(contexts.len(), 3);
    assert_eq!(contexts[0], ctx0_metadata(0x10));
    assert_eq!(contexts[0].begin, 0x2000_0000);
    assert_eq!(contexts[0].size, 0x20000);
    assert_eq!(contexts[0].heap_begin, 0x2000_1000);
    assert_eq!(contexts[0].heap_size, 0x1000);
    assert_eq!(contexts[0].top_of_stack, TopOfStack::empty(0x2000_2000, 0x2000_4000));
    // The largest power of two of which two fit in 0x14000 bytes, aligned
    assert_eq!(contexts[1].remote_call_enter, 0x20);
    assert_eq!(contexts[1].begin, 0x2000_8000);
    assert_eq!(contexts[1].size, 0x8000);
    assert_eq!(contexts[1].top_of_stack, TopOfStack::empty(0x2000_8000, 0x2000_C000));
    assert_eq!(contexts[1].heap_begin, 0x2000_C000);
    assert_eq!(contexts[1].heap_size, 0x4000);
    assert_eq!(contexts[2].remote_call_enter, 0x30);
    assert_eq!(contexts[2].begin, 0x2001_0000);
    assert_eq!(contexts[2].size, 0x8000);
    assert_eq!(contexts[2].heap_begin, 0x2001_4000);
    for m in &contexts {
        assert!(m.is_wf());
    }
    // The ranges are zeroed, and nothing else
    assert_eq!(ram.read(0x2000_7FFF, 2), [0x77, 0]);
    assert_eq!(ram.read(0x2000_8000, 0x10000), vec![0; 0x10000]);
    assert_eq!(ram.read(0x2000_0000, 0x8000), vec![0x77; 0x8000]);
}

#[test]
fn allocator_halves_the_size_where_the_alignment_takes_the_room() {
    let mut ram = ram();
    let c = [AllocatableContext { entrypoint: 1 }, AllocatableContext { entrypoint: 2 }];
    assert!(can_allocate(2));
    let contexts = allocate_contexts(&mut ram, &c);
    // 0x10000 bytes would have to start at 0x2001_0000
    assert_eq!(contexts[1].begin, 0x2000_8000);
    assert_eq!(contexts[1].size, 0x8000);
}

#[test]
fn allocator_needs_two_contexts() {
    assert!(!can_allocate(0));
    assert!(!can_allocate(1));
    assert!(can_allocate(2));
    assert!(can_allocate(6));
    assert!(!can_allocate(0x14002));
}
