//! Platform definition for the stm32f401re
//!
//! Eight flash sectors are mapped from `0x0800_0000` on: the first and the last
//! hold the program, the six between them the filesystem, of which the fifth
//! is reserved for applets and the sixth for defragmenting. The RAM is mapped
//! from `0x2000_0000` on; it starts with the data that every context may
//! read, then the data that every context may write, whose end is the
//! argument buffer.

use crate::flash::SectorInfo;
use crate::flash_ll::FlashDevice;
use vstd::prelude::*;

verus! {

/// Number of sectors in the MPU
pub const MPU_SECTORS: usize = 8;

/// Minimal size of a MPU sector
pub const MPU_MIN_SIZE: usize = 32;

/// Number of buckets for the flash lock hashset
pub const FLASH_LOCK_BUCKETS: usize = 16;

/// Address of the first byte of the flash
pub const FLASH_BEGIN: usize = 0x0800_0000;

/// Size of the flash
pub const FLASH_SIZE: usize = 0x80000;

/// The sectors of the flash: for each its first byte in the flash and its
/// length.
pub open spec fn layout_spec() -> Seq<(usize, usize)> {
    seq![
        (0usize, 0x4000usize),
        (0x4000usize, 0x4000usize),
        (0x8000usize, 0x4000usize),
        (0xC000usize, 0x4000usize),
        (0x10000usize, 0x10000usize),
        (0x20000usize, 0x20000usize),
        (0x40000usize, 0x20000usize),
        (0x60000usize, 0x20000usize),
    ]
}

/// List of flash sectors addresses: for each sector its first byte in the
/// flash and its length
pub fn flash_layout() -> (r: Vec<(usize, usize)>)
    ensures
        r@ == layout_spec(),
{
    let r = vec![
        (0usize, 0x4000usize),
        (0x4000usize, 0x4000usize),
        (0x8000usize, 0x4000usize),
        (0xC000usize, 0x4000usize),
        (0x10000usize, 0x10000usize),
        (0x20000usize, 0x20000usize),
        (0x40000usize, 0x20000usize),
        (0x60000usize, 0x20000usize),
    ];
    proof {
        assert(r@ =~= layout_spec());
    }
    r
}

/// The flash of the board, erased
pub fn flash_device() -> (r: Option<FlashDevice>)
    ensures
        r matches Some(d) && d.wf() && d.is_locked() && d.layout() == layout_spec() && d@
            == Seq::new(FLASH_SIZE as nat, |i: int| 0xFFu8) && crate::flash::describes(
            d,
            sectors_spec(),
        ),
{
    let layout = flash_layout();
    FlashDevice::new(FLASH_BEGIN - FLASH_SIZE, FLASH_SIZE, FLASH_SIZE, layout)
}

/// The sectors of the flash, as the flash layer wants them described.
pub open spec fn sectors_spec() -> Seq<SectorInfo> {
    Seq::new(
        8,
        |i: int|
            SectorInfo { num: i as u32, start: layout_spec()[i].0, length: layout_spec()[i].1 },
    )
}

/// List of sectors
pub fn flash_sectors() -> (r: Vec<SectorInfo>)
    ensures
        r@ == sectors_spec(),
{
    let layout = flash_layout();
    let mut r: Vec<SectorInfo> = Vec::new();
    let mut i: usize = 0;
    while i < 8
        invariant
            i <= 8,
            layout@ == layout_spec(),
            r@.len() == i,
            forall|j: int| 0 <= j < i ==> r@[j] == sectors_spec()[j],
        decreases 8 - i,
    {
        let (start, length) = layout[i];
        r.push(SectorInfo { num: i as u32, start, length });
        i += 1;
    }
    proof {
        assert(r@ =~= sectors_spec());
    }
    r
}

/// Sectors reserved for the code
pub fn flash_program_sectors() -> (r: Vec<crate::flash::SectorID>)
    ensures
        r@ == seq![crate::flash::SectorID(0), crate::flash::SectorID(7)],
{
    vec![crate::flash::SectorID(0), crate::flash::SectorID(7)]
}

/// Sectors used for the filesystem
pub fn flash_fs_sectors() -> (r: Vec<crate::flash::SectorID>)
    ensures
        r@ == seq![
            crate::flash::SectorID(1),
            crate::flash::SectorID(2),
            crate::flash::SectorID(3),
            crate::flash::SectorID(4),
            crate::flash::SectorID(5),
            crate::flash::SectorID(6),
        ],
{
    vec![
        crate::flash::SectorID(1),
        crate::flash::SectorID(2),
        crate::flash::SectorID(3),
        crate::flash::SectorID(4),
        crate::flash::SectorID(5),
        crate::flash::SectorID(6),
    ]
}

/// Sector reserved for defragmenting (inside the sectors used for the
/// filesystem)
pub fn flash_defrag_sector() -> (r: crate::fs::SectorID)
    ensures
        r.0 == 5,
{
    crate::fs::SectorID(5)
}

/// Sector reserved for applets (inside the sectors used for the filesystem)
pub fn flash_applet_sector() -> (r: crate::fs::SectorID)
    ensures
        r.0 == 4,
{
    crate::fs::SectorID(4)
}

/// Address at the beginning of the running program
pub fn program_begin() -> (r: usize)
    ensures
        r == FLASH_BEGIN + layout_spec()[7].0,
        r == 0x0806_0000,
{
    0x0806_0000
}

/// Size of the running program
pub fn program_size() -> (r: usize)
    ensures
        r == layout_spec()[7].1,
        r == 0x20000,
{
    0x20000
}

/// Address at the beginning of the applet sector
pub fn applet_begin() -> (r: usize)
    ensures
        r == FLASH_BEGIN + layout_spec()[5].0,
        r == 0x0802_0000,
{
    0x0802_0000
}

/// Size of the applet sector
pub fn applet_size() -> (r: usize)
    ensures
        r == layout_spec()[5].1,
        r == 0x20000,
{
    0x20000
}

/// Begin of the RAM
pub fn ram_begin() -> (r: usize)
    ensures
        r == 0x2000_0000,
{
    0x2000_0000
}

/// Size of the RAM
pub fn ram_size() -> (r: usize)
    ensures
        r == 0x18000,
{
    0x18000
}

/// Begin address of the range reserved to shared data
pub fn shared_ro_start() -> (r: usize)
    ensures
        r == 0x2000_0000,
{
    0x2000_0000
}

/// Size of the range reserved to shared data
pub fn shared_ro_size() -> (r: usize)
    ensures
        r == 0x800,
{
    0x800
}

/// Begin address of the range reserved to shared writable data
pub fn shared_rw_start() -> (r: usize)
    ensures
        r == 0x2000_0800,
{
    0x2000_0800
}

/// Size of the range reserved to shared writable data (excluding the
/// argument buffer)
pub fn shared_rw_size() -> (r: usize)
    ensures
        r == 0x400,
{
    0x400
}

/// Begin address of the argument buffer
pub fn argbuf_start() -> (r: usize)
    ensures
        r == 0x2000_0C00,
{
    0x2000_0C00
}

/// Size of the argument buffer
pub fn argbuf_size() -> (r: usize)
    ensures
        r == 0x400,
{
    0x400
}

/// Size of the range reserved to shared writable data (including the
/// argument buffer)
pub fn shared_rw_total_size() -> (r: usize)
    ensures
        r == 0x800,
{
    0x800
}

/// Begin address of the memory range allocated to context 0's heap
pub fn ctx0_heap_begin() -> (r: usize)
    ensures
        r == 0x2000_1000,
{
    0x2000_1000
}

/// Size of the memory range allocated to context 0's heap
pub fn ctx0_heap_size() -> (r: usize)
    ensures
        r == 0x1000,
{
    0x1000
}

/// Lowest-numbered address of the stack for context 0
pub fn ctx0_stack_lowest() -> (r: usize)
    ensures
        r == 0x2000_2000,
{
    0x2000_2000
}

/// Highest-numbered address of the stack for context 0, plus one
pub fn ctx0_stack_highest() -> (r: usize)
    ensures
        r == 0x2000_4000,
{
    0x2000_4000
}

/// Begin address of the memory range allocated to contexts
pub fn begin_addr() -> (r: usize)
    ensures
        r == 0x2000_4000,
{
    0x2000_4000
}

/// Size of the memory range allocated to contexts
pub fn available_size() -> (r: usize)
    ensures
        r == 0x14000,
{
    0x14000
}

} // verus!
