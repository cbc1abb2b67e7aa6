//! The memory protection unit, as a table of regions
//!
//! A region lets unprivileged code read its bytes, and write or execute them
//! if it is set so. Where regions overlap, the one with the highest number
//! decides. Privileged code reads, writes and executes everywhere.

use vstd::prelude::*;

verus! {

/// Nothing is allowed
pub const PROT_NONE: i32 = 0;

/// Reading is allowed
pub const PROT_READ: i32 = 1;

/// Writing is allowed
pub const PROT_WRITE: i32 = 2;

/// Executing is allowed
pub const PROT_EXEC: i32 = 4;

/// What the unit holds for a region
#[derive(Debug, PartialEq, Eq, Clone, Copy)]
pub struct Slot {
    /// Address of the first byte of the region
    pub start: usize,
    /// Size of the region
    pub size: usize,
    /// Whether unprivileged code may write the region
    pub writable: bool,
    /// Whether the region may be executed
    pub executable: bool,
    /// The sub-regions that are disabled
    pub sub_region_disable: Option<[bool; 8]>,
}

/// What the unit holds for a region before anything is set: no byte.
pub open spec fn unset() -> Slot {
    Slot { start: 0, size: 0, writable: true, executable: true, sub_region_disable: None }
}

/// The unit
pub struct MpuLl {
    /// Whether the unit has been set up
    setup: bool,
    /// The regions
    regions: Vec<Slot>,
}

/// Whether the region of `slot` holds the address `addr`.
pub open spec fn covers(slot: Slot, addr: usize) -> bool {
    slot.start <= addr < slot.start + slot.size
}

/// What a region allows to unprivileged code.
pub open spec fn grants(slot: Slot) -> i32 {
    if slot.writable {
        if slot.executable {
            7
        } else {
            3
        }
    } else {
        if slot.executable {
            5
        } else {
            1
        }
    }
}

/// What the first `n` of the regions allow to unprivileged code at `addr`:
/// what the last of them that holds the address does.
pub open spec fn allowed(regions: Seq<Slot>, n: int, addr: usize) -> i32
    decreases n,
{
    if n <= 0 {
        PROT_NONE
    } else if covers(regions[n - 1], addr) {
        grants(regions[n - 1])
    } else {
        allowed(regions, n - 1, addr)
    }
}

impl MpuLl {
    /// The unit has eight regions, none with sub-regions disabled.
    pub closed spec fn wf(&self) -> bool {
        &&& self.regions@.len() == 8
        &&& forall|i: int| 0 <= i < 8 ==> (#[trigger] self.regions@[i]).sub_region_disable is None
    }

    /// The regions.
    pub closed spec fn regions(&self) -> Seq<Slot> {
        self.regions@
    }

    /// Whether the unit has been set up.
    pub closed spec fn is_setup(&self) -> bool {
        self.setup
    }

    /// What the unit allows at `addr` to code that is privileged or not.
    pub open spec fn allows(&self, privileged: bool, addr: usize) -> i32 {
        if privileged {
            7
        } else {
            allowed(self.regions(), 8, addr)
        }
    }

    /// The unit as it is before anything is set: no region holds any byte.
    pub fn new() -> (m: MpuLl)
        ensures
            m.wf(),
            !m.is_setup(),
            forall|i: int| 0 <= i < 8 ==> #[trigger] m.regions()[i] == unset(),
    {
        let mut regions: Vec<Slot> = Vec::new();
        let mut i: usize = 0;
        while i < 8
            invariant
                i <= 8,
                regions@.len() == i,
                forall|j: int| 0 <= j < i ==> #[trigger] regions@[j] == unset(),
            decreases 8 - i,
        {
            regions.push(
                Slot {
                    start: 0,
                    size: 0,
                    writable: true,
                    executable: true,
                    sub_region_disable: None,
                },
            );
            i += 1;
        }
        MpuLl { setup: false, regions }
    }

    /// Whether the unit has been set up
    pub fn ready(&self) -> (r: bool)
        ensures
            r == self.is_setup(),
    {
        self.setup
    }

    /// The regions are eight.
    pub proof fn lemma_regions(&self)
        requires
            self.wf(),
        ensures
            self.regions().len() == 8,
    {
    }
}

/// Check what is allowed at `addr`: what the region with the highest number
/// that holds the address allows, and everything to privileged code
pub fn allows_addr(mpu: &MpuLl, privileged: bool, addr: usize) -> (r: i32)
    requires
        mpu.wf(),
    ensures
        r == mpu.allows(privileged, addr),
{
    let mut final_prot = PROT_NONE;
    let mut i: usize = 0;
    while i < 8
        invariant
            i <= 8,
            mpu.wf(),
            final_prot == allowed(mpu.regions(), i as int, addr),
        decreases 8 - i,
    {
        let reg = &mpu.regions[i];
        if reg.start <= addr && addr - reg.start < reg.size {
            // Only highest-numbered region takes effect
            final_prot = if reg.writable {
                if reg.executable {
                    7
                } else {
                    3
                }
            } else {
                if reg.executable {
                    5
                } else {
                    1
                }
            };
        }
        i += 1;
    }
    if privileged {
        final_prot = 7;
    }
    final_prot
}

/// Sets the unit up, which is done once
pub fn setup(mpu: &mut MpuLl)
    requires
        !old(mpu).is_setup(),
    ensures
        final(mpu).is_setup(),
        final(mpu).regions() == old(mpu).regions(),
        final(mpu).wf() == old(mpu).wf(),
{
    mpu.setup = true;
}

/// Undoes the set-up of the unit
pub fn deinitialize(mpu: &mut MpuLl)
    requires
        old(mpu).is_setup(),
    ensures
        !final(mpu).is_setup(),
        final(mpu).regions() == old(mpu).regions(),
        final(mpu).wf() == old(mpu).wf(),
{
    mpu.setup = false;
}

/// Sets what unprivileged code may do in a region of the unit, which has
/// been set up. Sub-regions are not disabled.
pub fn set_unprivileged_region(
    mpu: &mut MpuLl,
    region: usize,
    start: usize,
    size: usize,
    writable: bool,
    executable: bool,
    sub_region_disable: Option<[bool; 8]>,
)
    requires
        old(mpu).wf(),
        old(mpu).is_setup(),
        sub_region_disable is None,
        region < 8,
    ensures
        final(mpu).wf(),
        final(mpu).is_setup(),
        final(mpu).regions() == old(mpu).regions().update(
            region as int,
            Slot { start, size, writable, executable, sub_region_disable },
        ),
{
    mpu.regions[region] = Slot { start, size, writable, executable, sub_region_disable };
}

/// What is allowed in a region that no region with a higher number overlaps
/// is what the region allows, from its first byte to its last, and the byte
/// after its last is not in it.
pub proof fn lemma_region_bounds(regions: Seq<Slot>, r: int, addr: usize)
    requires
        regions.len() == 8,
        0 <= r < 8,
        forall|j: int| r < j < 8 ==> !covers(#[trigger] regions[j], addr),
    ensures
        covers(regions[r], addr) ==> allowed(regions, 8, addr) == grants(regions[r]),
        !covers(regions[r], addr) ==> allowed(regions, 8, addr) == allowed(regions, r, addr),
        regions[r].size > 0 && regions[r].start + regions[r].size <= usize::MAX ==> covers(
            regions[r],
            (regions[r].start + regions[r].size - 1) as usize,
        ) && !covers(regions[r], (regions[r].start + regions[r].size) as usize),
{
    lemma_allowed_above(regions, 8, r, addr);
}

/// Regions that do not hold an address do not count.
proof fn lemma_allowed_above(regions: Seq<Slot>, n: int, r: int, addr: usize)
    requires
        0 <= r < n <= regions.len(),
        forall|j: int| r < j < n ==> !covers(#[trigger] regions[j], addr),
    ensures
        allowed(regions, n, addr) == allowed(regions, r + 1, addr),
    decreases n - r,
{
    if n > r + 1 {
        lemma_allowed_above(regions, n - 1, r, addr);
    }
}

/// Where no region holds an address, nothing is allowed there.
pub proof fn lemma_uncovered(regions: Seq<Slot>, n: int, addr: usize)
    requires
        0 <= n <= regions.len(),
        forall|j: int| 0 <= j < n ==> !covers(#[trigger] regions[j], addr),
    ensures
        allowed(regions, n, addr) == PROT_NONE,
    decreases n,
{
    if n > 0 {
        lemma_uncovered(regions, n - 1, addr);
    }
}

} // verus!
