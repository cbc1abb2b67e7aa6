//! Memory protection.
//!
//! The unit sets regions of the memory space as protected. Write-protection
//! applies only to unprivileged code, while execution-protection applies to
//! privileged code too.
//!
//! Strong restrictions apply: the unit can only protect power-of-two-sized
//! naturally-aligned regions.

use crate::constants::{
    applet_begin, applet_size, program_begin, program_size, shared_ro_size, shared_ro_start,
    shared_rw_start, shared_rw_total_size, MPU_MIN_SIZE, MPU_SECTORS,
};
use crate::mpu_ll::{allowed, covers, grants, lemma_region_bounds, lemma_uncovered, MpuLl, Slot};
use vstd::prelude::*;

verus! {

/// Main structure for handling the unit, which it owns.
pub struct Mpu {
    /// The unit
    ll: MpuLl,
}

/// Whether a region should be writable
#[derive(Debug, PartialEq, Eq, Clone, Copy, Structural)]
pub enum Writable {
    /// It shouldn't
    No,
    /// It should
    Yes,
}

/// Whether a region should be executable
#[derive(Debug, PartialEq, Eq, Clone, Copy, Structural)]
pub enum Executable {
    /// It shouldn't
    No,
    /// It should
    Yes,
}

/// Index for a region of the unit
pub struct Region(usize);

impl Region {
    /// The index.
    pub closed spec fn index(&self) -> usize {
        self.0
    }

    /// Makes the index `x`, which is one of a region of the unit
    pub fn new(x: usize) -> (r: Region)
        requires
            x < MPU_SECTORS,
        ensures
            r.index() == x,
    {
        Region(x)
    }
}

/// Whether the unit can protect a region: its size is a power of two and is
/// not too small, and it starts at a multiple of its size.
pub open spec fn protectable(start: usize, size: usize) -> bool {
    &&& size >= MPU_MIN_SIZE
    &&& size & ((size - 1) as usize) == 0
    &&& start & ((size - 1) as usize) == 0
}

/// Whether the unit can protect a region of `size` bytes from `start` on
pub fn is_protectable(start: usize, size: usize) -> (r: bool)
    ensures
        r == protectable(start, size),
{
    size >= MPU_MIN_SIZE && size & (size - 1) == 0 && start & (size - 1) == 0
}

/// The region that is read and not written nor executed.
pub open spec fn read_only(start: usize, size: usize) -> Slot {
    Slot { start, size, writable: false, executable: false, sub_region_disable: None }
}

/// The region that is read and written.
pub open spec fn read_write(start: usize, size: usize) -> Slot {
    Slot { start, size, writable: true, executable: false, sub_region_disable: None }
}

/// The region that is read and executed.
pub open spec fn read_execute(start: usize, size: usize) -> Slot {
    Slot { start, size, writable: false, executable: true, sub_region_disable: None }
}

/// The regions with those that do not change set for unprivileged code: the
/// applets are read, the shared data is read, a part of it written too, and
/// the program is read and executed.
pub open spec fn with_fixed_regions(regions: Seq<Slot>) -> Seq<Slot> {
    regions.update(3, read_only(0x0802_0000, 0x20000)).update(
        4,
        read_write(0x2000_0800, 0x800),
    ).update(5, read_only(0x2000_0000, 0x800)).update(7, read_execute(0x0806_0000, 0x20000))
}

/// The regions are those of unprivileged code that runs in the window of
/// `size` bytes from `begin` on.
pub open spec fn userland(regions: Seq<Slot>, begin: usize, size: usize) -> bool {
    &&& regions.len() == 8
    &&& regions[0].size == 0
    &&& regions[1].size == 0
    &&& regions[2].size == 0
    &&& regions[3] == read_only(0x0802_0000, 0x20000)
    &&& regions[4] == read_write(0x2000_0800, 0x800)
    &&& regions[5] == read_only(0x2000_0000, 0x800)
    &&& regions[6] == read_write(begin, size)
    &&& regions[7] == read_execute(0x0806_0000, 0x20000)
}

/// Whether writing is among what is allowed.
pub open spec fn writing(allowed: i32) -> bool {
    allowed == 3 || allowed == 7
}

/// Whether what is allowed lets a byte be read, or written.
pub open spec fn permits(allowed: i32, write: bool) -> bool {
    if write {
        writing(allowed)
    } else {
        allowed != 0
    }
}

impl Mpu {
    /// The unit is as it should.
    pub closed spec fn wf(&self) -> bool {
        self.ll.wf()
    }

    /// The regions of the unit.
    pub closed spec fn regions(&self) -> Seq<Slot> {
        self.ll.regions()
    }

    /// Whether the unit has been set up.
    pub closed spec fn is_setup(&self) -> bool {
        self.ll.is_setup()
    }

    /// What is allowed at `addr` to code that is privileged or not.
    pub open spec fn allows(&self, privileged: bool, addr: usize) -> i32 {
        if privileged {
            7
        } else {
            allowed(self.regions(), 8, addr)
        }
    }

    /// The regions are eight.
    pub proof fn lemma_regions(&self)
        requires
            self.wf(),
        ensures
            self.regions().len() == 8,
    {
        self.ll.lemma_regions();
    }

    /// Takes the unit, in which nothing is set so far: privileged code may do
    /// everything and unprivileged code nothing. See `setup()` for one-time
    /// initialization.
    pub fn get() -> (m: Mpu)
        ensures
            m.wf(),
            !m.is_setup(),
            m.regions().len() == 8,
            forall|i: int| 0 <= i < 8 ==> #[trigger] m.regions()[i] == crate::mpu_ll::unset(),
    {
        let ll = MpuLl::new();
        proof {
            ll.lemma_regions();
        }
        Mpu { ll }
    }

    /// Whether the unit has been set up
    pub fn ready(&self) -> (r: bool)
        ensures
            r == self.is_setup(),
    {
        self.ll.ready()
    }

    /// Enables the unit with the default memory map enabled (ie. privileged
    /// mode able to read and write all the memory)
    pub fn setup(&mut self)
        requires
            !old(self).is_setup(),
        ensures
            final(self).is_setup(),
            final(self).regions() == old(self).regions(),
            final(self).wf() == old(self).wf(),
    {
        crate::mpu_ll::setup(&mut self.ll);
    }

    /// Sets permissions for an unprivileged region (along with enabling it)
    ///
    /// `region` is the number of the region to change, `start` the address of
    /// the beginning of the region to protect, `size` its size. `writable` and
    /// `executable` define whether the region should be writable (by
    /// unprivileged code) and executable (by all code).
    ///
    /// A region is not both executable and writable. Its size is a power of
    /// two, and `start` is `size`-aligned. This unit has no sub-regions:
    /// none can be disabled, whatever the size of the region.
    pub fn set_unprivileged_region(
        &mut self,
        region: Region,
        start: usize,
        size: usize,
        writable: Writable,
        executable: Executable,
        sub_region_disable: Option<[bool; 8]>,
    )
        requires
            old(self).wf(),
            old(self).is_setup(),
            region.index() < MPU_SECTORS,
            protectable(start, size),
            !(executable == Executable::Yes && writable == Writable::Yes),
            sub_region_disable is None,
        ensures
            final(self).wf(),
            final(self).is_setup(),
            final(self).regions() == old(self).regions().update(
                region.index() as int,
                Slot {
                    start,
                    size,
                    writable: writable == Writable::Yes,
                    executable: executable == Executable::Yes,
                    sub_region_disable,
                },
            ),
    {
        crate::mpu_ll::set_unprivileged_region(
            &mut self.ll,
            region.0,
            start,
            size,
            writable == Writable::Yes,
            executable == Executable::Yes,
            sub_region_disable,
        );
    }

    /// Sets up unprivileged regions to get ready to run userland programs
    ///
    /// Calling `switch_userland` will also be necessary to run them
    /// successfully.
    pub fn setup_unpriv_regions(&mut self)
        requires
            old(self).wf(),
            old(self).is_setup(),
        ensures
            final(self).wf(),
            final(self).is_setup(),
            final(self).regions() == with_fixed_regions(old(self).regions()),
    {
        proof {
            assert(0x20000usize & 0x1ffffusize == 0) by (bit_vector);
            assert(0x0802_0000usize & 0x1ffffusize == 0) by (bit_vector);
            assert(0x0806_0000usize & 0x1ffffusize == 0) by (bit_vector);
            assert(0x800usize & 0x7ffusize == 0) by (bit_vector);
            assert(0x2000_0800usize & 0x7ffusize == 0) by (bit_vector);
            assert(0x2000_0000usize & 0x7ffusize == 0) by (bit_vector);
        }
        // Regions 0-2: Unused yet
        // Region 3: Allow RO access to CAP files
        self.set_unprivileged_region(
            Region::new(3),
            applet_begin(),
            applet_size(),
            Writable::No,
            Executable::No,
            None,
        );
        // Region 4: Allow RW access to shared-rw section
        self.set_unprivileged_region(
            Region::new(4),
            shared_rw_start(),
            shared_rw_total_size(),
            Writable::Yes,
            Executable::No,
            None,
        );
        // Region 5: Allow RO access to global variables
        self.set_unprivileged_region(
            Region::new(5),
            shared_ro_start(),
            shared_ro_size(),
            Writable::No,
            Executable::No,
            None,
        );
        // Region 6: Reserved for allowing the segment of RAM reserved for the context
        // Region 7: Allow RX access to firmware code
        self.set_unprivileged_region(
            Region::new(7),
            program_begin(),
            program_size(),
            Writable::No,
            Executable::Yes,
            None,
        );
    }

    /// Switch the segment allowing userland to access RAM to the one given in
    /// parameters
    pub fn switch_userland(&mut self, begin: usize, size: usize)
        requires
            old(self).wf(),
            old(self).is_setup(),
            protectable(begin, size),
        ensures
            final(self).wf(),
            final(self).is_setup(),
            final(self).regions() == old(self).regions().update(6, read_write(begin, size)),
    {
        self.set_unprivileged_region(
            Region::new(6),
            begin,
            size,
            Writable::Yes,
            Executable::No,
            None,
        );
    }

    /// Tries to read the byte at `addr`, or to write it, for code that is
    /// privileged or not.
    ///
    /// # Errors
    ///
    /// Errors where the unit does not allow it, with the offset of the byte
    /// from `base`, by which the fault is reported.
    pub fn try_access(&self, privileged: bool, addr: usize, write: bool, base: usize) -> (r: Result<
        (),
        usize,
    >)
        requires
            self.wf(),
        ensures
            r == if permits(self.allows(privileged, addr), write) {
                Ok::<(), usize>(())
            } else {
                Err::<(), usize>(addr.wrapping_sub(base))
            },
    {
        let allowed = self.allows_addr(privileged, addr);
        let granted = if write {
            allowed == 3 || allowed == 7
        } else {
            allowed != 0
        };
        if granted {
            Ok(())
        } else {
            Err(addr.wrapping_sub(base))
        }
    }

    /// Check what is allowed at `addr` to code that is privileged or not
    pub fn allows_addr(&self, privileged: bool, addr: usize) -> (r: i32)
        requires
            self.wf(),
        ensures
            r == self.allows(privileged, addr),
    {
        crate::mpu_ll::allows_addr(&self.ll, privileged, addr)
    }
}

/// Once the fixed regions are set in a unit that held none, and the window
/// is, the regions are those of unprivileged code that runs in the window.
pub proof fn lemma_userland(regions: Seq<Slot>, begin: usize, size: usize)
    requires
        regions.len() == 8,
        forall|i: int| 0 <= i < 8 ==> (#[trigger] regions[i]).size == 0,
    ensures
        userland(with_fixed_regions(regions).update(6, read_write(begin, size)), begin, size),
        userland(with_fixed_regions(regions.update(6, read_write(begin, size))), begin, size),
{
}

/// Unprivileged code that runs in a window writes nowhere but in its window
/// and in the shared data that is writable, and reads nothing but these,
/// the rest of the shared data, the applets and the program. In its window,
/// where the program does not lie, it reads and writes but does not execute.
pub proof fn lemma_window(regions: Seq<Slot>, begin: usize, size: usize, addr: usize)
    requires
        userland(regions, begin, size),
    ensures
        writing(allowed(regions, 8, addr)) ==> covers(regions[6], addr) || covers(
            regions[4],
            addr,
        ),
        allowed(regions, 8, addr) != 0 ==> covers(regions[6], addr) || covers(regions[4], addr)
            || covers(regions[5], addr) || covers(regions[3], addr) || covers(regions[7], addr),
        covers(regions[6], addr) && !covers(regions[7], addr) ==> allowed(regions, 8, addr) == 3,
{
    reveal_with_fuel(allowed, 9);
}

/// In a window that ends in the address space and away from the program and
/// the shared data, unprivileged code writes the last byte, and does not
/// write the byte after it.
pub proof fn lemma_window_bounds(regions: Seq<Slot>, begin: usize, size: usize)
    requires
        userland(regions, begin, size),
        size > 0,
        0x2000_1000 <= begin,
        begin + size <= usize::MAX,
    ensures
        writing(allowed(regions, 8, (begin + size - 1) as usize)),
        !writing(allowed(regions, 8, (begin + size) as usize)),
{
    lemma_window(regions, begin, size, (begin + size - 1) as usize);
    lemma_window(regions, begin, size, (begin + size) as usize);
}

} // verus!
