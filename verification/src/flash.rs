//! Flash handling above the device.
//!
//! The flash is cut into sectors, by hardware design. Memory can be written
//! from 1 to 0 at any bit level, but writing from 0 to 1 requires to erase an
//! entire sector.
//!
//! The [`Flash`] owns the device and, for each sector, a table of the locks
//! that are taken on it. A lock is a triple: whether it is a write-lock, where
//! its range starts in the sector and how long the range is. A [`Sector`], a
//! [`FlashBlock`] or a [`FlashBlockMut`] is a handle: it names a place and is
//! used together with the `Flash` that handed it out. A handle is given back
//! with `release`, which takes its lock out of the table.

use crate::flash_ll;
use crate::flash_ll::FlashDevice;
use crate::hashset::{HashSet, Hashed};
use vstd::prelude::*;
use vstd::slice::slice_subrange;

verus! {

/// Errors that can happen when trying to initialize the flash datastructures.
#[derive(Debug, PartialEq, Eq, Clone, Copy, Structural)]
pub enum InitError {
    /// Another [`Flash`] object already locked the flash for its own usage.
    FlashInUse,
}

/// Errors that can happen when performing IO on the flash.
#[derive(Debug, PartialEq, Eq, Clone, Copy, Structural)]
pub enum IOError {
    /// The picked location is already locked (in an incompatible with current
    /// access RW-lock mode).
    LockedError,
    /// The index has been given out of bounds.
    OutOfBounds,
    /// An unknown error happened: the argument is what the device reported.
    UnknownError(u32),
}

/// Information describing a sector's low-level informations.
///
/// It is used only for passing arguments to [`Flash::new`].
pub struct SectorInfo {
    /// Number by which the device knows the sector. All along the code, a
    /// [`SectorID`] refers to the order in which the `SectorInfo`'s are given
    /// to [`Flash::new`], not to the number given here.
    pub num: u32,
    /// Place of the first byte of the sector in the memory-mapped flash.
    pub start: usize,
    /// Length of the flash sector.
    pub length: usize,
}

/// An identifier of sector as an index into the array given as a parameter of
/// [`Flash::new`].
#[derive(Debug, PartialEq, Eq, Clone, Copy, Structural)]
pub struct SectorID(pub usize);

/// A lock on a range of a sector
#[derive(Debug, PartialEq, Eq, Clone, Copy, Structural)]
pub struct Lock {
    /// Whether the lock is a write-lock
    pub write: bool,
    /// Index of the first byte of the range in the sector
    pub start: usize,
    /// Length of the range
    pub length: usize,
}

impl Hashed for Lock {
    open spec fn words(&self) -> Seq<usize> {
        seq![if self.write { 1usize } else { 0usize }, self.start, self.length]
    }

    fn word_count(&self) -> (n: usize) {
        3
    }

    fn word(&self, i: usize) -> (w: usize) {
        if i == 0 {
            if self.write {
                1
            } else {
                0
            }
        } else if i == 1 {
            self.start
        } else {
            self.length
        }
    }
}

/// Two locks with the same words are the same lock.
pub proof fn lemma_lock_words(a: Lock, b: Lock)
    requires
        a.words() == b.words(),
    ensures
        a == b,
{
    assert(a.words()[0] == b.words()[0]);
    assert(a.words()[1] == b.words()[1]);
    assert(a.words()[2] == b.words()[2]);
}

/// A sector of a [`Flash`]
#[derive(Debug, PartialEq, Eq, Clone, Copy, Structural)]
pub struct Sector {
    /// Place of the sector among the sectors of its flash
    id: usize,
    /// Flash-level number for the sector
    num: u32,
    /// Place of the first byte of the sector in the memory-mapped flash
    start: usize,
    /// Length of the sector
    length: usize,
}

/// What the flash keeps for a sector
struct SectorState {
    /// Flash-level number for the sector
    num: u32,
    /// Place of the first byte of the sector in the memory-mapped flash
    start: usize,
    /// Length of the sector
    length: usize,
    /// Set of all locks currently taken on this sector
    locks: HashSet<Lock>,
}

/// A read-only block of flash
#[derive(Debug, PartialEq, Eq)]
pub struct FlashBlock {
    /// Index of the first byte in the parent sector
    start: usize,
    /// Length of the block
    length: usize,
    /// The parent sector
    sector: Sector,
}

/// A read-write block of flash
#[derive(Debug, PartialEq, Eq)]
pub struct FlashBlockMut {
    /// Index of the first byte in the parent sector
    start: usize,
    /// Length of the block
    length: usize,
    /// The parent sector
    sector: Sector,
}

/// The mutex `spin::mutex::Mutex`. Nothing is said of what is in it: it is
/// handed to `try_lock` and no more.
#[verifier::external_type_specification]
#[verifier::external_body]
#[verifier::reject_recursive_types(T)]
#[verifier::reject_recursive_types(R)]
pub struct ExMutex<T: ?Sized, R>(spin::mutex::Mutex<T, R>);

/// The guard `spin::mutex::MutexGuard`, which keeps its mutex locked while it
/// lives. Nothing is said of what is in it: the flash keeps it and no more.
#[verifier::external_type_specification]
#[verifier::external_body]
#[verifier::reject_recursive_types(T)]
#[verifier::reject_recursive_types(R)]
pub struct ExMutexGuard<'a, T: 'a + ?Sized, R>(spin::mutex::MutexGuard<'a, T, R>);

/// The way `spin::relax::Spin` in which a mutex of `spin` waits, which the
/// type of the mutex names. No value of it is made or used.
#[verifier::external_type_specification]
#[verifier::external_body]
pub struct ExSpin(spin::relax::Spin);

/// Tries to take the mutex `in_use`, with `spin::mutex::Mutex::try_lock`: the
/// guard if the mutex was free, `None` if another guard of it lives. Nothing
/// is claimed of which of the two comes back.
#[verifier::external_body]
fn try_claim<'a>(in_use: &'a spin::Mutex<()>) -> (guard: Option<spin::MutexGuard<'a, ()>>) {
    in_use.try_lock()
}

/// Main structure for handling the flash.
pub struct Flash<'a> {
    /// Guard that holds the mutex of the flash locked so long as this object
    /// exists
    _guard: spin::MutexGuard<'a, ()>,
    /// Whether the flash is open in writing
    locked: bool,
    /// The device
    device: FlashDevice,
    /// List of the sectors
    sectors: Vec<SectorState>,
}

/// Whether the ranges `[a_start; a_length]` and `[b_start; b_length]` overlap.
pub open spec fn ranges_overlap(a_start: int, a_length: int, b_start: int, b_length: int) -> bool {
    b_start < a_start + a_length && a_start < b_start + b_length
}

/// Whether two locks cannot be held together: one of them is a write-lock and
/// their ranges overlap.
pub open spec fn incompatible(a: Lock, b: Lock) -> bool {
    (a.write || b.write) && ranges_overlap(
        a.start as int,
        a.length as int,
        b.start as int,
        b.length as int,
    )
}

/// The bytes of `old`, of which those from `at` on keep only the bits that
/// the bytes of `vals` have too.
pub open spec fn and_range(old: Seq<u8>, at: int, vals: Seq<u8>) -> Seq<u8> {
    Seq::new(
        old.len(),
        |j: int|
            if at <= j < at + vals.len() {
                old[j] & vals[j - at]
            } else {
                old[j]
            },
    )
}

/// `n` zero bytes.
pub open spec fn zeros(n: nat) -> Seq<u8> {
    Seq::new(n, |j: int| 0u8)
}

/// `n` erased bytes.
pub open spec fn blank(n: nat) -> Seq<u8> {
    Seq::new(n, |j: int| 0xFFu8)
}

/// Whether the sectors described by `si` are sectors of the device, each
/// 32-bit aligned and none upon another.
pub open spec fn describes(dev: FlashDevice, si: Seq<SectorInfo>) -> bool {
    &&& forall|i: int|
        0 <= i < si.len() ==> {
            &&& (#[trigger] si[i]).num < dev.layout().len()
            &&& dev.layout()[si[i].num as int] == (si[i].start, si[i].length)
            &&& si[i].start % 4 == 0
            &&& si[i].length % 4 == 0
        }
    &&& forall|i: int, j: int|
        0 <= i < si.len() && 0 <= j < si.len() && i != j ==> (#[trigger] si[i]).start
            + si[i].length <= (#[trigger] si[j]).start || si[j].start + si[j].length
            <= si[i].start
}

/// Returns true if `[a_start; a_length]` and `[b_start; b_length]` overlap on
/// at least a byte.
///
/// Note: an empty range overlaps a range that it lies strictly inside of.
pub fn overlap(a_start: usize, a_length: usize, b_start: usize, b_length: usize) -> (r: bool)
    requires
        a_start + a_length <= usize::MAX,
        b_start + b_length <= usize::MAX,
    ensures
        r == ranges_overlap(a_start as int, a_length as int, b_start as int, b_length as int),
{
    b_start < (a_start + a_length) && a_start < (b_start + b_length)
}

/// Returns an `IOError` if the device reports an error, which is cleared then:
/// the error holds what the device reported. A device that is as it should
/// reports none.
fn test_for_error(dev: &mut FlashDevice) -> (r: Result<(), IOError>)
    ensures
        match r {
            Ok(()) => old(dev).error() == 0 && *final(dev) == *old(dev),
            Err(e) => {
                &&& old(dev).error() != 0
                &&& e == IOError::UnknownError(old(dev).error())
                &&& *final(dev) == old(dev).cleared()
            },
        },
        old(dev).wf() ==> r is Ok,
{
    proof {
        dev.lemma_error();
    }
    let res = match flash_ll::has_error(dev) {
        0 => Ok(()),
        err => Err(IOError::UnknownError(err)),
    };
    if res.is_err() {
        flash_ll::clear_error(dev);
    }
    res
}

/// Waits for a flash operation to complete.
fn sync(dev: &FlashDevice) {
    while flash_ll::currently_busy(dev)
        decreases 0nat,
    {
        // Busy wait for the flash not to be busy any longer
    }
}

proof fn lemma_align(x: usize)
    by (bit_vector)
    ensures
        x & !3usize <= x,
        x - (x & !3usize) == x & 3usize,
        x & 3usize < 4,
        (x & !3usize) % 4 == 0,
        x & 3usize == x % 4,
{
}

proof fn lemma_replace_byte(word: u32, v: u8, k: u32)
    by (bit_vector)
    requires
        k < 4,
    ensures
        ({
            let new = (word & !(0xFFu32 << (8 * k))) | ((v as u32) << (8 * k));
            &&& k == 0 ==> (new & 0xFF) as u8 == v
            &&& k != 0 ==> (new & 0xFF) as u8 == (word & 0xFF) as u8
            &&& k == 1 ==> ((new >> 8) & 0xFF) as u8 == v
            &&& k != 1 ==> ((new >> 8) & 0xFF) as u8 == ((word >> 8) & 0xFF) as u8
            &&& k == 2 ==> ((new >> 16) & 0xFF) as u8 == v
            &&& k != 2 ==> ((new >> 16) & 0xFF) as u8 == ((word >> 16) & 0xFF) as u8
            &&& k == 3 ==> ((new >> 24) & 0xFF) as u8 == v
            &&& k != 3 ==> ((new >> 24) & 0xFF) as u8 == ((word >> 24) & 0xFF) as u8
        }),
{
}

/// A byte keeps all its bits when it is programmed with itself, and an erased
/// byte takes the value it is programmed with.
pub proof fn lemma_and_byte(b: u8)
    by (bit_vector)
    ensures
        b & b == b,
        0xFFu8 & b == b,
        b & 0u8 == 0u8,
        b & 0xFFu8 == b,
{
}

/// Programming erased bytes leaves the values programmed.
pub proof fn lemma_and_range_blank(old: Seq<u8>, at: int, vals: Seq<u8>)
    requires
        0 <= at,
        at + vals.len() <= old.len(),
        forall|j: int| at <= j < at + vals.len() ==> old[j] == 0xFFu8,
    ensures
        and_range(old, at, vals) == Seq::new(
            old.len(),
            |j: int|
                if at <= j < at + vals.len() {
                    vals[j - at]
                } else {
                    old[j]
                },
        ),
{
    assert forall|j: int| at <= j < at + vals.len() implies and_range(old, at, vals)[j] == vals[j
        - at] by {
        lemma_and_byte(vals[j - at]);
    }
    assert(and_range(old, at, vals) =~= Seq::new(
        old.len(),
        |j: int|
            if at <= j < at + vals.len() {
                vals[j - at]
            } else {
                old[j]
            },
    ));
}

impl Sector {
    /// Place of the sector among the sectors of its flash.
    pub closed spec fn index(&self) -> int {
        self.id as int
    }

    /// Length of the sector.
    pub closed spec fn length(&self) -> int {
        self.length as int
    }

    /// Place of the first byte of the sector in the memory-mapped flash.
    pub closed spec fn offset(&self) -> int {
        self.start as int
    }

    /// Flash-level number of the sector.
    pub closed spec fn number(&self) -> int {
        self.num as int
    }

    /// Whether a range of the sector reaches past its end.
    pub open spec fn out_of_bounds(&self, start: usize, length: usize) -> bool {
        start >= self.length() || start + length > self.length()
    }

    /// The place and the length of a sector are numbers of bytes.
    pub proof fn lemma_range(&self)
        ensures
            0 <= self.index() <= usize::MAX,
            0 <= self.length() <= usize::MAX,
            0 <= self.offset() <= usize::MAX,
    {
    }

    /// Returns the low-level number of this sector
    pub fn num(&self) -> (r: usize)
        ensures
            r == self.number(),
    {
        self.num as usize
    }

    /// Returns the length of the sector
    pub fn len(&self) -> (r: usize)
        ensures
            r == self.length(),
    {
        self.length
    }

    /// Returns the place of the first byte of the sector in the memory-mapped
    /// flash
    pub fn start(&self) -> (r: usize)
        ensures
            r == self.offset(),
    {
        self.start
    }

    /// Two handles that say the same of their sectors are the same.
    pub proof fn lemma_same(self, other: Sector)
        requires
            self.index() == other.index(),
            self.number() == other.number(),
            self.offset() == other.offset(),
            self.length() == other.length(),
        ensures
            self == other,
    {
    }

    /// Returns the place of the sector among the sectors of its flash
    pub fn id(&self) -> (r: SectorID)
        ensures
            r.0 == self.index(),
    {
        SectorID(self.id)
    }

    /// Add a lock to the lock table of the sector.
    ///
    /// # Errors
    ///
    /// This errors, and leaves the table as it was, if an incompatible lock
    /// (ie. at least one is read-write) is already taken on a region
    /// intersecting with the one requested.
    pub fn lock(&self, flash: &mut Flash, rw: bool, start: usize, length: usize) -> (r: Result<
        (),
        IOError,
    >)
        requires
            old(flash).wf(),
            old(flash).has(*self),
            start + length <= self.length(),
        ensures
            final(flash).wf(),
            final(flash).same_but_locks(*old(flash), self.index()),
            final(flash).same_bytes(*old(flash)),
            final(flash).writing() == old(flash).writing(),
            match r {
                Ok(()) => {
                    &&& !old(flash).conflicts(self.index(), Lock { write: rw, start, length })
                    &&& forall|l: Lock|
                        #![trigger final(flash).holds(self.index(), l)]
                        final(flash).holds(self.index(), l) <==> (old(flash).holds(
                            self.index(),
                            l,
                        ) || l == Lock { write: rw, start, length })
                },
                Err(e) => {
                    &&& e == IOError::LockedError
                    &&& old(flash).conflicts(self.index(), Lock { write: rw, start, length })
                    &&& forall|l: Lock|
                        #![trigger final(flash).holds(self.index(), l)]
                        final(flash).holds(self.index(), l) <==> old(flash).holds(self.index(), l)
                },
            },
    {
        let wanted = Lock { write: rw, start, length };
        let locks = &flash.sectors[self.id].locks;
        let mut it = locks.iter();
        loop
            invariant
                flash.wf(),
                flash.has(*self),
                *flash == *old(flash),
                locks == &flash.sectors@[self.id as int].locks,
                start + length <= self.length(),
                wanted == (Lock { write: rw, start, length }),
                it.wf(),
                it.set() == locks,
                it.position() <= locks.elements().len(),
                forall|j: int|
                    0 <= j < it.position() ==> !incompatible(wanted, #[trigger] locks.elements()[j]),
            ensures
                it.position() == locks.elements().len(),
            decreases locks.elements().len() - it.position(),
        {
            match it.next() {
                None => {
                    break ;
                },
                Some(held) => {
                    proof {
                        assert(locks.contains(*held));
                        assert(flash.holds(self.index(), *held));
                    }
                    if (held.write || rw) && overlap(start, length, held.start, held.length) {
                        return Err(IOError::LockedError);
                    }
                },
            }
        }
        proof {
            if flash.conflicts(self.index(), wanted) {
                let h = choose|h: Lock| #[trigger]
                    flash.holds(self.index(), h) && incompatible(wanted, h);
                let j = choose|j: int| 0 <= j < locks.elements().len() && locks.elements()[j] == h;
                assert(!incompatible(wanted, locks.elements()[j]));
            }
        }
        let ghost before = flash.sectors@[self.id as int].locks;
        flash.sectors[self.id].locks.insert(wanted);
        proof {
            let after = flash.sectors@[self.id as int].locks;
            assert forall|l: Lock| after.contains(l) <==> (before.contains(l) || l == wanted) by {
                if before.has_key(wanted.words()) {
                    let x = choose|x: Lock| #[trigger]
                        before.contains(x) && x.words() == wanted.words();
                    lemma_lock_words(x, wanted);
                }
            }
            assert(flash.wf()) by {
                assert forall|i: int, a: Lock, b: Lock|
                    0 <= i < flash.sectors@.len() && #[trigger] flash.sectors@[i].locks.contains(a)
                        && #[trigger] flash.sectors@[i].locks.contains(b) && a != b implies !incompatible(
                    a,
                    b,
                ) by {
                    if i == self.id {
                        if a == wanted {
                            assert(old(flash).holds(self.index(), b));
                        } else if b == wanted {
                            assert(old(flash).holds(self.index(), a));
                        }
                    } else {
                        assert(old(flash).sectors@[i].locks.contains(a));
                    }
                }
            }
        }
        Ok(())
    }

    /// Remove a lock from the lock table of the sector.
    ///
    /// Nothing tells whether the range is still in use: this is for the
    /// release of a block.
    pub fn unlock(&self, flash: &mut Flash, rw: bool, start: usize, length: usize)
        requires
            old(flash).wf(),
            old(flash).has(*self),
        ensures
            final(flash).wf(),
            final(flash).same_but_locks(*old(flash), self.index()),
            final(flash).same_bytes(*old(flash)),
            final(flash).writing() == old(flash).writing(),
            forall|l: Lock|
                #![trigger final(flash).holds(self.index(), l)]
                final(flash).holds(self.index(), l) <==> (old(flash).holds(self.index(), l) && l
                    != Lock { write: rw, start, length }),
    {
        let gone = Lock { write: rw, start, length };
        let ghost before = flash.sectors@[self.id as int].locks;
        flash.sectors[self.id].locks.remove(&gone);
        proof {
            let after = flash.sectors@[self.id as int].locks;
            assert forall|l: Lock| after.contains(l) <==> (before.contains(l) && l != gone) by {
                if l.words() == gone.words() {
                    lemma_lock_words(l, gone);
                }
            }
            assert forall|i: int, a: Lock, b: Lock|
                0 <= i < flash.sectors@.len() && #[trigger] flash.sectors@[i].locks.contains(a)
                    && #[trigger] flash.sectors@[i].locks.contains(b) && a != b implies !incompatible(
                a,
                b,
            ) by {
                assert(old(flash).sectors@[i].locks.contains(a));
                assert(old(flash).sectors@[i].locks.contains(b));
            }
        }
    }

    /// Returns a read-only flash block on the requested portion of this sector
    ///
    /// # Errors
    ///
    /// Errors if the requested portion of this sector exceeds the size of it,
    /// or if there is an incompatible lock on it.
    pub fn read(&self, flash: &mut Flash, start: usize, length: usize) -> (r: Result<
        FlashBlock,
        IOError,
    >)
        requires
            old(flash).wf(),
            old(flash).has(*self),
        ensures
            final(flash).wf(),
            final(flash).same_but_locks(*old(flash), self.index()),
            final(flash).same_bytes(*old(flash)),
            final(flash).writing() == old(flash).writing(),
            match r {
                Ok(b) => {
                    &&& !self.out_of_bounds(start, length)
                    &&& !old(flash).conflicts(
                        self.index(),
                        Lock { write: false, start, length },
                    )
                    &&& b.sector_spec() == *self
                    &&& b.first() == start
                    &&& b.size() == length
                    &&& forall|l: Lock|
                        #![trigger final(flash).holds(self.index(), l)]
                        final(flash).holds(self.index(), l) <==> (old(flash).holds(
                            self.index(),
                            l,
                        ) || l == Lock { write: false, start, length })
                },
                Err(e) => {
                    &&& forall|l: Lock|
                        #![trigger final(flash).holds(self.index(), l)]
                        final(flash).holds(self.index(), l) <==> old(flash).holds(self.index(), l)
                    &&& if self.out_of_bounds(start, length) {
                        e == IOError::OutOfBounds
                    } else {
                        e == IOError::LockedError && old(flash).conflicts(
                            self.index(),
                            Lock { write: false, start, length },
                        )
                    }
                },
            },
    {
        if start >= self.length || length > self.length || length > self.length - start {
            Err(IOError::OutOfBounds)
        } else {
            match self.lock(flash, false, start, length) {
                Ok(()) => Ok(FlashBlock { start, length, sector: *self }),
                Err(e) => Err(e),
            }
        }
    }

    /// Opens the flash in writing and hands out a [`FlashBlockMut`] on the
    /// requested portion of this sector. The flash stays open in writing
    /// until the block is released.
    ///
    /// # Errors
    ///
    /// Errors if the portion exceeds the size of the sector, if the flash is
    /// open in writing already, or if there is an incompatible lock on the
    /// portion.
    pub fn with_writer(&self, flash: &mut Flash, start: usize, length: usize) -> (r: Result<
        FlashBlockMut,
        IOError,
    >)
        requires
            old(flash).wf(),
            old(flash).has(*self),
        ensures
            final(flash).wf(),
            final(flash).same_but_locks(*old(flash), self.index()),
            final(flash).same_bytes(*old(flash)),
            match r {
                Ok(b) => {
                    &&& !self.out_of_bounds(start, length)
                    &&& !old(flash).writing()
                    &&& !old(flash).conflicts(self.index(), Lock { write: true, start, length })
                    &&& final(flash).writing()
                    &&& b.sector_spec() == *self
                    &&& b.first() == start
                    &&& b.size() == length
                    &&& forall|l: Lock|
                        #![trigger final(flash).holds(self.index(), l)]
                        final(flash).holds(self.index(), l) <==> (old(flash).holds(
                            self.index(),
                            l,
                        ) || l == Lock { write: true, start, length })
                },
                Err(e) => {
                    &&& final(flash).writing() == old(flash).writing()
                    &&& forall|l: Lock|
                        #![trigger final(flash).holds(self.index(), l)]
                        final(flash).holds(self.index(), l) <==> old(flash).holds(self.index(), l)
                    &&& if self.out_of_bounds(start, length) {
                        e == IOError::OutOfBounds
                    } else {
                        e == IOError::LockedError && (old(flash).writing() || old(
                            flash,
                        ).conflicts(self.index(), Lock { write: true, start, length }))
                    }
                },
            },
    {
        if start >= self.length || length > self.length || length > self.length - start {
            Err(IOError::OutOfBounds)
        } else {
            match flash.with_flash_unlocked() {
                Err(e) => Err(e),
                Ok(()) => match self.lock(flash, true, start, length) {
                    Ok(()) => Ok(FlashBlockMut { start, length, sector: *self }),
                    Err(e) => {
                        flash.relock();
                        Err(e)
                    },
                },
            }
        }
    }

    /// Erases the sector
    ///
    /// # Errors
    ///
    /// Errors if the flash is open in writing, or if there is a lock held
    /// anywhere on the sector.
    pub fn erase(&self, flash: &mut Flash) -> (r: Result<(), IOError>)
        requires
            old(flash).wf(),
            old(flash).has(*self),
        ensures
            final(flash).wf(),
            final(flash).same_but_locks(*old(flash), self.index()),
            final(flash).same_but_bytes(*old(flash), self.index()),
            final(flash).writing() == old(flash).writing(),
            match r {
                Ok(()) => {
                    &&& !old(flash).writing()
                    &&& !old(flash).conflicts(
                        self.index(),
                        Lock { write: true, start: 0, length: self.length() as usize },
                    )
                    &&& final(flash).bytes(self.index()) == blank(self.length() as nat)
                    &&& forall|l: Lock|
                        #![trigger final(flash).holds(self.index(), l)]
                        final(flash).holds(self.index(), l) <==> (old(flash).holds(
                            self.index(),
                            l,
                        ) && l != Lock { write: true, start: 0, length: self.length() as usize })
                },
                Err(e) => {
                    &&& e == IOError::LockedError
                    &&& old(flash).writing() || old(flash).conflicts(
                        self.index(),
                        Lock { write: true, start: 0, length: self.length() as usize },
                    )
                    &&& final(flash).bytes(self.index()) == old(flash).bytes(self.index())
                    &&& forall|l: Lock|
                        #![trigger final(flash).holds(self.index(), l)]
                        final(flash).holds(self.index(), l) <==> old(flash).holds(self.index(), l)
                },
            },
    {
        match flash.with_flash_unlocked() {
            Err(e) => Err(e),
            Ok(()) => match self.lock(flash, true, 0, self.length) {
                Err(e) => {
                    flash.relock();
                    Err(e)
                },
                Ok(()) => {
                    let ghost mid = *flash;
                    flash_ll::clear_error(&mut flash.device);
                    flash_ll::erase(&mut flash.device, self.num);
                    sync(&flash.device);
                    proof {
                        assert(flash.sectors == mid.sectors);
                        assert(flash.wf());
                        assert(flash.same_but_locks(mid, -1));
                        flash.lemma_frame(mid, self.index());
                        assert(flash.bytes(self.index()) =~= blank(self.length() as nat));
                    }
                    self.unlock(flash, true, 0, self.length);
                    flash.relock();
                    test_for_error(&mut flash.device)
                },
            },
        }
    }
}

impl<'a> Flash<'a> {
    /// Number of sectors of the flash.
    pub closed spec fn sector_count(&self) -> nat {
        self.sectors@.len()
    }

    /// The handle of the `i`-th sector.
    pub closed spec fn handle(&self, i: int) -> Sector {
        Sector {
            id: i as usize,
            num: self.sectors@[i].num,
            start: self.sectors@[i].start,
            length: self.sectors@[i].length,
        }
    }

    /// Whether `s` is the handle of a sector of this flash.
    pub open spec fn has(&self, s: Sector) -> bool {
        0 <= s.index() < self.sector_count() && self.handle(s.index()) == s
    }

    /// The contents of the `i`-th sector.
    pub closed spec fn bytes(&self, i: int) -> Seq<u8> {
        self.device@.subrange(
            self.sectors@[i].start as int,
            self.sectors@[i].start + self.sectors@[i].length,
        )
    }

    /// All the bytes of the flash.
    pub closed spec fn memory(&self) -> Seq<u8> {
        self.device@
    }

    /// Whether the flash has the `len` bytes from the address `addr` on.
    pub open spec fn spans(&self, addr: usize, len: int) -> bool {
        self.begin() <= addr && addr + len <= self.begin() + self.memory().len()
    }

    /// The `len` bytes from the address `addr` on.
    pub open spec fn span(&self, addr: usize, len: int) -> Seq<u8> {
        self.memory().subrange(addr - self.begin(), addr - self.begin() + len)
    }

    /// A block of a sector is a part of the bytes of the flash: the bytes
    /// from the address on that the places of the flash, of the sector in it
    /// and of the block in the sector make.
    pub proof fn lemma_block_span(&self, b: FlashBlock)
        requires
            self.wf(),
            b.valid_in(self),
        ensures
            self.begin() + b.sector_spec().offset() + b.first() + b.size() <= usize::MAX,
            self.spans(
                (self.begin() + b.sector_spec().offset() + b.first()) as usize,
                b.size(),
            ),
            self.span(
                (self.begin() + b.sector_spec().offset() + b.first()) as usize,
                b.size(),
            ) == b.bytes(self),
    {
        self.device.lemma_len();
        self.lemma_bytes_len(b.sector_spec().index());
        b.lemma_range();
        let st = self.sectors@[b.sector_spec().index()];
        assert(self.span(
            (self.begin() + b.sector_spec().offset() + b.first()) as usize,
            b.size(),
        ) =~= b.bytes(self));
    }

    /// The `p`-th byte of a sector, whatever locks are held
    pub fn byte(&self, s: &Sector, p: usize) -> (r: u8)
        requires
            self.wf(),
            self.has(*s),
            p < s.length(),
        ensures
            r == self.bytes(s.index())[p as int],
    {
        proof {
            self.device.lemma_len();
            self.lemma_bytes_len(s.index());
            s.lemma_range();
        }
        let st = &self.sectors[s.id];
        self.device.memory()[st.start + p]
    }

    /// The `len` bytes from the address `addr` on, whatever locks are held,
    /// if the flash has them
    pub fn peek(&self, addr: usize, len: usize) -> (r: Option<&[u8]>)
        requires
            self.wf(),
        ensures
            match r {
                Some(s) => self.spans(addr, len as int) && s@ == self.span(addr, len as int),
                None => !self.spans(addr, len as int),
            },
    {
        proof {
            self.device.lemma_len();
        }
        let begin = self.device.begin_addr();
        let mem = self.device.memory();
        if begin <= addr && addr - begin <= mem.len() && len <= mem.len() - (addr - begin) {
            Some(slice_subrange(mem, addr - begin, addr - begin + len))
        } else {
            None
        }
    }

    /// Whether the lock `l` is in the table of the `i`-th sector.
    pub closed spec fn holds(&self, i: int, l: Lock) -> bool {
        self.sectors@[i].locks.contains(l)
    }

    /// Whether the flash is open in writing.
    pub closed spec fn writing(&self) -> bool {
        self.locked
    }

    /// Address of the first byte of the memory-mapped flash.
    pub closed spec fn begin(&self) -> int {
        self.device.begin()
    }

    /// Whether the lock `l` cannot be taken on the `i`-th sector, as a lock
    /// that is held there is incompatible with it.
    pub open spec fn conflicts(&self, i: int, l: Lock) -> bool {
        exists|h: Lock| #[trigger] self.holds(i, h) && incompatible(l, h)
    }

    /// The flash has the sectors of `other`, with all their locks but for
    /// those of the `i`-th.
    pub open spec fn same_but_locks(&self, other: Flash, i: int) -> bool {
        &&& self.sector_count() == other.sector_count()
        &&& self.begin() == other.begin()
        &&& forall|j: int|
            #![trigger self.handle(j)]
            #![trigger other.handle(j)]
            0 <= j < self.sector_count() ==> self.handle(j) == other.handle(j)
        &&& forall|j: int, l: Lock|
            #![trigger self.holds(j, l)]
            #![trigger other.holds(j, l)]
            0 <= j < self.sector_count() && j != i ==> (self.holds(j, l) <==> other.holds(j, l))
    }

    /// The sectors of the flash hold what those of `other` hold.
    pub open spec fn same_bytes(&self, other: Flash) -> bool {
        forall|j: int|
            #![trigger self.bytes(j)]
            #![trigger other.bytes(j)]
            0 <= j < self.sector_count() ==> self.bytes(j) == other.bytes(j)
    }

    /// The sectors of the flash hold what those of `other` hold, but for the
    /// `i`-th.
    pub open spec fn same_but_bytes(&self, other: Flash, i: int) -> bool {
        forall|j: int|
            #![trigger self.bytes(j)]
            #![trigger other.bytes(j)]
            0 <= j < self.sector_count() && j != i ==> self.bytes(j) == other.bytes(j)
    }

    /// The sectors lie in the device, word-aligned and none upon another; the
    /// device is open exactly while the flash is open in writing; each lock
    /// lies in its sector, and no two locks of a sector are incompatible.
    pub closed spec fn wf(&self) -> bool {
        &&& self.device.wf()
        &&& self.device.is_locked() == !self.locked
        &&& self.sectors@.len() <= usize::MAX
        &&& forall|i: int|
            0 <= i < self.sectors@.len() ==> {
                &&& (#[trigger] self.sectors@[i]).num < self.device.layout().len()
                &&& self.device.layout()[self.sectors@[i].num as int] == (
                    self.sectors@[i].start,
                    self.sectors@[i].length,
                )
                &&& self.sectors@[i].start % 4 == 0
                &&& self.sectors@[i].length % 4 == 0
                &&& self.sectors@[i].start + self.sectors@[i].length <= self.device@.len()
                &&& self.sectors@[i].locks.wf()
            }
        &&& forall|i: int, j: int|
            0 <= i < self.sectors@.len() && 0 <= j < self.sectors@.len() && i != j ==> (
            #[trigger] self.sectors@[i]).start + self.sectors@[i].length <= (
            #[trigger] self.sectors@[j]).start || self.sectors@[j].start + self.sectors@[j].length
                <= self.sectors@[i].start
        &&& forall|i: int, l: Lock|
            0 <= i < self.sectors@.len() && #[trigger] self.sectors@[i].locks.contains(l)
                ==> l.start + l.length <= self.sectors@[i].length
        &&& forall|i: int, a: Lock, b: Lock|
            0 <= i < self.sectors@.len() && #[trigger] self.sectors@[i].locks.contains(a)
                && #[trigger] self.sectors@[i].locks.contains(b) && a != b ==> !incompatible(a, b)
    }

    /// Of two locks held on one sector, either both are read-only or their
    /// ranges do not overlap.
    pub proof fn lemma_locks_compatible(&self, i: int, a: Lock, b: Lock)
        requires
            self.wf(),
            0 <= i < self.sector_count(),
            self.holds(i, a),
            self.holds(i, b),
            a != b,
        ensures
            (!a.write && !b.write) || !ranges_overlap(
                a.start as int,
                a.length as int,
                b.start as int,
                b.length as int,
            ),
    {
    }

    /// A lock that is held on a sector lies within the sector.
    pub proof fn lemma_lock_in_bounds(&self, i: int, l: Lock)
        requires
            self.wf(),
            0 <= i < self.sector_count(),
            self.holds(i, l),
        ensures
            l.start + l.length <= self.handle(i).length(),
    {
    }

    /// The contents of a sector are as long as the sector.
    pub proof fn lemma_bytes_len(&self, i: int)
        requires
            self.wf(),
            0 <= i < self.sector_count(),
        ensures
            self.bytes(i).len() == self.handle(i).length(),
            self.handle(i).length() % 4 == 0,
            self.handle(i).offset() % 4 == 0,
            self.handle(i).offset() + self.handle(i).length() <= usize::MAX,
            self.handle(i).index() == i,
    {
        self.device.lemma_len();
    }

    /// What is written within one sector leaves the others as they were.
    proof fn lemma_frame(&self, before: Flash, i: int)
        requires
            before.wf(),
            0 <= i < before.sectors@.len(),
            self.sectors == before.sectors,
            self.device@.len() == before.device@.len(),
            forall|p: int|
                0 <= p < before.device@.len() && !(before.sectors@[i].start <= p
                    < before.sectors@[i].start + before.sectors@[i].length) ==> self.device@[p]
                    == before.device@[p],
        ensures
            self.same_but_bytes(before, i),
    {
        assert forall|j: int| 0 <= j < self.sector_count() && j != i implies #[trigger] self.bytes(
            j,
        ) == before.bytes(j) by {
            assert(before.sectors@[i].start + before.sectors@[i].length <= before.sectors@[j].start
                || before.sectors@[j].start + before.sectors@[j].length
                <= before.sectors@[i].start);
            assert(self.bytes(j) =~= before.bytes(j));
        }
    }

    /// Initializes a Flash object from the list of sector information for the
    /// platform, if the mutex `in_use` is free. The flash keeps the mutex
    /// until it is dropped.
    ///
    /// # Errors
    ///
    /// Errors if the flash is already locked by another existing Flash object.
    ///
    /// The caller is believed as to where the sectors are: `si` has to
    /// describe sectors of the device.
    pub fn new(in_use: &'a spin::Mutex<()>, device: FlashDevice, si: &[SectorInfo]) -> (r: Result<
        Flash<'a>,
        InitError,
    >)
        requires
            device.wf(),
            device.is_locked(),
            describes(device, si@),
        ensures
            r matches Ok(f) ==> f.fresh(device, si@),
            r matches Err(e) ==> e == InitError::FlashInUse,
    {
        Flash::claimed(try_claim(in_use), device, si)
    }

    /// Initializes a Flash object that keeps `guard`, which is what the
    /// attempt to take the mutex of the flash gave.
    ///
    /// # Errors
    ///
    /// Errors if there is no guard: the mutex is held by another Flash object.
    pub fn claimed(
        guard: Option<spin::MutexGuard<'a, ()>>,
        device: FlashDevice,
        si: &[SectorInfo],
    ) -> (r: Result<Flash<'a>, InitError>)
        requires
            device.wf(),
            device.is_locked(),
            describes(device, si@),
        ensures
            match r {
                Ok(f) => guard is Some && f.fresh(device, si@),
                Err(e) => guard is None && e == InitError::FlashInUse,
            },
    {
        let guard = match guard {
            Some(g) => g,
            None => {
                return Err(InitError::FlashInUse);
            },
        };
        let mut sectors: Vec<SectorState> = Vec::new();
        let mut i: usize = 0;
        while i < si.len()
            invariant
                i <= si@.len(),
                sectors@.len() == i,
                forall|j: int|
                    0 <= j < i ==> {
                        &&& (#[trigger] sectors@[j]).num == si@[j].num
                        &&& sectors@[j].start == si@[j].start
                        &&& sectors@[j].length == si@[j].length
                        &&& sectors@[j].locks.wf()
                        &&& sectors@[j].locks.elements() == Seq::<Lock>::empty()
                    },
            decreases si@.len() - i,
        {
            sectors.push(
                SectorState {
                    num: si[i].num,
                    start: si[i].start,
                    length: si[i].length,
                    locks: HashSet::new(crate::constants::FLASH_LOCK_BUCKETS),
                },
            );
            i += 1;
        }
        let mut res = Flash { _guard: guard, locked: false, device, sectors };
        proof {
            assert forall|i: int| 0 <= i < res.sectors@.len() implies (
            #[trigger] res.sectors@[i]).start + res.sectors@[i].length <= res.device@.len() by {
                assert(si@[i].num < device.layout().len());
                device.lemma_layout(si@[i].num as int);
            }
            assert(res.wf());
            assert forall|i: int| 0 <= i < res.sector_count() implies #[trigger] res.bytes(i)
                == device@.subrange(si@[i].start as int, si@[i].start + si@[i].length) by {}
        }
        match res.with_flash_unlocked() {
            Ok(()) => {
                flash_ll::setup(&mut res.device);
                res.relock();
            },
            Err(_) => {},
        }
        Ok(res)
    }

    /// What a flash is when it has just been made of `device` and `si`: it has
    /// the sectors that `si` describes, with the contents that the device
    /// has for them, and no lock is taken.
    pub open spec fn fresh(&self, device: FlashDevice, si: Seq<SectorInfo>) -> bool {
        &&& self.wf()
        &&& !self.writing()
        &&& self.sector_count() == si.len()
        &&& self.begin() == device.begin()
        &&& forall|i: int|
            0 <= i < si.len() ==> {
                &&& (#[trigger] self.handle(i)).index() == i
                &&& self.handle(i).number() == si[i].num
                &&& self.handle(i).offset() == si[i].start
                &&& self.handle(i).length() == si[i].length
                &&& self.bytes(i) == device@.subrange(
                    si[i].start as int,
                    si[i].start + si[i].length,
                )
            }
        &&& forall|i: int, l: Lock| 0 <= i < si.len() ==> !#[trigger] self.holds(i, l)
    }

    /// Gives the device back, and with it the mutex of the flash.
    pub fn into_device(self) -> (device: FlashDevice)
        requires
            self.wf(),
            !self.writing(),
        ensures
            device.wf(),
            device.is_locked(),
            forall|i: int|
                0 <= i < self.sector_count() ==> #[trigger] self.bytes(i) == device@.subrange(
                    self.handle(i).offset() as int,
                    self.handle(i).offset() + self.handle(i).length(),
                ),
    {
        self.device
    }

    /// Number of sectors of the flash
    pub fn sector_len(&self) -> (n: usize)
        ensures
            n == self.sector_count(),
    {
        self.sectors.len()
    }

    /// Retrieves the handle of a sector of the flash.
    ///
    /// `id` has to be a valid `SectorID`, ie. the contained value has to be
    /// below the number of sectors.
    pub fn sector(&self, id: SectorID) -> (s: Sector)
        requires
            id.0 < self.sector_count(),
        ensures
            s == self.handle(id.0 as int),
            self.has(s),
    {
        let st = &self.sectors[id.0];
        Sector { id: id.0, num: st.num, start: st.start, length: st.length }
    }

    /// Address of the first byte of the memory-mapped flash
    pub fn begin_addr(&self) -> (a: usize)
        requires
            self.wf(),
        ensures
            a == self.begin(),
    {
        self.device.begin_addr()
    }

    /// Whether the flash is open in writing
    pub fn is_writing(&self) -> (r: bool)
        ensures
            r == self.writing(),
    {
        self.locked
    }

    /// Opens the flash in writing: the device is ready to receive writes
    /// until [`Flash::relock`].
    ///
    /// # Errors
    ///
    /// Errors if the flash is open in writing already.
    pub fn with_flash_unlocked(&mut self) -> (r: Result<(), IOError>)
        requires
            old(self).wf(),
        ensures
            final(self).wf(),
            final(self).same_but_locks(*old(self), -1),
            final(self).same_bytes(*old(self)),
            match r {
                Ok(()) => !old(self).writing() && final(self).writing(),
                Err(e) => e == IOError::LockedError && old(self).writing() && final(self).writing(),
            },
    {
        if self.locked {
            return Err(IOError::LockedError);
        }
        self.locked = true;
        flash_ll::unlock(&mut self.device);
        Ok(())
    }

    /// Closes the flash, which was open in writing.
    pub fn relock(&mut self)
        requires
            old(self).wf(),
            old(self).writing(),
        ensures
            final(self).wf(),
            !final(self).writing(),
            final(self).same_but_locks(*old(self), -1),
            final(self).same_bytes(*old(self)),
    {
        flash_ll::lock(&mut self.device);
        self.locked = false;
    }
}

impl FlashBlock {
    /// The sector this block is defined on.
    pub closed spec fn sector_spec(&self) -> Sector {
        self.sector
    }

    /// Index of the first byte of the block in its sector.
    pub closed spec fn first(&self) -> int {
        self.start as int
    }

    /// Length of the block.
    pub closed spec fn size(&self) -> int {
        self.length as int
    }

    /// The read-lock of the block.
    pub open spec fn lock(&self) -> Lock {
        Lock { write: false, start: self.first() as usize, length: self.size() as usize }
    }

    /// The block lies in a sector of `flash`.
    pub open spec fn valid_in(&self, flash: &Flash) -> bool {
        flash.has(self.sector_spec()) && self.first() + self.size()
            <= self.sector_spec().length()
    }

    /// What the block holds in `flash`.
    pub open spec fn bytes(&self, flash: &Flash) -> Seq<u8> {
        flash.bytes(self.sector_spec().index()).subrange(
            self.first() as int,
            self.first() + self.size(),
        )
    }

    /// Returns the sector this block is defined on
    pub fn sector(&self) -> (s: Sector)
        ensures
            s == self.sector_spec(),
    {
        self.sector
    }

    /// Returns the index of the first byte of this block in the sector it is
    /// defined on
    pub fn start(&self) -> (r: usize)
        ensures
            r == self.first(),
    {
        self.start
    }

    /// The place and the length of a block are numbers of bytes.
    pub proof fn lemma_range(&self)
        ensures
            0 <= self.first() <= usize::MAX,
            0 <= self.size() <= usize::MAX,
            self.lock().start == self.first(),
            self.lock().length == self.size(),
    {
    }

    /// Returns the length of this block
    pub fn len(&self) -> (r: usize)
        ensures
            r == self.size(),
    {
        self.length
    }

    /// The bytes of the block
    pub fn as_slice<'b>(&self, flash: &'b Flash) -> (r: &'b [u8])
        requires
            flash.wf(),
            self.valid_in(flash),
        ensures
            r@ == self.bytes(flash),
    {
        let st = &flash.sectors[self.sector.id];
        proof {
            flash.lemma_bytes_len(self.sector.index());
            assert(flash.bytes(self.sector.index()).subrange(
                self.start as int,
                self.start + self.length,
            ) =~= flash.device@.subrange(
                st.start + self.start,
                st.start + self.start + self.length,
            ));
        }
        slice_subrange(
            flash.device.memory(),
            st.start + self.start,
            st.start + self.start + self.length,
        )
    }

    /// The `i`-th byte of the block, if it has one
    pub fn get(&self, flash: &Flash, i: usize) -> (r: Option<u8>)
        requires
            flash.wf(),
            self.valid_in(flash),
        ensures
            r == (if i < self.size() {
                Some(self.bytes(flash)[i as int])
            } else {
                None
            }),
    {
        if i < self.length {
            Some(self.as_slice(flash)[i])
        } else {
            None
        }
    }

    /// Returns a sub-FlashBlock in this sector (`start` is relative to the
    /// beginning of this block). The lock of this block has to be held.
    ///
    /// # Errors
    ///
    /// Errors if the requested `start + length` exceeds the current block's
    /// length.
    pub fn read(&self, flash: &mut Flash, start: usize, length: usize) -> (r: Result<
        FlashBlock,
        IOError,
    >)
        requires
            old(flash).wf(),
            self.valid_in(old(flash)),
            old(flash).holds(self.sector_spec().index(), self.lock()),
        ensures
            final(flash).wf(),
            final(flash).same_but_locks(*old(flash), self.sector_spec().index()),
            final(flash).same_bytes(*old(flash)),
            final(flash).writing() == old(flash).writing(),
            match r {
                Ok(b) => {
                    &&& start < self.size()
                    &&& start + length <= self.size()
                    &&& b.sector_spec() == self.sector_spec()
                    &&& b.first() == self.first() + start
                    &&& b.size() == length
                    &&& forall|l: Lock|
                        #![trigger final(flash).holds(self.sector_spec().index(), l)]
                        final(flash).holds(self.sector_spec().index(), l) <==> (old(flash).holds(
                            self.sector_spec().index(),
                            l,
                        ) || l == b.lock())
                },
                Err(e) => {
                    &&& e == IOError::OutOfBounds
                    &&& start >= self.size() || start + length > self.size()
                    &&& forall|l: Lock|
                        #![trigger final(flash).holds(self.sector_spec().index(), l)]
                        final(flash).holds(self.sector_spec().index(), l) <==> old(flash).holds(
                            self.sector_spec().index(),
                            l,
                        )
                },
            },
    {
        if start >= self.length || length > self.length || length > self.length - start {
            Err(IOError::OutOfBounds)
        } else {
            proof {
                flash.lemma_subrange_free(self.sector.index(), self.lock(), start, length);
            }
            match self.sector.lock(flash, false, self.start + start, length) {
                Ok(()) => Ok(FlashBlock { start: self.start + start, length, sector: self.sector }),
                Err(e) => Err(e),
            }
        }
    }

    /// Another handle on the range of this block, for one who knows that the
    /// lock of the block is held: nothing changes in the lock table.
    pub fn duplicate(&self, flash: &Flash) -> (b: FlashBlock)
        requires
            flash.holds(self.sector_spec().index(), self.lock()),
        ensures
            b == *self,
    {
        FlashBlock { start: self.start, length: self.length, sector: self.sector }
    }

    /// Gives the block back: its lock leaves the table of the sector.
    pub fn release(self, flash: &mut Flash)
        requires
            old(flash).wf(),
            old(flash).has(self.sector_spec()),
        ensures
            final(flash).wf(),
            final(flash).same_but_locks(*old(flash), self.sector_spec().index()),
            final(flash).same_bytes(*old(flash)),
            final(flash).writing() == old(flash).writing(),
            forall|l: Lock|
                #![trigger final(flash).holds(self.sector_spec().index(), l)]
                final(flash).holds(self.sector_spec().index(), l) <==> (old(flash).holds(
                    self.sector_spec().index(),
                    l,
                ) && l != self.lock()),
    {
        self.sector.unlock(flash, false, self.start, self.length);
    }
}

impl<'a> Flash<'a> {
    /// No lock that is held conflicts with a read-lock within a read-lock
    /// that is held.
    proof fn lemma_subrange_free(&self, i: int, parent: Lock, start: usize, length: usize)
        requires
            self.wf(),
            0 <= i < self.sector_count(),
            self.holds(i, parent),
            !parent.write,
            start < parent.length,
            start + length <= parent.length,
        ensures
            !self.conflicts(
                i,
                Lock { write: false, start: (parent.start + start) as usize, length },
            ),
            parent.start + start + length <= self.handle(i).length(),
    {
        let sub = Lock { write: false, start: (parent.start + start) as usize, length };
        if self.conflicts(i, sub) {
            let h = choose|h: Lock| #[trigger] self.holds(i, h) && incompatible(sub, h);
            assert(h != parent);
            assert(incompatible(parent, h));
        }
    }
}

impl FlashBlockMut {
    /// The sector this block is defined on.
    pub closed spec fn sector_spec(&self) -> Sector {
        self.sector
    }

    /// Index of the first byte of the block in its sector.
    pub closed spec fn first(&self) -> int {
        self.start as int
    }

    /// Length of the block.
    pub closed spec fn size(&self) -> int {
        self.length as int
    }

    /// The write-lock of the block.
    pub open spec fn lock(&self) -> Lock {
        Lock { write: true, start: self.first() as usize, length: self.size() as usize }
    }

    /// The block lies in a sector of `flash`.
    pub open spec fn valid_in(&self, flash: &Flash) -> bool {
        flash.has(self.sector_spec()) && self.first() + self.size()
            <= self.sector_spec().length()
    }

    /// What the block holds in `flash`.
    pub open spec fn bytes(&self, flash: &Flash) -> Seq<u8> {
        flash.bytes(self.sector_spec().index()).subrange(
            self.first() as int,
            self.first() + self.size(),
        )
    }

    /// The place and the length of a block are numbers of bytes.
    pub proof fn lemma_range(&self)
        ensures
            0 <= self.first() <= usize::MAX,
            0 <= self.size() <= usize::MAX,
            self.lock().start == self.first(),
            self.lock().length == self.size(),
    {
    }

    /// Returns the length of this block
    pub fn len(&self) -> (r: usize)
        ensures
            r == self.size(),
    {
        self.length
    }

    /// The bytes of the block
    pub fn as_slice<'b>(&self, flash: &'b Flash) -> (r: &'b [u8])
        requires
            flash.wf(),
            self.valid_in(flash),
        ensures
            r@ == self.bytes(flash),
    {
        let st = &flash.sectors[self.sector.id];
        proof {
            flash.lemma_bytes_len(self.sector.index());
            assert(flash.bytes(self.sector.index()).subrange(
                self.start as int,
                self.start + self.length,
            ) =~= flash.device@.subrange(
                st.start + self.start,
                st.start + self.start + self.length,
            ));
        }
        slice_subrange(
            flash.device.memory(),
            st.start + self.start,
            st.start + self.start + self.length,
        )
    }

    /// The `i`-th byte of the block, if it has one
    pub fn get(&self, flash: &Flash, i: usize) -> (r: Option<u8>)
        requires
            flash.wf(),
            self.valid_in(flash),
        ensures
            r == (if i < self.size() {
                Some(self.bytes(flash)[i as int])
            } else {
                None
            }),
    {
        if i < self.length {
            Some(self.as_slice(flash)[i])
        } else {
            None
        }
    }

    /// Writes a byte in this block: the byte keeps only the bits that `v` has
    /// too.
    ///
    /// # Errors
    ///
    /// Errors if the requested index is farther than the length of this block.
    pub fn write(&self, flash: &mut Flash, i: usize, v: u8) -> (r: Result<(), IOError>)
        requires
            old(flash).wf(),
            old(flash).writing(),
            self.valid_in(old(flash)),
        ensures
            final(flash).wf(),
            final(flash).writing(),
            final(flash).same_but_locks(*old(flash), -1),
            final(flash).same_but_bytes(*old(flash), self.sector_spec().index()),
            match r {
                Ok(()) => i < self.size() && final(flash).bytes(self.sector_spec().index()) == old(
                    flash,
                ).bytes(self.sector_spec().index()).update(
                    self.first() + i,
                    old(flash).bytes(self.sector_spec().index())[self.first() + i] & v,
                ),
                Err(e) => e == IOError::OutOfBounds && i >= self.size() && final(flash).bytes(
                    self.sector_spec().index(),
                ) == old(flash).bytes(self.sector_spec().index()),
            },
    {
        if i >= self.length {
            return Err(IOError::OutOfBounds);
        }
        let base = flash.sectors[self.sector.id].start;
        let at = self.start + i;
        proof {
            lemma_align(at);
            flash.lemma_bytes_len(self.sector.index());
        }
        let aligned = at & !0b11;  // Align to 32-bits boundary
        let addr = base + aligned;
        let k = (at & 0b11) as u32;
        let pos = k * 8;  // Position of the byte inside the word
        let old_word = flash_ll::read(&flash.device, addr);
        let new_word = (old_word & !(0xFFu32 << pos)) | ((v as u32) << pos);
        let ghost before = *flash;
        let ghost mem = flash.device@;
        flash_ll::clear_error(&mut flash.device);
        flash_ll::write(&mut flash.device, addr, new_word);
        sync(&flash.device);
        proof {
            assert(flash.sectors == before.sectors);
            assert(flash.wf());
            assert(flash.same_but_locks(before, -1));
            flash_ll::lemma_word_bytes(mem[addr as int], mem[addr + 1], mem[addr + 2], mem[addr + 3]);
            lemma_replace_byte(old_word, v, k);
            lemma_and_byte(mem[addr as int]);
            lemma_and_byte(mem[addr + 1]);
            lemma_and_byte(mem[addr + 2]);
            lemma_and_byte(mem[addr + 3]);
            assert(flash.device@ =~= mem.update(base + at, mem[base + at] & v));
            flash.lemma_frame(before, self.sector.index());
            assert(flash.bytes(self.sector.index()) =~= before.bytes(self.sector.index()).update(
                at as int,
                before.bytes(self.sector.index())[at as int] & v,
            ));
        }
        test_for_error(&mut flash.device)
    }

    /// Writes `length` bytes from the index `b` of this block on: those of
    /// `src` if there is one, zeros if there is none. The bytes up to the
    /// first 32-bit aligned word and those after the last are written one by
    /// one, the others a word at a time.
    fn write_block_generic(&self, flash: &mut Flash, b: usize, length: usize, src: Option<&[u8]>) -> (r:
        Result<(), IOError>)
        requires
            old(flash).wf(),
            old(flash).writing(),
            self.valid_in(old(flash)),
            src matches Some(s) ==> s@.len() == length,
        ensures
            final(flash).wf(),
            final(flash).writing(),
            final(flash).same_but_locks(*old(flash), -1),
            final(flash).same_but_bytes(*old(flash), self.sector_spec().index()),
            match r {
                Ok(()) => {
                    &&& b < self.size()
                    &&& b + length <= self.size()
                    &&& final(flash).bytes(self.sector_spec().index()) == and_range(
                        old(flash).bytes(self.sector_spec().index()),
                        self.first() + b,
                        match src {
                            Some(s) => s@,
                            None => zeros(length as nat),
                        },
                    )
                },
                Err(e) => {
                    &&& e == IOError::OutOfBounds
                    &&& b >= self.size() || b + length > self.size()
                    &&& final(flash).bytes(self.sector_spec().index()) == old(flash).bytes(
                        self.sector_spec().index(),
                    )
                },
            },
    {
        if b >= self.length || length > self.length || length > self.length - b {
            return Err(IOError::OutOfBounds);
        }
        let ghost vals = match src {
            Some(s) => s@,
            None => zeros(length as nat),
        };
        let ghost id = self.sector.index();
        let ghost start = self.first() + b;
        let base = flash.sectors[self.sector.id].start;
        let mut i: usize = 0;
        proof {
            flash.lemma_bytes_len(id);
            assert(flash.bytes(id) =~= and_range(old(flash).bytes(id), start, vals.take(0)));
        }
        // Byte-by-byte write until the first 32-bit aligned word
        while (self.start + b + i) & 0b11 != 0 && i < length
            invariant
                flash.wf(),
                old(flash).wf(),
                flash.writing(),
                self.valid_in(flash),
                self.valid_in(old(flash)),
                flash.same_but_locks(*old(flash), -1),
                flash.same_but_bytes(*old(flash), id),
                id == self.sector.index(),
                start == self.start + b,
                b + length <= self.length,
                i <= length,
                vals.len() == length,
                src matches Some(s) ==> s@ == vals,
                src is None ==> vals == zeros(length as nat),
                flash.bytes(id) == and_range(old(flash).bytes(id), start, vals.take(i as int)),
            decreases length - i,
        {
            let v = match src {
                Some(s) => s[i],
                None => 0,
            };
            let ghost cur = flash.bytes(id);
            proof {
                flash.lemma_bytes_len(id);
                old(flash).lemma_bytes_len(id);
            }
            let w = self.write(flash, b + i, v);
            proof {
                assert(flash.bytes(id) =~= and_range(
                    old(flash).bytes(id),
                    start,
                    vals.take(i + 1),
                ));
            }
            i += 1;
        }
        proof {
            lemma_align((self.start + b + i) as usize);
            flash.lemma_bytes_len(id);
        }
        // Word-by-word write until the last 32-bit aligned word
        while length - i > 3
            invariant
                flash.wf(),
                old(flash).wf(),
                flash.writing(),
                self.valid_in(flash),
                self.valid_in(old(flash)),
                flash.same_but_locks(*old(flash), -1),
                flash.same_but_bytes(*old(flash), id),
                id == self.sector.index(),
                start == self.start + b,
                b + length <= self.length,
                base == flash.sectors@[id].start,
                i <= length,
                i < length ==> (self.start + b + i) % 4 == 0,
                vals.len() == length,
                src matches Some(s) ==> s@ == vals,
                src is None ==> vals == zeros(length as nat),
                flash.bytes(id) == and_range(old(flash).bytes(id), start, vals.take(i as int)),
            decreases length - i,
        {
            let word = match src {
                Some(s) => (s[i] as u32) | ((s[i + 1] as u32) << 8) | ((s[i + 2] as u32) << 16) | ((s[i
                    + 3] as u32) << 24),
                None => 0,
            };
            proof {
                flash.lemma_bytes_len(id);
                old(flash).lemma_bytes_len(id);
            }
            let addr = base + self.start + b + i;
            let ghost before = *flash;
            let ghost mem = flash.device@;
            proof {
                flash_ll::lemma_word_bytes(vals[i as int], vals[i + 1], vals[i + 2], vals[i + 3]);
                if src is None {
                    flash_ll::lemma_word_bytes(0, 0, 0, 0);
                    assert(flash_ll::word_of(0, 0, 0, 0) == 0) by (bit_vector);
                }
            }
            flash_ll::clear_error(&mut flash.device);
            flash_ll::write(&mut flash.device, addr, word);
            sync(&flash.device);
            let e = test_for_error(&mut flash.device);
            proof {
                assert(flash.sectors == before.sectors);
                assert(flash.wf());
                assert(flash.same_but_locks(before, -1));
                flash.lemma_frame(before, id);
                let nb = flash.bytes(id);
                let cb = before.bytes(id);
                let ob = old(flash).bytes(id);
                let want = and_range(ob, start, vals.take(i + 4));
                assert forall|p: int| 0 <= p < nb.len() implies nb[p] == want[p] by {
                    assert(nb[p] == flash.device@[base + p]);
                    assert(cb[p] == mem[base + p]);
                    if start + i <= p < start + i + 4 {
                        assert(nb[p] == mem[base + p] & flash_ll::byte_of(word, p - (start + i)));
                        assert(flash_ll::byte_of(word, p - (start + i)) == vals[p - start]);
                        assert(cb[p] == ob[p]);
                    }
                }
                assert(nb =~= want);
            }
            i += 4;
        }
        // Byte-by-byte write until the end
        while i < length
            invariant
                flash.wf(),
                old(flash).wf(),
                flash.writing(),
                self.valid_in(flash),
                self.valid_in(old(flash)),
                flash.same_but_locks(*old(flash), -1),
                flash.same_but_bytes(*old(flash), id),
                id == self.sector.index(),
                start == self.start + b,
                b + length <= self.length,
                i <= length,
                vals.len() == length,
                src matches Some(s) ==> s@ == vals,
                src is None ==> vals == zeros(length as nat),
                flash.bytes(id) == and_range(old(flash).bytes(id), start, vals.take(i as int)),
            decreases length - i,
        {
            let v = match src {
                Some(s) => s[i],
                None => 0,
            };
            proof {
                flash.lemma_bytes_len(id);
                old(flash).lemma_bytes_len(id);
            }
            let w = self.write(flash, b + i, v);
            proof {
                assert(flash.bytes(id) =~= and_range(
                    old(flash).bytes(id),
                    start,
                    vals.take(i + 1),
                ));
            }
            i += 1;
        }
        proof {
            assert(vals.take(length as int) =~= vals);
        }
        Ok(())
    }

    /// Writes a block of contiguous memory in this block: each byte keeps
    /// only the bits that the byte written to it has too.
    ///
    /// `b` is considered as being the starting index in this block of where
    /// to put `v`.
    ///
    /// # Errors
    ///
    /// Errors if `v` doesn't fit in this block when starting from index `b`.
    pub fn write_block(&self, flash: &mut Flash, b: usize, v: &[u8]) -> (r: Result<(), IOError>)
        requires
            old(flash).wf(),
            old(flash).writing(),
            self.valid_in(old(flash)),
        ensures
            final(flash).wf(),
            final(flash).writing(),
            final(flash).same_but_locks(*old(flash), -1),
            final(flash).same_but_bytes(*old(flash), self.sector_spec().index()),
            match r {
                Ok(()) => {
                    &&& b < self.size()
                    &&& b + v@.len() <= self.size()
                    &&& final(flash).bytes(self.sector_spec().index()) == and_range(
                        old(flash).bytes(self.sector_spec().index()),
                        self.first() + b,
                        v@,
                    )
                },
                Err(e) => {
                    &&& e == IOError::OutOfBounds
                    &&& b >= self.size() || b + v@.len() > self.size()
                    &&& final(flash).bytes(self.sector_spec().index()) == old(flash).bytes(
                        self.sector_spec().index(),
                    )
                },
            },
    {
        self.write_block_generic(flash, b, v.len(), Some(v))
    }

    /// Writes a block of zeros in this block
    ///
    /// `b` is considered as being the starting index in this block of where
    /// to put `length` zeros.
    ///
    /// # Errors
    ///
    /// Errors if a block of `length` zeros doesn't fit in this block when
    /// starting from index `b`.
    pub fn zero_block(&self, flash: &mut Flash, b: usize, length: usize) -> (r: Result<
        (),
        IOError,
    >)
        requires
            old(flash).wf(),
            old(flash).writing(),
            self.valid_in(old(flash)),
        ensures
            final(flash).wf(),
            final(flash).writing(),
            final(flash).same_but_locks(*old(flash), -1),
            final(flash).same_but_bytes(*old(flash), self.sector_spec().index()),
            match r {
                Ok(()) => {
                    &&& b < self.size()
                    &&& b + length <= self.size()
                    &&& final(flash).bytes(self.sector_spec().index()) == and_range(
                        old(flash).bytes(self.sector_spec().index()),
                        self.first() + b,
                        zeros(length as nat),
                    )
                },
                Err(e) => {
                    &&& e == IOError::OutOfBounds
                    &&& b >= self.size() || b + length > self.size()
                    &&& final(flash).bytes(self.sector_spec().index()) == old(flash).bytes(
                        self.sector_spec().index(),
                    )
                },
            },
    {
        self.write_block_generic(flash, b, length, None)
    }

    /// Gives the block back, once the device is done with what was written:
    /// its lock leaves the table of the sector, and the flash is no longer
    /// open in writing.
    pub fn release(self, flash: &mut Flash)
        requires
            old(flash).wf(),
            old(flash).writing(),
            old(flash).has(self.sector_spec()),
        ensures
            final(flash).wf(),
            !final(flash).writing(),
            final(flash).same_but_locks(*old(flash), self.sector_spec().index()),
            final(flash).same_bytes(*old(flash)),
            forall|l: Lock|
                #![trigger final(flash).holds(self.sector_spec().index(), l)]
                final(flash).holds(self.sector_spec().index(), l) <==> (old(flash).holds(
                    self.sector_spec().index(),
                    l,
                ) && l != self.lock()),
    {
        sync(&flash.device);
        self.sector.unlock(flash, true, self.start, self.length);
        flash.relock();
    }
}

} // verus!
