//! The syscalls of the filesystem

use crate::context::ContextID;
use crate::filename::may_write;
use crate::constants::{
    flash_applet_sector, flash_defrag_sector, flash_fs_sectors, flash_program_sectors,
    flash_sectors, layout_spec, sectors_spec,
};
use crate::flash::{describes, Flash, InitError, Lock, Sector};
use crate::flash_ll::FlashDevice;
use crate::format::{block_size, TAG_LIMIT};
use crate::fs::{spliced, Error, FileSystem};
use crate::ram::{word_bytes, WORD};
use crate::syscall::codes::{fs_code, fs_error_to_usize, result_code};
use crate::syscall::{check_read, check_write, read_fault, write_fault, Fault, Halt, Kernel};
use vstd::prelude::*;
use vstd::slice::{slice_subrange, slice_to_vec};

verus! {

/// An error occurred while initializing the filesystem
#[derive(Debug, PartialEq, Eq, Clone, Copy, Structural)]
pub enum FsInitError {
    /// It was while initializing the flash hardware
    FlashInit(InitError),
    /// It was while setting up the datastructures used to handle the
    /// filesystem
    FsInit(Error),
}

/// The sectors of the filesystem of the board, as handles of sectors of
/// `flash`.
pub open spec fn fs_sectors(flash: Flash) -> Seq<Sector> {
    Seq::new(6, |i: int| flash.handle(i + 1))
}

/// Initialize the filesystem of the board over its flash: takes the flash,
/// locks the sectors of the program for good, and mounts the filesystem on
/// the others. *Must* be called before any filesystem syscall, and from
/// privileged code.
pub fn privileged_fs_init<'a>(in_use: &'a spin::Mutex<()>, device: FlashDevice) -> (r: Result<
    FileSystem<'a>,
    FsInitError,
>)
    requires
        device.wf(),
        device.is_locked(),
        describes(device, sectors_spec()),
    ensures
        match r {
            Ok(fs) => {
                &&& fs.wf()
                &&& fs.sector_count() == 6
                &&& fs.defrag() == 5
                &&& fs.applet() == 4
                &&& forall|i: int|
                    0 <= i < 6 ==> {
                        &&& (#[trigger] fs.sector_at(i)).index() == i + 1
                        &&& fs.sector_at(i).number() == i + 1
                        &&& fs.sector_at(i).offset() == layout_spec()[i + 1].0
                        &&& fs.sector_at(i).length() == layout_spec()[i + 1].1
                    }
            },
            Err(FsInitError::FlashInit(e)) => e == InitError::FlashInUse,
            Err(FsInitError::FsInit(e)) => true,
        },
        forall|f: Flash|
            #![trigger f.fresh(device, sectors_spec())]
            f.fresh(device, sectors_spec()) && crate::fs::journal_of(f, fs_sectors(f), 5) == 0xFF
                ==> !(r matches Err(FsInitError::FsInit(_))),
        forall|f: Flash, layout: Seq<Seq<crate::fs::Entry>>|
            #![trigger crate::fs::fits(f, fs_sectors(f), 5, layout)]
            f.fresh(device, sectors_spec()) && crate::fs::fits(f, fs_sectors(f), 5, layout) && !(r
                matches Err(FsInitError::FlashInit(_))) ==> (r matches Ok(fs) && fs.inv()
                && fs.layout() == layout && fs@ == crate::fs::contents(layout)),
{
    // Init the flash
    let si = flash_sectors();
    let mut f = match Flash::new(in_use, device, si.as_slice()) {
        Ok(f) => f,
        Err(e) => {
            return Err(FsInitError::FlashInit(e));
        },
    };
    let ghost fresh = f;
    // Lock program sectors
    let program = flash_program_sectors();
    let mut k: usize = 0;
    while k < program.len()
        invariant
            k <= program@.len(),
            program@ == seq![crate::flash::SectorID(0), crate::flash::SectorID(7)],
            fresh.fresh(device, sectors_spec()),
            f.wf(),
            !f.writing(),
            f.sector_count() == 8,
            f.begin() == fresh.begin(),
            f.same_bytes(fresh),
            forall|j: int| 0 <= j < 8 ==> #[trigger] f.handle(j) == fresh.handle(j),
            forall|j: int, l: Lock| 1 <= j < 7 ==> !#[trigger] f.holds(j, l),
        decreases program@.len() - k,
    {
        let sector = f.sector(program[k]);
        proof {
            assert(program@[k as int].0 == 0 || program@[k as int].0 == 7);
            assert(fresh.handle(program@[k as int].0 as int).index() == program@[k as int].0);
        }
        let _ = sector.read(&mut f, 0, sector.len());
        k += 1;
    }
    // Init the filesystem
    let ids = flash_fs_sectors();
    let mut sectors: Vec<Sector> = Vec::new();
    let mut i: usize = 0;
    while i < ids.len()
        invariant
            i <= ids@.len(),
            ids@.len() == 6,
            f.sector_count() == 8,
            forall|j: int| 0 <= j < 6 ==> (#[trigger] ids@[j]).0 == j + 1,
            sectors@.len() == i,
            forall|j: int| 0 <= j < i ==> #[trigger] sectors@[j] == f.handle(j + 1),
        decreases ids@.len() - i,
    {
        sectors.push(f.sector(ids[i]));
        i += 1;
    }
    proof {
        assert(sectors@ =~= fs_sectors(f));
        assert(fs_sectors(f) =~= fs_sectors(fresh));
        assert forall|j: int| 0 <= j < 6 implies f.has(#[trigger] sectors@[j]) && 4
            <= sectors@[j].length() < crate::fs::SECTOR_LIMIT by {
            assert(fresh.handle(j + 1).length() == sectors_spec()[j + 1].length);
            assert(fresh.handle(j + 1).index() == j + 1);
        }
        assert forall|a: int, b: int| 0 <= a < 6 && 0 <= b < 6 && a != b implies (
        #[trigger] sectors@[a]).index() != (#[trigger] sectors@[b]).index() by {
            assert(fresh.handle(a + 1).index() == a + 1);
            assert(fresh.handle(b + 1).index() == b + 1);
        }
        assert forall|j: int, l: Lock| 0 <= j < 6 implies !#[trigger] f.holds(
            sectors@[j].index(),
            l,
        ) by {
            assert(fresh.handle(j + 1).index() == j + 1);
        }
    }
    let ghost mounted = f;
    proof {
        assert forall|g: Flash|
            #![trigger g.fresh(device, sectors_spec())]
            g.fresh(device, sectors_spec()) implies crate::fs::journal_of(g, fs_sectors(g), 5)
            == crate::fs::journal_of(mounted, sectors@, 5) by {
            assert forall|j: int| 0 <= j < 8 implies #[trigger] g.handle(j) == mounted.handle(
                j,
            ) && g.bytes(j) == mounted.bytes(j) by {
                g.handle(j).lemma_same(fresh.handle(j));
                assert(mounted.bytes(j) == fresh.bytes(j));
            }
            assert(fs_sectors(g) =~= sectors@);
            assert(fresh.handle(6).index() == 6);
            assert(g.handle(6) == mounted.handle(6));
        }
        assert forall|g: Flash, layout: Seq<Seq<crate::fs::Entry>>|
            #![trigger crate::fs::fits(g, fs_sectors(g), 5, layout)]
            g.fresh(device, sectors_spec()) && crate::fs::fits(
                g,
                fs_sectors(g),
                5,
                layout,
            ) implies crate::fs::fits(mounted, sectors@, 5, layout) by {
            assert forall|j: int| 0 <= j < 8 implies #[trigger] g.handle(j) == mounted.handle(
                j,
            ) && g.bytes(j) == mounted.bytes(j) by {
                g.handle(j).lemma_same(fresh.handle(j));
                assert(mounted.bytes(j) == fresh.bytes(j));
            }
            assert(fs_sectors(g) =~= sectors@);
            assert forall|s: int| 0 <= s < 6 implies g.bytes(sectors@[s].index())
                == mounted.bytes(sectors@[s].index()) by {
                assert(fresh.handle(s + 1).index() == s + 1);
                assert(g.handle(s + 1) == mounted.handle(s + 1));
            }
        }
    }
    match FileSystem::new(f, sectors.as_slice(), flash_defrag_sector(), flash_applet_sector()) {
        Ok(fs) => {
            proof {
                assert forall|i: int| 0 <= i < 6 implies (#[trigger] fs.sector_at(i)).index() == i
                    + 1 && fs.sector_at(i).number() == i + 1 && fs.sector_at(i).offset()
                    == layout_spec()[i + 1].0 && fs.sector_at(i).length() == layout_spec()[i
                    + 1].1 by {
                    assert(fs.sector_at(i) == sectors@[i]);
                    assert(fresh.handle(i + 1).index() == i + 1);
                }
            }
            Ok(fs)
        },
        Err(e) => Err(FsInitError::FsInit(e)),
    }
}

/// What a syscall returns, or how it ends
pub type Handled = Result<Option<usize>, Halt>;

/// The syscall gives up.
pub open spec fn fault(f: Fault) -> Handled {
    Err(Halt::Fault(f))
}

/// The syscall returns a number.
pub open spec fn gives(v: usize) -> Handled {
    Ok(Some(v))
}

/// The rule by which a context may change bytes of a file.
pub open spec fn edit_fault(id: usize, tag: Seq<u8>) -> Option<Fault> {
    if !may_write(id as int, tag) {
        Some(Fault::Denied)
    } else {
        None
    }
}

/// What writing a file made of a filesystem, and returned.
pub open spec fn wrote(
    old: FileSystem,
    new: FileSystem,
    tag: Seq<u8>,
    data: Seq<u8>,
    res: Result<(), Error>,
) -> bool {
    &&& new.wf()
    &&& new.same_sectors(old)
    &&& !(1 <= tag.len() < TAG_LIMIT) ==> res == Err::<(), Error>(Error::InvalidLengthForTag)
        && new == old
    &&& old.inv() && 1 <= tag.len() < TAG_LIMIT ==> new.inv() && match res {
        Ok(()) => {
            &&& new@ == old@.insert(tag, data)
            &&& old.takes_compacted(
                new.sector_of(tag),
                block_size(tag.len() as int, data.len() as int),
                tag,
            )
            &&& forall|j: int|
                0 <= j < new.sector_count() ==> #[trigger] new.valid_size_at(j)
                    == old.valid_size_at(j) - old.credit(j, tag) + if j == new.sector_of(tag) {
                    block_size(tag.len() as int, data.len() as int)
                } else {
                    0
                }
            &&& (exists|s: int|
                0 <= s < old.sector_count() && old.takes(
                    s,
                    block_size(tag.len() as int, data.len() as int),
                    tag,
                )) ==> forall|j: int|
                0 <= j < new.sector_count() ==> #[trigger] new.next_block_at(j)
                    >= old.next_block_at(j)
            &&& (exists|s: int|
                0 <= s < old.sector_count() && old.takes(
                    s,
                    block_size(tag.len() as int, data.len() as int),
                    tag,
                )) ==> new.placed(old, tag, block_size(tag.len() as int, data.len() as int))
        },
        Err(e) => {
            &&& e == Error::OutOfFlash
            &&& new@ == old@
            &&& forall|j: int|
                0 <= j < old.sector_count() ==> !old.takes_compacted(
                    j,
                    block_size(tag.len() as int, data.len() as int),
                    tag,
                )
        },
    }
}

/// What writing an applet made of a filesystem, and returned.
pub open spec fn wrote_applet(
    old: FileSystem,
    new: FileSystem,
    tag: Seq<u8>,
    data: Seq<u8>,
    res: Result<(), Error>,
) -> bool {
    &&& new.wf()
    &&& new.same_sectors(old)
    &&& !(1 <= tag.len() < TAG_LIMIT) ==> res == Err::<(), Error>(Error::InvalidLengthForTag)
        && new == old
    &&& old.inv() && 1 <= tag.len() < TAG_LIMIT && old.applet() != old.defrag() ==> new.inv()
        && match res {
        Ok(()) => new@ == old@.insert(tag, data) && new.sector_of(tag) == old.applet(),
        Err(e) => {
            &&& e == Error::OutOfFlash
            &&& new@ == old@
            &&& !old.room_compacted(
                old.applet(),
                block_size(tag.len() as int, data.len() as int),
                tag,
            )
        },
    }
}

/// What erasing a file made of a filesystem, and returned.
pub open spec fn erased(old: FileSystem, new: FileSystem, tag: Seq<u8>, res: Result<(), Error>) -> bool {
    &&& new.wf()
    &&& new.same_sectors(old)
    &&& old.inv() ==> new.inv()
    &&& match res {
        Ok(()) => old@.dom().contains(tag) && new.erased(old, tag),
        Err(e) => e == Error::NoSuchTag && !old@.dom().contains(tag) && new == old,
    }
}

/// What changing bytes of a file made of a filesystem, and returned.
pub open spec fn edited(
    old: FileSystem,
    new: FileSystem,
    tag: Seq<u8>,
    offset: usize,
    data: Seq<u8>,
    res: Result<(), Error>,
) -> bool {
    &&& new.wf()
    &&& new.same_sectors(old)
    &&& !old@.dom().contains(tag) ==> res == Err::<(), Error>(Error::NoSuchTag) && new == old
    &&& old.inv() && old@.dom().contains(tag) ==> res is Ok && new.inv() && new@ == old@.insert(
        tag,
        spliced(old@[tag], offset as int, data),
    )
}

/// The two lowest bytes of a number, the lowest first.
pub open spec fn low_bytes(data: usize) -> Seq<u8> {
    seq![(data % 256) as u8, ((data / 256) % 256) as u8]
}

/// The four lowest bytes of a number, the lowest first.
pub open spec fn word_of_number(data: usize) -> Seq<u8> {
    seq![
        (data % 256) as u8,
        ((data / 256) % 256) as u8,
        ((data / 65536) % 256) as u8,
        ((data / 16777216) % 256) as u8,
    ]
}

impl<'a> Kernel<'a> {
    /// The tag laid out at `tagaddr`, of a file that the context that runs
    /// may read.
    pub open spec fn reading(&self, tagaddr: usize) -> Result<Seq<u8>, Fault> {
        match self.tag_at(tagaddr) {
            Err(f) => Err(f),
            Ok(t) => match read_fault(self.current(), t) {
                Some(f) => Err(f),
                None => Ok(t),
            },
        }
    }

    /// The tag laid out at `tagaddr`, of a file of which the context that
    /// runs may change bytes.
    pub open spec fn editing(&self, tagaddr: usize) -> Result<Seq<u8>, Fault> {
        match self.tag_at(tagaddr) {
            Err(f) => Err(f),
            Ok(t) => match edit_fault(self.current(), t) {
                Some(f) => Err(f),
                None => Ok(t),
            },
        }
    }

    /// The tag laid out at `tagaddr`, of a file that the context that runs
    /// may write, and that is an applet or is none.
    pub open spec fn writing(&self, tagaddr: usize, applet: bool) -> Result<Seq<u8>, Fault> {
        match self.tag_at(tagaddr) {
            Err(f) => Err(f),
            Ok(t) => match write_fault(self.current(), t, applet) {
                Some(f) => Err(f),
                None => Ok(t),
            },
        }
    }

    /// The tag in the `len` bytes from `ptr` on, of a file that the context
    /// that runs may read.
    pub open spec fn naming(&self, ptr: usize, len: usize) -> Result<Seq<u8>, Fault> {
        match self.loaded(ptr, len) {
            None => Err(Fault::BadAddress),
            Some(t) => match read_fault(self.current(), t) {
                Some(f) => Err(f),
                None => Ok(t),
            },
        }
    }

    /// The tag in the `len` bytes from `ptr` on, of a file that the context
    /// that runs may write, and that is an applet or is none.
    pub open spec fn removing(&self, ptr: usize, len: usize, applet: bool) -> Result<
        Seq<u8>,
        Fault,
    > {
        match self.loaded(ptr, len) {
            None => Err(Fault::BadAddress),
            Some(t) => match write_fault(self.current(), t, applet) {
                Some(f) => Err(f),
                None => Ok(t),
            },
        }
    }

    /// The kernel is as `old` but for its filesystem.
    pub open spec fn same_but_fs(&self, old: Kernel<'a>) -> bool {
        self.contexts == old.contexts && self.ram == old.ram && self.output == old.output
    }

    /// The context that runs
    pub fn current_id(&self) -> (c: ContextID)
        ensures
            c == ContextID::of(self.current()),
            c.id_spec() == self.current(),
    {
        broadcast use ContextID::lemma_of;

        self.contexts.current().ctxid()
    }

    /// Reads the tag laid out at `tagaddr`, of a file that the context that
    /// runs may read
    fn tag_to_read(&self, tagaddr: usize) -> (r: Result<Vec<u8>, Halt>)
        requires
            self.wf(),
        ensures
            match self.reading(tagaddr) {
                Ok(t) => r matches Ok(v) && v@ == t,
                Err(f) => r == Err::<Vec<u8>, Halt>(Halt::Fault(f)),
            },
    {
        let tag = match self.retrieve_tag(tagaddr) {
            Ok(t) => t,
            Err(e) => {
                return Err(e);
            },
        };
        match check_read(self.current_id(), tag.as_slice()) {
            Ok(()) => Ok(tag),
            Err(e) => Err(e),
        }
    }

    /// Reads the tag laid out at `tagaddr`, of a file of which the context
    /// that runs may change bytes
    fn tag_to_edit(&self, tagaddr: usize) -> (r: Result<Vec<u8>, Halt>)
        requires
            self.wf(),
        ensures
            match self.editing(tagaddr) {
                Ok(t) => r matches Ok(v) && v@ == t,
                Err(f) => r == Err::<Vec<u8>, Halt>(Halt::Fault(f)),
            },
    {
        let tag = match self.retrieve_tag(tagaddr) {
            Ok(t) => t,
            Err(e) => {
                return Err(e);
            },
        };
        let t = tag.as_slice();
        if !crate::filename::can_write(self.current_id(), t) {
            Err(Halt::Fault(Fault::Denied))
        } else {
            Ok(tag)
        }
    }

    /// Reads the tag laid out at `tagaddr`, of a file that the context that
    /// runs may write, and that is an applet or is none
    fn tag_to_write(&self, tagaddr: usize, applet: bool) -> (r: Result<Vec<u8>, Halt>)
        requires
            self.wf(),
        ensures
            match self.writing(tagaddr, applet) {
                Ok(t) => r matches Ok(v) && v@ == t,
                Err(f) => r == Err::<Vec<u8>, Halt>(Halt::Fault(f)),
            },
    {
        let tag = match self.retrieve_tag(tagaddr) {
            Ok(t) => t,
            Err(e) => {
                return Err(e);
            },
        };
        match check_write(self.current_id(), tag.as_slice(), applet) {
            Ok(()) => Ok(tag),
            Err(e) => Err(e),
        }
    }

    /// The bytes of the file `tag`, and the address at which the flash has
    /// them
    fn file(&self, tag: &[u8]) -> (r: Result<(Vec<u8>, usize), Error>)
        requires
            self.wf(),
        ensures
            match r {
                Ok((v, a)) => {
                    &&& self.fs@.dom().contains(tag@)
                    &&& v@ == self.fs@[tag@]
                    &&& self.fs.storage().spans(a, v@.len() as int)
                    &&& self.fs.storage().span(a, v@.len() as int) == v@
                },
                Err(e) => e == Error::NoSuchTag && !self.fs@.dom().contains(tag@),
            },
    {
        let b = match self.fs.read(tag) {
            Ok(b) => b,
            Err(e) => {
                return Err(e);
            },
        };
        proof {
            self.fs.lemma_structure();
            self.fs.storage().lemma_block_span(b);
            b.lemma_range();
            b.sector_spec().lemma_range();
        }
        let flash = self.fs.flash();
        let v = slice_to_vec(b.as_slice(flash));
        let a = flash.begin_addr() + b.sector().start() + b.start();
        Ok((v, a))
    }

    /// What the syscall of like name makes of the kernel `old`, and returns.
    pub open spec fn did_exists(&self, old: Kernel<'a>, ptr: usize, len: usize, _c: usize, r: Handled) -> bool {
        &&& r == match old.naming(ptr, len) {
            Err(f) => fault(f),
            Ok(t) => gives(
                if old.fs@.dom().contains(t) {
                    1
                } else {
                    0
                },
            ),
        }
        &&& *self == old
    }

    /// Whether a file exists: the `len` bytes from `ptr` on are the tag of a
    /// file that the context that runs may read. Returns 1 if there is such
    /// a file, 0 else.
    pub fn syscall_exists(&self, ptr: usize, len: usize, _c: usize) -> (r: Handled)
        requires
            self.wf(),
        ensures
            self.did_exists(*self, ptr, len, _c, r),
    {
        let tag = match self.load(ptr, len) {
            Ok(t) => t,
            Err(e) => {
                return Err(e);
            },
        };
        match check_read(self.current_id(), tag.as_slice()) {
            Ok(()) => {},
            Err(e) => {
                return Err(e);
            },
        }
        Ok(Some(if self.fs.has_tag(tag.as_slice()) { 1 } else { 0 }))
    }

    /// What the syscall of like name makes of the kernel `old`, and returns.
    pub open spec fn did_read(&self, old: Kernel<'a>, tagaddr: usize, bufptr: usize, buflen: usize, r: Handled) -> bool {
        &&& self.wf()
        &&& if !old.storable(bufptr, buflen) {
            r == fault(Fault::BadAddress) && *self == old
        } else {
            match old.reading(tagaddr) {
                Err(f) => r == fault(f) && *self == old,
                Ok(t) => if old.fs@.dom().contains(t) {
                    &&& r == gives(0)
                    &&& self.stored(
                        old,
                        old.ram.with(
                            bufptr,
                            old.fs@[t].take(
                                if buflen <= old.fs@[t].len() {
                                    buflen as int
                                } else {
                                    old.fs@[t].len() as int
                                },
                            ),
                        ),
                    )
                } else {
                    r == gives(fs_code(Error::NoSuchTag)) && *self == old
                },
            }
        }
    }

    /// Reads a file into a buffer: as many of the first bytes of the file
    /// whose tag is laid out at `tagaddr` as there are and as the `buflen`
    /// bytes from `bufptr` on, which the context that runs may write, take.
    /// Returns 0, or the number of the error of the filesystem.
    pub fn syscall_read(&mut self, tagaddr: usize, bufptr: usize, buflen: usize) -> (r: Handled)
        requires
            old(self).wf(),
        ensures
            final(self).did_read(*old(self), tagaddr, bufptr, buflen, r),
    {
        match self.can_store(bufptr, buflen) {
            Ok(()) => {},
            Err(e) => {
                return Err(e);
            },
        }
        let tag = match self.tag_to_read(tagaddr) {
            Ok(t) => t,
            Err(e) => {
                return Err(e);
            },
        };
        match self.file(tag.as_slice()) {
            Ok((res, _)) => {
                let len = if buflen <= res.len() {
                    buflen
                } else {
                    res.len()
                };
                let part = slice_subrange(res.as_slice(), 0, len);
                self.ram.write(bufptr, part);
                Ok(Some(0))
            },
            Err(e) => Ok(Some(fs_error_to_usize(e))),
        }
    }

    /// What the syscall of like name makes of the kernel `old`, and returns.
    pub open spec fn did_read_inplace(&self, old: Kernel<'a>, tagaddr: usize, dataptrret: usize, datalenret: usize, r: Handled) -> bool {
        &&& self.wf()
        &&& if !(old.storable(dataptrret, WORD) && old.storable(datalenret, WORD)) {
            r == fault(Fault::BadAddress) && *self == old
        } else {
            match old.reading(tagaddr) {
                Err(f) => r == fault(f) && *self == old,
                Ok(t) => if !old.fs@.dom().contains(t) {
                    r == gives(fs_code(Error::NoSuchTag)) && *self == old
                } else if old.fs@[t].len() == 0 {
                    r == fault(Fault::OutOfFile) && *self == old
                } else {
                    exists|a: usize|
                        {
                            &&& old.fs.storage().spans(a, old.fs@[t].len() as int)
                            &&& old.fs.storage().span(a, old.fs@[t].len() as int) == old.fs@[t]
                            &&& if a > 0xFFFF_FFFF || old.fs@[t].len() > 0xFFFF_FFFF {
                                r == fault(Fault::BadAddress) && *self == old
                            } else {
                                &&& r == gives(0)
                                &&& self.stored(
                                    old,
                                    crate::ram::patched(
                                        old.ram.with(dataptrret, word_bytes(a as u32)),
                                        datalenret - old.ram.begin(),
                                        word_bytes(old.fs@[t].len() as u32),
                                    ),
                                )
                            }
                        }
                },
            }
        }
    }

    /// Returns a pointer to a file in flash: the address at which the flash
    /// has the bytes of the file whose tag is laid out at `tagaddr` goes to
    /// the word at `dataptrret`, and their number to the word at
    /// `datalenret`, both of which the context that runs may write. Returns
    /// 0, or the number of the error of the filesystem. The kernel gives up
    /// on a file that is empty, which has no address, and on an address or a
    /// number that a word does not hold.
    pub fn syscall_read_inplace(&mut self, tagaddr: usize, dataptrret: usize, datalenret: usize) -> (r: Handled)
        requires
            old(self).wf(),
        ensures
            final(self).did_read_inplace(*old(self), tagaddr, dataptrret, datalenret, r),
    {
        match self.can_store(dataptrret, WORD) {
            Ok(()) => {},
            Err(e) => {
                return Err(e);
            },
        }
        match self.can_store(datalenret, WORD) {
            Ok(()) => {},
            Err(e) => {
                return Err(e);
            },
        }
        let tag = match self.tag_to_read(tagaddr) {
            Ok(t) => t,
            Err(e) => {
                return Err(e);
            },
        };
        match self.file(tag.as_slice()) {
            Ok((res, addr)) => {
                if res.len() == 0 {
                    return Err(Halt::Fault(Fault::OutOfFile));
                }
                if addr > 0xFFFF_FFFF || res.len() > 0xFFFF_FFFF {
                    return Err(Halt::Fault(Fault::BadAddress));
                }
                self.ram.write_word(dataptrret, addr as u32);
                self.ram.write_word(datalenret, res.len() as u32);
                Ok(Some(0))
            },
            Err(e) => Ok(Some(fs_error_to_usize(e))),
        }
    }

    /// Reads `size` bytes of a file, from the `offset`-th group of as many
    /// on, to `retaddr`, which is a multiple of `size` and which the context
    /// that runs may write.
    pub open spec fn read_at(
        &self,
        old: Kernel<'a>,
        tagaddr: usize,
        offset: usize,
        retaddr: usize,
        size: usize,
        r: Handled,
    ) -> bool {
        if retaddr % size != 0 {
            r == fault(Fault::Misaligned) && *self == old
        } else if !old.storable(retaddr, size) {
            r == fault(Fault::BadAddress) && *self == old
        } else {
            match old.reading(tagaddr) {
                Err(f) => r == fault(f) && *self == old,
                Ok(t) => if !old.fs@.dom().contains(t) {
                    r == gives(fs_code(Error::NoSuchTag)) && *self == old
                } else if size * offset + size > old.fs@[t].len() {
                    r == fault(Fault::OutOfFile) && *self == old
                } else {
                    &&& r == gives(0)
                    &&& self.stored(
                        old,
                        old.ram.with(
                            retaddr,
                            old.fs@[t].subrange(size * offset, size * offset + size),
                        ),
                    )
                },
            }
        }
    }

    /// Reads `size` bytes of a file, one, two or four
    fn read_some_at(&mut self, tagaddr: usize, offset: usize, retaddr: usize, size: usize) -> (r:
        Handled)
        requires
            old(self).wf(),
            1 <= size <= 4,
        ensures
            final(self).wf(),
            final(self).read_at(*old(self), tagaddr, offset, retaddr, size, r),
    {
        if retaddr % size != 0 {
            return Err(Halt::Fault(Fault::Misaligned));
        }
        match self.can_store(retaddr, size) {
            Ok(()) => {},
            Err(e) => {
                return Err(e);
            },
        }
        let tag = match self.tag_to_read(tagaddr) {
            Ok(t) => t,
            Err(e) => {
                return Err(e);
            },
        };
        match self.file(tag.as_slice()) {
            Ok((b, _)) => {
                let n = b.len();
                let from = match size.checked_mul(offset) {
                    Some(from) => from,
                    None => {
                        return Err(Halt::Fault(Fault::OutOfFile));
                    },
                };
                if from > n || size > n - from {
                    return Err(Halt::Fault(Fault::OutOfFile));
                }
                let part = slice_subrange(b.as_slice(), from, from + size);
                self.ram.write(retaddr, part);
                Ok(Some(0))
            },
            Err(e) => Ok(Some(fs_error_to_usize(e))),
        }
    }

    /// Reads one byte from a file at some offset: the `offset`-th byte of the
    /// file whose tag is laid out at `tagaddr` goes to `retaddr`, which the
    /// context that runs may write. Returns 0, or the number of the error of
    /// the filesystem.
    pub fn syscall_read_1b_at(&mut self, tagaddr: usize, offset: usize, retaddr: usize) -> (r:
        Handled)
        requires
            old(self).wf(),
        ensures
            final(self).wf(),
            final(self).read_at(*old(self), tagaddr, offset, retaddr, 1, r),
    {
        self.read_some_at(tagaddr, offset, retaddr, 1)
    }

    /// Reads two bytes from a file at some offset (`offset` being considered
    /// as a number of 2-byte words) to `retaddr`, which is even
    pub fn syscall_read_2b_at(&mut self, tagaddr: usize, offset: usize, retaddr: usize) -> (r:
        Handled)
        requires
            old(self).wf(),
        ensures
            final(self).wf(),
            final(self).read_at(*old(self), tagaddr, offset, retaddr, 2, r),
    {
        self.read_some_at(tagaddr, offset, retaddr, 2)
    }

    /// Reads four bytes from a file at some offset (`offset` being
    /// considered as a number of 4-byte words) to `retaddr`, which is a
    /// multiple of four
    pub fn syscall_read_4b_at(&mut self, tagaddr: usize, offset: usize, retaddr: usize) -> (r:
        Handled)
        requires
            old(self).wf(),
        ensures
            final(self).wf(),
            final(self).read_at(*old(self), tagaddr, offset, retaddr, 4, r),
    {
        self.read_some_at(tagaddr, offset, retaddr, 4)
    }

    /// What the syscall of like name makes of the kernel `old`, and returns.
    pub open spec fn did_length(&self, old: Kernel<'a>, ptr: usize, len: usize, lenret: usize, r: Handled) -> bool {
        &&& self.wf()
        &&& if !(old.readable(ptr, len) && old.storable(lenret, WORD)) {
            r == fault(Fault::BadAddress) && *self == old
        } else {
            match old.naming(ptr, len) {
                Err(f) => r == fault(f) && *self == old,
                Ok(t) => if !old.fs@.dom().contains(t) {
                    r == gives(fs_code(Error::NoSuchTag)) && *self == old
                } else if old.fs@[t].len() > 0xFFFF_FFFF {
                    r == fault(Fault::OutOfFile) && *self == old
                } else {
                    &&& r == gives(0)
                    &&& self.stored(
                        old,
                        old.ram.with(lenret, word_bytes(old.fs@[t].len() as u32)),
                    )
                },
            }
        }
    }

    /// Retrieves the length of a file (in bytes): that of the file whose tag
    /// is in the `len` bytes from `ptr` on goes to the word at `lenret`,
    /// which the context that runs may write. Returns 0, or the number of
    /// the error of the filesystem.
    pub fn syscall_length(&mut self, ptr: usize, len: usize, lenret: usize) -> (r: Handled)
        requires
            old(self).wf(),
        ensures
            final(self).did_length(*old(self), ptr, len, lenret, r),
    {
        if !(crate::context::is_readable_from_current_context(&self.contexts, ptr, len)) {
            return Err(Halt::Fault(Fault::BadAddress));
        }
        match self.can_store(lenret, WORD) {
            Ok(()) => {},
            Err(e) => {
                return Err(e);
            },
        }
        let tag = match self.load(ptr, len) {
            Ok(t) => t,
            Err(e) => {
                return Err(e);
            },
        };
        match check_read(self.current_id(), tag.as_slice()) {
            Ok(()) => {},
            Err(e) => {
                return Err(e);
            },
        }
        match self.file(tag.as_slice()) {
            Ok((b, _)) => {
                if b.len() > 0xFFFF_FFFF {
                    return Err(Halt::Fault(Fault::OutOfFile));
                }
                self.ram.write_word(lenret, b.len() as u32);
                Ok(Some(0))
            },
            Err(e) => Ok(Some(fs_error_to_usize(e))),
        }
    }

    /// What the syscall of like name makes of the kernel `old`, and returns.
    pub open spec fn did_write(&self, old: Kernel<'a>, tagaddr: usize, bufptr: usize, buflen: usize, r: Handled) -> bool {
        &&& self.wf()
        &&& self.same_but_fs(old)
        &&& match old.loaded(bufptr, buflen) {
            None => r == fault(Fault::BadAddress) && *self == old,
            Some(data) => match old.writing(tagaddr, false) {
                Err(f) => r == fault(f) && *self == old,
                Ok(t) => exists|res: Result<(), Error>|
                    r == gives(result_code(res)) && wrote(
                        old.fs,
                        self.fs,
                        t,
                        data,
                        res,
                    ),
            },
        }
    }

    /// Writes a file from a buffer: the file whose tag is laid out at
    /// `tagaddr`, which the context that runs may write and which is no
    /// applet, gets the `buflen` bytes from `bufptr` on, which the context
    /// may read. Returns 0, or the number of the error of the filesystem.
    pub fn syscall_write(&mut self, tagaddr: usize, bufptr: usize, buflen: usize) -> (r: Handled)
        requires
            old(self).wf(),
        ensures
            final(self).did_write(*old(self), tagaddr, bufptr, buflen, r),
    {
        let data = match self.load(bufptr, buflen) {
            Ok(d) => d,
            Err(e) => {
                return Err(e);
            },
        };
        let tag = match self.tag_to_write(tagaddr, false) {
            Ok(t) => t,
            Err(e) => {
                return Err(e);
            },
        };
        let res = self.fs.write(tag.as_slice(), data.as_slice());
        proof {
            assert(wrote(old(self).fs, self.fs, tag@, data@, res));
        }
        Ok(Some(match res {
            Ok(()) => 0,
            Err(e) => fs_error_to_usize(e),
        }))
    }

    /// What the syscall of like name makes of the kernel `old`, and returns.
    pub open spec fn did_write_applet(&self, old: Kernel<'a>, tagaddr: usize, bufptr: usize, buflen: usize, r: Handled) -> bool {
        &&& self.wf()
        &&& self.same_but_fs(old)
        &&& match old.loaded(bufptr, buflen) {
            None => r == fault(Fault::BadAddress) && *self == old,
            Some(data) => match old.writing(tagaddr, true) {
                Err(f) => r == fault(f) && *self == old,
                Ok(t) => exists|res: Result<(), Error>|
                    wrote_applet(old.fs, self.fs, t, data, res) && r == match res {
                        Ok(()) => Err::<Option<usize>, Halt>(Halt::Reboot),
                        Err(e) => fault(Fault::Failed(e)),
                    },
            },
        }
    }

    /// Writes an applet from a buffer: as `syscall_write`, for a file that
    /// is an applet. The processor is to reboot once the applet is written.
    pub fn syscall_write_applet(&mut self, tagaddr: usize, bufptr: usize, buflen: usize) -> (r: Handled)
        requires
            old(self).wf(),
        ensures
            final(self).did_write_applet(*old(self), tagaddr, bufptr, buflen, r),
    {
        let data = match self.load(bufptr, buflen) {
            Ok(d) => d,
            Err(e) => {
                return Err(e);
            },
        };
        let tag = match self.tag_to_write(tagaddr, true) {
            Ok(t) => t,
            Err(e) => {
                return Err(e);
            },
        };
        let res = self.fs.write_applet(tag.as_slice(), data.as_slice());
        proof {
            assert(wrote_applet(old(self).fs, self.fs, tag@, data@, res));
        }
        match res {
            Ok(()) => Err(Halt::Reboot),
            Err(e) => Err(Halt::Fault(Fault::Failed(e))),
        }
    }

    /// Reads the tag in the `len` bytes from `ptr` on, of a file that the
    /// context that runs may write, and that is an applet or is none
    fn tag_to_remove(&self, ptr: usize, len: usize, applet: bool) -> (r: Result<Vec<u8>, Halt>)
        requires
            self.wf(),
        ensures
            match self.removing(ptr, len, applet) {
                Ok(t) => r matches Ok(v) && v@ == t,
                Err(f) => r == Err::<Vec<u8>, Halt>(Halt::Fault(f)),
            },
    {
        let tag = match self.load(ptr, len) {
            Ok(t) => t,
            Err(e) => {
                return Err(e);
            },
        };
        match check_write(self.current_id(), tag.as_slice(), applet) {
            Ok(()) => Ok(tag),
            Err(e) => Err(e),
        }
    }

    /// What the syscall of like name makes of the kernel `old`, and returns.
    pub open spec fn did_erase(&self, old: Kernel<'a>, ptr: usize, len: usize, _c: usize, r: Handled) -> bool {
        &&& self.wf()
        &&& self.same_but_fs(old)
        &&& match old.removing(ptr, len, false) {
            Err(f) => r == fault(f) && *self == old,
            Ok(t) => exists|res: Result<(), Error>|
                r == gives(result_code(res)) && erased(old.fs, self.fs, t, res),
        }
    }

    /// Removes a file: the one whose tag is in the `len` bytes from `ptr`
    /// on, which the context that runs may write and which is no applet.
    /// Returns 0, or the number of the error of the filesystem.
    pub fn syscall_erase(&mut self, ptr: usize, len: usize, _c: usize) -> (r: Handled)
        requires
            old(self).wf(),
        ensures
            final(self).did_erase(*old(self), ptr, len, _c, r),
    {
        let tag = match self.tag_to_remove(ptr, len, false) {
            Ok(t) => t,
            Err(e) => {
                return Err(e);
            },
        };
        let res = self.fs.erase(tag.as_slice());
        proof {
            assert(erased(old(self).fs, self.fs, tag@, res));
        }
        Ok(Some(match res {
            Ok(()) => 0,
            Err(e) => fs_error_to_usize(e),
        }))
    }

    /// What the syscall of like name makes of the kernel `old`, and returns.
    pub open spec fn did_erase_applet(&self, old: Kernel<'a>, ptr: usize, len: usize, _c: usize, r: Handled) -> bool {
        &&& self.wf()
        &&& self.same_but_fs(old)
        &&& match old.removing(ptr, len, true) {
            Err(f) => r == fault(f) && *self == old,
            Ok(t) => exists|res: Result<(), Error>|
                erased(old.fs, self.fs, t, res) && r == match res {
                    Ok(()) => Err::<Option<usize>, Halt>(Halt::Reboot),
                    Err(e) => fault(Fault::Failed(e)),
                },
        }
    }

    /// Erases an applet: as `syscall_erase`, for a file that is an applet.
    /// The processor is to reboot once the applet is erased.
    pub fn syscall_erase_applet(&mut self, ptr: usize, len: usize, _c: usize) -> (r: Handled)
        requires
            old(self).wf(),
        ensures
            final(self).did_erase_applet(*old(self), ptr, len, _c, r),
    {
        let tag = match self.tag_to_remove(ptr, len, true) {
            Ok(t) => t,
            Err(e) => {
                return Err(e);
            },
        };
        let res = self.fs.erase(tag.as_slice());
        proof {
            assert(erased(old(self).fs, self.fs, tag@, res));
        }
        match res {
            Ok(()) => Err(Halt::Reboot),
            Err(e) => Err(Halt::Fault(Fault::Failed(e))),
        }
    }

    /// Writes `data` in a file from its `offset`-th byte on.
    pub open spec fn write_at(
        &self,
        old: Kernel<'a>,
        tagaddr: usize,
        offset: usize,
        data: Seq<u8>,
        r: Handled,
    ) -> bool {
        &&& self.same_but_fs(old)
        &&& match old.editing(tagaddr) {
            Err(f) => r == fault(f) && *self == old,
            Ok(t) => exists|res: Result<(), Error>|
                r == gives(result_code(res)) && edited(old.fs, self.fs, t, offset, data, res),
        }
    }

    /// Writes some bytes in a file
    fn write_some_at(&mut self, tagaddr: usize, offset: usize, data: &[u8]) -> (r: Handled)
        requires
            old(self).wf(),
        ensures
            final(self).wf(),
            final(self).write_at(*old(self), tagaddr, offset, data@, r),
    {
        let tag = match self.tag_to_edit(tagaddr) {
            Ok(t) => t,
            Err(e) => {
                return Err(e);
            },
        };
        let res = self.fs.edit_at(tag.as_slice(), offset, data);
        proof {
            assert(edited(old(self).fs, self.fs, tag@, offset, data@, res));
        }
        Ok(Some(match res {
            Ok(()) => 0,
            Err(e) => fs_error_to_usize(e),
        }))
    }

    /// Writes one byte to a file at some offset: the lowest byte of `data`
    /// is the `offset`-th byte of the file whose tag is laid out at
    /// `tagaddr`, which the context that runs may write. Returns 0, or the
    /// number of the error of the filesystem.
    pub fn syscall_write_1b_at(&mut self, tagaddr: usize, offset: usize, data: usize) -> (r: Handled)
        requires
            old(self).wf(),
        ensures
            final(self).wf(),
            final(self).write_at(*old(self), tagaddr, offset, seq![(data % 256) as u8], r),
    {
        let d = [(data % 256) as u8];
        proof {
            assert(d@ =~= seq![(data % 256) as u8]);
        }
        self.write_some_at(tagaddr, offset, d.as_slice())
    }

    /// Writes two bytes to a file at some offset: the two lowest bytes of
    /// `data`, the lowest first, from the `offset`-th byte on
    pub fn syscall_write_2b_at(&mut self, tagaddr: usize, offset: usize, data: usize) -> (r: Handled)
        requires
            old(self).wf(),
        ensures
            final(self).wf(),
            final(self).write_at(*old(self), tagaddr, offset, low_bytes(data), r),
    {
        let d = [(data % 256) as u8, ((data / 256) % 256) as u8];
        proof {
            assert(d@ =~= low_bytes(data));
        }
        self.write_some_at(tagaddr, offset, d.as_slice())
    }

    /// Writes four bytes to a file at some offset: the four lowest bytes of
    /// `data`, the lowest first, from the `offset`-th byte on
    pub fn syscall_write_4b_at(&mut self, tagaddr: usize, offset: usize, data: usize) -> (r: Handled)
        requires
            old(self).wf(),
        ensures
            final(self).wf(),
            final(self).write_at(*old(self), tagaddr, offset, word_of_number(data), r),
    {
        let d = [
            (data % 256) as u8,
            ((data / 256) % 256) as u8,
            ((data / 65536) % 256) as u8,
            ((data / 16777216) % 256) as u8,
        ];
        proof {
            assert(d@ =~= word_of_number(data));
        }
        self.write_some_at(tagaddr, offset, d.as_slice())
    }
}

} // verus!
