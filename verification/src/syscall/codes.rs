//! How a syscall tells an error of the filesystem in a number, and how it
//! gets a tag

use crate::flash::IOError;
use crate::fs::Error;
use vstd::prelude::*;

verus! {

/// What marks the number of an error of the flash
pub const FLASH_ERROR: usize = 0x4000_0000;

/// What marks the number of an error of the filesystem
pub const FS_ERROR: usize = 0x8000_0000;

/// What an unknown error of the flash keeps of what the device reported
pub const UNKNOWN_MASK: usize = 0x1000_0000;

/// The number of an error of the flash.
pub open spec fn flash_code(e: IOError) -> usize {
    match e {
        IOError::LockedError => 0x4000_0001,
        IOError::OutOfBounds => 0x4000_0002,
        IOError::UnknownError(e) => (0x4000_0000 + e % 0x1000_0000) as usize,
    }
}

/// The number without what marks it, if it has the mark.
pub open spec fn unmarked(e: usize, mark: usize) -> usize {
    if (e / mark) % 2 == 1 {
        (e - mark) as usize
    } else {
        e
    }
}

/// The error of the flash that a number tells.
pub open spec fn flash_error(e: usize) -> IOError {
    let x = unmarked(e, FLASH_ERROR);
    if x == 1 {
        IOError::LockedError
    } else if x == 2 {
        IOError::OutOfBounds
    } else {
        IOError::UnknownError((x as int % 0x1_0000_0000) as u32)
    }
}

/// The number of an error of the filesystem.
pub open spec fn fs_code(e: Error) -> usize {
    match e {
        Error::OutOfFlash => 0x8000_0001,
        Error::NoSuchTag => 0x8000_0002,
        Error::InvalidLengthForTag => 0x8000_0003,
        Error::IO(e) => (0x8000_0000 + flash_code(e)) as usize,
    }
}

/// The error of the filesystem that a number tells.
pub open spec fn fs_error(e: usize) -> Error {
    let x = unmarked(e, FS_ERROR);
    if x == 1 {
        Error::OutOfFlash
    } else if x == 2 {
        Error::NoSuchTag
    } else if x == 3 {
        Error::InvalidLengthForTag
    } else {
        Error::IO(flash_error(x))
    }
}

/// The number that a syscall returns for what the filesystem returned: zero
/// when all went well.
pub open spec fn result_code(r: Result<(), Error>) -> usize {
    match r {
        Ok(()) => 0,
        Err(e) => fs_code(e),
    }
}

/// The number of an error of the flash
pub fn flash_error_to_usize(e: IOError) -> (r: usize)
    ensures
        r == flash_code(e),
        0x4000_0000 <= r < 0x5000_0000,
{
    FLASH_ERROR + match e {
        IOError::LockedError => 1,
        IOError::OutOfBounds => 2,
        IOError::UnknownError(e) => (e % 0x1000_0000) as usize,
    }
}

/// Takes the mark off a number
fn unmark(e: usize, mark: usize) -> (r: usize)
    requires
        mark > 0,
    ensures
        r == unmarked(e, mark),
{
    if (e / mark) % 2 == 1 {
        assert(e >= mark) by (nonlinear_arith)
            requires
                e / mark >= 1,
                mark > 0,
        ;
        e - mark
    } else {
        e
    }
}

/// The error of the flash that a number tells
pub fn usize_to_flash_error(e: usize) -> (r: IOError)
    ensures
        r == flash_error(e),
{
    match unmark(e, FLASH_ERROR) {
        1 => IOError::LockedError,
        2 => IOError::OutOfBounds,
        x => IOError::UnknownError((x as u64 % 0x1_0000_0000) as u32),
    }
}

/// The number of an error of the filesystem
pub fn fs_error_to_usize(e: Error) -> (r: usize)
    ensures
        r == fs_code(e),
        0x8000_0000 < r < 0xD000_0000,
{
    FS_ERROR + match e {
        Error::OutOfFlash => 1,
        Error::NoSuchTag => 2,
        Error::InvalidLengthForTag => 3,
        Error::IO(e) => flash_error_to_usize(e),
    }
}

/// The error of the filesystem that a number tells
pub fn usize_to_fs_error(e: usize) -> (r: Error)
    ensures
        r == fs_error(e),
{
    match unmark(e, FS_ERROR) {
        1 => Error::OutOfFlash,
        2 => Error::NoSuchTag,
        3 => Error::InvalidLengthForTag,
        x => Error::IO(usize_to_flash_error(x)),
    }
}

/// The number of an error tells the error, unless the error is an unknown
/// error of the flash that is not told whole: one that the device reported
/// as 1 or 2, or as more than is kept.
pub proof fn lemma_codes(e: Error)
    requires
        e matches Error::IO(IOError::UnknownError(x)) ==> x != 1 && x != 2 && x < 0x1000_0000,
    ensures
        fs_error(fs_code(e)) == e,
        fs_code(e) != 0,
{
}

/// The tag as a syscall gets it: its length, then its bytes.
pub open spec fn passed(tag: Seq<u8>) -> Seq<u8> {
    Seq::new(
        33,
        |i: int|
            if i == 0 {
                tag.len() as u8
            } else if i <= tag.len() {
                tag[i - 1]
            } else {
                0u8
            },
    )
}

/// Lays a tag of 32 bytes at most out as a syscall gets it
pub fn pass_tag(tag: &[u8]) -> (res: [u8; 33])
    requires
        tag@.len() <= 32,
    ensures
        res@ == passed(tag@),
{
    let mut res = [0u8;33];
    res[0] = tag.len() as u8;
    let mut i: usize = 0;
    while i < tag.len()
        invariant
            i <= tag@.len() <= 32,
            res@.len() == 33,
            res@[0] == tag@.len() as u8,
            forall|k: int| 1 <= k <= i ==> res@[k] == tag@[k - 1],
            forall|k: int| i < k < 33 ==> res@[k] == 0u8,
        decreases tag@.len() - i,
    {
        res[i + 1] = tag[i];
        i += 1;
    }
    proof {
        assert(res@ =~= passed(tag@));
    }
    res
}

} // verus!
