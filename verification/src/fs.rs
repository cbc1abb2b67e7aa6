//! Persistent pseudo-hashmap on top of the Flash interface
//!
//! # High-level overview of the file system
//!
//! The file system can be viewed as a persistent hash map on top of the flash.
//! It acts as much as possible without erasing any sector, as an erase is
//! really slow. In order to do so, it doesn't store a hashmap directly on
//! disk, rather it just stores tag-data blocks, and rebuilds the hashmap in
//! RAM on each boot.
//!
//! When modifying the value of a tag, it just adds a new tag block in some
//! free space, and marks the previous block as invalid so that it is not
//! picked up by loader at the next reset. The blocks are concatenated one
//! after the other, so that scanning can be linear.
//!
//! ## Atomicity and timeline
//!
//! In order to ensure maximal atomicity, a tag is written while being marked
//! as not-yet-valid, and only once it is completely written, it is marked as
//! now-valid. A CRC-8 is appended to each block, so that a block that was
//! half-written is recognised.
//!
//! ## Defragmentation
//!
//! Old values are never removed, so eventually sectors get full. A
//! "defragmentation" copies all the valid blocks of a sector to the sector
//! that is reserved for it, erases the sector, and copies the blocks back.
//! No sector may hold more valid bytes than the defragmentation sector can
//! take, less the byte at its end that names the sector being defragmented.
//!
//! # What is proved
//!
//! [`FileSystem::wf`] holds of every filesystem, whatever the flash held when
//! it was made: it is what keeps the functions from going wrong.
//! [`FileSystem::inv`] holds in addition when the flash was
//! [`formatted`](FileSystem::formatted): every sector holds blocks written by
//! this filesystem, one after the other, followed by erased bytes. It is kept
//! by every function, and under it the filesystem is the map from tags to
//! data that its view gives.

use crate::flash::{and_range, blank, zeros, Flash, FlashBlock, IOError, Lock, Sector};
use crate::flash::FlashBlockMut;
use crate::format::{
    block_len, block_size, body, crc8, crc8_spec, encodable, header, image, is_validity,
    length_field, lenlen, parse, parse_hdr, shaped, Block, ParseNoBlock, LENLEN_LONG,
    LENLEN_SHORT, TAGLEN_SHIFT,
    TAG_LIMIT, VALIDITY_MASK, VALIDITY_NOLONGER, VALIDITY_NOTYET, VALIDITY_VALID,
};
use vstd::slice::slice_subrange;
use crate::hashset::{HashSet, Hashed};
use vstd::prelude::*;

verus! {

/// An error that can happen during a filesystem operation
#[derive(Debug, PartialEq, Eq, Clone, Copy, Structural)]
pub enum Error {
    /// There is not enough flash available to both guarantee mutability of
    /// the currently set data and add the requested data
    OutOfFlash,
    /// Trying to read a non-existing tag
    NoSuchTag,
    /// Tag has an invalid length: it is empty, or has 30 bytes or more
    InvalidLengthForTag,
    /// A flash IO error occured during the requested operation
    IO(IOError),
}

impl vstd::std_specs::convert::FromSpecImpl<IOError> for Error {
    open spec fn obeys_from_spec() -> bool {
        true
    }

    open spec fn from_spec(e: IOError) -> Error {
        Error::IO(e)
    }
}

impl From<IOError> for Error {
    /// An error of the flash, as an error of the filesystem
    fn from(e: IOError) -> (r: Error) {
        Error::IO(e)
    }
}

/// Offset in the `sectors` array of a [`FileSystem`] (do not make a mistake
/// between this one and [`crate::flash::SectorID`]!)
#[derive(Debug, PartialEq, Eq, Clone, Copy, Structural)]
pub struct SectorID(pub usize);

/// Number of buckets for the hashmap internally used by [`FileSystem`]
pub const FS_FILES_BUCKETS: usize = 32;

/// A sector of a filesystem is shorter than this.
pub const SECTOR_LIMIT: usize = 0x0800_0000;

/// A filesystem has at most this many sectors: the byte that names the sector
/// being defragmented is `0xFF` when there is none.
pub const SECTORS_LIMIT: usize = 255;

/// A file on flash
///
/// A file is looked up by its tag, of which it keeps a copy.
pub struct File {
    /// The bytes of the tag
    key: Vec<u8>,
    /// Tag this file can be referred as ("filename")
    tag: FlashBlock,
    /// Data contained in the file ("file contents")
    data: FlashBlock,
    /// Sector number on which the file is
    sector: SectorID,
    /// Total size of the file block
    size: usize,
}

/// The words of a tag: its bytes.
pub open spec fn key_words(tag: Seq<u8>) -> Seq<usize> {
    Seq::new(tag.len(), |i: int| tag[i] as usize)
}

/// Tags with the same words are the same tag.
pub proof fn lemma_key_words(a: Seq<u8>, b: Seq<u8>)
    requires
        key_words(a) == key_words(b),
    ensures
        a == b,
{
    assert(a.len() == key_words(a).len());
    assert(b.len() == key_words(b).len());
    assert forall|i: int| 0 <= i < a.len() implies a[i] == b[i] by {
        assert(key_words(a)[i] == a[i] as usize);
        assert(key_words(b)[i] == b[i] as usize);
    }
    assert(a =~= b);
}

impl Hashed for File {
    closed spec fn words(&self) -> Seq<usize> {
        key_words(self.key@)
    }

    fn word_count(&self) -> (n: usize) {
        self.key.len()
    }

    fn word(&self, i: usize) -> (w: usize) {
        self.key[i] as usize
    }
}

/// What the filesystem takes a block of a sector to be. An entry without a
/// tag stands for a run of zeros, which lies where a block was given up and
/// counts as a block that is no longer valid.
pub ghost struct Entry {
    /// Index of the first byte of the block in the sector
    pub start: int,
    /// Size of the block
    pub size: int,
    /// The validity bits of the header of the block
    pub validity: u8,
    /// Whether the size of the block is counted in the valid size of the sector
    pub counted: bool,
    /// The tag of the block
    pub tag: Seq<u8>,
    /// The data of the block
    pub data: Seq<u8>,
}

/// Sum of the sizes of the entries that are counted.
pub open spec fn counted_sum(entries: Seq<Entry>) -> int
    decreases entries.len(),
{
    if entries.len() == 0 {
        0
    } else {
        counted_sum(entries.drop_last()) + if entries.last().counted {
            entries.last().size
        } else {
            0
        }
    }
}

/// Sum of the sizes of the entries.
pub open spec fn total_sum(entries: Seq<Entry>) -> int
    decreases entries.len(),
{
    if entries.len() == 0 {
        0
    } else {
        total_sum(entries.drop_last()) + entries.last().size
    }
}

/// The entries lie one after the other, with no gap, from the first byte on.
#[verifier::opaque]
pub open spec fn tiled(entries: Seq<Entry>) -> bool {
    forall|k: int| 0 <= k < entries.len() ==> (#[trigger] entries[k]).start == total_sum(
        entries.take(k),
    )
}

/// The sums after one more entry.
pub proof fn lemma_sum_push(entries: Seq<Entry>, e: Entry)
    ensures
        counted_sum(entries.push(e)) == counted_sum(entries) + if e.counted {
            e.size
        } else {
            0
        },
        total_sum(entries.push(e)) == total_sum(entries) + e.size,
{
    assert(entries.push(e).drop_last() == entries);
}

/// The counted sum after an entry has changed.
pub proof fn lemma_sum_update(entries: Seq<Entry>, k: int, e: Entry)
    requires
        0 <= k < entries.len(),
        e.size == entries[k].size,
    ensures
        counted_sum(entries.update(k, e)) == counted_sum(entries) - (if entries[k].counted {
            entries[k].size
        } else {
            0
        }) + (if e.counted {
            e.size
        } else {
            0
        }),
        total_sum(entries.update(k, e)) == total_sum(entries),
        forall|j: int|
            0 <= j <= entries.len() ==> total_sum(#[trigger] entries.update(k, e).take(j))
                == total_sum(entries.take(j)),
    decreases entries.len(),
{
    let n = entries.len() - 1;
    if k == n {
        assert(entries.update(k, e).drop_last() == entries.drop_last());
    } else {
        assert(entries.update(k, e).drop_last() == entries.drop_last().update(k, e));
        lemma_sum_update(entries.drop_last(), k, e);
    }
    assert forall|j: int| 0 <= j <= entries.len() implies total_sum(
        #[trigger] entries.update(k, e).take(j),
    ) == total_sum(entries.take(j)) by {
        if j <= k {
            assert(entries.update(k, e).take(j) == entries.take(j));
        } else {
            assert(entries.update(k, e).take(j) == entries.take(j).update(k, e));
            if j == entries.len() {
                assert(entries.take(j) == entries);
            } else {
                assert(entries.drop_last().take(j) == entries.take(j));
                assert(entries.drop_last().update(k, e).take(j) == entries.take(j).update(k, e));
            }
        }
    }
}

/// The counted entries are among the entries, whose sizes are not negative.
pub proof fn lemma_sum_bound(entries: Seq<Entry>)
    requires
        forall|k: int| 0 <= k < entries.len() ==> (#[trigger] entries[k]).size >= 0,
    ensures
        0 <= counted_sum(entries) <= total_sum(entries),
    decreases entries.len(),
{
    if entries.len() > 0 {
        lemma_sum_bound(entries.drop_last());
    }
}

/// An entry that is counted is no larger than the counted sum.
pub proof fn lemma_sum_member(entries: Seq<Entry>, k: int)
    requires
        forall|k: int| 0 <= k < entries.len() ==> (#[trigger] entries[k]).size >= 0,
        0 <= k < entries.len(),
        entries[k].counted,
    ensures
        entries[k].size <= counted_sum(entries),
    decreases entries.len(),
{
    lemma_sum_bound(entries.drop_last());
    if k < entries.len() - 1 {
        lemma_sum_member(entries.drop_last(), k);
    }
}

/// Whether the sector of bytes `bytes` holds the blocks of `entries`, one
/// after the other from its first byte on, each as this filesystem writes
/// them, or as a run of zeros between two blocks or after the last.
#[verifier::opaque]
pub open spec fn holds_blocks(bytes: Seq<u8>, entries: Seq<Entry>) -> bool {
    &&& tiled(entries)
    &&& forall|k: int|
        0 <= k < entries.len() ==> {
            &&& is_validity((#[trigger] entries[k]).validity)
            &&& entries[k].counted == (entries[k].validity == VALIDITY_VALID)
            &&& 0 <= entries[k].start
            &&& entries[k].start + entries[k].size <= bytes.len()
            &&& if entries[k].tag.len() == 0 {
                zeroed(bytes, entries, k)
            } else {
                &&& encodable(entries[k].tag.len() as int, entries[k].data.len() as int)
                &&& entries[k].size == block_size(
                    entries[k].tag.len() as int,
                    entries[k].data.len() as int,
                )
                &&& bytes.subrange(entries[k].start, entries[k].start + entries[k].size) == image(
                    entries[k].validity,
                    entries[k].tag,
                    entries[k].data,
                )
            }
        }
}

/// Whether the `k`-th of the entries, which has no tag, is a run of zeros
/// that the sector of bytes `bytes` holds where a block was given up: it
/// counts as a block that is no longer valid, and the entry before it is a
/// block.
pub open spec fn zeroed(bytes: Seq<u8>, entries: Seq<Entry>, k: int) -> bool {
    &&& entries[k].validity == VALIDITY_NOLONGER
    &&& entries[k].data.len() == 0
    &&& 1 <= entries[k].size
    &&& forall|p: int|
        entries[k].start <= p < entries[k].start + entries[k].size ==> #[trigger] bytes[p] == 0
    &&& k > 0 ==> entries[k - 1].tag.len() > 0
}

/// Whether the bytes of `bytes` from `from` up to `limit` are erased.
pub open spec fn erased_from(bytes: Seq<u8>, from: int, limit: int) -> bool {
    forall|p: int| from <= p < limit ==> bytes[p] == 0xFF
}

/// In a sector that holds the blocks of its entries, an entry ends before the
/// next one starts.
pub proof fn lemma_tiled_order(entries: Seq<Entry>, i: int, j: int)
    requires
        tiled(entries),
        forall|k: int| 0 <= k < entries.len() ==> (#[trigger] entries[k]).size >= 0,
        0 <= i < j < entries.len(),
    ensures
        entries[i].start + entries[i].size <= entries[j].start,
        0 <= entries[i].start,
        entries[j].start + entries[j].size <= total_sum(entries),
    decreases entries.len() - i,
{
    reveal(tiled);
    lemma_total_take(entries, i);
    lemma_total_take(entries, j);
    lemma_total_mono(entries, i + 1, j);
    lemma_total_mono(entries, j + 1, entries.len() as int);
    lemma_total_mono(entries, 0, i);
    assert(entries.take(entries.len() as int) == entries);
    assert(entries.take(0) =~= Seq::<Entry>::empty());
}

/// The sum of the sizes of the first `i + 1` entries.
pub proof fn lemma_total_take(entries: Seq<Entry>, i: int)
    requires
        0 <= i < entries.len(),
    ensures
        total_sum(entries.take(i + 1)) == total_sum(entries.take(i)) + entries[i].size,
{
    assert(entries.take(i + 1).drop_last() == entries.take(i));
}

/// The sum of the sizes of the first entries grows with their number.
pub proof fn lemma_total_mono(entries: Seq<Entry>, i: int, j: int)
    requires
        forall|k: int| 0 <= k < entries.len() ==> (#[trigger] entries[k]).size >= 0,
        0 <= i <= j <= entries.len(),
    ensures
        total_sum(entries.take(i)) <= total_sum(entries.take(j)),
    decreases j - i,
{
    if i < j {
        lemma_total_mono(entries, i, j - 1);
        lemma_total_take(entries, j - 1);
    }
}

/// What holds of an entry of a sector that holds the blocks of its entries.
pub proof fn lemma_holds(bytes: Seq<u8>, entries: Seq<Entry>, k: int)
    requires
        holds_blocks(bytes, entries),
        0 <= k < entries.len(),
    ensures
        is_validity(entries[k].validity),
        entries[k].counted == (entries[k].validity == VALIDITY_VALID),
        0 <= entries[k].start,
        entries[k].start == total_sum(entries.take(k)),
        entries[k].start + entries[k].size <= total_sum(entries),
        entries[k].start + entries[k].size <= bytes.len(),
        1 <= entries[k].size,
        entries[k].tag.len() == 0 ==> zeroed(bytes, entries, k),
        entries[k].tag.len() > 0 ==> {
            &&& encodable(entries[k].tag.len() as int, entries[k].data.len() as int)
            &&& entries[k].size == block_size(
                entries[k].tag.len() as int,
                entries[k].data.len() as int,
            )
            &&& bytes.subrange(entries[k].start, entries[k].start + entries[k].size) == image(
                entries[k].validity,
                entries[k].tag,
                entries[k].data,
            )
        },
{
    reveal(tiled);
    reveal(holds_blocks);
    assert forall|j: int| 0 <= j < entries.len() implies (#[trigger] entries[j]).size >= 0 by {}
    lemma_total_take(entries, k);
    lemma_total_mono(entries, k + 1, entries.len() as int);
    assert(entries.take(entries.len() as int) == entries);
}

/// A sector that holds no entries holds the blocks of its entries.
pub proof fn lemma_holds_none(bytes: Seq<u8>)
    ensures
        holds_blocks(bytes, Seq::<Entry>::empty()),
        total_sum(Seq::<Entry>::empty()) == 0,
        counted_sum(Seq::<Entry>::empty()) == 0,
{
    reveal(tiled);
    reveal(holds_blocks);
}

/// A sector that holds the blocks of its entries holds them still when bytes
/// after them change.
pub proof fn lemma_holds_prefix(bytes: Seq<u8>, after: Seq<u8>, entries: Seq<Entry>)
    requires
        holds_blocks(bytes, entries),
        after.len() == bytes.len(),
        forall|p: int| 0 <= p < total_sum(entries) ==> after[p] == bytes[p],
    ensures
        holds_blocks(after, entries),
{
    assert forall|k: int| 0 <= k < entries.len() implies if (#[trigger] entries[k]).tag.len()
        == 0 {
        zeroed(after, entries, k)
    } else {
        after.subrange(entries[k].start, entries[k].start + entries[k].size) == image(
            entries[k].validity,
            entries[k].tag,
            entries[k].data,
        )
    } by {
        lemma_holds(bytes, entries, k);
        assert(after.subrange(entries[k].start, entries[k].start + entries[k].size)
            =~= bytes.subrange(entries[k].start, entries[k].start + entries[k].size));
    }
    reveal(tiled);
    reveal(holds_blocks);
}

/// A sector that holds the blocks of its entries holds them still when one
/// of them, which was valid, is marked as no longer valid.
pub proof fn lemma_retire(bytes: Seq<u8>, entries: Seq<Entry>, k: int)
    requires
        holds_blocks(bytes, entries),
        0 <= k < entries.len(),
        entries[k].validity == VALIDITY_VALID,
    ensures
        holds_blocks(
            bytes.update(entries[k].start, no_longer(bytes[entries[k].start])),
            entries.update(k, retired(entries[k])),
        ),
        total_sum(entries.update(k, retired(entries[k]))) == total_sum(entries),
{
    reveal(tiled);
    reveal(holds_blocks);
    let e = entries[k];
    let after = bytes.update(e.start, no_longer(bytes[e.start]));
    let l = entries.update(k, retired(e));
    lemma_sum_update(entries, k, retired(e));
    crate::format::lemma_header(e.validity, e.tag.len() as int, e.data.len() as int);
    crate::format::lemma_image_parts(e.validity, e.tag, e.data);
    crate::format::lemma_image_parts(VALIDITY_NOLONGER, e.tag, e.data);
    assert(bytes[e.start] == bytes.subrange(e.start, e.start + e.size)[0]);
    assert forall|i: int| 0 <= i < l.len() implies (#[trigger] l[i]).start == total_sum(
        l.take(i),
    ) by {
        assert(entries[i].start == total_sum(entries.take(i)));
    }
    assert forall|i: int| 0 <= i < l.len() implies if (#[trigger] l[i]).tag.len() == 0 {
        zeroed(after, l, i)
    } else {
        after.subrange(l[i].start, l[i].start + l[i].size) == image(
            l[i].validity,
            l[i].tag,
            l[i].data,
        )
    } by {
        let o = entries[i];
        if i == k {
            assert(after.subrange(o.start, o.start + o.size) =~= image(
                VALIDITY_VALID,
                o.tag,
                o.data,
            ).update(
                0,
                crate::format::header(VALIDITY_NOLONGER, o.tag.len() as int, o.data.len() as int),
            ));
            crate::format::lemma_image_validity(VALIDITY_VALID, VALIDITY_NOLONGER, o.tag, o.data);
        } else {
            if i < k {
                lemma_tiled_order(entries, i, k);
            } else {
                lemma_tiled_order(entries, k, i);
            }
            assert(after.subrange(o.start, o.start + o.size) =~= bytes.subrange(
                o.start,
                o.start + o.size,
            ));
        }
    }
}

/// A sector that holds the blocks of its entries holds those of one more
/// entry when the block of the entry lies after them.
pub proof fn lemma_append(bytes: Seq<u8>, entries: Seq<Entry>, e: Entry)
    requires
        holds_blocks(bytes, entries),
        e.start == total_sum(entries),
        encodable(e.tag.len() as int, e.data.len() as int),
        is_validity(e.validity),
        e.size == block_size(e.tag.len() as int, e.data.len() as int),
        e.counted == (e.validity == VALIDITY_VALID),
        e.start + e.size <= bytes.len(),
        bytes.subrange(e.start, e.start + e.size) == image(e.validity, e.tag, e.data),
    ensures
        holds_blocks(bytes, entries.push(e)),
        total_sum(entries.push(e)) == total_sum(entries) + e.size,
{
    reveal(tiled);
    reveal(holds_blocks);
    let l = entries.push(e);
    let n = entries.len() as int;
    lemma_sum_push(entries, e);
    assert forall|k: int| 0 <= k < entries.len() implies (#[trigger] entries[k]).size >= 0 by {}
    lemma_total_mono(entries, 0, n);
    assert(entries.take(0) =~= Seq::<Entry>::empty());
    assert(entries.take(n) == entries);
    assert forall|i: int| 0 <= i < l.len() implies (#[trigger] l[i]).start == total_sum(
        l.take(i),
    ) by {
        if i < n {
            assert(l.take(i) == entries.take(i));
            assert(entries[i].start == total_sum(entries.take(i)));
        } else {
            assert(l.take(i) == entries);
        }
    }
}

/// A sector that holds the blocks of its entries, of which the last is a
/// block, holds those of one more entry when a run of zeros lies after them.
pub proof fn lemma_append_zeros(bytes: Seq<u8>, entries: Seq<Entry>, e: Entry)
    requires
        holds_blocks(bytes, entries),
        e.start == total_sum(entries),
        e.tag.len() == 0,
        e.data.len() == 0,
        e.validity == VALIDITY_NOLONGER,
        !e.counted,
        1 <= e.size,
        e.start + e.size <= bytes.len(),
        forall|p: int| e.start <= p < e.start + e.size ==> bytes[p] == 0,
        entries.len() > 0 ==> entries.last().tag.len() > 0,
    ensures
        holds_blocks(bytes, entries.push(e)),
        total_sum(entries.push(e)) == total_sum(entries) + e.size,
{
    reveal(tiled);
    reveal(holds_blocks);
    let l = entries.push(e);
    let n = entries.len() as int;
    lemma_sum_push(entries, e);
    assert forall|k: int| 0 <= k < entries.len() implies (#[trigger] entries[k]).size >= 0 by {
        lemma_holds(bytes, entries, k);
    }
    lemma_total_mono(entries, 0, n);
    assert(entries.take(0) =~= Seq::<Entry>::empty());
    assert(entries.take(n) == entries);
    assert forall|i: int| 0 <= i < l.len() implies (#[trigger] l[i]).start == total_sum(
        l.take(i),
    ) by {
        if i < n {
            assert(l.take(i) == entries.take(i));
            assert(entries[i].start == total_sum(entries.take(i)));
        } else {
            assert(l.take(i) == entries);
        }
    }
    assert forall|i: int| 0 <= i < l.len() && (#[trigger] l[i]).tag.len() == 0 implies zeroed(
        bytes,
        l,
        i,
    ) by {
        if i < n {
            assert(zeroed(bytes, entries, i));
            if i > 0 {
                assert(l[i - 1] == entries[i - 1]);
            }
        }
    }
}

/// Whether each of the entries is valid.
pub open spec fn all_valid(entries: Seq<Entry>) -> bool {
    forall|k: int| 0 <= k < entries.len() ==> (#[trigger] entries[k]).validity == VALIDITY_VALID
}

/// Whether none of the entries is valid.
pub open spec fn none_valid(entries: Seq<Entry>) -> bool {
    forall|k: int| 0 <= k < entries.len() ==> (#[trigger] entries[k]).validity != VALIDITY_VALID
}

/// Where only the valid entries are counted, the counted sum is nothing if
/// none is valid and all if all are.
pub proof fn lemma_counted_all_or_none(entries: Seq<Entry>)
    requires
        forall|k: int|
            0 <= k < entries.len() ==> (#[trigger] entries[k]).counted == (entries[k].validity
                == VALIDITY_VALID),
    ensures
        none_valid(entries) ==> counted_sum(entries) == 0,
        all_valid(entries) ==> counted_sum(entries) == total_sum(entries),
    decreases entries.len(),
{
    if entries.len() > 0 {
        lemma_counted_all_or_none(entries.drop_last());
        if none_valid(entries) {
            assert(none_valid(entries.drop_last()));
        }
        if all_valid(entries) {
            assert(all_valid(entries.drop_last()));
        }
    }
}

/// Persistent pseudo-hashmap on top of the flash
pub struct FileSystem<'a> {
    /// The flash
    flash: Flash<'a>,
    /// List of sectors to be used by the filesystem
    sectors: Vec<Sector>,
    /// Identifier of the sector reserved for defragmenting
    defragsector: SectorID,
    /// Identifier of the sector reserved for applets
    appletsector: SectorID,
    /// Set of the files found
    files: HashSet<File>,
    /// Pointers to the location of the first bytes to be put for new blocks on
    /// each sector
    next_blocks: Vec<usize>,
    /// Size of blocks that are actually useful on each sector
    valid_sizes: Vec<usize>,
    /// The blocks that each sector is taken to hold
    layout: Ghost<Seq<Seq<Entry>>>,
}

impl File {
    /// Index in the sector of the header of the block of the file, as it is
    /// computed from where the tag is.
    pub closed spec fn header_at(&self) -> int {
        self.tag.first() - lenlen(self.data.size()) - 1
    }

    /// Whether the entry `e` is the block of the file.
    pub closed spec fn owns(&self, e: Entry) -> bool {
        &&& e.validity == VALIDITY_VALID
        &&& e.tag == self.key@
        &&& e.size == self.size
        &&& e.start <= self.header_at()
        &&& self.tag.size() == self.key@.len()
        &&& self.data.first() == self.tag.first() + self.tag.size()
        &&& self.data.first() + self.data.size() < e.start + e.size
    }

    /// Whether the file lies in the entry `e` as a block that this
    /// filesystem has written does.
    pub closed spec fn fits(&self, e: Entry) -> bool {
        &&& self.header_at() == e.start
        &&& self.data.size() == e.data.len()
    }
}

impl<'a> FileSystem<'a> {
    /// The flash of the filesystem.
    pub closed spec fn storage(&self) -> Flash<'a> {
        self.flash
    }

    /// Number of sectors of the filesystem.
    pub closed spec fn sector_count(&self) -> int {
        self.sectors@.len() as int
    }

    /// The `i`-th sector of the filesystem.
    pub closed spec fn sector_at(&self, i: int) -> Sector {
        self.sectors@[i]
    }

    /// The sector reserved for defragmenting.
    pub closed spec fn defrag(&self) -> int {
        self.defragsector.0 as int
    }

    /// The sector reserved for applets.
    pub closed spec fn applet(&self) -> int {
        self.appletsector.0 as int
    }

    /// Where the next block of the `i`-th sector goes.
    pub closed spec fn next_block_at(&self, i: int) -> int {
        self.next_blocks@[i] as int
    }

    /// Size of the blocks of the `i`-th sector that are taken to be valid.
    pub closed spec fn valid_size_at(&self, i: int) -> int {
        self.valid_sizes@[i] as int
    }

    /// The blocks that each sector is taken to hold.
    pub closed spec fn layout(&self) -> Seq<Seq<Entry>> {
        self.layout@
    }

    /// What the `i`-th sector holds.
    pub open spec fn bytes(&self, i: int) -> Seq<u8> {
        self.storage().bytes(self.sector_at(i).index())
    }

    /// How far blocks can go in the `i`-th sector: to its end, but for the
    /// sector reserved for defragmenting, whose last byte names the sector
    /// that is being defragmented.
    pub open spec fn limit(&self, i: int) -> int {
        if i == self.defrag() {
            self.sector_at(i).length() - 1
        } else {
            self.sector_at(i).length()
        }
    }

    /// The filesystem as a map from the tags to the data of the files.
    pub closed spec fn view(&self) -> Map<Seq<u8>, Seq<u8>> {
        Map::new(
            |t: Seq<u8>| self.files.has_key(key_words(t)),
            |t: Seq<u8>| self.files.entry(key_words(t)).data.bytes(&self.flash),
        )
    }

    /// The flash, the sectors and the counters agree.
    #[verifier::opaque]
    pub closed spec fn structure_ok(&self) -> bool {
        &&& self.flash.wf()
        &&& !self.flash.writing()
        &&& 1 <= self.sectors@.len() <= SECTORS_LIMIT
        &&& self.next_blocks@.len() == self.sectors@.len()
        &&& self.valid_sizes@.len() == self.sectors@.len()
        &&& self.layout@.len() == self.sectors@.len()
        &&& self.defragsector.0 < self.sectors@.len()
        &&& self.appletsector.0 < self.sectors@.len()
        &&& forall|i: int|
            0 <= i < self.sectors@.len() ==> {
                &&& self.flash.has(#[trigger] self.sectors@[i])
                &&& 4 <= self.sectors@[i].length() < SECTOR_LIMIT
                &&& self.next_blocks@[i] <= self.limit(i)
            }
        &&& forall|i: int, j: int|
            0 <= i < self.sectors@.len() && 0 <= j < self.sectors@.len() && i != j ==> (
            #[trigger] self.sectors@[i]).index() != (#[trigger] self.sectors@[j]).index()
    }

    /// The entries of each sector lie in order before the place of the next
    /// block, none upon another, and the valid size of the sector is the sum
    /// of those that are counted.
    #[verifier::opaque]
    pub closed spec fn layout_ok(&self) -> bool {
        &&& forall|s: int, k: int|
            0 <= s < self.layout@.len() && 0 <= k < self.layout@[s].len() ==> {
                &&& 0 <= (#[trigger] self.layout@[s][k]).start
                &&& 1 <= self.layout@[s][k].size
                &&& self.layout@[s][k].start + self.layout@[s][k].size <= self.next_blocks@[s]
                &&& self.layout@[s][k].validity == VALIDITY_VALID ==> self.layout@[s][k].counted
            }
        &&& forall|s: int, j: int, k: int|
            0 <= s < self.layout@.len() && 0 <= j < k < self.layout@[s].len() ==> (
            #[trigger] self.layout@[s][j]).start + self.layout@[s][j].size <= (
            #[trigger] self.layout@[s][k]).start
        &&& forall|s: int|
            0 <= s < self.layout@.len() ==> self.valid_sizes@[s] == counted_sum(
                #[trigger] self.layout@[s],
            )
    }

    /// Each file of the set is the block of a valid entry of its sector, and
    /// each valid entry is the block of the file that has its tag.
    #[verifier::opaque]
    pub closed spec fn files_ok(&self) -> bool {
        &&& self.files.wf()
        &&& forall|f: File| #[trigger]
            self.files.contains(f) ==> {
                &&& f.sector.0 < self.sectors@.len()
                &&& f.tag.sector_spec() == self.sectors@[f.sector.0 as int]
                &&& f.data.sector_spec() == self.sectors@[f.sector.0 as int]
                &&& f.header_at() >= 0
                &&& exists|k: int|
                    0 <= k < self.layout@[f.sector.0 as int].len() && f.owns(
                        #[trigger] self.layout@[f.sector.0 as int][k],
                    )
            }
        &&& forall|s: int, k: int|
            0 <= s < self.layout@.len() && 0 <= k < self.layout@[s].len() && (
            #[trigger] self.layout@[s][k]).validity == VALIDITY_VALID ==> {
                &&& self.files.has_key(key_words(self.layout@[s][k].tag))
                &&& self.files.entry(key_words(self.layout@[s][k].tag)).sector.0 == s
                &&& self.files.entry(key_words(self.layout@[s][k].tag)).owns(self.layout@[s][k])
            }
    }

    /// The locks that are held on a sector of the filesystem are those of
    /// the tags and of the data of its files.
    #[verifier::opaque]
    pub closed spec fn locks_ok(&self) -> bool {
        forall|s: int, l: Lock|
            0 <= s < self.sectors@.len() ==> (#[trigger] self.flash.holds(
                self.sectors@[s].index(),
                l,
            ) <==> exists|f: File| #[trigger]
                self.files.contains(f) && f.sector.0 == s && (l == f.tag.lock() || l
                    == f.data.lock()))
    }

    /// What holds of every filesystem.
    pub open spec fn wf(&self) -> bool {
        &&& self.structure_ok()
        &&& self.layout_ok()
        &&& self.files_ok()
        &&& self.locks_ok()
    }

    /// The flash holds the blocks that the filesystem takes it to hold: each
    /// sector holds the blocks of its entries, the place of the next block is
    /// after the last entry, and each file lies in its entry as it was
    /// written.
    #[verifier::opaque]
    pub closed spec fn blocks_ok(&self) -> bool {
        &&& forall|s: int|
            0 <= s < self.sectors@.len() ==> {
                &&& holds_blocks(#[trigger] self.bytes(s), self.layout@[s])
                &&& self.next_blocks@[s] == total_sum(self.layout@[s])
            }
        &&& forall|f: File, k: int|
            #![trigger self.files.contains(f), self.layout@[f.sector.0 as int][k]]
            self.files.contains(f) && 0 <= k < self.layout@[f.sector.0 as int].len() && f.owns(
                self.layout@[f.sector.0 as int][k],
            ) ==> f.fits(self.layout@[f.sector.0 as int][k])
    }

    /// Each sector is erased from the place of its next block on.
    #[verifier::opaque]
    pub closed spec fn tails_ok(&self) -> bool {
        forall|s: int|
            0 <= s < self.sectors@.len() ==> erased_from(
                #[trigger] self.bytes(s),
                self.next_blocks@[s] as int,
                self.limit(s),
            )
    }

    /// The flash holds what the filesystem takes it to hold.
    pub open spec fn consistent(&self) -> bool {
        self.blocks_ok() && self.tails_ok()
    }

    /// No defragmentation is going on: the sector reserved for it is erased,
    /// and it can take the valid blocks of any other sector.
    #[verifier::opaque]
    pub closed spec fn idle(&self) -> bool {
        &&& self.next_blocks@[self.defragsector.0 as int] == 0
        &&& self.bytes(self.defrag())[self.sector_at(self.defrag()).length() - 1] == 0xFF
        &&& forall|s: int|
            0 <= s < self.sectors@.len() && s != self.defragsector.0 ==> (
            #[trigger] self.valid_sizes@[s]) <= self.sectors@[self.defragsector.0 as int].length()
                - 1
    }

    /// What holds of a filesystem whose flash was formatted when it was made.
    pub open spec fn inv(&self) -> bool {
        &&& self.wf()
        &&& self.consistent()
        &&& self.idle()
    }

    /// Returns the sector at the requested SectorID, which has to be a valid
    /// one
    pub fn sector(&self, sid: SectorID) -> (s: Sector)
        requires
            sid.0 < self.sector_count(),
        ensures
            s == self.sector_at(sid.0 as int),
    {
        self.sectors[sid.0]
    }

    /// Returns a list of all available SectorID's
    pub fn sector_ids(&self) -> (r: Vec<SectorID>)
        ensures
            r@.len() == self.sector_count(),
            forall|i: int| 0 <= i < r@.len() ==> (#[trigger] r@[i]).0 == i,
    {
        let mut r: Vec<SectorID> = Vec::new();
        let mut i: usize = 0;
        while i < self.sectors.len()
            invariant
                i <= self.sectors@.len(),
                r@.len() == i,
                forall|j: int| 0 <= j < i ==> (#[trigger] r@[j]).0 == j,
            decreases self.sectors@.len() - i,
        {
            r.push(SectorID(i));
            i += 1;
        }
        r
    }

    /// Returns a pair of all (SectorID, Sector) available
    pub fn sectors_with_ids(&self) -> (r: Vec<(SectorID, Sector)>)
        ensures
            r@.len() == self.sector_count(),
            forall|i: int|
                0 <= i < r@.len() ==> (#[trigger] r@[i]).0.0 == i && r@[i].1 == self.sector_at(i),
    {
        let mut r: Vec<(SectorID, Sector)> = Vec::new();
        let mut i: usize = 0;
        while i < self.sectors.len()
            invariant
                i <= self.sectors@.len(),
                r@.len() == i,
                forall|j: int|
                    0 <= j < i ==> (#[trigger] r@[j]).0.0 == j && r@[j].1 == self.sectors@[j],
            decreases self.sectors@.len() - i,
        {
            r.push((SectorID(i), self.sectors[i]));
            i += 1;
        }
        r
    }

    /// Returns a pointer to the next block for a requested SectorID, which
    /// has to be a valid one
    pub fn next_block(&self, sid: SectorID) -> (r: usize)
        requires
            self.wf(),
            sid.0 < self.sector_count(),
        ensures
            r == self.next_block_at(sid.0 as int),
    {
        proof {
            reveal(FileSystem::structure_ok);
        }
        self.next_blocks[sid.0]
    }

    /// Returns the valid size for a requested SectorID, which has to be a
    /// valid one
    pub fn valid_size(&self, sid: SectorID) -> (r: usize)
        requires
            self.wf(),
            sid.0 < self.sector_count(),
        ensures
            r == self.valid_size_at(sid.0 as int),
    {
        proof {
            reveal(FileSystem::structure_ok);
        }
        self.valid_sizes[sid.0]
    }

    /// The flash of the filesystem
    pub fn flash(&self) -> (f: &Flash<'a>)
        ensures
            *f == self.storage(),
    {
        &self.flash
    }

    /// The sector reserved for defragmenting
    pub fn defrag_sector(&self) -> (s: SectorID)
        ensures
            s.0 == self.defrag(),
    {
        self.defragsector
    }

    /// The sector reserved for applets
    pub fn applet_sector(&self) -> (s: SectorID)
        ensures
            s.0 == self.applet(),
    {
        self.appletsector
    }

    /// What the structure of a filesystem gives.
    pub proof fn lemma_structure(&self)
        requires
            self.wf(),
        ensures
            self.storage().wf(),
            !self.storage().writing(),
            1 <= self.sector_count() <= SECTORS_LIMIT,
            self.layout().len() == self.sector_count(),
            0 <= self.defrag() < self.sector_count(),
            0 <= self.applet() < self.sector_count(),
            forall|i: int|
                0 <= i < self.sector_count() ==> {
                    &&& self.storage().has(#[trigger] self.sector_at(i))
                    &&& 4 <= self.sector_at(i).length() < SECTOR_LIMIT
                },
            forall|i: int, j: int|
                0 <= i < self.sector_count() && 0 <= j < self.sector_count() && i != j ==> (
                #[trigger] self.sector_at(i)).index() != (#[trigger] self.sector_at(j)).index(),
    {
        reveal(FileSystem::structure_ok);
        reveal(FileSystem::layout_ok);
        reveal(FileSystem::files_ok);
        reveal(FileSystem::locks_ok);
        reveal(FileSystem::blocks_ok);
        reveal(FileSystem::tails_ok);
        reveal(FileSystem::idle);
    }

    /// For all sectors, the valid size is at most the place of the next
    /// block, which is at most the length of the sector.
    pub proof fn lemma_sizes(&self, s: int)
        requires
            self.wf(),
            0 <= s < self.sector_count(),
        ensures
            0 <= self.valid_size_at(s) <= self.next_block_at(s) <= self.limit(s)
                <= self.sector_at(s).length(),
            self.valid_size_at(s) == counted_sum(self.layout()[s]),
    {
        reveal(FileSystem::structure_ok);
        reveal(FileSystem::layout_ok);
        reveal(FileSystem::files_ok);
        reveal(FileSystem::locks_ok);
        reveal(FileSystem::blocks_ok);
        reveal(FileSystem::tails_ok);
        reveal(FileSystem::idle);
        self.lemma_counted(s, self.layout@[s].len() as int);
        assert(self.layout@[s].take(self.layout@[s].len() as int) == self.layout@[s]);
    }

    /// The counted entries among the first `n` of a sector end before the
    /// `n`-th entry starts.
    proof fn lemma_counted(&self, s: int, n: int)
        requires
            self.structure_ok(),
            self.layout_ok(),
            0 <= s < self.sectors@.len(),
            0 <= n <= self.layout@[s].len(),
        ensures
            0 <= counted_sum(self.layout@[s].take(n)) <= total_sum(self.layout@[s].take(n)),
            n > 0 ==> total_sum(self.layout@[s].take(n)) <= self.layout@[s][n - 1].start
                + self.layout@[s][n - 1].size,
            total_sum(self.layout@[s].take(n)) <= self.next_blocks@[s],
        decreases n,
    {
        reveal(FileSystem::structure_ok);
        reveal(FileSystem::layout_ok);
        reveal(FileSystem::files_ok);
        reveal(FileSystem::locks_ok);
        reveal(FileSystem::blocks_ok);
        reveal(FileSystem::tails_ok);
        reveal(FileSystem::idle);
        let l = self.layout@[s];
        if n > 0 {
            self.lemma_counted(s, n - 1);
            assert(l.take(n).drop_last() == l.take(n - 1));
            assert(l.take(n).last() == l[n - 1]);
            if n > 1 {
                assert(l[n - 2].start + l[n - 2].size <= l[n - 1].start);
            }
            assert(0 <= l[n - 1].start);
        }
    }

    /// In a sector that no defragmentation has to do with, the valid size is
    /// at most what the sector reserved for defragmenting can take.
    pub proof fn lemma_defragmentable(&self, s: int)
        requires
            self.inv(),
            0 <= s < self.sector_count(),
            s != self.defrag(),
        ensures
            self.valid_size_at(s) <= self.sector_at(self.defrag()).length() - 1,
    {
        reveal(FileSystem::structure_ok);
        reveal(FileSystem::layout_ok);
        reveal(FileSystem::files_ok);
        reveal(FileSystem::locks_ok);
        reveal(FileSystem::blocks_ok);
        reveal(FileSystem::tails_ok);
        reveal(FileSystem::idle);
    }

    /// The file that has the tag `tag`.
    closed spec fn record(&self, tag: Seq<u8>) -> File {
        self.files.entry(key_words(tag))
    }

    /// The sector on which the file `tag` is.
    pub closed spec fn sector_of(&self, tag: Seq<u8>) -> int {
        self.record(tag).sector.0 as int
    }

    /// Size of the block of the file `tag`.
    pub closed spec fn size_of(&self, tag: Seq<u8>) -> int {
        self.record(tag).size as int
    }

    /// Which entry of its sector is the block of the file `tag`.
    pub closed spec fn slot_of(&self, tag: Seq<u8>) -> int {
        choose|k: int|
            0 <= k < self.layout@[self.sector_of(tag)].len() && self.record(tag).owns(
                #[trigger] self.layout@[self.sector_of(tag)][k],
            )
    }

    /// What the sector `s` gets back when the file `tag` is written anew: the
    /// size of the block of the file, if it is on that sector.
    pub open spec fn credit(&self, s: int, tag: Seq<u8>) -> int {
        if self@.dom().contains(tag) && self.sector_of(tag) == s {
            self.size_of(tag)
        } else {
            0
        }
    }

    /// Whether a block of `size` bytes can go on the sector `s`: there is
    /// enough space on the sector, and the sector can still be defragmented
    /// with it, when `credit` bytes of it are no longer valid.
    pub open spec fn room(&self, s: int, size: int, credit: int) -> bool {
        &&& self.next_block_at(s) + size <= self.sector_at(s).length()
        &&& self.valid_size_at(s) + size - credit <= self.sector_at(self.defrag()).length() - 1
    }

    /// The files of the set are those that the view has.
    proof fn lemma_view(&self)
        requires
            self.wf(),
        ensures
            forall|f: File| #[trigger]
                self.files.contains(f) ==> self@.dom().contains(f.key@) && self.record(f.key@) == f
                    && self@[f.key@] == f.data.bytes(&self.flash),
            forall|t: Seq<u8>| #[trigger]
                self@.dom().contains(t) ==> self.files.contains(self.record(t)) && self.record(
                    t,
                ).key@ == t,
    {
        reveal(FileSystem::files_ok);
        assert forall|f: File| #[trigger] self.files.contains(f) implies self@.dom().contains(
            f.key@,
        ) && self.record(f.key@) == f && self@[f.key@] == f.data.bytes(&self.flash) by {
            assert(self.files.has_key(key_words(f.key@)));
            self.files.lemma_unique(f, self.files.entry(key_words(f.key@)));
        }
        assert forall|t: Seq<u8>| #[trigger] self@.dom().contains(t) implies self.files.contains(
            self.record(t),
        ) && self.record(t).key@ == t by {
            lemma_key_words(self.record(t).key@, t);
        }
    }

    /// Where, under the structure of the filesystem, a file lies.
    proof fn lemma_file(&self, f: File) -> (k: int)
        requires
            self.wf(),
            self.files.contains(f),
        ensures
            0 <= f.sector.0 < self.sectors@.len(),
            0 <= k < self.layout@[f.sector.0 as int].len(),
            f.owns(self.layout@[f.sector.0 as int][k]),
            f.tag.valid_in(&self.flash),
            f.data.valid_in(&self.flash),
            f.tag.sector_spec() == self.sectors@[f.sector.0 as int],
            f.data.sector_spec() == self.sectors@[f.sector.0 as int],
            0 <= self.layout@[f.sector.0 as int][k].start <= f.header_at() < f.tag.first()
                <= f.data.first() <= f.data.first() + f.data.size() < self.layout@[f.sector.0 as int][k].start
                + self.layout@[f.sector.0 as int][k].size <= self.next_blocks@[f.sector.0 as int]
                <= self.sectors@[f.sector.0 as int].length(),
            f.size <= self.valid_sizes@[f.sector.0 as int],
            self.flash.holds(self.sectors@[f.sector.0 as int].index(), f.tag.lock()),
            self.flash.holds(self.sectors@[f.sector.0 as int].index(), f.data.lock()),
    {
        reveal(FileSystem::structure_ok);
        reveal(FileSystem::layout_ok);
        reveal(FileSystem::files_ok);
        reveal(FileSystem::locks_ok);
        reveal(FileSystem::blocks_ok);
        reveal(FileSystem::tails_ok);
        reveal(FileSystem::idle);
        let s = f.sector.0 as int;
        let k = choose|k: int| 0 <= k < self.layout@[s].len() && f.owns(#[trigger] self.layout@[s][k]);
        assert(0 <= self.layout@[s][k].start);
        f.tag.lemma_range();
        f.data.lemma_range();
        self.sectors@[s].lemma_range();
        assert forall|j: int| 0 <= j < self.layout@[s].len() implies (
        #[trigger] self.layout@[s][j]).size >= 0 by {}
        lemma_sum_member(self.layout@[s], k);
        assert(self.flash.has(self.sectors@[s]));
        k
    }

    /// Checks whether a given tag is present on the file system
    pub fn has_tag(&self, tag: &[u8]) -> (r: bool)
        requires
            self.wf(),
        ensures
            r == self@.dom().contains(tag@),
    {
        proof {
            reveal(FileSystem::structure_ok);
            reveal(FileSystem::files_ok);
        }
        proof {
            assert(tag.words() =~= key_words(tag@));
        }
        self.files.get(tag).is_some()
    }

    /// Retrieves data associated to a tag: a block on the data of the file,
    /// whose lock the filesystem holds.
    ///
    /// # Errors
    ///
    /// Errors if the tag does not exist in the filesystem
    pub fn read(&self, tag: &[u8]) -> (r: Result<FlashBlock, Error>)
        requires
            self.wf(),
        ensures
            match r {
                Ok(b) => {
                    &&& self@.dom().contains(tag@)
                    &&& b.valid_in(&self.storage())
                    &&& b.bytes(&self.storage()) == self@[tag@]
                    &&& b.sector_spec() == self.sector_at(self.sector_of(tag@))
                },
                Err(e) => e == Error::NoSuchTag && !self@.dom().contains(tag@),
            },
    {
        proof {
            reveal(FileSystem::structure_ok);
            reveal(FileSystem::files_ok);
        }
        proof {
            assert(tag.words() =~= key_words(tag@));
            self.lemma_view();
        }
        match self.files.get(tag) {
            None => Err(Error::NoSuchTag),
            Some(v) => {
                proof {
                    self.lemma_file(*v);
                    lemma_key_words(v.key@, tag@);
                }
                Ok(v.data.duplicate(&self.flash))
            },
        }
    }

    /// Whether a block of `size` bytes can go on a sector: there is enough
    /// space on the sector, and the sector can still be defragmented with it,
    /// when `credit` bytes of it are no longer valid.
    fn has_room(&self, sector: SectorID, size: usize, credit: usize) -> (r: bool)
        requires
            self.wf(),
            sector.0 < self.sector_count(),
            credit <= self.valid_size_at(sector.0 as int),
        ensures
            r == self.room(sector.0 as int, size as int, credit as int),
    {
        proof {
            reveal(FileSystem::structure_ok);
            reveal(FileSystem::layout_ok);
            reveal(FileSystem::files_ok);
            reveal(FileSystem::locks_ok);
            reveal(FileSystem::blocks_ok);
            reveal(FileSystem::tails_ok);
            reveal(FileSystem::idle);
        }
        proof {
            self.lemma_sizes(sector.0 as int);
        }
        let length = self.sectors[sector.0].len();
        // If there is enough space on the sector
        if size > length - self.next_blocks[sector.0] {
            return false;
        }
        // And adding the file wouldn't make it go over the defragmentable size
        let defragsize = self.sectors[self.defragsector.0].len() - 1;
        let kept = self.valid_sizes[sector.0] - credit;
        kept <= defragsize && size <= defragsize - kept
    }

    /// Whether the block of the file `tag`, of `size` bytes, can go on a
    /// sector, which it may be on already
    pub fn is_available(&self, sector: SectorID, size: usize, tag: &[u8]) -> (r: bool)
        requires
            self.wf(),
            sector.0 < self.sector_count(),
        ensures
            r == self.room(sector.0 as int, size as int, self.credit(sector.0 as int, tag@)),
    {
        proof {
            reveal(FileSystem::structure_ok);
            reveal(FileSystem::files_ok);
        }
        proof {
            assert(tag.words() =~= key_words(tag@));
            self.lemma_view();
        }
        let credit = match self.files.get(tag) {
            Some(f) => {
                proof {
                    self.lemma_file(*f);
                    lemma_key_words(f.key@, tag@);
                }
                if f.sector.0 == sector.0 {
                    f.size
                } else {
                    0
                }
            },
            None => 0,
        };
        self.has_room(sector, size, credit)
    }

    /// Returns an available sector for a given tag and size of the total
    /// block: the first one, of those that are reserved neither for
    /// defragmenting nor for applets.
    ///
    /// Tag is required for defragmentability reasons: no sector may exceed in
    /// valid size the size of the defrag sector, and the old tag will be
    /// marked as invalid, so knowing the tag to be written allows to store
    /// potentially more data in a sector
    ///
    /// # Errors
    ///
    /// Errors if there is not enough space available on any sector
    pub fn available_sector(&self, size: usize, tag: &[u8]) -> (r: Result<SectorID, Error>)
        requires
            self.wf(),
        ensures
            match r {
                Ok(id) => {
                    &&& id.0 < self.sector_count()
                    &&& self.takes(id.0 as int, size as int, tag@)
                    &&& forall|j: int| 0 <= j < id.0 ==> !self.takes(j, size as int, tag@)
                },
                Err(e) => e == Error::OutOfFlash && forall|j: int|
                    0 <= j < self.sector_count() ==> !self.takes(j, size as int, tag@),
            },
    {
        let mut i: usize = 0;
        while i < self.sectors.len()
            invariant
                self.wf(),
                i <= self.sectors@.len(),
                forall|j: int| 0 <= j < i ==> !self.takes(j, size as int, tag@),
            decreases self.sectors@.len() - i,
        {
            // Don't put anything in the defrag or applet sector
            if i != self.defragsector.0 && i != self.appletsector.0 {
                // Check there is enough space on the sector
                if self.is_available(SectorID(i), size, tag) {
                    return Ok(SectorID(i));
                }
            }
            i += 1;
        }
        Err(Error::OutOfFlash)
    }

    /// Whether the sector `s` is one on which files are put, and the block
    /// of the file `tag`, of `size` bytes, can go on it.
    pub open spec fn takes(&self, s: int, size: int, tag: Seq<u8>) -> bool {
        &&& s != self.defrag()
        &&& s != self.applet()
        &&& self.room(s, size, self.credit(s, tag))
    }
}

/// What the header byte `h` becomes when its block is marked as no longer
/// valid.
pub open spec fn no_longer(h: u8) -> u8 {
    h & (h & (VALIDITY_NOLONGER | !VALIDITY_MASK))
}

/// The entry `e`, once its block is no longer valid.
pub open spec fn retired(e: Entry) -> Entry {
    Entry { validity: VALIDITY_NOLONGER, counted: false, ..e }
}

/// Marks the block whose header is at `hdrpos` of `sector` as no longer valid.
fn mark_no_longer_valid(flash: &mut Flash, sector: &Sector, hdrpos: usize) -> (r: Result<
    (),
    IOError,
>)
    requires
        old(flash).wf(),
        old(flash).has(*sector),
        !old(flash).writing(),
        hdrpos < sector.length(),
        !old(flash).conflicts(sector.index(), Lock { write: true, start: hdrpos, length: 1 }),
    ensures
        final(flash).wf(),
        !final(flash).writing(),
        final(flash).same_but_locks(*old(flash), -1),
        final(flash).same_but_bytes(*old(flash), sector.index()),
        r is Ok,
        final(flash).bytes(sector.index()) == old(flash).bytes(sector.index()).update(
            hdrpos as int,
            no_longer(old(flash).bytes(sector.index())[hdrpos as int]),
        ),
{
    proof {
        sector.lemma_range();
        old(flash).lemma_bytes_len(sector.index());
    }
    let ghost wl = Lock { write: true, start: hdrpos, length: 1 };
    match sector.with_writer(flash, hdrpos, 1) {
        Err(e) => Err(e),
        Ok(b) => {
            proof {
                b.lemma_range();
                flash.lemma_bytes_len(sector.index());
            }
            let header = b.as_slice(flash)[0];
            let val = header & (VALIDITY_NOLONGER | !VALIDITY_MASK);
            let w = b.write(flash, 0, val);
            b.release(flash);
            proof {
                assert(!old(flash).holds(sector.index(), wl)) by {
                    if old(flash).holds(sector.index(), wl) {
                        assert(crate::flash::incompatible(wl, wl));
                    }
                }
            }
            w
        },
    }
}

/// What writing the block for `tag` and `data` at `base` leaves where the
/// bytes were erased: the block, valid. The bytes are those after each step
/// of the writing.
proof fn lemma_written(
    r0: Seq<u8>,
    base: int,
    tag: Seq<u8>,
    data: Seq<u8>,
    s1: Seq<u8>,
    s2: Seq<u8>,
    s3: Seq<u8>,
    s4: Seq<u8>,
    c: u8,
    s5: Seq<u8>,
    s6: Seq<u8>,
)
    requires
        encodable(tag.len() as int, data.len() as int),
        0 <= base,
        base + block_size(tag.len() as int, data.len() as int) <= r0.len(),
        erased_from(r0, base, base + block_size(tag.len() as int, data.len() as int)),
        s1 == r0.update(base, r0[base] & header(VALIDITY_NOTYET, tag.len() as int, data.len() as int)),
        s2 == and_range(s1, base + 1, length_field(data.len() as int)),
        s3 == and_range(s2, base + 1 + lenlen(data.len() as int), tag),
        s4 == and_range(s3, base + 1 + lenlen(data.len() as int) + tag.len(), data),
        c == crc8_spec(
            s4[base] & !VALIDITY_MASK,
            s4.subrange(base + 1, base + 1 + lenlen(data.len() as int) + tag.len() + data.len()),
        ),
        s5 == s4.update(
            base + 1 + lenlen(data.len() as int) + tag.len() + data.len(),
            s4[base + 1 + lenlen(data.len() as int) + tag.len() + data.len()] & c,
        ),
        s6 == s5.update(base, s5[base] & (s5[base] & (VALIDITY_VALID | !VALIDITY_MASK))),
    ensures
        s6.subrange(base, base + block_size(tag.len() as int, data.len() as int)) == image(
            VALIDITY_VALID,
            tag,
            data,
        ),
        s5.subrange(base, base + block_size(tag.len() as int, data.len() as int)) == image(
            VALIDITY_NOTYET,
            tag,
            data,
        ),
{
    let taglen = tag.len() as int;
    let datalen = data.len() as int;
    let size = block_size(taglen, datalen);
    let i = 1 + lenlen(datalen);
    let end = i + taglen + datalen;
    let h1 = header(VALIDITY_NOTYET, taglen, datalen);
    let field = length_field(datalen);
    crate::format::lemma_header(VALIDITY_NOTYET, taglen, datalen);
    crate::format::lemma_image_parts(VALIDITY_VALID, tag, data);
    assert(field.len() == lenlen(datalen));
    assert(s1[base] == h1);
    crate::flash::lemma_and_range_blank(s1, base + 1, field);
    assert forall|j: int| 0 <= j < field.len() implies s2[base + 1 + j] == field[j] by {}
    crate::flash::lemma_and_range_blank(s2, base + i, tag);
    assert forall|j: int| 0 <= j < taglen implies s3[base + i + j] == tag[j] by {}
    crate::flash::lemma_and_range_blank(s3, base + i + taglen, data);
    assert forall|j: int| 0 <= j < datalen implies s4[base + i + taglen + j] == data[j] by {}
    assert(s4[base] == h1);
    assert(s4.subrange(base + 1, base + end) =~= body(tag, data));
    crate::flash::lemma_and_byte(c);
    assert(s4[base + end] == 0xFF);
    assert(s5[base + end] == c);
    assert(s6[base] == header(VALIDITY_VALID, taglen, datalen));
    let img = image(VALIDITY_VALID, tag, data);
    let got = s6.subrange(base, base + size);
    assert forall|j: int| 0 <= j < size implies got[j] == img[j] by {
        if j == 0 {
        } else if j < i {
            assert(img[j] == img.subrange(1, i)[j - 1]);
            assert(got[j] == s2[base + 1 + (j - 1)]);
        } else if j < i + taglen {
            assert(img[j] == img.subrange(i, i + taglen)[j - i]);
            assert(got[j] == s3[base + i + (j - i)]);
        } else if j < end {
            assert(img[j] == img.subrange(i + taglen, end)[j - i - taglen]);
            assert(got[j] == s4[base + i + taglen + (j - i - taglen)]);
        } else {
        }
    }
    assert(got =~= img);
    crate::format::lemma_image_validity(VALIDITY_VALID, VALIDITY_NOTYET, tag, data);
    assert(s5[base] == h1);
    assert(s5.subrange(base, base + size) =~= img.update(0, h1));
}

/// Writes the block for `tag` and `data` in `b`, which is as long as the
/// block, in two steps: the block is written whole as one that is not yet
/// valid, and only then made valid.
fn write_image(flash: &mut Flash, b: &FlashBlockMut, tag: &[u8], data: &[u8]) -> (r: Result<
    (),
    IOError,
>)
    requires
        old(flash).wf(),
        old(flash).writing(),
        b.valid_in(old(flash)),
        encodable(tag@.len() as int, data@.len() as int),
        b.size() == block_size(tag@.len() as int, data@.len() as int),
    ensures
        final(flash).wf(),
        final(flash).writing(),
        final(flash).same_but_locks(*old(flash), -1),
        final(flash).same_but_bytes(*old(flash), b.sector_spec().index()),
        r is Ok,
        forall|p: int|
            0 <= p < b.sector_spec().length() && !(b.first() <= p < b.first() + b.size())
                ==> final(flash).bytes(b.sector_spec().index())[p] == old(flash).bytes(
                b.sector_spec().index(),
            )[p],
        erased_from(
            old(flash).bytes(b.sector_spec().index()),
            b.first(),
            b.first() + b.size(),
        ) ==> final(flash).bytes(b.sector_spec().index()).subrange(
            b.first(),
            b.first() + b.size(),
        ) == image(VALIDITY_VALID, tag@, data@),
{
    let ghost idx = b.sector_spec().index();
    let ghost before = *flash;
    let pending = write_pending(flash, b, tag, data);
    let ghost mid = *flash;
    let r = validate(flash, b, Ghost(tag@), Ghost(data@));
    proof {
        assert forall|j: int|
            0 <= j < flash.sector_count() && j != idx implies #[trigger] flash.bytes(j)
            == before.bytes(j) by {
            assert(mid.bytes(j) == before.bytes(j));
        }
    }
    r
}

/// Makes valid the block in `b`, which has been written whole as one that
/// is not yet valid: the bits of its header that say so are cleared.
fn validate(flash: &mut Flash, b: &FlashBlockMut, Ghost(tag): Ghost<Seq<u8>>, Ghost(data): Ghost<
    Seq<u8>,
>) -> (r: Result<(), IOError>)
    requires
        old(flash).wf(),
        old(flash).writing(),
        b.valid_in(old(flash)),
        encodable(tag.len() as int, data.len() as int),
        b.size() == block_size(tag.len() as int, data.len() as int),
    ensures
        final(flash).wf(),
        final(flash).writing(),
        final(flash).same_but_locks(*old(flash), -1),
        final(flash).same_but_bytes(*old(flash), b.sector_spec().index()),
        r is Ok,
        forall|p: int|
            0 <= p < b.sector_spec().length() && p != b.first() ==> final(flash).bytes(
                b.sector_spec().index(),
            )[p] == old(flash).bytes(b.sector_spec().index())[p],
        old(flash).bytes(b.sector_spec().index()).subrange(b.first(), b.first() + b.size())
            == image(VALIDITY_NOTYET, tag, data) ==> final(flash).bytes(
            b.sector_spec().index(),
        ).subrange(b.first(), b.first() + b.size()) == image(VALIDITY_VALID, tag, data),
{
    let ghost idx = b.sector_spec().index();
    let ghost base = b.first();
    let ghost s5 = flash.bytes(idx);
    proof {
        b.lemma_range();
        b.sector_spec().lemma_range();
        flash.lemma_bytes_len(idx);
        crate::format::lemma_image_parts(VALIDITY_NOTYET, tag, data);
    }
    let first = b.as_slice(flash)[0];
    let w = b.write(flash, 0, first & (VALIDITY_VALID | !VALIDITY_MASK));
    proof {
        flash.lemma_bytes_len(idx);
        let s6 = flash.bytes(idx);
        let size = b.size();
        if s5.subrange(base, base + size) == image(VALIDITY_NOTYET, tag, data) {
            crate::format::lemma_header(VALIDITY_NOTYET, tag.len() as int, data.len() as int);
            crate::format::lemma_image_validity(VALIDITY_NOTYET, VALIDITY_VALID, tag, data);
            assert(s5[base] == s5.subrange(base, base + size)[0]);
            assert(s6.subrange(base, base + size) =~= image(VALIDITY_NOTYET, tag, data).update(
                0,
                header(VALIDITY_VALID, tag.len() as int, data.len() as int),
            ));
        }
    }
    w
}

/// Writes the block for `tag` and `data` in `b`, which is as long as the
/// block, as one that is not yet valid: the header first, then the length of
/// the data, the tag, the data and the checksum of what has been written.
fn write_pending(flash: &mut Flash, b: &FlashBlockMut, tag: &[u8], data: &[u8]) -> (r: Result<
    (),
    IOError,
>)
    requires
        old(flash).wf(),
        old(flash).writing(),
        b.valid_in(old(flash)),
        encodable(tag@.len() as int, data@.len() as int),
        b.size() == block_size(tag@.len() as int, data@.len() as int),
    ensures
        final(flash).wf(),
        final(flash).writing(),
        final(flash).same_but_locks(*old(flash), -1),
        final(flash).same_but_bytes(*old(flash), b.sector_spec().index()),
        r is Ok,
        forall|p: int|
            0 <= p < b.sector_spec().length() && !(b.first() <= p < b.first() + b.size())
                ==> final(flash).bytes(b.sector_spec().index())[p] == old(flash).bytes(
                b.sector_spec().index(),
            )[p],
        erased_from(
            old(flash).bytes(b.sector_spec().index()),
            b.first(),
            b.first() + b.size(),
        ) ==> final(flash).bytes(b.sector_spec().index()).subrange(
            b.first(),
            b.first() + b.size(),
        ) == image(VALIDITY_NOTYET, tag@, data@),
{
    let ghost idx = b.sector_spec().index();
    let ghost base = b.first();
    let ghost r0 = flash.bytes(idx);
    let datalen = data.len();
    proof {
        b.lemma_range();
        b.sector_spec().lemma_range();
        flash.lemma_bytes_len(idx);
    }
    // Write the header
    let mut i: usize = 0;
    if datalen <= 0xFF {
        let w = b.write(flash, i, VALIDITY_NOTYET | ((tag.len() as u8) << TAGLEN_SHIFT) | LENLEN_SHORT);
        let ghost s1 = flash.bytes(idx);
        proof {
            flash.lemma_bytes_len(idx);
        }
        let w = b.write(flash, i + 1, datalen as u8);
        proof {
            flash.lemma_bytes_len(idx);
            assert(flash.bytes(idx) =~= and_range(s1, base + 1, length_field(datalen as int)));
        }
        i += 2;
    } else {
        let w = b.write(flash, i, VALIDITY_NOTYET | ((tag.len() as u8) << TAGLEN_SHIFT) | LENLEN_LONG);
        proof {
            flash.lemma_bytes_len(idx);
        }
        let d = datalen as u32;
        let field = vec![
            (d >> 24) as u8,
            ((d >> 16) & 0xFF) as u8,
            ((d >> 8) & 0xFF) as u8,
            (d & 0xFF) as u8,
        ];
        proof {
            assert(d >> 24 <= 0xFF) by (bit_vector);
            assert(field@ =~= length_field(datalen as int));
        }
        let w = b.write_block(flash, i + 1, field.as_slice());
        proof {
            flash.lemma_bytes_len(idx);
        }
        i += 5;
    }
    let ghost s1 = r0.update(
        base,
        r0[base] & header(VALIDITY_NOTYET, tag@.len() as int, data@.len() as int),
    );
    let ghost s2 = flash.bytes(idx);
    // Then the tag and the data
    let w = b.write_block(flash, i, tag);
    let ghost s3 = flash.bytes(idx);
    proof {
        flash.lemma_bytes_len(idx);
    }
    i += tag.len();
    let w = b.write_block(flash, i, data);
    let ghost s4 = flash.bytes(idx);
    proof {
        flash.lemma_bytes_len(idx);
    }
    i += data.len();
    // The footer
    let written = b.as_slice(flash);
    proof {
        assert(written@.subrange(1, i as int) =~= s4.subrange(base + 1, base + i));
    }
    let crc = crc8(written[0] & !VALIDITY_MASK, slice_subrange(written, 1, i));
    let w = b.write(flash, i, crc);
    let ghost s5 = flash.bytes(idx);
    proof {
        flash.lemma_bytes_len(idx);
        let s6 = s5.update(base, s5[base] & (s5[base] & (VALIDITY_VALID | !VALIDITY_MASK)));
        if erased_from(r0, base, base + b.size()) {
            lemma_written(r0, base, tag@, data@, s1, s2, s3, s4, crc, s5, s6);
        }
    }
    w
}

/// Whether `end` is where what is written of a sector ends, at or after
/// `from`: all that follows is erased, and the byte before, if it is not
/// before `from`, is not.
pub open spec fn used_end(bytes: Seq<u8>, from: int, end: int) -> bool {
    &&& from <= end <= bytes.len()
    &&& forall|p: int| end <= p < bytes.len() ==> bytes[p] == 0xFF
    &&& end == from || bytes[end - 1] != 0xFF
}

/// Writes `0x00`'s up to the last non-`0xFF` byte of the sector, starting
/// with `from`
///
/// # Errors
///
/// Errors if `from` is not in the sector, if the flash is open in writing,
/// or if a lock is held after `from`.
pub fn erase_invalid_data(flash: &mut Flash, s: &Sector, from: usize) -> (r: Result<(), IOError>)
    requires
        old(flash).wf(),
        old(flash).has(*s),
    ensures
        final(flash).wf(),
        final(flash).same_but_locks(*old(flash), -1),
        final(flash).same_but_bytes(*old(flash), s.index()),
        final(flash).writing() == old(flash).writing(),
        match r {
            Ok(()) => {
                &&& from < s.length()
                &&& !old(flash).writing()
                &&& !old(flash).conflicts(
                    s.index(),
                    Lock { write: true, start: from, length: (s.length() - from) as usize },
                )
                &&& exists|end: int|
                    used_end(old(flash).bytes(s.index()), from as int, end) && final(flash).bytes(
                        s.index(),
                    ) == and_range(
                        old(flash).bytes(s.index()),
                        from as int,
                        zeros((end - from) as nat),
                    )
            },
            Err(e) => {
                &&& final(flash).bytes(s.index()) == old(flash).bytes(s.index())
                &&& if from >= s.length() {
                    e == IOError::OutOfBounds
                } else {
                    e == IOError::LockedError && (old(flash).writing() || old(flash).conflicts(
                        s.index(),
                        Lock { write: true, start: from, length: (s.length() - from) as usize },
                    ))
                }
            },
        },
{
    proof {
        s.lemma_range();
        old(flash).lemma_bytes_len(s.index());
    }
    if from >= s.len() {
        return Err(IOError::OutOfBounds);
    }
    let ghost wl = Lock { write: true, start: from, length: (s.length() - from) as usize };
    // Lock the block in writing immediately, to avoid TOCTOU
    let b = match s.with_writer(flash, from, s.len() - from) {
        Ok(b) => b,
        Err(e) => {
            return Err(e);
        },
    };
    proof {
        b.lemma_range();
        flash.lemma_bytes_len(s.index());
    }
    let bytes = b.as_slice(flash);
    let mut end = s.len() - from;
    while end > 0 && bytes[end - 1] == 0xFF
        invariant
            end <= bytes@.len(),
            forall|p: int| end <= p < bytes@.len() ==> bytes@[p] == 0xFF,
        decreases end,
    {
        end -= 1;
    }
    let ghost before = flash.bytes(s.index());
    proof {
        assert(used_end(before, from as int, from + end)) by {
            assert forall|p: int| from + end <= p < before.len() implies before[p] == 0xFF by {
                assert(bytes@[p - from] == before[p]);
            }
            if end > 0 {
                assert(bytes@[end - 1] == before[from + end - 1]);
            }
        }
    }
    let w = b.zero_block(flash, 0, end);
    b.release(flash);
    proof {
        assert(!old(flash).holds(s.index(), wl)) by {
            if old(flash).holds(s.index(), wl) {
                assert(crate::flash::incompatible(wl, wl));
            }
        }
    }
    w
}

impl File {
    /// Gives the blocks of the file back.
    fn release(self, flash: &mut Flash)
        requires
            old(flash).wf(),
            old(flash).has(self.tag.sector_spec()),
            self.data.sector_spec() == self.tag.sector_spec(),
        ensures
            final(flash).wf(),
            final(flash).writing() == old(flash).writing(),
            final(flash).same_but_locks(*old(flash), self.tag.sector_spec().index()),
            final(flash).same_bytes(*old(flash)),
            forall|l: Lock|
                #![trigger final(flash).holds(self.tag.sector_spec().index(), l)]
                final(flash).holds(self.tag.sector_spec().index(), l) <==> (old(flash).holds(
                    self.tag.sector_spec().index(),
                    l,
                ) && l != self.tag.lock() && l != self.data.lock()),
    {
        self.tag.release(flash);
        self.data.release(flash);
    }
}

impl<'a> FileSystem<'a> {
    /// Index in its sector of the header of the block of the file `tag`.
    pub closed spec fn header_of(&self, tag: Seq<u8>) -> int {
        self.record(tag).header_at()
    }

    /// The filesystem has the sectors of `old`, and the same ones reserved.
    pub open spec fn same_sectors(&self, old: FileSystem) -> bool {
        &&& self.sector_count() == old.sector_count()
        &&& self.defrag() == old.defrag()
        &&& self.applet() == old.applet()
        &&& forall|i: int|
            #![trigger self.sector_at(i)]
            #![trigger old.sector_at(i)]
            0 <= i < self.sector_count() ==> self.sector_at(i) == old.sector_at(i)
    }

    /// The filesystem is `old` but for the file `tag`, which has been erased:
    /// its block is no longer valid, on flash as in the layout, and the valid
    /// size of its sector is less by its size.
    pub open spec fn erased(&self, old: FileSystem, tag: Seq<u8>) -> bool {
        let s = old.sector_of(tag);
        let k = old.slot_of(tag);
        &&& self@ == old@.remove(tag)
        &&& self.layout() == old.layout().update(
            s,
            old.layout()[s].update(k, retired(old.layout()[s][k])),
        )
        &&& forall|j: int|
            0 <= j < self.sector_count() ==> #[trigger] self.next_block_at(j)
                == old.next_block_at(j)
        &&& forall|j: int|
            0 <= j < self.sector_count() ==> #[trigger] self.valid_size_at(j)
                == old.valid_size_at(j) - if j == s {
                old.size_of(tag)
            } else {
                0
            }
        &&& forall|j: int|
            0 <= j < self.sector_count() && j != s ==> #[trigger] self.bytes(j) == old.bytes(j)
        &&& self.bytes(s) == old.bytes(s).update(
            old.header_of(tag),
            no_longer(old.bytes(s)[old.header_of(tag)]),
        )
        &&& forall|t: Seq<u8>|
            t != tag && old@.dom().contains(t) ==> #[trigger] self.sector_of(t) == old.sector_of(t)
    }

    /// Where the file `tag` has its block.
    pub proof fn lemma_slot(&self, tag: Seq<u8>)
        requires
            self.wf(),
            self@.dom().contains(tag),
        ensures
            ({
                let s = self.sector_of(tag);
                let k = self.slot_of(tag);
                &&& 0 <= s < self.sector_count()
                &&& 0 <= k < self.layout()[s].len()
                &&& self.layout()[s][k].validity == VALIDITY_VALID
                &&& self.layout()[s][k].counted
                &&& self.layout()[s][k].tag == tag
                &&& self.layout()[s][k].size == self.size_of(tag)
                &&& 0 <= self.layout()[s][k].start <= self.header_of(tag) < self.layout()[s][k].start
                    + self.layout()[s][k].size <= self.next_block_at(s)
                &&& 1 <= self.size_of(tag) <= self.valid_size_at(s)
            }),
    {
        reveal(FileSystem::structure_ok);
        reveal(FileSystem::layout_ok);
        reveal(FileSystem::files_ok);
        reveal(FileSystem::locks_ok);
        reveal(FileSystem::blocks_ok);
        reveal(FileSystem::tails_ok);
        reveal(FileSystem::idle);
        self.lemma_view();
        let k = self.lemma_file(self.record(tag));
    }

    /// The one entry that a file owns.
    proof fn lemma_own(&self, f: File, k: int, j: int)
        requires
            self.wf(),
            self.files.contains(f),
            0 <= k < self.layout@[f.sector.0 as int].len(),
            0 <= j < self.layout@[f.sector.0 as int].len(),
            f.owns(self.layout@[f.sector.0 as int][k]),
            f.owns(self.layout@[f.sector.0 as int][j]),
        ensures
            k == j,
    {
        reveal(FileSystem::structure_ok);
        reveal(FileSystem::layout_ok);
        reveal(FileSystem::files_ok);
        reveal(FileSystem::locks_ok);
        reveal(FileSystem::blocks_ok);
        reveal(FileSystem::tails_ok);
        reveal(FileSystem::idle);
        let s = f.sector.0 as int;
        f.tag.lemma_range();
        f.data.lemma_range();
        if k < j {
            assert(self.layout@[s][k].start + self.layout@[s][k].size <= self.layout@[s][j].start);
        }
        if j < k {
            assert(self.layout@[s][j].start + self.layout@[s][j].size <= self.layout@[s][k].start);
        }
    }

    /// The step that takes the file `f`, whose block is the `k`-th entry of
    /// its sector, from `old` to `self`.
    spec fn erase_step(&self, old: &FileSystem, f: File, k: int) -> bool {
        let s = f.sector.0 as int;
        let idx = old.sectors@[s].index();
        &&& old.wf()
        &&& old.files.contains(f)
        &&& 0 <= k < old.layout@[s].len()
        &&& f.owns(old.layout@[s][k])
        &&& self.sectors == old.sectors
        &&& self.defragsector == old.defragsector
        &&& self.appletsector == old.appletsector
        &&& self.next_blocks == old.next_blocks
        &&& self.valid_sizes@ == old.valid_sizes@.update(s, (old.valid_sizes@[s] - f.size) as usize)
        &&& self.layout@ == old.layout@.update(
            s,
            old.layout@[s].update(k, retired(old.layout@[s][k])),
        )
        &&& self.files.wf()
        &&& forall|y: File|
            #![trigger self.files.contains(y)]
            self.files.contains(y) <==> (old.files.contains(y) && y != f)
        &&& self.flash.wf()
        &&& !self.flash.writing()
        &&& self.flash.same_but_locks(old.flash, idx)
        &&& self.flash.same_but_bytes(old.flash, idx)
        &&& forall|l: Lock|
            #![trigger self.flash.holds(idx, l)]
            self.flash.holds(idx, l) <==> (old.flash.holds(idx, l) && l != f.tag.lock() && l
                != f.data.lock())
        &&& self.flash.bytes(idx) == old.flash.bytes(idx).update(
            f.header_at(),
            no_longer(old.flash.bytes(idx)[f.header_at()]),
        )
    }

    /// No lock is held on the header of the block of a file.
    proof fn lemma_header_free(&self, f: File, k: int)
        requires
            self.wf(),
            self.files.contains(f),
            0 <= k < self.layout@[f.sector.0 as int].len(),
            f.owns(self.layout@[f.sector.0 as int][k]),
        ensures
            0 <= f.header_at() < self.sectors@[f.sector.0 as int].length(),
            !self.flash.conflicts(
                self.sectors@[f.sector.0 as int].index(),
                Lock { write: true, start: f.header_at() as usize, length: 1 },
            ),
    {
        reveal(FileSystem::structure_ok);
        reveal(FileSystem::layout_ok);
        reveal(FileSystem::files_ok);
        reveal(FileSystem::locks_ok);
        reveal(FileSystem::blocks_ok);
        reveal(FileSystem::tails_ok);
        reveal(FileSystem::idle);
        let s = f.sector.0 as int;
        let idx = self.sectors@[s].index();
        let kk = self.lemma_file(f);
        self.lemma_own(f, k, kk);
        f.tag.lemma_range();
        f.data.lemma_range();
        let wl = Lock { write: true, start: f.header_at() as usize, length: 1 };
        if self.flash.conflicts(idx, wl) {
            let h = choose|h: Lock| #[trigger]
                self.flash.holds(idx, h) && crate::flash::incompatible(wl, h);
            let g = choose|g: File| #[trigger]
                self.files.contains(g) && g.sector.0 == s && (h == g.tag.lock() || h
                    == g.data.lock());
            g.tag.lemma_range();
            g.data.lemma_range();
            let j = self.lemma_file(g);
            if g != f {
                if j == k {
                    self.files.lemma_unique(f, g);
                }
                if j < k {
                    assert(self.layout@[s][j].start + self.layout@[s][j].size
                        <= self.layout@[s][k].start);
                } else {
                    assert(self.layout@[s][k].start + self.layout@[s][k].size
                        <= self.layout@[s][j].start);
                }
            }
        }
    }

    /// Another file than the one erased keeps its place.
    proof fn lemma_erase_other(&self, old: &FileSystem, f: File, k: int, g: File) -> (j: int)
        requires
            self.erase_step(old, f, k),
            old.files.contains(g),
            g != f,
        ensures
            0 <= j < old.layout@[g.sector.0 as int].len(),
            g.owns(old.layout@[g.sector.0 as int][j]),
            g.owns(self.layout@[g.sector.0 as int][j]),
            g.sector == f.sector ==> j != k,
            g.sector == f.sector ==> (g.data.first() + g.data.size() <= f.header_at()
                || f.header_at() < g.header_at()),
            g.sector == f.sector ==> g.tag.lock() != f.tag.lock() && g.tag.lock() != f.data.lock()
                && g.data.lock() != f.tag.lock() && g.data.lock() != f.data.lock(),
    {
        reveal(FileSystem::structure_ok);
        reveal(FileSystem::layout_ok);
        reveal(FileSystem::files_ok);
        reveal(FileSystem::locks_ok);
        reveal(FileSystem::blocks_ok);
        reveal(FileSystem::tails_ok);
        reveal(FileSystem::idle);
        let j = old.lemma_file(g);
        let kk = old.lemma_file(f);
        old.lemma_own(f, k, kk);
        let s = f.sector.0 as int;
        if g.sector == f.sector {
            if j == k {
                old.files.lemma_unique(f, g);
                assert(key_words(f.key@) == key_words(g.key@));
            }
            g.tag.lemma_range();
            g.data.lemma_range();
            f.tag.lemma_range();
            f.data.lemma_range();
            if j < k {
                assert(old.layout@[s][j].start + old.layout@[s][j].size <= old.layout@[s][k].start);
            } else {
                assert(old.layout@[s][k].start + old.layout@[s][k].size <= old.layout@[s][j].start);
            }
        }
        j
    }

    /// The structure, the layout and the files are in order after a file has
    /// been erased.
    proof fn lemma_erase_wf(&self, old: &FileSystem, f: File, k: int)
        requires
            self.erase_step(old, f, k),
        ensures
            self.structure_ok(),
            self.layout_ok(),
            self.files_ok(),
    {
        reveal(FileSystem::structure_ok);
        reveal(FileSystem::layout_ok);
        reveal(FileSystem::files_ok);
        reveal(FileSystem::locks_ok);
        reveal(FileSystem::blocks_ok);
        reveal(FileSystem::tails_ok);
        reveal(FileSystem::idle);
        let s = f.sector.0 as int;
        let kk = old.lemma_file(f);
        assert(self.structure_ok()) by {
            assert forall|i: int| 0 <= i < self.sectors@.len() implies self.flash.has(
                #[trigger] self.sectors@[i],
            ) by {
                assert(old.flash.has(old.sectors@[i]));
            }
        }
        assert(self.layout_ok()) by {
            lemma_sum_update(old.layout@[s], k, retired(old.layout@[s][k]));
            assert forall|t: int, i: int|
                0 <= t < self.layout@.len() && 0 <= i < self.layout@[t].len() implies {
                &&& 0 <= (#[trigger] self.layout@[t][i]).start
                &&& 1 <= self.layout@[t][i].size
                &&& self.layout@[t][i].start + self.layout@[t][i].size <= self.next_blocks@[t]
                &&& self.layout@[t][i].validity == VALIDITY_VALID ==> self.layout@[t][i].counted
            } by {
                assert(0 <= old.layout@[t][i].start);
            }
            assert forall|t: int, i: int, j: int|
                0 <= t < self.layout@.len() && 0 <= i < j < self.layout@[t].len() implies (
            #[trigger] self.layout@[t][i]).start + self.layout@[t][i].size <= (
            #[trigger] self.layout@[t][j]).start by {
                assert(old.layout@[t][i].start + old.layout@[t][i].size <= old.layout@[t][j].start);
            }
            assert forall|t: int| 0 <= t < self.layout@.len() implies self.valid_sizes@[t]
                == counted_sum(#[trigger] self.layout@[t]) by {
                assert(old.valid_sizes@[t] == counted_sum(old.layout@[t]));
            }
        }
        assert(self.files_ok()) by {
            assert forall|g: File| #[trigger] self.files.contains(g) implies {
                &&& g.sector.0 < self.sectors@.len()
                &&& g.tag.sector_spec() == self.sectors@[g.sector.0 as int]
                &&& g.data.sector_spec() == self.sectors@[g.sector.0 as int]
                &&& g.header_at() >= 0
                &&& exists|j: int|
                    0 <= j < self.layout@[g.sector.0 as int].len() && g.owns(
                        #[trigger] self.layout@[g.sector.0 as int][j],
                    )
            } by {
                let j = self.lemma_erase_other(old, f, k, g);
                let jj = old.lemma_file(g);
            }
            assert forall|t: int, i: int|
                0 <= t < self.layout@.len() && 0 <= i < self.layout@[t].len() && (
                #[trigger] self.layout@[t][i]).validity == VALIDITY_VALID implies {
                &&& self.files.has_key(key_words(self.layout@[t][i].tag))
                &&& self.files.entry(key_words(self.layout@[t][i].tag)).sector.0 == t
                &&& self.files.entry(key_words(self.layout@[t][i].tag)).owns(self.layout@[t][i])
            } by {
                let e = old.layout@[t][i];
                assert(e.validity == VALIDITY_VALID);
                assert(self.layout@[t][i] == e);
                let h = old.files.entry(key_words(e.tag));
                assert(old.files.has_key(key_words(e.tag)));
                assert(old.files.contains(h));
                if h == f {
                    old.lemma_own(f, k, i);
                }
                assert(self.files.contains(h));
                assert(self.files.has_key(key_words(e.tag)));
                let h2 = self.files.entry(key_words(e.tag));
                old.files.lemma_unique(h, h2);
            }
        }
    }

    /// The locks are those of the files after a file has been erased.
    proof fn lemma_erase_locks(&self, old: &FileSystem, f: File, k: int)
        requires
            self.erase_step(old, f, k),
        ensures
            self.locks_ok(),
    {
        reveal(FileSystem::structure_ok);
        reveal(FileSystem::layout_ok);
        reveal(FileSystem::files_ok);
        reveal(FileSystem::locks_ok);
        reveal(FileSystem::blocks_ok);
        reveal(FileSystem::tails_ok);
        reveal(FileSystem::idle);
        let s = f.sector.0 as int;
        let idx = old.sectors@[s].index();
        assert forall|t: int, l: Lock| 0 <= t < self.sectors@.len() implies (
        #[trigger] self.flash.holds(self.sectors@[t].index(), l) <==> exists|g: File| #[trigger]
            self.files.contains(g) && g.sector.0 == t && (l == g.tag.lock() || l
                == g.data.lock())) by {
            let here = self.flash.holds(self.sectors@[t].index(), l);
            let there = old.flash.holds(old.sectors@[t].index(), l);
            if t != s {
                assert(old.sectors@[t].index() != old.sectors@[s].index());
                assert(here == there);
            }
            if here {
                assert(there);
                let g = choose|g: File| #[trigger]
                    old.files.contains(g) && g.sector.0 == t && (l == g.tag.lock() || l
                        == g.data.lock());
                assert(g != f);
                assert(self.files.contains(g));
            }
            if exists|g: File| #[trigger]
                self.files.contains(g) && g.sector.0 == t && (l == g.tag.lock() || l
                    == g.data.lock()) {
                let g = choose|g: File| #[trigger]
                    self.files.contains(g) && g.sector.0 == t && (l == g.tag.lock() || l
                        == g.data.lock());
                assert(old.files.contains(g));
                assert(there);
                if t == s {
                    let j = self.lemma_erase_other(old, f, k, g);
                }
            }
        }
    }

    /// The files that are left hold what they held after a file has been
    /// erased.
    proof fn lemma_erase_view(&self, old: &FileSystem, f: File, k: int)
        requires
            self.erase_step(old, f, k),
            self.wf(),
        ensures
            self@ == old@.remove(f.key@),
            forall|t: Seq<u8>|
                t != f.key@ && old@.dom().contains(t) ==> #[trigger] self.sector_of(t)
                    == old.sector_of(t),
    {
        reveal(FileSystem::structure_ok);
        reveal(FileSystem::layout_ok);
        reveal(FileSystem::files_ok);
        reveal(FileSystem::locks_ok);
        reveal(FileSystem::blocks_ok);
        reveal(FileSystem::tails_ok);
        reveal(FileSystem::idle);
        let s = f.sector.0 as int;
        let idx = old.sectors@[s].index();
        old.lemma_view();
        self.lemma_view();
        assert forall|t: Seq<u8>| t != f.key@ && old@.dom().contains(t) implies #[trigger] self.sector_of(
            t,
        ) == old.sector_of(t) by {
            let g = old.record(t);
            assert(self.files.contains(g));
            assert(self.record(g.key@) == g);
        }
        assert forall|t: Seq<u8>| self@.dom().contains(t) <==> old@.remove(f.key@).dom().contains(
            t,
        ) by {
            if self@.dom().contains(t) {
                assert(old.files.contains(self.record(t)));
            }
            if old@.dom().contains(t) && t != f.key@ {
                assert(self.files.contains(old.record(t)));
            }
        }
        assert forall|t: Seq<u8>| #[trigger] self@.dom().contains(t) implies self@[t] == old@[t] by {
            let g = self.record(t);
            assert(old.files.contains(g));
            let j = self.lemma_erase_other(old, f, k, g);
            let jj = old.lemma_file(g);
            g.data.lemma_range();
            if g.sector != f.sector {
                assert(old.sectors@[g.sector.0 as int].index() != idx);
                assert(self.flash.bytes(old.sectors@[g.sector.0 as int].index()) == old.flash.bytes(
                    old.sectors@[g.sector.0 as int].index(),
                ));
            } else {
                let a = g.data.first();
                let n = g.data.size();
                assert(g.data.sector_spec().index() == idx);
                assert(a + n <= f.header_at() || f.header_at() < a);
                old.flash.lemma_bytes_len(idx);
                self.flash.lemma_bytes_len(idx);
                let kk = old.lemma_file(f);
                f.tag.lemma_range();
                f.data.lemma_range();
                assert(old.flash.handle(idx) == old.sectors@[s]);
                assert(0 <= f.header_at() < old.flash.bytes(idx).len());
                assert(0 <= a && a + n <= old.flash.bytes(idx).len());
                assert(self.flash.bytes(idx).subrange(a, a + n) =~= old.flash.bytes(idx).subrange(
                    a,
                    a + n,
                ));
            }
        }
        assert(self@ =~= old@.remove(f.key@));
    }

    /// The sectors are erased where they were, and no defragmentation has
    /// begun, after a file has been erased.
    proof fn lemma_erase_rest(&self, old: &FileSystem, f: File, k: int)
        requires
            self.erase_step(old, f, k),
        ensures
            old.tails_ok() ==> self.tails_ok(),
            old.idle() ==> self.idle(),
    {
        reveal(FileSystem::structure_ok);
        reveal(FileSystem::layout_ok);
        reveal(FileSystem::files_ok);
        reveal(FileSystem::locks_ok);
        reveal(FileSystem::blocks_ok);
        reveal(FileSystem::tails_ok);
        reveal(FileSystem::idle);
        let s = f.sector.0 as int;
        let idx = old.sectors@[s].index();
        let kk = old.lemma_file(f);
        f.tag.lemma_range();
        f.data.lemma_range();
        old.flash.lemma_bytes_len(idx);
        self.flash.lemma_bytes_len(idx);
        if old.tails_ok() {
            assert forall|t: int| 0 <= t < self.sectors@.len() implies erased_from(
                #[trigger] self.bytes(t),
                self.next_blocks@[t] as int,
                self.limit(t),
            ) by {
                assert(erased_from(old.bytes(t), old.next_blocks@[t] as int, old.limit(t)));
                if t != s {
                    assert(old.sectors@[t].index() != idx);
                    assert(self.bytes(t) == old.bytes(t));
                }
            }
        }
        if old.idle() {
            let d = old.defragsector.0 as int;
            assert(s != d);
            assert(old.sectors@[d].index() != idx);
            assert(self.bytes(d) == old.bytes(d));
            assert forall|t: int| 0 <= t < self.sectors@.len() && t != d implies (
            #[trigger] self.valid_sizes@[t]) <= self.sectors@[d].length() - 1 by {
                assert(old.valid_sizes@[t] <= old.sectors@[d].length() - 1);
            }
        }
    }

    /// The flash holds the blocks of the layout after a file has been erased.
    proof fn lemma_erase_blocks(&self, old: &FileSystem, f: File, k: int)
        requires
            self.erase_step(old, f, k),
            old.blocks_ok(),
        ensures
            self.blocks_ok(),
    {
        reveal(FileSystem::structure_ok);
        reveal(FileSystem::layout_ok);
        reveal(FileSystem::files_ok);
        reveal(FileSystem::locks_ok);
        reveal(FileSystem::blocks_ok);
        reveal(FileSystem::tails_ok);
        reveal(FileSystem::idle);
        let s = f.sector.0 as int;
        let idx = old.sectors@[s].index();
        let e = old.layout@[s][k];
        assert(f.fits(e));
        assert(old.bytes(s) == old.flash.bytes(idx));
        assert(holds_blocks(old.bytes(s), old.layout@[s]));
        lemma_retire(old.bytes(s), old.layout@[s], k);
        assert forall|t: int| 0 <= t < self.sectors@.len() implies {
            &&& holds_blocks(#[trigger] self.bytes(t), self.layout@[t])
            &&& self.next_blocks@[t] == total_sum(self.layout@[t])
        } by {
            assert(holds_blocks(old.bytes(t), old.layout@[t]));
            if t != s {
                assert(old.sectors@[t].index() != idx);
                assert(self.bytes(t) == old.bytes(t));
            }
        }
        assert forall|g: File, j: int|
            #![trigger self.files.contains(g), self.layout@[g.sector.0 as int][j]]
            self.files.contains(g) && 0 <= j < self.layout@[g.sector.0 as int].len() && g.owns(
                self.layout@[g.sector.0 as int][j],
            ) implies g.fits(self.layout@[g.sector.0 as int][j]) by {
            assert(old.files.contains(g));
            assert(g.owns(old.layout@[g.sector.0 as int][j]));
        }
    }

    /// Removes the file associated to a tag: the file leaves the set, and its
    /// block is marked as no longer valid.
    ///
    /// # Errors
    ///
    /// Errors if the tag does not exist in the filesystem
    pub fn erase(&mut self, tag: &[u8]) -> (r: Result<(), Error>)
        requires
            old(self).wf(),
        ensures
            final(self).wf(),
            final(self).same_sectors(*old(self)),
            match r {
                Ok(()) => old(self)@.dom().contains(tag@) && final(self).erased(*old(self), tag@),
                Err(e) => {
                    &&& e == Error::NoSuchTag
                    &&& !old(self)@.dom().contains(tag@)
                    &&& *final(self) == *old(self)
                },
            },
            old(self).blocks_ok() ==> final(self).blocks_ok(),
            old(self).tails_ok() ==> final(self).tails_ok(),
            old(self).idle() ==> final(self).idle(),
    {
        proof {
            reveal(FileSystem::structure_ok);
            reveal(FileSystem::layout_ok);
            reveal(FileSystem::files_ok);
            reveal(FileSystem::locks_ok);
            reveal(FileSystem::blocks_ok);
            reveal(FileSystem::tails_ok);
            reveal(FileSystem::idle);
        }
        proof {
            assert(tag.words() =~= key_words(tag@));
            old(self).lemma_view();
        }
        // Remove file from hashmap and mark it as invalid
        let f = match self.files.take(tag) {
            None => {
                return Err(Error::NoSuchTag);
            },
            Some(f) => f,
        };
        let ghost k = old(self).lemma_file(f);
        proof {
            lemma_key_words(f.key@, tag@);
            old(self).lemma_own(f, k, old(self).slot_of(tag@));
            f.tag.lemma_range();
            f.data.lemma_range();
        }
        let sid = f.sector.0;
        self.valid_sizes[sid] = self.valid_sizes[sid] - f.size;
        let hdrpos = f.tag.start() - if f.data.len() <= 0xFF {
            1
        } else {
            4
        } - 1;
        let sector = f.tag.sector();
        proof {
            old(self).lemma_header_free(f, k);
            assert(self.flash == old(self).flash);
        }
        let marked = mark_no_longer_valid(&mut self.flash, &sector, hdrpos);
        let ghost mid = self.flash;
        f.release(&mut self.flash);
        proof {
            self.layout@ = old(self).layout@.update(
                sid as int,
                old(self).layout@[sid as int].update(k, retired(old(self).layout@[sid as int][k])),
            );
            assert(self.erase_step(old(self), f, k));
            self.lemma_erase_wf(old(self), f, k);
            self.lemma_erase_locks(old(self), f, k);
            self.lemma_erase_view(old(self), f, k);
            assert(self.sectors@[sid as int].index() == sector.index());
            assert(f.key@ == tag@);
            if old(self).blocks_ok() {
                self.lemma_erase_blocks(old(self), f, k);
            }
            self.lemma_erase_rest(old(self), f, k);
        }
        Ok(())
    }

    /// The filesystem is `old` with the file `tag` written anew on the
    /// sector `s`: a new entry follows the others of the sector, the block
    /// that the file had before is no longer valid, and the other files are
    /// as they were.
    pub open spec fn written(&self, old: FileSystem, tag: Seq<u8>, data: Seq<u8>, s: int) -> bool {
        let size = block_size(tag.len() as int, data.len() as int);
        let so = old.sector_of(tag);
        let ko = old.slot_of(tag);
        let base = if old@.dom().contains(tag) {
            old.layout().update(so, old.layout()[so].update(ko, retired(old.layout()[so][ko])))
        } else {
            old.layout()
        };
        &&& self.layout() == base.update(
            s,
            base[s].push(
                Entry {
                    start: old.next_block_at(s),
                    size,
                    validity: VALIDITY_VALID,
                    counted: true,
                    tag,
                    data,
                },
            ),
        )
        &&& forall|j: int|
            0 <= j < self.sector_count() ==> #[trigger] self.next_block_at(j)
                == old.next_block_at(j) + if j == s {
                size
            } else {
                0
            }
        &&& forall|j: int|
            0 <= j < self.sector_count() ==> #[trigger] self.valid_size_at(j)
                == old.valid_size_at(j) - old.credit(j, tag) + if j == s {
                size
            } else {
                0
            }
        &&& self@.dom() == old@.dom().insert(tag)
        &&& forall|t: Seq<u8>|
            t != tag && old@.dom().contains(t) ==> #[trigger] self@[t] == old@[t]
        &&& self.sector_of(tag) == s
        &&& self.size_of(tag) == size
        &&& forall|t: Seq<u8>|
            t != tag && old@.dom().contains(t) ==> #[trigger] self.sector_of(t) == old.sector_of(t)
        &&& forall|j: int, p: int|
            0 <= j < self.sector_count() && old.next_block_at(j) + (if j == s {
                size
            } else {
                0
            }) <= p < self.sector_at(j).length() ==> (#[trigger] self.bytes(j)[p]) == old.bytes(
                j,
            )[p]
    }

    /// The step from `old` to `self` in which only bytes of the sector `s`
    /// that lie after its blocks are written.
    spec fn scribble_step(&self, old: &FileSystem, s: int) -> bool {
        let idx = old.sectors@[s].index();
        &&& old.wf()
        &&& 0 <= s < old.sectors@.len()
        &&& self.sectors == old.sectors
        &&& self.defragsector == old.defragsector
        &&& self.appletsector == old.appletsector
        &&& self.next_blocks == old.next_blocks
        &&& self.valid_sizes == old.valid_sizes
        &&& self.layout@ == old.layout@
        &&& self.files == old.files
        &&& self.flash.wf()
        &&& !self.flash.writing()
        &&& self.flash.same_but_locks(old.flash, -1)
        &&& self.flash.same_but_bytes(old.flash, idx)
        &&& forall|p: int|
            0 <= p < old.next_blocks@[s] ==> self.flash.bytes(idx)[p] == old.flash.bytes(idx)[p]
    }

    /// The sectors other than the `s`-th hold what they held in `old`.
    pub open spec fn same_elsewhere(&self, old: FileSystem, s: int) -> bool {
        forall|j: int|
            0 <= j < self.sector_count() && j != s ==> #[trigger] self.bytes(j) == old.bytes(j)
    }

    /// What is written on a sector leaves the others as they were.
    proof fn lemma_elsewhere(&self, old: &FileSystem, s: int)
        requires
            self.scribble_step(old, s),
        ensures
            self.same_elsewhere(*old, s),
    {
        reveal(FileSystem::structure_ok);
        assert forall|j: int| 0 <= j < self.sector_count() && j != s implies #[trigger] self.bytes(
            j,
        ) == old.bytes(j) by {
            assert(old.flash.has(old.sectors@[j]));
            assert(old.sectors@[j].index() != old.sectors@[s].index());
        }
    }

    /// Nothing that the filesystem relies on changes when bytes are written
    /// after the blocks of a sector.
    proof fn lemma_scribble(&self, old: &FileSystem, s: int)
        requires
            self.scribble_step(old, s),
        ensures
            self.wf(),
            self@ == old@,
            old.blocks_ok() ==> self.blocks_ok(),
    {
        reveal(FileSystem::structure_ok);
        let idx = old.sectors@[s].index();
        old.flash.lemma_bytes_len(idx);
        self.flash.lemma_bytes_len(idx);
        assert(self.structure_ok()) by {
            reveal(FileSystem::structure_ok);
            assert forall|i: int| 0 <= i < self.sectors@.len() implies self.flash.has(
                #[trigger] self.sectors@[i],
            ) by {
                assert(old.flash.has(old.sectors@[i]));
            }
        }
        assert(self.layout_ok()) by {
            reveal(FileSystem::layout_ok);
        }
        assert(self.files_ok()) by {
            reveal(FileSystem::files_ok);
        }
        assert(self.locks_ok()) by {
            reveal(FileSystem::structure_ok);
            reveal(FileSystem::locks_ok);
            assert forall|t: int, l: Lock| 0 <= t < self.sectors@.len() implies (
            #[trigger] self.flash.holds(self.sectors@[t].index(), l) <==> exists|g: File| #[trigger]
                self.files.contains(g) && g.sector.0 == t && (l == g.tag.lock() || l
                    == g.data.lock())) by {
                assert(self.flash.holds(self.sectors@[t].index(), l) == old.flash.holds(
                    old.sectors@[t].index(),
                    l,
                ));
            }
        }
        old.lemma_view();
        old.lemma_structure();
        assert forall|t: Seq<u8>| #[trigger] self@.dom().contains(t) implies self@[t] == old@[t] by {
            let g = old.record(t);
            let j = old.lemma_file(g);
            g.data.lemma_range();
            if g.sector.0 as int != s {
                assert(old.sectors@[g.sector.0 as int].index() != idx);
                assert(self.flash.bytes(old.sectors@[g.sector.0 as int].index()) == old.flash.bytes(
                    old.sectors@[g.sector.0 as int].index(),
                ));
            } else {
                assert(g.data.bytes(&self.flash) =~= g.data.bytes(&old.flash));
            }
        }
        assert(self@ =~= old@);
        if old.blocks_ok() {
            reveal(FileSystem::blocks_ok);
            old.lemma_sizes(s);
            assert forall|t: int| 0 <= t < self.sectors@.len() implies {
                &&& holds_blocks(#[trigger] self.bytes(t), self.layout@[t])
                &&& self.next_blocks@[t] == total_sum(self.layout@[t])
            } by {
                assert(holds_blocks(old.bytes(t), old.layout@[t]));
                if t != s {
                    assert(old.sectors@[t].index() != idx);
                    assert(self.bytes(t) == old.bytes(t));
                } else {
                    lemma_holds_prefix(old.bytes(s), self.bytes(s), old.layout@[s]);
                }
            }
        }
    }

    /// No lock is held after the blocks of a sector.
    proof fn lemma_free(&self, s: int, size: int)
        requires
            self.wf(),
            0 <= s < self.sectors@.len(),
            0 < size,
            self.next_blocks@[s] + size <= usize::MAX,
        ensures
            !self.flash.conflicts(
                self.sectors@[s].index(),
                Lock { write: true, start: self.next_blocks@[s], length: size as usize },
            ),
            !self.flash.holds(
                self.sectors@[s].index(),
                Lock { write: true, start: self.next_blocks@[s], length: size as usize },
            ),
    {
        reveal(FileSystem::structure_ok);
        reveal(FileSystem::layout_ok);
        reveal(FileSystem::files_ok);
        reveal(FileSystem::locks_ok);
        reveal(FileSystem::blocks_ok);
        reveal(FileSystem::tails_ok);
        reveal(FileSystem::idle);
        let idx = self.sectors@[s].index();
        let wl = Lock { write: true, start: self.next_blocks@[s], length: size as usize };
        if self.flash.conflicts(idx, wl) {
            let h = choose|h: Lock| #[trigger]
                self.flash.holds(idx, h) && crate::flash::incompatible(wl, h);
            let g = choose|g: File| #[trigger]
                self.files.contains(g) && g.sector.0 == s && (h == g.tag.lock() || h
                    == g.data.lock());
            g.tag.lemma_range();
            g.data.lemma_range();
            let j = self.lemma_file(g);
        }
        if self.flash.holds(idx, wl) {
            assert(crate::flash::incompatible(wl, wl));
        }
    }

    /// The step that puts the file `f`, whose block is the new last entry `e`
    /// of its sector, into `old`, which has no file with its tag.
    spec fn insert_step(&self, old: &FileSystem, f: File, e: Entry) -> bool {
        let s = f.sector.0 as int;
        let idx = old.sectors@[s].index();
        &&& old.wf()
        &&& 0 <= s < old.sectors@.len()
        &&& !old.files.has_key(key_words(f.key@))
        &&& e.start == old.next_blocks@[s]
        &&& e.size == f.size
        &&& 1 <= e.size
        &&& e.start + e.size <= old.limit(s)
        &&& e.validity == VALIDITY_VALID
        &&& e.counted
        &&& e.tag == f.key@
        &&& f.tag.sector_spec() == old.sectors@[s]
        &&& f.data.sector_spec() == old.sectors@[s]
        &&& f.tag.size() == f.key@.len()
        &&& e.start <= f.header_at()
        &&& f.data.first() == f.tag.first() + f.tag.size()
        &&& f.data.first() + f.data.size() < e.start + e.size
        &&& self.sectors == old.sectors
        &&& self.defragsector == old.defragsector
        &&& self.appletsector == old.appletsector
        &&& self.next_blocks@ == old.next_blocks@.update(s, (old.next_blocks@[s] + e.size) as usize)
        &&& self.valid_sizes@ == old.valid_sizes@.update(s, (old.valid_sizes@[s] + e.size) as usize)
        &&& self.layout@ == old.layout@.update(s, old.layout@[s].push(e))
        &&& self.files.wf()
        &&& forall|y: File|
            #![trigger self.files.contains(y)]
            self.files.contains(y) <==> (old.files.contains(y) || y == f)
        &&& self.flash.wf()
        &&& !self.flash.writing()
        &&& self.flash.same_but_locks(old.flash, idx)
        &&& self.flash.same_bytes(old.flash)
        &&& forall|l: Lock|
            #![trigger self.flash.holds(idx, l)]
            self.flash.holds(idx, l) <==> (old.flash.holds(idx, l) || l == f.tag.lock() || l
                == f.data.lock())
    }

    /// A file that was there before keeps its place when a file is put in.
    proof fn lemma_insert_other(&self, old: &FileSystem, f: File, e: Entry, g: File) -> (j: int)
        requires
            self.insert_step(old, f, e),
            old.files.contains(g),
        ensures
            g != f,
            0 <= j < old.layout@[g.sector.0 as int].len(),
            g.owns(old.layout@[g.sector.0 as int][j]),
            0 <= j < self.layout@[g.sector.0 as int].len(),
            self.layout@[g.sector.0 as int][j] == old.layout@[g.sector.0 as int][j],
    {
        reveal(FileSystem::structure_ok);
        reveal(FileSystem::layout_ok);
        reveal(FileSystem::files_ok);
        reveal(FileSystem::locks_ok);
        reveal(FileSystem::blocks_ok);
        reveal(FileSystem::tails_ok);
        reveal(FileSystem::idle);
        let j = old.lemma_file(g);
        if g == f {
            assert(old.files.has_key(key_words(f.key@)));
        }
        j
    }

    /// The filesystem is in order after a file has been put in.
    proof fn lemma_insert_wf(&self, old: &FileSystem, f: File, e: Entry)
        requires
            self.insert_step(old, f, e),
        ensures
            self.structure_ok(),
            self.layout_ok(),
            self.files_ok(),
            self.locks_ok(),
    {
        reveal(FileSystem::structure_ok);
        reveal(FileSystem::layout_ok);
        reveal(FileSystem::files_ok);
        reveal(FileSystem::locks_ok);
        reveal(FileSystem::blocks_ok);
        reveal(FileSystem::tails_ok);
        reveal(FileSystem::idle);
        let s = f.sector.0 as int;
        let idx = old.sectors@[s].index();
        old.lemma_sizes(s);
        f.tag.lemma_range();
        f.data.lemma_range();
        assert(self.structure_ok()) by {
            assert forall|i: int| 0 <= i < self.sectors@.len() implies self.flash.has(
                #[trigger] self.sectors@[i],
            ) by {
                assert(old.flash.has(old.sectors@[i]));
            }
        }
        assert(self.layout_ok()) by {
            lemma_sum_push(old.layout@[s], e);
            assert forall|t: int, i: int|
                0 <= t < self.layout@.len() && 0 <= i < self.layout@[t].len() implies {
                &&& 0 <= (#[trigger] self.layout@[t][i]).start
                &&& 1 <= self.layout@[t][i].size
                &&& self.layout@[t][i].start + self.layout@[t][i].size <= self.next_blocks@[t]
                &&& self.layout@[t][i].validity == VALIDITY_VALID ==> self.layout@[t][i].counted
            } by {
                if t == s && i == old.layout@[s].len() {
                } else {
                    assert(0 <= old.layout@[t][i].start);
                }
            }
            assert forall|t: int, i: int, j: int|
                0 <= t < self.layout@.len() && 0 <= i < j < self.layout@[t].len() implies (
            #[trigger] self.layout@[t][i]).start + self.layout@[t][i].size <= (
            #[trigger] self.layout@[t][j]).start by {
                if t == s && j == old.layout@[s].len() {
                    assert(old.layout@[t][i].start + old.layout@[t][i].size <= old.next_blocks@[t]);
                } else {
                    assert(old.layout@[t][i].start + old.layout@[t][i].size
                        <= old.layout@[t][j].start);
                }
            }
            assert forall|t: int| 0 <= t < self.layout@.len() implies self.valid_sizes@[t]
                == counted_sum(#[trigger] self.layout@[t]) by {
                assert(old.valid_sizes@[t] == counted_sum(old.layout@[t]));
            }
        }
        assert(self.files_ok()) by {
            assert forall|g: File| #[trigger] self.files.contains(g) implies {
                &&& g.sector.0 < self.sectors@.len()
                &&& g.tag.sector_spec() == self.sectors@[g.sector.0 as int]
                &&& g.data.sector_spec() == self.sectors@[g.sector.0 as int]
                &&& g.header_at() >= 0
                &&& exists|j: int|
                    0 <= j < self.layout@[g.sector.0 as int].len() && g.owns(
                        #[trigger] self.layout@[g.sector.0 as int][j],
                    )
            } by {
                if g == f {
                    let n = old.layout@[s].len() as int;
                    assert(self.layout@[s][n] == e);
                    assert(f.owns(self.layout@[s][n]));
                } else {
                    let j = self.lemma_insert_other(old, f, e, g);
                    let jj = old.lemma_file(g);
                    assert(g.owns(self.layout@[g.sector.0 as int][j]));
                }
            }
            assert forall|t: int, i: int|
                0 <= t < self.layout@.len() && 0 <= i < self.layout@[t].len() && (
                #[trigger] self.layout@[t][i]).validity == VALIDITY_VALID implies {
                &&& self.files.has_key(key_words(self.layout@[t][i].tag))
                &&& self.files.entry(key_words(self.layout@[t][i].tag)).sector.0 == t
                &&& self.files.entry(key_words(self.layout@[t][i].tag)).owns(self.layout@[t][i])
            } by {
                let x = self.layout@[t][i];
                if t == s && i == old.layout@[s].len() {
                    assert(self.files.contains(f));
                    assert(self.files.has_key(key_words(x.tag)));
                    self.files.lemma_unique(f, self.files.entry(key_words(x.tag)));
                } else {
                    assert(x == old.layout@[t][i]);
                    let h = old.files.entry(key_words(x.tag));
                    assert(old.files.has_key(key_words(x.tag)));
                    assert(self.files.contains(h));
                    assert(self.files.has_key(key_words(x.tag)));
                    self.files.lemma_unique(h, self.files.entry(key_words(x.tag)));
                }
            }
        }
        assert(self.locks_ok()) by {
            assert forall|t: int, l: Lock| 0 <= t < self.sectors@.len() implies (
            #[trigger] self.flash.holds(self.sectors@[t].index(), l) <==> exists|g: File| #[trigger]
                self.files.contains(g) && g.sector.0 == t && (l == g.tag.lock() || l
                    == g.data.lock())) by {
                let here = self.flash.holds(self.sectors@[t].index(), l);
                let there = old.flash.holds(old.sectors@[t].index(), l);
                if t != s {
                    assert(old.sectors@[t].index() != idx);
                    assert(here == there);
                }
                if here {
                    if there {
                        let g = choose|g: File| #[trigger]
                            old.files.contains(g) && g.sector.0 == t && (l == g.tag.lock() || l
                                == g.data.lock());
                        assert(self.files.contains(g));
                    } else {
                        assert(self.files.contains(f));
                    }
                }
                if exists|g: File| #[trigger]
                    self.files.contains(g) && g.sector.0 == t && (l == g.tag.lock() || l
                        == g.data.lock()) {
                    let g = choose|g: File| #[trigger]
                        self.files.contains(g) && g.sector.0 == t && (l == g.tag.lock() || l
                            == g.data.lock());
                    if g != f {
                        assert(old.files.contains(g));
                        assert(there);
                    }
                }
            }
        }
    }

    /// What the view is after a file has been put in.
    proof fn lemma_insert_view(&self, old: &FileSystem, f: File, e: Entry)
        requires
            self.insert_step(old, f, e),
            self.wf(),
        ensures
            self@ == old@.insert(f.key@, f.data.bytes(&self.flash)),
            self.sector_of(f.key@) == f.sector.0,
            self.size_of(f.key@) == f.size,
            forall|t: Seq<u8>| #[trigger]
                old@.dom().contains(t) ==> self.sector_of(t) == old.sector_of(t),
    {
        reveal(FileSystem::structure_ok);
        reveal(FileSystem::layout_ok);
        reveal(FileSystem::files_ok);
        reveal(FileSystem::locks_ok);
        reveal(FileSystem::blocks_ok);
        reveal(FileSystem::tails_ok);
        reveal(FileSystem::idle);
        old.lemma_view();
        self.lemma_view();
        assert(self.files.contains(f));
        assert forall|t: Seq<u8>| #[trigger] old@.dom().contains(t) implies self.sector_of(t)
            == old.sector_of(t) by {
            let g = old.record(t);
            assert(self.files.contains(g));
            assert(self.record(g.key@) == g);
        }
        assert forall|t: Seq<u8>| self@.dom().contains(t) <==> old@.dom().insert(
            f.key@,
        ).contains(t) by {
            if self@.dom().contains(t) {
                let g = self.record(t);
                if g != f {
                    assert(old.files.contains(g));
                }
            }
            if old@.dom().contains(t) {
                assert(self.files.contains(old.record(t)));
            }
        }
        assert forall|t: Seq<u8>| #[trigger] self@.dom().contains(t) implies self@[t] == old@.insert(
            f.key@,
            f.data.bytes(&self.flash),
        )[t] by {
            let g = self.record(t);
            if g != f {
                assert(old.files.contains(g));
                let j = old.lemma_file(g);
                assert(self.flash.bytes(old.sectors@[g.sector.0 as int].index()) == old.flash.bytes(
                    old.sectors@[g.sector.0 as int].index(),
                ));
            }
        }
        assert(self@ =~= old@.insert(f.key@, f.data.bytes(&self.flash)));
    }

    /// The flash holds the blocks of the layout after a file has been put in
    /// where its block has been written.
    proof fn lemma_insert_blocks(&self, old: &FileSystem, f: File, e: Entry)
        requires
            self.insert_step(old, f, e),
            old.blocks_ok(),
            encodable(e.tag.len() as int, e.data.len() as int),
            e.size == block_size(e.tag.len() as int, e.data.len() as int),
            old.bytes(f.sector.0 as int).subrange(e.start, e.start + e.size) == image(
                VALIDITY_VALID,
                e.tag,
                e.data,
            ),
            f.header_at() == e.start,
            f.data.size() == e.data.len(),
        ensures
            self.blocks_ok(),
    {
        reveal(FileSystem::structure_ok);
        reveal(FileSystem::layout_ok);
        reveal(FileSystem::files_ok);
        reveal(FileSystem::locks_ok);
        reveal(FileSystem::blocks_ok);
        reveal(FileSystem::tails_ok);
        reveal(FileSystem::idle);
        let s = f.sector.0 as int;
        let idx = old.sectors@[s].index();
        old.lemma_sizes(s);
        old.flash.lemma_bytes_len(idx);
        old.sectors@[s].lemma_range();
        assert(old.flash.handle(idx) == old.sectors@[s]);
        assert(holds_blocks(old.bytes(s), old.layout@[s]));
        lemma_append(old.bytes(s), old.layout@[s], e);
        assert forall|t: int| 0 <= t < self.sectors@.len() implies {
            &&& holds_blocks(#[trigger] self.bytes(t), self.layout@[t])
            &&& self.next_blocks@[t] == total_sum(self.layout@[t])
        } by {
            assert(holds_blocks(old.bytes(t), old.layout@[t]));
            assert(self.flash.bytes(old.sectors@[t].index()) == old.flash.bytes(
                old.sectors@[t].index(),
            ));
        }
        assert forall|g: File, j: int|
            #![trigger self.files.contains(g), self.layout@[g.sector.0 as int][j]]
            self.files.contains(g) && 0 <= j < self.layout@[g.sector.0 as int].len() && g.owns(
                self.layout@[g.sector.0 as int][j],
            ) implies g.fits(self.layout@[g.sector.0 as int][j]) by {
            if g == f {
                let n = old.layout@[s].len() as int;
                if j != n {
                    assert(f.owns(old.layout@[s][j]));
                    assert(old.layout@[s][j].start + old.layout@[s][j].size <= old.next_blocks@[s]);
                    f.tag.lemma_range();
                    f.data.lemma_range();
                }
            } else {
                self.lemma_insert_old_fits(old, f, e, g, j);
            }
        }
    }

    /// A file that was there before lies in its entry as before when a file
    /// is put in.
    proof fn lemma_insert_old_fits(&self, old: &FileSystem, f: File, e: Entry, g: File, j: int)
        requires
            self.insert_step(old, f, e),
            old.blocks_ok(),
            old.files.contains(g),
            0 <= j < self.layout@[g.sector.0 as int].len(),
            g.owns(self.layout@[g.sector.0 as int][j]),
        ensures
            g.fits(self.layout@[g.sector.0 as int][j]),
    {
        reveal(FileSystem::structure_ok);
        reveal(FileSystem::layout_ok);
        reveal(FileSystem::files_ok);
        reveal(FileSystem::locks_ok);
        reveal(FileSystem::blocks_ok);
        reveal(FileSystem::tails_ok);
        reveal(FileSystem::idle);
        let s = f.sector.0 as int;
        let jj = old.lemma_file(g);
        if g.sector.0 as int == s && j == old.layout@[s].len() {
            assert(self.layout@[s][j] == e);
            assert(old.layout@[s][jj].start + old.layout@[s][jj].size <= old.next_blocks@[s]);
            g.tag.lemma_range();
            g.data.lemma_range();
            assert(false);
        }
        assert(self.layout@[g.sector.0 as int][j] == old.layout@[g.sector.0 as int][j]);
    }

    /// The data of a file whose block has been written is the data written.
    proof fn lemma_data_of(&self, f: File, e: Entry)
        requires
            self.flash.wf(),
            f.data.valid_in(&self.flash),
            encodable(e.tag.len() as int, e.data.len() as int),
            e.size == block_size(e.tag.len() as int, e.data.len() as int),
            0 <= e.start,
            e.start + e.size <= f.data.sector_spec().length(),
            self.flash.bytes(f.data.sector_spec().index()).subrange(e.start, e.start + e.size)
                == image(e.validity, e.tag, e.data),
            f.data.first() == e.start + 1 + lenlen(e.data.len() as int) + e.tag.len(),
            f.data.size() == e.data.len(),
        ensures
            f.data.bytes(&self.flash) == e.data,
    {
        let idx = f.data.sector_spec().index();
        let bytes = self.flash.bytes(idx);
        self.flash.lemma_bytes_len(idx);
        crate::format::lemma_image_parts(e.validity, e.tag, e.data);
        let i = 1 + lenlen(e.data.len() as int);
        let img = image(e.validity, e.tag, e.data);
        let got = f.data.bytes(&self.flash);
        let part = bytes.subrange(e.start, e.start + e.size);
        assert forall|q: int| 0 <= q < e.data.len() implies got[q] == e.data[q] by {
            assert(got[q] == bytes[f.data.first() + q]);
            assert(part[i + e.tag.len() + q] == bytes[e.start + i + e.tag.len() + q]);
            assert(img.subrange(i + e.tag.len(), i + e.tag.len() + e.data.len())[q] == img[i
                + e.tag.len() + q]);
        }
        assert(got =~= e.data);
    }

    /// A read-lock can be taken anywhere on a sector of the filesystem.
    proof fn lemma_no_writers(&self, s: int, l: Lock)
        requires
            self.wf(),
            0 <= s < self.sectors@.len(),
            !l.write,
        ensures
            !self.flash.conflicts(self.sectors@[s].index(), l),
    {
        reveal(FileSystem::structure_ok);
        reveal(FileSystem::layout_ok);
        reveal(FileSystem::files_ok);
        reveal(FileSystem::locks_ok);
        reveal(FileSystem::blocks_ok);
        reveal(FileSystem::tails_ok);
        reveal(FileSystem::idle);
        let idx = self.sectors@[s].index();
        if self.flash.conflicts(idx, l) {
            let h = choose|h: Lock| #[trigger]
                self.flash.holds(idx, h) && crate::flash::incompatible(l, h);
            let g = choose|g: File| #[trigger]
                self.files.contains(g) && g.sector.0 == s && (h == g.tag.lock() || h
                    == g.data.lock());
        }
    }

    /// What has been proved of the steps of a write gives what a write
    /// promises.
    proof fn lemma_write_done(
        &self,
        s0: &FileSystem,
        s1: &FileSystem,
        s2: &FileSystem,
        f: File,
        e: Entry,
        tag: Seq<u8>,
        data: Seq<u8>,
        had: bool,
    )
        requires
            s1.scribble_step(s0, f.sector.0 as int),
            s1.wf(),
            s1@ == s0@,
            s2.wf(),
            s2.same_sectors(*s1),
            had == s0@.dom().contains(tag),
            had ==> s2.erased(*s1, tag),
            !had ==> *s2 == *s1,
            self.insert_step(s2, f, e),
            self.wf(),
            f.key@ == tag,
            e.data == data,
            e.size == block_size(tag.len() as int, data.len() as int),
            encodable(tag.len() as int, data.len() as int),
            f.header_at() == e.start,
            f.data.size() == data.len(),
            forall|p: int|
                s0.next_blocks@[f.sector.0 as int] + e.size <= p < s0.sectors@[f.sector.0 as int].length()
                    ==> s1.bytes(f.sector.0 as int)[p] == s0.bytes(f.sector.0 as int)[p],
        ensures
            self.same_sectors(*s0),
            self.written(*s0, tag, data, f.sector.0 as int),
    {
        reveal(FileSystem::structure_ok);
        reveal(FileSystem::layout_ok);
        let s = f.sector.0 as int;
        let idx = s0.sectors@[s].index();
        self.lemma_insert_view(s2, f, e);
        s0.lemma_view();
        s1.lemma_view();
        if had {
            s1.lemma_slot(tag);
        }
        assert(s1.sector_of(tag) == s0.sector_of(tag));
        assert(s1.slot_of(tag) == s0.slot_of(tag));
        assert(s1.size_of(tag) == s0.size_of(tag));
        assert(s1.header_of(tag) == s0.header_of(tag));
        assert(self@.dom() =~= s0@.dom().insert(tag));
        let size = block_size(tag.len() as int, data.len() as int);
        let so = s0.sector_of(tag);
        let ko = s0.slot_of(tag);
        let base = if s0@.dom().contains(tag) {
            s0.layout().update(so, s0.layout()[so].update(ko, retired(s0.layout()[so][ko])))
        } else {
            s0.layout()
        };
        assert(s2.layout() == base);
        assert(s2.next_block_at(s) == s1.next_block_at(s));
        assert(e == Entry {
            start: s0.next_block_at(s),
            size,
            validity: VALIDITY_VALID,
            counted: true,
            tag,
            data,
        });
        assert(self.layout() == base.update(s, base[s].push(e)));
        assert forall|j: int| 0 <= j < self.sector_count() implies #[trigger] self.next_block_at(j)
            == s0.next_block_at(j) + if j == s {
            size
        } else {
            0
        } by {
            assert(s2.next_block_at(j) == s1.next_block_at(j));
        }
        assert forall|j: int| 0 <= j < self.sector_count() implies #[trigger] self.valid_size_at(j)
            == s0.valid_size_at(j) - s0.credit(j, tag) + if j == s {
            size
        } else {
            0
        } by {
            s2.lemma_sizes(j);
            assert(s2.valid_size_at(j) == s1.valid_size_at(j) - s0.credit(j, tag));
        }
        assert forall|t: Seq<u8>| t != tag && s0@.dom().contains(t) implies #[trigger] self@[t]
            == s0@[t] by {
            assert(s2@.dom().contains(t));
        }
        assert forall|j: int, p: int|
            0 <= j < self.sector_count() && s0.next_block_at(j) + (if j == s {
                e.size
            } else {
                0
            }) <= p < self.sector_at(j).length() implies (#[trigger] self.bytes(j)[p]) == s0.bytes(
            j,
        )[p] by {
            assert(self.flash.bytes(s2.sectors@[j].index()) == s2.flash.bytes(
                s2.sectors@[j].index(),
            ));
            assert(self.bytes(j) == s2.bytes(j));
            if j != s {
                assert(s0.sectors@[j].index() != idx);
                assert(s1.flash.bytes(s0.sectors@[j].index()) == s0.flash.bytes(
                    s0.sectors@[j].index(),
                ));
                assert(s1.bytes(j) == s0.bytes(j));
            }
            s1.flash.lemma_bytes_len(s1.sectors@[j].index());
            assert(s2.bytes(j)[p] == s1.bytes(j)[p]);
        }
        assert(self.sector_of(tag) == s);
        assert(self.size_of(tag) == size);
        assert(self@.dom() == s0@.dom().insert(tag));
        assert forall|t: Seq<u8>| t != tag && s0@.dom().contains(t) implies #[trigger] self.sector_of(
            t,
        ) == s0.sector_of(t) by {
            assert(s1@.dom().contains(t));
            if had {
                assert(s2.sector_of(t) == s1.sector_of(t));
            }
            assert(s2@.dom().contains(t));
            assert(s2.sector_of(t) == s1.sector_of(t));
            assert(s1.sector_of(t) == s0.sector_of(t));
            assert(self.sector_of(t) == s2.sector_of(t));
        }
    }

    /// Writes a tag-data association on a given sector, after the blocks
    /// that the sector holds: the block is written and made valid, then the
    /// block that the file had before, if there is one, is marked as no
    /// longer valid.
    ///
    /// # Errors
    ///
    /// Errors if `tag` has an invalid length, or if there is not enough free
    /// space on the sector. The filesystem is then as it was.
    pub fn write_impl(&mut self, tag: &[u8], data: &[u8], sector_id: SectorID) -> (r: Result<
        (),
        Error,
    >)
        requires
            old(self).wf(),
            sector_id.0 < old(self).sector_count(),
        ensures
            final(self).wf(),
            final(self).same_sectors(*old(self)),
            match r {
                Ok(()) => {
                    &&& 1 <= tag@.len() < TAG_LIMIT
                    &&& block_size(tag@.len() as int, data@.len() as int) <= old(self).limit(
                        sector_id.0 as int,
                    ) - old(self).next_block_at(sector_id.0 as int)
                    &&& final(self).written(*old(self), tag@, data@, sector_id.0 as int)
                },
                Err(e) => {
                    &&& *final(self) == *old(self)
                    &&& if 1 <= tag@.len() < TAG_LIMIT {
                        e == Error::OutOfFlash && block_size(
                            tag@.len() as int,
                            data@.len() as int,
                        ) > old(self).limit(sector_id.0 as int) - old(self).next_block_at(
                            sector_id.0 as int,
                        )
                    } else {
                        e == Error::InvalidLengthForTag
                    }
                },
            },
            r is Ok && old(self).consistent() ==> final(self).consistent() && final(self)@ == old(
                self,
            )@.insert(tag@, data@),
            r is Ok && !old(self)@.dom().contains(tag@) ==> forall|j: int|
                0 <= j < old(self).sector_count() && j != sector_id.0 ==> #[trigger] final(self).bytes(j) == old(self).bytes(j),
            r is Ok && old(self).blocks_ok() && old(self).tail_at(sector_id.0 as int) ==> {
                &&& final(self).blocks_ok()
                &&& final(self)@ == old(self)@.insert(tag@, data@)
                &&& forall|t: int|
                    0 <= t < old(self).sector_count() && old(self).tail_at(t)
                        ==> #[trigger] final(self).tail_at(t)
            },
    {
        proof {
            reveal(FileSystem::structure_ok);
        }
        if tag.len() == 0 || tag.len() >= TAG_LIMIT {
            return Err(Error::InvalidLengthForTag);
        }
        let sid = sector_id.0;
        let sector = self.sectors[sid];
        proof {
            old(self).lemma_sizes(sid as int);
            sector.lemma_range();
        }
        // Compute metadata for later usage
        let sector_len = sector.len() - if sid == self.defragsector.0 {
            1
        } else {
            0
        };
        let nb = self.next_blocks[sid];
        // Check the sector asked for does have enough free space
        // No need to check for defragmentability as this is done by .available_sector(), doing so
        // would prevent using it from the defragment function
        let datalen = data.len();
        if datalen > sector_len - nb {
            return Err(Error::OutOfFlash);
        }
        let block_len = block_len(tag.len(), datalen);
        let lenlen: usize = if datalen <= 0xFF {
            1
        } else {
            4
        };
        if sector_len - nb < block_len {
            return Err(Error::OutOfFlash);
        }
        proof {
            if old(self).tails_ok() {
                old(self).lemma_sector(sid as int);
            }
        }
        self.put_block(tag, data, sector_id);
        let ghost s1 = *self;
        proof {
            s1.lemma_scribble(old(self), sid as int);
            assert(tag.words() =~= key_words(tag@));
        }
        // Remove previous file from hashmap and mark it as invalid
        let had = match self.erase(tag) {
            Ok(()) => true,
            Err(e) => false,
        };
        let ghost s2 = *self;
        proof {
            s1.lemma_view();
            s2.lemma_view();
            if had {
                s1.lemma_slot(tag@);
            }
            assert(s2.next_block_at(sid as int) == s1.next_block_at(sid as int));
            assert(s2.sector_at(sid as int) == s1.sector_at(sid as int));
            assert(s2.limit(sid as int) == old(self).limit(sid as int));
        }
        // Update the link to the file in hashmap
        let linked = match self.link_file(
            tag,
            1 + lenlen,
            datalen,
            block_len,
            Ghost(data@),
            sector_id,
        ) {
            Ok(g) => g,
            Err(e) => {
                return Err(Error::IO(e));
            },
        };
        proof {
            let f = linked@.0;
            let e = linked@.1;
            self.lemma_insert_wf(&s2, f, e);
            self.lemma_write_done(old(self), &s1, &s2, f, e, tag@, data@, had);
            if old(self).consistent() {
                self.lemma_write_consistent(old(self), &s1, &s2, f, e, tag@, data@, had);
            }
            if old(self).blocks_ok() && old(self).tail_at(sid as int) {
                self.lemma_write_blocks(old(self), &s1, &s2, f, e, tag@, data@, had);
                assert forall|t: int|
                    0 <= t < old(self).sector_count() && old(self).tail_at(
                        t,
                    ) implies #[trigger] self.tail_at(t) by {
                    self.lemma_write_tail(old(self), tag@, data@, sid as int, t);
                }
            }
        }
        Ok(())
    }

    /// Writes the block for `tag` and `data` after the blocks of a sector.
    fn put_block(&mut self, tag: &[u8], data: &[u8], sector_id: SectorID)
        requires
            old(self).wf(),
            sector_id.0 < old(self).sectors@.len(),
            1 <= tag@.len() < TAG_LIMIT,
            block_size(tag@.len() as int, data@.len() as int) <= old(self).limit(
                sector_id.0 as int,
            ) - old(self).next_blocks@[sector_id.0 as int],
        ensures
            final(self).scribble_step(old(self), sector_id.0 as int),
            forall|p: int|
                old(self).next_blocks@[sector_id.0 as int] + block_size(
                    tag@.len() as int,
                    data@.len() as int,
                ) <= p < old(self).sectors@[sector_id.0 as int].length() ==> final(self).bytes(
                    sector_id.0 as int,
                )[p] == old(self).bytes(sector_id.0 as int)[p],
            old(self).tail_at(sector_id.0 as int) ==> final(self).bytes(sector_id.0 as int).subrange(
                old(self).next_blocks@[sector_id.0 as int] as int,
                old(self).next_blocks@[sector_id.0 as int] + block_size(
                    tag@.len() as int,
                    data@.len() as int,
                ),
            ) == image(VALIDITY_VALID, tag@, data@),
    {
        proof {
            reveal(FileSystem::structure_ok);
            reveal(FileSystem::layout_ok);
            reveal(FileSystem::files_ok);
            reveal(FileSystem::locks_ok);
            reveal(FileSystem::blocks_ok);
            reveal(FileSystem::tails_ok);
            reveal(FileSystem::idle);
        }
        let sid = sector_id.0;
        let sector = self.sectors[sid];
        let nb = self.next_blocks[sid];
        proof {
            old(self).lemma_sizes(sid as int);
            sector.lemma_range();
        }
        let block_len = block_len(tag.len(), data.len());
        let ghost idx = sector.index();
        let ghost wl = Lock { write: true, start: nb, length: block_len };
        proof {
            old(self).lemma_free(sid as int, block_len as int);
            old(self).flash.lemma_bytes_len(idx);
            if old(self).tail_at(sid as int) {
                assert(erased_from(
                    old(self).bytes(sid as int),
                    nb as int,
                    old(self).limit(sid as int),
                ));
            }
        }
        match sector.with_writer(&mut self.flash, nb, block_len) {
            Err(e) => {},
            Ok(b) => {
                proof {
                    b.lemma_range();
                }
                let w = write_image(&mut self.flash, &b, tag, data);
                b.release(&mut self.flash);
            },
        }
        proof {
            self.flash.lemma_bytes_len(idx);
            assert(self.flash.same_but_locks(old(self).flash, -1));
        }
    }

    /// Puts into the set the file whose block lies after the blocks that a
    /// sector is taken to hold, and counts the block: the tag is `tag_at`
    /// bytes after the first byte of the block, the data follows it, and the
    /// block has `size` bytes.
    fn link_file(
        &mut self,
        tag: &[u8],
        tag_at: usize,
        datalen: usize,
        size: usize,
        Ghost(data): Ghost<Seq<u8>>,
        sector_id: SectorID,
    ) -> (r: Result<Ghost<(File, Entry)>, IOError>)
        requires
            old(self).wf(),
            data.len() == datalen,
            sector_id.0 < old(self).sectors@.len(),
            tag_at == 2 || tag_at == 5,
            tag_at == 2 ==> datalen <= 0xFF,
            size == tag_at + tag@.len() + datalen + 1,
            size <= old(self).limit(sector_id.0 as int) - old(self).next_blocks@[sector_id.0 as int],
            !old(self)@.dom().contains(tag@),
        ensures
            r matches Ok(g) && final(self).insert_step(old(self), g@.0, g@.1) && g@.0.key@ == tag@
                && g@.0.sector == sector_id && g@.1.data == data && g@.1.size == size
                && g@.0.header_at() == g@.1.start + tag_at - 1 - lenlen(datalen as int)
                && g@.0.data.size() == data.len() && g@.0.data.first() == g@.1.start + tag_at
                + tag@.len(),
    {
        proof {
            reveal(FileSystem::structure_ok);
            reveal(FileSystem::files_ok);
        }
        let sid = sector_id.0;
        let sector = self.sectors[sid];
        let nb = self.next_blocks[sid];
        proof {
            old(self).lemma_sizes(sid as int);
            sector.lemma_range();
            old(self).lemma_view();
        }
        let ghost idx = sector.index();
        let taglen = tag.len();
        proof {
            self.flash.lemma_bytes_len(idx);
            self.lemma_no_writers(
                sid as int,
                Lock { write: false, start: (nb + tag_at) as usize, length: taglen },
            );
            self.lemma_no_writers(
                sid as int,
                Lock { write: false, start: (nb + tag_at + taglen) as usize, length: datalen },
            );
        }
        let new_tag = match sector.read(&mut self.flash, nb + tag_at, taglen) {
            Ok(t) => t,
            Err(e) => {
                return Err(e);
            },
        };
        proof {
            let dl = Lock { write: false, start: (nb + tag_at + taglen) as usize, length: datalen };
            if self.flash.conflicts(idx, dl) {
                let h = choose|h: Lock| #[trigger]
                    self.flash.holds(idx, h) && crate::flash::incompatible(dl, h);
                assert(old(self).flash.holds(idx, h) || h == new_tag.lock());
            }
        }
        let new_data = match sector.read(&mut self.flash, nb + tag_at + taglen, datalen) {
            Ok(d) => d,
            Err(e) => {
                return Err(e);
            },
        };
        let key = vstd::slice::slice_to_vec(tag);
        let f = File { key, tag: new_tag, data: new_data, sector: sector_id, size };
        let ghost fg = f;
        let ghost e = Entry {
            start: nb as int,
            size: size as int,
            validity: VALIDITY_VALID,
            counted: true,
            tag: tag@,
            data,
        };
        proof {
            assert(f.words() == key_words(tag@));
            new_tag.lemma_range();
            new_data.lemma_range();
        }
        self.files.insert(f);
        // Advance next_block pointer
        self.next_blocks[sid] = self.next_blocks[sid] + size;
        self.valid_sizes[sid] = self.valid_sizes[sid] + size;
        proof {
            self.layout@ = old(self).layout@.update(
                sid as int,
                old(self).layout@[sid as int].push(e),
            );
        }
        Ok(Ghost((fg, e)))
    }

    /// A write keeps the flash as the filesystem takes it to be, and puts the
    /// data written under the tag.
    proof fn lemma_write_consistent(
        &self,
        s0: &FileSystem,
        s1: &FileSystem,
        s2: &FileSystem,
        f: File,
        e: Entry,
        tag: Seq<u8>,
        data: Seq<u8>,
        had: bool,
    )
        requires
            s0.consistent(),
            s1.scribble_step(s0, f.sector.0 as int),
            s1.wf(),
            s1@ == s0@,
            s1.blocks_ok(),
            s2.wf(),
            s2.blocks_ok(),
            s2.same_sectors(*s1),
            had == s0@.dom().contains(tag),
            had ==> s2.erased(*s1, tag),
            !had ==> *s2 == *s1,
            self.insert_step(s2, f, e),
            self.wf(),
            self.written(*s0, tag, data, f.sector.0 as int),
            f.key@ == tag,
            e.data == data,
            e.size == block_size(tag.len() as int, data.len() as int),
            encodable(tag.len() as int, data.len() as int),
            f.header_at() == e.start,
            f.data.size() == data.len(),
            f.data.first() == e.start + 1 + lenlen(data.len() as int) + tag.len(),
            s1.bytes(f.sector.0 as int).subrange(e.start, e.start + e.size) == image(
                VALIDITY_VALID,
                tag,
                data,
            ),
        ensures
            self.consistent(),
            self@ == s0@.insert(tag, data),
    {
        reveal(FileSystem::structure_ok);
        reveal(FileSystem::layout_ok);
        reveal(FileSystem::files_ok);
        let s = f.sector.0 as int;
        let idx = s0.sectors@[s].index();
        s0.lemma_sizes(s);
        s1.flash.lemma_bytes_len(idx);
        s2.flash.lemma_bytes_len(idx);
        self.flash.lemma_bytes_len(idx);
        s0.sectors@[s].lemma_range();
        assert(s0.flash.handle(idx) == s0.sectors@[s]);
        assert(s2.bytes(s).subrange(e.start, e.start + e.size) == image(
            VALIDITY_VALID,
            tag,
            data,
        )) by {
            if had {
                s1.lemma_slot(tag);
                let so = s1.sector_of(tag);
                if so == s {
                    assert(s1.header_of(tag) < e.start);
                }
            }
            assert(s2.bytes(s).subrange(e.start, e.start + e.size) =~= s1.bytes(s).subrange(
                e.start,
                e.start + e.size,
            ));
        }
        self.lemma_insert_blocks(s2, f, e);
        assert(self.flash.bytes(idx) == s2.flash.bytes(idx));
        f.data.lemma_range();
        self.lemma_data_of(f, e);
        self.lemma_insert_view(s2, f, e);
        assert(self@ =~= s0@.insert(tag, data));
        self.lemma_write_tails(s0, tag, data, s);
    }

    /// A write keeps the flash as the filesystem takes it to be, and puts the
    /// data written under the tag.
    proof fn lemma_write_blocks(
        &self,
        s0: &FileSystem,
        s1: &FileSystem,
        s2: &FileSystem,
        f: File,
        e: Entry,
        tag: Seq<u8>,
        data: Seq<u8>,
        had: bool,
    )
        requires
            s0.blocks_ok(),
            s1.scribble_step(s0, f.sector.0 as int),
            s1.wf(),
            s1@ == s0@,
            s1.blocks_ok(),
            s2.wf(),
            s2.blocks_ok(),
            s2.same_sectors(*s1),
            had == s0@.dom().contains(tag),
            had ==> s2.erased(*s1, tag),
            !had ==> *s2 == *s1,
            self.insert_step(s2, f, e),
            self.wf(),
            self.written(*s0, tag, data, f.sector.0 as int),
            f.key@ == tag,
            e.data == data,
            e.size == block_size(tag.len() as int, data.len() as int),
            encodable(tag.len() as int, data.len() as int),
            f.header_at() == e.start,
            f.data.size() == data.len(),
            f.data.first() == e.start + 1 + lenlen(data.len() as int) + tag.len(),
            s1.bytes(f.sector.0 as int).subrange(e.start, e.start + e.size) == image(
                VALIDITY_VALID,
                tag,
                data,
            ),
        ensures
            self.blocks_ok(),
            self@ == s0@.insert(tag, data),
    {
        reveal(FileSystem::structure_ok);
        reveal(FileSystem::layout_ok);
        reveal(FileSystem::files_ok);
        let s = f.sector.0 as int;
        let idx = s0.sectors@[s].index();
        s0.lemma_sizes(s);
        s1.flash.lemma_bytes_len(idx);
        s2.flash.lemma_bytes_len(idx);
        self.flash.lemma_bytes_len(idx);
        s0.sectors@[s].lemma_range();
        assert(s0.flash.handle(idx) == s0.sectors@[s]);
        assert(s2.bytes(s).subrange(e.start, e.start + e.size) == image(
            VALIDITY_VALID,
            tag,
            data,
        )) by {
            if had {
                s1.lemma_slot(tag);
                let so = s1.sector_of(tag);
                if so == s {
                    assert(s1.header_of(tag) < e.start);
                }
            }
            assert(s2.bytes(s).subrange(e.start, e.start + e.size) =~= s1.bytes(s).subrange(
                e.start,
                e.start + e.size,
            ));
        }
        self.lemma_insert_blocks(s2, f, e);
        assert(self.flash.bytes(idx) == s2.flash.bytes(idx));
        f.data.lemma_range();
        self.lemma_data_of(f, e);
        self.lemma_insert_view(s2, f, e);
        assert(self@ =~= s0@.insert(tag, data));
    }

    /// A sector that was erased after its blocks is once a file has been
    /// written.
    proof fn lemma_write_tail(&self, s0: &FileSystem, tag: Seq<u8>, data: Seq<u8>, s: int, t: int)
        requires
            s0.wf(),
            self.wf(),
            self.same_sectors(*s0),
            self.written(*s0, tag, data, s),
            0 <= t < self.sector_count(),
            s0.tail_at(t),
        ensures
            self.tail_at(t),
    {
        assert(self.sector_at(t) == s0.sector_at(t));
        assert forall|p: int| self.next_block_at(t) <= p < self.limit(t) implies self.bytes(t)[p]
            == 0xFF by {
            assert(self.next_block_at(t) == s0.next_block_at(t) + if t == s {
                block_size(tag.len() as int, data.len() as int)
            } else {
                0
            });
            assert(self.bytes(t)[p] == s0.bytes(t)[p]);
        }
    }

    /// The sectors are erased after their blocks when a file has been
    /// written.
    proof fn lemma_write_tails(&self, s0: &FileSystem, tag: Seq<u8>, data: Seq<u8>, s: int)
        requires
            s0.wf(),
            s0.tails_ok(),
            self.wf(),
            self.same_sectors(*s0),
            self.written(*s0, tag, data, s),
        ensures
            self.tails_ok(),
    {
        reveal(FileSystem::tails_ok);
        assert forall|t: int| 0 <= t < self.sectors@.len() implies erased_from(
            #[trigger] self.bytes(t),
            self.next_blocks@[t] as int,
            self.limit(t),
        ) by {
            assert(erased_from(s0.bytes(t), s0.next_blocks@[t] as int, s0.limit(t)));
            assert(self.sector_at(t) == s0.sector_at(t));
            assert forall|p: int| self.next_blocks@[t] <= p < self.limit(t) implies self.bytes(
                t,
            )[p] == 0xFF by {
                assert(self.next_block_at(t) == s0.next_block_at(t) + if t == s {
                    block_size(tag.len() as int, data.len() as int)
                } else {
                    0
                });
                assert(self.bytes(t)[p] == s0.bytes(t)[p]);
            }
        }
    }

    /// What a valid entry tells of the file that has its tag.
    pub proof fn lemma_entry(&self, s: int, k: int)
        requires
            self.wf(),
            0 <= s < self.sector_count(),
            0 <= k < self.layout()[s].len(),
            self.layout()[s][k].validity == VALIDITY_VALID,
        ensures
            self@.dom().contains(self.layout()[s][k].tag),
            self.sector_of(self.layout()[s][k].tag) == s,
            self.slot_of(self.layout()[s][k].tag) == k,
            self.size_of(self.layout()[s][k].tag) == self.layout()[s][k].size,
            self.blocks_ok() ==> self@[self.layout()[s][k].tag] == self.layout()[s][k].data
                && self.header_of(self.layout()[s][k].tag) == self.layout()[s][k].start,
    {
        reveal(FileSystem::structure_ok);
        reveal(FileSystem::layout_ok);
        reveal(FileSystem::files_ok);
        reveal(FileSystem::blocks_ok);
        let e = self.layout@[s][k];
        let f = self.files.entry(key_words(e.tag));
        assert(self.files.has_key(key_words(e.tag)));
        self.lemma_view();
        let kk = self.lemma_file(f);
        lemma_key_words(f.key@, e.tag);
        self.lemma_own(f, k, kk);
        self.lemma_own(f, k, self.slot_of(e.tag));
        if self.blocks_ok() {
            assert(f.fits(e));
            assert(holds_blocks(self.bytes(s), self.layout@[s]));
            lemma_holds(self.bytes(s), self.layout@[s], k);
            f.tag.lemma_range();
            f.data.lemma_range();
            self.sectors@[s].lemma_range();
            assert(self.flash.handle(self.sectors@[s].index()) == self.sectors@[s]);
            self.flash.lemma_bytes_len(self.sectors@[s].index());
            self.lemma_data_of(f, e);
        }
    }

    /// The step from `old` to `self` in which a block of the sector `s` has
    /// been looked at.
    spec fn look_step(&self, old: &FileSystem, s: int) -> bool {
        &&& self.scribble_step(old, s)
        &&& self.flash.same_bytes(old.flash)
    }

    /// Nothing changes when a block is looked at.
    proof fn lemma_look(&self, old: &FileSystem, s: int)
        requires
            self.look_step(old, s),
        ensures
            self.wf(),
            self@ == old@,
            self.same_sectors(*old),
            old.blocks_ok() ==> self.blocks_ok(),
            old.tails_ok() ==> self.tails_ok(),
            old.idle() ==> self.idle(),
            forall|j: int| 0 <= j < self.sectors@.len() ==> #[trigger] self.bytes(j) == old.bytes(j),
    {
        reveal(FileSystem::structure_ok);
        reveal(FileSystem::layout_ok);
        reveal(FileSystem::files_ok);
        reveal(FileSystem::locks_ok);
        reveal(FileSystem::blocks_ok);
        reveal(FileSystem::tails_ok);
        reveal(FileSystem::idle);
        self.lemma_scribble(old, s);
        assert forall|j: int| 0 <= j < self.sectors@.len() implies #[trigger] self.bytes(j)
            == old.bytes(j) by {
            assert(old.flash.has(old.sectors@[j]));
            assert(self.flash.bytes(old.sectors@[j].index()) == old.flash.bytes(
                old.sectors@[j].index(),
            ));
        }
        if old.tails_ok() {
            assert forall|t: int| 0 <= t < self.sectors@.len() implies erased_from(
                #[trigger] self.bytes(t),
                self.next_blocks@[t] as int,
                self.limit(t),
            ) by {
                assert(erased_from(old.bytes(t), old.next_blocks@[t] as int, old.limit(t)));
            }
        }
        if old.idle() {
            assert(self.bytes(self.defrag()) == old.bytes(old.defrag()));
            assert forall|t: int|
                0 <= t < self.sectors@.len() && t != self.defragsector.0 implies (
            #[trigger] self.valid_sizes@[t]) <= self.sectors@[self.defragsector.0 as int].length()
                - 1 by {
                assert(old.valid_sizes@[t] <= old.sectors@[old.defragsector.0 as int].length() - 1);
            }
        }
    }

    /// Looks at what lies at `ptr` of a sector, up to `limit`: what is found
    /// there, and the tag and the data of the block if a valid one is found.
    fn peek(&mut self, sid: SectorID, ptr: usize, limit: usize) -> (r: (
        Result<Block, ParseNoBlock>,
        Vec<u8>,
        Vec<u8>,
    ))
        requires
            old(self).wf(),
            sid.0 < old(self).sectors@.len(),
            ptr < limit <= old(self).sectors@[sid.0 as int].length(),
            old(self).next_blocks@[sid.0 as int] <= limit,
        ensures
            final(self).look_step(old(self), sid.0 as int),
            r.0 == parse(old(self).bytes(sid.0 as int).subrange(ptr as int, limit as int)),
            r.0 matches Ok(b) ==> shaped(b, limit - ptr) && b.valid == ((old(self).bytes(
                sid.0 as int,
            )[ptr as int] & VALIDITY_MASK) == VALIDITY_VALID) && (b.valid ==> r.1@ == old(
                self,
            ).bytes(sid.0 as int).subrange(ptr + b.tag_start, ptr + b.tag_start + b.tag_len)
                && r.1@.len() == b.tag_len && r.2@ == old(self).bytes(sid.0 as int).subrange(
                ptr + b.data_start,
                ptr + b.data_start + b.data_len,
            ) && r.2@.len() == b.data_len),
            r.0 matches Err(ParseNoBlock::Erased(n)) ==> 0 < n <= limit - ptr,
    {
        proof {
            reveal(FileSystem::structure_ok);
            reveal(FileSystem::layout_ok);
            reveal(FileSystem::files_ok);
            reveal(FileSystem::locks_ok);
            reveal(FileSystem::blocks_ok);
            reveal(FileSystem::tails_ok);
            reveal(FileSystem::idle);
        }
        let sector = self.sectors[sid.0];
        let ghost idx = sector.index();
        let ghost zl = Lock { write: false, start: ptr, length: (limit - ptr) as usize };
        proof {
            sector.lemma_range();
            old(self).lemma_no_writers(sid.0 as int, zl);
            old(self).flash.lemma_bytes_len(idx);
            if old(self).flash.holds(idx, zl) {
                let g = choose|g: File| #[trigger]
                    old(self).files.contains(g) && g.sector.0 == sid.0 && (zl == g.tag.lock() || zl
                        == g.data.lock());
                let j = old(self).lemma_file(g);
                g.tag.lemma_range();
                g.data.lemma_range();
            }
        }
        let zone = match sector.read(&mut self.flash, ptr, limit - ptr) {
            Ok(z) => z,
            Err(e) => {
                return (Err(ParseNoBlock::Broken), Vec::new(), Vec::new());
            },
        };
        proof {
            zone.lemma_range();
            self.flash.lemma_bytes_len(idx);
        }
        let bytes = zone.as_slice(&self.flash);
        let parsed = parse_hdr(bytes);
        let (tag, data) = match parsed {
            Ok(b) => {
                if b.valid {
                    proof {
                        assert(bytes@.subrange(
                            b.tag_start as int,
                            b.tag_start + b.tag_len,
                        ) =~= old(self).bytes(sid.0 as int).subrange(
                            ptr + b.tag_start,
                            ptr + b.tag_start + b.tag_len,
                        ));
                        assert(bytes@.subrange(
                            b.data_start as int,
                            b.data_start + b.data_len,
                        ) =~= old(self).bytes(sid.0 as int).subrange(
                            ptr + b.data_start,
                            ptr + b.data_start + b.data_len,
                        ));
                    }
                    (
                        vstd::slice::slice_to_vec(
                            slice_subrange(bytes, b.tag_start, b.tag_start + b.tag_len),
                        ),
                        vstd::slice::slice_to_vec(
                            slice_subrange(bytes, b.data_start, b.data_start + b.data_len),
                        ),
                    )
                } else {
                    (Vec::new(), Vec::new())
                }
            },
            Err(_) => (Vec::new(), Vec::new()),
        };
        zone.release(&mut self.flash);
        proof {
            assert(self.flash.same_but_locks(old(self).flash, -1));
        }
        (parsed, tag, data)
    }

    /// The valid blocks of the sector `src` are being copied to the sector
    /// `dst`, and those of the `k` first entries have been: `f0` is the
    /// filesystem before any was.
    spec fn copying(&self, f0: &FileSystem, src: int, dst: int, k: int) -> bool {
        let l0 = f0.layout@[src];
        &&& self.wf()
        &&& self.consistent()
        &&& self@ == f0@
        &&& self.same_sectors(*f0)
        &&& 0 <= src < self.sectors@.len()
        &&& 0 <= dst < self.sectors@.len()
        &&& src != dst
        &&& 0 <= k <= l0.len()
        &&& self.layout@[src].len() == l0.len()
        &&& forall|j: int|
            0 <= j < l0.len() ==> #[trigger] self.layout@[src][j] == if j < k && l0[j].validity
                == VALIDITY_VALID {
                retired(l0[j])
            } else {
                l0[j]
            }
        &&& all_valid(self.layout@[dst])
        &&& self.next_blocks@[dst] + self.valid_sizes@[src] == f0.next_blocks@[dst]
            + f0.valid_sizes@[src]
        &&& self.valid_sizes@[dst] + self.valid_sizes@[src] == f0.valid_sizes@[dst]
            + f0.valid_sizes@[src]
        &&& self.next_blocks@[src] == f0.next_blocks@[src]
        &&& forall|j: int|
            0 <= j < self.sectors@.len() && j != src && j != dst ==> #[trigger] self.layout@[j]
                == f0.layout@[j] && self.next_blocks@[j] == f0.next_blocks@[j]
                && self.valid_sizes@[j] == f0.valid_sizes@[j]
        &&& forall|t: Seq<u8>| #[trigger]
            f0@.dom().contains(t) ==> self.sector_of(t) == f0.sector_of(t) || ((f0.sector_of(t)
                == src || f0.sector_of(t) == dst) && (self.sector_of(t) == src || self.sector_of(t)
                == dst))
    }

    /// What a sector holds in a filesystem whose flash holds what the
    /// filesystem takes it to hold.
    proof fn lemma_sector(&self, s: int)
        requires
            self.wf(),
            0 <= s < self.sectors@.len(),
        ensures
            self.blocks_ok() ==> holds_blocks(self.bytes(s), self.layout@[s])
                && self.next_blocks@[s] == total_sum(self.layout@[s]),
            self.tails_ok() ==> erased_from(
                self.bytes(s),
                self.next_blocks@[s] as int,
                self.limit(s),
            ),
            self.bytes(s).len() == self.sectors@[s].length(),
            0 <= self.next_blocks@[s] <= self.limit(s) <= self.sectors@[s].length(),
    {
        self.lemma_sizes(s);
        self.lemma_structure();
        self.sectors@[s].lemma_range();
        assert(self.storage().has(self.sector_at(s)));
        self.flash.lemma_bytes_len(self.sectors@[s].index());
        if self.blocks_ok() {
            assert(holds_blocks(self.bytes(s), self.layout@[s]) && self.next_blocks@[s]
                == total_sum(self.layout@[s])) by {
                reveal(FileSystem::blocks_ok);
            }
        }
        if self.tails_ok() {
            assert(erased_from(self.bytes(s), self.next_blocks@[s] as int, self.limit(s))) by {
                reveal(FileSystem::tails_ok);
            }
        }
    }

    /// What lies at the place of the `k`-th entry of a sector: its block, or
    /// erased bytes after the last entry.
    proof fn lemma_at(&self, s: int, k: int)
        requires
            self.wf(),
            self.consistent(),
            0 <= s < self.sectors@.len(),
            0 <= k <= self.layout@[s].len(),
        ensures
            ({
                let l = self.layout@[s];
                let ptr = total_sum(l.take(k));
                let zone = self.bytes(s).subrange(ptr, self.limit(s));
                &&& 0 <= ptr <= self.next_blocks@[s] <= self.limit(s) <= self.bytes(s).len()
                &&& k == l.len() ==> ptr == self.next_blocks@[s] && (ptr < self.limit(s)
                    ==> parse(zone) == Err::<Block, ParseNoBlock>(ParseNoBlock::Empty))
                &&& k < l.len() ==> {
                    &&& ptr == l[k].start
                    &&& ptr + l[k].size == total_sum(l.take(k + 1))
                    &&& ptr + l[k].size <= self.next_blocks@[s]
                    &&& l[k].counted == (l[k].validity == VALIDITY_VALID)
                    &&& 1 <= l[k].size
                    &&& l[k].tag.len() == 0 ==> l[k].validity == VALIDITY_NOLONGER && parse(zone)
                        == Err::<Block, ParseNoBlock>(ParseNoBlock::Erased(l[k].size as usize))
                    &&& l[k].tag.len() > 0 ==> {
                        &&& encodable(l[k].tag.len() as int, l[k].data.len() as int)
                        &&& l[k].size == block_size(
                            l[k].tag.len() as int,
                            l[k].data.len() as int,
                        )
                        &&& parse(zone) == Ok::<Block, ParseNoBlock>(
                            Block {
                                valid: l[k].validity == VALIDITY_VALID,
                                tag_start: (1 + lenlen(l[k].data.len() as int)) as usize,
                                tag_len: l[k].tag.len() as usize,
                                data_start: (1 + lenlen(l[k].data.len() as int)
                                    + l[k].tag.len()) as usize,
                                data_len: l[k].data.len() as usize,
                                size: l[k].size as usize,
                            },
                        )
                        &&& self.bytes(s).subrange(
                            ptr + 1 + lenlen(l[k].data.len() as int),
                            ptr + 1 + lenlen(l[k].data.len() as int) + l[k].tag.len(),
                        ) == l[k].tag
                        &&& self.bytes(s).subrange(
                            ptr + 1 + lenlen(l[k].data.len() as int) + l[k].tag.len(),
                            ptr + 1 + lenlen(l[k].data.len() as int) + l[k].tag.len()
                                + l[k].data.len(),
                        ) == l[k].data
                    }
                }
            }),
    {
        let l = self.layout@[s];
        let ptr = total_sum(l.take(k));
        let bytes = self.bytes(s);
        let zone = bytes.subrange(ptr, self.limit(s));
        self.lemma_sector(s);
        self.sectors@[s].lemma_range();
        if k == l.len() {
            assert(l.take(k) == l);
            if ptr < self.limit(s) {
                assert(zone[0] == bytes[ptr]);
                crate::format::lemma_parse_empty(zone);
            }
        } else {
            lemma_holds(bytes, l, k);
            lemma_total_take(l, k);
            let e = l[k];
            if e.tag.len() == 0 {
                lemma_zeros_at(bytes, self.limit(s), l, k);
            } else {
                assert(zone.subrange(0, e.size) =~= bytes.subrange(e.start, e.start + e.size));
                crate::format::lemma_parse_image(zone, e.validity, e.tag, e.data);
                let i = 1 + lenlen(e.data.len() as int);
                assert(zone.subrange(i, i + e.tag.len()) =~= bytes.subrange(
                    ptr + i,
                    ptr + i + e.tag.len(),
                ));
                assert(zone.subrange(i + e.tag.len(), i + e.tag.len() + e.data.len())
                    =~= bytes.subrange(
                    ptr + i + e.tag.len(),
                    ptr + i + e.tag.len() + e.data.len(),
                ));
            }
        }
    }

    /// The copy goes on after the block of the `k`-th entry, which was
    /// valid, has been written on the other sector.
    #[verifier::spinoff_prover]
    #[verifier::rlimit(40)]
    proof fn lemma_copy_valid(&self, before: &FileSystem, f0: &FileSystem, src: int, dst: int, k: int)
        requires
            before.copying(f0, src, dst, k),
            k < f0.layout@[src].len(),
            f0.layout@[src][k].validity == VALIDITY_VALID,
            self.wf(),
            self.consistent(),
            self.same_sectors(*before),
            self.written(*before, f0.layout@[src][k].tag, f0.layout@[src][k].data, dst),
            self@ == before@.insert(f0.layout@[src][k].tag, f0.layout@[src][k].data),
        ensures
            self.copying(f0, src, dst, k + 1),
            self.next_blocks@[dst] + self.valid_sizes@[src] == before.next_blocks@[dst]
                + before.valid_sizes@[src],
    {
        reveal(FileSystem::structure_ok);
        reveal(FileSystem::layout_ok);
        reveal(FileSystem::blocks_ok);
        let e = f0.layout@[src][k];
        assert(before.layout@[src][k] == e);
        before.lemma_entry(src, k);
        before.lemma_sizes(src);
        before.lemma_sizes(dst);
        assert(holds_blocks(before.bytes(src), before.layout@[src]));
        lemma_holds(before.bytes(src), before.layout@[src], k);
        assert(before.credit(src, e.tag) == e.size);
        assert(before.credit(dst, e.tag) == 0);
        assert(self@ =~= f0@);
        assert(self.same_sectors(*f0)) by {
            assert forall|i: int| 0 <= i < self.sector_count() implies self.sector_at(i)
                == f0.sector_at(i) by {
                assert(self.sector_at(i) == before.sector_at(i));
            }
        }
        let size = block_size(e.tag.len() as int, e.data.len() as int);
        let base = before.layout().update(src, before.layout()[src].update(k, retired(e)));
        let pushed = Entry {
            start: before.next_block_at(dst),
            size,
            validity: VALIDITY_VALID,
            counted: true,
            tag: e.tag,
            data: e.data,
        };
        assert(self.layout() == base.update(dst, base[dst].push(pushed)));
        assert(self.layout@[src] == before.layout@[src].update(k, retired(e)));
        assert(self.layout@[dst] == before.layout@[dst].push(pushed));
        assert forall|j: int| 0 <= j < f0.layout@[src].len() implies #[trigger] self.layout@[src][j]
            == if j < k + 1 && f0.layout@[src][j].validity == VALIDITY_VALID {
            retired(f0.layout@[src][j])
        } else {
            f0.layout@[src][j]
        } by {
            assert(before.layout@[src][j] == if j < k && f0.layout@[src][j].validity
                == VALIDITY_VALID {
                retired(f0.layout@[src][j])
            } else {
                f0.layout@[src][j]
            });
        }
        assert(all_valid(self.layout@[dst])) by {
            assert forall|j: int| 0 <= j < self.layout@[dst].len() implies (
            #[trigger] self.layout@[dst][j]).validity == VALIDITY_VALID by {
                if j < before.layout@[dst].len() {
                    assert(before.layout@[dst][j].validity == VALIDITY_VALID);
                }
            }
        }
        assert(self.next_block_at(dst) == before.next_block_at(dst) + size);
        assert(self.next_block_at(src) == before.next_block_at(src));
        assert(self.valid_size_at(dst) == before.valid_size_at(dst) - before.credit(dst, e.tag)
            + size);
        assert(self.valid_size_at(src) == before.valid_size_at(src) - before.credit(src, e.tag));
        assert forall|j: int|
            0 <= j < self.sectors@.len() && j != src && j != dst implies #[trigger] self.layout@[j]
            == f0.layout@[j] && self.next_blocks@[j] == f0.next_blocks@[j] && self.valid_sizes@[j]
            == f0.valid_sizes@[j] by {
            assert(before.layout@[j] == f0.layout@[j]);
            assert(self.next_block_at(j) == before.next_block_at(j));
            assert(self.valid_size_at(j) == before.valid_size_at(j) - before.credit(j, e.tag));
        }
    }

    /// Once the copy is over, no block of the sector copied from is valid,
    /// and all of its valid size has gone to the other sector.
    proof fn lemma_copied(&self, f0: &FileSystem, src: int, dst: int)
        requires
            self.copying(f0, src, dst, f0.layout@[src].len() as int),
        ensures
            none_valid(self.layout()[src]),
            all_valid(self.layout()[dst]),
            self.valid_size_at(src) == 0,
            self.next_block_at(dst) == self.valid_size_at(dst),
    {
        reveal(FileSystem::structure_ok);
        reveal(FileSystem::layout_ok);
        reveal(FileSystem::blocks_ok);
        let l = self.layout@[src];
        assert(holds_blocks(self.bytes(src), l));
        assert(holds_blocks(self.bytes(dst), self.layout@[dst]));
        assert(none_valid(l)) by {
            assert forall|j: int| 0 <= j < l.len() implies (#[trigger] l[j]).validity
                != VALIDITY_VALID by {
                assert(self.layout@[src][j] == if f0.layout@[src][j].validity == VALIDITY_VALID {
                    retired(f0.layout@[src][j])
                } else {
                    f0.layout@[src][j]
                });
            }
        }
        assert forall|j: int| 0 <= j < l.len() implies (#[trigger] l[j]).counted == (l[j].validity
            == VALIDITY_VALID) by {
            lemma_holds(self.bytes(src), l, j);
        }
        lemma_counted_all_or_none(l);
        let d = self.layout@[dst];
        assert forall|j: int| 0 <= j < d.len() implies (#[trigger] d[j]).counted == (d[j].validity
            == VALIDITY_VALID) by {
            lemma_holds(self.bytes(dst), d, j);
        }
        lemma_counted_all_or_none(d);
    }

    /// Whether the copy of the valid blocks of `src` to `dst` that began at
    /// `f0` has come to the `k`-th entry, which is at `ptr`, and there is
    /// room for what is left to copy.
    spec fn copy_at(&self, f0: &FileSystem, src: int, dst: int, k: int, ptr: int, limit: int) -> bool {
        &&& self.copying(f0, src, dst, k)
        &&& ptr == total_sum(f0.layout@[src].take(k))
        &&& limit == self.limit(src)
        &&& self.next_blocks@[dst] + self.valid_sizes@[src] <= self.limit(dst)
    }

    /// The state of a copy of blocks that the filesystem has not read, from
    /// the sector `src`, which holds the blocks of the entries `p`, to the
    /// sector `dst`, once the first `k` are done with: the valid ones of
    /// them are files on `dst`, and all else is as in `f0`.
    spec fn adopting(&self, f0: &FileSystem, p: Seq<Entry>, src: int, dst: int, k: int) -> bool {
        &&& self.wf()
        &&& self.blocks_ok()
        &&& f0.wf()
        &&& self.same_sectors(*f0)
        &&& 0 <= src < self.sectors@.len()
        &&& 0 <= dst < self.sectors@.len()
        &&& src != dst
        &&& 0 <= k <= p.len()
        &&& holds_blocks(f0.bytes(src), p)
        &&& forall|i: int, j: int|
            0 <= i < j < p.len() && (#[trigger] p[i]).validity == VALIDITY_VALID && (
            #[trigger] p[j]).validity == VALIDITY_VALID ==> p[i].tag != p[j].tag
        &&& forall|i: int|
            0 <= i < p.len() && (#[trigger] p[i]).validity == VALIDITY_VALID ==> !f0@.dom().contains(
                p[i].tag,
            ) && p[i].tag.len() < TAG_LIMIT
        &&& !none_valid(p) ==> self.tail_at(dst)
        &&& none_valid(p) ==> self.bytes(dst) == f0.bytes(dst) && self.layout@[dst]
            == f0.layout@[dst]
        &&& self.next_blocks@[dst] == f0.next_blocks@[dst] + counted_sum(p.take(k))
        &&& self.valid_sizes@[dst] == f0.valid_sizes@[dst] + counted_sum(p.take(k))
        &&& f0.next_blocks@[dst] + counted_sum(p) <= f0.limit(dst)
        &&& self@ == adopted(f0@, p, k)
        &&& forall|t: int|
            0 <= t < self.sectors@.len() && t != dst ==> #[trigger] self.bytes(t) == f0.bytes(t)
                && self.layout@[t] == f0.layout@[t] && self.next_blocks@[t] == f0.next_blocks@[t]
                && self.valid_sizes@[t] == f0.valid_sizes@[t]
    }

    /// The state of such a copy that has come to the place `ptr` of the
    /// sector `src`, which is read up to `limit`.
    spec fn adopt_at(
        &self,
        f0: &FileSystem,
        p: Seq<Entry>,
        src: int,
        dst: int,
        k: int,
        ptr: int,
        limit: int,
    ) -> bool {
        &&& self.adopting(f0, p, src, dst, k)
        &&& ptr == total_sum(p.take(k))
        &&& total_sum(p) <= limit <= self.sectors@[src].length()
        &&& erased_from(f0.bytes(src), total_sum(p), limit)
    }

    /// Such a copy is where it was after a block has been looked at.
    #[verifier::spinoff_prover]
    #[verifier::rlimit(40)]
    proof fn lemma_adopt_look(
        &self,
        before: &FileSystem,
        f0: &FileSystem,
        p: Seq<Entry>,
        src: int,
        dst: int,
        k: int,
        ptr: int,
        limit: int,
    )
        requires
            self.look_step(before, src),
            before.adopt_at(f0, p, src, dst, k, ptr, limit),
        ensures
            self.adopt_at(f0, p, src, dst, k, ptr, limit),
            self.bytes(src) == before.bytes(src),
    {
        self.lemma_look(before, src);
        assert(self.same_sectors(*f0)) by {
            assert forall|i: int| 0 <= i < self.sector_count() implies self.sector_at(i)
                == f0.sector_at(i) by {
                assert(self.sector_at(i) == before.sector_at(i));
            }
        }
        assert forall|t: int| 0 <= t < self.sectors@.len() implies #[trigger] self.bytes(t)
            == before.bytes(t) by {}
        if !none_valid(p) {
            assert(self.bytes(dst) == before.bytes(dst));
            assert(self.limit(dst) == before.limit(dst));
        }
        assert(self.adopting(f0, p, src, dst, k));
    }

    /// What is found at the place that such a copy has come to.
    #[verifier::spinoff_prover]
    #[verifier::rlimit(40)]
    proof fn lemma_adopt_pre(
        &self,
        f0: &FileSystem,
        p: Seq<Entry>,
        src: int,
        dst: int,
        k: int,
        ptr: int,
        limit: int,
    )
        requires
            self.adopt_at(f0, p, src, dst, k, ptr, limit),
        ensures
            ({
                let zone = self.bytes(src).subrange(ptr, limit);
                &&& 0 <= ptr <= total_sum(p) <= limit
                &&& k == p.len() ==> (ptr < limit ==> parse(zone) == Err::<Block, ParseNoBlock>(
                    ParseNoBlock::Empty,
                ))
                &&& k < p.len() ==> {
                    &&& ptr + p[k].size == total_sum(p.take(k + 1))
                    &&& ptr + p[k].size <= total_sum(p)
                    &&& p[k].size >= 1
                    &&& p[k].counted == (p[k].validity == VALIDITY_VALID)
                    &&& p[k].tag.len() == 0 ==> p[k].validity == VALIDITY_NOLONGER && parse(zone)
                        == Err::<Block, ParseNoBlock>(ParseNoBlock::Erased(p[k].size as usize))
                    &&& p[k].tag.len() > 0 ==> {
                        &&& p[k].size == block_size(
                            p[k].tag.len() as int,
                            p[k].data.len() as int,
                        )
                        &&& parse(zone) matches Ok(b)
                        &&& b.valid == (p[k].validity == VALIDITY_VALID)
                        &&& b.size == p[k].size
                        &&& b.tag_len == p[k].tag.len()
                        &&& b.data_len == p[k].data.len()
                        &&& self.bytes(src).subrange(
                            ptr + b.tag_start,
                            ptr + b.tag_start + b.tag_len,
                        ) == p[k].tag
                        &&& self.bytes(src).subrange(
                            ptr + b.data_start,
                            ptr + b.data_start + b.data_len,
                        ) == p[k].data
                    }
                    &&& self.next_blocks@[dst] + (if p[k].counted {
                        p[k].size
                    } else {
                        0
                    }) <= self.limit(dst)
                }
            }),
    {
        self.lemma_sector(src);
        f0.lemma_sector(src);
        self.lemma_sizes(dst);
        assert(self.sector_at(src) == f0.sector_at(src));
        assert(self.sector_at(dst) == f0.sector_at(dst));
        f0.sectors@[src].lemma_range();
        assert(f0.bytes(src).len() == self.sectors@[src].length());
        lemma_at_bytes(f0.bytes(src), p, k, limit);
        assert forall|j: int| 0 <= j < p.len() implies (#[trigger] p[j]).size >= 0 by {
            lemma_holds(f0.bytes(src), p, j);
        }
        if k < p.len() {
            lemma_counted_take(p, k);
            lemma_counted_mono(p, k + 1, p.len() as int);
            assert(p.take(p.len() as int) == p);
        }
    }

    /// Such a copy goes on after an entry that is not valid.
    proof fn lemma_adopt_skip(
        &self,
        f0: &FileSystem,
        p: Seq<Entry>,
        src: int,
        dst: int,
        k: int,
        ptr: int,
        limit: int,
    )
        requires
            self.adopt_at(f0, p, src, dst, k, ptr, limit),
            k < p.len(),
            p[k].validity != VALIDITY_VALID,
        ensures
            self.adopt_at(f0, p, src, dst, k + 1, ptr + p[k].size, limit),
    {
        lemma_total_take(p, k);
        lemma_counted_take(p, k);
        lemma_holds(f0.bytes(src), p, k);
    }

    /// Such a copy goes on after the block of the `k`-th entry, which was
    /// valid, has been written on the other sector.
    proof fn lemma_adopt_valid(
        &self,
        before: &FileSystem,
        f0: &FileSystem,
        p: Seq<Entry>,
        src: int,
        dst: int,
        k: int,
        ptr: int,
        limit: int,
    )
        requires
            before.adopt_at(f0, p, src, dst, k, ptr, limit),
            k < p.len(),
            p[k].validity == VALIDITY_VALID,
            self.wf(),
            self.blocks_ok(),
            self.tail_at(dst),
            self.same_sectors(*before),
            self.written(*before, p[k].tag, p[k].data, dst),
            self@ == before@.insert(p[k].tag, p[k].data),
            forall|j: int|
                0 <= j < before.sector_count() && j != dst ==> #[trigger] self.bytes(j)
                    == before.bytes(j),
        ensures
            self.adopt_at(f0, p, src, dst, k + 1, ptr + p[k].size, limit),
    {
        reveal(FileSystem::structure_ok);
        let e = p[k];
        lemma_total_take(p, k);
        lemma_counted_take(p, k);
        lemma_holds(f0.bytes(src), p, k);
        lemma_adopted_dom(f0@, p, k, e.tag);
        assert(!before@.dom().contains(e.tag)) by {
            if before@.dom().contains(e.tag) {
                let i = choose|i: int|
                    0 <= i < k && (#[trigger] p[i]).validity == VALIDITY_VALID && p[i].tag == e.tag;
                assert(p[i].tag != p[k].tag);
            }
        }
        assert(before.credit(dst, e.tag) == 0);
        assert(self.same_sectors(*f0)) by {
            assert forall|i: int| 0 <= i < self.sector_count() implies self.sector_at(i)
                == f0.sector_at(i) by {
                assert(self.sector_at(i) == before.sector_at(i));
            }
        }
        assert(self.next_block_at(dst) == before.next_block_at(dst) + e.size);
        assert(self.valid_size_at(dst) == before.valid_size_at(dst) - before.credit(dst, e.tag)
            + e.size);
        assert forall|t: int| 0 <= t < self.sectors@.len() && t != dst implies #[trigger] self.bytes(
            t,
        ) == f0.bytes(t) && self.layout@[t] == f0.layout@[t] && self.next_blocks@[t]
            == f0.next_blocks@[t] && self.valid_sizes@[t] == f0.valid_sizes@[t] by {
            assert(self.bytes(t) == before.bytes(t));
            assert(before.bytes(t) == f0.bytes(t));
            assert(self.next_block_at(t) == before.next_block_at(t));
            assert(self.valid_size_at(t) == before.valid_size_at(t) - before.credit(t, e.tag));
            assert(self.layout() == before.layout().update(
                dst,
                before.layout()[dst].push(
                    Entry {
                        start: before.next_block_at(dst),
                        size: block_size(e.tag.len() as int, e.data.len() as int),
                        validity: VALIDITY_VALID,
                        counted: true,
                        tag: e.tag,
                        data: e.data,
                    },
                ),
            ));
        }
        assert(!none_valid(p));
        assert(e.counted);
        assert(e.size == block_size(e.tag.len() as int, e.data.len() as int));
        assert(self.next_blocks@[dst] == f0.next_blocks@[dst] + counted_sum(p.take(k + 1)));
        assert(self.valid_sizes@[dst] == f0.valid_sizes@[dst] + counted_sum(p.take(k + 1)));
        assert(adopted(f0@, p, k + 1) == adopted(f0@, p, k).insert(e.tag, e.data));
        assert(self@ == adopted(f0@, p, k + 1));
        assert(ptr + e.size == total_sum(p.take(k + 1)));
        assert(self.sectors@[src].length() == before.sectors@[src].length()) by {
            assert(self.sector_at(src) == before.sector_at(src));
        }
        assert(self.adopting(f0, p, src, dst, k + 1));
    }

    /// What is found at the place that the copy has come to.
    proof fn lemma_copy_pre(
        &self,
        f0: &FileSystem,
        src: int,
        dst: int,
        k: int,
        ptr: int,
        limit: int,
    )
        requires
            self.copy_at(f0, src, dst, k, ptr, limit),
            ptr < limit,
        ensures
            ({
                let l0 = f0.layout@[src];
                let zone = self.bytes(src).subrange(ptr, limit);
                &&& k == l0.len() ==> parse(zone) == Err::<Block, ParseNoBlock>(
                    ParseNoBlock::Empty,
                )
                &&& k < l0.len() ==> {
                    &&& ptr + l0[k].size == total_sum(l0.take(k + 1))
                    &&& self.layout@[src][k] == l0[k]
                    &&& 1 <= l0[k].size <= limit - ptr
                    &&& l0[k].tag.len() == 0 ==> l0[k].validity == VALIDITY_NOLONGER && parse(zone)
                        == Err::<Block, ParseNoBlock>(ParseNoBlock::Erased(l0[k].size as usize))
                    &&& l0[k].tag.len() > 0 ==> {
                        &&& parse(zone) matches Ok(b)
                        &&& b.valid == (l0[k].validity == VALIDITY_VALID)
                        &&& b.size == l0[k].size
                        &&& b.tag_len == l0[k].tag.len()
                        &&& b.data_len == l0[k].data.len()
                        &&& self.bytes(src).subrange(
                            ptr + b.tag_start,
                            ptr + b.tag_start + b.tag_len,
                        ) == l0[k].tag
                        &&& self.bytes(src).subrange(
                            ptr + b.data_start,
                            ptr + b.data_start + b.data_len,
                        ) == l0[k].data
                        &&& 1 <= l0[k].tag.len() < TAG_LIMIT
                        &&& l0[k].size == block_size(
                            l0[k].tag.len() as int,
                            l0[k].data.len() as int,
                        )
                        &&& b.valid ==> l0[k].size <= self.limit(dst) - self.next_blocks@[dst]
                    }
                }
            }),
    {
        reveal(FileSystem::blocks_ok);
        let l0 = f0.layout@[src];
        self.lemma_at(src, k);
        assert forall|j: int| 0 <= j < l0.len() implies (#[trigger] self.layout@[src][j]).size
            == l0[j].size by {
            assert(self.layout@[src][j] == if j < k && l0[j].validity == VALIDITY_VALID {
                retired(l0[j])
            } else {
                l0[j]
            });
        }
        lemma_total_same(self.layout@[src], l0, k);
        if k < l0.len() {
            lemma_total_same(self.layout@[src], l0, k + 1);
            assert(self.layout@[src][k] == l0[k]);
            if l0[k].validity == VALIDITY_VALID {
                self.lemma_sizes(src);
                self.lemma_sizes(dst);
                assert forall|j: int| 0 <= j < self.layout@[src].len() implies (
                #[trigger] self.layout@[src][j]).size >= 0 by {
                    lemma_holds(self.bytes(src), self.layout@[src], j);
                }
                lemma_sum_member(self.layout@[src], k);
            }
        }
    }

    /// The copy goes on after an entry that is not valid.
    proof fn lemma_copy_skip(
        &self,
        f0: &FileSystem,
        src: int,
        dst: int,
        k: int,
        ptr: int,
        limit: int,
    )
        requires
            self.copy_at(f0, src, dst, k, ptr, limit),
            k < f0.layout@[src].len(),
            f0.layout@[src][k].validity != VALIDITY_VALID,
        ensures
            self.copy_at(f0, src, dst, k + 1, ptr + f0.layout@[src][k].size, limit),
    {
        let l0 = f0.layout@[src];
        lemma_total_take(l0, k);
        assert forall|j: int| 0 <= j < l0.len() implies (#[trigger] self.layout@[src][j]) == if j
            < k + 1 && l0[j].validity == VALIDITY_VALID {
            retired(l0[j])
        } else {
            l0[j]
        } by {
            assert(self.layout@[src][j] == if j < k && l0[j].validity == VALIDITY_VALID {
                retired(l0[j])
            } else {
                l0[j]
            });
        }
    }

    /// The copy is where it was after a block has been looked at.
    proof fn lemma_copy_look(
        &self,
        before: &FileSystem,
        f0: &FileSystem,
        src: int,
        dst: int,
        k: int,
        ptr: int,
        limit: int,
    )
        requires
            self.look_step(before, src),
            before.copy_at(f0, src, dst, k, ptr, limit),
        ensures
            self.copy_at(f0, src, dst, k, ptr, limit),
            self.bytes(src) == before.bytes(src),
    {
        self.lemma_look(before, src);
        assert(self.same_sectors(*f0)) by {
            assert forall|i: int| 0 <= i < self.sector_count() implies self.sector_at(i)
                == f0.sector_at(i) by {
                assert(self.sector_at(i) == before.sector_at(i));
            }
        }
    }

    /// Looks at what lies at `ptr` of the sector `src`, and copies it to the
    /// sector `dst` if it is a valid block.
    fn copy_block(
        &mut self,
        src: SectorID,
        limit: usize,
        dst: SectorID,
        ptr: usize,
        Ghost(f0): Ghost<&FileSystem>,
        Ghost(k): Ghost<int>,
        Ghost(p): Ghost<Seq<Entry>>,
    ) -> (r: Result<Scan, Error>)
        requires
            old(self).wf(),
            src.0 < old(self).sectors@.len(),
            dst.0 < old(self).sectors@.len(),
            ptr < limit,
            old(self).limit(src.0 as int) <= limit <= old(self).sectors@[src.0 as int].length(),
        ensures
            final(self).wf(),
            final(self).same_sectors(*old(self)),
            r matches Ok(Scan::Next(n)) ==> 0 < n <= limit - ptr,
            old(self).adopt_at(f0, p, src.0 as int, dst.0 as int, k, ptr as int, limit as int) ==> {
                if k == p.len() {
                    r == Ok::<Scan, Error>(Scan::End) && final(self).adopting(
                        f0,
                        p,
                        src.0 as int,
                        dst.0 as int,
                        k,
                    )
                } else {
                    r matches Ok(Scan::Next(n)) && final(self).adopt_at(
                        f0,
                        p,
                        src.0 as int,
                        dst.0 as int,
                        k + 1,
                        ptr + n,
                        limit as int,
                    )
                }
            },
            old(self).copy_at(f0, src.0 as int, dst.0 as int, k, ptr as int, limit as int) ==> {
                if k == f0.layout@[src.0 as int].len() {
                    r == Ok::<Scan, Error>(Scan::End) && final(self).copying(
                        f0,
                        src.0 as int,
                        dst.0 as int,
                        k,
                    )
                } else {
                    r matches Ok(Scan::Next(n)) && final(self).copy_at(
                        f0,
                        src.0 as int,
                        dst.0 as int,
                        k + 1,
                        ptr + n,
                        limit as int,
                    )
                }
            },
    {
        let ghost s = src.0 as int;
        let ghost d = dst.0 as int;
        let ghost good = old(self).copy_at(f0, s, d, k, ptr as int, limit as int);
        let ghost adopt = old(self).adopt_at(f0, p, s, d, k, ptr as int, limit as int);
        let ghost before = *self;
        proof {
            old(self).lemma_sizes(s);
        }
        let (parsed, tag, data) = self.peek(src, ptr, limit);
        let ghost looked = *self;
        proof {
            self.lemma_look(&before, s);
            if good {
                self.lemma_copy_look(&before, f0, s, d, k, ptr as int, limit as int);
                self.lemma_copy_pre(f0, s, d, k, ptr as int, limit as int);
            }
            if adopt {
                self.lemma_adopt_look(&before, f0, p, s, d, k, ptr as int, limit as int);
                self.lemma_adopt_pre(f0, p, s, d, k, ptr as int, limit as int);
            }
        }
        match parsed {
            Err(ParseNoBlock::Empty) => Ok(Scan::End),
            Err(ParseNoBlock::Broken) => Ok(Scan::Broken),
            Err(ParseNoBlock::Erased(size)) => {
                proof {
                    if good {
                        let l0 = f0.layout@[s];
                        assert(k < l0.len());
                        assert(l0[k].tag.len() == 0);
                        assert(size == l0[k].size);
                        self.lemma_copy_skip(f0, s, d, k, ptr as int, limit as int);
                    }
                    if adopt {
                        assert(k < p.len());
                        assert(p[k].tag.len() == 0);
                        assert(size == p[k].size);
                        self.lemma_adopt_skip(f0, p, s, d, k, ptr as int, limit as int);
                    }
                }
                Ok(Scan::Next(size))
            },
            Ok(b) => {
                if b.valid {
                    proof {
                        if adopt {
                            assert(p[k].validity == VALIDITY_VALID);
                            assert(tag@ == p[k].tag);
                            assert(data@ == p[k].data);
                            assert(!none_valid(p));
                        }
                    }
                    match self.write_impl(tag.as_slice(), data.as_slice(), dst) {
                        Ok(()) => {},
                        Err(e) => {
                            return Err(e);
                        },
                    }
                    proof {
                        if good {
                            self.lemma_copy_valid(&looked, f0, s, d, k);
                            lemma_total_take(f0.layout@[s], k);
                            assert(self.limit(d) == looked.limit(d));
                            assert(self.limit(s) == looked.limit(s));
                        }
                        if adopt {
                            lemma_adopted_dom(f0@, p, k, p[k].tag);
                            assert(!looked@.dom().contains(p[k].tag)) by {
                                if looked@.dom().contains(p[k].tag) {
                                    let i = choose|i: int|
                                        0 <= i < k && (#[trigger] p[i]).validity == VALIDITY_VALID
                                            && p[i].tag == p[k].tag;
                                    assert(p[i].tag != p[k].tag);
                                }
                            }
                            self.lemma_adopt_valid(
                                &looked,
                                f0,
                                p,
                                s,
                                d,
                                k,
                                ptr as int,
                                limit as int,
                            );
                        }
                    }
                } else {
                    proof {
                        if good {
                            self.lemma_copy_skip(f0, s, d, k, ptr as int, limit as int);
                        }
                        if adopt {
                            self.lemma_adopt_skip(f0, p, s, d, k, ptr as int, limit as int);
                        }
                    }
                }
                Ok(Scan::Next(b.size))
            },
        }
    }

    /// Copies the valid blocks of the sector `src`, which is read up to
    /// `limit`, to the sector `dst`, each as a block of its own that takes the
    /// place of the one copied. Gives `false` if a broken block was found,
    /// at which the copy stops.
    fn copy_blocks(
        &mut self,
        src: SectorID,
        limit: usize,
        dst: SectorID,
        Ghost(p): Ghost<Seq<Entry>>,
    ) -> (r: Result<bool, Error>)
        requires
            old(self).wf(),
            src.0 < old(self).sector_count(),
            dst.0 < old(self).sector_count(),
            old(self).limit(src.0 as int) <= limit <= old(self).sector_at(src.0 as int).length(),
        ensures
            final(self).wf(),
            final(self).same_sectors(*old(self)),
            old(self).adopt_at(old(self), p, src.0 as int, dst.0 as int, 0, 0, limit as int) ==> r
                == Ok::<bool, Error>(true) && final(self).adopting(
                old(self),
                p,
                src.0 as int,
                dst.0 as int,
                p.len() as int,
            ),
            old(self).consistent() && src != dst && limit == old(self).limit(src.0 as int)
                && all_valid(old(self).layout()[dst.0 as int]) && old(self).next_block_at(
                dst.0 as int,
            ) + old(self).valid_size_at(src.0 as int) <= old(self).limit(dst.0 as int) ==> r
                == Ok::<bool, Error>(true) && final(self).copying(
                old(self),
                src.0 as int,
                dst.0 as int,
                old(self).layout()[src.0 as int].len() as int,
            ),
    {
        let ghost good = old(self).consistent() && src != dst && limit == old(self).limit(
            src.0 as int,
        ) && all_valid(old(self).layout()[dst.0 as int]) && old(self).next_block_at(dst.0 as int)
            + old(self).valid_size_at(src.0 as int) <= old(self).limit(dst.0 as int);
        let ghost s = src.0 as int;
        let ghost d = dst.0 as int;
        let ghost l0 = old(self).layout@[s];
        let ghost adopt = old(self).adopt_at(old(self), p, s, d, 0, 0, limit as int);
        let mut ptr: usize = 0;
        let mut done = false;
        let ghost mut k: int = 0;
        proof {
            assert(l0.take(0) =~= Seq::<Entry>::empty());
            if good {
                assert(self.copying(old(self), s, d, 0));
            }
        }
        while !done && ptr < limit
            invariant
                self.wf(),
                self.same_sectors(*old(self)),
                src.0 < self.sectors@.len(),
                dst.0 < self.sectors@.len(),
                s == src.0,
                d == dst.0,
                l0 == old(self).layout@[s],
                ptr <= limit <= self.sectors@[s].length(),
                old(self).limit(s) <= limit,
                good == (old(self).consistent() && src != dst && limit == old(self).limit(
                    src.0 as int,
                ) && all_valid(old(self).layout()[dst.0 as int]) && old(self).next_block_at(
                    dst.0 as int,
                ) + old(self).valid_size_at(src.0 as int) <= old(self).limit(dst.0 as int)),
                good ==> self.copy_at(old(self), s, d, k, ptr as int, limit as int),
                good && done ==> k == l0.len(),
                adopt == old(self).adopt_at(old(self), p, s, d, 0, 0, limit as int),
                adopt ==> self.adopt_at(old(self), p, s, d, k, ptr as int, limit as int),
                adopt && done ==> k == p.len(),
            decreases (limit - ptr) + (if done { 0int } else { 1int }),
        {
            let step = self.copy_block(src, limit, dst, ptr, Ghost(old(self)), Ghost(k), Ghost(p));
            match step {
                Err(e) => {
                    return Err(e);
                },
                Ok(Scan::End) => {
                    done = true;
                },
                Ok(Scan::Broken) => {
                    return Ok(false);
                },  // should not happen
                Ok(Scan::Next(n)) => {
                    ptr += n;
                    proof {
                        k = k + 1;
                    }
                },
            }
        }
        proof {
            if good && k < l0.len() {
                self.lemma_at(s, k);
                assert forall|j: int| 0 <= j < l0.len() implies (#[trigger] self.layout@[s][j]).size
                    == l0[j].size by {
                    assert(self.layout@[s][j] == if j < k && l0[j].validity == VALIDITY_VALID {
                        retired(l0[j])
                    } else {
                        l0[j]
                    });
                }
                lemma_total_same(self.layout@[s], l0, k);
                assert(false);
            }
            if adopt && k < p.len() {
                self.lemma_adopt_pre(old(self), p, s, d, k, ptr as int, limit as int);
                assert(false);
            }
        }
        Ok(true)
    }
}

/// What was found where a block was looked for
enum Scan {
    /// Erased bytes: no block follows
    End,
    /// A broken block
    Broken,
    /// Something of this many bytes, after which the next block is looked for
    Next(usize),
}

/// The bytes of `old`, of which those from `offset` on are replaced by those
/// of `data`, as far as `old` goes.
pub open spec fn spliced(old: Seq<u8>, offset: int, data: Seq<u8>) -> Seq<u8> {
    Seq::new(
        old.len(),
        |i: int|
            if offset <= i < offset + data.len() {
                data[i - offset]
            } else {
                old[i]
            },
    )
}

/// What is spliced in is found where it was put, if it does not reach past
/// the end, and the length is what it was.
pub proof fn lemma_spliced(old: Seq<u8>, offset: int, data: Seq<u8>)
    requires
        0 <= offset,
        offset + data.len() <= old.len(),
    ensures
        spliced(old, offset, data).len() == old.len(),
        spliced(old, offset, data).subrange(offset, offset + data.len()) == data,
{
    assert(spliced(old, offset, data).subrange(offset, offset + data.len()) =~= data);
}

/// How far blocks can go in the `s`-th of the sectors `sectors`, when
/// `defrag` is the sector reserved for defragmenting.
pub open spec fn limit_of(sectors: Seq<Sector>, defrag: int, s: int) -> int {
    if s == defrag {
        sectors[s].length() - 1
    } else {
        sectors[s].length()
    }
}

/// Whether `flash` holds, in the sectors `sectors` but for the one reserved
/// for defragmenting, the blocks of `layout`: each sector holds the blocks
/// of its entries and then erased bytes, `layout` has no entry for the
/// reserved sector, no two valid blocks have the same tag, and what is valid
/// on a sector fits in the reserved sector.
pub open spec fn laid_out(
    flash: Flash,
    sectors: Seq<Sector>,
    defrag: int,
    layout: Seq<Seq<Entry>>,
) -> bool {
    &&& layout.len() == sectors.len()
    &&& forall|s: int|
        0 <= s < sectors.len() ==> {
            &&& holds_blocks(flash.bytes(sectors[s].index()), #[trigger] layout[s])
            &&& total_sum(layout[s]) <= limit_of(sectors, defrag, s)
            &&& s != defrag ==> erased_from(
                flash.bytes(sectors[s].index()),
                total_sum(layout[s]),
                limit_of(sectors, defrag, s),
            )
            &&& s != defrag ==> counted_sum(layout[s]) <= sectors[defrag].length() - 1
        }
    &&& layout[defrag] == Seq::<Entry>::empty()
    &&& forall|s1: int, k1: int, s2: int, k2: int|
        0 <= s1 < layout.len() && 0 <= k1 < layout[s1].len() && 0 <= s2 < layout.len() && 0 <= k2
            < layout[s2].len() && (#[trigger] layout[s1][k1]).validity == VALIDITY_VALID && (
        #[trigger] layout[s2][k2]).validity == VALIDITY_VALID && layout[s1][k1].tag
            == layout[s2][k2].tag ==> s1 == s2 && k1 == k2
}

/// Where what is written of `bytes` ends, at or after `from`.
pub open spec fn written_end(bytes: Seq<u8>, from: int) -> int {
    choose|end: int| used_end(bytes, from, end)
}

/// Whether a broken block lies in `bytes` after the blocks of the entries
/// `l`, before `limit`.
pub open spec fn broken_after(bytes: Seq<u8>, l: Seq<Entry>, limit: int) -> bool {
    &&& total_sum(l) < limit
    &&& parse(bytes.subrange(total_sum(l), limit)) == Err::<Block, ParseNoBlock>(
        ParseNoBlock::Broken,
    )
}

/// Whether the last of the entries `l` is a run of zeros.
pub open spec fn ends_in_zeros(l: Seq<Entry>) -> bool {
    l.len() > 0 && l.last().tag.len() == 0
}

/// Whether `flash` holds the blocks of `layout` as in `laid_out`, but that
/// the sector `ex`, if it is one of the sectors, holds a broken block after
/// its blocks, and no erased bytes.
pub open spec fn laid_but(
    flash: Flash,
    sectors: Seq<Sector>,
    defrag: int,
    layout: Seq<Seq<Entry>>,
    ex: int,
) -> bool {
    &&& layout.len() == sectors.len()
    &&& forall|s: int|
        0 <= s < sectors.len() ==> {
            &&& holds_blocks(flash.bytes(sectors[s].index()), #[trigger] layout[s])
            &&& total_sum(layout[s]) <= limit_of(sectors, defrag, s)
            &&& s != defrag && s != ex ==> erased_from(
                flash.bytes(sectors[s].index()),
                total_sum(layout[s]),
                limit_of(sectors, defrag, s),
            )
            &&& s != defrag ==> counted_sum(layout[s]) <= sectors[defrag].length() - 1
        }
    &&& 0 <= ex < sectors.len() ==> ex != defrag && broken_after(
        flash.bytes(sectors[ex].index()),
        layout[ex],
        sectors[ex].length() as int,
    )
    &&& layout[defrag] == Seq::<Entry>::empty()
    &&& forall|s1: int, k1: int, s2: int, k2: int|
        0 <= s1 < layout.len() && 0 <= k1 < layout[s1].len() && 0 <= s2 < layout.len() && 0 <= k2
            < layout[s2].len() && (#[trigger] layout[s1][k1]).validity == VALIDITY_VALID && (
        #[trigger] layout[s2][k2]).validity == VALIDITY_VALID && layout[s1][k1].tag
            == layout[s2][k2].tag ==> s1 == s2 && k1 == k2
}

/// The run of zeros that takes the place of what is written of `bytes`
/// from `from` on.
pub open spec fn zeros_from(bytes: Seq<u8>, from: int) -> Entry {
    Entry {
        start: from,
        size: written_end(bytes, from) - from,
        validity: VALIDITY_NOLONGER,
        counted: false,
        tag: Seq::<u8>::empty(),
        data: Seq::<u8>::empty(),
    }
}

/// What is written of some bytes ends somewhere, at or after `from`.
pub proof fn lemma_has_end(bytes: Seq<u8>, from: int, upto: int)
    requires
        0 <= from <= upto <= bytes.len(),
        forall|p: int| upto <= p < bytes.len() ==> bytes[p] == 0xFF,
    ensures
        exists|end: int| used_end(bytes, from, end),
    decreases upto - from,
{
    if upto == from || bytes[upto - 1] != 0xFF {
        assert(used_end(bytes, from, upto));
    } else {
        lemma_has_end(bytes, from, upto - 1);
    }
}

/// What is written of some bytes ends at one place.
pub proof fn lemma_written_end(bytes: Seq<u8>, from: int, end: int)
    requires
        used_end(bytes, from, end),
    ensures
        written_end(bytes, from) == end,
{
    let other = written_end(bytes, from);
    assert(used_end(bytes, from, other));
    if other < end {
        assert(bytes[end - 1] == 0xFF);
    }
    if end < other {
        assert(bytes[other - 1] == 0xFF);
    }
}

/// A run of zeros makes no file.
pub proof fn lemma_contents_mended(w: Seq<Seq<Entry>>, s: int, bytes: Seq<u8>)
    requires
        0 <= s < w.len(),
        ends_in_zeros(w[s]) ==> w[s].last().validity != VALIDITY_VALID,
        forall|s1: int, k1: int, s2: int, k2: int|
            0 <= s1 < w.len() && 0 <= k1 < w[s1].len() && 0 <= s2 < w.len() && 0 <= k2
                < w[s2].len() && (#[trigger] w[s1][k1]).validity == VALIDITY_VALID && (
            #[trigger] w[s2][k2]).validity == VALIDITY_VALID && w[s1][k1].tag == w[s2][k2].tag
                ==> s1 == s2 && k1 == k2,
    ensures
        contents(mended(w, s, bytes)) == contents(w),
{
    let m = mended(w, s, bytes);
    assert forall|a: int, k: int| 0 <= a < m.len() && 0 <= k < m[a].len() && (
    #[trigger] m[a][k]).validity == VALIDITY_VALID implies k < w[a].len() && m[a][k]
        == w[a][k] by {
        if a == s && k == m[s].len() - 1 {
            assert(m[a][k].validity == VALIDITY_NOLONGER);
        }
    }
    assert forall|a: int, k: int| 0 <= a < w.len() && 0 <= k < w[a].len() && (
    #[trigger] w[a][k]).validity == VALIDITY_VALID implies k < m[a].len() && m[a][k]
        == w[a][k] by {}
    assert forall|t: Seq<u8>| has_block(m, t) == has_block(w, t) by {
        if has_block(m, t) {
            let (a, k) = choose|a: int, k: int|
                0 <= a < m.len() && 0 <= k < m[a].len() && (#[trigger] m[a][k]).validity
                    == VALIDITY_VALID && m[a][k].tag == t;
            assert(w[a][k].validity == VALIDITY_VALID && w[a][k].tag == t);
        }
        if has_block(w, t) {
            let (a, k) = choose|a: int, k: int|
                0 <= a < w.len() && 0 <= k < w[a].len() && (#[trigger] w[a][k]).validity
                    == VALIDITY_VALID && w[a][k].tag == t;
            assert(m[a][k] == w[a][k]);
        }
    }
    assert forall|t: Seq<u8>| has_block(w, t) implies block_data(m, t) == block_data(w, t) by {
        assert(has_block(m, t));
        let (a, k) = choose|a: int, k: int|
            0 <= a < m.len() && 0 <= k < m[a].len() && (#[trigger] m[a][k]).validity
                == VALIDITY_VALID && m[a][k].tag == t;
        let (b, j) = choose|b: int, j: int|
            0 <= b < w.len() && 0 <= j < w[b].len() && (#[trigger] w[b][j]).validity
                == VALIDITY_VALID && w[b][j].tag == t;
        assert(m[a][k] == w[a][k]);
        assert(a == b && k == j);
    }
    assert(contents(m) =~= contents(w));
}

/// What is written from a broken block on ends after it, and where what
/// is written from any place before it ends.
pub proof fn lemma_broken_end(bytes: Seq<u8>, p: int, q: int)
    requires
        0 <= q <= p < bytes.len(),
        parse(bytes.subrange(p, bytes.len() as int)) == Err::<Block, ParseNoBlock>(
            ParseNoBlock::Broken,
        ),
    ensures
        used_end(bytes, p, written_end(bytes, p)),
        written_end(bytes, p) > p,
        written_end(bytes, q) == written_end(bytes, p),
{
    lemma_has_end(bytes, p, bytes.len() as int);
    let e = written_end(bytes, p);
    let zone = bytes.subrange(p, bytes.len() as int);
    assert(zone[0] == bytes[p]);
    if bytes[p] == 0xFF {
        crate::format::lemma_parse_empty(zone);
    }
    assert(used_end(bytes, q, e));
    lemma_written_end(bytes, q, e);
}

/// The layout `layout` once what follows the blocks of the sector `s`,
/// whose bytes are `bytes`, is overwritten with zeros: one more run of
/// zeros, or a longer one where the last entry of the sector was one.
pub open spec fn mended(layout: Seq<Seq<Entry>>, s: int, bytes: Seq<u8>) -> Seq<Seq<Entry>> {
    if ends_in_zeros(layout[s]) {
        layout.update(s, layout[s].drop_last().push(zeros_from(bytes, layout[s].last().start)))
    } else {
        layout.update(s, layout[s].push(zeros_from(bytes, total_sum(layout[s]))))
    }
}

/// The last byte of the sector reserved for defragmenting, at `defrag` of
/// the sectors `sectors` of `flash`: it names the sector that is being
/// defragmented, and is erased when none is.
pub open spec fn journal_of(flash: Flash, sectors: Seq<Sector>, defrag: int) -> u8 {
    flash.bytes(sectors[defrag].index())[sectors[defrag].length() - 1]
}

/// Whether `flash` holds, in the sectors `sectors`, the blocks of `layout`,
/// and a broken block after those of the sector `s`, while no
/// defragmentation is going on.
pub open spec fn broken(
    flash: Flash,
    sectors: Seq<Sector>,
    defrag: int,
    layout: Seq<Seq<Entry>>,
    s: int,
) -> bool {
    &&& 0 <= s < sectors.len()
    &&& laid_but(flash, sectors, defrag, layout, s)
    &&& erased_from(flash.bytes(sectors[defrag].index()), 0, sectors[defrag].length() - 1)
    &&& flash.bytes(sectors[defrag].index())[sectors[defrag].length() - 1] == 0xFF
}

/// Whether `flash` holds, in the sectors `sectors` but for the one reserved
/// for defragmenting, the blocks of `layout`, of which several valid ones
/// may have one tag.
pub open spec fn laid_any(
    flash: Flash,
    sectors: Seq<Sector>,
    defrag: int,
    layout: Seq<Seq<Entry>>,
) -> bool {
    &&& layout.len() == sectors.len()
    &&& forall|s: int|
        0 <= s < sectors.len() ==> {
            &&& holds_blocks(flash.bytes(sectors[s].index()), #[trigger] layout[s])
            &&& total_sum(layout[s]) <= limit_of(sectors, defrag, s)
            &&& s != defrag ==> erased_from(
                flash.bytes(sectors[s].index()),
                total_sum(layout[s]),
                limit_of(sectors, defrag, s),
            )
            &&& s != defrag ==> counted_sum(layout[s]) <= sectors[defrag].length() - 1
        }
    &&& layout[defrag] == Seq::<Entry>::empty()
}

/// Whether the `b`-th entry of the sector `a` is read before the `i`-th of
/// the sector `j`.
pub open spec fn earlier(a: int, b: int, j: int, i: int) -> bool {
    a < j || (a == j && b < i)
}

/// Whether a valid entry that is read before the `i`-th of the sector `j`
/// has its tag.
pub open spec fn seen_before(w: Seq<Seq<Entry>>, j: int, i: int) -> bool {
    exists|a: int, b: int|
        0 <= a < w.len() && 0 <= b < w[a].len() && earlier(a, b, j, i) && (
        #[trigger] w[a][b]).validity == VALIDITY_VALID && w[a][b].tag == w[j][i].tag
}

/// What the reading of the sectors makes of the `i`-th entry of the sector
/// `j`: a valid entry whose tag a valid entry read before it has is no
/// longer valid.
pub open spec fn kept(w: Seq<Seq<Entry>>, j: int, i: int) -> Entry {
    if w[j][i].validity == VALIDITY_VALID && seen_before(w, j, i) {
        retired(w[j][i])
    } else {
        w[j][i]
    }
}

/// Whether `l` is what the reading of the sectors makes of the layout `w`:
/// of the valid blocks of one tag, the first that is read stays valid.
pub open spec fn deduplicated(l: Seq<Seq<Entry>>, w: Seq<Seq<Entry>>) -> bool {
    &&& l.len() == w.len()
    &&& forall|j: int| 0 <= j < w.len() ==> (#[trigger] l[j]).len() == w[j].len()
    &&& forall|j: int, i: int|
        0 <= j < w.len() && 0 <= i < w[j].len() ==> (#[trigger] l[j][i]) == kept(w, j, i)
}

/// Whether `flash` holds, in the sectors `sectors`, the blocks of `layout`
/// as a filesystem leaves them when the defragmentation of the sector `s`
/// is interrupted between two copies: the sector reserved for
/// defragmenting names `s` and holds the blocks of the entries `l`, all
/// valid, which are valid blocks nowhere else, and `s` holds the valid
/// blocks that were not copied yet.
pub open spec fn midway_out(
    flash: Flash,
    sectors: Seq<Sector>,
    defrag: int,
    layout: Seq<Seq<Entry>>,
    s: int,
    l: Seq<Entry>,
) -> bool {
    let held = flash.bytes(sectors[defrag].index());
    &&& laid_out(flash, sectors, defrag, layout)
    &&& 0 <= s < sectors.len()
    &&& s < 0xFF
    &&& s != defrag
    &&& held[sectors[defrag].length() - 1] == s
    &&& holds_blocks(held, l)
    &&& all_valid(l)
    &&& l.len() > 0
    &&& counted_sum(layout[s]) > 0
    &&& total_sum(l) + counted_sum(layout[s]) <= sectors[defrag].length() - 1
    &&& total_sum(l) + counted_sum(layout[s]) <= sectors[s].length()
    &&& erased_from(held, total_sum(l), sectors[defrag].length() - 1)
    &&& forall|i: int, j: int| 0 <= i < j < l.len() ==> (#[trigger] l[i]).tag != (#[trigger] l[j]).tag
    &&& forall|i: int| 0 <= i < l.len() ==> !has_block(layout, (#[trigger] l[i]).tag)
}

/// Whether `flash` holds, in the sectors `sectors`, the blocks of `layout`
/// as a filesystem leaves them when the defragmentation of the sector `s`
/// is interrupted while the blocks are copied back, or before the sector
/// reserved for defragmenting is erased: that sector names `s` and holds
/// the blocks of the entries `l`, of which the first is no longer valid
/// and the valid ones are valid blocks nowhere else, and `s` holds the
/// blocks that were copied back.
pub open spec fn midway_back(
    flash: Flash,
    sectors: Seq<Sector>,
    defrag: int,
    layout: Seq<Seq<Entry>>,
    s: int,
    l: Seq<Entry>,
) -> bool {
    let held = flash.bytes(sectors[defrag].index());
    &&& laid_out(flash, sectors, defrag, layout)
    &&& 0 <= s < sectors.len()
    &&& s < 0xFF
    &&& s != defrag
    &&& held[sectors[defrag].length() - 1] == s
    &&& holds_blocks(held, l)
    &&& l.len() > 0
    &&& l[0].validity == VALIDITY_NOLONGER
    &&& total_sum(l) <= sectors[defrag].length() - 1
    &&& erased_from(held, total_sum(l), sectors[defrag].length() - 1)
    &&& total_sum(layout[s]) + counted_sum(l) <= sectors[s].length()
    &&& counted_sum(layout[s]) + counted_sum(l) <= sectors[defrag].length() - 1
    &&& forall|i: int, j: int|
        0 <= i < j < l.len() && (#[trigger] l[i]).validity == VALIDITY_VALID && (
        #[trigger] l[j]).validity == VALIDITY_VALID ==> l[i].tag != l[j].tag
    &&& forall|i: int|
        0 <= i < l.len() && (#[trigger] l[i]).validity == VALIDITY_VALID ==> !has_block(
            layout,
            l[i].tag,
        ) && l[i].tag.len() < TAG_LIMIT
}

/// Whether `flash` holds, in the sectors `sectors`, the blocks of `layout`,
/// of which several valid ones may have one tag, and no defragmentation is
/// going on.
pub open spec fn settled(
    flash: Flash,
    sectors: Seq<Sector>,
    defrag: int,
    layout: Seq<Seq<Entry>>,
) -> bool {
    &&& laid_any(flash, sectors, defrag, layout)
    &&& erased_from(flash.bytes(sectors[defrag].index()), 0, sectors[defrag].length() - 1)
    &&& flash.bytes(sectors[defrag].index())[sectors[defrag].length() - 1] == 0xFF
}

/// Of the valid blocks of one tag that a flash holds, the reading of the
/// sectors keeps the first that it reads valid, and marks the others: an
/// entry is valid after the reading if and only if it was valid and no valid
/// entry that is read before it has its tag, and it is where it was, with
/// its tag and its data.
pub proof fn law_first_kept(l: Seq<Seq<Entry>>, w: Seq<Seq<Entry>>, j: int, i: int)
    requires
        deduplicated(l, w),
        0 <= j < w.len(),
        0 <= i < w[j].len(),
    ensures
        l[j][i].validity == VALIDITY_VALID <==> w[j][i].validity == VALIDITY_VALID && !seen_before(
            w,
            j,
            i,
        ),
        w[j][i].validity == VALIDITY_VALID && seen_before(w, j, i) ==> l[j][i].validity
            == VALIDITY_NOLONGER && !l[j][i].counted,
        l[j][i].start == w[j][i].start,
        l[j][i].size == w[j][i].size,
        l[j][i].tag == w[j][i].tag,
        l[j][i].data == w[j][i].data,
{
    assert(l[j][i] == kept(w, j, i));
}

/// A flash holds the blocks of one layout, whether or not several valid
/// ones have one tag.
pub proof fn lemma_any_unique(
    flash: Flash,
    sectors: Seq<Sector>,
    defrag: int,
    applet: int,
    a: Seq<Seq<Entry>>,
    b: Seq<Seq<Entry>>,
)
    requires
        mountable(flash, sectors, defrag, applet),
        laid_any(flash, sectors, defrag, a),
        laid_any(flash, sectors, defrag, b),
    ensures
        a == b,
{
    assert forall|s: int| 0 <= s < sectors.len() implies a[s] == b[s] by {
        let bytes = flash.bytes(sectors[s].index());
        assert(flash.has(sectors[s]));
        flash.lemma_bytes_len(sectors[s].index());
        sectors[s].lemma_range();
        assert(holds_blocks(bytes, a[s]));
        assert(holds_blocks(bytes, b[s]));
        if s != defrag {
            lemma_same_blocks(bytes, limit_of(sectors, defrag, s), a[s], b[s]);
        }
    }
    assert(a =~= b);
}

/// Entries of which some are no longer valid count no more than they did.
pub proof fn lemma_counted_retired(l: Seq<Entry>, w: Seq<Entry>)
    requires
        l.len() == w.len(),
        forall|i: int| 0 <= i < w.len() ==> (#[trigger] l[i]) == w[i] || l[i] == retired(w[i]),
        forall|i: int| 0 <= i < w.len() ==> (#[trigger] w[i]).size >= 0,
    ensures
        counted_sum(l) <= counted_sum(w),
        total_sum(l) == total_sum(w),
    decreases w.len(),
{
    if w.len() > 0 {
        assert(l.last() == w.last() || l.last() == retired(w.last()));
        lemma_counted_retired(l.drop_last(), w.drop_last());
    }
}

/// Whether `flash` holds, in the sectors `sectors`, the blocks of `layout`
/// as a filesystem leaves them when no defragmentation is going on: the
/// last byte of the sector reserved for defragmenting is erased too.
pub open spec fn fits(flash: Flash, sectors: Seq<Sector>, defrag: int, layout: Seq<Seq<Entry>>) -> bool {
    &&& laid_out(flash, sectors, defrag, layout)
    &&& erased_from(flash.bytes(sectors[defrag].index()), 0, sectors[defrag].length() - 1)
    &&& flash.bytes(sectors[defrag].index())[sectors[defrag].length() - 1] == 0xFF
}

/// Whether `flash` holds, in the sectors `sectors`, the blocks of `layout`
/// as a filesystem leaves them when the defragmentation of the sector `s`
/// has just begun: the last byte of the sector reserved for defragmenting
/// names `s`, and nothing else has been done.
pub open spec fn interrupted(
    flash: Flash,
    sectors: Seq<Sector>,
    defrag: int,
    layout: Seq<Seq<Entry>>,
    s: int,
) -> bool {
    &&& laid_out(flash, sectors, defrag, layout)
    &&& erased_from(flash.bytes(sectors[defrag].index()), 0, sectors[defrag].length() - 1)
    &&& 0 <= s < sectors.len()
    &&& s < 0xFF
    &&& s != defrag
    &&& flash.bytes(sectors[defrag].index())[sectors[defrag].length() - 1] == s
}

/// Whether `flash` holds, in the sectors `sectors`, the blocks of `layout`
/// as a filesystem leaves them when the defragmentation of the sector `s`
/// has copied the valid blocks of `s`, and has not begun to copy them back:
/// the sector reserved for defragmenting names `s` and holds the blocks of
/// the entries `l`, all valid, which are valid blocks nowhere else, and `s`
/// holds no valid block, or has been erased already.
pub open spec fn halfway(
    flash: Flash,
    sectors: Seq<Sector>,
    defrag: int,
    layout: Seq<Seq<Entry>>,
    s: int,
    l: Seq<Entry>,
) -> bool {
    let held = flash.bytes(sectors[defrag].index());
    &&& laid_out(flash, sectors, defrag, layout)
    &&& 0 <= s < sectors.len()
    &&& s < 0xFF
    &&& s != defrag
    &&& held[sectors[defrag].length() - 1] == s
    &&& none_valid(layout[s])
    &&& holds_blocks(held, l)
    &&& all_valid(l)
    &&& total_sum(l) <= sectors[defrag].length() - 1
    &&& erased_from(held, total_sum(l), sectors[defrag].length() - 1)
    &&& total_sum(l) <= sectors[s].length()
    &&& forall|i: int, j: int| 0 <= i < j < l.len() ==> (#[trigger] l[i]).tag != (#[trigger] l[j]).tag
    &&& forall|i: int|
        0 <= i < l.len() ==> !has_block(layout, (#[trigger] l[i]).tag) && l[i].tag.len() < TAG_LIMIT
}

/// Whether a valid block of `layout` has the tag `tag`.
pub open spec fn has_block(layout: Seq<Seq<Entry>>, tag: Seq<u8>) -> bool {
    exists|s: int, k: int|
        0 <= s < layout.len() && 0 <= k < layout[s].len() && (#[trigger] layout[s][k]).validity
            == VALIDITY_VALID && layout[s][k].tag == tag
}

/// The data of the valid block of `layout` that has the tag `tag`.
pub open spec fn block_data(layout: Seq<Seq<Entry>>, tag: Seq<u8>) -> Seq<u8> {
    let (s, k) = choose|s: int, k: int|
        0 <= s < layout.len() && 0 <= k < layout[s].len() && (#[trigger] layout[s][k]).validity
            == VALIDITY_VALID && layout[s][k].tag == tag;
    layout[s][k].data
}

/// The files that the valid blocks of `layout` make: the data of each under
/// its tag.
pub open spec fn contents(layout: Seq<Seq<Entry>>) -> Map<Seq<u8>, Seq<u8>> {
    Map::new(|t: Seq<u8>| has_block(layout, t), |t: Seq<u8>| block_data(layout, t))
}

/// Whether a filesystem can be made of `flash` with the sectors `sectors`,
/// of which the one at `defrag` is reserved for defragmenting and the one at
/// `applet` for applets: the flash is not open in writing, the sectors are
/// sectors of the flash, each once, of at least 4 bytes and less than 128MB,
/// there is one at least and 255 at most, and no lock is held on them.
pub open spec fn mountable(flash: Flash, sectors: Seq<Sector>, defrag: int, applet: int) -> bool {
    &&& flash.wf()
    &&& !flash.writing()
    &&& 1 <= sectors.len() <= SECTORS_LIMIT
    &&& 0 <= defrag < sectors.len()
    &&& 0 <= applet < sectors.len()
    &&& forall|i: int|
        0 <= i < sectors.len() ==> flash.has(#[trigger] sectors[i]) && 4 <= sectors[i].length()
            < SECTOR_LIMIT
    &&& forall|i: int, j: int|
        0 <= i < sectors.len() && 0 <= j < sectors.len() && i != j ==> (
        #[trigger] sectors[i]).index() != (#[trigger] sectors[j]).index()
    &&& forall|i: int, l: Lock|
        0 <= i < sectors.len() ==> !#[trigger] flash.holds(sectors[i].index(), l)
}

/// Two entries whose blocks lie at the same place of a sector are the same.
pub proof fn lemma_same_entry(bytes: Seq<u8>, a: Entry, b: Entry)
    requires
        bytes.len() <= usize::MAX,
        a.start == b.start,
        0 <= a.start,
        encodable(a.tag.len() as int, a.data.len() as int),
        encodable(b.tag.len() as int, b.data.len() as int),
        is_validity(a.validity),
        is_validity(b.validity),
        a.size == block_size(a.tag.len() as int, a.data.len() as int),
        b.size == block_size(b.tag.len() as int, b.data.len() as int),
        a.counted == (a.validity == VALIDITY_VALID),
        b.counted == (b.validity == VALIDITY_VALID),
        a.start + a.size <= bytes.len(),
        b.start + b.size <= bytes.len(),
        bytes.subrange(a.start, a.start + a.size) == image(a.validity, a.tag, a.data),
        bytes.subrange(b.start, b.start + b.size) == image(b.validity, b.tag, b.data),
    ensures
        a == b,
{
    let zone = bytes.subrange(a.start, bytes.len() as int);
    assert(zone.subrange(0, a.size) =~= bytes.subrange(a.start, a.start + a.size));
    assert(zone.subrange(0, b.size) =~= bytes.subrange(b.start, b.start + b.size));
    crate::format::lemma_parse_image(zone, a.validity, a.tag, a.data);
    crate::format::lemma_parse_image(zone, b.validity, b.tag, b.data);
    crate::format::lemma_image_header(a.validity, a.tag, a.data);
    crate::format::lemma_image_header(b.validity, b.tag, b.data);
    assert(bytes[a.start] == bytes.subrange(a.start, a.start + a.size)[0]);
    assert(bytes[b.start] == bytes.subrange(b.start, b.start + b.size)[0]);
    assert(a.tag.len() == b.tag.len());
    assert(a.data.len() == b.data.len());
}

/// What follows a run of zeros that is an entry of a sector is no zero:
/// the next block, or erased bytes, unless the sector ends there.
pub proof fn lemma_after_zeros(bytes: Seq<u8>, limit: int, a: Seq<Entry>, k: int)
    requires
        holds_blocks(bytes, a),
        total_sum(a) <= limit <= bytes.len(),
        total_sum(a) < limit ==> bytes[total_sum(a)] != 0,
        0 <= k < a.len(),
        a[k].tag.len() == 0,
    ensures
        a[k].start + a[k].size <= limit,
        a[k].start + a[k].size < limit ==> bytes[a[k].start + a[k].size] != 0,
{
    lemma_holds(bytes, a, k);
    lemma_total_take(a, k);
    if k + 1 < a.len() {
        lemma_holds(bytes, a, k + 1);
        lemma_total_take(a, k + 1);
        let n = a[k + 1];
        assert(n.tag.len() > 0);
        crate::format::lemma_image_parts(n.validity, n.tag, n.data);
        crate::format::lemma_header(n.validity, n.tag.len() as int, n.data.len() as int);
        assert(bytes[n.start] == bytes.subrange(n.start, n.start + n.size)[0]);
    } else {
        assert(a.take(k + 1) == a);
    }
}

/// Where a run of zeros is an entry of a sector, the sector holds that many
/// bytes that count as a block that was given up.
pub proof fn lemma_zeros_at(bytes: Seq<u8>, limit: int, a: Seq<Entry>, k: int)
    requires
        holds_blocks(bytes, a),
        total_sum(a) <= limit <= bytes.len(),
        total_sum(a) < limit ==> bytes[total_sum(a)] != 0,
        0 <= k < a.len(),
        a[k].tag.len() == 0,
    ensures
        parse(bytes.subrange(a[k].start, limit)) == Err::<Block, ParseNoBlock>(
            ParseNoBlock::Erased(a[k].size as usize),
        ),
{
    lemma_holds(bytes, a, k);
    lemma_after_zeros(bytes, limit, a, k);
    let zone = bytes.subrange(a[k].start, limit);
    assert(crate::format::zero_run(zone, a[k].size)) by {
        assert forall|j: int| 0 <= j < a[k].size implies zone[j] == 0 by {
            assert(zone[j] == bytes[a[k].start + j]);
        }
        if a[k].size < zone.len() {
            assert(zone[a[k].size] == bytes[a[k].start + a[k].size]);
        }
    }
    crate::format::lemma_parse_zeros(zone, a[k].size);
}

/// The first entries of two layouts of the same sector are the same.
pub proof fn lemma_same_prefix(bytes: Seq<u8>, limit: int, a: Seq<Entry>, b: Seq<Entry>, k: int)
    requires
        bytes.len() <= usize::MAX,
        holds_blocks(bytes, a),
        holds_blocks(bytes, b),
        total_sum(a) <= limit <= bytes.len(),
        total_sum(b) <= limit,
        total_sum(a) < limit ==> bytes[total_sum(a)] != 0,
        total_sum(b) < limit ==> bytes[total_sum(b)] != 0,
        0 <= k <= a.len(),
        k <= b.len(),
    ensures
        a.take(k) == b.take(k),
    decreases k,
{
    if k == 0 {
        assert(a.take(0) =~= b.take(0));
    } else {
        lemma_same_prefix(bytes, limit, a, b, k - 1);
        lemma_holds(bytes, a, k - 1);
        lemma_holds(bytes, b, k - 1);
        let x = a[k - 1];
        let y = b[k - 1];
        assert(x.start == y.start) by {
            assert(a.take(k - 1) == b.take(k - 1));
        }
        if x.tag.len() > 0 {
            crate::format::lemma_image_parts(x.validity, x.tag, x.data);
            crate::format::lemma_header(x.validity, x.tag.len() as int, x.data.len() as int);
            assert(bytes[x.start] == bytes.subrange(x.start, x.start + x.size)[0]);
        }
        if y.tag.len() > 0 {
            crate::format::lemma_image_parts(y.validity, y.tag, y.data);
            crate::format::lemma_header(y.validity, y.tag.len() as int, y.data.len() as int);
            assert(bytes[y.start] == bytes.subrange(y.start, y.start + y.size)[0]);
        }
        if x.tag.len() > 0 && y.tag.len() > 0 {
            lemma_same_entry(bytes, x, y);
        } else {
            assert(bytes[x.start] == 0);
            assert(x.tag.len() == 0 && y.tag.len() == 0);
            lemma_after_zeros(bytes, limit, a, k - 1);
            lemma_after_zeros(bytes, limit, b, k - 1);
            if x.size < y.size {
                assert(bytes[x.start + x.size] == 0);
            }
            if y.size < x.size {
                assert(bytes[y.start + y.size] == 0);
            }
            assert(x.tag =~= y.tag);
            assert(x.data =~= y.data);
            assert(x == y);
        }
        assert(a.take(k) =~= a.take(k - 1).push(a[k - 1]));
        assert(b.take(k) =~= b.take(k - 1).push(b[k - 1]));
    }
}

/// A sector has one layout.
pub proof fn lemma_same_blocks(bytes: Seq<u8>, limit: int, a: Seq<Entry>, b: Seq<Entry>)
    requires
        bytes.len() <= usize::MAX,
        holds_blocks(bytes, a),
        holds_blocks(bytes, b),
        total_sum(a) <= limit <= bytes.len(),
        total_sum(b) <= limit,
        erased_from(bytes, total_sum(a), limit),
        erased_from(bytes, total_sum(b), limit),
    ensures
        a == b,
{
    let n = if a.len() <= b.len() {
        a.len() as int
    } else {
        b.len() as int
    };
    lemma_same_prefix(bytes, limit, a, b, n);
    if a.len() < b.len() {
        assert(a.take(n) == a);
        lemma_holds(bytes, b, n);
        if b[n].tag.len() > 0 {
            crate::format::lemma_image_header(b[n].validity, b[n].tag, b[n].data);
            assert(bytes[b[n].start] == bytes.subrange(b[n].start, b[n].start + b[n].size)[0]);
        } else {
            assert(bytes[b[n].start] == 0);
        }
        assert(false);
    }
    if b.len() < a.len() {
        assert(b.take(n) == b);
        lemma_holds(bytes, a, n);
        if a[n].tag.len() > 0 {
            crate::format::lemma_image_header(a[n].validity, a[n].tag, a[n].data);
            assert(bytes[a[n].start] == bytes.subrange(a[n].start, a[n].start + a[n].size)[0]);
        } else {
            assert(bytes[a[n].start] == 0);
        }
        assert(false);
    }
    assert(a.take(n) == a);
    assert(b.take(n) == b);
}

/// A sector has one layout, whether erased bytes or a broken block follow
/// its blocks.
pub proof fn lemma_one_layout(bytes: Seq<u8>, limit: int, a: Seq<Entry>, b: Seq<Entry>)
    requires
        bytes.len() <= usize::MAX,
        holds_blocks(bytes, a),
        holds_blocks(bytes, b),
        total_sum(a) <= limit <= bytes.len(),
        total_sum(b) <= limit,
        erased_from(bytes, total_sum(a), limit) || broken_after(bytes, a, limit),
        erased_from(bytes, total_sum(b), limit) || broken_after(bytes, b, limit),
    ensures
        a == b,
{
    lemma_sum_positive(bytes, a);
    lemma_sum_positive(bytes, b);
    lemma_not_zero_after(bytes, limit, a);
    lemma_not_zero_after(bytes, limit, b);
    let n = if a.len() <= b.len() {
        a.len() as int
    } else {
        b.len() as int
    };
    lemma_same_prefix(bytes, limit, a, b, n);
    if a.len() < b.len() {
        assert(a.take(n) == a);
        lemma_holds(bytes, b, n);
        lemma_no_entry_after(bytes, limit, a, b, n);
    }
    if b.len() < a.len() {
        assert(b.take(n) == b);
        lemma_holds(bytes, a, n);
        lemma_no_entry_after(bytes, limit, b, a, n);
    }
    assert(a.take(n) == a);
    assert(b.take(n) == b);
}

/// The entries of a sector take no less than nothing.
pub proof fn lemma_sum_positive(bytes: Seq<u8>, l: Seq<Entry>)
    requires
        holds_blocks(bytes, l),
    ensures
        0 <= total_sum(l),
{
    assert forall|j: int| 0 <= j < l.len() implies (#[trigger] l[j]).size >= 0 by {
        lemma_holds(bytes, l, j);
    }
    lemma_total_mono(l, 0, l.len() as int);
    assert(l.take(l.len() as int) == l);
    assert(l.take(0) =~= Seq::<Entry>::empty());
}

/// What follows the blocks of a sector, be it erased bytes or a broken
/// block, begins with no zero.
pub proof fn lemma_not_zero_after(bytes: Seq<u8>, limit: int, a: Seq<Entry>)
    requires
        total_sum(a) <= limit <= bytes.len(),
        erased_from(bytes, total_sum(a), limit) || broken_after(bytes, a, limit),
    ensures
        0 <= total_sum(a) < limit ==> bytes[total_sum(a)] != 0,
{
    if 0 <= total_sum(a) < limit && bytes[total_sum(a)] == 0 {
        let zone = bytes.subrange(total_sum(a), limit);
        assert(zone[0] == bytes[total_sum(a)]);
        reveal(parse);
    }
}

/// No entry of a layout of a sector lies where another layout of the
/// sector ends.
pub proof fn lemma_no_entry_after(
    bytes: Seq<u8>,
    limit: int,
    a: Seq<Entry>,
    b: Seq<Entry>,
    n: int,
)
    requires
        bytes.len() <= usize::MAX,
        holds_blocks(bytes, b),
        total_sum(b) <= limit <= bytes.len(),
        erased_from(bytes, total_sum(a), limit) || broken_after(bytes, a, limit),
        0 <= n < b.len(),
    ensures
        b[n].start != total_sum(a),
{
    lemma_holds(bytes, b, n);
    let e = b[n];
    if e.start == total_sum(a) {
        let zone = bytes.subrange(e.start, limit);
        assert(zone[0] == bytes[e.start]);
        if e.tag.len() > 0 {
            crate::format::lemma_image_header(e.validity, e.tag, e.data);
            assert(bytes[e.start] == bytes.subrange(e.start, e.start + e.size)[0]);
            assert(zone.subrange(0, e.size) =~= bytes.subrange(e.start, e.start + e.size));
            crate::format::lemma_parse_image(zone, e.validity, e.tag, e.data);
        } else {
            assert(bytes[e.start] == 0);
            reveal(parse);
        }
    }
}

/// A flash with a broken block holds the blocks of one layout, and the
/// broken block after those of one sector.
pub proof fn lemma_broken_unique(
    flash: Flash,
    sectors: Seq<Sector>,
    defrag: int,
    applet: int,
    a: Seq<Seq<Entry>>,
    sa: int,
    b: Seq<Seq<Entry>>,
    sb: int,
)
    requires
        mountable(flash, sectors, defrag, applet),
        broken(flash, sectors, defrag, a, sa),
        broken(flash, sectors, defrag, b, sb),
    ensures
        a == b,
        sa == sb,
{
    assert forall|s: int| 0 <= s < sectors.len() implies a[s] == b[s] by {
        let bytes = flash.bytes(sectors[s].index());
        assert(flash.has(sectors[s]));
        flash.lemma_bytes_len(sectors[s].index());
        sectors[s].lemma_range();
        assert(holds_blocks(bytes, a[s]));
        assert(holds_blocks(bytes, b[s]));
        if s != defrag {
            lemma_one_layout(bytes, limit_of(sectors, defrag, s), a[s], b[s]);
        }
    }
    assert(a =~= b);
    if sa != sb {
        let bytes = flash.bytes(sectors[sa].index());
        let p = total_sum(a[sa]);
        let zone = bytes.subrange(p, sectors[sa].length() as int);
        assert(flash.has(sectors[sa]));
        flash.lemma_bytes_len(sectors[sa].index());
        assert(holds_blocks(bytes, b[sa]));
        lemma_sum_positive(bytes, a[sa]);
        assert(zone[0] == bytes[p]);
        crate::format::lemma_parse_empty(zone);
    }
}

/// A flash with a broken block does not hold the blocks of a layout with
/// erased bytes after each.
pub proof fn lemma_broken_not_laid(
    flash: Flash,
    sectors: Seq<Sector>,
    defrag: int,
    applet: int,
    a: Seq<Seq<Entry>>,
    sa: int,
    b: Seq<Seq<Entry>>,
)
    requires
        mountable(flash, sectors, defrag, applet),
        broken(flash, sectors, defrag, a, sa),
    ensures
        !laid_any(flash, sectors, defrag, b),
{
    if laid_any(flash, sectors, defrag, b) {
        let bytes = flash.bytes(sectors[sa].index());
        assert(flash.has(sectors[sa]));
        flash.lemma_bytes_len(sectors[sa].index());
        sectors[sa].lemma_range();
        assert(holds_blocks(bytes, a[sa]));
        assert(holds_blocks(bytes, b[sa]));
        lemma_one_layout(bytes, limit_of(sectors, defrag, sa), a[sa], b[sa]);
        let p = total_sum(a[sa]);
        let zone = bytes.subrange(p, sectors[sa].length() as int);
        lemma_sum_positive(bytes, a[sa]);
        assert(zone[0] == bytes[p]);
        crate::format::lemma_parse_empty(zone);
    }
}

/// A flash holds the blocks of one layout.
pub proof fn lemma_fits_unique(
    flash: Flash,
    sectors: Seq<Sector>,
    defrag: int,
    applet: int,
    a: Seq<Seq<Entry>>,
    b: Seq<Seq<Entry>>,
)
    requires
        mountable(flash, sectors, defrag, applet),
        laid_out(flash, sectors, defrag, a),
        laid_out(flash, sectors, defrag, b),
    ensures
        a == b,
{
    assert forall|s: int| 0 <= s < sectors.len() implies a[s] == b[s] by {
        let bytes = flash.bytes(sectors[s].index());
        assert(flash.has(sectors[s]));
        flash.lemma_bytes_len(sectors[s].index());
        sectors[s].lemma_range();
        assert(holds_blocks(bytes, a[s]));
        assert(holds_blocks(bytes, b[s]));
        if s != defrag {
            lemma_same_blocks(bytes, limit_of(sectors, defrag, s), a[s], b[s]);
        }
    }
    assert(a =~= b);
}

/// The files `files` and those that the valid ones of the first `k` of the
/// entries `p` make: the data of each under its tag.
pub open spec fn adopted(files: Map<Seq<u8>, Seq<u8>>, p: Seq<Entry>, k: int) -> Map<
    Seq<u8>,
    Seq<u8>,
>
    decreases k,
{
    if k <= 0 {
        files
    } else if p[k - 1].validity == VALIDITY_VALID {
        adopted(files, p, k - 1).insert(p[k - 1].tag, p[k - 1].data)
    } else {
        adopted(files, p, k - 1)
    }
}

/// The tags of the files with the valid ones of the first entries are those
/// of the files and of these entries.
pub proof fn lemma_adopted_dom(files: Map<Seq<u8>, Seq<u8>>, p: Seq<Entry>, k: int, t: Seq<u8>)
    requires
        0 <= k <= p.len(),
    ensures
        adopted(files, p, k).dom().contains(t) <==> files.dom().contains(t) || exists|i: int|
            0 <= i < k && (#[trigger] p[i]).validity == VALIDITY_VALID && p[i].tag == t,
    decreases k,
{
    if k > 0 {
        lemma_adopted_dom(files, p, k - 1, t);
        if p[k - 1].validity == VALIDITY_VALID && p[k - 1].tag == t {
            assert(p[k - 1].validity == VALIDITY_VALID && p[k - 1].tag == t);
        }
    }
}

/// The file of a valid entry whose tag no later entry has is its data.
pub proof fn lemma_adopted_at(files: Map<Seq<u8>, Seq<u8>>, p: Seq<Entry>, k: int, i: int)
    requires
        0 <= i < k <= p.len(),
        p[i].validity == VALIDITY_VALID,
        forall|a: int, b: int| 0 <= a < b < p.len() ==> (#[trigger] p[a]).tag != (#[trigger] p[b]).tag,
    ensures
        adopted(files, p, k)[p[i].tag] == p[i].data,
    decreases k,
{
    if i < k - 1 {
        lemma_adopted_at(files, p, k - 1, i);
        assert(p[i].tag != p[k - 1].tag);
    }
}

/// The file of a tag that no entry has is what it was.
pub proof fn lemma_adopted_other(files: Map<Seq<u8>, Seq<u8>>, p: Seq<Entry>, k: int, t: Seq<u8>)
    requires
        0 <= k <= p.len(),
        forall|i: int| 0 <= i < p.len() ==> (#[trigger] p[i]).tag != t,
    ensures
        adopted(files, p, k)[t] == files[t],
    decreases k,
{
    if k > 0 {
        lemma_adopted_other(files, p, k - 1, t);
        assert(p[k - 1].tag != t);
    }
}

/// The file of a valid entry whose tag no other valid entry has is its
/// data.
pub proof fn lemma_adopted_last(files: Map<Seq<u8>, Seq<u8>>, p: Seq<Entry>, k: int, i: int)
    requires
        0 <= i < k <= p.len(),
        p[i].validity == VALIDITY_VALID,
        forall|a: int, b: int|
            0 <= a < b < p.len() && (#[trigger] p[a]).validity == VALIDITY_VALID && (
            #[trigger] p[b]).validity == VALIDITY_VALID ==> p[a].tag != p[b].tag,
    ensures
        adopted(files, p, k)[p[i].tag] == p[i].data,
    decreases k,
{
    if i < k - 1 {
        lemma_adopted_last(files, p, k - 1, i);
        if p[k - 1].validity == VALIDITY_VALID {
            assert(p[i].tag != p[k - 1].tag);
        }
    }
}

/// The file of a tag that no valid entry has is what it was.
pub proof fn lemma_adopted_kept(files: Map<Seq<u8>, Seq<u8>>, p: Seq<Entry>, k: int, t: Seq<u8>)
    requires
        0 <= k <= p.len(),
        forall|i: int|
            0 <= i < p.len() && (#[trigger] p[i]).validity == VALIDITY_VALID ==> p[i].tag != t,
    ensures
        adopted(files, p, k)[t] == files[t],
    decreases k,
{
    if k > 0 {
        lemma_adopted_kept(files, p, k - 1, t);
    }
}

/// Entries of which none is valid add no file.
pub proof fn lemma_adopted_none(files: Map<Seq<u8>, Seq<u8>>, p: Seq<Entry>, k: int)
    requires
        0 <= k <= p.len(),
        none_valid(p),
    ensures
        adopted(files, p, k) == files,
    decreases k,
{
    if k > 0 {
        lemma_adopted_none(files, p, k - 1);
    }
}

/// The counted sum of the first entries, one entry further.
pub proof fn lemma_counted_take(entries: Seq<Entry>, i: int)
    requires
        0 <= i < entries.len(),
    ensures
        counted_sum(entries.take(i + 1)) == counted_sum(entries.take(i)) + if entries[i].counted {
            entries[i].size
        } else {
            0
        },
{
    assert(entries.take(i + 1).drop_last() == entries.take(i));
}

/// The counted sum of the first entries grows with their number.
pub proof fn lemma_counted_mono(entries: Seq<Entry>, i: int, j: int)
    requires
        forall|k: int| 0 <= k < entries.len() ==> (#[trigger] entries[k]).size >= 0,
        0 <= i <= j <= entries.len(),
    ensures
        counted_sum(entries.take(i)) <= counted_sum(entries.take(j)),
    decreases j - i,
{
    if i < j {
        lemma_counted_mono(entries, i, j - 1);
        lemma_counted_take(entries, j - 1);
    }
}

/// What lies at the place of the `k`-th of the entries whose blocks some
/// bytes hold, with erased bytes after the last up to `limit`: its block, or
/// erased bytes after the last entry.
pub proof fn lemma_at_bytes(bytes: Seq<u8>, l: Seq<Entry>, k: int, limit: int)
    requires
        holds_blocks(bytes, l),
        0 <= k <= l.len(),
        total_sum(l) <= limit <= bytes.len() <= usize::MAX,
        erased_from(bytes, total_sum(l), limit),
    ensures
        ({
            let ptr = total_sum(l.take(k));
            let zone = bytes.subrange(ptr, limit);
            &&& 0 <= ptr <= total_sum(l)
            &&& k == l.len() ==> ptr == total_sum(l) && (ptr < limit ==> parse(zone) == Err::<
                Block,
                ParseNoBlock,
            >(ParseNoBlock::Empty))
            &&& k < l.len() ==> {
                &&& ptr == l[k].start
                &&& ptr + l[k].size == total_sum(l.take(k + 1))
                &&& ptr + l[k].size <= total_sum(l)
                &&& l[k].size >= 1
                &&& l[k].counted == (l[k].validity == VALIDITY_VALID)
                &&& l[k].tag.len() == 0 ==> l[k].validity == VALIDITY_NOLONGER && parse(zone)
                    == Err::<Block, ParseNoBlock>(ParseNoBlock::Erased(l[k].size as usize))
                &&& l[k].tag.len() > 0 ==> {
                    &&& encodable(l[k].tag.len() as int, l[k].data.len() as int)
                    &&& l[k].size == block_size(l[k].tag.len() as int, l[k].data.len() as int)
                    &&& parse(zone) == Ok::<Block, ParseNoBlock>(
                        Block {
                            valid: l[k].validity == VALIDITY_VALID,
                            tag_start: (1 + lenlen(l[k].data.len() as int)) as usize,
                            tag_len: l[k].tag.len() as usize,
                            data_start: (1 + lenlen(l[k].data.len() as int)
                                + l[k].tag.len()) as usize,
                            data_len: l[k].data.len() as usize,
                            size: l[k].size as usize,
                        },
                    )
                    &&& bytes.subrange(
                        ptr + 1 + lenlen(l[k].data.len() as int),
                        ptr + 1 + lenlen(l[k].data.len() as int) + l[k].tag.len(),
                    ) == l[k].tag
                    &&& bytes.subrange(
                        ptr + 1 + lenlen(l[k].data.len() as int) + l[k].tag.len(),
                        ptr + 1 + lenlen(l[k].data.len() as int) + l[k].tag.len()
                            + l[k].data.len(),
                    ) == l[k].data
                }
            }
        }),
{
    let ptr = total_sum(l.take(k));
    let zone = bytes.subrange(ptr, limit);
    assert forall|j: int| 0 <= j < l.len() implies (#[trigger] l[j]).size >= 0 by {
        lemma_holds(bytes, l, j);
    }
    lemma_total_mono(l, 0, k);
    lemma_total_mono(l, k, l.len() as int);
    assert(l.take(l.len() as int) == l);
    assert(l.take(0) =~= Seq::<Entry>::empty());
    if k == l.len() {
        assert(l.take(k) == l);
        if ptr < limit {
            assert(zone[0] == bytes[ptr]);
            crate::format::lemma_parse_empty(zone);
        }
    } else {
        lemma_holds(bytes, l, k);
        lemma_total_take(l, k);
        let e = l[k];
        if e.tag.len() == 0 {
            lemma_zeros_at(bytes, limit, l, k);
        } else {
            assert(zone.subrange(0, e.size) =~= bytes.subrange(e.start, e.start + e.size));
            crate::format::lemma_parse_image(zone, e.validity, e.tag, e.data);
            let i = 1 + lenlen(e.data.len() as int);
            assert(zone.subrange(i, i + e.tag.len()) =~= bytes.subrange(
                ptr + i,
                ptr + i + e.tag.len(),
            ));
            assert(zone.subrange(i + e.tag.len(), i + e.tag.len() + e.data.len())
                =~= bytes.subrange(ptr + i + e.tag.len(), ptr + i + e.tag.len() + e.data.len()));
        }
    }
}

/// Number of the sectors that are not done with.
pub open spec fn pending(done: Seq<bool>) -> nat
    decreases done.len(),
{
    if done.len() == 0 {
        0
    } else {
        pending(done.drop_last()) + if done.last() {
            0nat
        } else {
            1nat
        }
    }
}

/// One sector fewer is not done with once one more is.
pub proof fn lemma_pending(done: Seq<bool>, x: int)
    requires
        0 <= x < done.len(),
        !done[x],
    ensures
        pending(done.update(x, true)) == pending(done) - 1,
    decreases done.len(),
{
    if x == done.len() - 1 {
        assert(done.update(x, true).drop_last() == done.drop_last());
    } else {
        assert(done.update(x, true).drop_last() == done.drop_last().update(x, true));
        lemma_pending(done.drop_last(), x);
    }
}

/// Entries of the same sizes have the same sums.
pub proof fn lemma_total_same(a: Seq<Entry>, b: Seq<Entry>, k: int)
    requires
        a.len() == b.len(),
        0 <= k <= a.len(),
        forall|j: int| 0 <= j < a.len() ==> (#[trigger] a[j]).size == b[j].size,
    ensures
        total_sum(a.take(k)) == total_sum(b.take(k)),
    decreases k,
{
    if k > 0 {
        lemma_total_same(a, b, k - 1);
        lemma_total_take(a, k - 1);
        lemma_total_take(b, k - 1);
    } else {
        assert(a.take(0) =~= Seq::<Entry>::empty());
        assert(b.take(0) =~= Seq::<Entry>::empty());
    }
}

impl<'a> FileSystem<'a> {
    /// Index in its sector of the byte that names the sector being
    /// defragmented.
    pub open spec fn journal_at(&self) -> int {
        self.sector_at(self.defrag()).length() - 1
    }

    /// Whether the sector `s` can be defragmented, when the byte for it
    /// holds `journal`: the flash holds what the filesystem takes it to
    /// hold, what the sector reserved for defragmenting holds is valid, and
    /// what is valid on the two sectors fits on either of them.
    pub open spec fn defragmentable(&self, s: int, journal: u8) -> bool {
        &&& self.wf()
        &&& self.consistent()
        &&& 0 <= s < self.sector_count()
        &&& s != self.defrag()
        &&& self.bytes(self.defrag())[self.journal_at()] == journal
        &&& all_valid(self.layout()[self.defrag()])
        &&& self.next_block_at(self.defrag()) + self.valid_size_at(s) <= self.limit(self.defrag())
        &&& self.next_block_at(self.defrag()) + self.valid_size_at(s) <= self.sector_at(s).length()
        &&& forall|j: int|
            0 <= j < self.sector_count() && j != self.defrag() && j != s
                ==> #[trigger] self.valid_size_at(j) <= self.limit(self.defrag())
    }

    /// The filesystem is `old` with the sector `s` defragmented: the sector
    /// holds only valid blocks, those that it and the sector reserved for
    /// defragmenting did, and the other sectors are as they were.
    pub open spec fn defragmented(&self, old: FileSystem, s: int) -> bool {
        &&& self.inv()
        &&& self@ == old@
        &&& self.next_block_at(s) == old.next_block_at(old.defrag()) + old.valid_size_at(s)
        &&& self.valid_size_at(s) == self.next_block_at(s)
        &&& forall|t: Seq<u8>| #[trigger]
            old@.dom().contains(t) ==> self.sector_of(t) == if old.sector_of(t) == old.defrag() {
                s
            } else {
                old.sector_of(t)
            }
        &&& forall|j: int|
            0 <= j < self.sector_count() && j != self.defrag() && j != s ==> #[trigger] self.bytes(
                j,
            ) == old.bytes(j) && self.next_block_at(j) == old.next_block_at(j)
                && self.valid_size_at(j) == old.valid_size_at(j) && self.layout()[j]
                == old.layout()[j]
    }

    /// A filesystem in which no defragmentation is going on has nothing in
    /// the sector reserved for defragmenting.
    pub proof fn lemma_idle(&self)
        requires
            self.inv(),
        ensures
            self.layout()[self.defrag()] == Seq::<Entry>::empty(),
            self.next_block_at(self.defrag()) == 0,
            self.valid_size_at(self.defrag()) == 0,
            self.bytes(self.defrag())[self.journal_at()] == 0xFF,
            forall|s: int|
                0 <= s < self.sector_count() && s != self.defrag() ==> self.defragmentable(
                    s,
                    0xFF,
                ),
    {
        reveal(FileSystem::structure_ok);
        reveal(FileSystem::layout_ok);
        reveal(FileSystem::idle);
        reveal(FileSystem::blocks_ok);
        reveal(FileSystem::tails_ok);
        let d = self.defragsector.0 as int;
        self.lemma_sizes(d);
        if self.layout@[d].len() > 0 {
            assert(0 <= self.layout@[d][0].start);
            assert(1 <= self.layout@[d][0].size);
        }
        assert(self.layout@[d] =~= Seq::<Entry>::empty());
        assert forall|s: int|
            0 <= s < self.sector_count() && s != self.defrag() implies self.defragmentable(
            s,
            0xFF,
        ) by {
            self.lemma_sizes(s);
        }
    }

    /// Reads the byte that names the sector being defragmented.
    fn read_journal(&mut self) -> (r: u8)
        requires
            old(self).wf(),
        ensures
            final(self).look_step(old(self), old(self).defrag()),
            r == old(self).bytes(old(self).defrag())[old(self).journal_at()],
    {
        proof {
            reveal(FileSystem::structure_ok);
            reveal(FileSystem::layout_ok);
            reveal(FileSystem::files_ok);
            reveal(FileSystem::locks_ok);
            reveal(FileSystem::blocks_ok);
            reveal(FileSystem::tails_ok);
            reveal(FileSystem::idle);
        }
        let d = self.defragsector.0;
        let sector = self.sectors[d];
        let at = sector.len() - 1;
        let ghost idx = sector.index();
        let ghost zl = Lock { write: false, start: at, length: 1 };
        proof {
            sector.lemma_range();
            old(self).lemma_no_writers(d as int, zl);
            old(self).flash.lemma_bytes_len(idx);
            if old(self).flash.holds(idx, zl) {
                let g = choose|g: File| #[trigger]
                    old(self).files.contains(g) && g.sector.0 == d && (zl == g.tag.lock() || zl
                        == g.data.lock());
                let j = old(self).lemma_file(g);
                g.tag.lemma_range();
                g.data.lemma_range();
            }
        }
        let zone = match sector.read(&mut self.flash, at, 1) {
            Ok(z) => z,
            Err(e) => {
                return 0xFF;
            },
        };
        proof {
            zone.lemma_range();
            self.flash.lemma_bytes_len(idx);
        }
        let r = zone.as_slice(&self.flash)[0];
        zone.release(&mut self.flash);
        proof {
            assert(self.flash.same_but_locks(old(self).flash, -1));
        }
        r
    }

    /// Writes the byte that names the sector being defragmented: the byte
    /// keeps only the bits that `id` has too.
    fn write_journal(&mut self, id: u8)
        requires
            old(self).wf(),
        ensures
            final(self).scribble_step(old(self), old(self).defrag()),
            forall|p: int|
                0 <= p < old(self).journal_at() ==> final(self).bytes(old(self).defrag())[p] == old(
                    self,
                ).bytes(old(self).defrag())[p],
            final(self).bytes(old(self).defrag())[old(self).journal_at()] == old(self).bytes(
                old(self).defrag(),
            )[old(self).journal_at()] & id,
    {
        proof {
            reveal(FileSystem::structure_ok);
            reveal(FileSystem::layout_ok);
            reveal(FileSystem::files_ok);
            reveal(FileSystem::locks_ok);
            reveal(FileSystem::blocks_ok);
            reveal(FileSystem::tails_ok);
            reveal(FileSystem::idle);
        }
        let d = self.defragsector.0;
        let sector = self.sectors[d];
        let at = sector.len() - 1;
        let ghost idx = sector.index();
        let ghost wl = Lock { write: true, start: at, length: 1 };
        proof {
            sector.lemma_range();
            old(self).flash.lemma_bytes_len(idx);
            old(self).lemma_sizes(d as int);
            if old(self).flash.conflicts(idx, wl) {
                let h = choose|h: Lock| #[trigger]
                    old(self).flash.holds(idx, h) && crate::flash::incompatible(wl, h);
                let g = choose|g: File| #[trigger]
                    old(self).files.contains(g) && g.sector.0 == d && (h == g.tag.lock() || h
                        == g.data.lock());
                let j = old(self).lemma_file(g);
                g.tag.lemma_range();
                g.data.lemma_range();
            }
            if old(self).flash.holds(idx, wl) {
                assert(crate::flash::incompatible(wl, wl));
            }
        }
        match sector.with_writer(&mut self.flash, at, 1) {
            Err(e) => {},
            Ok(b) => {
                proof {
                    b.lemma_range();
                }
                let w = b.write(&mut self.flash, 0, id);
                b.release(&mut self.flash);
            },
        }
        proof {
            self.flash.lemma_bytes_len(idx);
            assert(self.flash.same_but_locks(old(self).flash, -1));
        }
    }

    /// The step from `old` to `self` in which the sector `s`, on which no
    /// file was, has been erased.
    spec fn clear_step(&self, old: &FileSystem, s: int) -> bool {
        let idx = old.sectors@[s].index();
        &&& old.wf()
        &&& 0 <= s < old.sectors@.len()
        &&& forall|g: File| #[trigger] old.files.contains(g) ==> g.sector.0 != s
        &&& self.sectors == old.sectors
        &&& self.defragsector == old.defragsector
        &&& self.appletsector == old.appletsector
        &&& self.next_blocks@ == old.next_blocks@.update(s, 0)
        &&& self.valid_sizes@ == old.valid_sizes@.update(s, 0)
        &&& self.layout@ == old.layout@.update(s, Seq::<Entry>::empty())
        &&& self.files == old.files
        &&& self.flash.wf()
        &&& !self.flash.writing()
        &&& self.flash.same_but_locks(old.flash, -1)
        &&& self.flash.same_but_bytes(old.flash, idx)
        &&& self.flash.bytes(idx) == blank(old.sectors@[s].length() as nat)
    }

    /// The filesystem is in order, with the files it had, after a sector on
    /// which no file was has been erased.
    proof fn lemma_clear(&self, old: &FileSystem, s: int)
        requires
            self.clear_step(old, s),
        ensures
            self.wf(),
            self.same_sectors(*old),
            self@ == old@,
            old.consistent() ==> self.consistent(),
            old.blocks_ok() ==> self.blocks_ok(),
            self.tail_at(s),
            self.bytes(s) == blank(self.sector_at(s).length() as nat),
            forall|t: int|
                0 <= t < self.sector_count() && t != s ==> #[trigger] self.bytes(t) == old.bytes(t)
                    && self.next_block_at(t) == old.next_block_at(t) && self.valid_size_at(t)
                    == old.valid_size_at(t) && self.layout()[t] == old.layout()[t] && (old.tail_at(
                    t,
                ) ==> self.tail_at(t)),
            self.next_block_at(s) == 0,
            self.valid_size_at(s) == 0,
            self.layout()[s] == Seq::<Entry>::empty(),
    {
        reveal(FileSystem::structure_ok);
        reveal(FileSystem::layout_ok);
        reveal(FileSystem::files_ok);
        reveal(FileSystem::locks_ok);
        reveal(FileSystem::blocks_ok);
        reveal(FileSystem::tails_ok);
        reveal(FileSystem::idle);
        let idx = old.sectors@[s].index();
        old.flash.lemma_bytes_len(idx);
        self.flash.lemma_bytes_len(idx);
        old.sectors@[s].lemma_range();
        assert(old.flash.handle(idx) == old.sectors@[s]);
        lemma_holds_none(self.bytes(s));
        assert(self.structure_ok()) by {
            assert forall|i: int| 0 <= i < self.sectors@.len() implies self.flash.has(
                #[trigger] self.sectors@[i],
            ) by {
                assert(old.flash.has(old.sectors@[i]));
            }
        }
        assert(self.layout_ok()) by {
            assert forall|t: int, i: int|
                0 <= t < self.layout@.len() && 0 <= i < self.layout@[t].len() implies {
                &&& 0 <= (#[trigger] self.layout@[t][i]).start
                &&& 1 <= self.layout@[t][i].size
                &&& self.layout@[t][i].start + self.layout@[t][i].size <= self.next_blocks@[t]
                &&& self.layout@[t][i].validity == VALIDITY_VALID ==> self.layout@[t][i].counted
            } by {
                assert(0 <= old.layout@[t][i].start);
            }
            assert forall|t: int, i: int, j: int|
                0 <= t < self.layout@.len() && 0 <= i < j < self.layout@[t].len() implies (
            #[trigger] self.layout@[t][i]).start + self.layout@[t][i].size <= (
            #[trigger] self.layout@[t][j]).start by {
                assert(old.layout@[t][i].start + old.layout@[t][i].size <= old.layout@[t][j].start);
            }
            assert forall|t: int| 0 <= t < self.layout@.len() implies self.valid_sizes@[t]
                == counted_sum(#[trigger] self.layout@[t]) by {
                assert(old.valid_sizes@[t] == counted_sum(old.layout@[t]));
            }
        }
        assert(self.files_ok()) by {
            assert forall|g: File| #[trigger] self.files.contains(g) implies {
                &&& g.sector.0 < self.sectors@.len()
                &&& g.tag.sector_spec() == self.sectors@[g.sector.0 as int]
                &&& g.data.sector_spec() == self.sectors@[g.sector.0 as int]
                &&& g.header_at() >= 0
                &&& exists|j: int|
                    0 <= j < self.layout@[g.sector.0 as int].len() && g.owns(
                        #[trigger] self.layout@[g.sector.0 as int][j],
                    )
            } by {
                let j = old.lemma_file(g);
                assert(g.owns(self.layout@[g.sector.0 as int][j]));
            }
            assert forall|t: int, i: int|
                0 <= t < self.layout@.len() && 0 <= i < self.layout@[t].len() && (
                #[trigger] self.layout@[t][i]).validity == VALIDITY_VALID implies {
                &&& self.files.has_key(key_words(self.layout@[t][i].tag))
                &&& self.files.entry(key_words(self.layout@[t][i].tag)).sector.0 == t
                &&& self.files.entry(key_words(self.layout@[t][i].tag)).owns(self.layout@[t][i])
            } by {
                assert(old.layout@[t][i].validity == VALIDITY_VALID);
            }
        }
        assert(self.locks_ok()) by {
            assert forall|t: int, l: Lock| 0 <= t < self.sectors@.len() implies (
            #[trigger] self.flash.holds(self.sectors@[t].index(), l) <==> exists|g: File| #[trigger]
                self.files.contains(g) && g.sector.0 == t && (l == g.tag.lock() || l
                    == g.data.lock())) by {
                assert(self.flash.holds(self.sectors@[t].index(), l) == old.flash.holds(
                    old.sectors@[t].index(),
                    l,
                ));
            }
        }
        old.lemma_view();
        assert forall|t: Seq<u8>| #[trigger] self@.dom().contains(t) implies self@[t] == old@[t] by {
            let g = old.record(t);
            let j = old.lemma_file(g);
            assert(old.sectors@[g.sector.0 as int].index() != idx);
            assert(self.flash.bytes(old.sectors@[g.sector.0 as int].index()) == old.flash.bytes(
                old.sectors@[g.sector.0 as int].index(),
            ));
        }
        assert(self@ =~= old@);
        assert forall|t: int| 0 <= t < self.sectors@.len() && t != s implies #[trigger] self.bytes(
            t,
        ) == old.bytes(t) by {
            assert(old.sectors@[t].index() != idx);
        }
        if old.consistent() {
            assert forall|t: int| 0 <= t < self.sectors@.len() implies {
                &&& erased_from(#[trigger] self.bytes(t), self.next_blocks@[t] as int, self.limit(t))
            } by {
                assert(erased_from(old.bytes(t), old.next_blocks@[t] as int, old.limit(t)));
                if t != s {
                    assert(self.bytes(t) == old.bytes(t));
                }
            }
        }
        if old.blocks_ok() {
            assert forall|t: int| 0 <= t < self.sectors@.len() implies {
                &&& holds_blocks(#[trigger] self.bytes(t), self.layout@[t])
                &&& self.next_blocks@[t] == total_sum(self.layout@[t])
            } by {
                assert(holds_blocks(old.bytes(t), old.layout@[t]));
                if t != s {
                    assert(self.bytes(t) == old.bytes(t));
                }
            }
            assert forall|g: File, j: int|
                #![trigger self.files.contains(g), self.layout@[g.sector.0 as int][j]]
                self.files.contains(g) && 0 <= j < self.layout@[g.sector.0 as int].len() && g.owns(
                    self.layout@[g.sector.0 as int][j],
                ) implies g.fits(self.layout@[g.sector.0 as int][j]) by {
                assert(g.owns(old.layout@[g.sector.0 as int][j]));
            }
        }
    }

    /// Erases a sector on which no file is, after which it holds no block.
    ///
    /// # Errors
    ///
    /// Errors, and leaves the filesystem as it was, if a file is on the
    /// sector.
    fn clear_sector(&mut self, sid: SectorID) -> (r: Result<(), Error>)
        requires
            old(self).wf(),
            sid.0 < old(self).sectors@.len(),
        ensures
            match r {
                Ok(()) => final(self).clear_step(old(self), sid.0 as int),
                Err(e) => final(self).look_step(old(self), sid.0 as int) && e == Error::IO(
                    IOError::LockedError,
                ),
            },
            none_valid(old(self).layout@[sid.0 as int]) ==> r is Ok,
    {
        proof {
            reveal(FileSystem::structure_ok);
            reveal(FileSystem::layout_ok);
            reveal(FileSystem::files_ok);
            reveal(FileSystem::locks_ok);
            reveal(FileSystem::blocks_ok);
            reveal(FileSystem::tails_ok);
            reveal(FileSystem::idle);
        }
        let sector = self.sectors[sid.0];
        let ghost idx = sector.index();
        let ghost wl = Lock { write: true, start: 0, length: sector.length() as usize };
        proof {
            sector.lemma_range();
            old(self).flash.lemma_bytes_len(idx);
            if none_valid(old(self).layout@[sid.0 as int]) && old(self).flash.conflicts(idx, wl) {
                let h = choose|h: Lock| #[trigger]
                    old(self).flash.holds(idx, h) && crate::flash::incompatible(wl, h);
                let g = choose|g: File| #[trigger]
                    old(self).files.contains(g) && g.sector.0 == sid.0 && (h == g.tag.lock() || h
                        == g.data.lock());
                let j = old(self).lemma_file(g);
            }
        }
        match sector.erase(&mut self.flash) {
            Err(e) => {
                return Err(Error::IO(e));
            },
            Ok(()) => {},
        }
        self.next_blocks[sid.0] = 0;
        self.valid_sizes[sid.0] = 0;
        proof {
            self.layout@ = old(self).layout@.update(sid.0 as int, Seq::<Entry>::empty());
            assert forall|g: File| #[trigger] old(self).files.contains(g) implies g.sector.0
                != sid.0 by {
                if g.sector.0 == sid.0 {
                    let j = old(self).lemma_file(g);
                    g.tag.lemma_range();
                    g.data.lemma_range();
                    assert(old(self).flash.holds(idx, g.tag.lock()));
                    assert(crate::flash::incompatible(wl, g.tag.lock()));
                }
            }
            assert forall|l: Lock| self.flash.holds(idx, l) <==> old(self).flash.holds(idx, l) by {
                if old(self).flash.holds(idx, l) && l == wl {
                    assert(crate::flash::incompatible(wl, wl));
                }
            }
            assert(self.flash.same_but_locks(old(self).flash, -1));
        }
        Ok(())
    }

    /// The sector `s` has been defragmented once its valid blocks have been
    /// copied to the sector reserved for defragmenting, the sector erased,
    /// the blocks copied back and the other sector erased: `f0` to `f4` are
    /// the filesystem before and after each of these.
    proof fn lemma_defragmented(
        &self,
        f0: &FileSystem,
        f1: &FileSystem,
        f2: &FileSystem,
        f3: &FileSystem,
        s: int,
        journal: u8,
    )
        requires
            f0.defragmentable(s, journal),
            f1.copying(f0, s, f0.defrag(), f0.layout@[s].len() as int),
            f2.clear_step(f1, s),
            f3.copying(f2, f0.defrag(), s, f2.layout@[f0.defrag()].len() as int),
            self.clear_step(f3, f0.defrag()),
        ensures
            self.wf(),
            self.same_sectors(*f0),
            self.defragmented(*f0, s),
    {
        reveal(FileSystem::structure_ok);
        reveal(FileSystem::layout_ok);
        reveal(FileSystem::blocks_ok);
        reveal(FileSystem::tails_ok);
        reveal(FileSystem::idle);
        let d = f0.defragsector.0 as int;
        f1.lemma_copied(f0, s, d);
        f2.lemma_clear(f1, s);
        f3.lemma_copied(f2, d, s);
        self.lemma_clear(f3, d);
        f0.lemma_sizes(s);
        f0.lemma_sizes(d);
        assert(holds_blocks(f0.bytes(d), f0.layout@[d]));
        assert forall|j: int| 0 <= j < f0.layout@[d].len() implies (
        #[trigger] f0.layout@[d][j]).counted == (f0.layout@[d][j].validity == VALIDITY_VALID) by {
            lemma_holds(f0.bytes(d), f0.layout@[d], j);
        }
        lemma_counted_all_or_none(f0.layout@[d]);
        assert(f0.valid_sizes@[d] == f0.next_blocks@[d]);
        assert(self.same_sectors(*f0));
        assert(self@ == f0@);
        assert(f1.valid_sizes@[d] == f0.next_blocks@[d] + f0.valid_sizes@[s]);
        assert(f2.valid_sizes@[d] == f1.valid_sizes@[d]);
        assert(f3.valid_sizes@[s] == f2.valid_sizes@[d]);
        assert(self.next_blocks@[s] == f0.next_blocks@[d] + f0.valid_sizes@[s]);
        let idx = f3.sectors@[d].index();
        self.flash.lemma_bytes_len(idx);
        f3.sectors@[d].lemma_range();
        assert(self.flash.handle(idx) == self.sectors@[d]);
        assert(self.idle()) by {
            assert forall|t: int| 0 <= t < self.sectors@.len() && t != d implies (
            #[trigger] self.valid_sizes@[t]) <= self.sectors@[d].length() - 1 by {
                if t != s {
                    assert(self.valid_sizes@[t] == f3.valid_sizes@[t]);
                    assert(f3.layout@[t] == f2.layout@[t]);
                    assert(f3.valid_sizes@[t] == f2.valid_sizes@[t]);
                    assert(f2.valid_sizes@[t] == f1.valid_sizes@[t]);
                    assert(f1.layout@[t] == f0.layout@[t]);
                    assert(f1.valid_sizes@[t] == f0.valid_sizes@[t]);
                    assert(f0.valid_size_at(t) <= f0.limit(d));
                }
            }
        }
        assert forall|j: int|
            0 <= j < self.sector_count() && j != self.defrag() && j != s implies #[trigger] self.bytes(
            j,
        ) == f0.bytes(j) && self.next_block_at(j) == f0.next_block_at(j) && self.valid_size_at(j)
            == f0.valid_size_at(j) && self.layout()[j] == f0.layout()[j] by {
            assert(f1.layout@[j] == f0.layout@[j]);
            assert(f3.layout@[j] == f2.layout@[j]);
            f0.lemma_bytes_kept(f1, j);
            f2.lemma_bytes_kept(f3, j);
            assert(f0.sectors@[j].index() != f0.sectors@[s].index());
            assert(f0.sectors@[j].index() != f0.sectors@[d].index());
            assert(f2.bytes(j) == f1.bytes(j));
            assert(self.bytes(j) == f3.bytes(j));
        }
    }

    /// A sector holds what it held when its layout is what it was, in two
    /// filesystems that hold what they take themselves to hold.
    proof fn lemma_bytes_kept(&self, after: &FileSystem, j: int)
        requires
            self.wf(),
            self.consistent(),
            after.wf(),
            after.consistent(),
            after.same_sectors(*self),
            0 <= j < self.sectors@.len(),
            after.layout@[j] == self.layout@[j],
            after.next_blocks@[j] == self.next_blocks@[j],
            forall|p: int|
                0 <= p < self.sectors@[j].length() && p >= self.limit(j) ==> after.bytes(j)[p]
                    == self.bytes(j)[p],
        ensures
            after.bytes(j) == self.bytes(j),
    {
        reveal(FileSystem::structure_ok);
        reveal(FileSystem::blocks_ok);
        reveal(FileSystem::tails_ok);
        let a = self.bytes(j);
        let b = after.bytes(j);
        let l = self.layout@[j];
        self.lemma_sizes(j);
        self.sectors@[j].lemma_range();
        self.flash.lemma_bytes_len(self.sectors@[j].index());
        after.flash.lemma_bytes_len(after.sectors@[j].index());
        assert(self.flash.handle(self.sectors@[j].index()) == self.sectors@[j]);
        assert(after.flash.handle(after.sectors@[j].index()) == after.sectors@[j]);
        assert(holds_blocks(a, l));
        assert(holds_blocks(b, l));
        assert(erased_from(a, self.next_blocks@[j] as int, self.limit(j)));
        assert(erased_from(b, after.next_blocks@[j] as int, after.limit(j)));
        assert forall|p: int| 0 <= p < a.len() implies a[p] == b[p] by {
            if p < self.next_blocks@[j] {
                lemma_covered(a, b, l, p);
            }
        }
        assert(a =~= b);
    }

    /// Goes on with the defragmentation that the byte at the end of the
    /// sector reserved for defragmenting names, if it names one: copies the
    /// valid blocks of the sector named to the reserved sector, erases the
    /// sector, copies the blocks back, and erases the reserved sector.
    ///
    /// A defragmentation that was interrupted goes on from where it was.
    /// What the reserved sector begins with, when the filesystem has not
    /// read that sector, says where that is: a block that is no longer
    /// valid is one that was copied back, so that what is still valid
    /// there is copied back and the reserved sector erased; valid blocks
    /// are copies, which become files before the other blocks are copied
    /// after them.
    ///
    /// # Errors
    ///
    /// Errors if the byte names no sector of the filesystem, or if the
    /// blocks do not fit where they are copied to.
    pub fn finish_defragmentation(&mut self) -> (r: Result<(), Error>)
        requires
            old(self).wf(),
        ensures
            final(self).wf(),
            final(self).same_sectors(*old(self)),
            old(self).inv() ==> r is Ok && final(self).inv() && final(self)@ == old(self)@
                && forall|j: int|
                0 <= j < final(self).sector_count() ==> #[trigger] final(self).bytes(j) == old(
                    self,
                ).bytes(j) && final(self).next_block_at(j) == old(self).next_block_at(j) && final(self).valid_size_at(j) == old(self).valid_size_at(j) && final(self).layout()[j] == old(
                    self,
                ).layout()[j],
            forall|s: int|
                0 <= s < 0xFF && old(self).defragmentable(s, s as u8) ==> r is Ok && final(self).defragmented(*old(self), s),
            forall|s: int, l: Seq<Entry>|
                #![trigger old(self).copied(s, l)]
                old(self).copied(s, l) ==> r is Ok && final(self).restored(*old(self), s, l),
            forall|s: int, l: Seq<Entry>|
                #![trigger old(self).copying_out(s, l)]
                old(self).copying_out(s, l) ==> r is Ok && final(self).carried_out(
                    *old(self),
                    s,
                    l,
                ),
            forall|s: int, l: Seq<Entry>|
                #![trigger old(self).copying_back(s, l)]
                old(self).copying_back(s, l) ==> r is Ok && final(self).brought_back(
                    *old(self),
                    s,
                    l,
                ),
            old(self).journal() == 0xFF ==> r is Ok && final(self).kept(*old(self)),
            old(self).journal() != 0xFF && old(self).journal() >= old(self).sector_count() ==> r
                == Err::<(), Error>(Error::IO(IOError::OutOfBounds)) && final(self).kept(
                *old(self),
            ),
    {
        proof {
            reveal(FileSystem::structure_ok);
        }
        let defragsector = self.defragsector;
        let defragsect = self.sectors[defragsector.0];
        // Figure out which sector is supposed to be defragmented
        let journal = self.read_journal();
        let ghost f0 = *self;
        proof {
            f0.lemma_look(old(self), defragsector.0 as int);
            if old(self).inv() {
                reveal(FileSystem::idle);
            }
        }
        let sector_id = SectorID(journal as usize);
        if sector_id.0 == 0xFF {
            // No defragmentation was running
            return Ok(());
        }
        if sector_id.0 >= self.sectors.len() {
            return Err(Error::IO(IOError::OutOfBounds));
        }
        let ghost s = sector_id.0 as int;
        let ghost good = old(self).defragmentable(s, journal);
        let ghost quiet = old(self).layout()[s];
        let ghost held = old(self).held();
        let ghost cp = old(self).copied(s, held);
        let ghost out = old(self).copying_out(s, held);
        let ghost back = old(self).copying_back(s, held);
        proof {
            if good {
                f0.lemma_look_defragmentable(old(self), defragsector.0 as int, s, journal);
            }
            assert forall|x: int, l: Seq<Entry>| #[trigger]
                old(self).copied(x, l) implies x == s && l == held by {
                old(self).lemma_held(l);
            }
            assert forall|x: int, l: Seq<Entry>| #[trigger]
                old(self).copying_out(x, l) implies x == s && l == held by {
                old(self).lemma_held(l);
            }
            assert forall|x: int, l: Seq<Entry>| #[trigger]
                old(self).copying_back(x, l) implies x == s && l == held by {
                old(self).lemma_held(l);
            }
            if cp {
                f0.lemma_copied_start(old(self), s, held);
            }
            defragsect.lemma_range();
            f0.lemma_structure();
            f0.lemma_first(old(self), s, journal, held);
        }
        // What the sector reserved for defragmenting begins with says how far the
        // defragmentation had come, when the filesystem has not read the sector
        let first = self.flash.byte(&defragsect, 0);
        let unread = self.next_blocks[defragsector.0] == 0 && first != 0xFF;
        if unread && first & VALIDITY_MASK == VALIDITY_NOLONGER {
            // The blocks were being copied back
            proof {
                if back {
                    f0.lemma_back_look(old(self), s, held);
                }
            }
            let r = self.bring_back(sector_id, Ghost(held));
            proof {
                assert(self.same_sectors(*old(self))) by {
                    assert forall|i: int| 0 <= i < self.sector_count() implies self.sector_at(i)
                        == old(self).sector_at(i) by {
                        assert(self.sector_at(i) == f0.sector_at(i));
                    }
                }
                if back {
                    self.lemma_back_from(&f0, old(self), s, held);
                }
            }
            return r;
        }
        if unread && self.valid_sizes[sector_id.0] > 0 {
            // Blocks had been copied, and others were still to be
            proof {
                if out {
                    f0.lemma_settle_start(old(self), s, held);
                }
            }
            match self.settle(Ghost(held)) {
                Ok(()) => {},
                Err(e) => {
                    proof {
                        assert(self.same_sectors(*old(self))) by {
                            assert forall|i: int|
                                0 <= i < self.sector_count() implies self.sector_at(i) == old(
                                self,
                            ).sector_at(i) by {
                                assert(self.sector_at(i) == f0.sector_at(i));
                            }
                        }
                    }
                    return Err(e);
                },
            }
        }
        let ghost b0 = *self;
        let ghost ok = b0.defragmentable(s, journal);
        proof {
            assert(b0.same_sectors(*old(self))) by {
                assert forall|i: int| 0 <= i < b0.sector_count() implies b0.sector_at(i) == old(
                    self,
                ).sector_at(i) by {
                    assert(b0.sector_at(i) == f0.sector_at(i));
                }
            }
            if out {
                b0.lemma_settled(&f0, old(self), s, held);
            }
        }
        // Copy all valid blocks to defrag sector
        let sector = self.sectors[sector_id.0];
        match self.copy_blocks(sector_id, sector.len(), defragsector, Ghost(quiet)) {
            Err(e) => {
                return Err(e);
            },
            Ok(false) => {
                return Ok(());
            },  // should not happen
            Ok(true) => {},
        }
        let ghost f1 = *self;
        proof {
            if ok {
                f1.lemma_copied(&b0, s, defragsector.0 as int);
            }
        }
        proof {
            if cp {
                assert(f1.bytes(s) == f0.bytes(s));
                assert(f1.layout@[s] == f0.layout@[s]);
                assert(none_valid(f1.layout@[s]));
            }
        }
        // Erase sector
        match self.clear_sector(sector_id) {
            Err(e) => {
                proof {
                    self.lemma_look(&f1, s);
                }
                return Err(e);
            },
            Ok(()) => {},
        }
        let ghost f2 = *self;
        proof {
            f2.lemma_clear(&f1, s);
            if cp {
                f2.lemma_copied_mid(&f1, &f0, old(self), s, held);
            }
            if ok {
                b0.lemma_sizes(s);
                b0.lemma_sizes(defragsector.0 as int);
                f1.lemma_sizes(defragsector.0 as int);
                assert(all_valid(f2.layout@[s]));
                assert(f2.layout@[defragsector.0 as int] == f1.layout@[defragsector.0 as int]);
            }
        }
        // Copy all blocks back from defrag sector to previous sector
        match self.copy_blocks(defragsector, defragsect.len() - 1, sector_id, Ghost(held)) {
            Err(e) => {
                return Err(e);
            },
            Ok(false) => {
                return Ok(());
            },  // should not happen
            Ok(true) => {},
        }
        let ghost f3 = *self;
        proof {
            if ok {
                f3.lemma_copied(&f2, defragsector.0 as int, s);
            }
            if cp {
                assert(f3.bytes(defragsector.0 as int) == f2.bytes(defragsector.0 as int));
                assert(f3.layout@[defragsector.0 as int] == f2.layout@[defragsector.0 as int]);
                assert(none_valid(f3.layout@[defragsector.0 as int]));
            }
        }
        // Erase defrag sector
        match self.clear_sector(defragsector) {
            Err(e) => {
                proof {
                    self.lemma_look(&f3, defragsector.0 as int);
                }
                return Err(e);
            },
            Ok(()) => {},
        }
        proof {
            self.lemma_clear(&f3, defragsector.0 as int);
            if ok {
                self.lemma_defragmented(&b0, &f1, &f2, &f3, s, journal);
            }
            if good {
                self.lemma_defragmented_from(&f0, old(self), defragsector.0 as int, s);
            }
            if out {
                self.lemma_out_end(&b0, old(self), s, held);
            }
            if cp {
                self.lemma_copied_end(&f3, &f2, old(self), s, held);
            }
        }
        Ok(())
    }

    /// Defragments a sector by using the defragmentation sector: the name of
    /// the sector is written at the end of the defragmentation sector, and
    /// the defragmentation goes on from there as it does when a filesystem
    /// is made.
    ///
    /// # Errors
    ///
    /// Errors if the blocks do not fit where they are copied to
    #[verifier::spinoff_prover]
    #[verifier::rlimit(40)]
    pub fn defragment(&mut self, sector_id: SectorID) -> (r: Result<(), Error>)
        requires
            old(self).wf(),
            sector_id.0 < old(self).sector_count(),
        ensures
            final(self).wf(),
            final(self).same_sectors(*old(self)),
            old(self).defragmentable(sector_id.0 as int, 0xFF) ==> r is Ok && final(self).defragmented(*old(self), sector_id.0 as int),
    {
        proof {
            reveal(FileSystem::structure_ok);
        }
        let ghost s = sector_id.0 as int;
        let ghost good = old(self).defragmentable(s, 0xFF);
        self.write_journal(sector_id.0 as u8);
        let ghost f0 = *self;
        proof {
            f0.lemma_scribble(old(self), old(self).defrag());
            if good {
                crate::flash::lemma_and_byte(sector_id.0 as u8);
                f0.lemma_journal(old(self), s);
            }
        }
        let r = self.finish_defragmentation();
        proof {
            if good {
                assert(self.defragmented(f0, s));
                assert(self.defragmented(*old(self), s)) by {
                    assert(f0@ == old(self)@);
                    assert(f0.defrag() == old(self).defrag());
                    assert(f0.next_block_at(f0.defrag()) == old(self).next_block_at(
                        old(self).defrag(),
                    ));
                    assert(f0.valid_size_at(s) == old(self).valid_size_at(s));
                    assert forall|t: Seq<u8>| #[trigger]
                        old(self)@.dom().contains(t) implies self.sector_of(t) == if old(
                        self,
                    ).sector_of(t) == old(self).defrag() {
                        s
                    } else {
                        old(self).sector_of(t)
                    } by {
                        assert(f0@.dom().contains(t));
                        assert(f0.sector_of(t) == old(self).sector_of(t));
                    }
                    assert forall|j: int|
                        0 <= j < self.sector_count() && j != self.defrag() && j
                            != s implies #[trigger] self.bytes(j) == old(self).bytes(j)
                        && self.next_block_at(j) == old(self).next_block_at(j)
                        && self.valid_size_at(j) == old(self).valid_size_at(j) && self.layout()[j]
                        == old(self).layout()[j] by {
                        assert(self.bytes(j) == f0.bytes(j));
                        assert(f0.bytes(j) == old(self).bytes(j));
                        assert(f0.next_block_at(j) == old(self).next_block_at(j));
                    }
                }
            }
        }
        r
    }

    /// The filesystem is `old` with the sector `s`, which held no valid
    /// block, erased, and the copies wait on the sector reserved for
    /// defragmenting.
    spec fn waiting(&self, old: &FileSystem, s: int) -> bool {
        &&& self@ == old@
        &&& self.same_sectors(*old)
        &&& forall|t: int|
            0 <= t < self.sector_count() && t != old.defrag() ==> #[trigger] self.tail_at(t)
        &&& forall|t: int|
            0 <= t < self.sector_count() && t != old.defrag() && t != s ==> #[trigger] self.bytes(
                t,
            ) == old.bytes(t) && self.next_block_at(t) == old.next_block_at(t)
                && self.valid_size_at(t) == old.valid_size_at(t) && self.layout()[t]
                == old.layout()[t]
        &&& self.next_block_at(s) == 0
        &&& self.valid_size_at(s) == 0
    }

    /// The sector reserved for defragmenting holds the blocks of one list
    /// of entries.
    proof fn lemma_held(&self, l: Seq<Entry>)
        requires
            self.wf(),
            self.holds_any(l),
        ensures
            self.held() == l,
    {
        let d = self.defrag();
        let h = self.held();
        self.lemma_structure();
        self.lemma_sector(d);
        self.sector_at(d).lemma_range();
        assert(self.holds_any(h));
        lemma_same_blocks(self.bytes(d), self.limit(d), l, h);
    }

    /// The copy of the blocks of a sector that holds no valid block can
    /// begin where a defragmentation was interrupted after the copies.
    proof fn lemma_copied_start(&self, old: &FileSystem, s: int, l: Seq<Entry>)
        requires
            old.copied(s, l),
            self.look_step(old, old.defrag()),
        ensures
            self.adopt_at(
                self,
                old.layout()[s],
                s,
                old.defrag(),
                0,
                0,
                old.sector_at(s).length(),
            ),
            self.copied(s, l),
            self@ == old@,
            self.kept(*old),
    {
        reveal(FileSystem::structure_ok);
        let d = old.defrag();
        let q = old.layout()[s];
        self.lemma_look(old, d);
        self.lemma_structure();
        self.lemma_sector(s);
        self.lemma_sector(d);
        self.lemma_sizes(s);
        self.lemma_sizes(d);
        assert(self.layout@ == old.layout@);
        assert(self.next_blocks == old.next_blocks);
        assert(self.valid_sizes == old.valid_sizes);
        assert forall|j: int| 0 <= j < q.len() implies (#[trigger] q[j]).counted == (q[j].validity
            == VALIDITY_VALID) by {
            lemma_holds(self.bytes(s), q, j);
        }
        lemma_counted_all_or_none(q);
        assert(q.take(0) =~= Seq::<Entry>::empty());
        assert forall|t: int|
            0 <= t < self.sector_count() && t != self.defrag() implies #[trigger] self.tail_at(
            t,
        ) by {
            assert(old.tail_at(t));
            assert(self.bytes(t) == old.bytes(t));
            assert(self.sector_at(t) == old.sector_at(t));
        }
        assert(self.tail_at(s));
        assert(self.defrag() == old.defrag());
        assert(self.bytes(d) == old.bytes(d));
        assert(self.sector_at(d) == old.sector_at(d));
        assert(self.journal() == old.journal());
        assert(self.holds(l));
        assert(self.blocks_ok());
        assert forall|t: int|
            0 <= t < self.sector_count() && t != self.defrag() && t != s
                implies #[trigger] self.valid_size_at(t) <= self.limit(self.defrag()) by {
            assert(old.valid_size_at(t) <= old.limit(old.defrag()));
        }
    }

    /// The copy back can begin once the sector whose blocks were copied is
    /// erased.
    proof fn lemma_copied_mid(
        &self,
        f1: &FileSystem,
        f0: &FileSystem,
        old: &FileSystem,
        s: int,
        l: Seq<Entry>,
    )
        requires
            old.copied(s, l),
            f0.copied(s, l),
            f0@ == old@,
            f0.kept(*old),
            f1.adopting(f0, f0.layout()[s], s, f0.defrag(), f0.layout()[s].len() as int),
            self.clear_step(f1, s),
        ensures
            self.adopt_at(
                self,
                l,
                old.defrag(),
                s,
                0,
                0,
                old.sector_at(old.defrag()).length() - 1,
            ),
            self.waiting(old, s),
            self.layout()[old.defrag()] == Seq::<Entry>::empty(),
    {
        reveal(FileSystem::structure_ok);
        let d = old.defrag();
        let q = f0.layout()[s];
        self.lemma_clear(f1, s);
        lemma_adopted_none(f0@, q, q.len() as int);
        f0.lemma_structure();
        f1.lemma_structure();
        self.lemma_structure();
        self.lemma_sizes(s);
        self.lemma_sizes(d);
        assert(self.same_sectors(*old)) by {
            assert forall|i: int| 0 <= i < self.sector_count() implies self.sector_at(i)
                == old.sector_at(i) by {
                assert(self.sector_at(i) == f1.sector_at(i));
                assert(f1.sector_at(i) == f0.sector_at(i));
            }
        }
        assert(self.bytes(d) == old.bytes(d)) by {
            assert(self.bytes(d) == f1.bytes(d));
            assert(f1.bytes(d) == f0.bytes(d));
        }
        assert(l.take(0) =~= Seq::<Entry>::empty());
        assert forall|j: int| 0 <= j < l.len() implies (#[trigger] l[j]).counted == (l[j].validity
            == VALIDITY_VALID) by {
            lemma_holds(old.bytes(d), l, j);
        }
        lemma_counted_all_or_none(l);
        assert forall|t: int|
            0 <= t < self.sector_count() && t != old.defrag() implies #[trigger] self.tail_at(
            t,
        ) by {
            if t != s {
                assert(f0.tail_at(t));
                assert(f1.bytes(t) == f0.bytes(t));
                assert(f1.sector_at(t) == f0.sector_at(t));
                assert(f1.tail_at(t));
            }
        }
        assert forall|t: int|
            0 <= t < self.sector_count() && t != old.defrag() && t != s implies #[trigger] self.bytes(
            t,
        ) == old.bytes(t) && self.next_block_at(t) == old.next_block_at(t) && self.valid_size_at(t)
            == old.valid_size_at(t) && self.layout()[t] == old.layout()[t] by {
            assert(f1.bytes(t) == f0.bytes(t));
        }
    }

    /// The defragmentation that was interrupted after the copies is
    /// finished once the copies are back and the sector reserved for
    /// defragmenting is erased.
    proof fn lemma_copied_end(
        &self,
        f3: &FileSystem,
        f2: &FileSystem,
        old: &FileSystem,
        s: int,
        l: Seq<Entry>,
    )
        requires
            old.copied(s, l),
            f2.waiting(old, s),
            f3.adopting(f2, l, old.defrag(), s, l.len() as int),
            self.clear_step(f3, old.defrag()),
        ensures
            self.restored(*old, s, l),
    {
        reveal(FileSystem::structure_ok);
        let d = old.defrag();
        self.lemma_clear(f3, d);
        old.lemma_structure();
        f2.lemma_structure();
        f3.lemma_structure();
        self.lemma_structure();
        assert forall|j: int| 0 <= j < l.len() implies (#[trigger] l[j]).counted == (l[j].validity
            == VALIDITY_VALID) by {
            lemma_holds(old.bytes(d), l, j);
        }
        lemma_counted_all_or_none(l);
        assert(l.take(l.len() as int) == l);
        assert forall|i: int| 0 <= i < self.sector_count() implies self.sector_at(i)
            == old.sector_at(i) by {
            assert(self.sector_at(i) == f3.sector_at(i));
            assert(f3.sector_at(i) == f2.sector_at(i));
        }
        assert forall|t: int| 0 <= t < self.sector_count() implies #[trigger] self.tail_at(t) by {
            if t == s {
                if none_valid(l) {
                    assert(f3.bytes(s) == f2.bytes(s));
                    assert(f2.tail_at(s));
                    assert(f3.sector_at(s) == f2.sector_at(s));
                }
                assert(f3.tail_at(s));
            } else if t != d {
                assert(f2.tail_at(t));
                assert(f3.bytes(t) == f2.bytes(t));
                assert(f3.sector_at(t) == f2.sector_at(t));
                assert(f3.tail_at(t));
            }
        }
        assert(self.tails_ok()) by {
            reveal(FileSystem::tails_ok);
            assert forall|t: int| 0 <= t < self.sectors@.len() implies erased_from(
                #[trigger] self.bytes(t),
                self.next_blocks@[t] as int,
                self.limit(t),
            ) by {
                assert(self.tail_at(t));
            }
        }
        assert(self.idle()) by {
            reveal(FileSystem::idle);
            self.sector_at(d).lemma_range();
            self.lemma_sizes(d);
            assert(self.next_block_at(d) == 0);
            assert(self.bytes(d) == blank(self.sector_at(d).length() as nat));
            assert(self.sector_at(d).length() >= 4);
            assert forall|t: int|
                0 <= t < self.sectors@.len() && t != self.defragsector.0 implies (
            #[trigger] self.valid_sizes@[t]) <= self.sectors@[self.defragsector.0 as int].length()
                - 1 by {
                assert(self.bytes(t) == f3.bytes(t));
                assert(self.valid_size_at(t) == f3.valid_size_at(t));
                if t == s {
                    assert(f3.valid_size_at(s) == f2.valid_size_at(s) + counted_sum(l));
                    assert(total_sum(l) <= old.limit(d));
                } else {
                    assert(f3.bytes(t) == f2.bytes(t));
                    assert(f3.valid_size_at(t) == f2.valid_size_at(t));
                    assert(f2.bytes(t) == old.bytes(t));
                    assert(old.valid_size_at(t) <= old.limit(old.defrag()));
                }
            }
        }
        assert(self.wf());
        assert(self.blocks_ok());
        assert(self.inv());
        assert(self@ == adopted(old@, l, l.len() as int));
        assert(self.bytes(s) == f3.bytes(s));
        assert(self.next_block_at(s) == f3.next_block_at(s));
        assert(f3.next_block_at(s) == f2.next_block_at(s) + counted_sum(l));
        assert(self.valid_size_at(s) == f3.valid_size_at(s));
        assert(f3.valid_size_at(s) == f2.valid_size_at(s) + counted_sum(l));
        assert forall|t: int|
            0 <= t < self.sector_count() && t != self.defrag() && t != s implies #[trigger] self.bytes(
            t,
        ) == old.bytes(t) && self.next_block_at(t) == old.next_block_at(t) && self.valid_size_at(t)
            == old.valid_size_at(t) && self.layout()[t] == old.layout()[t] by {
            assert(self.bytes(t) == f3.bytes(t));
            assert(f3.bytes(t) == f2.bytes(t));
            assert(f2.bytes(t) == old.bytes(t));
        }
    }

    /// The state of the reading of the sector reserved for defragmenting,
    /// which in `f0` holds the blocks of the entries `l`, valid all and
    /// valid nowhere else, of which the filesystem knows nothing, once the
    /// first `k` of them are files.
    spec fn settling(&self, f0: &FileSystem, l: Seq<Entry>, k: int) -> bool {
        let d = f0.defrag();
        &&& self.wf()
        &&& self.blocks_ok()
        &&& f0.wf()
        &&& f0.blocks_ok()
        &&& self.same_sectors(*f0)
        &&& 0 <= k <= l.len()
        &&& f0.holds(l)
        &&& f0.layout@[d] == Seq::<Entry>::empty()
        &&& forall|i: int, j: int|
            0 <= i < j < l.len() ==> (#[trigger] l[i]).tag != (#[trigger] l[j]).tag
        &&& forall|i: int| 0 <= i < l.len() ==> !f0@.dom().contains((#[trigger] l[i]).tag)
        &&& self.layout@[d] == l.take(k)
        &&& self.valid_sizes@[d] == counted_sum(l.take(k))
        &&& self@ == adopted(f0@, l, k)
        &&& forall|t: int|
            0 <= t < self.sectors@.len() ==> #[trigger] self.bytes(t) == f0.bytes(t)
        &&& forall|t: int|
            0 <= t < self.sectors@.len() && t != d ==> #[trigger] self.layout@[t] == f0.layout@[t]
                && self.next_blocks@[t] == f0.next_blocks@[t] && self.valid_sizes@[t]
                == f0.valid_sizes@[t]
    }

    /// Such a reading is where it was after a block has been looked at.
    proof fn lemma_settle_look(&self, before: &FileSystem, f0: &FileSystem, l: Seq<Entry>, k: int)
        requires
            self.look_step(before, before.defrag()),
            before.settling(f0, l, k),
        ensures
            self.settling(f0, l, k),
    {
        reveal(FileSystem::structure_ok);
        self.lemma_look(before, before.defrag());
        assert(self.same_sectors(*f0)) by {
            assert forall|i: int| 0 <= i < self.sector_count() implies self.sector_at(i)
                == f0.sector_at(i) by {
                assert(self.sector_at(i) == before.sector_at(i));
            }
        }
        assert forall|t: int| 0 <= t < self.sectors@.len() implies #[trigger] self.bytes(t)
            == f0.bytes(t) by {
            assert(self.bytes(t) == before.bytes(t));
        }
    }

    /// What lies where such a reading has come to.
    proof fn lemma_settle_pre(&self, f0: &FileSystem, l: Seq<Entry>, k: int)
        requires
            self.settling(f0, l, k),
        ensures
            ({
                let d = self.defrag();
                let ptr = self.next_blocks@[d] as int;
                let limit = self.limit(d);
                let zone = self.bytes(d).subrange(ptr, limit);
                &&& ptr == total_sum(l.take(k))
                &&& limit == self.sectors@[d].length() - 1
                &&& k == l.len() ==> (ptr < limit ==> parse(zone) == Err::<Block, ParseNoBlock>(
                    ParseNoBlock::Empty,
                ))
                &&& k < l.len() ==> {
                    &&& ptr == l[k].start
                    &&& ptr + l[k].size <= limit
                    &&& 1 <= l[k].size
                    &&& encodable(l[k].tag.len() as int, l[k].data.len() as int)
                    &&& l[k].size == block_size(l[k].tag.len() as int, l[k].data.len() as int)
                    &&& l[k].counted
                    &&& l[k].validity == VALIDITY_VALID
                    &&& !self@.dom().contains(l[k].tag)
                    &&& parse(zone) matches Ok(b)
                    &&& b.valid
                    &&& b.size == l[k].size
                    &&& b.tag_len == l[k].tag.len()
                    &&& b.data_len == l[k].data.len()
                    &&& b.tag_start == 1 + lenlen(l[k].data.len() as int)
                    &&& self.bytes(d).subrange(ptr + b.tag_start, ptr + b.tag_start + b.tag_len)
                        == l[k].tag
                    &&& self.bytes(d).subrange(
                        ptr + b.data_start,
                        ptr + b.data_start + b.data_len,
                    ) == l[k].data
                    &&& self.bytes(d).subrange(ptr, ptr + l[k].size) == image(
                        VALIDITY_VALID,
                        l[k].tag,
                        l[k].data,
                    )
                }
            }),
    {
        reveal(FileSystem::structure_ok);
        let d = self.defrag();
        self.lemma_sector(d);
        f0.lemma_sector(d);
        self.sectors@[d].lemma_range();
        assert(self.sector_at(d) == f0.sector_at(d));
        assert(self.bytes(d) == f0.bytes(d));
        let bytes = f0.bytes(d);
        let limit = self.limit(d);
        lemma_at_bytes(bytes, l, k, limit);
        if k < l.len() {
            lemma_holds(bytes, l, k);
            lemma_adopted_dom(f0@, l, k, l[k].tag);
            if self@.dom().contains(l[k].tag) {
                let i = choose|i: int|
                    0 <= i < k && (#[trigger] l[i]).validity == VALIDITY_VALID && l[i].tag
                        == l[k].tag;
                assert(l[i].tag != l[k].tag);
            }
        }
    }

    /// Such a reading goes on after a block has made a file.
    #[verifier::spinoff_prover]
    #[verifier::rlimit(60)]
    proof fn lemma_settle_next(
        &self,
        before: &FileSystem,
        f0: &FileSystem,
        l: Seq<Entry>,
        k: int,
        f: File,
    )
        requires
            before.settling(f0, l, k),
            k < l.len(),
            self.insert_step(before, f, l[k]),
            f.sector.0 == before.defrag(),
            self.wf(),
            self.blocks_ok(),
            self@ == before@.insert(l[k].tag, l[k].data),
            forall|j: int|
                0 <= j < self.sectors@.len() ==> #[trigger] self.bytes(j) == before.bytes(j),
        ensures
            self.settling(f0, l, k + 1),
    {
        reveal(FileSystem::structure_ok);
        let d = f0.defrag();
        assert(self.sectors@ == before.sectors@);
        lemma_counted_take(l, k);
        lemma_holds(f0.bytes(d), l, k);
        assert(l.take(k).push(l[k]) =~= l.take(k + 1));
        assert(self.same_sectors(*f0)) by {
            assert forall|i: int| 0 <= i < self.sector_count() implies self.sector_at(i)
                == f0.sector_at(i) by {
                assert(self.sector_at(i) == before.sector_at(i));
            }
        }
        assert(l[k].validity == VALIDITY_VALID);
        assert(l[k].counted);
        assert(adopted(f0@, l, k + 1) == adopted(f0@, l, k).insert(l[k].tag, l[k].data));
        assert(before.defrag() == d);
        assert(self.layout@[d] == before.layout@[d].push(l[k]));
        assert(self.layout@[d] == l.take(k + 1));
        before.lemma_sizes(d);
        before.sectors@[d].lemma_range();
        assert(before.valid_sizes@[d] + l[k].size <= usize::MAX);
        assert(self.valid_sizes@[d] == before.valid_sizes@[d] + l[k].size);
        assert(self.valid_sizes@[d] == counted_sum(l.take(k + 1)));
        assert forall|t: int| 0 <= t < self.sectors@.len() implies #[trigger] self.bytes(t)
            == f0.bytes(t) by {
            assert(self.bytes(t) == before.bytes(t));
        }
        assert forall|t: int|
            0 <= t < self.sectors@.len() && t != d implies #[trigger] self.layout@[t]
            == f0.layout@[t] && self.next_blocks@[t] == f0.next_blocks@[t] && self.valid_sizes@[t]
            == f0.valid_sizes@[t] by {
            assert(before.layout@[t] == f0.layout@[t]);
            assert(self.layout@[t] == before.layout@[t]);
            assert(self.next_blocks@[t] == before.next_blocks@[t]);
            assert(self.valid_sizes@[t] == before.valid_sizes@[t]);
        }
        assert(self@ == adopted(f0@, l, k + 1));
        assert(f0.holds(l));
        assert(self.same_sectors(*f0));
        assert(self.settling(f0, l, k + 1));
    }

    /// Looks at what lies after the blocks that the sector reserved for
    /// defragmenting is taken to hold: a valid block whose tag no file has
    /// makes a file. The reading ends at anything else.
    fn settle_block(&mut self, Ghost(f0): Ghost<&FileSystem>, Ghost(l): Ghost<Seq<Entry>>, Ghost(
        k,
    ): Ghost<int>) -> (r: Result<Scan, Error>)
        requires
            old(self).wf(),
            old(self).next_blocks@[old(self).defrag()] < old(self).limit(old(self).defrag()),
        ensures
            final(self).wf(),
            final(self).same_sectors(*old(self)),
            r matches Ok(Scan::Next(n)) ==> n > 0 && final(self).next_blocks@[old(self).defrag()]
                == old(self).next_blocks@[old(self).defrag()] + n,
            !(r matches Ok(Scan::Next(_))) ==> final(self).next_blocks@[old(self).defrag()] == old(
                self,
            ).next_blocks@[old(self).defrag()],
            old(self).settling(f0, l, k) ==> {
                if k == l.len() {
                    r == Ok::<Scan, Error>(Scan::End) && final(self).settling(f0, l, k)
                } else {
                    r matches Ok(Scan::Next(n)) && final(self).settling(f0, l, k + 1)
                }
            },
    {
        proof {
            reveal(FileSystem::structure_ok);
        }
        let ghost d = old(self).defrag();
        let ghost good = old(self).settling(f0, l, k);
        let sid = self.defragsector;
        let sector = self.sectors[sid.0];
        let nb = self.next_blocks[sid.0];
        proof {
            sector.lemma_range();
            old(self).lemma_sizes(d);
        }
        let limit = sector.len() - 1;
        let (parsed, tag, data) = self.peek(sid, nb, limit);
        let ghost looked = *self;
        proof {
            self.lemma_look(old(self), d);
            if good {
                self.lemma_settle_look(old(self), f0, l, k);
                self.lemma_settle_pre(f0, l, k);
            }
            self.lemma_sizes(d);
        }
        match parsed {
            Ok(b) => {
                if b.valid && !self.has_tag(tag.as_slice()) {
                    let linked = match self.link_file(
                        tag.as_slice(),
                        b.tag_start,
                        b.data_len,
                        b.size,
                        Ghost(data@),
                        sid,
                    ) {
                        Ok(g) => g,
                        Err(e) => {
                            return Err(Error::IO(e));
                        },
                    };
                    proof {
                        let f = linked@.0;
                        let x = linked@.1;
                        self.lemma_insert_wf(&looked, f, x);
                        if good {
                            assert(x == l[k]);
                            self.lemma_insert_blocks(&looked, f, x);
                            assert forall|j: int|
                                0 <= j < self.sectors@.len() implies #[trigger] self.bytes(j)
                                == looked.bytes(j) by {
                                assert(looked.flash.has(looked.sectors@[j]));
                            }
                            let fl = self.lemma_file(f);
                            self.sectors@[d].lemma_range();
                            self.lemma_data_of(f, x);
                            self.lemma_insert_view(&looked, f, x);
                            self.lemma_settle_next(&looked, f0, l, k, f);
                        }
                    }
                    Ok(Scan::Next(b.size))
                } else {
                    Ok(Scan::End)
                }
            },
            Err(_) => Ok(Scan::End),
        }
    }

    /// Reads the blocks that the sector reserved for defragmenting holds
    /// after those that it is taken to hold: the valid ones whose tags no
    /// file has make files, up to the first block that is not such a one.
    fn settle(&mut self, Ghost(l): Ghost<Seq<Entry>>) -> (r: Result<(), Error>)
        requires
            old(self).wf(),
        ensures
            final(self).wf(),
            final(self).same_sectors(*old(self)),
            old(self).settling(old(self), l, 0) ==> r is Ok && final(self).settling(
                old(self),
                l,
                l.len() as int,
            ),
    {
        proof {
            reveal(FileSystem::structure_ok);
        }
        let ghost d = self.defrag();
        let ghost good = old(self).settling(old(self), l, 0);
        let sid = self.defragsector;
        let limit = self.sectors[sid.0].len() - 1;
        let mut done = false;
        let ghost mut k: int = 0;
        proof {
            old(self).sectors@[d].lemma_range();
        }
        while !done && self.next_blocks[sid.0] < limit
            invariant
                self.wf(),
                self.same_sectors(*old(self)),
                sid.0 == self.defrag(),
                d == self.defrag(),
                sid.0 < self.sectors@.len(),
                limit == self.limit(d),
                self.next_blocks@.len() == self.sectors@.len(),
                good == old(self).settling(old(self), l, 0),
                good ==> self.settling(old(self), l, k),
                good && done ==> k == l.len(),
            decreases
                    limit - self.next_blocks@[d] + (if done {
                        0int
                    } else {
                        1int
                    }),
        {
            match self.settle_block(Ghost(old(self)), Ghost(l), Ghost(k)) {
                Err(e) => {
                    return Err(e);
                },
                Ok(Scan::Next(n)) => {
                    proof {
                        k = k + 1;
                    }
                },
                Ok(_) => {
                    done = true;
                },
            }
            proof {
                reveal(FileSystem::structure_ok);
                self.lemma_sizes(d);
            }
        }
        proof {
            if good && k < l.len() {
                self.lemma_settle_pre(old(self), l, k);
                assert(false);
            }
        }
        Ok(())
    }

    /// What the sector reserved for defragmenting begins with, in each of
    /// the states that a defragmentation leaves.
    proof fn lemma_first(&self, old: &FileSystem, s: int, journal: u8, l: Seq<Entry>)
        requires
            self.look_step(old, old.defrag()),
            0 <= s < old.sector_count(),
        ensures
            self.bytes(self.defrag()) == old.bytes(old.defrag()),
            self.next_blocks@ == old.next_blocks@,
            self.valid_sizes@ == old.valid_sizes@,
            old.defragmentable(s, journal) ==> self.next_blocks@[self.defrag()] > 0 || self.bytes(
                self.defrag(),
            )[0] == 0xFF,
            old.copied(s, l) ==> self.valid_sizes@[s] == 0 && self.next_blocks@[self.defrag()]
                == 0 && (self.bytes(self.defrag())[0] == 0xFF || self.bytes(self.defrag())[0]
                & VALIDITY_MASK == VALIDITY_VALID),
            old.copying_out(s, l) ==> self.valid_sizes@[s] > 0 && self.next_blocks@[self.defrag()]
                == 0 && self.bytes(self.defrag())[0] != 0xFF && self.bytes(self.defrag())[0]
                & VALIDITY_MASK == VALIDITY_VALID,
            old.copying_back(s, l) ==> self.next_blocks@[self.defrag()] == 0 && self.bytes(
                self.defrag(),
            )[0] != 0xFF && self.bytes(self.defrag())[0] & VALIDITY_MASK == VALIDITY_NOLONGER,
    {
        reveal(FileSystem::structure_ok);
        let d = old.defrag();
        self.lemma_look(old, d);
        old.lemma_structure();
        old.lemma_sector(d);
        old.lemma_sector(s);
        old.lemma_sizes(d);
        old.sector_at(d).lemma_range();
        let bytes = old.bytes(d);
        assert(self.bytes(d) == bytes);
        if old.defragmentable(s, journal) && old.next_blocks@[d] == 0 {
            assert(bytes[0] == 0xFF);
        }
        if old.copied(s, l) || old.copying_out(s, l) || old.copying_back(s, l) {
            assert(old.next_blocks@[d] == total_sum(old.layout@[d]));
            lemma_holds_none(bytes);
            if l.len() > 0 {
                lemma_holds(bytes, l, 0);
                assert(l.take(0) =~= Seq::<Entry>::empty());
                if l[0].tag.len() > 0 {
                    crate::format::lemma_image_header(l[0].validity, l[0].tag, l[0].data);
                    assert(bytes[0] == bytes.subrange(0, l[0].size)[0]);
                } else {
                    assert(bytes[0] == 0);
                    assert(0u8 & VALIDITY_MASK == VALIDITY_NOLONGER) by (bit_vector);
                }
            } else {
                assert(bytes[0] == 0xFF);
            }
        }
        if old.copied(s, l) {
            let q = old.layout@[s];
            assert forall|j: int| 0 <= j < q.len() implies (#[trigger] q[j]).counted == (
            q[j].validity == VALIDITY_VALID) by {
                lemma_holds(old.bytes(s), q, j);
            }
            lemma_counted_all_or_none(q);
            reveal(FileSystem::layout_ok);
        }
    }

    /// The reading of the sector reserved for defragmenting can begin where
    /// a defragmentation was interrupted between two copies.
    proof fn lemma_settle_start(&self, old: &FileSystem, s: int, l: Seq<Entry>)
        requires
            old.copying_out(s, l),
            self.look_step(old, old.defrag()),
        ensures
            self.settling(self, l, 0),
    {
        reveal(FileSystem::structure_ok);
        let d = old.defrag();
        self.lemma_look(old, d);
        assert(self.layout@ == old.layout@);
        assert(self.valid_sizes == old.valid_sizes);
        assert(self.bytes(d) == old.bytes(d));
        assert(self.sector_at(d) == old.sector_at(d));
        assert(l.take(0) =~= Seq::<Entry>::empty());
        self.lemma_sizes(d);
        reveal(FileSystem::layout_ok);
    }

    /// Once the blocks that were copied are files, the defragmentation
    /// that was interrupted between two copies can go on.
    proof fn lemma_settled(&self, f0: &FileSystem, old: &FileSystem, s: int, l: Seq<Entry>)
        requires
            old.copying_out(s, l),
            f0.look_step(old, old.defrag()),
            self.settling(f0, l, l.len() as int),
        ensures
            self.defragmentable(s, s as u8),
            self.settled_on(old, s, l),
    {
        reveal(FileSystem::structure_ok);
        let d = old.defrag();
        f0.lemma_look(old, d);
        self.lemma_structure();
        self.lemma_sector(d);
        self.lemma_sector(s);
        self.lemma_sizes(d);
        self.lemma_sizes(s);
        assert(l.take(l.len() as int) == l);
        assert(self.layout@[d] == l);
        assert(all_valid(self.layout()[d]));
        assert forall|i: int| 0 <= i < self.sector_count() implies self.sector_at(i)
            == old.sector_at(i) by {
            assert(self.sector_at(i) == f0.sector_at(i));
        }
        assert(self.bytes(d) == old.bytes(d)) by {
            assert(self.bytes(d) == f0.bytes(d));
        }
        assert forall|t: int| 0 <= t < self.sector_count() implies #[trigger] self.tail_at(t) by {
            assert(self.bytes(t) == f0.bytes(t));
            assert(f0.bytes(t) == old.bytes(t));
            if t != d {
                assert(old.tail_at(t));
                assert(self.layout@[t] == f0.layout@[t]);
                assert(self.next_blocks@[t] == f0.next_blocks@[t]);
            }
        }
        assert(self.tails_ok()) by {
            reveal(FileSystem::tails_ok);
            assert forall|t: int| 0 <= t < self.sectors@.len() implies erased_from(
                #[trigger] self.bytes(t),
                self.next_blocks@[t] as int,
                self.limit(t),
            ) by {
                assert(self.tail_at(t));
            }
        }
        assert(forall|j: int| 0 <= j < l.len() ==> (#[trigger] l[j]).counted == (l[j].validity
            == VALIDITY_VALID)) by {
            assert forall|j: int| 0 <= j < l.len() implies (#[trigger] l[j]).counted == (
            l[j].validity == VALIDITY_VALID) by {
                lemma_holds(old.bytes(d), l, j);
            }
        }
        lemma_counted_all_or_none(l);
        assert(self.valid_size_at(s) == old.valid_size_at(s)) by {
            assert(self.layout@[s] == f0.layout@[s]);
            assert(self.valid_sizes@[s] == f0.valid_sizes@[s]);
        }
        assert forall|j: int|
            0 <= j < self.sector_count() && j != self.defrag() && j
                != s implies #[trigger] self.valid_size_at(j) <= self.limit(self.defrag()) by {
            assert(self.layout@[j] == f0.layout@[j]);
            assert(self.valid_sizes@[j] == f0.valid_sizes@[j]);
            assert(old.valid_size_at(j) <= old.limit(old.defrag()));
        }
        assert(self.bytes(d)[self.journal_at()] == s as u8);
        assert forall|t: int|
            0 <= t < self.sector_count() && t != self.defrag() && t != s implies #[trigger] self.bytes(
            t,
        ) == old.bytes(t) && self.next_block_at(t) == old.next_block_at(t) && self.valid_size_at(t)
            == old.valid_size_at(t) && self.layout()[t] == old.layout()[t] by {
            assert(self.bytes(t) == f0.bytes(t));
            assert(self.layout@[t] == f0.layout@[t]);
        }
    }

    /// The filesystem is `old` in which the blocks of the entries `l`, which
    /// the sector reserved for defragmenting holds, have become files.
    spec fn settled_on(&self, old: &FileSystem, s: int, l: Seq<Entry>) -> bool {
        &&& self@ == adopted(old@, l, l.len() as int)
        &&& self.same_sectors(*old)
        &&& self.next_block_at(old.defrag()) == total_sum(l)
        &&& self.valid_size_at(s) == old.valid_size_at(s)
        &&& forall|t: int|
            0 <= t < self.sector_count() && t != self.defrag() && t != s ==> #[trigger] self.bytes(
                t,
            ) == old.bytes(t) && self.next_block_at(t) == old.next_block_at(t)
                && self.valid_size_at(t) == old.valid_size_at(t) && self.layout()[t]
                == old.layout()[t]
    }

    /// The defragmentation that was interrupted between two copies is
    /// finished once it has gone on from the files that the copies made.
    proof fn lemma_out_end(&self, y: &FileSystem, old: &FileSystem, s: int, l: Seq<Entry>)
        requires
            y.settled_on(old, s, l),
            self.defragmented(*y, s),
            self.same_sectors(*y),
        ensures
            self.carried_out(*old, s, l),
    {
        assert(self.inv());
        reveal(FileSystem::structure_ok);
        assert forall|t: int|
            0 <= t < self.sector_count() && t != self.defrag() && t != s implies #[trigger] self.bytes(
            t,
        ) == old.bytes(t) && self.next_block_at(t) == old.next_block_at(t) && self.valid_size_at(t)
            == old.valid_size_at(t) && self.layout()[t] == old.layout()[t] by {
            assert(self.bytes(t) == y.bytes(t));
            assert(y.bytes(t) == old.bytes(t));
        }
    }

    /// What has been brought back in a filesystem in which a block had been
    /// looked at has been in the filesystem before.
    proof fn lemma_back_from(&self, f0: &FileSystem, old: &FileSystem, s: int, l: Seq<Entry>)
        requires
            f0.look_step(old, old.defrag()),
            self.brought_back(*f0, s, l),
            self.same_sectors(*f0),
        ensures
            self.brought_back(*old, s, l),
    {
        f0.lemma_look(old, old.defrag());
        old.lemma_structure();
        reveal(FileSystem::structure_ok);
        assert forall|t: int|
            0 <= t < self.sector_count() && t != self.defrag() && t != s implies #[trigger] self.bytes(
            t,
        ) == old.bytes(t) && self.next_block_at(t) == old.next_block_at(t) && self.valid_size_at(t)
            == old.valid_size_at(t) && self.layout()[t] == old.layout()[t] by {
            assert(f0.bytes(t) == old.bytes(t));
        }
    }

    /// What is left of a defragmentation can be copied back in a filesystem
    /// in which a block has been looked at as before.
    proof fn lemma_back_look(&self, old: &FileSystem, s: int, l: Seq<Entry>)
        requires
            old.copying_back(s, l),
            self.look_step(old, old.defrag()),
        ensures
            self.copying_back(s, l),
            self.kept(*old),
            self.adopt_at(
                self,
                l,
                old.defrag(),
                s,
                0,
                0,
                old.sector_at(old.defrag()).length() - 1,
            ),
    {
        reveal(FileSystem::structure_ok);
        let d = old.defrag();
        self.lemma_look(old, d);
        self.lemma_structure();
        self.lemma_sizes(s);
        self.lemma_sizes(d);
        assert(self.layout@ == old.layout@);
        assert(self.next_blocks == old.next_blocks);
        assert(self.valid_sizes == old.valid_sizes);
        assert(self.defrag() == old.defrag());
        assert(self.bytes(d) == old.bytes(d));
        assert(self.sector_at(d) == old.sector_at(d));
        assert(self.sector_at(s) == old.sector_at(s));
        assert forall|t: int|
            0 <= t < self.sector_count() && t != self.defrag() implies #[trigger] self.tail_at(
            t,
        ) by {
            assert(old.tail_at(t));
            assert(self.bytes(t) == old.bytes(t));
            assert(self.sector_at(t) == old.sector_at(t));
        }
        assert forall|t: int|
            0 <= t < self.sector_count() && t != self.defrag() && t != s
                implies #[trigger] self.valid_size_at(t) <= self.limit(self.defrag()) by {
            assert(old.valid_size_at(t) <= old.limit(old.defrag()));
        }
        assert(l.take(0) =~= Seq::<Entry>::empty());
        assert(self.tail_at(s));
        assert(self.copying_back(s, l));
    }

    /// The defragmentation that was interrupted while the blocks were
    /// copied back is finished once the rest is copied back and the sector
    /// reserved for defragmenting is erased.
    proof fn lemma_back_end(&self, f3: &FileSystem, f0: &FileSystem, s: int, l: Seq<Entry>)
        requires
            f0.copying_back(s, l),
            f3.adopting(f0, l, f0.defrag(), s, l.len() as int),
            self.clear_step(f3, f0.defrag()),
        ensures
            self.brought_back(*f0, s, l),
            self.same_sectors(*f0),
    {
        reveal(FileSystem::structure_ok);
        let d = f0.defrag();
        self.lemma_clear(f3, d);
        f0.lemma_structure();
        f3.lemma_structure();
        self.lemma_structure();
        assert(l.take(l.len() as int) == l);
        assert forall|i: int| 0 <= i < self.sector_count() implies self.sector_at(i)
            == f0.sector_at(i) by {
            assert(self.sector_at(i) == f3.sector_at(i));
        }
        assert forall|t: int| 0 <= t < self.sector_count() implies #[trigger] self.tail_at(t) by {
            if t == s {
                if none_valid(l) {
                    assert(f3.bytes(s) == f0.bytes(s));
                    assert(f0.tail_at(s));
                    assert(f3.sector_at(s) == f0.sector_at(s));
                    assert forall|j: int| 0 <= j < l.len() implies (#[trigger] l[j]).counted == (
                    l[j].validity == VALIDITY_VALID) by {
                        lemma_holds(f0.bytes(d), l, j);
                    }
                    lemma_counted_all_or_none(l);
                }
                assert(f3.tail_at(s));
            } else if t != d {
                assert(f0.tail_at(t));
                assert(f3.bytes(t) == f0.bytes(t));
                assert(f3.sector_at(t) == f0.sector_at(t));
                assert(f3.tail_at(t));
            }
        }
        assert(self.tails_ok()) by {
            reveal(FileSystem::tails_ok);
            assert forall|t: int| 0 <= t < self.sectors@.len() implies erased_from(
                #[trigger] self.bytes(t),
                self.next_blocks@[t] as int,
                self.limit(t),
            ) by {
                assert(self.tail_at(t));
            }
        }
        assert(self.idle()) by {
            reveal(FileSystem::idle);
            self.sector_at(d).lemma_range();
            self.lemma_sizes(d);
            assert(self.next_block_at(d) == 0);
            assert(self.bytes(d) == blank(self.sector_at(d).length() as nat));
            assert(self.sector_at(d).length() >= 4);
            assert forall|t: int|
                0 <= t < self.sectors@.len() && t != self.defragsector.0 implies (
            #[trigger] self.valid_sizes@[t]) <= self.sectors@[self.defragsector.0 as int].length()
                - 1 by {
                assert(self.bytes(t) == f3.bytes(t));
                assert(self.valid_size_at(t) == f3.valid_size_at(t));
                if t == s {
                    assert(f3.valid_size_at(s) == f0.valid_size_at(s) + counted_sum(l));
                } else {
                    assert(f3.bytes(t) == f0.bytes(t));
                    assert(f3.valid_size_at(t) == f0.valid_size_at(t));
                    assert(f0.valid_size_at(t) <= f0.limit(f0.defrag()));
                }
            }
        }
        assert(self.wf());
        assert(self.blocks_ok());
        assert(self.inv());
        assert(self@ == adopted(f0@, l, l.len() as int));
        assert(self.bytes(s) == f3.bytes(s));
        assert(self.next_block_at(s) == f3.next_block_at(s));
        assert(f3.next_block_at(s) == f0.next_block_at(s) + counted_sum(l));
        assert(self.valid_size_at(s) == f3.valid_size_at(s));
        assert(f3.valid_size_at(s) == f0.valid_size_at(s) + counted_sum(l));
        assert forall|t: int|
            0 <= t < self.sector_count() && t != self.defrag() && t != s implies #[trigger] self.bytes(
            t,
        ) == f0.bytes(t) && self.next_block_at(t) == f0.next_block_at(t) && self.valid_size_at(t)
            == f0.valid_size_at(t) && self.layout()[t] == f0.layout()[t] by {
            assert(self.bytes(t) == f3.bytes(t));
            assert(f3.bytes(t) == f0.bytes(t));
        }
    }

    /// Copies back to a sector what is still valid on the sector reserved
    /// for defragmenting, and erases the reserved sector: the end of a
    /// defragmentation.
    fn bring_back(&mut self, sector_id: SectorID, Ghost(l): Ghost<Seq<Entry>>) -> (r: Result<
        (),
        Error,
    >)
        requires
            old(self).wf(),
            sector_id.0 < old(self).sector_count(),
        ensures
            final(self).wf(),
            final(self).same_sectors(*old(self)),
            old(self).copying_back(sector_id.0 as int, l) && old(self).adopt_at(
                old(self),
                l,
                old(self).defrag(),
                sector_id.0 as int,
                0,
                0,
                old(self).sector_at(old(self).defrag()).length() - 1,
            ) ==> r is Ok && final(self).brought_back(*old(self), sector_id.0 as int, l),
    {
        proof {
            reveal(FileSystem::structure_ok);
            old(self).lemma_structure();
        }
        let ghost s = sector_id.0 as int;
        let ghost back = old(self).copying_back(s, l) && old(self).adopt_at(
            old(self),
            l,
            old(self).defrag(),
            s,
            0,
            0,
            old(self).sector_at(old(self).defrag()).length() - 1,
        );
        let defragsector = self.defragsector;
        let defragsect = self.sectors[defragsector.0];
        proof {
            defragsect.lemma_range();
            old(self).lemma_sizes(defragsector.0 as int);
        }
        match self.copy_blocks(defragsector, defragsect.len() - 1, sector_id, Ghost(l)) {
            Err(e) => {
                return Err(e);
            },
            Ok(false) => {
                return Ok(());
            },
            Ok(true) => {},
        }
        let ghost f3 = *self;
        proof {
            if back {
                assert(f3.bytes(defragsector.0 as int) == old(self).bytes(defragsector.0 as int));
                assert(f3.layout@[defragsector.0 as int] == old(self).layout@[defragsector.0 as int]);
                assert(none_valid(f3.layout@[defragsector.0 as int]));
            }
        }
        match self.clear_sector(defragsector) {
            Err(e) => {
                proof {
                    self.lemma_look(&f3, defragsector.0 as int);
                    assert(self.same_sectors(*old(self))) by {
                        assert forall|i: int| 0 <= i < self.sector_count() implies self.sector_at(
                            i,
                        ) == old(self).sector_at(i) by {
                            assert(self.sector_at(i) == f3.sector_at(i));
                        }
                    }
                }
                return Err(e);
            },
            Ok(()) => {},
        }
        proof {
            self.lemma_clear(&f3, defragsector.0 as int);
            assert(self.same_sectors(*old(self))) by {
                assert forall|i: int| 0 <= i < self.sector_count() implies self.sector_at(i) == old(
                    self,
                ).sector_at(i) by {
                    assert(self.sector_at(i) == f3.sector_at(i));
                }
            }
            if back {
                self.lemma_back_end(&f3, old(self), s, l);
            }
        }
        Ok(())
    }

    /// A sector can be defragmented still once its name has been written at
    /// the end of the sector reserved for defragmenting.
    proof fn lemma_journal(&self, old: &FileSystem, s: int)
        requires
            old.defragmentable(s, 0xFF),
            self.scribble_step(old, old.defrag()),
            s < 0xFF,
            forall|p: int|
                0 <= p < old.journal_at() ==> self.bytes(old.defrag())[p] == old.bytes(
                    old.defrag(),
                )[p],
            self.bytes(old.defrag())[old.journal_at()] == s as u8,
        ensures
            self.defragmentable(s, s as u8),
            self@ == old@,
            self.same_sectors(*old),
            forall|j: int|
                0 <= j < self.sector_count() && j != self.defrag() ==> #[trigger] self.bytes(j)
                    == old.bytes(j),
            forall|j: int|
                0 <= j < self.sector_count() ==> #[trigger] self.next_block_at(j)
                    == old.next_block_at(j) && self.valid_size_at(j) == old.valid_size_at(j)
                    && self.layout()[j] == old.layout()[j],
    {
        reveal(FileSystem::structure_ok);
        reveal(FileSystem::tails_ok);
        let d = old.defragsector.0 as int;
        let idx = old.sectors@[d].index();
        self.lemma_scribble(old, d);
        old.lemma_sizes(d);
        old.flash.lemma_bytes_len(idx);
        self.flash.lemma_bytes_len(idx);
        assert forall|j: int| 0 <= j < self.sector_count() && j != self.defrag() implies #[trigger] self.bytes(
            j,
        ) == old.bytes(j) by {
            assert(old.sectors@[j].index() != idx);
            assert(self.flash.bytes(old.sectors@[j].index()) == old.flash.bytes(
                old.sectors@[j].index(),
            ));
        }
        assert(self.tails_ok()) by {
            assert forall|t: int| 0 <= t < self.sectors@.len() implies erased_from(
                #[trigger] self.bytes(t),
                self.next_blocks@[t] as int,
                self.limit(t),
            ) by {
                assert(erased_from(old.bytes(t), old.next_blocks@[t] as int, old.limit(t)));
                assert forall|p: int| self.next_blocks@[t] <= p < self.limit(t) implies self.bytes(
                    t,
                )[p] == 0xFF by {
                    if t == d {
                        assert(self.bytes(d)[p] == old.bytes(d)[p]);
                    } else {
                        assert(self.bytes(t) == old.bytes(t));
                    }
                }
            }
        }
        assert(self.bytes(self.defrag())[self.journal_at()] == s as u8);
        assert(all_valid(self.layout()[self.defrag()]));
        assert forall|j: int|
            0 <= j < self.sector_count() && j != self.defrag() && j
                != s implies #[trigger] self.valid_size_at(j) <= self.limit(self.defrag()) by {
            assert(old.valid_size_at(j) <= old.limit(old.defrag()));
        }
    }

    /// A sector can be defragmented still once a block has been looked at.
    proof fn lemma_look_defragmentable(&self, old: &FileSystem, x: int, s: int, journal: u8)
        requires
            self.look_step(old, x),
            old.defragmentable(s, journal),
        ensures
            self.defragmentable(s, journal),
    {
        self.lemma_look(old, x);
        old.lemma_structure();
        self.lemma_structure();
        assert(self.bytes(self.defrag()) == old.bytes(old.defrag()));
        assert(all_valid(self.layout()[self.defrag()]));
        assert forall|j: int|
            0 <= j < self.sector_count() && j != self.defrag() && j
                != s implies #[trigger] self.valid_size_at(j) <= self.limit(self.defrag()) by {
            assert(old.valid_size_at(j) <= old.limit(old.defrag()));
        }
    }

    /// What has been defragmented from a filesystem in which a block had
    /// been looked at has been from the filesystem before.
    proof fn lemma_defragmented_from(&self, f0: &FileSystem, old: &FileSystem, x: int, s: int)
        requires
            f0.look_step(old, x),
            self.defragmented(*f0, s),
            self.same_sectors(*f0),
        ensures
            self.defragmented(*old, s),
    {
        f0.lemma_look(old, x);
        old.lemma_structure();
        assert forall|j: int|
            0 <= j < self.sector_count() && j != self.defrag() && j != s implies #[trigger] self.bytes(
            j,
        ) == old.bytes(j) && self.next_block_at(j) == old.next_block_at(j) && self.valid_size_at(j)
            == old.valid_size_at(j) && self.layout()[j] == old.layout()[j] by {
            assert(f0.bytes(j) == old.bytes(j));
        }
    }
}

/// A byte of a block is the same in two sectors that hold the blocks of the
/// same entries.
pub proof fn lemma_covered(a: Seq<u8>, b: Seq<u8>, entries: Seq<Entry>, p: int)
    requires
        holds_blocks(a, entries),
        holds_blocks(b, entries),
        0 <= p < total_sum(entries),
    ensures
        a[p] == b[p],
    decreases entries.len(),
{
    let n = entries.len() as int;
    if n > 0 {
        lemma_holds(a, entries, n - 1);
        lemma_holds(b, entries, n - 1);
        let e = entries[n - 1];
        assert(entries.take(n) == entries);
        lemma_total_take(entries, n - 1);
        if p >= e.start {
            assert(a[p] == a.subrange(e.start, e.start + e.size)[p - e.start]);
            assert(b[p] == b.subrange(e.start, e.start + e.size)[p - e.start]);
        } else {
            lemma_holds_front(a, entries);
            lemma_holds_front(b, entries);
            lemma_covered(a, b, entries.drop_last(), p);
        }
    }
}

/// A sector that holds the blocks of its entries holds those of all but the
/// last.
pub proof fn lemma_holds_front(bytes: Seq<u8>, entries: Seq<Entry>)
    requires
        holds_blocks(bytes, entries),
        entries.len() > 0,
    ensures
        holds_blocks(bytes, entries.drop_last()),
        total_sum(entries.drop_last()) == entries.last().start,
{
    reveal(tiled);
    reveal(holds_blocks);
    let l = entries.drop_last();
    assert forall|k: int| 0 <= k < l.len() implies (#[trigger] l[k]).start == total_sum(
        l.take(k),
    ) by {
        assert(l.take(k) == entries.take(k));
        assert(entries[k].start == total_sum(entries.take(k)));
    }
    assert(entries.take(entries.len() - 1) == l);
}

impl<'a> FileSystem<'a> {
    /// The filesystem has the sectors that it was made with.
    pub open spec fn made_of(&self, sectors: Seq<Sector>, defrag: int, applet: int) -> bool {
        &&& self.sector_count() == sectors.len()
        &&& self.defrag() == defrag
        &&& self.applet() == applet
        &&& forall|i: int| 0 <= i < sectors.len() ==> #[trigger] self.sector_at(i) == sectors[i]
    }

    /// Whether the sector `s` is one on which files are put, and the block
    /// of the file `tag`, of `size` bytes, can go on it once it has been
    /// defragmented.
    pub open spec fn takes_compacted(&self, s: int, size: int, tag: Seq<u8>) -> bool {
        &&& s != self.defrag()
        &&& s != self.applet()
        &&& self.valid_size_at(s) + size <= self.sector_at(s).length()
        &&& self.valid_size_at(s) + size - self.credit(s, tag) <= self.sector_at(
            self.defrag(),
        ).length() - 1
    }

    /// Whether the sector `s` is one on which files are put and that holds
    /// blocks that are no longer valid.
    pub open spec fn fragmented(&self, s: int) -> bool {
        s != self.defrag() && s != self.applet() && self.next_block_at(s) != self.valid_size_at(s)
    }

    /// The size of the block of a file is that of a block for its tag and
    /// its data, and the file is not on the sector reserved for
    /// defragmenting while no defragmentation is going on.
    pub proof fn lemma_size_of(&self, tag: Seq<u8>)
        requires
            self.wf(),
            self.consistent(),
            self@.dom().contains(tag),
        ensures
            self.size_of(tag) == block_size(tag.len() as int, self@[tag].len() as int),
            encodable(tag.len() as int, self@[tag].len() as int),
            self.idle() ==> self.sector_of(tag) != self.defrag(),
    {
        self.lemma_slot(tag);
        let s = self.sector_of(tag);
        let k = self.slot_of(tag);
        self.lemma_entry(s, k);
        self.lemma_sector(s);
        lemma_holds(self.bytes(s), self.layout@[s], k);
        if self.idle() {
            reveal(FileSystem::idle);
        }
    }

    /// Picks the sector to defragment next: of the fragmented sectors that
    /// have not been defragmented yet, the one in which the place of the
    /// next block is least above the valid size, those with no valid block
    /// last.
    fn pick(&self, done: &Vec<bool>) -> (r: Option<usize>)
        requires
            self.wf(),
            done@.len() == self.sector_count(),
        ensures
            match r {
                Some(x) => {
                    &&& x < self.sector_count()
                    &&& !done@[x as int]
                    &&& self.fragmented(x as int)
                    &&& forall|j: int|
                        0 <= j < self.sector_count() && !done@[j] && self.fragmented(j)
                            ==> self.benefit(x as int) <= #[trigger] self.benefit(j) && (j < x
                            ==> self.benefit(x as int) < self.benefit(j))
                },
                None => forall|j: int|
                    0 <= j < self.sector_count() ==> done@[j] || !self.fragmented(j),
            },
    {
        proof {
            reveal(FileSystem::structure_ok);
        }
        let mut best: Option<usize> = None;
        let mut best_key: u64 = 0;
        let mut x: usize = 0;
        while x < self.sectors.len()
            invariant
                self.wf(),
                done@.len() == self.sectors@.len(),
                self.next_blocks@.len() == self.sectors@.len(),
                self.valid_sizes@.len() == self.sectors@.len(),
                x <= self.sectors@.len(),
                match best {
                    Some(b) => {
                        &&& b < x
                        &&& !done@[b as int]
                        &&& self.fragmented(b as int)
                        &&& best_key == self.benefit(b as int)
                        &&& forall|j: int|
                            0 <= j < x && !done@[j] && self.fragmented(j) ==> self.benefit(
                                b as int,
                            ) <= #[trigger] self.benefit(j) && (j < b ==> self.benefit(b as int)
                                < self.benefit(j))
                    },
                    None => forall|j: int| 0 <= j < x ==> done@[j] || !self.fragmented(j),
                },
            decreases self.sectors@.len() - x,
        {
            proof {
                self.lemma_sizes(x as int);
                self.lemma_structure();
            }
            if !done[x] && x != self.defragsector.0  // Don't defragment defrag sector
             && x != self.appletsector.0  // Nor applet sector
             && self.next_blocks[x] != self.valid_sizes[x] {
                let key: u64 = if self.valid_sizes[x] == 0 {
                    u64::MAX
                } else {
                    (32768 * (self.next_blocks[x] as u64)) / (self.valid_sizes[x] as u64)
                };
                if best.is_none() || key < best_key {
                    best = Some(x);
                    best_key = key;
                }
            }
            x += 1;
        }
        best
    }

    /// Entries whose blocks the sector reserved for defragmenting holds, if
    /// it holds the blocks of entries and erased bytes after them.
    pub open spec fn held(&self) -> Seq<Entry> {
        choose|l: Seq<Entry>| self.holds_any(l)
    }

    /// The sector reserved for defragmenting holds the blocks of the entries
    /// `l` and erased bytes after them up to its last byte.
    pub open spec fn holds_any(&self, l: Seq<Entry>) -> bool {
        &&& holds_blocks(self.bytes(self.defrag()), l)
        &&& total_sum(l) <= self.limit(self.defrag())
        &&& erased_from(self.bytes(self.defrag()), total_sum(l), self.limit(self.defrag()))
    }

    /// The sector reserved for defragmenting holds the blocks of the entries
    /// `l`, all of them valid, and erased bytes after them up to its last
    /// byte.
    pub open spec fn holds(&self, l: Seq<Entry>) -> bool {
        self.holds_any(l) && all_valid(l)
    }

    /// The filesystem is as the reading of the sectors leaves it when a
    /// defragmentation of the sector `s` was interrupted between two
    /// copies: the sector reserved for defragmenting names `s` and holds
    /// the blocks of the entries `l`, which are valid nowhere else and of
    /// which the filesystem knows nothing, and `s` holds the valid blocks
    /// that were not copied yet.
    pub open spec fn copying_out(&self, s: int, l: Seq<Entry>) -> bool {
        &&& self.wf()
        &&& self.blocks_ok()
        &&& 0 <= s < self.sector_count()
        &&& s < 0xFF
        &&& s != self.defrag()
        &&& self.journal() == s
        &&& self.layout()[self.defrag()] == Seq::<Entry>::empty()
        &&& forall|t: int|
            0 <= t < self.sector_count() && t != self.defrag() ==> #[trigger] self.tail_at(t)
        &&& self.holds(l)
        &&& l.len() > 0
        &&& self.valid_size_at(s) > 0
        &&& total_sum(l) + self.valid_size_at(s) <= self.limit(self.defrag())
        &&& total_sum(l) + self.valid_size_at(s) <= self.sector_at(s).length()
        &&& forall|i: int, j: int|
            0 <= i < j < l.len() ==> (#[trigger] l[i]).tag != (#[trigger] l[j]).tag
        &&& forall|i: int| 0 <= i < l.len() ==> !self@.dom().contains((#[trigger] l[i]).tag)
        &&& forall|t: int|
            0 <= t < self.sector_count() && t != self.defrag() && t != s
                ==> #[trigger] self.valid_size_at(t) <= self.limit(self.defrag())
    }

    /// The filesystem is `old` with the defragmentation of the sector `s`
    /// finished, of which the blocks of the entries `l` were copied
    /// already: no defragmentation is going on, the files are those of
    /// `old` and those of `l`, all that is valid of them is on `s` and
    /// nothing else, and the other sectors are as they were.
    pub open spec fn carried_out(&self, old: FileSystem, s: int, l: Seq<Entry>) -> bool {
        &&& self.inv()
        &&& self@ == adopted(old@, l, l.len() as int)
        &&& self.next_block_at(s) == total_sum(l) + old.valid_size_at(s)
        &&& self.valid_size_at(s) == self.next_block_at(s)
        &&& forall|t: int|
            0 <= t < self.sector_count() && t != self.defrag() && t != s ==> #[trigger] self.bytes(
                t,
            ) == old.bytes(t) && self.next_block_at(t) == old.next_block_at(t)
                && self.valid_size_at(t) == old.valid_size_at(t) && self.layout()[t]
                == old.layout()[t]
    }

    /// The filesystem is as the reading of the sectors leaves it when a
    /// defragmentation of the sector `s` was interrupted while the blocks
    /// were copied back, or before the sector reserved for defragmenting
    /// was erased: that sector names `s` and holds the blocks of the entries
    /// `l`, of which the first is no longer valid and the valid ones are
    /// valid nowhere else, and `s` holds the blocks that were copied back.
    pub open spec fn copying_back(&self, s: int, l: Seq<Entry>) -> bool {
        &&& self.wf()
        &&& self.blocks_ok()
        &&& 0 <= s < self.sector_count()
        &&& s < 0xFF
        &&& s != self.defrag()
        &&& self.journal() == s
        &&& self.layout()[self.defrag()] == Seq::<Entry>::empty()
        &&& forall|t: int|
            0 <= t < self.sector_count() && t != self.defrag() ==> #[trigger] self.tail_at(t)
        &&& self.holds_any(l)
        &&& l.len() > 0
        &&& l[0].validity == VALIDITY_NOLONGER
        &&& self.next_block_at(s) + counted_sum(l) <= self.sector_at(s).length()
        &&& self.valid_size_at(s) + counted_sum(l) <= self.limit(self.defrag())
        &&& forall|i: int, j: int|
            0 <= i < j < l.len() && (#[trigger] l[i]).validity == VALIDITY_VALID && (
            #[trigger] l[j]).validity == VALIDITY_VALID ==> l[i].tag != l[j].tag
        &&& forall|i: int|
            0 <= i < l.len() && (#[trigger] l[i]).validity == VALIDITY_VALID
                ==> !self@.dom().contains(l[i].tag) && l[i].tag.len() < TAG_LIMIT
        &&& forall|t: int|
            0 <= t < self.sector_count() && t != self.defrag() && t != s
                ==> #[trigger] self.valid_size_at(t) <= self.limit(self.defrag())
    }

    /// The filesystem is `old` with the defragmentation of the sector `s`
    /// finished, of which the valid blocks of the entries `l` were still to
    /// be copied back: no defragmentation is going on, the files are those
    /// of `old` and those of `l`, which follow on `s` what was there, and
    /// the other sectors are as they were.
    pub open spec fn brought_back(&self, old: FileSystem, s: int, l: Seq<Entry>) -> bool {
        &&& self.inv()
        &&& self@ == adopted(old@, l, l.len() as int)
        &&& self.next_block_at(s) == old.next_block_at(s) + counted_sum(l)
        &&& self.valid_size_at(s) == old.valid_size_at(s) + counted_sum(l)
        &&& forall|t: int|
            0 <= t < self.sector_count() && t != self.defrag() && t != s ==> #[trigger] self.bytes(
                t,
            ) == old.bytes(t) && self.next_block_at(t) == old.next_block_at(t)
                && self.valid_size_at(t) == old.valid_size_at(t) && self.layout()[t]
                == old.layout()[t]
    }

    /// The filesystem is as the reading of the sectors leaves it when a
    /// defragmentation of the sector `s` was interrupted once the valid
    /// blocks of `s` were copied: the sector reserved for defragmenting
    /// names `s` and holds the blocks of the entries `l`, of which the
    /// filesystem knows nothing, and `s` holds no valid block, or has been
    /// erased already.
    pub open spec fn copied(&self, s: int, l: Seq<Entry>) -> bool {
        &&& self.wf()
        &&& self.blocks_ok()
        &&& 0 <= s < self.sector_count()
        &&& s < 0xFF
        &&& s != self.defrag()
        &&& self.journal() == s
        &&& self.layout()[self.defrag()] == Seq::<Entry>::empty()
        &&& none_valid(self.layout()[s])
        &&& forall|t: int|
            0 <= t < self.sector_count() && t != self.defrag() ==> #[trigger] self.tail_at(t)
        &&& self.holds(l)
        &&& total_sum(l) <= self.sector_at(s).length()
        &&& forall|i: int, j: int|
            0 <= i < j < l.len() ==> (#[trigger] l[i]).tag != (#[trigger] l[j]).tag
        &&& forall|i: int|
            0 <= i < l.len() ==> !self@.dom().contains((#[trigger] l[i]).tag) && l[i].tag.len()
                < TAG_LIMIT
        &&& forall|t: int|
            0 <= t < self.sector_count() && t != self.defrag() && t != s
                ==> #[trigger] self.valid_size_at(t) <= self.limit(self.defrag())
    }

    /// The filesystem is `old` with the defragmentation of the sector `s`
    /// finished, of which the copies were the blocks of the entries `l`:
    /// no defragmentation is going on, the files are those of `old` and
    /// those of `l`, which are on `s`, and the other sectors are as they
    /// were.
    pub open spec fn restored(&self, old: FileSystem, s: int, l: Seq<Entry>) -> bool {
        &&& self.inv()
        &&& self@ == adopted(old@, l, l.len() as int)
        &&& self.next_block_at(s) == total_sum(l)
        &&& self.valid_size_at(s) == total_sum(l)
        &&& forall|t: int|
            0 <= t < self.sector_count() && t != self.defrag() && t != s ==> #[trigger] self.bytes(
                t,
            ) == old.bytes(t) && self.next_block_at(t) == old.next_block_at(t)
                && self.valid_size_at(t) == old.valid_size_at(t) && self.layout()[t]
                == old.layout()[t]
    }

    /// The sector `s` is erased from the place of its next block on.
    pub open spec fn tail_at(&self, s: int) -> bool {
        erased_from(self.bytes(s), self.next_block_at(s), self.limit(s))
    }

    /// The last byte of the sector reserved for defragmenting, which names
    /// the sector that is being defragmented, and is erased when none is.
    pub open spec fn journal(&self) -> u8 {
        self.bytes(self.defrag())[self.journal_at()]
    }

    /// The filesystem has the files of `old`, and its sectors hold what
    /// those of `old` hold, as far as the filesystem has read them.
    pub open spec fn kept(&self, old: FileSystem) -> bool {
        &&& self@ == old@
        &&& self.same_sectors(old)
        &&& forall|j: int|
            0 <= j < self.sector_count() ==> #[trigger] self.bytes(j) == old.bytes(j)
                && self.next_block_at(j) == old.next_block_at(j) && self.valid_size_at(j)
                == old.valid_size_at(j) && self.layout()[j] == old.layout()[j]
    }

    /// The block of the file `tag`, of `size` bytes, went on the first sector
    /// of `old` that takes it as it is: that sector holds `size` bytes more
    /// than it did, and the others what they did.
    pub open spec fn placed(&self, old: FileSystem, tag: Seq<u8>, size: int) -> bool {
        let s = self.sector_of(tag);
        &&& 0 <= s < old.sector_count()
        &&& old.takes(s, size, tag)
        &&& forall|j: int| 0 <= j < s ==> !old.takes(j, size, tag)
        &&& forall|j: int|
            0 <= j < self.sector_count() ==> #[trigger] self.next_block_at(j) == old.next_block_at(
                j,
            ) + if j == s {
                size
            } else {
                0
            }
    }

    /// By what the sectors are ordered when room is made: what the sector
    /// `s` holds to what is valid of it, in 32768ths, and the most where
    /// nothing is valid. The sector of the least is defragmented first, and
    /// of two of the same the first.
    pub open spec fn benefit(&self, s: int) -> int {
        if self.valid_size_at(s) == 0 {
            u64::MAX as int
        } else {
            (32768 * self.next_block_at(s)) / self.valid_size_at(s)
        }
    }

    /// The filesystem is what `old` was before sectors were defragmented to
    /// make room: those of `done`.
    spec fn compacted(&self, old: &FileSystem, done: Seq<bool>) -> bool {
        &&& self.inv()
        &&& old.inv()
        &&& self@ == old@
        &&& self.same_sectors(*old)
        &&& done.len() == self.sector_count()
        &&& forall|j: int|
            0 <= j < self.sector_count() ==> #[trigger] self.valid_size_at(j) == old.valid_size_at(
                j,
            )
        &&& forall|j: int|
            0 <= j < self.sector_count() ==> #[trigger] self.next_block_at(j) <= old.next_block_at(
                j,
            )
        &&& forall|j: int|
            0 <= j < self.sector_count() && #[trigger] done[j] ==> self.next_block_at(j)
                == self.valid_size_at(j)
        &&& forall|t: Seq<u8>| #[trigger]
            old@.dom().contains(t) ==> self.sector_of(t) == old.sector_of(t)
    }

    /// What was compacted is, once one more sector has been defragmented.
    proof fn lemma_compacted(&self, before: &FileSystem, old: &FileSystem, done: Seq<bool>, x: int)
        requires
            before.compacted(old, done),
            0 <= x < before.sector_count(),
            x != before.defrag(),
            self.wf(),
            self.same_sectors(*before),
            self.defragmented(*before, x),
        ensures
            self.compacted(old, done.update(x, true)),
    {
        before.lemma_idle();
        before.lemma_structure();
        before.lemma_sizes(x);
        assert(self.same_sectors(*old)) by {
            assert forall|i: int| 0 <= i < self.sector_count() implies self.sector_at(i)
                == old.sector_at(i) by {
                assert(self.sector_at(i) == before.sector_at(i));
            }
        }
        self.lemma_idle();
        assert forall|j: int| 0 <= j < self.sector_count() implies #[trigger] self.valid_size_at(j)
            == old.valid_size_at(j) by {
            assert(before.valid_size_at(j) == old.valid_size_at(j));
            if j != x && j != self.defrag() {
                assert(self.bytes(j) == before.bytes(j));
            }
        }
        assert forall|j: int| 0 <= j < self.sector_count() implies #[trigger] self.next_block_at(j)
            <= old.next_block_at(j) by {
            assert(before.next_block_at(j) <= old.next_block_at(j));
            assert(before.valid_size_at(j) == old.valid_size_at(j));
            before.lemma_sizes(j);
            if j != x && j != self.defrag() {
                assert(self.bytes(j) == before.bytes(j));
            }
        }
        assert forall|j: int|
            0 <= j < self.sector_count() && #[trigger] done.update(x, true)[j] implies self.next_block_at(
            j,
        ) == self.valid_size_at(j) by {
            if j != x {
                assert(done[j]);
                if j != self.defrag() {
                    assert(self.bytes(j) == before.bytes(j));
                }
            }
        }
        assert forall|t: Seq<u8>| #[trigger] old@.dom().contains(t) implies self.sector_of(t)
            == old.sector_of(t) by {
            assert(before@.dom().contains(t));
            before.lemma_size_of(t);
        }
    }

    /// No sector takes a block even once it has been defragmented, if none
    /// takes it in a filesystem in which every fragmented sector has been.
    proof fn lemma_no_room(&self, old: &FileSystem, done: Seq<bool>, size: int, tag: Seq<u8>)
        requires
            self.compacted(old, done),
            forall|j: int| 0 <= j < self.sector_count() ==> !self.takes(j, size, tag),
            forall|j: int| 0 <= j < self.sector_count() ==> done[j] || !self.fragmented(j),
        ensures
            forall|j: int| 0 <= j < old.sector_count() ==> !old.takes_compacted(j, size, tag),
    {
        self.lemma_structure();
        old.lemma_structure();
        assert(self.sector_at(self.defrag()) == old.sector_at(old.defrag()));
        assert forall|j: int| 0 <= j < old.sector_count() implies !old.takes_compacted(
            j,
            size,
            tag,
        ) by {
            assert(self.sector_at(j) == old.sector_at(j));
            self.lemma_sizes(j);
            assert(self.valid_size_at(j) == old.valid_size_at(j));
            self.lemma_credit(old, j, tag);
            if j != self.defrag() && j != self.applet() {
                if done[j] {
                    assert(self.next_block_at(j) == self.valid_size_at(j));
                }
                assert(!self.takes(j, size, tag));
            }
        }
    }

    /// What a sector gets back for a file is what it got in a filesystem
    /// with the same files on the same sectors.
    proof fn lemma_credit(&self, old: &FileSystem, j: int, tag: Seq<u8>)
        requires
            self.wf(),
            self.consistent(),
            old.wf(),
            old.consistent(),
            self@ == old@,
            forall|t: Seq<u8>| #[trigger]
                old@.dom().contains(t) ==> self.sector_of(t) == old.sector_of(t),
        ensures
            self.credit(j, tag) == old.credit(j, tag),
    {
        if old@.dom().contains(tag) {
            self.lemma_size_of(tag);
            old.lemma_size_of(tag);
        }
    }

    /// A sector that takes a block takes it once defragmented too.
    proof fn lemma_takes(&self, old: &FileSystem, done: Seq<bool>, j: int, size: int, tag: Seq<u8>)
        requires
            self.compacted(old, done),
            0 <= j < self.sector_count(),
            self.takes(j, size, tag),
        ensures
            old.takes_compacted(j, size, tag),
            self.room(j, size, self.credit(j, tag)),
    {
        self.lemma_structure();
        old.lemma_structure();
        assert(self.sector_at(self.defrag()) == old.sector_at(old.defrag()));
        assert(self.sector_at(j) == old.sector_at(j));
        assert(self.valid_size_at(j) == old.valid_size_at(j));
        self.lemma_credit(old, j, tag);
        self.lemma_sizes(j);
    }

    /// No defragmentation is going on after a file has been written on a
    /// sector that had room for it.
    proof fn lemma_written_idle(&self, old: &FileSystem, tag: Seq<u8>, data: Seq<u8>, s: int)
        requires
            old.inv(),
            self.wf(),
            self.consistent(),
            self.same_sectors(*old),
            0 <= s < old.sector_count(),
            s != old.defrag(),
            self.written(*old, tag, data, s),
            old.room(s, block_size(tag.len() as int, data.len() as int), old.credit(s, tag)),
        ensures
            self.inv(),
    {
        reveal(FileSystem::idle);
        old.lemma_structure();
        self.lemma_structure();
        let d = old.defrag();
        old.lemma_sizes(d);
        old.lemma_sector(d);
        self.lemma_sector(d);
        assert(self.next_block_at(d) == old.next_block_at(d));
        assert(self.bytes(d)[self.journal_at()] == old.bytes(d)[self.journal_at()]);
        assert forall|t: int| 0 <= t < self.sectors@.len() && t != d implies (
        #[trigger] self.valid_sizes@[t]) <= self.sectors@[d].length() - 1 by {
            assert(old.valid_sizes@[t] <= old.sectors@[d].length() - 1);
            assert(self.valid_size_at(t) == old.valid_size_at(t) - old.credit(t, tag) + if t == s {
                block_size(tag.len() as int, data.len() as int)
            } else {
                0
            });
            if old@.dom().contains(tag) {
                old.lemma_slot(tag);
            }
        }
    }

    /// Write a tag-data association to the file system
    ///
    /// Automatically finds a sector with enough free space for holding the
    /// block, and defragments sectors to make room if there is none.
    ///
    /// # Errors
    ///
    /// Errors if the tag has an invalid length, in which case nothing is
    /// done, or if not enough space can be gathered
    pub fn write(&mut self, tag: &[u8], data: &[u8]) -> (r: Result<(), Error>)
        requires
            old(self).wf(),
        ensures
            final(self).wf(),
            final(self).same_sectors(*old(self)),
            !(1 <= tag@.len() < TAG_LIMIT) ==> r == Err::<(), Error>(Error::InvalidLengthForTag)
                && *final(self) == *old(self),
            old(self).inv() && 1 <= tag@.len() < TAG_LIMIT ==> final(self).inv() && match r {
                Ok(()) => {
                    &&& final(self)@ == old(self)@.insert(tag@, data@)
                    &&& old(self).takes_compacted(
                        final(self).sector_of(tag@),
                        block_size(tag@.len() as int, data@.len() as int),
                        tag@,
                    )
                    &&& forall|j: int|
                        0 <= j < final(self).sector_count() ==> #[trigger] final(self).valid_size_at(j) == old(self).valid_size_at(j) - old(self).credit(
                            j,
                            tag@,
                        ) + if j == final(self).sector_of(tag@) {
                            block_size(tag@.len() as int, data@.len() as int)
                        } else {
                            0
                        }
                    &&& (exists|s: int|
                        0 <= s < old(self).sector_count() && old(self).takes(
                            s,
                            block_size(tag@.len() as int, data@.len() as int),
                            tag@,
                        )) ==> forall|j: int|
                        0 <= j < final(self).sector_count() ==> #[trigger] final(self).next_block_at(j) >= old(self).next_block_at(j)
                    &&& (exists|s: int|
                        0 <= s < old(self).sector_count() && old(self).takes(
                            s,
                            block_size(tag@.len() as int, data@.len() as int),
                            tag@,
                        )) ==> final(self).placed(
                        *old(self),
                        tag@,
                        block_size(tag@.len() as int, data@.len() as int),
                    )
                },
                Err(e) => {
                    &&& e == Error::OutOfFlash
                    &&& final(self)@ == old(self)@
                    &&& forall|j: int|
                        0 <= j < old(self).sector_count() ==> !old(self).takes_compacted(
                            j,
                            block_size(tag@.len() as int, data@.len() as int),
                            tag@,
                        )
                },
            },
    {
        if tag.len() == 0 || tag.len() >= TAG_LIMIT {
            return Err(Error::InvalidLengthForTag);
        }
        let ghost good = old(self).inv();
        let ghost bs = block_size(tag@.len() as int, data@.len() as int);
        proof {
            old(self).lemma_structure();
        }
        if data.len() >= SECTOR_LIMIT {
            proof {
                assert forall|j: int| 0 <= j < old(self).sector_count() implies !old(
                    self,
                ).takes_compacted(j, bs, tag@) by {
                    old(self).lemma_sizes(j);
                }
            }
            return Err(Error::OutOfFlash);
        }
        let size = block_len(tag.len(), data.len());
        // Find sector on which to put the block
        let mut sector_id = self.available_sector(size, tag);
        let ghost direct = sector_id is Ok;
        let ghost first = sector_id;
        let n = self.sectors.len();
        let mut done: Vec<bool> = Vec::new();
        while done.len() < n
            invariant
                done@.len() <= n,
                forall|j: int| 0 <= j < done@.len() ==> !done@[j],
            decreases n - done@.len(),
        {
            done.push(false);
        }
        let mut searching = sector_id.is_err();
        proof {
            if good {
                assert(self.compacted(old(self), done@));
            }
        }
        // If none is available yet, defragment what we need to before continuing
        while searching
            invariant
                self.wf(),
                self.same_sectors(*old(self)),
                n == self.sectors@.len(),
                done@.len() == n,
                size == bs,
                bs == block_size(tag@.len() as int, data@.len() as int),
                1 <= tag@.len() < TAG_LIMIT,
                good == old(self).inv(),
                good ==> self.compacted(old(self), done@),
                direct ==> sector_id == first && *self == *old(self),
                direct == first is Ok,
                first matches Ok(id) ==> forall|j: int|
                    0 <= j < id.0 ==> !old(self).takes(j, bs, tag@),
                first is Err ==> forall|j: int| 0 <= j < n ==> !old(self).takes(j, bs, tag@),
                searching ==> sector_id is Err,
                match sector_id {
                    Ok(id) => id.0 < n && self.takes(id.0 as int, bs, tag@),
                    Err(e) => e == Error::OutOfFlash && forall|j: int|
                        0 <= j < n ==> !self.takes(j, bs, tag@),
                },
                good && !searching && sector_id is Err ==> forall|j: int|
                    0 <= j < n ==> done@[j] || !self.fragmented(j),
            decreases
                    pending(done@) + (if searching {
                        1int
                    } else {
                        0int
                    }),
        {
            match self.pick(&done) {
                None => {
                    searching = false;
                },
                Some(x) => {
                    let ghost before = *self;
                    let ghost done_before = done@;
                    done[x] = true;
                    proof {
                        lemma_pending(done_before, x as int);
                        if good {
                            before.lemma_idle();
                        }
                    }
                    match self.defragment(SectorID(x)) {
                        Ok(()) => {},
                        Err(e) => {
                            return Err(e);
                        },
                    }
                    proof {
                        if good {
                            self.lemma_compacted(&before, old(self), done_before, x as int);
                        }
                    }
                    sector_id = self.available_sector(size, tag);
                    if sector_id.is_ok() {
                        searching = false;
                    }
                },
            }
        }
        // And put it in
        let id = match sector_id {
            Ok(id) => id,
            Err(e) => {
                proof {
                    if good {
                        self.lemma_no_room(old(self), done@, bs, tag@);
                    }
                }
                return Err(e);
            },
        };
        let ghost before = *self;
        proof {
            if good {
                self.lemma_takes(old(self), done@, id.0 as int, bs, tag@);
                self.lemma_sizes(id.0 as int);
            }
        }
        match self.write_impl(tag, data, id) {
            Ok(()) => {},
            Err(e) => {
                return Err(e);
            },
        }
        proof {
            if good {
                self.lemma_written_idle(&before, tag@, data@, id.0 as int);
                self.lemma_write_sizes(&before, old(self), done@, tag@, data@, id.0 as int);
            }
        }
        Ok(())
    }

    /// The valid sizes after a write are those before sectors were
    /// defragmented to make room, but for the blocks of the file written.
    proof fn lemma_write_sizes(
        &self,
        before: &FileSystem,
        old: &FileSystem,
        done: Seq<bool>,
        tag: Seq<u8>,
        data: Seq<u8>,
        s: int,
    )
        requires
            before.compacted(old, done),
            self.wf(),
            self.same_sectors(*before),
            0 <= s < before.sector_count(),
            self.written(*before, tag, data, s),
        ensures
            self.same_sectors(*old),
            self@.dom() == old@.dom().insert(tag),
            forall|j: int|
                0 <= j < self.sector_count() ==> #[trigger] self.valid_size_at(j)
                    == old.valid_size_at(j) - old.credit(j, tag) + if j == self.sector_of(tag) {
                    block_size(tag.len() as int, data.len() as int)
                } else {
                    0
                },
            *before == *old ==> forall|j: int|
                0 <= j < self.sector_count() ==> #[trigger] self.next_block_at(j)
                    >= old.next_block_at(j),
            *before == *old ==> self.sector_of(tag) == s && forall|j: int|
                0 <= j < self.sector_count() ==> #[trigger] self.next_block_at(j)
                    == old.next_block_at(j) + if j == s {
                    block_size(tag.len() as int, data.len() as int)
                } else {
                    0
                },
    {
        assert(self.same_sectors(*old)) by {
            assert forall|i: int| 0 <= i < self.sector_count() implies self.sector_at(i)
                == old.sector_at(i) by {
                assert(self.sector_at(i) == before.sector_at(i));
            }
        }
        assert forall|j: int| 0 <= j < self.sector_count() implies #[trigger] self.valid_size_at(j)
            == old.valid_size_at(j) - old.credit(j, tag) + if j == self.sector_of(tag) {
            block_size(tag.len() as int, data.len() as int)
        } else {
            0
        } by {
            assert(before.valid_size_at(j) == old.valid_size_at(j));
            before.lemma_credit(old, j, tag);
        }
        if *before == *old {
            assert forall|j: int| 0 <= j < self.sector_count() implies #[trigger] self.next_block_at(
                j,
            ) >= old.next_block_at(j) by {
                assert(self.next_block_at(j) == before.next_block_at(j) + if j == s {
                    block_size(tag.len() as int, data.len() as int)
                } else {
                    0
                });
            }
        }
    }

    /// Whether the block of the file `tag`, of `size` bytes, can go on the
    /// sector `s` once it has been defragmented.
    pub open spec fn room_compacted(&self, s: int, size: int, tag: Seq<u8>) -> bool {
        &&& self.valid_size_at(s) + size <= self.sector_at(s).length()
        &&& self.valid_size_at(s) + size - self.credit(s, tag) <= self.sector_at(
            self.defrag(),
        ).length() - 1
    }

    /// What a sector has room for once it has been defragmented is what it
    /// had room for if it had been.
    proof fn lemma_room_compacted(&self, old: &FileSystem, s: int, size: int, tag: Seq<u8>)
        requires
            old.inv(),
            0 <= s < old.sector_count(),
            s != old.defrag(),
            self.wf(),
            self.same_sectors(*old),
            self.defragmented(*old, s),
        ensures
            self.room(s, size, self.credit(s, tag)) == old.room_compacted(s, size, tag),
            old.room(s, size, old.credit(s, tag)) ==> old.room_compacted(s, size, tag),
    {
        old.lemma_idle();
        old.lemma_structure();
        self.lemma_structure();
        old.lemma_sizes(s);
        assert(self.sector_at(self.defrag()) == old.sector_at(old.defrag()));
        assert(self.sector_at(s) == old.sector_at(s));
        assert forall|t: Seq<u8>| #[trigger] old@.dom().contains(t) implies self.sector_of(t)
            == old.sector_of(t) by {
            old.lemma_size_of(t);
        }
        self.lemma_credit(old, s, tag);
    }

    /// Writes a tag-data association to the applet sector, which is
    /// defragmented first if it has no room for it as it is.
    ///
    /// # Errors
    ///
    /// Errors if the tag has an invalid length, in which case nothing is
    /// done, or if the applet sector has no room
    pub fn write_applet(&mut self, tag: &[u8], data: &[u8]) -> (r: Result<(), Error>)
        requires
            old(self).wf(),
        ensures
            final(self).wf(),
            final(self).same_sectors(*old(self)),
            !(1 <= tag@.len() < TAG_LIMIT) ==> r == Err::<(), Error>(Error::InvalidLengthForTag)
                && *final(self) == *old(self),
            old(self).inv() && 1 <= tag@.len() < TAG_LIMIT && old(self).applet() != old(
                self,
            ).defrag() ==> final(self).inv() && match r {
                Ok(()) => {
                    &&& final(self)@ == old(self)@.insert(tag@, data@)
                    &&& final(self).sector_of(tag@) == old(self).applet()
                    &&& old(self).room_compacted(
                        old(self).applet(),
                        block_size(tag@.len() as int, data@.len() as int),
                        tag@,
                    )
                },
                Err(e) => {
                    &&& e == Error::OutOfFlash
                    &&& final(self)@ == old(self)@
                    &&& !old(self).room_compacted(
                        old(self).applet(),
                        block_size(tag@.len() as int, data@.len() as int),
                        tag@,
                    )
                },
            },
    {
        if tag.len() == 0 || tag.len() >= TAG_LIMIT {
            return Err(Error::InvalidLengthForTag);
        }
        let ghost good = old(self).inv() && old(self).applet() != old(self).defrag();
        let ghost bs = block_size(tag@.len() as int, data@.len() as int);
        let appletsector = self.appletsector;
        let ghost a = appletsector.0 as int;
        proof {
            old(self).lemma_structure();
            old(self).lemma_sizes(a);
        }
        if data.len() >= SECTOR_LIMIT {
            return Err(Error::OutOfFlash);
        }
        let size = block_len(tag.len(), data.len());
        if self.is_available(appletsector, size, tag) {
            let r = self.write_impl(tag, data, appletsector);
            proof {
                if good {
                    self.lemma_written_idle(old(self), tag@, data@, a);
                }
            }
            r
        } else {
            proof {
                if good {
                    old(self).lemma_idle();
                }
            }
            match self.defragment(appletsector) {
                Ok(()) => {},
                Err(e) => {
                    return Err(e);
                },
            }
            let ghost before = *self;
            proof {
                if good {
                    self.lemma_room_compacted(old(self), a, bs, tag@);
                    self.lemma_sizes(a);
                }
            }
            if self.is_available(appletsector, size, tag) {
                let r = self.write_impl(tag, data, appletsector);
                proof {
                    if good {
                        self.lemma_written_idle(&before, tag@, data@, a);
                    }
                }
                r
            } else {
                Err(Error::OutOfFlash)
            }
        }
    }

    /// The sector on which a file was written when there was no room for it
    /// where it was can be defragmented.
    proof fn lemma_edit_fallback(&self, old: &FileSystem, tag: Seq<u8>, data: Seq<u8>)
        requires
            old.inv(),
            old@.dom().contains(tag),
            data.len() == old@[tag].len(),
            self.wf(),
            self.consistent(),
            self.same_sectors(*old),
            self.written(*old, tag, data, old.defrag()),
        ensures
            self.defragmentable(old.sector_of(tag), 0xFF),
            self.next_block_at(self.defrag()) + self.valid_size_at(old.sector_of(tag))
                == old.valid_size_at(old.sector_of(tag)),
    {
        reveal(FileSystem::idle);
        let d = old.defrag();
        let s = old.sector_of(tag);
        old.lemma_idle();
        old.lemma_structure();
        self.lemma_structure();
        old.lemma_size_of(tag);
        old.lemma_slot(tag);
        old.lemma_sizes(s);
        old.lemma_sizes(d);
        old.lemma_sector(d);
        self.lemma_sector(d);
        let size = block_size(tag.len() as int, data.len() as int);
        assert(self.sector_at(d) == old.sector_at(d));
        assert(self.sector_at(s) == old.sector_at(s));
        assert(self.next_block_at(d) == old.next_block_at(d) + size);
        assert(self.valid_size_at(s) == old.valid_size_at(s) - old.credit(s, tag));
        assert(self.bytes(d)[self.journal_at()] == old.bytes(d)[self.journal_at()]);
        let so = old.sector_of(tag);
        let ko = old.slot_of(tag);
        let base = old.layout().update(so, old.layout()[so].update(ko, retired(old.layout()[so][ko])));
        assert(base[d] == old.layout()[d]);
        assert(all_valid(self.layout()[d])) by {
            assert forall|k: int| 0 <= k < self.layout()[d].len() implies (
            #[trigger] self.layout()[d][k]).validity == VALIDITY_VALID by {}
        }
        assert forall|j: int|
            0 <= j < self.sector_count() && j != self.defrag() && j
                != s implies #[trigger] self.valid_size_at(j) <= self.limit(self.defrag()) by {
            assert(old.valid_sizes@[j] <= old.sectors@[d].length() - 1);
            assert(self.valid_size_at(j) == old.valid_size_at(j) - old.credit(j, tag));
        }
    }

    /// Replaces the bytes at some offset of the file. Note that if
    /// `offset + data.len()` is above the size of the file, the result will
    /// not be extended past the length it has, without raising any error.
    ///
    /// The file is written anew on its sector if there is room for it, else
    /// on the sector reserved for defragmenting, after which its sector is
    /// defragmented.
    ///
    /// # Errors
    ///
    /// Errors if the tag does not exist in the filesystem
    pub fn edit_at(&mut self, tag: &[u8], offset: usize, data: &[u8]) -> (r: Result<(), Error>)
        requires
            old(self).wf(),
        ensures
            final(self).wf(),
            final(self).same_sectors(*old(self)),
            !old(self)@.dom().contains(tag@) ==> r == Err::<(), Error>(Error::NoSuchTag)
                && *final(self) == *old(self),
            old(self).inv() && old(self)@.dom().contains(tag@) ==> r is Ok && final(self).inv()
                && final(self)@ == old(self)@.insert(
                tag@,
                spliced(old(self)@[tag@], offset as int, data@),
            ) && final(self).sector_of(tag@) == old(self).sector_of(tag@),
    {
        proof {
            reveal(FileSystem::files_ok);
            assert(tag.words() =~= key_words(tag@));
            old(self).lemma_view();
            old(self).lemma_structure();
        }
        let ghost good = old(self).inv();
        let (current_sector, content) = match self.files.get(tag) {
            None => {
                return Err(Error::NoSuchTag);
            },
            Some(f) => {
                proof {
                    old(self).lemma_file(*f);
                    lemma_key_words(f.key@, tag@);
                    f.data.lemma_range();
                }
                let current = f.data.as_slice(&self.flash);
                let mut content: Vec<u8> = Vec::new();
                let mut i: usize = 0;
                while i < current.len()
                    invariant
                        i <= current@.len(),
                        content@.len() == i,
                        forall|j: int|
                            0 <= j < i ==> content@[j] == spliced(current@, offset as int, data@)[j],
                    decreases current@.len() - i,
                {
                    let b = if i >= offset && i - offset < data.len() {
                        data[i - offset]
                    } else {
                        current[i]
                    };
                    content.push(b);
                    i += 1;
                }
                proof {
                    assert(content@ =~= spliced(current@, offset as int, data@));
                }
                (f.sector, content)
            },
        };
        let ghost s = current_sector.0 as int;
        let ghost wanted = spliced(old(self)@[tag@], offset as int, data@);
        proof {
            assert(s == old(self).sector_of(tag@));
            old(self).lemma_sizes(s);
            old(self).lemma_slot(tag@);
            old(self).sector_at(s).lemma_range();
            reveal(FileSystem::structure_ok);
            if good {
                old(self).lemma_size_of(tag@);
                old(self).lemma_idle();
                old(self).lemma_defragmentable(s);
                old(self).lemma_sizes(old(self).defrag());
            }
        }
        if tag.len() >= SECTOR_LIMIT || content.len() >= SECTOR_LIMIT {
            return Err(Error::InvalidLengthForTag);
        }
        let size = block_len(tag.len(), content.len());
        if self.has_room(current_sector, size, 0) {
            match self.write_impl(tag, content.as_slice(), current_sector) {
                Ok(()) => {},
                Err(e) => {
                    return Err(e);
                },
            }
            proof {
                if good {
                    self.lemma_written_idle(old(self), tag@, content@, s);
                    assert(self.written(*old(self), tag@, content@, s));
                    assert(self.sector_of(tag@) == s);
                }
            }
            Ok(())
        } else {
            let defragsector = self.defragsector;
            match self.write_impl(tag, content.as_slice(), defragsector) {
                Ok(()) => {},
                Err(e) => {
                    return Err(e);
                },
            }
            let ghost before = *self;
            proof {
                if good {
                    self.lemma_edit_fallback(old(self), tag@, content@);
                }
            }
            match self.defragment(current_sector) {
                Ok(()) => {},
                Err(e) => {
                    return Err(e);
                },
            }
            proof {
                if good {
                    assert(before.written(*old(self), tag@, content@, before.defrag()));
                    assert(before.sector_of(tag@) == before.defrag());
                    assert(before@.dom().contains(tag@));
                    assert(self.defragmented(before, s));
                    assert(self.sector_of(tag@) == s);
                }
            }
            Ok(())
        }
    }

    /// The step from `old` to `self` in which what lies after the blocks
    /// that the sector `s` was taken to hold, `n` bytes of it, is reckoned
    /// with: as the block of `entry`, if there is one.
    spec fn advance_step(
        &self,
        old: &FileSystem,
        s: int,
        n: int,
        counted: bool,
        entry: Option<Entry>,
    ) -> bool {
        &&& old.wf()
        &&& 0 <= s < old.sectors@.len()
        &&& 0 < n <= old.limit(s) - old.next_blocks@[s]
        &&& entry matches Some(e) ==> e.start == old.next_blocks@[s] && e.size == n && 1 <= n
            && e.validity != VALIDITY_VALID && e.counted == counted
        &&& entry is None ==> !counted
        &&& self.sectors == old.sectors
        &&& self.defragsector == old.defragsector
        &&& self.appletsector == old.appletsector
        &&& self.files == old.files
        &&& self.flash == old.flash
        &&& self.next_blocks@ == old.next_blocks@.update(s, (old.next_blocks@[s] + n) as usize)
        &&& self.valid_sizes@ == old.valid_sizes@.update(
            s,
            (old.valid_sizes@[s] + if counted {
                n
            } else {
                0
            }) as usize,
        )
        &&& self.layout@ == old.layout@.update(
            s,
            match entry {
                Some(e) => old.layout@[s].push(e),
                None => old.layout@[s],
            },
        )
    }

    /// The filesystem is in order, with the files it had, once more of a
    /// sector is reckoned with.
    proof fn lemma_advance(
        &self,
        old: &FileSystem,
        s: int,
        n: int,
        counted: bool,
        entry: Option<Entry>,
    )
        requires
            self.advance_step(old, s, n, counted, entry),
        ensures
            self.wf(),
            self.same_sectors(*old),
            self@ == old@,
            forall|t: Seq<u8>| #[trigger]
                old@.dom().contains(t) ==> self.sector_of(t) == old.sector_of(t),
    {
        old.lemma_sizes(s);
        assert(self.structure_ok()) by {
            reveal(FileSystem::structure_ok);
        }
        assert(self.layout_ok()) by {
            reveal(FileSystem::structure_ok);
            reveal(FileSystem::layout_ok);
            if let Some(e) = entry {
                lemma_sum_push(old.layout@[s], e);
            }
            assert forall|t: int, i: int|
                0 <= t < self.layout@.len() && 0 <= i < self.layout@[t].len() implies {
                &&& 0 <= (#[trigger] self.layout@[t][i]).start
                &&& 1 <= self.layout@[t][i].size
                &&& self.layout@[t][i].start + self.layout@[t][i].size <= self.next_blocks@[t]
                &&& self.layout@[t][i].validity == VALIDITY_VALID ==> self.layout@[t][i].counted
            } by {
                if t == s && i == old.layout@[s].len() {
                } else {
                    assert(0 <= old.layout@[t][i].start);
                }
            }
            assert forall|t: int, i: int, j: int|
                0 <= t < self.layout@.len() && 0 <= i < j < self.layout@[t].len() implies (
            #[trigger] self.layout@[t][i]).start + self.layout@[t][i].size <= (
            #[trigger] self.layout@[t][j]).start by {
                if t == s && j == old.layout@[s].len() {
                    assert(old.layout@[t][i].start + old.layout@[t][i].size <= old.next_blocks@[t]);
                } else {
                    assert(old.layout@[t][i].start + old.layout@[t][i].size
                        <= old.layout@[t][j].start);
                }
            }
            assert forall|t: int| 0 <= t < self.layout@.len() implies self.valid_sizes@[t]
                == counted_sum(#[trigger] self.layout@[t]) by {
                assert(old.valid_sizes@[t] == counted_sum(old.layout@[t]));
            }
        }
        assert(self.files_ok()) by {
            reveal(FileSystem::structure_ok);
            reveal(FileSystem::files_ok);
            assert forall|g: File| #[trigger] self.files.contains(g) implies {
                &&& g.sector.0 < self.sectors@.len()
                &&& g.tag.sector_spec() == self.sectors@[g.sector.0 as int]
                &&& g.data.sector_spec() == self.sectors@[g.sector.0 as int]
                &&& g.header_at() >= 0
                &&& exists|j: int|
                    0 <= j < self.layout@[g.sector.0 as int].len() && g.owns(
                        #[trigger] self.layout@[g.sector.0 as int][j],
                    )
            } by {
                let j = old.lemma_file(g);
                assert(self.layout@[g.sector.0 as int][j] == old.layout@[g.sector.0 as int][j]);
            }
            assert forall|t: int, i: int|
                0 <= t < self.layout@.len() && 0 <= i < self.layout@[t].len() && (
                #[trigger] self.layout@[t][i]).validity == VALIDITY_VALID implies {
                &&& self.files.has_key(key_words(self.layout@[t][i].tag))
                &&& self.files.entry(key_words(self.layout@[t][i].tag)).sector.0 == t
                &&& self.files.entry(key_words(self.layout@[t][i].tag)).owns(self.layout@[t][i])
            } by {
                assert(self.layout@[t][i] == old.layout@[t][i]);
            }
        }
        assert(self.locks_ok()) by {
            reveal(FileSystem::locks_ok);
        }
        assert(self@ =~= old@);
        assert(self.same_sectors(*old));
    }

    /// Reckons with what lies after the blocks that a sector is taken to
    /// hold, `n` bytes of it, as the block of an entry if there is one.
    fn advance(&mut self, sid: SectorID, n: usize, counted: bool, Ghost(entry): Ghost<Option<Entry>>)
        requires
            old(self).wf(),
            sid.0 < old(self).sectors@.len(),
            0 < n <= old(self).limit(sid.0 as int) - old(self).next_blocks@[sid.0 as int],
            entry matches Some(e) ==> e.start == old(self).next_blocks@[sid.0 as int] && e.size == n
                && 1 <= n && e.validity != VALIDITY_VALID && e.counted == counted,
            entry is None ==> !counted,
        ensures
            final(self).advance_step(old(self), sid.0 as int, n as int, counted, entry),
    {
        proof {
            reveal(FileSystem::structure_ok);
            old(self).lemma_sizes(sid.0 as int);
            old(self).sectors@[sid.0 as int].lemma_range();
        }
        self.next_blocks[sid.0] = self.next_blocks[sid.0] + n;
        if counted {
            self.valid_sizes[sid.0] = self.valid_sizes[sid.0] + n;
        }
        proof {
            self.layout@ = old(self).layout@.update(
                sid.0 as int,
                match entry {
                    Some(e) => old(self).layout@[sid.0 as int].push(e),
                    None => old(self).layout@[sid.0 as int],
                },
            );
            assert(self.valid_sizes@ =~= old(self).valid_sizes@.update(
                sid.0 as int,
                (old(self).valid_sizes@[sid.0 as int] + if counted {
                    n as int
                } else {
                    0
                }) as usize,
            ));
        }
    }

    /// The sectors of the filesystem.
    pub closed spec fn sectors_spec(&self) -> Seq<Sector> {
        self.sectors@
    }

    /// The sectors are being read as a filesystem is made of `flash0`, which
    /// holds the blocks of `layout`: the sectors before the `s`-th have been,
    /// and the `k` first blocks of the `s`-th.
    spec fn scanned(&self, layout: Seq<Seq<Entry>>, flash0: Flash, s: int, k: int) -> bool {
        self.scanning(layout, flash0, s, k, -1)
    }

    /// The sectors are being read as a filesystem is made of `flash0`, which
    /// holds the blocks of `layout`, and after those of the sector `ex`, if
    /// it is one of the sectors, a broken block: the sectors before the
    /// `s`-th have been read, and the `k` first blocks of the `s`-th.
    spec fn scanning(&self, layout: Seq<Seq<Entry>>, flash0: Flash, s: int, k: int, ex: int) -> bool {
        &&& self.wf()
        &&& self.blocks_ok()
        &&& laid_but(flash0, self.sectors@, self.defrag(), layout, ex)
        &&& ex < self.sectors@.len()
        &&& 0 <= ex ==> s <= ex
        &&& forall|j: int|
            0 <= j < self.sectors@.len() ==> #[trigger] self.bytes(j) == flash0.bytes(
                self.sectors@[j].index(),
            )
        &&& 0 <= s <= self.sectors@.len()
        &&& s < self.sectors@.len() ==> 0 <= k <= layout[s].len()
        &&& forall|j: int|
            0 <= j < self.sectors@.len() ==> #[trigger] self.layout@[j] == if j
                == self.defrag() || j > s {
                Seq::<Entry>::empty()
            } else if j == s {
                layout[s].take(k)
            } else {
                layout[j]
            }
    }

    /// What lies where the reading of the sectors has come to.
    proof fn lemma_scan_pre(&self, layout: Seq<Seq<Entry>>, flash0: Flash, s: int, k: int, ex: int)
        requires
            self.scanning(layout, flash0, s, k, ex),
            0 <= s < self.sectors@.len(),
            s != self.defrag(),
        ensures
            ({
                let l = layout[s];
                let ptr = self.next_blocks@[s] as int;
                let len = self.sectors@[s].length();
                let zone = self.bytes(s).subrange(ptr, len);
                &&& ptr == total_sum(l.take(k))
                &&& self.limit(s) == len
                &&& k == l.len() && s != ex ==> (ptr < len ==> parse(zone) == Err::<
                    Block,
                    ParseNoBlock,
                >(ParseNoBlock::Empty))
                &&& k == l.len() && s == ex ==> ptr < len && parse(zone) == Err::<
                    Block,
                    ParseNoBlock,
                >(ParseNoBlock::Broken)
                &&& k < l.len() ==> {
                    &&& ptr == l[k].start
                    &&& ptr + l[k].size <= len
                    &&& 1 <= l[k].size
                    &&& l[k].counted == (l[k].validity == VALIDITY_VALID)
                    &&& holds_blocks(self.bytes(s), l.take(k + 1))
                    &&& l[k].validity == VALIDITY_VALID ==> !self@.dom().contains(l[k].tag)
                    &&& l[k].tag.len() == 0 ==> l[k].validity == VALIDITY_NOLONGER
                        && l[k].data.len() == 0 && parse(zone) == Err::<Block, ParseNoBlock>(
                        ParseNoBlock::Erased(l[k].size as usize),
                    )
                    &&& l[k].tag.len() > 0 ==> {
                        &&& parse(zone) matches Ok(b)
                        &&& b.valid == (l[k].validity == VALIDITY_VALID)
                        &&& b.size == l[k].size
                        &&& b.tag_len == l[k].tag.len()
                        &&& b.data_len == l[k].data.len()
                        &&& b.tag_start == 1 + lenlen(l[k].data.len() as int)
                        &&& self.bytes(s).subrange(
                            ptr + b.tag_start,
                            ptr + b.tag_start + b.tag_len,
                        ) == l[k].tag
                        &&& self.bytes(s).subrange(
                            ptr + b.data_start,
                            ptr + b.data_start + b.data_len,
                        ) == l[k].data
                        &&& self.bytes(s)[ptr] & VALIDITY_MASK == l[k].validity
                        &&& encodable(l[k].tag.len() as int, l[k].data.len() as int)
                        &&& l[k].size == block_size(
                            l[k].tag.len() as int,
                            l[k].data.len() as int,
                        )
                    }
                }
            }),
    {
        let l = layout[s];
        let bytes = self.bytes(s);
        let len = self.sectors@[s].length();
        self.lemma_sector(s);
        self.sectors@[s].lemma_range();
        let ptr = self.next_blocks@[s] as int;
        assert(self.layout@[s] == l.take(k));
        assert(holds_blocks(bytes, layout[s]));
        let zone = bytes.subrange(ptr, len);
        if s == ex && ptr < len {
            assert(zone.len() > 0 && zone[0] == bytes[ptr]);
            if bytes[ptr] == 0 {
                reveal(parse);
            }
        }
        if k == l.len() {
            assert(l.take(k) == l);
            if ptr < len && s != ex {
                assert(zone[0] == bytes[ptr]);
                crate::format::lemma_parse_empty(zone);
            }
        } else {
            lemma_holds(bytes, l, k);
            let e = l[k];
            if e.tag.len() == 0 {
                lemma_zeros_at(bytes, len as int, l, k);
            } else {
                assert(zone.subrange(0, e.size) =~= bytes.subrange(e.start, e.start + e.size));
                crate::format::lemma_parse_image(zone, e.validity, e.tag, e.data);
                crate::format::lemma_image_header(e.validity, e.tag, e.data);
                assert(bytes[ptr] == bytes.subrange(e.start, e.start + e.size)[0]);
                let i = 1 + lenlen(e.data.len() as int);
                assert(zone.subrange(i, i + e.tag.len()) =~= bytes.subrange(
                    ptr + i,
                    ptr + i + e.tag.len(),
                ));
                assert(zone.subrange(i + e.tag.len(), i + e.tag.len() + e.data.len())
                    =~= bytes.subrange(
                    ptr + i + e.tag.len(),
                    ptr + i + e.tag.len() + e.data.len(),
                ));
            }
            lemma_holds_take(bytes, l, k + 1);
            if e.validity == VALIDITY_VALID && self@.dom().contains(e.tag) {
                self.lemma_slot(e.tag);
                let sf = self.sector_of(e.tag);
                let kf = self.slot_of(e.tag);
                self.lemma_structure();
                assert(self.layout@[sf][kf] == layout[sf][kf]);
                assert(layout[sf][kf].validity == VALIDITY_VALID);
                assert(layout[s][k].validity == VALIDITY_VALID);
                assert(false);
            }
        }
    }
}

/// A sector that holds the blocks of its entries holds those of the first
/// of them.
pub proof fn lemma_holds_take(bytes: Seq<u8>, entries: Seq<Entry>, k: int)
    requires
        holds_blocks(bytes, entries),
        0 <= k <= entries.len(),
    ensures
        holds_blocks(bytes, entries.take(k)),
    decreases entries.len() - k,
{
    if k == entries.len() {
        assert(entries.take(k) == entries);
    } else {
        lemma_holds_take(bytes, entries, k + 1);
        lemma_holds_front(bytes, entries.take(k + 1));
        assert(entries.take(k + 1).drop_last() == entries.take(k));
    }
}

impl<'a> FileSystem<'a> {
    /// The files of a filesystem that is in order are those that the valid
    /// blocks of its layout make.
    pub proof fn lemma_contents(&self)
        requires
            self.wf(),
            self.blocks_ok(),
        ensures
            self@ == contents(self.layout()),
    {
        self.lemma_structure();
        assert forall|t: Seq<u8>| self@.dom().contains(t) <==> has_block(self.layout(), t) by {
            if self@.dom().contains(t) {
                self.lemma_slot(t);
                assert(self.layout()[self.sector_of(t)][self.slot_of(t)].validity
                    == VALIDITY_VALID);
            }
            if has_block(self.layout(), t) {
                let (s, k) = choose|s: int, k: int|
                    0 <= s < self.layout().len() && 0 <= k < self.layout()[s].len() && (
                    #[trigger] self.layout()[s][k]).validity == VALIDITY_VALID
                        && self.layout()[s][k].tag == t;
                self.lemma_entry(s, k);
            }
        }
        assert forall|t: Seq<u8>| #[trigger] self@.dom().contains(t) implies self@[t] == block_data(
            self.layout(),
            t,
        ) by {
            self.lemma_slot(t);
            assert(self.layout()[self.sector_of(t)][self.slot_of(t)].validity == VALIDITY_VALID);
            assert(has_block(self.layout(), t));
            let (s, k) = choose|s: int, k: int|
                0 <= s < self.layout().len() && 0 <= k < self.layout()[s].len() && (
                #[trigger] self.layout()[s][k]).validity == VALIDITY_VALID
                    && self.layout()[s][k].tag == t;
            self.lemma_entry(s, k);
        }
        assert(self@ =~= contents(self.layout()));
    }

    /// The flash holds the blocks of the layout once a block that is not
    /// valid is reckoned with.
    proof fn lemma_advance_blocks(&self, old: &FileSystem, s: int, n: int, counted: bool, e: Entry)
        requires
            self.advance_step(old, s, n, counted, Some(e)),
            old.blocks_ok(),
            holds_blocks(old.bytes(s), old.layout@[s].push(e)),
        ensures
            self.blocks_ok(),
    {
        reveal(FileSystem::structure_ok);
        reveal(FileSystem::blocks_ok);
        lemma_sum_push(old.layout@[s], e);
        assert forall|t: int| 0 <= t < self.sectors@.len() implies {
            &&& holds_blocks(#[trigger] self.bytes(t), self.layout@[t])
            &&& self.next_blocks@[t] == total_sum(self.layout@[t])
        } by {
            assert(holds_blocks(old.bytes(t), old.layout@[t]));
            assert(self.bytes(t) == old.bytes(t));
        }
        assert forall|g: File, j: int|
            #![trigger self.files.contains(g), self.layout@[g.sector.0 as int][j]]
            self.files.contains(g) && 0 <= j < self.layout@[g.sector.0 as int].len() && g.owns(
                self.layout@[g.sector.0 as int][j],
            ) implies g.fits(self.layout@[g.sector.0 as int][j]) by {
            let jj = old.lemma_file(g);
            if g.sector.0 as int == s && j == old.layout@[s].len() {
                assert(self.layout@[s][j] == e);
            } else {
                assert(self.layout@[g.sector.0 as int][j] == old.layout@[g.sector.0 as int][j]);
            }
        }
    }

    /// The filesystem is `old`, whose reading had come to a broken block
    /// after the blocks of the sector `s`, once what is written from there
    /// on is overwritten with zeros: its flash holds the blocks of the
    /// layout and that run of zeros, which is still to be read.
    spec fn mended_from(
        &self,
        old: FileSystem,
        w: Seq<Seq<Entry>>,
        flash0: Flash,
        s: int,
    ) -> bool {
        &&& self.scanned(
            mended(w, s, flash0.bytes(old.sectors@[s].index())),
            self.flash,
            s,
            w[s].len() as int,
        )
        &&& forall|j: int|
            0 <= j < self.sectors@.len() && j != s ==> #[trigger] self.bytes(j) == old.bytes(j)
        &&& self.bytes(s) == and_range(
            old.bytes(s),
            old.next_blocks@[s] as int,
            zeros((written_end(old.bytes(s), old.next_blocks@[s] as int)
                - old.next_blocks@[s]) as nat),
        )
        &&& old.bytes(s) == flash0.bytes(old.sectors@[s].index())
        &&& old.next_blocks@[s] == total_sum(w[s])
    }

    /// The flash `cf` is `flash0` with zeros for what was written after the
    /// blocks of the sector `s`.
    spec fn mended_to(&self, cf: Flash, w: Seq<Seq<Entry>>, flash0: Flash, s: int) -> bool {
        let idx = self.sectors@[s].index();
        let p = total_sum(w[s]);
        &&& cf.bytes(idx) == and_range(
            flash0.bytes(idx),
            p,
            zeros((written_end(flash0.bytes(idx), p) - p) as nat),
        )
        &&& forall|j: int|
            0 <= j < self.sectors@.len() && j != s ==> #[trigger] cf.bytes(
                self.sectors@[j].index(),
            ) == flash0.bytes(self.sectors@[j].index())
    }

    /// The sector `s` of a flash that held the blocks of `w` and a broken
    /// block after them has been read: its flash is `flash0` with zeros for
    /// what was written from the broken block on, which are read too.
    spec fn mended_done(&self, w: Seq<Seq<Entry>>, flash0: Flash, s: int) -> bool {
        let idx = self.sectors@[s].index();
        &&& self.scanned(
            mended(w, s, flash0.bytes(idx)),
            self.flash,
            s,
            mended(w, s, flash0.bytes(idx))[s].len() as int,
        )
        &&& self.mended_to(self.flash, w, flash0, s)
    }

    /// A reading that has come to the end of such a sector has read it.
    proof fn lemma_mended(&self, cf: Flash, w: Seq<Seq<Entry>>, flash0: Flash, s: int)
        requires
            0 <= s < self.sectors@.len(),
            self.scanned(
                mended(w, s, flash0.bytes(self.sectors@[s].index())),
                cf,
                s,
                mended(w, s, flash0.bytes(self.sectors@[s].index()))[s].len() as int,
            ),
            self.mended_to(cf, w, flash0, s),
        ensures
            self.mended_done(w, flash0, s),
    {
        reveal(FileSystem::structure_ok);
        assert forall|j: int| 0 <= j < self.sectors@.len() implies #[trigger] self.flash.bytes(
            self.sectors@[j].index(),
        ) == cf.bytes(self.sectors@[j].index()) by {
            assert(self.bytes(j) == cf.bytes(self.sectors@[j].index()));
        }
    }

    /// The filesystem is made of `flash`, which held a broken block after
    /// the blocks of `layout` of the sector `s`: what was written from the
    /// broken block on is overwritten with zeros, after which the next block
    /// of the sector goes, and the other sectors are as they were.
    pub open spec fn zeroed_after(&self, flash: Flash, layout: Seq<Seq<Entry>>, s: int) -> bool {
        let bytes = flash.bytes(self.sector_at(s).index());
        let p = total_sum(layout[s]);
        let e = written_end(bytes, p);
        &&& self.bytes(s) == and_range(bytes, p, zeros((e - p) as nat))
        &&& self.next_block_at(s) == e
        &&& forall|j: int|
            0 <= j < self.sector_count() && j != s ==> #[trigger] self.bytes(j) == flash.bytes(
                self.sector_at(j).index(),
            )
    }

    /// A filesystem that has read all the sectors of a flash of which it
    /// has overwritten what followed a broken block is in order, with the
    /// files of the blocks that the flash held.
    proof fn lemma_mounted(
        &self,
        cw: Seq<Seq<Entry>>,
        cf: Flash,
        w: Seq<Seq<Entry>>,
        flash0: Flash,
        s: int,
    )
        requires
            broken(flash0, self.sectors@, self.defrag(), w, s),
            cw == mended(w, s, flash0.bytes(self.sectors@[s].index())),
            self.scanned(cw, cf, self.sectors@.len() as int, 0),
            self.mended_to(cf, w, flash0, s),
        ensures
            self.inv(),
            self.layout() == cw,
            self@ == contents(w),
            self.zeroed_after(flash0, w, s),
    {
        reveal(FileSystem::structure_ok);
        let d = self.defrag();
        assert(cf.bytes(self.sectors@[d].index()) == flash0.bytes(self.sectors@[d].index()));
        assert(fits(cf, self.sectors@, d, cw));
        self.lemma_scan_done(cw, cf);
        if ends_in_zeros(w[s]) {
            lemma_holds(flash0.bytes(self.sectors@[s].index()), w[s], w[s].len() - 1);
        }
        lemma_contents_mended(w, s, flash0.bytes(self.sectors@[s].index()));
        assert forall|j: int| 0 <= j < self.sector_count() implies #[trigger] self.bytes(j)
            == cf.bytes(self.sector_at(j).index()) by {}
        let bytes = flash0.bytes(self.sectors@[s].index());
        let p = total_sum(w[s]);
        self.lemma_sector(s);
        self.sectors@[s].lemma_range();
        assert(bytes.len() == self.sectors@[s].length()) by {
            assert(self.bytes(s) == cf.bytes(self.sector_at(s).index()));
            assert(self.bytes(s).len() == bytes.len());
        }
        lemma_sum_positive(bytes, w[s]);
        assert(self.next_blocks@[s] == total_sum(self.layout@[s]));
        if ends_in_zeros(w[s]) {
            let n = w[s].len() as int;
            let q = w[s].last().start;
            lemma_holds(bytes, w[s], n - 1);
            lemma_total_take(w[s], n - 1);
            assert(w[s].take(n) == w[s]);
            assert(w[s].take(n - 1) == w[s].drop_last());
            lemma_broken_end(bytes, p, q);
            let gap = zeros_from(bytes, q);
            assert(self.layout@[s] == w[s].drop_last().push(gap));
            lemma_sum_push(w[s].drop_last(), gap);
        } else {
            lemma_broken_end(bytes, p, p);
            let gap = zeros_from(bytes, p);
            assert(self.layout@[s] == w[s].push(gap));
            lemma_sum_push(w[s], gap);
        }
        assert(self.next_block_at(s) == written_end(bytes, p));
        assert(self.bytes(s) == and_range(
            bytes,
            p,
            zeros((written_end(bytes, p) - p) as nat),
        ));
        assert forall|j: int| 0 <= j < self.sector_count() && j != s implies #[trigger] self.bytes(
            j,
        ) == flash0.bytes(self.sector_at(j).index()) by {
            assert(self.bytes(j) == cf.bytes(self.sector_at(j).index()));
        }
    }

    /// The reading had come to a broken block after the blocks of the
    /// sector `s` of a flash that held the blocks of `w`, the last of them
    /// a run of zeros, and what was written from the broken block on is
    /// overwritten with zeros, which are still to be read.
    spec fn mending(&self, w: Seq<Seq<Entry>>, flash0: Flash, s: int) -> bool {
        let idx = self.sectors@[s].index();
        let p = total_sum(w[s]);
        &&& 0 <= s < self.sectors@.len()
        &&& s != self.defrag()
        &&& self.wf()
        &&& self.blocks_ok()
        &&& laid_but(flash0, self.sectors@, self.defrag(), w, s)
        &&& ends_in_zeros(w[s])
        &&& self.next_blocks@[s] == p
        &&& self.bytes(s) == and_range(
            flash0.bytes(idx),
            p,
            zeros((written_end(flash0.bytes(idx), p) - p) as nat),
        )
        &&& forall|j: int|
            0 <= j < self.sectors@.len() && j != s ==> #[trigger] self.bytes(j) == flash0.bytes(
                self.sectors@[j].index(),
            )
        &&& forall|j: int|
            0 <= j < self.sectors@.len() ==> #[trigger] self.layout@[j] == if j == self.defrag()
                || j > s {
                Seq::<Entry>::empty()
            } else {
                w[j]
            }
    }

    /// The filesystem is `adv` with another entry in the place of the last
    /// of the sector `s`, which was not valid: one that begins where it did
    /// and is not valid either.
    spec fn swapped(&self, adv: &FileSystem, s: int, g: Entry) -> bool {
        &&& adv.wf()
        &&& 0 <= s < adv.sectors@.len()
        &&& adv.layout@[s].len() > 0
        &&& adv.layout@[s].last().validity != VALIDITY_VALID
        &&& !adv.layout@[s].last().counted
        &&& g.start == adv.layout@[s].last().start
        &&& 1 <= g.size
        &&& g.start + g.size <= adv.next_blocks@[s]
        &&& g.validity != VALIDITY_VALID
        &&& !g.counted
        &&& self.sectors == adv.sectors
        &&& self.defragsector == adv.defragsector
        &&& self.appletsector == adv.appletsector
        &&& self.files == adv.files
        &&& self.flash == adv.flash
        &&& self.next_blocks == adv.next_blocks
        &&& self.valid_sizes == adv.valid_sizes
        &&& self.layout@ == adv.layout@.update(s, adv.layout@[s].drop_last().push(g))
    }

    /// The filesystem is in order, with the files it had, once an entry
    /// that is not valid is taken for another.
    proof fn lemma_swapped(&self, adv: &FileSystem, s: int, g: Entry)
        requires
            self.swapped(adv, s, g),
        ensures
            self.wf(),
            self.same_sectors(*adv),
            self@ == adv@,
            forall|j: int| 0 <= j < self.sectors@.len() ==> #[trigger] self.bytes(j) == adv.bytes(j),
    {
        let n = adv.layout@[s].len() as int;
        let last = adv.layout@[s].last();
        assert(self.structure_ok()) by {
            reveal(FileSystem::structure_ok);
        }
        assert(self.layout_ok()) by {
            reveal(FileSystem::structure_ok);
            reveal(FileSystem::layout_ok);
            assert forall|t: int, i: int|
                0 <= t < self.layout@.len() && 0 <= i < self.layout@[t].len() implies {
                &&& 0 <= (#[trigger] self.layout@[t][i]).start
                &&& 1 <= self.layout@[t][i].size
                &&& self.layout@[t][i].start + self.layout@[t][i].size <= self.next_blocks@[t]
                &&& self.layout@[t][i].validity == VALIDITY_VALID ==> self.layout@[t][i].counted
            } by {
                if t == s && i == n - 1 {
                    assert(0 <= adv.layout@[s][n - 1].start);
                } else {
                    assert(0 <= adv.layout@[t][i].start);
                }
            }
            assert forall|t: int, i: int, j: int|
                0 <= t < self.layout@.len() && 0 <= i < j < self.layout@[t].len() implies (
            #[trigger] self.layout@[t][i]).start + self.layout@[t][i].size <= (
            #[trigger] self.layout@[t][j]).start by {
                assert(adv.layout@[t][i].start + adv.layout@[t][i].size
                    <= adv.layout@[t][j].start);
            }
            assert forall|t: int| 0 <= t < self.layout@.len() implies self.valid_sizes@[t]
                == counted_sum(#[trigger] self.layout@[t]) by {
                assert(adv.valid_sizes@[t] == counted_sum(adv.layout@[t]));
                if t == s {
                    let base = adv.layout@[s].drop_last();
                    assert(adv.layout@[s] =~= base.push(last));
                    lemma_sum_push(base, last);
                    lemma_sum_push(base, g);
                }
            }
        }
        assert(self.files_ok()) by {
            reveal(FileSystem::structure_ok);
            reveal(FileSystem::files_ok);
            assert forall|f: File| #[trigger] self.files.contains(f) implies {
                &&& f.sector.0 < self.sectors@.len()
                &&& f.tag.sector_spec() == self.sectors@[f.sector.0 as int]
                &&& f.data.sector_spec() == self.sectors@[f.sector.0 as int]
                &&& f.header_at() >= 0
                &&& exists|j: int|
                    0 <= j < self.layout@[f.sector.0 as int].len() && f.owns(
                        #[trigger] self.layout@[f.sector.0 as int][j],
                    )
            } by {
                let j = adv.lemma_file(f);
                assert(self.layout@[f.sector.0 as int][j] == adv.layout@[f.sector.0 as int][j]);
            }
            assert forall|t: int, i: int|
                0 <= t < self.layout@.len() && 0 <= i < self.layout@[t].len() && (
                #[trigger] self.layout@[t][i]).validity == VALIDITY_VALID implies {
                &&& self.files.has_key(key_words(self.layout@[t][i].tag))
                &&& self.files.entry(key_words(self.layout@[t][i].tag)).sector.0 == t
                &&& self.files.entry(key_words(self.layout@[t][i].tag)).owns(self.layout@[t][i])
            } by {
                assert(self.layout@[t][i] == adv.layout@[t][i]);
            }
        }
        assert(self.locks_ok()) by {
            reveal(FileSystem::locks_ok);
        }
        assert(self@ =~= adv@);
        assert(self.same_sectors(*adv));
    }

    /// What holds where the zeros that took the place of a broken block
    /// after a run of zeros are still to be read: the sector holds them
    /// there, and the reading is in no other state.
    proof fn lemma_mend_pre(&self, w: Seq<Seq<Entry>>, flash0: Flash, s: int, k: int, ex: int)
        requires
            self.mending(w, flash0, s),
        ensures
            ({
                let bytes0 = flash0.bytes(self.sectors@[s].index());
                let p = total_sum(w[s]);
                let len = self.sectors@[s].length();
                &&& 0 <= p < len
                &&& self.next_blocks@[s] == p
                &&& bytes0.len() == len
                &&& p < written_end(bytes0, p) <= len
                &&& used_end(bytes0, p, written_end(bytes0, p))
                &&& parse(self.bytes(s).subrange(p, len as int)) == Err::<Block, ParseNoBlock>(
                    ParseNoBlock::Erased((written_end(bytes0, p) - p) as usize),
                )
                &&& !self.scanning(w, flash0, s, k, ex)
                &&& !self.scanned_any(w, flash0, s, k)
            }),
    {
        reveal(FileSystem::structure_ok);
        let idx = self.sectors@[s].index();
        let bytes0 = flash0.bytes(idx);
        let bytes = self.bytes(s);
        let p = total_sum(w[s]);
        let len = self.sectors@[s].length() as int;
        self.lemma_sector(s);
        self.sectors@[s].lemma_range();
        assert(bytes.len() == bytes0.len());
        lemma_broken_end(bytes0, p, p);
        let e = written_end(bytes0, p);
        let zone0 = bytes0.subrange(p, len);
        assert(zone0[0] == bytes0[p]);
        assert(bytes0[p] != 0) by {
            if bytes0[p] == 0 {
                reveal(parse);
            }
        }
        assert(bytes0[p] != 0xFF) by {
            if bytes0[p] == 0xFF {
                crate::format::lemma_parse_empty(zone0);
            }
        }
        let zone = bytes.subrange(p, len);
        assert(crate::format::zero_run(zone, e - p)) by {
            assert forall|j: int| 0 <= j < e - p implies zone[j] == 0 by {
                let x = bytes0[p + j];
                assert(zone[j] == bytes[p + j]);
                assert(x & 0u8 == 0u8) by (bit_vector);
            }
            if e - p < zone.len() {
                assert(zone[e - p] == bytes[e]);
                assert(bytes[e] == bytes0[e]);
            }
        }
        crate::format::lemma_parse_zeros(zone, e - p);
        assert(bytes[p] == 0) by {
            assert(zone[0] == bytes[p]);
        }
    }

    /// The zeros that took the place of a broken block after a run of zeros
    /// are still to be read after a block has been looked at.
    proof fn lemma_mend_look(&self, before: &FileSystem, w: Seq<Seq<Entry>>, flash0: Flash, s: int)
        requires
            self.look_step(before, s),
            before.mending(w, flash0, s),
        ensures
            self.mending(w, flash0, s),
    {
        reveal(FileSystem::structure_ok);
        self.lemma_look(before, s);
    }

    /// Once what follows the blocks of the sector `s`, of which the last is
    /// a run of zeros, is overwritten with zeros, those are still to be
    /// read.
    proof fn lemma_scan_mid(&self, before: &FileSystem, w: Seq<Seq<Entry>>, flash0: Flash, s: int)
        requires
            0 <= s < before.sectors@.len(),
            s != before.defrag(),
            before.scanning(w, flash0, s, w[s].len() as int, s),
            ends_in_zeros(w[s]),
            self.scribble_step(before, s),
            self.bytes(s) == and_range(
                before.bytes(s),
                before.next_blocks@[s] as int,
                zeros((written_end(before.bytes(s), before.next_blocks@[s] as int)
                    - before.next_blocks@[s]) as nat),
            ),
        ensures
            self.mending(w, flash0, s),
    {
        reveal(FileSystem::structure_ok);
        self.lemma_scribble(before, s);
        self.lemma_elsewhere(before, s);
        before.lemma_scan_pre(w, flash0, s, w[s].len() as int, s);
        assert(w[s].take(w[s].len() as int) == w[s]);
        assert forall|j: int| 0 <= j < self.sectors@.len() implies #[trigger] self.layout@[j]
            == if j == self.defrag() || j > s {
            Seq::<Entry>::empty()
        } else {
            w[j]
        } by {
            assert(before.layout@[j] == if j == before.defrag() || j > s {
                Seq::<Entry>::empty()
            } else if j == s {
                w[s].take(w[s].len() as int)
            } else {
                w[j]
            });
        }
        assert forall|j: int| 0 <= j < self.sectors@.len() && j != s implies #[trigger] self.bytes(
            j,
        ) == flash0.bytes(self.sectors@[j].index()) by {
            assert(self.bytes(j) == before.bytes(j));
            assert(before.bytes(j) == flash0.bytes(before.sectors@[j].index()));
        }
    }

    /// Once the zeros that took the place of a broken block after a run of
    /// zeros are read, and the two runs taken for one, the sector has been
    /// read.
    #[verifier::spinoff_prover]
    #[verifier::rlimit(80)]
    proof fn lemma_mend_merge(
        &self,
        adv: &FileSystem,
        looked: &FileSystem,
        w: Seq<Seq<Entry>>,
        flash0: Flash,
        s: int,
        n: int,
    )
        requires
            looked.mending(w, flash0, s),
            adv.advance_step(looked, s, n, false, None),
            n == written_end(flash0.bytes(looked.sectors@[s].index()), total_sum(w[s]))
                - total_sum(w[s]),
            self.swapped(
                adv,
                s,
                zeros_from(flash0.bytes(looked.sectors@[s].index()), w[s].last().start),
            ),
        ensures
            self.wf(),
            self.mended_done(w, flash0, s),
    {
        reveal(FileSystem::structure_ok);
        let d = looked.defrag();
        let idx = looked.sectors@[s].index();
        let bytes0 = flash0.bytes(idx);
        let bytes = looked.bytes(s);
        let l = w[s];
        let m = l.len() as int;
        let base = l.drop_last();
        let p = total_sum(l);
        let q = l.last().start;
        let e = written_end(bytes0, p);
        let gap = zeros_from(bytes0, q);
        let w1 = mended(w, s, bytes0);
        looked.lemma_mend_pre(w, flash0, s, 0, -1);
        adv.lemma_advance(looked, s, n, false, None);
        self.lemma_swapped(adv, s, gap);
        looked.lemma_sector(s);
        assert(holds_blocks(bytes, l));
        lemma_holds(bytes, l, m - 1);
        lemma_total_take(l, m - 1);
        assert(l.take(m) == l);
        assert(l.take(m - 1) == base);
        lemma_holds_take(bytes, l, m - 1);
        lemma_sum_positive(bytes, base);
        lemma_broken_end(bytes0, p, q);
        assert(gap.size == e - q);
        assert forall|x: int| q <= x < e implies bytes[x] == 0 by {
            if x >= p {
                let y = bytes0[x];
                assert(y & 0u8 == 0u8) by (bit_vector);
            }
        }
        if m - 1 > 0 {
            assert(base.last() == l[m - 2]);
        }
        lemma_append_zeros(bytes, base, gap);
        lemma_sum_push(base, gap);
        lemma_sum_push(base, l.last());
        assert(l =~= base.push(l.last()));
        assert(w1[s] == base.push(gap));
        assert(self.layout@[s] == w1[s]);
        assert forall|j: int| 0 <= j < self.sectors@.len() implies #[trigger] self.bytes(j)
            == looked.bytes(j) by {
            assert(self.bytes(j) == adv.bytes(j));
        }
        assert(self.blocks_ok()) by {
            reveal(FileSystem::blocks_ok);
            assert forall|t: int| 0 <= t < self.sectors@.len() implies {
                &&& holds_blocks(#[trigger] self.bytes(t), self.layout@[t])
                &&& self.next_blocks@[t] == total_sum(self.layout@[t])
            } by {
                assert(holds_blocks(looked.bytes(t), looked.layout@[t]));
                assert(self.bytes(t) == looked.bytes(t));
            }
            assert forall|f: File, j: int|
                #![trigger self.files.contains(f), self.layout@[f.sector.0 as int][j]]
                self.files.contains(f) && 0 <= j < self.layout@[f.sector.0 as int].len()
                    && f.owns(self.layout@[f.sector.0 as int][j]) implies f.fits(
                self.layout@[f.sector.0 as int][j],
            ) by {
                let jj = looked.lemma_file(f);
                assert(self.layout@[f.sector.0 as int][j] == looked.layout@[f.sector.0 as int][j]);
            }
        }
        assert forall|x: int| e <= x < bytes.len() implies bytes[x] == 0xFF by {}
        assert(laid_out(self.flash, self.sectors@, d, w1)) by {
            assert forall|j: int| 0 <= j < self.sectors@.len() implies {
                &&& holds_blocks(self.flash.bytes(self.sectors@[j].index()), #[trigger] w1[j])
                &&& total_sum(w1[j]) <= limit_of(self.sectors@, d, j)
                &&& j != d ==> erased_from(
                    self.flash.bytes(self.sectors@[j].index()),
                    total_sum(w1[j]),
                    limit_of(self.sectors@, d, j),
                )
                &&& j != d ==> counted_sum(w1[j]) <= self.sectors@[d].length() - 1
            } by {
                assert(self.bytes(j) == looked.bytes(j));
                if j != s {
                    assert(w1[j] == w[j]);
                    assert(looked.bytes(j) == flash0.bytes(looked.sectors@[j].index()));
                    assert(holds_blocks(flash0.bytes(looked.sectors@[j].index()), w[j]));
                }
            }
            assert forall|s1: int, k1: int, s2: int, k2: int|
                0 <= s1 < w1.len() && 0 <= k1 < w1[s1].len() && 0 <= s2 < w1.len() && 0 <= k2
                    < w1[s2].len() && (#[trigger] w1[s1][k1]).validity == VALIDITY_VALID && (
                #[trigger] w1[s2][k2]).validity == VALIDITY_VALID && w1[s1][k1].tag
                    == w1[s2][k2].tag implies s1 == s2 && k1 == k2 by {
                assert(w1[s1][k1] == w[s1][k1]);
                assert(w1[s2][k2] == w[s2][k2]);
            }
        }
        assert(w1[s].take(w1[s].len() as int) == w1[s]);
        assert forall|j: int| 0 <= j < self.sectors@.len() implies #[trigger] self.layout@[j]
            == if j == self.defrag() || j > s {
            Seq::<Entry>::empty()
        } else if j == s {
            w1[s].take(w1[s].len() as int)
        } else {
            w1[j]
        } by {
            assert(looked.layout@[j] == if j == looked.defrag() || j > s {
                Seq::<Entry>::empty()
            } else {
                w[j]
            });
        }
        assert(self.sectors@ == looked.sectors@);
        assert(self.mended_to(self.flash, w, flash0, s)) by {
            assert(self.bytes(s) == looked.bytes(s));
            assert forall|j: int| 0 <= j < self.sectors@.len() && j != s implies #[trigger] self.flash.bytes(
                self.sectors@[j].index(),
            ) == flash0.bytes(self.sectors@[j].index()) by {
                assert(self.bytes(j) == looked.bytes(j));
            }
        }
        assert(self.scanning(w1, self.flash, s, w1[s].len() as int, -1));
    }

    /// Once what follows the blocks of the sector `s` is overwritten with
    /// zeros, the flash holds the blocks of the layout and that run of zeros,
    /// of which the reading of the sectors has come to the latter.
    #[verifier::spinoff_prover]
    #[verifier::rlimit(60)]
    proof fn lemma_scan_mend(&self, before: &FileSystem, w: Seq<Seq<Entry>>, flash0: Flash, s: int)
        requires
            0 <= s < before.sectors@.len(),
            s != before.defrag(),
            before.scanning(w, flash0, s, w[s].len() as int, s),
            !ends_in_zeros(w[s]),
            self.scribble_step(before, s),
            self.bytes(s) == and_range(
                before.bytes(s),
                before.next_blocks@[s] as int,
                zeros((written_end(before.bytes(s), before.next_blocks@[s] as int)
                    - before.next_blocks@[s]) as nat),
            ),
        ensures
            self.scanned(
                mended(w, s, flash0.bytes(before.sectors@[s].index())),
                self.flash,
                s,
                w[s].len() as int,
            ),
            forall|j: int|
                0 <= j < self.sectors@.len() && j != s ==> #[trigger] self.bytes(j)
                    == before.bytes(j),
    {
        reveal(FileSystem::structure_ok);
        let d = before.defrag();
        let idx = before.sectors@[s].index();
        let old_bytes = before.bytes(s);
        let bytes = self.bytes(s);
        let l = w[s];
        let p = before.next_blocks@[s] as int;
        let e = written_end(old_bytes, p);
        let gap = zeros_from(old_bytes, p);
        let w1 = mended(w, s, flash0.bytes(idx));
        self.lemma_scribble(before, s);
        before.lemma_scan_pre(w, flash0, s, l.len() as int, s);
        before.lemma_sector(s);
        before.sectors@[s].lemma_range();
        before.flash.lemma_bytes_len(idx);
        assert(l.take(l.len() as int) == l);
        assert(old_bytes == flash0.bytes(idx));
        assert(p == total_sum(l));
        assert(broken_after(old_bytes, l, before.sectors@[s].length() as int));
        lemma_broken_end(old_bytes, p, p);
        assert(bytes.len() == old_bytes.len());
        assert forall|q: int| 0 <= q < p implies bytes[q] == old_bytes[q] by {}
        lemma_holds_prefix(old_bytes, bytes, l);
        assert forall|q: int| p <= q < e implies bytes[q] == 0 by {
            let x = old_bytes[q];
            assert(x & 0u8 == 0u8) by (bit_vector);
        }
        lemma_append_zeros(bytes, l, gap);
        assert forall|q: int| e <= q < bytes.len() implies bytes[q] == 0xFF by {}
        assert(w1[s] == l.push(gap));
        assert(w1[s].take(l.len() as int) =~= l);
        lemma_sum_push(l, gap);
        assert forall|j: int| 0 <= j < self.sectors@.len() && j != s implies #[trigger] self.bytes(
            j,
        ) == before.bytes(j) by {
            assert(before.flash.has(before.sectors@[j]));
            assert(before.sectors@[j].index() != idx);
        }
        assert(laid_out(self.flash, self.sectors@, d, w1)) by {
            assert forall|j: int| 0 <= j < self.sectors@.len() implies {
                &&& holds_blocks(self.flash.bytes(self.sectors@[j].index()), #[trigger] w1[j])
                &&& total_sum(w1[j]) <= limit_of(self.sectors@, d, j)
                &&& j != d ==> erased_from(
                    self.flash.bytes(self.sectors@[j].index()),
                    total_sum(w1[j]),
                    limit_of(self.sectors@, d, j),
                )
                &&& j != d ==> counted_sum(w1[j]) <= self.sectors@[d].length() - 1
            } by {
                if j != s {
                    assert(w1[j] == w[j]);
                    assert(self.bytes(j) == before.bytes(j));
                    assert(before.bytes(j) == flash0.bytes(before.sectors@[j].index()));
                    assert(holds_blocks(flash0.bytes(before.sectors@[j].index()), w[j]));
                }
            }
            assert forall|s1: int, k1: int, s2: int, k2: int|
                0 <= s1 < w1.len() && 0 <= k1 < w1[s1].len() && 0 <= s2 < w1.len() && 0 <= k2
                    < w1[s2].len() && (#[trigger] w1[s1][k1]).validity == VALIDITY_VALID && (
                #[trigger] w1[s2][k2]).validity == VALIDITY_VALID && w1[s1][k1].tag
                    == w1[s2][k2].tag implies s1 == s2 && k1 == k2 by {
                assert(k1 < w[s1].len());
                assert(k2 < w[s2].len());
                assert(w1[s1][k1] == w[s1][k1]);
                assert(w1[s2][k2] == w[s2][k2]);
            }
        }
        assert forall|j: int| 0 <= j < self.sectors@.len() implies #[trigger] self.layout@[j]
            == if j == self.defrag() || j > s {
            Seq::<Entry>::empty()
        } else if j == s {
            w1[s].take(l.len() as int)
        } else {
            w1[j]
        } by {
            assert(before.layout@[j] == if j == before.defrag() || j > s {
                Seq::<Entry>::empty()
            } else if j == s {
                w[s].take(l.len() as int)
            } else {
                w[j]
            });
        }
    }

    /// The reading of the sectors has come one block further.
    proof fn lemma_scan_next(
        &self,
        before: &FileSystem,
        layout: Seq<Seq<Entry>>,
        flash0: Flash,
        s: int,
        k: int,
        ex: int,
    )
        requires
            before.scanning(layout, flash0, s, k, ex),
            0 <= s < before.sectors@.len(),
            s != before.defrag(),
            k < layout[s].len(),
            self.wf(),
            self.blocks_ok(),
            self.same_sectors(*before),
            self.layout@ == before.layout@.update(s, before.layout@[s].push(layout[s][k])),
            forall|j: int|
                0 <= j < self.sectors@.len() ==> #[trigger] self.bytes(j) == before.bytes(j),
        ensures
            self.scanning(layout, flash0, s, k + 1, ex),
    {
        reveal(FileSystem::structure_ok);
        let l = layout[s];
        assert(l.take(k).push(l[k]) =~= l.take(k + 1));
        assert forall|j: int| 0 <= j < self.sectors@.len() implies #[trigger] self.bytes(j)
            == flash0.bytes(self.sectors@[j].index()) by {
            assert(before.bytes(j) == flash0.bytes(before.sectors@[j].index()));
            assert(self.sector_at(j) == before.sector_at(j));
        }
        assert forall|j: int| 0 <= j < self.sectors@.len() implies #[trigger] self.layout@[j]
            == if j == self.defrag() || j > s {
            Seq::<Entry>::empty()
        } else if j == s {
            layout[s].take(k + 1)
        } else {
            layout[j]
        } by {
            assert(before.layout@[j] == if j == before.defrag() || j > s {
                Seq::<Entry>::empty()
            } else if j == s {
                layout[s].take(k)
            } else {
                layout[j]
            });
        }
        assert(self.sectors@ =~= before.sectors@) by {
            assert forall|j: int| 0 <= j < self.sectors@.len() implies self.sectors@[j]
                == before.sectors@[j] by {
                assert(self.sector_at(j) == before.sector_at(j));
            }
        }
    }

    /// How many entries of the sector `j` are read when the reading of the
    /// sectors has come to the `k`-th entry of the sector `s`.
    spec fn read_of(&self, w: Seq<Seq<Entry>>, s: int, k: int, j: int) -> int {
        if j == self.defrag() || j > s {
            0
        } else if j == s {
            k
        } else {
            w[j].len() as int
        }
    }

    /// The state of the reading of a flash whose sectors hold the blocks of
    /// `w`, of which several valid ones may have one tag, when it has come
    /// to the `k`-th entry of the sector `s`.
    spec fn scanned_any(&self, w: Seq<Seq<Entry>>, flash0: Flash, s: int, k: int) -> bool {
        &&& self.wf()
        &&& self.blocks_ok()
        &&& laid_any(flash0, self.sectors@, self.defrag(), w)
        &&& 0 <= s <= self.sectors@.len()
        &&& s < self.sectors@.len() ==> 0 <= k <= w[s].len()
        &&& s == self.sectors@.len() ==> k == 0
        &&& forall|j: int|
            0 <= j < self.sectors@.len() ==> (#[trigger] self.layout@[j]).len() == self.read_of(
                w,
                s,
                k,
                j,
            )
        &&& forall|j: int, i: int|
            0 <= j < self.sectors@.len() && 0 <= i < self.read_of(w, s, k, j)
                ==> #[trigger] self.layout@[j][i] == kept(w, j, i)
        &&& forall|j: int, i: int|
            0 <= j < self.sectors@.len() && 0 <= i < self.read_of(w, s, k, j) && (
            #[trigger] w[j][i]).validity == VALIDITY_VALID ==> self@.dom().contains(w[j][i].tag)
        &&& forall|j: int, p: int|
            0 <= j < self.sectors@.len() && self.next_blocks@[j] <= p < self.sectors@[j].length()
                ==> (#[trigger] self.bytes(j)[p]) == flash0.bytes(self.sectors@[j].index())[p]
        &&& forall|j: int|
            0 <= j < self.sectors@.len() ==> (#[trigger] flash0.bytes(
                self.sectors@[j].index(),
            )).len() == self.sectors@[j].length()
    }

    /// Such a reading is where it was after a block has been looked at.
    proof fn lemma_any_look(
        &self,
        before: &FileSystem,
        w: Seq<Seq<Entry>>,
        flash0: Flash,
        s: int,
        k: int,
    )
        requires
            self.look_step(before, s),
            before.scanned_any(w, flash0, s, k),
        ensures
            self.scanned_any(w, flash0, s, k),
    {
        self.lemma_look(before, s);
        assert forall|j: int, p: int|
            0 <= j < self.sectors@.len() && self.next_blocks@[j] <= p < self.sectors@[j].length()
                implies (#[trigger] self.bytes(j)[p]) == flash0.bytes(
            self.sectors@[j].index(),
        )[p] by {
            assert(self.bytes(j) == before.bytes(j));
            assert(before.bytes(j)[p] == flash0.bytes(before.sectors@[j].index())[p]);
        }
    }

    /// What lies where such a reading has come to.
    proof fn lemma_any_pre(&self, w: Seq<Seq<Entry>>, flash0: Flash, s: int, k: int)
        requires
            self.scanned_any(w, flash0, s, k),
            0 <= s < self.sectors@.len(),
            s != self.defrag(),
        ensures
            ({
                let l = w[s];
                let ptr = self.next_blocks@[s] as int;
                let len = self.sectors@[s].length();
                let zone = self.bytes(s).subrange(ptr, len);
                &&& ptr == total_sum(l.take(k))
                &&& self.limit(s) == len
                &&& k == l.len() ==> (ptr < len ==> parse(zone) == Err::<Block, ParseNoBlock>(
                    ParseNoBlock::Empty,
                ))
                &&& k < l.len() ==> {
                    &&& ptr == l[k].start
                    &&& ptr + l[k].size <= len
                    &&& 1 <= l[k].size
                    &&& is_validity(l[k].validity)
                    &&& l[k].counted == (l[k].validity == VALIDITY_VALID)
                    &&& l[k].tag.len() == 0 ==> l[k].validity == VALIDITY_NOLONGER
                        && l[k].data.len() == 0 && holds_blocks(
                        self.bytes(s),
                        self.layout@[s].push(l[k]),
                    ) && parse(zone) == Err::<Block, ParseNoBlock>(
                        ParseNoBlock::Erased(l[k].size as usize),
                    )
                    &&& l[k].tag.len() > 0 ==> {
                        &&& encodable(l[k].tag.len() as int, l[k].data.len() as int)
                        &&& l[k].size == block_size(
                            l[k].tag.len() as int,
                            l[k].data.len() as int,
                        )
                        &&& parse(zone) matches Ok(b)
                        &&& b.valid == (l[k].validity == VALIDITY_VALID)
                        &&& b.size == l[k].size
                        &&& b.tag_len == l[k].tag.len()
                        &&& b.data_len == l[k].data.len()
                        &&& b.tag_start == 1 + lenlen(l[k].data.len() as int)
                        &&& self.bytes(s).subrange(
                            ptr + b.tag_start,
                            ptr + b.tag_start + b.tag_len,
                        ) == l[k].tag
                        &&& self.bytes(s).subrange(
                            ptr + b.data_start,
                            ptr + b.data_start + b.data_len,
                        ) == l[k].data
                        &&& self.bytes(s).subrange(ptr, ptr + l[k].size) == image(
                            l[k].validity,
                            l[k].tag,
                            l[k].data,
                        )
                        &&& self.bytes(s)[ptr] & VALIDITY_MASK == l[k].validity
                    }
                }
            }),
    {
        reveal(FileSystem::structure_ok);
        let l = w[s];
        let f0 = flash0.bytes(self.sectors@[s].index());
        let len = self.sectors@[s].length();
        self.lemma_sector(s);
        self.sectors@[s].lemma_range();
        assert(self.storage().has(self.sector_at(s)));
        assert(holds_blocks(f0, l));
        // The sizes read so far are those of the layout
        let mine = self.layout@[s];
        assert forall|i: int| 0 <= i < l.len() implies (#[trigger] l[i]).size >= 0 by {
            lemma_holds(f0, l, i);
        }
        assert(mine.len() == k);
        assert forall|i: int| 0 <= i < k implies (#[trigger] mine[i]) == l.take(k)[i] || mine[i]
            == retired(l.take(k)[i]) by {
            assert(self.layout@[s][i] == kept(w, s, i));
        }
        lemma_counted_retired(mine, l.take(k));
        let ptr = self.next_blocks@[s] as int;
        assert(ptr == total_sum(l.take(k)));
        assert(f0.len() == len);
        lemma_at_bytes(f0, l, k, len);
        let zone = self.bytes(s).subrange(ptr, len);
        assert(zone =~= f0.subrange(ptr, len));
        if k < l.len() && l[k].tag.len() == 0 {
            lemma_holds(f0, l, k);
            if k > 0 {
                assert(mine[k - 1] == kept(w, s, k - 1));
            }
            lemma_append_zeros(self.bytes(s), mine, l[k]);
        }
        if k < l.len() && l[k].tag.len() > 0 {
            lemma_holds(f0, l, k);
            let b = parse(zone)->Ok_0;
            let e = l[k];
            assert(self.bytes(s).subrange(ptr + b.tag_start, ptr + b.tag_start + b.tag_len)
                =~= f0.subrange(ptr + b.tag_start, ptr + b.tag_start + b.tag_len));
            assert(self.bytes(s).subrange(ptr + b.data_start, ptr + b.data_start + b.data_len)
                =~= f0.subrange(ptr + b.data_start, ptr + b.data_start + b.data_len));
            assert(self.bytes(s).subrange(ptr, ptr + e.size) =~= f0.subrange(ptr, ptr + e.size));
            crate::format::lemma_image_header(e.validity, e.tag, e.data);
            assert(self.bytes(s)[ptr] == self.bytes(s).subrange(ptr, ptr + e.size)[0]);
        }
    }

    /// Such a reading goes on after an entry that is not valid, or that is
    /// valid and has the tag of a file, once its block is marked.
    proof fn lemma_any_skip(
        &self,
        before: &FileSystem,
        mid: &FileSystem,
        w: Seq<Seq<Entry>>,
        flash0: Flash,
        s: int,
        k: int,
        e: Entry,
    )
        requires
            before.scanned_any(w, flash0, s, k),
            0 <= s < before.sectors@.len(),
            s != before.defrag(),
            k < w[s].len(),
            e == kept(w, s, k),
            e.validity != VALIDITY_VALID,
            w[s][k].validity == VALIDITY_VALID ==> before@.dom().contains(w[s][k].tag),
            *mid == *before || mid.scribble_step(before, s),
            forall|p: int|
                0 <= p < before.sectors@[s].length() && p != before.next_blocks@[s]
                    ==> mid.bytes(s)[p] == before.bytes(s)[p],
            self.advance_step(mid, s, e.size, false, Some(e)),
            holds_blocks(mid.bytes(s), mid.layout@[s].push(e)),
        ensures
            self.scanned_any(w, flash0, s, k + 1),
    {
        reveal(FileSystem::structure_ok);
        if *mid != *before {
            mid.lemma_scribble(before, s);
            assert forall|j: int| 0 <= j < before.sectors@.len() && j != s implies mid.bytes(j)
                == before.bytes(j) by {
                assert(before.flash.has(before.sectors@[j]));
                assert(before.sectors@[j].index() != before.sectors@[s].index());
            }
        }
        assert(mid.blocks_ok());
        self.lemma_advance(mid, s, e.size, false, Some(e));
        self.lemma_advance_blocks(mid, s, e.size, false, e);
        assert(self.sectors@ == before.sectors@);
        assert(mid.layout@ == before.layout@);
        assert(mid.next_blocks@ == before.next_blocks@);
        assert(self@ == before@);
        assert(1 <= e.size);
        assert forall|j: int|
            0 <= j < self.sectors@.len() implies (#[trigger] self.layout@[j]).len() == self.read_of(
            w,
            s,
            k + 1,
            j,
        ) by {
            assert(before.layout@[j].len() == before.read_of(w, s, k, j));
        }
        assert forall|j: int, i: int|
            0 <= j < self.sectors@.len() && 0 <= i < self.read_of(
                w,
                s,
                k + 1,
                j,
            ) implies #[trigger] self.layout@[j][i] == kept(w, j, i) by {
            if j == s && i == k {
            } else {
                assert(before.layout@[j][i] == kept(w, j, i));
            }
        }
        assert forall|j: int, i: int|
            0 <= j < self.sectors@.len() && 0 <= i < self.read_of(w, s, k + 1, j) && (
            #[trigger] w[j][i]).validity == VALIDITY_VALID implies self@.dom().contains(
            w[j][i].tag,
        ) by {
            if j == s && i == k {
            } else {
                assert(before@.dom().contains(w[j][i].tag));
            }
        }
        assert forall|j: int, p: int|
            0 <= j < self.sectors@.len() && self.next_blocks@[j] <= p < self.sectors@[j].length()
                implies (#[trigger] self.bytes(j)[p]) == flash0.bytes(
            self.sectors@[j].index(),
        )[p] by {
            assert(self.bytes(j) == mid.bytes(j));
            if j == s {
                assert(mid.bytes(s)[p] == before.bytes(s)[p]);
            } else {
                assert(mid.bytes(j) == before.bytes(j));
            }
            assert(before.bytes(j)[p] == flash0.bytes(before.sectors@[j].index())[p]);
        }
    }

    /// A sector holds the blocks of its entries and of one more, whose
    /// block, which was valid, has been marked as no longer valid.
    proof fn lemma_any_mark(bytes: Seq<u8>, marked: Seq<u8>, entries: Seq<Entry>, e: Entry)
        requires
            holds_blocks(marked, entries),
            e.start == total_sum(entries),
            encodable(e.tag.len() as int, e.data.len() as int),
            e.size == block_size(e.tag.len() as int, e.data.len() as int),
            0 <= e.start,
            e.start + e.size <= bytes.len(),
            bytes.subrange(e.start, e.start + e.size) == image(VALIDITY_VALID, e.tag, e.data),
            marked == bytes.update(e.start, no_longer(bytes[e.start])),
            e.validity == VALIDITY_NOLONGER,
            !e.counted,
        ensures
            holds_blocks(marked, entries.push(e)),
    {
        crate::format::lemma_header(VALIDITY_VALID, e.tag.len() as int, e.data.len() as int);
        crate::format::lemma_image_parts(VALIDITY_VALID, e.tag, e.data);
        crate::format::lemma_image_validity(VALIDITY_VALID, VALIDITY_NOLONGER, e.tag, e.data);
        let img = image(VALIDITY_VALID, e.tag, e.data);
        assert(bytes[e.start] == bytes.subrange(e.start, e.start + e.size)[0]);
        assert(marked.subrange(e.start, e.start + e.size) =~= img.update(
            0,
            header(VALIDITY_NOLONGER, e.tag.len() as int, e.data.len() as int),
        ));
        lemma_append(marked, entries, e);
    }

    /// Such a reading goes on after a valid entry has made a file.
    proof fn lemma_any_insert(
        &self,
        before: &FileSystem,
        w: Seq<Seq<Entry>>,
        flash0: Flash,
        s: int,
        k: int,
        f: File,
    )
        requires
            before.scanned_any(w, flash0, s, k),
            0 <= s < before.sectors@.len(),
            s != before.defrag(),
            k < w[s].len(),
            w[s][k].validity == VALIDITY_VALID,
            !before@.dom().contains(w[s][k].tag),
            self.insert_step(before, f, w[s][k]),
            f.sector.0 == s,
            self.wf(),
            self.blocks_ok(),
            self@ == before@.insert(w[s][k].tag, w[s][k].data),
            forall|j: int|
                0 <= j < self.sectors@.len() ==> #[trigger] self.bytes(j) == before.bytes(j),
        ensures
            self.scanned_any(w, flash0, s, k + 1),
    {
        reveal(FileSystem::structure_ok);
        assert(self.sectors@ == before.sectors@);
        assert(!seen_before(w, s, k)) by {
            if seen_before(w, s, k) {
                let (a, b) = choose|a: int, b: int|
                    0 <= a < w.len() && 0 <= b < w[a].len() && earlier(a, b, s, k) && (
                    #[trigger] w[a][b]).validity == VALIDITY_VALID && w[a][b].tag == w[s][k].tag;
                assert(a != before.defrag());
                assert(0 <= b < before.read_of(w, s, k, a));
                assert(before@.dom().contains(w[a][b].tag));
            }
        }
        assert forall|j: int|
            0 <= j < self.sectors@.len() implies (#[trigger] self.layout@[j]).len() == self.read_of(
            w,
            s,
            k + 1,
            j,
        ) by {
            assert(before.layout@[j].len() == before.read_of(w, s, k, j));
        }
        assert forall|j: int, i: int|
            0 <= j < self.sectors@.len() && 0 <= i < self.read_of(
                w,
                s,
                k + 1,
                j,
            ) implies #[trigger] self.layout@[j][i] == kept(w, j, i) by {
            if j == s && i == k {
            } else {
                assert(before.layout@[j][i] == kept(w, j, i));
            }
        }
        assert forall|j: int, i: int|
            0 <= j < self.sectors@.len() && 0 <= i < self.read_of(w, s, k + 1, j) && (
            #[trigger] w[j][i]).validity == VALIDITY_VALID implies self@.dom().contains(
            w[j][i].tag,
        ) by {
            if j == s && i == k {
            } else {
                assert(before@.dom().contains(w[j][i].tag));
            }
        }
        assert forall|j: int, p: int|
            0 <= j < self.sectors@.len() && self.next_blocks@[j] <= p < self.sectors@[j].length()
                implies (#[trigger] self.bytes(j)[p]) == flash0.bytes(
            self.sectors@[j].index(),
        )[p] by {
            assert(self.bytes(j) == before.bytes(j));
            assert(before.bytes(j)[p] == flash0.bytes(before.sectors@[j].index())[p]);
        }
    }

    /// Such a reading goes on with the next sector.
    proof fn lemma_any_sector_done(&self, w: Seq<Seq<Entry>>, flash0: Flash, s: int)
        requires
            0 <= s < self.sectors@.len(),
            if s == self.defrag() {
                self.scanned_any(w, flash0, s, 0)
            } else {
                self.scanned_any(w, flash0, s, w[s].len() as int)
            },
        ensures
            self.scanned_any(w, flash0, s + 1, 0),
    {
        let k = if s == self.defrag() {
            0
        } else {
            w[s].len() as int
        };
        assert forall|j: int|
            0 <= j < self.sectors@.len() implies self.read_of(w, s + 1, 0, j) == self.read_of(
            w,
            s,
            k,
            j,
        ) by {}
    }

    /// Once all the sectors are read of a flash on which no defragmentation
    /// was going on, the filesystem is in order, and of the valid blocks of
    /// one tag the first that was read is the file.
    proof fn lemma_any_done(&self, w: Seq<Seq<Entry>>, flash0: Flash)
        requires
            self.scanned_any(w, flash0, self.sectors@.len() as int, 0),
            settled(flash0, self.sectors@, self.defrag(), w),
        ensures
            self.inv(),
            deduplicated(self.layout(), w),
            self@ == contents(self.layout()),
    {
        reveal(FileSystem::structure_ok);
        let d = self.defrag();
        let n = self.sectors@.len() as int;
        self.lemma_contents();
        assert forall|j: int| 0 <= j < w.len() implies (#[trigger] self.layout@[j]).len()
            == w[j].len() by {
            assert(self.layout@[j].len() == self.read_of(w, n, 0, j));
        }
        assert forall|j: int, i: int| 0 <= j < w.len() && 0 <= i < w[j].len() implies (
        #[trigger] self.layout@[j][i]) == kept(w, j, i) by {
            assert(0 <= i < self.read_of(w, n, 0, j));
        }
        assert forall|t: int| 0 <= t < n implies self.valid_sizes@[t] <= counted_sum(w[t])
            && self.next_blocks@[t] == total_sum(w[t]) by {
            self.lemma_sector(t);
            self.lemma_sizes(t);
            let f0 = flash0.bytes(self.sectors@[t].index());
            assert(holds_blocks(f0, w[t]));
            assert forall|i: int| 0 <= i < w[t].len() implies (#[trigger] w[t][i]).size >= 0 by {
                lemma_holds(f0, w[t], i);
            }
            assert forall|i: int| 0 <= i < w[t].len() implies (#[trigger] self.layout@[t][i])
                == w[t][i] || self.layout@[t][i] == retired(w[t][i]) by {
                assert(self.layout@[t][i] == kept(w, t, i));
            }
            lemma_counted_retired(self.layout@[t], w[t]);
            reveal(FileSystem::layout_ok);
        }
        assert(self.tails_ok()) by {
            reveal(FileSystem::tails_ok);
            assert forall|t: int| 0 <= t < self.sectors@.len() implies erased_from(
                #[trigger] self.bytes(t),
                self.next_blocks@[t] as int,
                self.limit(t),
            ) by {
                self.lemma_sector(t);
                let f0 = flash0.bytes(self.sectors@[t].index());
                assert(holds_blocks(f0, w[t]));
                assert forall|p: int| self.next_blocks@[t] <= p < self.limit(t) implies self.bytes(
                    t,
                )[p] == 0xFF by {
                    assert(self.bytes(t)[p] == f0[p]);
                }
            }
        }
        assert(self.idle()) by {
            reveal(FileSystem::idle);
            self.lemma_sector(d);
            self.sectors@[d].lemma_range();
            assert(holds_blocks(flash0.bytes(self.sectors@[d].index()), w[d]));
            let last = self.sectors@[d].length() - 1;
            assert(self.bytes(d)[last] == flash0.bytes(self.sectors@[d].index())[last]);
            assert forall|t: int| 0 <= t < self.sectors@.len() && t != d implies (
            #[trigger] self.valid_sizes@[t]) <= self.sectors@[d].length() - 1 by {
                assert(holds_blocks(flash0.bytes(self.sectors@[t].index()), w[t]));
            }
        }
    }

    /// The reading of the sectors is where it was after a block has been
    /// looked at.
    proof fn lemma_scan_look(
        &self,
        before: &FileSystem,
        layout: Seq<Seq<Entry>>,
        flash0: Flash,
        s: int,
        k: int,
        ex: int,
    )
        requires
            self.look_step(before, s),
            before.scanning(layout, flash0, s, k, ex),
        ensures
            self.scanning(layout, flash0, s, k, ex),
    {
        self.lemma_look(before, s);
    }

    /// Reads what lies after the blocks that a sector is taken to hold, and
    /// reckons with it: a valid block makes a file, unless a file has its
    /// tag already, in which case the block is marked as no longer valid;
    /// what follows a broken block is overwritten with zeros.
    fn scan_block(
        &mut self,
        sid: SectorID,
        Ghost(layout): Ghost<Seq<Seq<Entry>>>,
        Ghost(flash0): Ghost<Flash>,
        Ghost(k): Ghost<int>,
        Ghost(ex): Ghost<int>,
    ) -> (r: Result<Scan, Error>)
        requires
            old(self).wf(),
            sid.0 < old(self).sectors@.len(),
            sid.0 != old(self).defrag(),
            old(self).next_blocks@[sid.0 as int] < old(self).sectors@[sid.0 as int].length(),
        ensures
            final(self).wf(),
            final(self).same_sectors(*old(self)),
            r is Ok,
            final(self).same_elsewhere(*old(self), sid.0 as int),
            r matches Ok(Scan::Next(n)) ==> n > 0 && final(self).next_blocks@[sid.0 as int] == old(
                self,
            ).next_blocks@[sid.0 as int] + n,
            r == Ok::<Scan, Error>(Scan::End) || r == Ok::<Scan, Error>(Scan::Broken) ==> final(self).next_blocks@[sid.0 as int] == old(self).next_blocks@[sid.0 as int],
            old(self).scanning(layout, flash0, sid.0 as int, k, ex) ==> {
                if k == layout[sid.0 as int].len() {
                    if sid.0 == ex {
                        r == Ok::<Scan, Error>(Scan::Broken) && if ends_in_zeros(
                            layout[sid.0 as int],
                        ) {
                            final(self).mending(layout, flash0, sid.0 as int)
                        } else {
                            final(self).mended_from(*old(self), layout, flash0, sid.0 as int)
                        }
                    } else {
                        r == Ok::<Scan, Error>(Scan::End) && final(self).scanning(
                            layout,
                            flash0,
                            sid.0 as int,
                            k,
                            ex,
                        )
                    }
                } else {
                    r matches Ok(Scan::Next(n)) && final(self).scanning(
                        layout,
                        flash0,
                        sid.0 as int,
                        k + 1,
                        ex,
                    )
                }
            },
            old(self).mending(layout, flash0, sid.0 as int) ==> (r matches Ok(Scan::Next(n))
                && final(self).mended_done(layout, flash0, sid.0 as int)),
            old(self).scanned_any(layout, flash0, sid.0 as int, k) ==> {
                if k == layout[sid.0 as int].len() {
                    r == Ok::<Scan, Error>(Scan::End) && final(self).scanned_any(
                        layout,
                        flash0,
                        sid.0 as int,
                        k,
                    )
                } else {
                    r matches Ok(Scan::Next(n)) && final(self).scanned_any(
                        layout,
                        flash0,
                        sid.0 as int,
                        k + 1,
                    )
                }
            },
    {
        proof {
            reveal(FileSystem::structure_ok);
        }
        let ghost s = sid.0 as int;
        let ghost good = old(self).scanning(layout, flash0, s, k, ex);
        let ghost any = old(self).scanned_any(layout, flash0, s, k);
        let ghost mid = old(self).mending(layout, flash0, s);
        let sector = self.sectors[sid.0];
        let nb = self.next_blocks[sid.0];
        let len = sector.len();
        proof {
            sector.lemma_range();
            old(self).lemma_sizes(s);
        }
        let (parsed, tag, data) = self.peek(sid, nb, len);
        let ghost looked = *self;
        let ghost bytes = self.bytes(s);
        proof {
            self.lemma_look(old(self), s);
            assert(looked.same_elsewhere(*old(self), s));
            if mid {
                old(self).lemma_mend_pre(layout, flash0, s, k, ex);
                self.lemma_mend_look(old(self), layout, flash0, s);
                self.lemma_mend_pre(layout, flash0, s, k, ex);
            }
            if good {
                self.lemma_scan_look(old(self), layout, flash0, s, k, ex);
                self.lemma_scan_pre(layout, flash0, s, k, ex);
            }
            if any {
                self.lemma_any_look(old(self), layout, flash0, s, k);
                self.lemma_any_pre(layout, flash0, s, k);
            }
            self.lemma_sizes(s);
        }
        match parsed {
            Err(ParseNoBlock::Empty) => Ok(Scan::End),
            Err(ParseNoBlock::Broken) => {
                proof {
                    self.lemma_free(s, len - nb);
                    self.flash.lemma_bytes_len(sector.index());
                }
                let e = erase_invalid_data(&mut self.flash, &sector, nb);
                proof {
                    self.flash.lemma_bytes_len(sector.index());
                    assert(self.scribble_step(&looked, s));
                    self.lemma_scribble(&looked, s);
                    self.lemma_elsewhere(&looked, s);
                    assert(e is Ok);
                    if good {
                        let end = choose|end: int|
                            used_end(looked.bytes(s), nb as int, end) && self.bytes(s)
                                == and_range(
                                looked.bytes(s),
                                nb as int,
                                zeros((end - nb) as nat),
                            );
                        lemma_written_end(looked.bytes(s), nb as int, end);
                        assert(k == layout[s].len() && s == ex);
                        if ends_in_zeros(layout[s]) {
                            self.lemma_scan_mid(&looked, layout, flash0, s);
                        } else {
                            self.lemma_scan_mend(&looked, layout, flash0, s);
                        }
                        assert(looked.bytes(s) == old(self).bytes(s));
                        assert forall|j: int|
                            0 <= j < self.sectors@.len() && j != s implies #[trigger] self.bytes(j)
                            == old(self).bytes(j) by {
                            assert(self.bytes(j) == looked.bytes(j));
                        }
                        assert(layout[s].take(k) == layout[s]);
                        assert(old(self).bytes(s) == flash0.bytes(old(self).sectors@[s].index()));
                        assert(old(self).next_blocks@[s] == total_sum(layout[s]));
                        if !ends_in_zeros(layout[s]) {
                            assert(self.mended_from(*old(self), layout, flash0, s));
                        }
                    }
                }
                match e {
                    Ok(()) => Ok(Scan::Broken),
                    Err(e) => Err(Error::IO(e)),
                }
            },
            Err(ParseNoBlock::Erased(size)) => {
                let ghost e = Entry {
                    start: nb as int,
                    size: size as int,
                    validity: VALIDITY_NOLONGER,
                    counted: false,
                    tag: Seq::<u8>::empty(),
                    data: Seq::<u8>::empty(),
                };
                let ghost entry = if mid {
                    None
                } else {
                    Some(e)
                };
                self.advance(sid, size, false, Ghost(entry));
                proof {
                    self.lemma_advance(&looked, s, size as int, false, entry);
                    if mid {
                        let adv = *self;
                        let bytes0 = flash0.bytes(looked.sectors@[s].index());
                        let gap = zeros_from(bytes0, layout[s].last().start);
                        looked.lemma_sector(s);
                        lemma_holds(looked.bytes(s), layout[s], layout[s].len() - 1);
                        lemma_total_take(layout[s], layout[s].len() - 1);
                        assert(layout[s].take(layout[s].len() as int) == layout[s]);
                        lemma_broken_end(bytes0, total_sum(layout[s]), layout[s].last().start);
                        assert(size == written_end(bytes0, total_sum(layout[s])) - total_sum(
                            layout[s],
                        ));
                        self.layout@ = adv.layout@.update(s, adv.layout@[s].drop_last().push(gap));
                        assert(self.swapped(&adv, s, gap));
                        self.lemma_swapped(&adv, s, gap);
                        self.lemma_mend_merge(&adv, &looked, layout, flash0, s, size as int);
                        assert(self.same_elsewhere(*old(self), s)) by {
                            assert forall|j: int|
                                0 <= j < self.sector_count() && j != s implies #[trigger] self.bytes(
                                j,
                            ) == old(self).bytes(j) by {
                                assert(self.bytes(j) == adv.bytes(j));
                                assert(adv.bytes(j) == looked.bytes(j));
                            }
                        }
                    }
                    if good {
                        let l = layout[s];
                        assert(e.tag =~= l[k].tag);
                        assert(e.data =~= l[k].data);
                        assert(e == l[k]);
                        assert(l.take(k).push(l[k]) =~= l.take(k + 1));
                        self.lemma_advance_blocks(&looked, s, size as int, false, e);
                        self.lemma_scan_next(&looked, layout, flash0, s, k, ex);
                    }
                    if any {
                        let l = layout[s];
                        assert(e.tag =~= l[k].tag);
                        assert(e.data =~= l[k].data);
                        assert(e == l[k]);
                        self.lemma_any_skip(&looked, &looked, layout, flash0, s, k, e);
                    }
                }
                Ok(Scan::Next(size))
            },
            Ok(b) => {
                let ghost e = Entry {
                    start: nb as int,
                    size: b.size as int,
                    validity: if b.valid {
                        VALIDITY_NOLONGER
                    } else {
                        bytes[nb as int] & VALIDITY_MASK
                    },
                    counted: false,
                    tag: bytes.subrange(nb + b.tag_start, nb + b.tag_start + b.tag_len),
                    data: bytes.subrange(nb + b.data_start, nb + b.data_start + b.data_len),
                };
                if b.valid {
                    // If there are multiple valid blocks, this means we have been interrupted
                    // between marking the new block as valid and marking the previous block as
                    // invalid. Here we just take whichever comes first in the order of scanning,
                    // and mark the second one as being invalid
                    if self.has_tag(tag.as_slice()) {
                        proof {
                            self.lemma_free(s, 1);
                            self.flash.lemma_bytes_len(sector.index());
                        }
                        let m = mark_no_longer_valid(&mut self.flash, &sector, nb);
                        let ghost marked = *self;
                        proof {
                            self.flash.lemma_bytes_len(sector.index());
                            assert(self.scribble_step(&looked, s));
                            self.lemma_scribble(&looked, s);
                            self.lemma_elsewhere(&looked, s);
                        }
                        match m {
                            Ok(()) => {},
                            Err(e) => {
                                return Err(Error::IO(e));
                            },
                        }
                        // The block is no longer valid: it does not count
                        self.advance(sid, b.size, false, Ghost(Some(e)));
                        proof {
                            self.lemma_advance(&marked, s, b.size as int, false, Some(e));
                            if any {
                                let l = layout[s];
                                assert(e == retired(l[k]));
                                assert(seen_before(layout, s, k)) by {
                                    looked.lemma_contents();
                                    let t = l[k].tag;
                                    assert(has_block(looked.layout(), t));
                                    let (a, c) = choose|a: int, c: int|
                                        0 <= a < looked.layout().len() && 0 <= c
                                            < looked.layout()[a].len() && (
                                        #[trigger] looked.layout()[a][c]).validity
                                            == VALIDITY_VALID && looked.layout()[a][c].tag == t;
                                    assert(looked.layout@[a].len() == looked.read_of(
                                        layout,
                                        s,
                                        k,
                                        a,
                                    ));
                                    assert(looked.layout@[a][c] == kept(layout, a, c));
                                    assert(layout[a][c].validity == VALIDITY_VALID
                                        && layout[a][c].tag == t && earlier(a, c, s, k));
                                }
                                marked.lemma_sector(s);
                                FileSystem::lemma_any_mark(
                                    looked.bytes(s),
                                    marked.bytes(s),
                                    marked.layout@[s],
                                    e,
                                );
                                self.lemma_any_skip(&looked, &marked, layout, flash0, s, k, e);
                            }
                        }
                    } else {
                        let linked = match self.link_file(
                            tag.as_slice(),
                            b.tag_start,
                            b.data_len,
                            b.size,
                            Ghost(data@),
                            sid,
                        ) {
                            Ok(g) => g,
                            Err(e) => {
                                return Err(Error::IO(e));
                            },
                        };
                        proof {
                            let f = linked@.0;
                            let x = linked@.1;
                            self.lemma_insert_wf(&looked, f, x);
                            if good {
                                let l = layout[s];
                                assert(x == l[k]);
                                lemma_holds(bytes, l, k);
                                self.lemma_insert_blocks(&looked, f, x);
                                self.lemma_insert_view(&looked, f, x);
                                assert forall|j: int|
                                    0 <= j < self.sectors@.len() implies #[trigger] self.bytes(j)
                                    == looked.bytes(j) by {
                                    assert(looked.flash.has(looked.sectors@[j]));
                                }
                                self.lemma_scan_next(&looked, layout, flash0, s, k, ex);
                            }
                            if any {
                                let l = layout[s];
                                assert(x == l[k]);
                                self.lemma_insert_blocks(&looked, f, x);
                                assert forall|j: int|
                                    0 <= j < self.sectors@.len() implies #[trigger] self.bytes(j)
                                    == looked.bytes(j) by {
                                    assert(looked.flash.has(looked.sectors@[j]));
                                }
                                let fl = self.lemma_file(f);
                                self.sectors@[s].lemma_range();
                                self.lemma_data_of(f, x);
                                self.lemma_insert_view(&looked, f, x);
                                self.lemma_any_insert(&looked, layout, flash0, s, k, f);
                            }
                        }
                    }
                } else {
                    self.advance(sid, b.size, false, Ghost(Some(e)));
                    proof {
                        self.lemma_advance(&looked, s, b.size as int, false, Some(e));
                        if good {
                            let l = layout[s];
                            assert(e == l[k]);
                            assert(l.take(k).push(l[k]) =~= l.take(k + 1));
                            self.lemma_advance_blocks(&looked, s, b.size as int, false, e);
                            self.lemma_scan_next(&looked, layout, flash0, s, k, ex);
                        }
                        if any {
                            let l = layout[s];
                            assert(e == l[k]);
                            looked.lemma_sector(s);
                            lemma_append(looked.bytes(s), looked.layout@[s], e);
                            self.lemma_any_skip(&looked, &looked, layout, flash0, s, k, e);
                        }
                    }
                }
                Ok(Scan::Next(b.size))
            },
        }
    }

    /// Reads a sector from the blocks that it is taken to hold on, up to
    /// the first erased byte or the first broken block.
    fn scan_sector(
        &mut self,
        sid: SectorID,
        Ghost(layout): Ghost<Seq<Seq<Entry>>>,
        Ghost(flash0): Ghost<Flash>,
        Ghost(ex): Ghost<int>,
    ) -> (r: Result<(), Error>)
        requires
            old(self).wf(),
            sid.0 < old(self).sectors@.len(),
            sid.0 != old(self).defrag(),
        ensures
            final(self).wf(),
            final(self).same_sectors(*old(self)),
            r is Ok,
            final(self).same_elsewhere(*old(self), sid.0 as int),
            old(self).scanning(layout, flash0, sid.0 as int, 0, ex) ==> r is Ok && if sid.0 == ex {
                final(self).mended_done(layout, flash0, sid.0 as int)
            } else {
                final(self).scanning(
                    layout,
                    flash0,
                    sid.0 as int,
                    layout[sid.0 as int].len() as int,
                    ex,
                )
            },
            old(self).scanned_any(layout, flash0, sid.0 as int, 0) ==> r is Ok && final(self).scanned_any(layout, flash0, sid.0 as int, layout[sid.0 as int].len() as int),
    {
        proof {
            reveal(FileSystem::structure_ok);
        }
        let ghost s = sid.0 as int;
        let ghost good = old(self).scanning(layout, flash0, s, 0, ex);
        let ghost any = old(self).scanned_any(layout, flash0, s, 0);
        let ghost idx = old(self).sectors@[s].index();
        let ghost bytes0 = flash0.bytes(idx);
        let ghost p = total_sum(layout[s]);
        let ghost mut cw = layout;
        let ghost mut cf = flash0;
        let ghost mut cex = ex;
        let ghost mut mid = false;
        let len = self.sectors[sid.0].len();
        let mut done = false;
        let mut zeroed = false;
        let ghost mut k: int = 0;
        while !done && self.next_blocks[sid.0] < len
            invariant
                self.wf(),
                self.same_sectors(*old(self)),
                self.same_elsewhere(*old(self), s),
                sid.0 < self.sectors@.len(),
                sid.0 != self.defrag(),
                s == sid.0,
                idx == self.sectors@[s].index(),
                bytes0 == flash0.bytes(idx),
                len == self.sectors@[s].length(),
                self.next_blocks@.len() == self.sectors@.len(),
                good == old(self).scanning(layout, flash0, s, 0, ex),
                good && !mid ==> self.scanning(cw, cf, s, k, cex),
                mid ==> good && self.mending(layout, flash0, s) && zeroed && !done && s == ex
                    && cw == layout && cf == flash0 && cex == ex,
                good && done ==> k == cw[s].len() && (s == ex ==> zeroed),
                good && !zeroed ==> cw == layout && cf == flash0 && cex == ex,
                good && zeroed && !mid ==> s == ex && cex == -1 && cw == mended(
                    layout,
                    s,
                    bytes0,
                ) && self.mended_to(cf, layout, flash0, s),
                any == old(self).scanned_any(layout, flash0, s, 0),
                any ==> self.scanned_any(layout, flash0, s, k),
                any && done ==> k == layout[s].len(),
                any ==> !zeroed && cw == layout && cf == flash0,
            decreases
                    len - self.next_blocks@[s] + (if done {
                        0int
                    } else if zeroed {
                        1int
                    } else {
                        2int
                    }),
        {
            let ghost before = *self;
            match self.scan_block(sid, Ghost(cw), Ghost(cf), Ghost(k), Ghost(cex)) {
                Err(e) => {
                    return Err(e);
                },
                Ok(Scan::End) => {
                    done = true;
                    proof {
                        if mid {
                            assert(false);
                        }
                        if good {
                            assert(k == cw[s].len() && s != cex);
                            assert(self.scanning(cw, cf, s, k, cex));
                        }
                    }
                },
                Ok(Scan::Broken) => {
                    // What follows the broken block is zeroed now: the reading
                    // goes on over the zeros, up to the erased bytes
                    proof {
                        if mid {
                            assert(false);
                        }
                        if good {
                            assert(k == cw[s].len() && s == cex);
                            assert(!zeroed);
                        }
                    }
                    if zeroed {
                        done = true;
                    } else {
                        zeroed = true;
                    }
                    proof {
                        if good && ends_in_zeros(layout[s]) {
                            assert(s == ex && cex == ex);
                            assert(self.mending(layout, flash0, s));
                            mid = true;
                        }
                        if good && !ends_in_zeros(layout[s]) {
                            assert(s == ex && cex == ex);
                            assert(self.mended_from(before, layout, flash0, s));
                            assert(before.sectors@[s].index() == idx);
                            assert(k == layout[s].len());
                            let w1 = mended(layout, s, flash0.bytes(before.sectors@[s].index()));
                            assert(self.scanned(w1, self.flash, s, layout[s].len() as int));
                            assert(w1 == mended(layout, s, bytes0));
                            assert(self.scanned(
                                mended(layout, s, bytes0),
                                self.flash,
                                s,
                                layout[s].len() as int,
                            ));
                            cw = mended(layout, s, bytes0);
                            cf = self.flash;
                            cex = -1;
                            assert(self.scanned(cw, cf, s, k));
                            assert(self.scanning(cw, cf, s, k, cex));
                            assert(self.mended_to(cf, layout, flash0, s)) by {
                                assert forall|j: int|
                                    0 <= j < self.sectors@.len() && j
                                        != s implies #[trigger] cf.bytes(self.sectors@[j].index())
                                    == flash0.bytes(self.sectors@[j].index()) by {
                                    assert(self.bytes(j) == before.bytes(j));
                                    assert(before.bytes(j) == flash0.bytes(
                                        before.sectors@[j].index(),
                                    ));
                                    assert(self.sector_at(j) == before.sector_at(j));
                                }
                            }
                        }
                    }
                },
                Ok(Scan::Next(n)) => {
                    proof {
                        if mid {
                            assert(self.mended_done(layout, flash0, s));
                            cw = mended(layout, s, bytes0);
                            cf = self.flash;
                            cex = -1;
                            k = cw[s].len() as int;
                            mid = false;
                            assert(self.scanning(cw, cf, s, k, cex));
                        } else {
                            if good {
                                assert(self.scanning(cw, cf, s, k + 1, cex));
                            }
                            k = k + 1;
                        }
                    }
                },
            }
            proof {
                reveal(FileSystem::structure_ok);
                self.lemma_sizes(s);
            }
        }
        proof {
            if mid {
                self.lemma_mend_pre(layout, flash0, s, k, ex);
                assert(false);
            }
            if good {
                self.lemma_scan_pre(cw, cf, s, k, cex);
                assert(k == cw[s].len());
                if s == ex {
                    assert(zeroed);
                    self.lemma_mended(cf, layout, flash0, s);
                }
            }
            if any && k < layout[s].len() {
                self.lemma_any_pre(layout, flash0, s, k);
                assert(false);
            }
        }
        Ok(())
    }

    /// The filesystem has nothing to do with any defragmentation, and its
    /// files are those that the blocks of the flash make, once all the
    /// sectors of a flash that holds the blocks of `layout` have been read.
    proof fn lemma_scan_interrupted(&self, layout: Seq<Seq<Entry>>, flash0: Flash, s: int)
        requires
            self.scanned(layout, flash0, self.sectors@.len() as int, 0),
            interrupted(flash0, self.sectors@, self.defrag(), layout, s),
        ensures
            self.defragmentable(s, s as u8),
            self.layout() == layout,
            self@ == contents(layout),
    {
        reveal(FileSystem::structure_ok);
        let d = self.defrag();
        assert forall|j: int| 0 <= j < self.sectors@.len() implies #[trigger] self.layout@[j]
            == layout[j] by {}
        assert(self.layout@ =~= layout);
        assert(self.tails_ok()) by {
            reveal(FileSystem::tails_ok);
            assert forall|t: int| 0 <= t < self.sectors@.len() implies erased_from(
                #[trigger] self.bytes(t),
                self.next_blocks@[t] as int,
                self.limit(t),
            ) by {
                self.lemma_sector(t);
                assert(self.bytes(t) == flash0.bytes(self.sectors@[t].index()));
                assert(holds_blocks(flash0.bytes(self.sectors@[t].index()), layout[t]));
            }
        }
        self.lemma_sector(d);
        self.lemma_sector(s);
        self.lemma_sizes(d);
        self.lemma_sizes(s);
        assert(self.bytes(d) == flash0.bytes(self.sectors@[d].index()));
        assert(holds_blocks(flash0.bytes(self.sectors@[s].index()), layout[s]));
        assert forall|t: int| 0 <= t < self.sectors@.len() && t != d implies (
        #[trigger] self.valid_size_at(t)) <= self.sectors@[d].length() - 1 by {
            self.lemma_sector(t);
            self.lemma_sizes(t);
            assert(holds_blocks(flash0.bytes(self.sectors@[t].index()), layout[t]));
        }
        self.lemma_contents();
    }

    /// Once all the sectors are read of a flash on which a defragmentation
    /// was interrupted after the copies, the filesystem has the files of the
    /// layout, and the copies are what the sector reserved for
    /// defragmenting holds.
    proof fn lemma_scan_halfway(
        &self,
        layout: Seq<Seq<Entry>>,
        flash0: Flash,
        s: int,
        l: Seq<Entry>,
    )
        requires
            self.scanned(layout, flash0, self.sectors@.len() as int, 0),
            halfway(flash0, self.sectors@, self.defrag(), layout, s, l),
        ensures
            self.copied(s, l),
            self.layout() == layout,
            self@ == contents(layout),
    {
        reveal(FileSystem::structure_ok);
        let d = self.defrag();
        assert forall|j: int| 0 <= j < self.sectors@.len() implies #[trigger] self.layout@[j]
            == layout[j] by {}
        assert(self.layout@ =~= layout);
        self.lemma_contents();
        self.lemma_sector(d);
        self.lemma_sector(s);
        assert(self.bytes(d) == flash0.bytes(self.sectors@[d].index()));
        assert forall|t: int|
            0 <= t < self.sector_count() && t != self.defrag() implies #[trigger] self.tail_at(
            t,
        ) by {
            self.lemma_sector(t);
            assert(self.bytes(t) == flash0.bytes(self.sectors@[t].index()));
            assert(holds_blocks(flash0.bytes(self.sectors@[t].index()), layout[t]));
        }
        assert forall|t: int|
            0 <= t < self.sector_count() && t != self.defrag() && t != s
                implies #[trigger] self.valid_size_at(t) <= self.limit(self.defrag()) by {
            self.lemma_sector(t);
            self.lemma_sizes(t);
            assert(holds_blocks(flash0.bytes(self.sectors@[t].index()), layout[t]));
        }
        assert forall|i: int| 0 <= i < l.len() implies !self@.dom().contains((#[trigger] l[i]).tag)
            && l[i].tag.len() < TAG_LIMIT by {
            assert(!has_block(layout, l[i].tag));
        }
        assert(self.holds(l));
        assert(self.journal() == s);
    }

    /// Once all the sectors are read of a flash on which a defragmentation
    /// was interrupted between two copies, or while the blocks were copied
    /// back, the filesystem has the files of the layout, and the sector
    /// reserved for defragmenting holds what the flash holds there.
    proof fn lemma_scan_midway(
        &self,
        layout: Seq<Seq<Entry>>,
        flash0: Flash,
        s: int,
        l: Seq<Entry>,
    )
        requires
            self.scanned(layout, flash0, self.sectors@.len() as int, 0),
            midway_out(flash0, self.sectors@, self.defrag(), layout, s, l) || midway_back(
                flash0,
                self.sectors@,
                self.defrag(),
                layout,
                s,
                l,
            ),
        ensures
            midway_out(flash0, self.sectors@, self.defrag(), layout, s, l) ==> self.copying_out(
                s,
                l,
            ),
            midway_back(flash0, self.sectors@, self.defrag(), layout, s, l) ==> self.copying_back(
                s,
                l,
            ),
            self.layout() == layout,
            self@ == contents(layout),
    {
        reveal(FileSystem::structure_ok);
        let d = self.defrag();
        assert forall|j: int| 0 <= j < self.sectors@.len() implies #[trigger] self.layout@[j]
            == layout[j] by {}
        assert(self.layout@ =~= layout);
        self.lemma_contents();
        self.lemma_sector(d);
        self.lemma_sector(s);
        self.lemma_sizes(s);
        assert(self.bytes(d) == flash0.bytes(self.sectors@[d].index()));
        assert(holds_blocks(flash0.bytes(self.sectors@[s].index()), layout[s]));
        assert forall|t: int|
            0 <= t < self.sector_count() && t != self.defrag() implies #[trigger] self.tail_at(
            t,
        ) by {
            self.lemma_sector(t);
            assert(self.bytes(t) == flash0.bytes(self.sectors@[t].index()));
            assert(holds_blocks(flash0.bytes(self.sectors@[t].index()), layout[t]));
        }
        assert forall|t: int|
            0 <= t < self.sector_count() && t != self.defrag() && t != s
                implies #[trigger] self.valid_size_at(t) <= self.limit(self.defrag()) by {
            self.lemma_sector(t);
            self.lemma_sizes(t);
            assert(holds_blocks(flash0.bytes(self.sectors@[t].index()), layout[t]));
        }
        assert forall|i: int|
            0 <= i < l.len() && (#[trigger] l[i]).validity == VALIDITY_VALID
                implies !self@.dom().contains(l[i].tag) by {
            assert(!has_block(layout, l[i].tag));
        }
        assert(self.holds_any(l));
        assert(self.journal() == s);
        assert(self.valid_size_at(s) == counted_sum(layout[s])) by {
            reveal(FileSystem::layout_ok);
        }
        assert(self.next_block_at(s) == total_sum(layout[s]));
    }

    /// Once all the sectors are read and no defragmentation was going on,
    /// the filesystem is in order and has the files of the layout.
    proof fn lemma_scan_done(&self, layout: Seq<Seq<Entry>>, flash0: Flash)
        requires
            self.scanned(layout, flash0, self.sectors@.len() as int, 0),
            fits(flash0, self.sectors@, self.defrag(), layout),
        ensures
            self.inv(),
            self.layout() == layout,
            self@ == contents(layout),
    {
        reveal(FileSystem::structure_ok);
        let d = self.defrag();
        assert forall|j: int| 0 <= j < self.sectors@.len() implies #[trigger] self.layout@[j]
            == layout[j] by {}
        assert(self.layout@ =~= layout);
        assert(self.tails_ok()) by {
            reveal(FileSystem::tails_ok);
            assert forall|t: int| 0 <= t < self.sectors@.len() implies erased_from(
                #[trigger] self.bytes(t),
                self.next_blocks@[t] as int,
                self.limit(t),
            ) by {
                self.lemma_sector(t);
                assert(self.bytes(t) == flash0.bytes(self.sectors@[t].index()));
                assert(holds_blocks(flash0.bytes(self.sectors@[t].index()), layout[t]));
            }
        }
        assert(self.idle()) by {
            reveal(FileSystem::idle);
            self.lemma_sector(d);
            lemma_holds_none(self.bytes(d));
            assert(self.bytes(d) == flash0.bytes(self.sectors@[d].index()));
            assert forall|t: int| 0 <= t < self.sectors@.len() && t != d implies (
            #[trigger] self.valid_sizes@[t]) <= self.sectors@[d].length() - 1 by {
                self.lemma_sizes(t);
                assert(holds_blocks(flash0.bytes(self.sectors@[t].index()), layout[t]));
            }
        }
        self.lemma_contents();
    }

    /// Initializes a filesystem with some allocated sector and dedicated
    /// defragmentation and applet sectors.
    ///
    /// This will trigger a parsing of all the allocated sectors, but for the
    /// one reserved for defragmenting, and then go on with the
    /// defragmentation that was going on, if one was. Of the valid blocks of
    /// one tag the first that is read is the file, and the others are marked
    /// as no longer valid and do not count as valid. What follows a broken
    /// block is overwritten with zeros up to the erased end of the sector,
    /// after which the next block of the sector goes; the zeros count as a
    /// block that is no longer valid from then on.
    ///
    /// # Errors
    ///
    /// Errors only if a defragmentation was going on, which the last byte
    /// of the sector reserved for defragmenting tells, and cannot go on: if
    /// that byte names no sector, or if the blocks do not fit where they are
    /// copied to. The flash is lost then.
    pub fn new(
        flash: Flash<'a>,
        sectors: &[Sector],
        defragsector: SectorID,
        appletsector: SectorID,
    ) -> (r: Result<FileSystem<'a>, Error>)
        requires
            mountable(flash, sectors@, defragsector.0 as int, appletsector.0 as int),
        ensures
            r matches Ok(fs) ==> fs.wf() && fs.made_of(
                sectors@,
                defragsector.0 as int,
                appletsector.0 as int,
            ),
            journal_of(flash, sectors@, defragsector.0 as int) == 0xFF ==> r is Ok,
            journal_of(flash, sectors@, defragsector.0 as int) != 0xFF && journal_of(
                flash,
                sectors@,
                defragsector.0 as int,
            ) >= sectors@.len() ==> r == Err::<FileSystem<'a>, Error>(
                Error::IO(IOError::OutOfBounds),
            ),
            forall|layout: Seq<Seq<Entry>>|
                fits(flash, sectors@, defragsector.0 as int, layout) ==> (r matches Ok(fs)
                    && fs.inv() && fs.layout() == layout && fs@ == contents(layout)),
            forall|layout: Seq<Seq<Entry>>, s: int|
                #![trigger interrupted(flash, sectors@, defragsector.0 as int, layout, s)]
                interrupted(flash, sectors@, defragsector.0 as int, layout, s) ==> (r matches Ok(
                    fs,
                ) && fs.inv() && fs@ == contents(layout)),
            forall|layout: Seq<Seq<Entry>>, s: int, l: Seq<Entry>|
                #![trigger halfway(flash, sectors@, defragsector.0 as int, layout, s, l)]
                halfway(flash, sectors@, defragsector.0 as int, layout, s, l) ==> (r matches Ok(fs)
                    && fs.inv() && fs@ == adopted(contents(layout), l, l.len() as int)),
            forall|layout: Seq<Seq<Entry>>, s: int, l: Seq<Entry>|
                #![trigger midway_out(flash, sectors@, defragsector.0 as int, layout, s, l)]
                midway_out(flash, sectors@, defragsector.0 as int, layout, s, l) ==> (r matches Ok(
                    fs,
                ) && fs.inv() && fs@ == adopted(contents(layout), l, l.len() as int)),
            forall|layout: Seq<Seq<Entry>>, s: int, l: Seq<Entry>|
                #![trigger midway_back(flash, sectors@, defragsector.0 as int, layout, s, l)]
                midway_back(flash, sectors@, defragsector.0 as int, layout, s, l) ==> (r matches Ok(
                    fs,
                ) && fs.inv() && fs@ == adopted(contents(layout), l, l.len() as int)),
            forall|layout: Seq<Seq<Entry>>, s: int|
                #![trigger broken(flash, sectors@, defragsector.0 as int, layout, s)]
                broken(flash, sectors@, defragsector.0 as int, layout, s) ==> (r matches Ok(fs)
                    && fs.inv() && fs@ == contents(layout) && fs.layout() == mended(
                    layout,
                    s,
                    flash.bytes(sectors@[s].index()),
                ) && fs.zeroed_after(flash, layout, s)),
            forall|layout: Seq<Seq<Entry>>|
                #![trigger settled(flash, sectors@, defragsector.0 as int, layout)]
                settled(flash, sectors@, defragsector.0 as int, layout) ==> (r matches Ok(fs)
                    && fs.inv() && deduplicated(fs.layout(), layout) && fs@ == contents(
                    fs.layout(),
                )),
    {
        let n = sectors.len();
        let ghost d = defragsector.0 as int;
        let mut next_block: Vec<usize> = Vec::new();
        let mut valid_size: Vec<usize> = Vec::new();
        let mut kept: Vec<Sector> = Vec::new();
        let mut i: usize = 0;
        while i < n
            invariant
                i <= n,
                n == sectors@.len(),
                next_block@.len() == i,
                valid_size@.len() == i,
                kept@.len() == i,
                forall|j: int| 0 <= j < i ==> next_block@[j] == 0 && valid_size@[j] == 0 && kept@[j]
                    == sectors@[j],
            decreases n - i,
        {
            next_block.push(0);
            valid_size.push(0);
            kept.push(sectors[i]);
            i += 1;
        }
        proof {
            assert(kept@ =~= sectors@);
        }
        let ghost empty = Seq::new(n as nat, |j: int| Seq::<Entry>::empty());
        let mut fs = FileSystem {
            flash,
            sectors: kept,
            defragsector,
            appletsector,
            files: HashSet::new(FS_FILES_BUCKETS),
            next_blocks: next_block,
            valid_sizes: valid_size,
            layout: Ghost(empty),
        };
        let ghost good = exists|layout: Seq<Seq<Entry>>| laid_out(flash, sectors@, d, layout);
        let ghost witness = choose|layout: Seq<Seq<Entry>>| laid_out(flash, sectors@, d, layout);
        let ghost any = exists|layout: Seq<Seq<Entry>>| laid_any(flash, sectors@, d, layout);
        let ghost found = choose|layout: Seq<Seq<Entry>>| laid_any(flash, sectors@, d, layout);
        let ghost rough = exists|w: Seq<Seq<Entry>>, s0: int| broken(flash, sectors@, d, w, s0);
        let ghost pair = choose|w: Seq<Seq<Entry>>, s0: int| broken(flash, sectors@, d, w, s0);
        let ghost bw = pair.0;
        let ghost bs = pair.1;
        let ghost mut cw = if rough {
            bw
        } else {
            found
        };
        let ghost mut cf = flash;
        let ghost mut cex: int = if rough {
            bs
        } else {
            -1
        };
        proof {
            fs.lemma_blank(flash);
            if rough {
                assert(broken(flash, sectors@, d, bw, bs));
                if any {
                    lemma_broken_not_laid(flash, sectors@, d, appletsector.0 as int, bw, bs, found);
                }
                if good {
                    assert(laid_any(flash, sectors@, d, witness));
                }
                assert(fs.scanning(bw, flash, 0, 0, bs)) by {
                    assert(bw[0].take(0) =~= Seq::<Entry>::empty());
                }
            }
            if good {
                assert(fs.scanned(witness, flash, 0, 0)) by {
                    assert(witness[0].take(0) =~= Seq::<Entry>::empty());
                }
                assert(laid_any(flash, sectors@, d, witness));
                lemma_any_unique(flash, sectors@, d, appletsector.0 as int, witness, found);
            }
            if any {
                assert(fs.scanned_any(found, flash, 0, 0)) by {
                    fs.lemma_view_blank();
                    assert forall|j: int| 0 <= j < fs.sectors@.len() implies (
                    #[trigger] flash.bytes(fs.sectors@[j].index())).len()
                        == fs.sectors@[j].length() by {
                        assert(flash.has(sectors@[j]));
                        flash.lemma_bytes_len(sectors@[j].index());
                    }
                }
            }
        }
        let mut id: usize = 0;
        while id < n
            invariant
                id <= n,
                n == fs.sectors@.len(),
                fs.wf(),
                fs.made_of(sectors@, d, appletsector.0 as int),
                d == defragsector.0,
                good == exists|layout: Seq<Seq<Entry>>| laid_out(flash, sectors@, d, layout),
                good ==> laid_out(flash, sectors@, d, witness) && fs.scanned(
                    witness,
                    flash,
                    id as int,
                    0,
                ),
                good ==> witness == found,
                0 <= d < n,
                fs.bytes(d) == flash.bytes(sectors@[d].index()),
                rough == exists|w: Seq<Seq<Entry>>, s0: int| broken(flash, sectors@, d, w, s0),
                rough ==> broken(flash, sectors@, d, bw, bs) && !good && !any,
                !rough ==> cw == found && cf == flash && cex == -1,
                rough ==> fs.scanning(cw, cf, id as int, 0, cex),
                rough && id <= bs ==> cw == bw && cf == flash && cex == bs,
                rough && id > bs ==> cex == -1 && cw == mended(
                    bw,
                    bs,
                    flash.bytes(sectors@[bs].index()),
                ) && fs.mended_to(cf, bw, flash, bs),
                any == exists|layout: Seq<Seq<Entry>>| laid_any(flash, sectors@, d, layout),
                any ==> laid_any(flash, sectors@, d, found) && fs.scanned_any(
                    found,
                    flash,
                    id as int,
                    0,
                ),
            decreases n - id,
        {
            let ghost before = fs;
            if id != defragsector.0 {
                match fs.scan_sector(SectorID(id), Ghost(cw), Ghost(cf), Ghost(cex)) {
                    Ok(()) => {},
                    Err(e) => {
                        return Err(e);
                    },
                }
            }
            proof {
                assert(fs.bytes(d) == before.bytes(d)) by {
                    assert(0 <= d < fs.sector_count());
                    if id != d {
                        assert(fs.same_elsewhere(before, id as int));
                    }
                }
                if rough {
                    assert(fs.sector_at(bs) == sectors@[bs]);
                    assert forall|j: int| 0 <= j < fs.sectors@.len() implies fs.sectors@[j]
                        == before.sectors@[j] by {
                        assert(fs.sector_at(j) == before.sector_at(j));
                    }
                    if id > bs {
                        assert(before.mended_to(cf, bw, flash, bs));
                        assert(fs.mended_to(cf, bw, flash, bs));
                    }
                    if id == bs {
                        assert(fs.mended_done(bw, flash, bs));
                        cw = mended(bw, bs, flash.bytes(sectors@[bs].index()));
                        cf = fs.flash;
                        cex = -1;
                        fs.lemma_scan_sector_done(cw, cf, id as int, -1);
                    } else {
                        fs.lemma_scan_sector_done(cw, cf, id as int, cex);
                    }
                }
                if good {
                    fs.lemma_scan_sector_done(witness, flash, id as int, -1);
                }
                if any {
                    fs.lemma_any_sector_done(found, flash, id as int);
                }
            }
            id += 1;
        }
        let ghost read = fs;
        let ghost journal = flash.bytes(sectors@[d].index())[sectors@[d].length() - 1];
        let ghost idle = good && fits(flash, sectors@, d, witness);
        let ghost begun = good && interrupted(flash, sectors@, d, witness, journal as int);
        proof {
            assert(fs.sectors@ =~= sectors@) by {
                assert forall|j: int| 0 <= j < sectors@.len() implies fs.sectors@[j]
                    == sectors@[j] by {
                    assert(fs.sector_at(j) == sectors@[j]);
                }
            }
            if good {
                assert forall|layout: Seq<Seq<Entry>>|
                    laid_out(flash, sectors@, d, layout) implies layout == witness by {
                    lemma_fits_unique(flash, sectors@, d, appletsector.0 as int, layout, witness);
                }
            }
            if idle {
                fs.lemma_scan_done(witness, flash);
            }
            if begun {
                fs.lemma_scan_interrupted(witness, flash, journal as int);
            }
            if any {
                assert forall|layout: Seq<Seq<Entry>>|
                    laid_any(flash, sectors@, d, layout) implies layout == found by {
                    lemma_any_unique(flash, sectors@, d, appletsector.0 as int, layout, found);
                }
                if settled(flash, sectors@, d, found) {
                    fs.lemma_any_done(found, flash);
                }
            }
            assert forall|layout: Seq<Seq<Entry>>, s: int, l: Seq<Entry>|
                #![trigger halfway(flash, sectors@, d, layout, s, l)]
                halfway(flash, sectors@, d, layout, s, l) implies read.copied(s, l) && read@
                == contents(layout) by {
                assert(laid_out(flash, sectors@, d, layout));
                assert(layout == witness);
                fs.lemma_scan_halfway(witness, flash, s, l);
            }
            assert forall|layout: Seq<Seq<Entry>>, s: int, l: Seq<Entry>|
                #![trigger midway_out(flash, sectors@, d, layout, s, l)]
                midway_out(flash, sectors@, d, layout, s, l) implies read.copying_out(s, l) && read@
                == contents(layout) by {
                assert(laid_out(flash, sectors@, d, layout));
                assert(layout == witness);
                fs.lemma_scan_midway(witness, flash, s, l);
            }
            assert forall|layout: Seq<Seq<Entry>>, s: int, l: Seq<Entry>|
                #![trigger midway_back(flash, sectors@, d, layout, s, l)]
                midway_back(flash, sectors@, d, layout, s, l) implies read.copying_back(s, l)
                && read@ == contents(layout) by {
                assert(laid_out(flash, sectors@, d, layout));
                assert(layout == witness);
                fs.lemma_scan_midway(witness, flash, s, l);
            }
        }
        proof {
            if rough {
                assert(bs < n);
                assert(fs.sector_at(bs) == sectors@[bs]);
                fs.lemma_mounted(cw, cf, bw, flash, bs);
            }
        }
        proof {
            assert(fs.journal() == journal_of(flash, sectors@, d)) by {
                assert(fs.sector_at(d) == sectors@[d]);
            }
        }
        let finished = fs.finish_defragmentation();
        proof {
            if rough {
                assert(read.inv());
                assert(finished is Ok && fs.inv() && fs@ == read@);
                fs.lemma_structure();
                read.lemma_structure();
                assert(fs.layout() =~= read.layout()) by {
                    assert forall|j: int| 0 <= j < fs.layout().len() implies fs.layout()[j]
                        == read.layout()[j] by {
                        assert(fs.bytes(j) == read.bytes(j));
                    }
                }
                assert(fs.same_sectors(read));
                assert forall|j: int| 0 <= j < fs.sector_count() implies #[trigger] fs.bytes(j)
                    == read.bytes(j) && fs.next_block_at(j) == read.next_block_at(j) by {}
                assert forall|j: int| 0 <= j < fs.sector_count() implies #[trigger] fs.sector_at(
                    j,
                ) == read.sector_at(j) by {}
                assert(read.zeroed_after(flash, bw, bs));
                assert(fs.zeroed_after(flash, bw, bs)) by {
                    assert(0 <= bs < fs.sector_count());
                    assert(fs.sector_at(bs) == read.sector_at(bs));
                    assert(fs.bytes(bs) == read.bytes(bs));
                    assert(fs.next_block_at(bs) == read.next_block_at(bs));
                    assert forall|j: int| 0 <= j < fs.sector_count() && j != bs implies #[trigger] fs.bytes(
                        j,
                    ) == flash.bytes(fs.sector_at(j).index()) by {
                        assert(fs.bytes(j) == read.bytes(j));
                        assert(fs.sector_at(j) == read.sector_at(j));
                        assert(read.bytes(j) == flash.bytes(read.sector_at(j).index()));
                    }
                }
                assert forall|layout: Seq<Seq<Entry>>, s: int|
                    #![trigger broken(flash, sectors@, d, layout, s)]
                    broken(flash, sectors@, d, layout, s) implies layout == bw && s == bs by {
                    lemma_broken_unique(
                        flash,
                        sectors@,
                        d,
                        appletsector.0 as int,
                        layout,
                        s,
                        bw,
                        bs,
                    );
                }
            }
            if begun {
                assert(fs.defragmented(read, journal as int));
            }
            assert forall|layout: Seq<Seq<Entry>>, s: int, l: Seq<Entry>|
                #![trigger midway_out(flash, sectors@, d, layout, s, l)]
                midway_out(flash, sectors@, d, layout, s, l) implies finished is Ok
                && fs.carried_out(read, s, l) && read@ == contents(layout) by {
                assert(read.copying_out(s, l));
            }
            assert forall|layout: Seq<Seq<Entry>>, s: int, l: Seq<Entry>|
                #![trigger midway_back(flash, sectors@, d, layout, s, l)]
                midway_back(flash, sectors@, d, layout, s, l) implies finished is Ok
                && fs.brought_back(read, s, l) && read@ == contents(layout) by {
                assert(read.copying_back(s, l));
            }
            assert forall|layout: Seq<Seq<Entry>>, s: int, l: Seq<Entry>|
                #![trigger halfway(flash, sectors@, d, layout, s, l)]
                halfway(flash, sectors@, d, layout, s, l) implies finished is Ok && fs.restored(
                read,
                s,
                l,
            ) && read@ == contents(layout) by {
                assert(read.copied(s, l));
            }
        }
        proof {
            if any && settled(flash, sectors@, d, found) {
                assert(read.inv());
                assert(finished is Ok && fs.kept(read));
                fs.lemma_structure();
                read.lemma_structure();
                assert(fs.layout() =~= read.layout()) by {
                    assert forall|j: int| 0 <= j < fs.layout().len() implies fs.layout()[j]
                        == read.layout()[j] by {
                        assert(fs.bytes(j) == read.bytes(j));
                    }
                }
                fs.lemma_contents();
            }
        }
        match finished {
            Ok(()) => {},
            Err(e) => {
                proof {
                    assert forall|layout: Seq<Seq<Entry>>, s: int|
                        #![trigger interrupted(flash, sectors@, d, layout, s)]
                        interrupted(flash, sectors@, d, layout, s) implies false by {
                        assert(laid_out(flash, sectors@, d, layout));
                        assert(layout == witness);
                        assert(journal as int == s);
                        assert(begun);
                    }
                }
                return Err(e);
            },
        }
        proof {
            if idle {
                fs.lemma_structure();
                read.lemma_structure();
                assert forall|j: int| 0 <= j < fs.layout().len() implies fs.layout()[j]
                    == witness[j] by {
                    assert(fs.bytes(j) == read.bytes(j));
                }
                assert(fs.layout() =~= witness);
            }
        }
        Ok(fs)
    }

    /// Nothing is read yet of a filesystem that has just been put together.
    proof fn lemma_view_blank(&self)
        ensures
            forall|w: Seq<Seq<Entry>>, j: int| 0 <= j ==> #[trigger] self.read_of(w, 0, 0, j) == 0,
    {
    }

    /// A filesystem that has just been put together, with no file and no
    /// block, is in order.
    proof fn lemma_blank(&self, flash: Flash)
        requires
            mountable(flash, self.sectors@, self.defragsector.0 as int, self.appletsector.0 as int),
            self.flash == flash,
            self.files.wf(),
            self.files.elements() == Seq::<File>::empty(),
            self.next_blocks@.len() == self.sectors@.len(),
            self.valid_sizes@.len() == self.sectors@.len(),
            self.layout@ == Seq::new(self.sectors@.len(), |j: int| Seq::<Entry>::empty()),
            forall|j: int|
                0 <= j < self.sectors@.len() ==> self.next_blocks@[j] == 0 && self.valid_sizes@[j]
                    == 0,
        ensures
            self.wf(),
            self.blocks_ok(),
            self.made_of(self.sectors@, self.defragsector.0 as int, self.appletsector.0 as int),
            forall|j: int| 0 <= j < self.sectors@.len() ==> #[trigger] self.bytes(j) == flash.bytes(
                self.sectors@[j].index(),
            ),
    {
        reveal(FileSystem::structure_ok);
        reveal(FileSystem::layout_ok);
        reveal(FileSystem::files_ok);
        reveal(FileSystem::locks_ok);
        reveal(FileSystem::blocks_ok);
        assert forall|t: int| 0 <= t < self.sectors@.len() implies {
            &&& holds_blocks(#[trigger] self.bytes(t), self.layout@[t])
            &&& self.next_blocks@[t] == total_sum(self.layout@[t])
            &&& self.valid_sizes@[t] == counted_sum(self.layout@[t])
        } by {
            lemma_holds_none(self.bytes(t));
        }
        assert forall|i: int| 0 <= i < self.sectors@.len() implies self.next_blocks@[i]
            <= self.limit(i) by {
            self.sectors@[i].lemma_range();
        }
    }

    /// The reading of the sectors goes on with the next sector.
    proof fn lemma_scan_sector_done(
        &self,
        layout: Seq<Seq<Entry>>,
        flash0: Flash,
        s: int,
        ex: int,
    )
        requires
            0 <= s < self.sectors@.len(),
            if s == self.defrag() {
                self.scanning(layout, flash0, s, 0, ex)
            } else {
                self.scanning(layout, flash0, s, layout[s].len() as int, ex)
            },
            s != ex,
        ensures
            self.scanning(layout, flash0, s + 1, 0, ex),
    {
        assert(layout[s].take(layout[s].len() as int) == layout[s]);
        if s + 1 < self.sectors@.len() {
            assert(layout[s + 1].take(0) =~= Seq::<Entry>::empty());
        }
        assert forall|j: int| 0 <= j < self.sectors@.len() implies #[trigger] self.layout@[j]
            == if j == self.defrag() || j > s + 1 {
            Seq::<Entry>::empty()
        } else if j == s + 1 {
            layout[s + 1].take(0)
        } else {
            layout[j]
        } by {
            assert(self.layout@[j] == if j == self.defrag() || j > s {
                Seq::<Entry>::empty()
            } else if j == s {
                if s == self.defrag() {
                    layout[s].take(0)
                } else {
                    layout[s].take(layout[s].len() as int)
                }
            } else {
                layout[j]
            });
        }
    }

    /// The flash of a filesystem in which no defragmentation is going on
    /// holds the blocks of its layout, which make its files.
    pub proof fn lemma_persistence(&self)
        requires
            self.inv(),
        ensures
            fits(self.storage(), self.sectors_spec(), self.defrag(), self.layout()),
            self@ == contents(self.layout()),
    {
        reveal(FileSystem::structure_ok);
        let layout = self.layout@;
        self.lemma_contents();
        self.lemma_idle();
        assert forall|s: int| 0 <= s < self.sectors@.len() implies {
            &&& holds_blocks(self.flash.bytes(self.sectors@[s].index()), #[trigger] layout[s])
            &&& total_sum(layout[s]) <= limit_of(self.sectors@, self.defrag(), s)
            &&& erased_from(
                self.flash.bytes(self.sectors@[s].index()),
                total_sum(layout[s]),
                limit_of(self.sectors@, self.defrag(), s),
            )
            &&& s != self.defrag() ==> counted_sum(layout[s]) <= self.sectors@[self.defrag()].length()
                - 1
        } by {
            self.lemma_sector(s);
            self.lemma_sizes(s);
            assert(self.bytes(s) == self.flash.bytes(self.sectors@[s].index()));
            if s != self.defrag() {
                self.lemma_defragmentable(s);
            }
        }
        assert forall|s1: int, k1: int, s2: int, k2: int|
            0 <= s1 < layout.len() && 0 <= k1 < layout[s1].len() && 0 <= s2 < layout.len() && 0
                <= k2 < layout[s2].len() && (#[trigger] layout[s1][k1]).validity == VALIDITY_VALID
                && (#[trigger] layout[s2][k2]).validity == VALIDITY_VALID && layout[s1][k1].tag
                == layout[s2][k2].tag implies s1 == s2 && k1 == k2 by {
            self.lemma_entry(s1, k1);
            self.lemma_entry(s2, k2);
        }
    }

    /// Gives the flash back, with the locks of the files taken off it.
    pub fn into_flash(self) -> (flash: Flash<'a>)
        requires
            self.wf(),
        ensures
            mountable(flash, self.sectors_spec(), self.defrag(), self.applet()),
            forall|j: int|
                0 <= j < self.sector_count() ==> #[trigger] flash.bytes(self.sector_at(j).index())
                    == self.bytes(j),
            self.inv() ==> fits(flash, self.sectors_spec(), self.defrag(), self.layout()),
    {
        proof {
            reveal(FileSystem::structure_ok);
            reveal(FileSystem::files_ok);
            reveal(FileSystem::locks_ok);
            if self.inv() {
                self.lemma_persistence();
            }
        }
        let ghost sectors = self.sectors@;
        let ghost fs = self;
        let files = self.files;
        let mut flash = self.flash;
        let mut it = files.iter();
        loop
            invariant
                fs.wf(),
                files == fs.files,
                sectors == fs.sectors@,
                it.wf(),
                it.set() == &files,
                it.position() <= files.elements().len(),
                flash.wf(),
                !flash.writing(),
                flash.same_bytes(fs.flash),
                flash.sector_count() == fs.flash.sector_count(),
                forall|j: int| 0 <= j < sectors.len() ==> flash.has(#[trigger] sectors[j]),
                forall|s: int, l: Lock|
                    0 <= s < sectors.len() && #[trigger] flash.holds(sectors[s].index(), l)
                        ==> exists|i: int|
                        it.position() <= i < files.elements().len() && (
                        #[trigger] files.elements()[i]).sector.0 == s && (l == files.elements()[i].tag.lock()
                            || l == files.elements()[i].data.lock()),
            ensures
                it.position() == files.elements().len(),
            decreases files.elements().len() - it.position(),
        {
            let ghost before = flash;
            let ghost pos = it.position() as int;
            match it.next() {
                None => {
                    break ;
                },
                Some(f) => {
                    proof {
                        assert(files.contains(*f));
                        let k = fs.lemma_file(*f);
                    }
                    let sector = f.tag.sector();
                    sector.unlock(&mut flash, false, f.tag.start(), f.tag.len());
                    sector.unlock(&mut flash, false, f.data.start(), f.data.len());
                    proof {
                        f.tag.lemma_range();
                        f.data.lemma_range();
                        assert forall|j: int| 0 <= j < sectors.len() implies flash.has(
                            #[trigger] sectors[j],
                        ) by {
                            assert(before.has(sectors[j]));
                        }
                        assert forall|s: int, l: Lock|
                            0 <= s < sectors.len() && #[trigger] flash.holds(
                                sectors[s].index(),
                                l,
                            ) implies exists|i: int|
                            pos + 1 <= i < files.elements().len() && (
                            #[trigger] files.elements()[i]).sector.0 == s && (l
                                == files.elements()[i].tag.lock() || l
                                == files.elements()[i].data.lock()) by {
                            assert(before.holds(sectors[s].index(), l));
                            let i = choose|i: int|
                                pos <= i < files.elements().len() && (
                                #[trigger] files.elements()[i]).sector.0 == s && (l
                                    == files.elements()[i].tag.lock() || l
                                    == files.elements()[i].data.lock());
                            if i == pos {
                                assert(sectors[s].index() == sector.index());
                                assert(false);
                            }
                        }
                    }
                },
            }
        }
        proof {
            assert forall|j: int| 0 <= j < fs.sector_count() implies #[trigger] flash.bytes(
                fs.sector_at(j).index(),
            ) == fs.bytes(j) by {
                assert(fs.flash.has(sectors[j]));
            }
            if fs.inv() {
                assert(fits(flash, sectors, fs.defrag(), fs.layout())) by {
                    assert forall|s: int| 0 <= s < sectors.len() implies flash.bytes(
                        sectors[s].index(),
                    ) == fs.flash.bytes(sectors[s].index()) by {
                        assert(fs.flash.has(sectors[s]));
                    }
                }
            }
        }
        flash
    }

    /// The one valid block of a file: the file has a block on its sector
    /// that is valid, has its tag and holds its data, as the flash has it,
    /// and no other valid block of any sector has its tag.
    pub proof fn lemma_one_valid_block(&self, tag: Seq<u8>)
        requires
            self.inv(),
            self@.dom().contains(tag),
        ensures
            ({
                let s = self.sector_of(tag);
                let k = self.slot_of(tag);
                let e = self.layout()[s][k];
                &&& 0 <= s < self.sector_count()
                &&& 0 <= k < self.layout()[s].len()
                &&& e.validity == VALIDITY_VALID
                &&& e.tag == tag
                &&& e.data == self@[tag]
                &&& 0 <= e.start
                &&& e.start + e.size <= self.bytes(s).len()
                &&& self.bytes(s).subrange(e.start, e.start + e.size) == image(
                    VALIDITY_VALID,
                    tag,
                    self@[tag],
                )
                &&& forall|s2: int, k2: int|
                    0 <= s2 < self.sector_count() && 0 <= k2 < self.layout()[s2].len() && (
                    #[trigger] self.layout()[s2][k2]).validity == VALIDITY_VALID
                        && self.layout()[s2][k2].tag == tag ==> s2 == s && k2 == k
            }),
    {
        self.lemma_slot(tag);
        let s = self.sector_of(tag);
        let k = self.slot_of(tag);
        self.lemma_entry(s, k);
        self.lemma_sector(s);
        lemma_holds(self.bytes(s), self.layout@[s], k);
        self.lemma_structure();
        assert forall|s2: int, k2: int|
            0 <= s2 < self.sector_count() && 0 <= k2 < self.layout()[s2].len() && (
            #[trigger] self.layout()[s2][k2]).validity == VALIDITY_VALID
                && self.layout()[s2][k2].tag == tag implies s2 == s && k2 == k by {
            self.lemma_entry(s2, k2);
        }
    }
}

/// What is written is what is read: after a write, the file that was written
/// is there and holds the data written, and the other files are what they
/// were.
pub proof fn law_write_read(before: FileSystem, after: FileSystem, tag: Seq<u8>, data: Seq<u8>)
    requires
        after@ == before@.insert(tag, data),
    ensures
        after@.dom().contains(tag),
        after@[tag] == data,
        forall|t: Seq<u8>| t != tag && before@.dom().contains(t) ==> after@.dom().contains(t)
            && after@[t] == before@[t],
{
}

/// What is written last is what is read: after two writes of one file, the
/// file holds the data of the second, and each sector holds the valid bytes
/// it held after the first, but for the blocks of the file.
pub proof fn law_write_twice(
    first: FileSystem,
    second: FileSystem,
    third: FileSystem,
    tag: Seq<u8>,
    v1: Seq<u8>,
    v2: Seq<u8>,
)
    requires
        second.inv(),
        second@ == first@.insert(tag, v1),
        third@ == second@.insert(tag, v2),
        third.sector_count() == second.sector_count(),
        forall|j: int|
            0 <= j < third.sector_count() ==> #[trigger] third.valid_size_at(j)
                == second.valid_size_at(j) - second.credit(j, tag) + if j == third.sector_of(tag) {
                block_size(tag.len() as int, v2.len() as int)
            } else {
                0
            },
    ensures
        third@[tag] == v2,
        third@ == first@.insert(tag, v2),
        forall|j: int|
            0 <= j < third.sector_count() ==> #[trigger] third.valid_size_at(j)
                == second.valid_size_at(j) - (if j == second.sector_of(tag) {
                block_size(tag.len() as int, v1.len() as int)
            } else {
                0
            }) + (if j == third.sector_of(tag) {
                block_size(tag.len() as int, v2.len() as int)
            } else {
                0
            }),
{
    assert(third@ =~= first@.insert(tag, v2));
    second.lemma_size_of(tag);
}

/// What is edited is what is read: after an edit that does not reach past
/// the end of the file, the file holds the bytes put in where they were
/// put, and is as long as it was.
pub proof fn law_edit_read(
    before: FileSystem,
    after: FileSystem,
    tag: Seq<u8>,
    offset: int,
    data: Seq<u8>,
)
    requires
        before@.dom().contains(tag),
        0 <= offset,
        offset + data.len() <= before@[tag].len(),
        after@ == before@.insert(tag, spliced(before@[tag], offset, data)),
    ensures
        after@[tag].len() == before@[tag].len(),
        after@[tag].subrange(offset, offset + data.len()) == data,
{
    lemma_spliced(before@[tag], offset, data);
}

/// What is erased is not read: after an erase, the file is not there, and
/// the other files are what they were.
pub proof fn law_erase_read(before: FileSystem, after: FileSystem, tag: Seq<u8>)
    requires
        after@ == before@.remove(tag),
    ensures
        !after@.dom().contains(tag),
        forall|t: Seq<u8>| t != tag && before@.dom().contains(t) ==> after@.dom().contains(t)
            && after@[t] == before@[t],
{
}

/// What is written is read after the filesystem has been made anew of the
/// flash: a flash that holds the blocks of a layout makes the files that the
/// layout makes, whichever filesystem left it.
pub proof fn law_persistence(before: FileSystem, flash: Flash, applet: int, layout: Seq<Seq<Entry>>)
    requires
        before.inv(),
        mountable(flash, before.sectors_spec(), before.defrag(), applet),
        forall|j: int|
            0 <= j < before.sector_count() ==> #[trigger] flash.bytes(
                before.sector_at(j).index(),
            ) == before.bytes(j),
        fits(flash, before.sectors_spec(), before.defrag(), layout),
    ensures
        layout == before.layout(),
        contents(layout) == before@,
{
    before.lemma_persistence();
    before.lemma_structure();
    before.lemma_sectors();
    assert(fits(flash, before.sectors_spec(), before.defrag(), before.layout())) by {
        assert forall|s: int| 0 <= s < before.sectors_spec().len() implies flash.bytes(
            before.sectors_spec()[s].index(),
        ) == before.storage().bytes(before.sectors_spec()[s].index()) by {
            assert(flash.bytes(before.sector_at(s).index()) == before.bytes(s));
        }
    }
    lemma_fits_unique(
        flash,
        before.sectors_spec(),
        before.defrag(),
        applet,
        layout,
        before.layout(),
    );
}

/// A defragmentation that was interrupted once the name of its sector was
/// written loses no file: a flash that a filesystem in which no
/// defragmentation is going on left, but for the last byte of the sector
/// reserved for defragmenting, which names the sector `s`, holds the blocks
/// of the layout of that filesystem, which make its files.
pub proof fn law_interrupted(before: FileSystem, flash: Flash, applet: int, s: int)
    requires
        before.inv(),
        mountable(flash, before.sectors_spec(), before.defrag(), applet),
        0 <= s < before.sector_count(),
        s < 0xFF,
        s != before.defrag(),
        forall|j: int|
            0 <= j < before.sector_count() && j != before.defrag() ==> #[trigger] flash.bytes(
                before.sector_at(j).index(),
            ) == before.bytes(j),
        flash.bytes(before.sector_at(before.defrag()).index()) == before.bytes(
            before.defrag(),
        ).update(before.journal_at(), s as u8),
    ensures
        interrupted(flash, before.sectors_spec(), before.defrag(), before.layout(), s),
        contents(before.layout()) == before@,
{
    before.lemma_persistence();
    before.lemma_structure();
    before.lemma_sectors();
    before.lemma_idle();
    let d = before.defrag();
    let sectors = before.sectors_spec();
    let layout = before.layout();
    before.sector_at(d).lemma_range();
    before.storage().lemma_bytes_len(before.sector_at(d).index());
    assert forall|t: int| 0 <= t < sectors.len() implies {
        &&& holds_blocks(flash.bytes(sectors[t].index()), #[trigger] layout[t])
        &&& total_sum(layout[t]) <= limit_of(sectors, d, t)
        &&& erased_from(flash.bytes(sectors[t].index()), total_sum(layout[t]), limit_of(sectors, d, t))
        &&& t != d ==> counted_sum(layout[t]) <= sectors[d].length() - 1
    } by {
        assert(holds_blocks(before.storage().bytes(sectors[t].index()), layout[t]));
        if t != d {
            assert(flash.bytes(before.sector_at(t).index()) == before.bytes(t));
        } else {
            lemma_holds_none(flash.bytes(sectors[d].index()));
        }
    }
}

/// A defragmentation that was interrupted once the valid blocks of its
/// sector were copied, before or after the sector was erased, loses no
/// file: the filesystem that is made of such a flash has the files of the
/// other blocks and those of the copies.
pub proof fn law_halfway(
    flash: Flash,
    sectors: Seq<Sector>,
    defrag: int,
    layout: Seq<Seq<Entry>>,
    s: int,
    l: Seq<Entry>,
    t: Seq<u8>,
)
    requires
        halfway(flash, sectors, defrag, layout, s, l),
    ensures
        adopted(contents(layout), l, l.len() as int).dom().contains(t) <==> has_block(layout, t)
            || exists|i: int| 0 <= i < l.len() && (#[trigger] l[i]).tag == t,
        forall|i: int|
            0 <= i < l.len() ==> adopted(contents(layout), l, l.len() as int)[(
            #[trigger] l[i]).tag] == l[i].data,
        has_block(layout, t) ==> adopted(contents(layout), l, l.len() as int)[t] == contents(
            layout,
        )[t],
{
    lemma_adopted_dom(contents(layout), l, l.len() as int, t);
    assert forall|i: int| 0 <= i < l.len() implies adopted(
        contents(layout),
        l,
        l.len() as int,
    )[(#[trigger] l[i]).tag] == l[i].data by {
        lemma_adopted_at(contents(layout), l, l.len() as int, i);
    }
    if has_block(layout, t) {
        lemma_adopted_other(contents(layout), l, l.len() as int, t);
    }
}

/// A defragmentation that was interrupted between two copies, while the
/// blocks were copied back or before the last erase loses no file: the
/// filesystem that is made of such a flash has the files of the blocks that
/// are valid on the sectors, and those of the valid blocks of the sector
/// reserved for defragmenting.
pub proof fn law_midway(
    flash: Flash,
    sectors: Seq<Sector>,
    defrag: int,
    layout: Seq<Seq<Entry>>,
    s: int,
    l: Seq<Entry>,
    t: Seq<u8>,
)
    requires
        midway_out(flash, sectors, defrag, layout, s, l) || midway_back(
            flash,
            sectors,
            defrag,
            layout,
            s,
            l,
        ),
    ensures
        adopted(contents(layout), l, l.len() as int).dom().contains(t) <==> has_block(layout, t)
            || exists|i: int|
            0 <= i < l.len() && (#[trigger] l[i]).validity == VALIDITY_VALID && l[i].tag == t,
        forall|i: int|
            0 <= i < l.len() && (#[trigger] l[i]).validity == VALIDITY_VALID ==> adopted(
                contents(layout),
                l,
                l.len() as int,
            )[l[i].tag] == l[i].data,
        has_block(layout, t) ==> adopted(contents(layout), l, l.len() as int)[t] == contents(
            layout,
        )[t],
{
    lemma_adopted_dom(contents(layout), l, l.len() as int, t);
    assert forall|i: int|
        0 <= i < l.len() && (#[trigger] l[i]).validity == VALIDITY_VALID implies adopted(
        contents(layout),
        l,
        l.len() as int,
    )[l[i].tag] == l[i].data by {
        lemma_adopted_last(contents(layout), l, l.len() as int, i);
    }
    if has_block(layout, t) {
        lemma_adopted_kept(contents(layout), l, l.len() as int, t);
    }
}

impl<'a> FileSystem<'a> {
    /// The sectors of the filesystem, one by one.
    pub proof fn lemma_sectors(&self)
        ensures
            self.sectors_spec().len() == self.sector_count(),
            forall|i: int|
                0 <= i < self.sector_count() ==> #[trigger] self.sectors_spec()[i]
                    == self.sector_at(i),
    {
    }
}

} // verus!
