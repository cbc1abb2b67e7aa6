//! The layout of a block of the filesystem on flash.
//!
//! # Block layout
//!
//! ## Header (1 byte)
//!
//! ```none
//! +-+-+---------+-+
//! |A|B|    C    |D|
//! +-+-+---------+-+
//! ```
//!
//! `A`: `1` if the block is not valid yet, `0` otherwise
//!
//! `B`: `0` if the block is no longer valid, `1` otherwise
//!
//! `C`: Length of the tag field, `11111` being reserved for the case when the
//!      block is not actually written yet (ie. the full header byte is
//!      `0xFF`), and `00000` being reserved for an erased block (ie. a
//!      `0x00`-full block), which then ends at the first non-`0x00` octet.
//!
//! `D`: `1` if the data length field is a long field (4 bytes), `0` if it is a
//!      short field (1 byte)
//!
//! ## Then
//!
//! The length of the data, on one byte or on four with the most significant
//! byte first; the tag; the data; and a checksum (CRC-8) over the header with
//! `A` and `B` set to zero and all that follows it, so that the checksum
//! does not depend on the validity of the block.

use vstd::prelude::*;

verus! {

/// Mask for the `validity` bits in a header block
pub const VALIDITY_MASK: u8 = 0b11000000;

/// Value for the `validity` bits in a header block when the block is not yet valid
pub const VALIDITY_NOTYET: u8 = 0b11000000;

/// Value for the `validity` bits in a header block when the block is now valid
pub const VALIDITY_VALID: u8 = 0b01000000;

/// Value for the `validity` bits in a header block when the block is no longer valid
pub const VALIDITY_NOLONGER: u8 = 0b00000000;

/// Mask for the `taglen` bits in a header block
pub const TAGLEN_MASK: u8 = 0b00111110;

/// Shift required for inputting the `taglen` value
pub const TAGLEN_SHIFT: u8 = 1;

/// Mask for the `lenlen` bits in a header block
pub const LENLEN_MASK: u8 = 0b00000001;

/// Value for the `lenlen` bits in a header block when the `len` field is 4 bytes long
pub const LENLEN_LONG: u8 = 0b00000001;

/// Value for the `lenlen` bits in a header block when the `len` field is 1 byte long
pub const LENLEN_SHORT: u8 = 0b00000000;

/// A tag has at least one byte and fewer than this many.
pub const TAG_LIMIT: usize = 30;

/// One step of the division by the polynomial `0xD5`, most significant bit
/// first.
pub open spec fn crc_step(c: u8) -> u8 {
    if c & 0x80 != 0 {
        (c << 1) ^ 0xD5
    } else {
        c << 1
    }
}

/// The CRC-8 of one byte.
pub open spec fn crc_byte(x: u8) -> u8 {
    crc_step(crc_step(crc_step(crc_step(crc_step(crc_step(crc_step(crc_step(x))))))))
}

/// The CRC-8 of the concatenation of `firstbyte` with `bytes`.
pub open spec fn crc8_spec(firstbyte: u8, bytes: Seq<u8>) -> u8
    decreases bytes.len(),
{
    if bytes.len() == 0 {
        crc_byte(firstbyte)
    } else {
        crc_byte(crc8_spec(firstbyte, bytes.drop_last()) ^ bytes.last())
    }
}

fn step(c: u8) -> (r: u8)
    ensures
        r == crc_step(c),
{
    if c & 0x80 != 0 {
        (c << 1) ^ 0xD5
    } else {
        c << 1
    }
}

/// The entry of the CRC table for `x`
fn crc_table(x: u8) -> (r: u8)
    ensures
        r == crc_byte(x),
{
    step(step(step(step(step(step(step(step(x))))))))
}

/// Computes the CRC-8 of the concatenation of `firstbyte` with `bytes`
///
/// The split between `firstbyte` and `bytes` can be useful as the first byte
/// is a header and its value is set to change at some positions without
/// having to change the computed checksum
pub fn crc8(firstbyte: u8, bytes: &[u8]) -> (crc: u8)
    ensures
        crc == crc8_spec(firstbyte, bytes@),
{
    let mut crc = crc_table(firstbyte);
    let mut i: usize = 0;
    while i < bytes.len()
        invariant
            i <= bytes@.len(),
            crc == crc8_spec(firstbyte, bytes@.take(i as int)),
        decreases bytes@.len() - i,
    {
        proof {
            assert(bytes@.take(i + 1).drop_last() == bytes@.take(i as int));
        }
        crc = crc_table(crc ^ bytes[i]);
        i += 1;
    }
    proof {
        assert(bytes@.take(i as int) == bytes@);
    }
    crc
}

/// Number of bytes of the length field for data of `datalen` bytes.
pub open spec fn lenlen(datalen: int) -> int {
    if datalen <= 0xFF {
        1
    } else {
        4
    }
}

/// Length on flash of a block with a tag of `taglen` bytes and data of
/// `datalen` bytes.
pub open spec fn block_size(taglen: int, datalen: int) -> int {
    2 + lenlen(datalen) + taglen + datalen
}

/// The header of a block with the validity bits `validity`.
pub open spec fn header(validity: u8, taglen: int, datalen: int) -> u8 {
    validity | ((taglen as u8) << 1) | (if datalen <= 0xFF {
        LENLEN_SHORT
    } else {
        LENLEN_LONG
    })
}

/// The length field for data of `datalen` bytes.
pub open spec fn length_field(datalen: int) -> Seq<u8> {
    if datalen <= 0xFF {
        seq![datalen as u8]
    } else {
        seq![
            ((datalen as u32) >> 24) as u8,
            (((datalen as u32) >> 16) & 0xFF) as u8,
            (((datalen as u32) >> 8) & 0xFF) as u8,
            ((datalen as u32) & 0xFF) as u8,
        ]
    }
}

/// What follows the header of a block and is checksummed with it.
pub open spec fn body(tag: Seq<u8>, data: Seq<u8>) -> Seq<u8> {
    length_field(data.len() as int) + tag + data
}

/// The bytes of the block for `tag` and `data` with the validity bits
/// `validity`.
#[verifier::opaque]
pub open spec fn image(validity: u8, tag: Seq<u8>, data: Seq<u8>) -> Seq<u8> {
    seq![header(validity, tag.len() as int, data.len() as int)] + body(tag, data) + seq![
        crc8_spec(header(0, tag.len() as int, data.len() as int), body(tag, data)),
    ]
}

/// Whether a block can be made for a tag of `taglen` bytes and data of
/// `datalen` bytes.
pub open spec fn encodable(taglen: int, datalen: int) -> bool {
    1 <= taglen < TAG_LIMIT && 0 <= datalen <= 0xFFFF_FFFF
}

/// Whether `validity` holds validity bits and no others.
pub open spec fn is_validity(validity: u8) -> bool {
    validity == VALIDITY_NOTYET || validity == VALIDITY_VALID || validity == VALIDITY_NOLONGER
        || validity == 0x80
}

/// What a header holds.
pub proof fn lemma_header_bits(validity: u8, taglen: u8, long: u8)
    by (bit_vector)
    requires
        validity & 0x3F == 0,
        taglen <= 31,
        long <= 1,
    ensures
        ({
            let h = validity | (taglen << 1) | long;
            &&& h & 0xC0 == validity
            &&& (h & 0x3E) >> 1 == taglen
            &&& h & 0x01 == long
            &&& h & !0xC0u8 == (0u8 | (taglen << 1) | long)
            &&& h & (0x00u8 | !0xC0u8) == (0u8 | (taglen << 1) | long)
            &&& h & (0x40u8 | !0xC0u8) == ((validity & 0x40) | (taglen << 1) | long)
            &&& h & (h & (0x40u8 | !0xC0u8)) == ((validity & 0x40) | (taglen << 1) | long)
            &&& h & (h & (0x00u8 | !0xC0u8)) == (0u8 | (taglen << 1) | long)
            &&& (1 <= taglen ==> h != 0)
            &&& (taglen < 31 ==> h != 0xFF)
        }),
{
}

/// The four bytes of a long length field give the length back.
pub proof fn lemma_length_field(d: u32)
    by (bit_vector)
    ensures
        (((d >> 24) as u8 as u32) << 24) | (((((d >> 16) & 0xFF) as u8) as u32) << 16) | (((((d
            >> 8) & 0xFF) as u8) as u32) << 8) | (((d & 0xFF) as u8) as u32) == d,
{
}

/// Length of a block with a given tag and data
pub fn block_len(taglen: usize, datalen: usize) -> (r: usize)
    requires
        taglen + datalen + 6 <= usize::MAX,
    ensures
        r == block_size(taglen as int, datalen as int),
{
    2 +   // Header & checksum
    if datalen > 0xFF {
        4
    } else {
        1
    } +   // Length of data field
    taglen + datalen
}

/// Why no block was found where one was looked for
#[derive(Debug, PartialEq, Eq, Clone, Copy, Structural)]
pub enum ParseNoBlock {
    /// An empty block was found (meaning "end of parsing")
    Empty,
    /// A broken block (ie. wrong checksum) has been found
    Broken,
    /// An erased block (ie. overwritten with 0's) has been found
    ///
    /// The parameter is the size of the erased block
    Erased(usize),
}

/// A block that was found, with the places of its fields counted from its
/// first byte
#[derive(Debug, PartialEq, Eq, Clone, Copy, Structural)]
pub struct Block {
    /// Whether the block is a valid one
    pub valid: bool,
    /// Where the tag starts
    pub tag_start: usize,
    /// Length of the tag
    pub tag_len: usize,
    /// Where the data starts
    pub data_start: usize,
    /// Length of the data
    pub data_len: usize,
    /// Size of the block on flash
    pub size: usize,
}

/// Whether `zone` starts with `n` zero bytes and no more.
pub open spec fn zero_run(zone: Seq<u8>, n: int) -> bool {
    &&& 0 < n <= zone.len()
    &&& forall|j: int| 0 <= j < n ==> zone[j] == 0
    &&& n == zone.len() || zone[n] != 0
}

/// The length that the length field at the index 1 of `zone` gives.
pub open spec fn field_length(zone: Seq<u8>, long: bool) -> int {
    if long {
        (((zone[1] as u32) << 24) | ((zone[2] as u32) << 16) | ((zone[3] as u32) << 8) | (
        zone[4] as u32)) as int
    } else {
        zone[1] as int
    }
}

/// What is found at the beginning of `zone`.
#[verifier::opaque]
pub open spec fn parse(zone: Seq<u8>) -> Result<Block, ParseNoBlock> {
    if zone.len() == 0 {
        Err(ParseNoBlock::Broken)
    } else if zone[0] == 0xFF {
        Err(ParseNoBlock::Empty)
    } else if zone[0] == 0x00 {
        Err(ParseNoBlock::Erased((choose|n: int| zero_run(zone, n)) as usize))
    } else {
        let hdr = zone[0];
        let valid = (hdr & VALIDITY_MASK) == VALIDITY_VALID;
        let taglen = ((hdr & TAGLEN_MASK) >> TAGLEN_SHIFT) as int;
        let long = (hdr & LENLEN_MASK) == LENLEN_LONG;
        let i = if long {
            5int
        } else {
            2int
        };
        if i >= zone.len() {
            Err(ParseNoBlock::Broken)
        } else {
            let len = field_length(zone, long);
            let end = i + taglen + len;
            if end >= zone.len() {
                Err(ParseNoBlock::Broken)
            } else if zone[end] != crc8_spec(hdr & !VALIDITY_MASK, zone.subrange(1, end)) {
                Err(ParseNoBlock::Broken)
            } else {
                Ok(
                    Block {
                        valid,
                        tag_start: i as usize,
                        tag_len: taglen as usize,
                        data_start: (i + taglen) as usize,
                        data_len: len as usize,
                        size: (end + 1) as usize,
                    },
                )
            }
        }
    }
}

/// What holds of the places of the fields of a block found in a zone of
/// `len` bytes.
pub open spec fn shaped(b: Block, len: int) -> bool {
    &&& b.tag_start == 2 || b.tag_start == 5
    &&& b.tag_start == 2 ==> b.data_len <= 0xFF
    &&& b.tag_len <= 31
    &&& b.data_len <= 0xFFFF_FFFF
    &&& b.data_start == b.tag_start + b.tag_len
    &&& b.size == b.data_start + b.data_len + 1
    &&& b.size <= len
}

/// Parses a filesystem block starting at the beginning of `zone`.
///
/// It returns the block on success: whether it is a valid one, where its tag
/// and its data are, and its size on flash.
///
/// # Errors
///
/// It will error out if an empty or erased block was found, or if a broken
/// block was found (ie. invalid checksum, fs block extended past the end of
/// `zone`, etc.)
pub fn parse_hdr(zone: &[u8]) -> (r: Result<Block, ParseNoBlock>)
    ensures
        r == parse(zone@),
        r matches Ok(b) ==> shaped(b, zone@.len() as int) && b.valid == ((zone@[0]
            & VALIDITY_MASK) == VALIDITY_VALID),
        r matches Err(ParseNoBlock::Erased(n)) ==> 0 < n <= zone@.len(),
{
    proof {
        reveal(parse);
    }
    let mut i: usize = 0;
    // Parse header
    if zone.len() == 0 {
        return Err(ParseNoBlock::Broken);
    }
    let hdr = zone[0];
    if hdr == 0xFF {
        return Err(ParseNoBlock::Empty);
    } else if hdr == 0x00 {
        i = 1;
        while i < zone.len() && zone[i] == 0x00
            invariant
                1 <= i <= zone@.len(),
                forall|j: int| 0 <= j < i ==> zone@[j] == 0,
            decreases zone@.len() - i,
        {
            i += 1;
        }
        proof {
            assert(zero_run(zone@, i as int));
            let n = choose|n: int| zero_run(zone@, n);
            assert(zero_run(zone@, n));
            if n < i {
                assert(zone@[n] == 0);
            }
            if i < n {
                assert(zone@[i as int] == 0);
            }
        }
        return Err(ParseNoBlock::Erased(i));
    }
    let valid = (hdr & VALIDITY_MASK) == VALIDITY_VALID;
    let taglen = ((hdr & TAGLEN_MASK) >> TAGLEN_SHIFT) as usize;
    assert(((hdr & 0b00111110u8) >> 1u8) <= 31) by (bit_vector);
    let long = (hdr & LENLEN_MASK) == LENLEN_LONG;
    let lenlen: usize = if long {
        4
    } else {
        1
    };
    i += 1;
    // Parse length of data
    if lenlen >= zone.len() - i {
        return Err(ParseNoBlock::Broken);
    }
    let len: usize = if lenlen == 1 {
        zone[i] as usize
    } else {
        // lenlen == 4
        (((zone[i] as u32) << 24) | ((zone[i + 1] as u32) << 16) | ((zone[i + 2] as u32) << 8) | (
        zone[i + 3] as u32)) as usize
    };
    i += lenlen;
    // Check tag, data and checksum lengths
    let rest = zone.len() - i;
    if taglen >= rest || len >= rest - taglen {
        return Err(ParseNoBlock::Broken);
    }
    // Parse tag and data
    let tag_start = i;
    i += taglen;
    let data_start = i;
    i += len;
    // Parse and check checksum
    let cksum = zone[i];
    if cksum != crc8(hdr & !VALIDITY_MASK, vstd::slice::slice_subrange(zone, 1, i)) {
        return Err(ParseNoBlock::Broken);
    }
    i += 1;
    // And be happy
    Ok(Block { valid, tag_start, tag_len: taglen, data_start, data_len: len, size: i })
}

/// What the header of a block tells.
pub proof fn lemma_header(validity: u8, taglen: int, datalen: int)
    requires
        is_validity(validity),
        0 <= taglen <= 31,
    ensures
        ({
            let h = header(validity, taglen, datalen);
            &&& h & VALIDITY_MASK == validity
            &&& ((h & TAGLEN_MASK) >> TAGLEN_SHIFT) as int == taglen
            &&& (h & LENLEN_MASK == LENLEN_LONG) <==> datalen > 0xFF
            &&& h & !VALIDITY_MASK == header(0, taglen, datalen)
            &&& (1 <= taglen ==> h != 0)
            &&& (taglen < 31 ==> h != 0xFF)
            &&& h & (h & (VALIDITY_NOLONGER | !VALIDITY_MASK)) == header(
                VALIDITY_NOLONGER,
                taglen,
                datalen,
            )
            &&& validity == VALIDITY_NOTYET ==> h & (h & (VALIDITY_VALID | !VALIDITY_MASK))
                == header(VALIDITY_VALID, taglen, datalen)
            &&& 0xFFu8 & h == h
        }),
{
    assert(0xC0u8 & 0x40u8 == 0x40u8 && 0x00u8 | 0x3Fu8 == 0x3Fu8) by (bit_vector);
    let h0 = header(validity, taglen, datalen);
    assert(0xFFu8 & h0 == h0) by (bit_vector);
    let long: u8 = if datalen <= 0xFF {
        0
    } else {
        1
    };
    assert(validity & 0x3F == 0 && 0u8 & 0x3F == 0) by (bit_vector)
        requires
            validity == 0xC0u8 || validity == 0x40u8 || validity == 0x00u8 || validity == 0x80u8,
    ;
    lemma_header_bits(validity, taglen as u8, long);
    lemma_header_bits(0, taglen as u8, long);
}

/// Where the fields of a block lie in its bytes.
pub proof fn lemma_image_parts(validity: u8, tag: Seq<u8>, data: Seq<u8>)
    ensures
        ({
            let img = image(validity, tag, data);
            let i = 1 + lenlen(data.len() as int);
            let end = i + tag.len() + data.len();
            &&& img.len() == block_size(tag.len() as int, data.len() as int)
            &&& img[0] == header(validity, tag.len() as int, data.len() as int)
            &&& img.subrange(1, i) == length_field(data.len() as int)
            &&& img.subrange(1, end) == body(tag, data)
            &&& img.subrange(i, i + tag.len()) == tag
            &&& img.subrange(i + tag.len(), end) == data
            &&& img[end] == crc8_spec(
                header(0, tag.len() as int, data.len() as int),
                body(tag, data),
            )
        }),
{
    reveal(image);
    let img = image(validity, tag, data);
    let i = 1 + lenlen(data.len() as int);
    let end = i + tag.len() + data.len();
    assert(length_field(data.len() as int).len() == lenlen(data.len() as int));
    assert(img.subrange(1, i) =~= length_field(data.len() as int));
    assert(img.subrange(1, end) =~= body(tag, data));
    assert(img.subrange(i, i + tag.len()) =~= tag);
    assert(img.subrange(i + tag.len(), end) =~= data);
}

/// The first byte of a block tells its validity.
pub proof fn lemma_image_header(validity: u8, tag: Seq<u8>, data: Seq<u8>)
    requires
        is_validity(validity),
        encodable(tag.len() as int, data.len() as int),
    ensures
        image(validity, tag, data).len() == block_size(tag.len() as int, data.len() as int),
        image(validity, tag, data)[0] & VALIDITY_MASK == validity,
        image(validity, tag, data)[0] != 0xFF,
{
    lemma_image_parts(validity, tag, data);
    lemma_header(validity, tag.len() as int, data.len() as int);
}

/// No block is found where the first byte is erased.
pub proof fn lemma_parse_empty(zone: Seq<u8>)
    requires
        zone.len() > 0,
        zone[0] == 0xFF,
    ensures
        parse(zone) == Err::<Block, ParseNoBlock>(ParseNoBlock::Empty),
{
    reveal(parse);
}

/// A zone that begins with a run of `n` zeros, and no more, holds `n` bytes
/// that count as a block that was given up.
pub proof fn lemma_parse_zeros(zone: Seq<u8>, n: int)
    requires
        zero_run(zone, n),
    ensures
        parse(zone) == Err::<Block, ParseNoBlock>(ParseNoBlock::Erased(n as usize)),
{
    reveal(parse);
    let m = choose|m: int| zero_run(zone, m);
    assert(zero_run(zone, m));
    if m < n {
        assert(zone[m] == 0);
    } else if m > n {
        assert(zone[n] == 0);
    }
}

/// Blocks for the same tag and data differ in their headers alone.
pub proof fn lemma_image_validity(from: u8, to: u8, tag: Seq<u8>, data: Seq<u8>)
    ensures
        image(from, tag, data).update(0, header(to, tag.len() as int, data.len() as int)) == image(
            to,
            tag,
            data,
        ),
{
    reveal(image);
    assert(image(from, tag, data).update(0, header(to, tag.len() as int, data.len() as int))
        =~= image(to, tag, data));
}

/// The length field gives back the length it was made for.
pub proof fn lemma_field_length(zone: Seq<u8>, datalen: int)
    requires
        0 <= datalen <= 0xFFFF_FFFF,
        zone.len() >= 1 + lenlen(datalen),
        zone.subrange(1, 1 + lenlen(datalen)) == length_field(datalen),
    ensures
        field_length(zone, datalen > 0xFF) == datalen,
{
    let f = length_field(datalen);
    assert(zone[1] == zone.subrange(1, 1 + lenlen(datalen))[0]);
    if datalen > 0xFF {
        assert(zone[2] == zone.subrange(1, 5)[1]);
        assert(zone[3] == zone.subrange(1, 5)[2]);
        assert(zone[4] == zone.subrange(1, 5)[3]);
        lemma_length_field(datalen as u32);
    }
}

/// The block for `tag` and `data` is found where its bytes lie, whatever
/// follows them.
pub proof fn lemma_parse_image(zone: Seq<u8>, validity: u8, tag: Seq<u8>, data: Seq<u8>)
    requires
        encodable(tag.len() as int, data.len() as int),
        is_validity(validity),
        block_size(tag.len() as int, data.len() as int) <= zone.len(),
        zone.len() <= usize::MAX,
        zone.subrange(0, block_size(tag.len() as int, data.len() as int)) == image(
            validity,
            tag,
            data,
        ),
    ensures
        parse(zone) == Ok::<Block, ParseNoBlock>(
            Block {
                valid: validity == VALIDITY_VALID,
                tag_start: (1 + lenlen(data.len() as int)) as usize,
                tag_len: tag.len() as usize,
                data_start: (1 + lenlen(data.len() as int) + tag.len()) as usize,
                data_len: data.len() as usize,
                size: block_size(tag.len() as int, data.len() as int) as usize,
            },
        ),
        zone.subrange(
            1 + lenlen(data.len() as int),
            1 + lenlen(data.len() as int) + tag.len(),
        ) == tag,
        zone.subrange(
            1 + lenlen(data.len() as int) + tag.len(),
            1 + lenlen(data.len() as int) + tag.len() + data.len(),
        ) == data,
{
    reveal(parse);
    let taglen = tag.len() as int;
    let datalen = data.len() as int;
    let size = block_size(taglen, datalen);
    let img = image(validity, tag, data);
    let i = 1 + lenlen(datalen);
    let end = i + taglen + datalen;
    let front = zone.subrange(0, size);
    lemma_header(validity, taglen, datalen);
    lemma_image_parts(validity, tag, data);
    assert(zone[0] == front[0]);
    assert(zone[end] == front[end]);
    assert(zone.subrange(1, i) =~= front.subrange(1, i));
    assert(zone.subrange(1, end) =~= front.subrange(1, end));
    assert(zone.subrange(i, i + taglen) =~= front.subrange(i, i + taglen));
    assert(zone.subrange(i + taglen, end) =~= front.subrange(i + taglen, end));
    lemma_field_length(zone, datalen);
}

} // verus!
