//! The chain of blocks a container is made of, read one block at a time.

use super::fault;
use super::fault::Fault;
use super::fault::VERSION;
use super::meatpack;
use super::metadata;
use super::packing;
use super::packing::Compression;
use crate::text;
use vstd::prelude::*;
use vstd::string::*;

verus! {

/// Bytes of the file's own header.
pub const HEADER: usize = 10;

pub const GCODE_BLOCK: u16 = 1;

/// A block's trailing CRC32, when the file carries checksums at all.
pub const CHECKSUM: usize = 4;

/// One bit is shifted out of a checksum, the polynomial of IEEE 802.3 taken from
/// what is left where that bit was set.
pub open spec fn crc_bit(sum: u32) -> u32 {
    if sum & 1 == 1 {
        (sum >> 1) ^ 0xedb8_8320
    } else {
        sum >> 1
    }
}

/// `count` bits are shifted out of a checksum.
pub open spec fn crc_bits(sum: u32, count: nat) -> u32
    decreases count,
{
    if count == 0 {
        sum
    } else {
        crc_bit(crc_bits(sum, (count - 1) as nat))
    }
}

/// The checksum of some bytes before its bits are turned over.
pub open spec fn crc_over(bytes: Seq<u8>) -> u32
    decreases bytes.len(),
{
    if bytes.len() == 0 {
        0xffff_ffff
    } else {
        crc_bits(crc_over(bytes.drop_last()) ^ (bytes.last() as u32), 8)
    }
}

/// The CRC32 of some bytes.
pub open spec fn crc32(bytes: Seq<u8>) -> u32 {
    crc_over(bytes) ^ 0xffff_ffff
}

/// `crc32fast::hash` gives the IEEE CRC32 of the bytes: that of zlib and of
/// Ethernet, bits reflected, starting from all ones and turned over at the end.
pub assume_specification[ crc32fast::hash ](buf: &[u8]) -> (sum: u32)
    ensures
        sum == crc32(buf@),
;

/// Two bytes as a number, the low one first.
pub open spec fn le16(bytes: Seq<u8>, at: int) -> u16 {
    (bytes[at] + 0x100 * bytes[at + 1]) as u16
}

/// Four bytes as a number, the lowest first.
pub open spec fn le32(bytes: Seq<u8>, at: int) -> u32 {
    (bytes[at] + 0x100 * bytes[at + 1] + 0x1_0000 * bytes[at + 2] + 0x100_0000 * bytes[at
        + 3]) as u32
}

/// A number as two bytes, the low one first.
pub open spec fn bytes16(number: u16) -> Seq<u8> {
    seq![(number % 0x100) as u8, (number / 0x100) as u8]
}

/// A number as four bytes, the lowest first.
pub open spec fn bytes32(number: u32) -> Seq<u8> {
    seq![
        (number % 0x100) as u8,
        (number / 0x100 % 0x100) as u8,
        (number / 0x1_0000 % 0x100) as u8,
        (number / 0x100_0000) as u8,
    ]
}

pub fn read16(bytes: &[u8], at: usize) -> (number: u16)
    requires
        at + 2 <= bytes.len(),
    ensures
        number == le16(bytes@, at as int),
{
    bytes[at] as u16 + 0x100 * bytes[at + 1] as u16
}

pub fn read32(bytes: &[u8], at: usize) -> (number: u32)
    requires
        at + 4 <= bytes.len(),
    ensures
        number == le32(bytes@, at as int),
{
    bytes[at] as u32 + 0x100 * bytes[at + 1] as u32 + 0x1_0000 * bytes[at + 2] as u32 + 0x100_0000
        * bytes[at + 3] as u32
}

pub fn push16(out: &mut Vec<u8>, number: u16)
    ensures
        final(out)@ == old(out)@ + bytes16(number),
{
    let ghost before = out@;
    out.push((number % 0x100) as u8);
    out.push((number / 0x100) as u8);
    assert(out@ =~= before + bytes16(number));
}

pub fn push32(out: &mut Vec<u8>, number: u32)
    ensures
        final(out)@ == old(out)@ + bytes32(number),
{
    let ghost before = out@;
    out.push((number % 0x100) as u8);
    out.push((number / 0x100 % 0x100) as u8);
    out.push((number / 0x1_0000 % 0x100) as u8);
    out.push((number / 0x100_0000) as u8);
    assert(out@ =~= before + bytes32(number));
}

/// The file starts with a container's magic number.
pub open spec fn magic(file: Seq<u8>) -> bool {
    &&& file.len() >= 4
    &&& file[0] == 0x47
    &&& file[1] == 0x43
    &&& file[2] == 0x44
    &&& file[3] == 0x45
}

/// The ten bytes a file starts with: its version and whether its blocks carry
/// checksums.
pub open spec fn file_header_of(file: Seq<u8>) -> Result<(u32, bool), Fault> {
    if file.len() < HEADER || !magic(file) {
        Err(Fault::Magic)
    } else if le32(file, 4) > VERSION {
        Err(Fault::Version(le32(file, 4)))
    } else if le16(file, 8) > 1 {
        Err(Fault::ChecksumType(le16(file, 8)))
    } else {
        Ok((le32(file, 4), le16(file, 8) == 1))
    }
}

/// A block's fixed part: everything before its payload.
#[derive(Clone, Copy, Debug, PartialEq, Eq, Structural)]
pub struct Header {
    pub kind: u16,
    pub packing: Compression,
    pub uncompressed: usize,
    pub stored: usize,
    pub encoding: u16,
    /// Bytes the fixed part itself takes.
    pub size: usize,
}

/// Bytes of a block's parameters: metadata and G-code blocks name an encoding,
/// thumbnails a format and their dimensions.
pub open spec fn parameters(kind: u16) -> Option<nat> {
    if kind <= 4 {
        Some(2)
    } else if kind == 5 {
        Some(6)
    } else {
        None
    }
}

/// The header of the block that `rest`, which is at `at` in the file, starts
/// with.
#[verifier::opaque]
pub open spec fn header_of(rest: Seq<u8>, at: nat) -> Result<Header, Fault> {
    if rest.len() < 4 {
        Err(Fault::Truncated(at))
    } else {
        match Compression::numbered(le16(rest, 2)) {
            None => Err(Fault::CompressionType(le16(rest, 2))),
            Some(packing) => match parameters(le16(rest, 0)) {
                None => Err(Fault::BlockType(le16(rest, 0))),
                Some(parameters) => {
                    let sizes: int = if packing == Compression::Stored {
                        4
                    } else {
                        8
                    };
                    let size = 4 + sizes + parameters;
                    if rest.len() < size {
                        Err(Fault::Truncated(at))
                    } else {
                        Ok(
                            Header {
                                kind: le16(rest, 0),
                                packing,
                                uncompressed: le32(rest, 4) as usize,
                                stored: le32(rest, sizes) as usize,
                                encoding: le16(rest, 4 + sizes),
                                size: size as usize,
                            },
                        )
                    }
                },
            },
        }
    }
}

/// Bytes of checksum behind every payload.
pub open spec fn trailer(checksums: bool) -> nat {
    if checksums {
        CHECKSUM as nat
    } else {
        0
    }
}

/// Bytes a whole block takes.
pub open spec fn extent(header: Header, checksums: bool) -> nat {
    header.size as nat + header.stored as nat + trailer(checksums)
}

/// The header of the block that `rest` starts with, where the whole of it is
/// there.
#[verifier::opaque]
pub open spec fn block_of(rest: Seq<u8>, at: nat, checksums: bool) -> Result<Header, Fault> {
    match header_of(rest, at) {
        Err(fault) => Err(fault),
        Ok(header) => if rest.len() < extent(header, checksums) {
            Err(Fault::Truncated(at))
        } else {
            Ok(header)
        },
    }
}

/// A block that is there takes up some of what is left, and no more than that.
pub proof fn lemma_block_of(rest: Seq<u8>, at: nat, checksums: bool)
    ensures
        chain_step(rest, at, checksums),
{
    reveal(header_of);
    reveal(block_of);
}

/// The block that `rest` starts with, if there is one, lies within it.
pub open spec fn chain_step(rest: Seq<u8>, at: nat, checksums: bool) -> bool {
    block_of(rest, at, checksums) is Ok ==> 10 <= extent(
        block_of(rest, at, checksums)->Ok_0,
        checksums,
    ) <= rest.len()
}

/// A block's checksum is that of the rest of it.
pub open spec fn adds_up(block: Seq<u8>, checksums: bool) -> bool {
    checksums ==> crc32(block.take(block.len() - CHECKSUM)) == le32(block, block.len() - CHECKSUM)
}

/// The stored payload of a block, between its header and its checksum.
pub open spec fn payload_of(block: Seq<u8>, header: Header) -> Seq<u8> {
    block.subrange(header.size as int, header.size + header.stored)
}

/// What a block's payload unpacks to.
pub open spec fn contents(block: Seq<u8>, header: Header) -> Result<Seq<u8>, Fault> {
    packing::unpacked(payload_of(block, header), header.packing, header.uncompressed as nat)
}

/// The text of a G-code block that stands at `at`.
#[verifier::opaque]
pub open spec fn gcode_of(block: Seq<u8>, header: Header, at: nat, checksums: bool) -> Result<
    Seq<u8>,
    Fault,
> {
    if !adds_up(block, checksums) {
        Err(Fault::Checksum(at))
    } else {
        match contents(block, header) {
            Err(fault) => Err(fault),
            Ok(raw) => if header.encoding == 0 {
                Ok(raw)
            } else if header.encoding == 1 || header.encoding == 2 {
                Ok(meatpack::decoded(raw))
            } else {
                Err(Fault::Encoding(header.encoding))
            },
        }
    }
}

/// The G-code of the blocks from `at` on: all the text before the chain ends,
/// or all before the first fault, and that fault.
pub open spec fn gcode_from(rest: Seq<u8>, at: nat, checksums: bool) -> (Seq<u8>, Option<Fault>)
    decreases rest.len(),
{
    if rest.len() == 0 {
        (seq![], None)
    } else {
        match block_of(rest, at, checksums) {
            Err(fault) => (seq![], Some(fault)),
            Ok(header) => {
                let length = extent(header, checksums);
                proof {
                    lemma_block_of(rest, at, checksums);
                }
                let (more, end) = gcode_from(rest.skip(length as int), at + length, checksums);
                if header.kind != GCODE_BLOCK {
                    (more, end)
                } else {
                    match gcode_of(rest.take(length as int), header, at, checksums) {
                        Err(fault) => (seq![], Some(fault)),
                        Ok(text) => (text + more, end),
                    }
                }
            },
        }
    }
}

/// Bytes that have been read of a block when it turns out that it is none: as
/// far as its kind and its packing where one of those is unknown, and all there
/// are where they are too few.
pub open spec fn spent(rest: Seq<u8>) -> nat {
    if rest.len() >= 4 && (Compression::numbered(le16(rest, 2)) is None || parameters(
        le16(rest, 0),
    ) is None) {
        4
    } else {
        rest.len()
    }
}

/// The text of the next G-code block from `at` on and where that block ends, or
/// nothing where no G-code block is left. A fault comes with the place where
/// reading goes on behind it.
pub open spec fn next_gcode(rest: Seq<u8>, at: nat, checksums: bool) -> Result<
    Option<(Seq<u8>, nat)>,
    (Fault, nat),
>
    decreases rest.len(),
{
    if rest.len() == 0 {
        Ok(None)
    } else {
        match block_of(rest, at, checksums) {
            Err(fault) => Err((fault, at + spent(rest))),
            Ok(header) => {
                let length = extent(header, checksums);
                proof {
                    lemma_block_of(rest, at, checksums);
                }
                if header.kind != GCODE_BLOCK {
                    next_gcode(rest.skip(length as int), at + length, checksums)
                } else {
                    match gcode_of(rest.take(length as int), header, at, checksums) {
                        Err(fault) => Err((fault, at + length)),
                        Ok(text) => Ok(Some((text, at + length))),
                    }
                }
            },
        }
    }
}

/// The next G-code block lies within what is left.
pub proof fn lemma_next_gcode(rest: Seq<u8>, at: nat, checksums: bool)
    ensures
        next_gcode(rest, at, checksums) matches Ok(Some((_, end))) ==> at < end <= at + rest.len(),
        next_gcode(rest, at, checksums) matches Err((_, end)) ==> at < end <= at + rest.len(),
    decreases rest.len(),
{
    if rest.len() > 0 {
        lemma_block_of(rest, at, checksums);
        if let Ok(header) = block_of(rest, at, checksums) {
            let length = extent(header, checksums);
            if header.kind != GCODE_BLOCK {
                lemma_next_gcode(rest.skip(length as int), at + length, checksums);
            }
        }
    }
}

/// The text of the next G-code block that holds any, and where that block ends.
pub open spec fn next_text(rest: Seq<u8>, at: nat, checksums: bool) -> Result<
    Option<(Seq<u8>, nat)>,
    (Fault, nat),
>
    decreases rest.len(),
{
    match next_gcode(rest, at, checksums) {
        Ok(Some((text, end))) => if text.len() > 0 {
            Ok(Some((text, end)))
        } else {
            proof {
                lemma_next_gcode(rest, at, checksums);
            }
            next_text(rest.skip(end - at), end, checksums)
        },
        other => other,
    }
}

/// Where reading all the text from `at` on stops: where the chain ends, or behind
/// the first fault.
pub open spec fn read_upto(rest: Seq<u8>, at: nat, checksums: bool) -> nat
    decreases rest.len(),
{
    match next_gcode(rest, at, checksums) {
        Ok(Some((text, end))) => {
            proof {
                lemma_next_gcode(rest, at, checksums);
            }
            read_upto(rest.skip(end - at), end, checksums)
        },
        Ok(None) => at + rest.len(),
        Err((_, end)) => end,
    }
}

/// All the text is that of the next G-code block and all behind it.
pub proof fn lemma_gcode_from(rest: Seq<u8>, at: nat, checksums: bool)
    ensures
        match next_gcode(rest, at, checksums) {
            Ok(Some((text, end))) => {
                let (more, fault) = gcode_from(rest.skip(end - at), end, checksums);
                gcode_from(rest, at, checksums) == (text + more, fault)
            },
            Ok(None) => gcode_from(rest, at, checksums) == (Seq::<u8>::empty(), None::<Fault>),
            Err((fault, _)) => gcode_from(rest, at, checksums) == (
                Seq::<u8>::empty(),
                Some(fault),
            ),
        },
    decreases rest.len(),
{
    if rest.len() > 0 {
        lemma_block_of(rest, at, checksums);
        if let Ok(header) = block_of(rest, at, checksums) {
            let length = extent(header, checksums);
            if header.kind != GCODE_BLOCK {
                let next = rest.skip(length as int);
                lemma_gcode_from(next, at + length, checksums);
                lemma_next_gcode(next, at + length, checksums);
                if let Ok(Some((_, end))) = next_gcode(next, at + length, checksums) {
                    assert(next.skip(end - (at + length)) =~= rest.skip(end - at));
                }
            }
        }
    }
}

/// All the text, and where reading it stops, go by the next block that holds
/// any.
pub proof fn lemma_next_text(rest: Seq<u8>, at: nat, checksums: bool)
    ensures
        match next_text(rest, at, checksums) {
            Ok(Some((text, end))) => {
                let next = rest.skip(end - at);
                let (more, fault) = gcode_from(next, end, checksums);
                &&& at < end <= at + rest.len()
                &&& text.len() > 0
                &&& gcode_from(rest, at, checksums) == (text + more, fault)
                &&& read_upto(rest, at, checksums) == read_upto(next, end, checksums)
            },
            Ok(None) => {
                &&& gcode_from(rest, at, checksums) == (Seq::<u8>::empty(), None::<Fault>)
                &&& read_upto(rest, at, checksums) == at + rest.len()
            },
            Err((fault, end)) => {
                &&& at < end <= at + rest.len()
                &&& gcode_from(rest, at, checksums) == (Seq::<u8>::empty(), Some(fault))
                &&& read_upto(rest, at, checksums) == end
            },
        },
    decreases rest.len(),
{
    lemma_next_gcode(rest, at, checksums);
    lemma_gcode_from(rest, at, checksums);
    if let Ok(Some((text, end))) = next_gcode(rest, at, checksums) {
        if text.len() == 0 {
            let next = rest.skip(end - at);
            lemma_next_text(next, end, checksums);
            let (more, fault) = gcode_from(next, end, checksums);
            assert(text + more =~= more);
            if let Ok(Some((_, last))) = next_text(next, end, checksums) {
                assert(next.skip(last - end) =~= rest.skip(last - at));
            }
        }
    }
}

/// What a walk over the chain keeps.
#[verifier::ext_equal]
pub struct Kept {
    /// Every block that is not G-code, byte for byte.
    pub prelude: Seq<u8>,
    /// The compression of the last G-code block.
    pub compression: Compression,
    /// Every layer height the metadata states, in order.
    pub layer_heights: Seq<Seq<u8>>,
    /// Every first layer height the metadata states, in order.
    pub first_layer_heights: Seq<Seq<u8>>,
    /// The first width the metadata states for the inner walls.
    pub wall_width: Option<Seq<u8>>,
    /// The first nozzle diameter the metadata states.
    pub nozzle: Option<Seq<u8>>,
}

/// The width a metadata block states for the inner walls.
pub open spec fn stated_width(ini: Seq<u8>) -> Option<Seq<u8>> {
    match metadata::stated(ini, text::bytes("perimeter_extrusion_width"@)) {
        Some(width) => Some(width),
        None => metadata::stated(ini, text::bytes("inner_wall_line_width"@)),
    }
}

/// What has been kept once a block that is not G-code has been passed. One that
/// does not unpack states nothing, and is kept all the same.
#[verifier::opaque]
pub open spec fn noted(kept: Kept, block: Seq<u8>, header: Header) -> Kept {
    let prelude = kept.prelude + block;
    match contents(block, header) {
        Err(fault) => Kept { prelude, ..kept },
        Ok(ini) => Kept {
            prelude,
            layer_heights: match metadata::stated(ini, text::bytes("layer_height"@)) {
                Some(height) => kept.layer_heights.push(height),
                None => kept.layer_heights,
            },
            first_layer_heights: match metadata::stated(
                ini,
                text::bytes("first_layer_height"@),
            ) {
                Some(height) => kept.first_layer_heights.push(height),
                None => kept.first_layer_heights,
            },
            wall_width: if kept.wall_width is Some {
                kept.wall_width
            } else {
                stated_width(ini)
            },
            nozzle: if kept.nozzle is Some {
                kept.nozzle
            } else {
                metadata::stated(ini, text::bytes("nozzle_diameter"@))
            },
            ..kept
        },
    }
}

/// What a walk over the chain from `at` on keeps, given what it kept before.
/// G-code blocks are stepped over, so only the others have to add up.
pub open spec fn walked(rest: Seq<u8>, at: nat, checksums: bool, kept: Kept) -> Result<Kept, Fault>
    decreases rest.len(),
{
    if rest.len() == 0 {
        Ok(kept)
    } else {
        match block_of(rest, at, checksums) {
            Err(fault) => Err(fault),
            Ok(header) => {
                let length = extent(header, checksums);
                let block = rest.take(length as int);
                let next = rest.skip(length as int);
                proof {
                    lemma_block_of(rest, at, checksums);
                }
                if header.kind == GCODE_BLOCK {
                    walked(
                        next,
                        at + length,
                        checksums,
                        Kept { compression: header.packing, ..kept },
                    )
                } else if !adds_up(block, checksums) {
                    Err(Fault::Checksum(at))
                } else {
                    walked(next, at + length, checksums, noted(kept, block, header))
                }
            },
        }
    }
}

/// What a walk has kept before it starts.
pub open spec fn nothing() -> Kept {
    Kept {
        prelude: seq![],
        compression: Compression::Heatshrink12,
        layer_heights: seq![],
        first_layer_heights: seq![],
        wall_width: None,
        nozzle: None,
    }
}

/// Whether the bytes start with a container's magic number.
pub fn is_magic(bytes: &[u8]) -> (binary: bool)
    ensures
        binary == magic(bytes@),
{
    bytes.len() >= 4 && bytes[0] == 0x47 && bytes[1] == 0x43 && bytes[2] == 0x44 && bytes[3] == 0x45
}

/// Reads the ten byte file header.
pub fn file_header(file: &[u8]) -> (head: Result<(u32, bool), String>)
    ensures
        head is Ok == file_header_of(file@) is Ok,
        head is Ok ==> head->Ok_0 == file_header_of(file@)->Ok_0,
        head is Err ==> head->Err_0@ == fault::told(file_header_of(file@)->Err_0),
{
    if file.len() < HEADER || !is_magic(file) {
        return Err(String::from_str("missing GCDE magic number"));
    }
    let version = read32(file, 4);
    if version > VERSION {
        return Err(fault::newer_version(version));
    }
    let kind = read16(file, 8);
    if kind > 1 {
        return Err(text::phrase("unknown checksum type ", kind as u64));
    }
    Ok((version, kind == 1))
}

/// Bytes of a block's parameters.
fn parameters_size(kind: u16) -> (size: Option<usize>)
    ensures
        size is Some == parameters(kind) is Some,
        size is Some ==> size->0 == parameters(kind)->0,
{
    if kind <= 4 {
        Some(2)
    } else if kind == 5 {
        Some(6)
    } else {
        None
    }
}

/// Reads the header of the block at `at`.
pub fn read_header(file: &[u8], at: usize) -> (head: Result<Header, String>)
    requires
        at <= file.len(),
    ensures
        head is Ok == header_of(file@.skip(at as int), at as nat) is Ok,
        head is Ok ==> head->Ok_0 == header_of(file@.skip(at as int), at as nat)->Ok_0,
        head is Err ==> head->Err_0@ == fault::told(
            header_of(file@.skip(at as int), at as nat)->Err_0,
        ),
{
    let rest = &file[at..file.len()];
    proof {
        reveal(header_of);
    }
    assert(rest@ =~= file@.skip(at as int));
    if rest.len() < 4 {
        return Err(text::phrase("file ends inside the block at byte ", at as u64));
    }
    let kind = read16(rest, 0);
    let code = read16(rest, 2);
    let packing = match Compression::from_code(code) {
        Some(packing) => packing,
        None => {
            return Err(text::phrase("unknown compression type ", code as u64));
        },
    };
    let sizes: usize = if packing == Compression::Stored {
        4
    } else {
        8
    };
    let size = match parameters_size(kind) {
        Some(parameters) => 4 + sizes + parameters,
        None => {
            return Err(text::phrase("unknown block type ", kind as u64));
        },
    };
    if rest.len() < size {
        return Err(text::phrase("file ends inside the block at byte ", at as u64));
    }
    Ok(
        Header {
            kind,
            packing,
            uncompressed: read32(rest, 4) as usize,
            stored: read32(rest, sizes) as usize,
            encoding: read16(rest, 4 + sizes),
            size,
        },
    )
}

/// Reads the header of the block at `at`, once the whole block is known to be
/// there, and where the block ends.
///
/// The length comes out of the file, so it is never reserved for: a corrupt one
/// has to fail as a short file.
pub fn read_block(file: &[u8], at: usize, checksums: bool) -> (found: Result<
    (Header, usize),
    String,
>)
    requires
        at <= file.len(),
    ensures
        found is Ok == block_of(file@.skip(at as int), at as nat, checksums) is Ok,
        found is Ok ==> {
            &&& found->Ok_0.0 == block_of(file@.skip(at as int), at as nat, checksums)->Ok_0
            &&& found->Ok_0.1 == at + extent(found->Ok_0.0, checksums)
            &&& at + 4 <= found->Ok_0.1 <= file.len()
        },
        found is Err ==> found->Err_0@ == fault::told(
            block_of(file@.skip(at as int), at as nat, checksums)->Err_0,
        ),
{
    proof {
        reveal(block_of);
        reveal(header_of);
    }
    let header = match read_header(file, at) {
        Ok(header) => header,
        Err(reason) => {
            return Err(reason);
        },
    };
    let trailer: usize = if checksums {
        CHECKSUM
    } else {
        0
    };
    let left = file.len() - at;
    if left - header.size < header.stored || left - header.size - header.stored < trailer {
        return Err(text::phrase("file ends inside the block at byte ", at as u64));
    }
    Ok((header, at + header.size + header.stored + trailer))
}

/// Where reading goes on behind a block that cannot be read.
pub fn fault_end(file: &[u8], at: usize) -> (end: usize)
    requires
        at <= file.len(),
    ensures
        end == at + spent(file@.skip(at as int)),
{
    let rest = &file[at..file.len()];
    assert(rest@ =~= file@.skip(at as int));
    if rest.len() >= 4 {
        let packed = Compression::from_code(read16(rest, 2));
        let sized = parameters_size(read16(rest, 0));
        if packed.is_none() || sized.is_none() {
            return at + 4;
        }
    }
    file.len()
}

/// Whether a block's checksum is that of the rest of it.
pub fn verify(block: &[u8], checksums: bool) -> (sound: bool)
    requires
        checksums ==> block.len() >= CHECKSUM,
    ensures
        sound == adds_up(block@, checksums),
{
    if !checksums {
        return true;
    }
    let split = block.len() - CHECKSUM;
    let covered = &block[0..split];
    assert(covered@ =~= block@.take(split as int));
    crc32fast::hash(covered) == read32(block, split)
}

/// Unpacks a block's payload.
pub fn read_contents(block: &[u8], header: &Header) -> (data: Result<Vec<u8>, String>)
    requires
        header.size + header.stored <= block.len(),
    ensures
        data is Ok == contents(block@, *header) is Ok,
        data is Ok ==> data->Ok_0@ == contents(block@, *header)->Ok_0,
        data is Err ==> data->Err_0@ == fault::told(contents(block@, *header)->Err_0),
{
    let stored = &block[header.size..header.size + header.stored];
    packing::decompress(stored, header.packing, header.uncompressed)
}

/// Decodes the text of a G-code block that stands at `at`.
pub fn read_gcode(block: &[u8], header: &Header, at: usize, checksums: bool) -> (text: Result<
    Vec<u8>,
    String,
>)
    requires
        block.len() == extent(*header, checksums),
    ensures
        text is Ok == gcode_of(block@, *header, at as nat, checksums) is Ok,
        text is Ok ==> text->Ok_0@ == gcode_of(block@, *header, at as nat, checksums)->Ok_0,
        text is Err ==> text->Err_0@ == fault::told(
            gcode_of(block@, *header, at as nat, checksums)->Err_0,
        ),
{
    proof {
        reveal(gcode_of);
    }
    if !verify(block, checksums) {
        return Err(text::phrase("checksum mismatch in the block at byte ", at as u64));
    }
    let raw = match read_contents(block, header) {
        Ok(raw) => raw,
        Err(reason) => {
            return Err(reason);
        },
    };
    match header.encoding {
        0 => Ok(raw),
        1 | 2 => Ok(meatpack::decode(raw.as_slice())),
        other => Err(text::phrase("unknown G-code encoding ", other as u64)),
    }
}

} // verus!
