//! The layout of a container, block by block.
//!
//! Nothing here is run. A block is described by its fields and the bytes that
//! stand for it, and what is read out of those bytes, or written as them, is
//! held to that.

use super::chain;
use super::chain::Header;
use super::chain::Kept;
use super::fault::Fault;
use super::layout;
use super::meatpack;
use super::metadata;
use super::packing;
use super::packing::Compression;
use crate::text;
use vstd::prelude::*;

verus! {

/// A block by its fields.
pub struct Block {
    pub kind: nat,
    pub packing: nat,
    /// Bytes the payload unpacks to.
    pub promised: nat,
    pub parameters: Seq<u8>,
    pub payload: Seq<u8>,
}

/// A number in two bytes, the low one first.
pub open spec fn two(value: nat) -> Seq<u8> {
    seq![(value % 256) as u8, (value / 256 % 256) as u8]
}

/// A number in four bytes, the lowest first.
pub open spec fn four(value: nat) -> Seq<u8> {
    two(value % 65536) + two(value / 65536)
}

/// A block the container knows: six kinds, of which the last is a picture with
/// six bytes of parameters where the others have two, and four ways to pack. What
/// is not packed is as long as it unpacks to.
pub open spec fn known(block: Block) -> bool {
    &&& block.kind <= 5
    &&& block.packing <= 3
    &&& block.promised < 4294967296
    &&& block.payload.len() < 4294967296
    &&& block.parameters.len() == if block.kind == 5 {
        6nat
    } else {
        2
    }
    &&& block.packing == 0 ==> block.promised == block.payload.len()
}

/// What stands before a block's payload: its kind, its packing, how long it
/// unpacks to, how long it is where it is packed, and its parameters.
#[verifier::opaque]
pub open spec fn front(block: Block) -> Seq<u8> {
    two(block.kind) + two(block.packing) + four(block.promised) + (if block.packing == 0 {
        seq![]
    } else {
        four(block.payload.len())
    }) + block.parameters
}

/// The bytes of a block: its front, its payload and the checksum of both where
/// the file has them.
pub open spec fn laid(block: Block, checksums: bool) -> Seq<u8> {
    let body = front(block) + block.payload;
    if checksums {
        body + four(chain::crc32(body) as nat)
    } else {
        body
    }
}

proof fn lemma_two(raw: Seq<u8>, at: int, value: nat)
    requires
        0 <= at,
        at + 2 <= raw.len(),
        value < 65536,
        raw.subrange(at, at + 2) == two(value),
    ensures
        chain::le16(raw, at) == value,
{
    let part = raw.subrange(at, at + 2);
    assert(part[0] == raw[at] && part[1] == raw[at + 1]);
}

proof fn lemma_four(raw: Seq<u8>, at: int, value: nat)
    requires
        0 <= at,
        at + 4 <= raw.len(),
        value < 4294967296,
        raw.subrange(at, at + 4) == four(value),
    ensures
        chain::le32(raw, at) == value,
{
    let part = raw.subrange(at, at + 4);
    assert(part[0] == raw[at] && part[1] == raw[at + 1] && part[2] == raw[at + 2] && part[3]
        == raw[at + 3]);
}

/// Where the fields of a block's front stand.
proof fn lemma_front(block: Block, behind: Seq<u8>)
    requires
        known(block),
    ensures
        ({
            let raw = front(block) + behind;
            let sizes: int = if block.packing == 0 {
                4
            } else {
                8
            };
            &&& front(block).len() == 4 + sizes + block.parameters.len()
            &&& raw.len() >= front(block).len()
            &&& chain::le16(raw, 0) == block.kind
            &&& chain::le16(raw, 2) == block.packing
            &&& chain::le32(raw, 4) == block.promised
            &&& chain::le32(raw, sizes) == block.payload.len()
            &&& chain::le16(raw, 4 + sizes) == block.parameters[0] + 256 * block.parameters[1]
        }),
{
    reveal(front);
    let raw = front(block) + behind;
    assert(raw.subrange(0, 2) =~= two(block.kind));
    assert(raw.subrange(2, 4) =~= two(block.packing));
    assert(raw.subrange(4, 8) =~= four(block.promised));
    lemma_two(raw, 0, block.kind);
    lemma_two(raw, 2, block.packing);
    lemma_four(raw, 4, block.promised);
    if block.packing != 0 {
        assert(raw.subrange(8, 12) =~= four(block.payload.len()));
        lemma_four(raw, 8, block.payload.len());
        assert(raw[12] == block.parameters[0]);
        assert(raw[13] == block.parameters[1]);
    } else {
        assert(raw[8] == block.parameters[0]);
        assert(raw[9] == block.parameters[1]);
    }
}

/// The header of a block whose payload is there, and something behind it.
proof fn lemma_header(block: Block, tail: Seq<u8>, at: nat, checksums: bool) -> (header: Header)
    requires
        known(block),
        tail.len() >= if checksums {
            4nat
        } else {
            0
        },
    ensures
        chain::block_of(front(block) + block.payload + tail, at, checksums) == Ok::<Header, Fault>(
            header,
        ),
        chain::header_of(front(block) + block.payload + tail, at) == Ok::<Header, Fault>(header),
        header.kind == block.kind,
        Compression::numbered(block.packing as u16) == Some(header.packing),
        header.uncompressed == block.promised,
        header.stored == block.payload.len(),
        header.encoding == block.parameters[0] + 256 * block.parameters[1],
        header.size == front(block).len(),
        front(block).len() >= 10,
{
    reveal(chain::header_of);
    reveal(chain::block_of);
    let raw = front(block) + block.payload + tail;
    assert(raw =~= front(block) + (block.payload + tail));
    lemma_front(block, block.payload + tail);
    assert(raw.len() >= front(block).len() + block.payload.len() + tail.len());
    chain::block_of(raw, at, checksums)->Ok_0
}

/// A checksum that stands behind a block is read as it is.
proof fn lemma_sum(body: Seq<u8>, sum: u32)
    ensures
        ({
            let whole = body + four(sum as nat);
            &&& whole.len() == body.len() + 4
            &&& whole.take(whole.len() - 4) == body
            &&& chain::le32(whole, whole.len() - 4) == sum
        }),
{
    let whole = body + four(sum as nat);
    assert(whole.take(whole.len() - 4) =~= body);
    assert(whole.subrange(whole.len() - 4, whole.len() as int) =~= four(sum as nat));
    lemma_four(whole, whole.len() - 4, sum as nat);
}

/// A block is read as it is laid out, whatever stands behind it.
pub proof fn a_block_is_read_as_it_is_laid_out(
    block: Block,
    rest: Seq<u8>,
    at: nat,
    checksums: bool,
) -> (header: Header)
    requires
        known(block),
    ensures
        chain::block_of(laid(block, checksums) + rest, at, checksums) == Ok::<Header, Fault>(header),
        header.kind == block.kind,
        Compression::numbered(block.packing as u16) == Some(header.packing),
        header.uncompressed == block.promised,
        header.stored == block.payload.len(),
        header.encoding == block.parameters[0] + 256 * block.parameters[1],
        chain::extent(header, checksums) == laid(block, checksums).len(),
        laid(block, checksums).len() >= 10 + block.payload.len(),
        chain::payload_of(laid(block, checksums), header) == block.payload,
        chain::adds_up(laid(block, checksums), checksums),
        chain::contents(laid(block, checksums), header) == packing::unpacked(
            block.payload,
            header.packing,
            block.promised,
        ),
{
    let whole = laid(block, checksums);
    let body = front(block) + block.payload;
    let sum = chain::crc32(body);
    let tail = if checksums {
        four(sum as nat) + rest
    } else {
        rest
    };
    assert(whole + rest =~= body + tail);
    let header = lemma_header(block, tail, at, checksums);
    lemma_sum(body, sum);
    assert(whole.subrange(header.size as int, header.size + header.stored) =~= block.payload);
    header
}

/// The text of a file is that of its blocks of the first kind, in order: a
/// block's payload unpacked, and decoded where its parameters say that it is
/// encoded. Blocks of the other kinds hold none.
pub proof fn the_text_of_a_file_is_that_of_its_text_blocks(
    block: Block,
    rest: Seq<u8>,
    at: nat,
    checksums: bool,
)
    requires
        known(block),
        block.parameters[1] == 0,
    ensures
        ({
            let whole = laid(block, checksums);
            let made = chain::gcode_from(whole + rest, at, checksums);
            let more = chain::gcode_from(rest, at + whole.len(), checksums);
            let text = packing::unpacked(
                block.payload,
                Compression::numbered(block.packing as u16)->0,
                block.promised,
            );
            &&& block.kind != 1 ==> made == more
            &&& block.kind == 1 && text is Ok && block.parameters[0] == 0 ==> made == (
                text->Ok_0 + more.0,
                more.1,
            )
            &&& block.kind == 1 && text is Ok && (block.parameters[0] == 1 || block.parameters[0]
                == 2) ==> made == (meatpack::decoded(text->Ok_0) + more.0, more.1)
            &&& block.kind == 1 && text is Ok && block.parameters[0] > 2 ==> made == (
                Seq::<u8>::empty(),
                Some(Fault::Encoding(block.parameters[0] as u16)),
            )
            &&& block.kind == 1 && text is Err ==> made == (
                Seq::<u8>::empty(),
                Some(text->Err_0),
            )
        }),
        chain::gcode_from(seq![], at, checksums) == (Seq::<u8>::empty(), None::<Fault>),
{
    let whole = laid(block, checksums);
    let header = a_block_is_read_as_it_is_laid_out(block, rest, at, checksums);
    reveal(chain::gcode_of);
    assert((whole + rest).take(whole.len() as int) =~= whole);
    assert((whole + rest).skip(whole.len() as int) =~= rest);
}

/// A block whose checksum is another than that of its bytes is refused, by the
/// place it stands at, where its text is wanted and where it is to be kept.
pub proof fn a_block_that_does_not_add_up_is_refused(
    block: Block,
    sum: u32,
    rest: Seq<u8>,
    at: nat,
    kept: Kept,
)
    requires
        known(block),
        sum != chain::crc32(front(block) + block.payload),
    ensures
        ({
            let raw = front(block) + block.payload + four(sum as nat) + rest;
            &&& block.kind == 1 ==> chain::gcode_from(raw, at, true) == (
                Seq::<u8>::empty(),
                Some(Fault::Checksum(at)),
            )
            &&& block.kind != 1 ==> chain::walked(raw, at, true, kept) == Err::<Kept, Fault>(
                Fault::Checksum(at),
            )
        }),
{
    reveal(chain::gcode_of);
    let body = front(block) + block.payload;
    let whole = body + four(sum as nat);
    let raw = whole + rest;
    assert(raw =~= body + (four(sum as nat) + rest));
    let header = lemma_header(block, four(sum as nat) + rest, at, true);
    lemma_sum(body, sum);
    assert(chain::extent(header, true) == whole.len());
    assert(raw.take(whole.len() as int) =~= whole);
    assert(!chain::adds_up(whole, true));
}

proof fn lemma_cut_short(block: Block, tail: Seq<u8>, length: int, at: nat, checksums: bool)
    requires
        known(block),
        tail.len() == if checksums {
            4nat
        } else {
            0
        },
        0 < length < (front(block) + block.payload + tail).len(),
    ensures
        chain::block_of((front(block) + block.payload + tail).take(length), at, checksums) == Err::<
            Header,
            Fault,
        >(Fault::Truncated(at)),
{
    reveal(chain::header_of);
    reveal(chain::block_of);
    let whole = front(block) + block.payload + tail;
    let raw = whole.take(length);
    let header = lemma_header(block, tail, at, checksums);
    let sizes: int = if block.packing == 0 {
        4
    } else {
        8
    };
    assert(whole =~= front(block) + (block.payload + tail));
    lemma_front(block, block.payload + tail);
    if length >= 4 {
        assert(chain::le16(raw, 0) == chain::le16(whole, 0));
        assert(chain::le16(raw, 2) == chain::le16(whole, 2));
    }
    if length >= front(block).len() {
        assert(chain::le32(raw, 4) == chain::le32(whole, 4));
        assert(chain::le32(raw, sizes) == chain::le32(whole, sizes));
        assert(chain::le16(raw, 4 + sizes) == chain::le16(whole, 4 + sizes));
        assert(chain::header_of(raw, at) == Ok::<Header, Fault>(header));
    }
}

/// A block that is cut short anywhere is refused, by the place it stands at.
pub proof fn a_block_that_is_cut_short_is_refused(
    block: Block,
    length: int,
    at: nat,
    checksums: bool,
    kept: Kept,
)
    requires
        known(block),
        0 < length < laid(block, checksums).len(),
    ensures
        ({
            let raw = laid(block, checksums).take(length);
            &&& chain::gcode_from(raw, at, checksums) == (
                Seq::<u8>::empty(),
                Some(Fault::Truncated(at)),
            )
            &&& chain::walked(raw, at, checksums, kept) == Err::<Kept, Fault>(Fault::Truncated(at))
        }),
{
    let whole = laid(block, checksums);
    let raw = whole.take(length);
    let body = front(block) + block.payload;
    let sum = chain::crc32(body);
    let tail = if checksums {
        four(sum as nat)
    } else {
        seq![]
    };
    assert(whole =~= body + tail);
    lemma_sum(body, sum);
    lemma_cut_short(block, tail, length, at, checksums);
    assert(chain::block_of(raw, at, checksums) == Err::<Header, Fault>(Fault::Truncated(at)));
}

/// A block of a kind there is none of, or packed in a way there is none of, is
/// refused by that number; the way it is packed is looked at first.
pub proof fn an_unknown_block_is_refused(
    kind: nat,
    packing: nat,
    rest: Seq<u8>,
    at: nat,
    checksums: bool,
)
    requires
        kind < 65536,
        packing < 65536,
    ensures
        ({
            let raw = two(kind) + two(packing) + rest;
            &&& packing > 3 ==> chain::gcode_from(raw, at, checksums) == (
                Seq::<u8>::empty(),
                Some(Fault::CompressionType(packing as u16)),
            )
            &&& packing <= 3 && kind > 5 ==> chain::gcode_from(raw, at, checksums) == (
                Seq::<u8>::empty(),
                Some(Fault::BlockType(kind as u16)),
            )
        }),
{
    reveal(chain::header_of);
    reveal(chain::block_of);
    let raw = two(kind) + two(packing) + rest;
    assert(raw.subrange(0, 2) =~= two(kind));
    assert(raw.subrange(2, 4) =~= two(packing));
    lemma_two(raw, 0, kind);
    lemma_two(raw, 2, packing);
}

/// Reading goes on behind a block that was read, with or without its text, and
/// behind one whose text was refused. Where there is no telling how long a block
/// is, it goes on behind what has been read of it.
pub proof fn reading_goes_on_behind_each_block(
    block: Block,
    rest: Seq<u8>,
    at: nat,
    checksums: bool,
)
    requires
        known(block),
        block.parameters[1] == 0,
    ensures
        ({
            let whole = laid(block, checksums);
            let behind = at + whole.len();
            let text = packing::unpacked(
                block.payload,
                Compression::numbered(block.packing as u16)->0,
                block.promised,
            );
            let next = chain::next_gcode(whole + rest, at, checksums);
            &&& block.kind != 1 ==> next == chain::next_gcode(rest, behind, checksums)
            &&& block.kind == 1 && text is Ok && block.parameters[0] == 0 ==> next == Ok::<
                Option<(Seq<u8>, nat)>,
                (Fault, nat),
            >(Some((text->Ok_0, behind)))
            &&& block.kind == 1 && text is Ok && 1 <= block.parameters[0] <= 2 ==> next == Ok::<
                Option<(Seq<u8>, nat)>,
                (Fault, nat),
            >(Some((meatpack::decoded(text->Ok_0), behind)))
            &&& block.kind == 1 && text is Ok && block.parameters[0] > 2 ==> next == Err::<
                Option<(Seq<u8>, nat)>,
                (Fault, nat),
            >((Fault::Encoding(block.parameters[0] as u16), behind))
            &&& block.kind == 1 && text is Err ==> next == Err::<
                Option<(Seq<u8>, nat)>,
                (Fault, nat),
            >((text->Err_0, behind))
        }),
        chain::next_gcode(seq![], at, checksums) == Ok::<
            Option<(Seq<u8>, nat)>,
            (Fault, nat),
        >(None),
{
    let whole = laid(block, checksums);
    let header = a_block_is_read_as_it_is_laid_out(block, rest, at, checksums);
    reveal(chain::gcode_of);
    assert((whole + rest).take(whole.len() as int) =~= whole);
    assert((whole + rest).skip(whole.len() as int) =~= rest);
}

/// Of a block without a known kind or packing four bytes have been read, and of
/// one that is cut short all there are.
pub proof fn reading_goes_on_behind_what_was_read(
    block: Block,
    length: int,
    kind: nat,
    packing: nat,
    rest: Seq<u8>,
    at: nat,
    checksums: bool,
)
    requires
        known(block),
        0 < length < laid(block, checksums).len(),
        kind < 65536,
        packing < 65536,
        kind > 5 || packing > 3,
    ensures
        chain::next_gcode(laid(block, checksums).take(length), at, checksums) == Err::<
            Option<(Seq<u8>, nat)>,
            (Fault, nat),
        >((Fault::Truncated(at), at + length as nat)),
        chain::next_gcode(two(kind) + two(packing) + rest, at, checksums) == Err::<
            Option<(Seq<u8>, nat)>,
            (Fault, nat),
        >(
            (
                if packing > 3 {
                    Fault::CompressionType(packing as u16)
                } else {
                    Fault::BlockType(kind as u16)
                },
                at + 4,
            ),
        ),
{
    let whole = laid(block, checksums);
    let cut = whole.take(length);
    let body = front(block) + block.payload;
    let sum = chain::crc32(body);
    let tail = if checksums {
        four(sum as nat)
    } else {
        seq![]
    };
    assert(whole =~= body + tail);
    lemma_sum(body, sum);
    lemma_cut_short(block, tail, length, at, checksums);
    assert(whole =~= front(block) + (block.payload + tail));
    lemma_front(block, block.payload + tail);
    if length >= 4 {
        assert(chain::le16(cut, 0) == chain::le16(whole, 0));
        assert(chain::le16(cut, 2) == chain::le16(whole, 2));
    }
    let raw = two(kind) + two(packing) + rest;
    assert(raw.subrange(0, 2) =~= two(kind));
    assert(raw.subrange(2, 4) =~= two(packing));
    lemma_two(raw, 0, kind);
    lemma_two(raw, 2, packing);
    assert(chain::block_of(raw, at, checksums) == Err::<Header, Fault>(
        if packing > 3 {
            Fault::CompressionType(packing as u16)
        } else {
            Fault::BlockType(kind as u16)
        },
    )) by {
        reveal(chain::header_of);
        reveal(chain::block_of);
    }
}

/// A file starts with the letters GCDE, its version in four bytes and in two
/// whether its blocks carry checksums. Versions past the first and other checksums
/// are refused, by their number.
pub proof fn a_file_starts_with_its_version_and_checksums(
    version: nat,
    checksums: nat,
    rest: Seq<u8>,
)
    requires
        version < 4294967296,
        checksums < 65536,
    ensures
        ({
            let file = seq![71u8, 67u8, 68u8, 69u8] + four(version) + two(checksums) + rest;
            &&& chain::magic(file)
            &&& version > 1 ==> chain::file_header_of(file) == Err::<(u32, bool), Fault>(
                Fault::Version(version as u32),
            )
            &&& version <= 1 && checksums > 1 ==> chain::file_header_of(file) == Err::<
                (u32, bool),
                Fault,
            >(Fault::ChecksumType(checksums as u16))
            &&& version <= 1 && checksums <= 1 ==> chain::file_header_of(file) == Ok::<
                (u32, bool),
                Fault,
            >((version as u32, checksums == 1))
        }),
{
    let file = seq![71u8, 67u8, 68u8, 69u8] + four(version) + two(checksums) + rest;
    assert(file.subrange(4, 8) =~= four(version));
    assert(file.subrange(8, 10) =~= two(checksums));
    lemma_four(file, 4, version);
    lemma_two(file, 8, checksums);
}

/// What does not start with those letters, or ends before its header does, is no
/// container.
pub proof fn a_file_without_its_letters_is_no_container(file: Seq<u8>)
    ensures
        file.len() < 10 ==> chain::file_header_of(file) == Err::<(u32, bool), Fault>(Fault::Magic),
        file.len() >= 4 && file.take(4) != seq![71u8, 67u8, 68u8, 69u8] ==> !chain::magic(file)
            && chain::file_header_of(file) == Err::<(u32, bool), Fault>(Fault::Magic),
        file.len() < 4 ==> !chain::magic(file),
{
    if file.len() >= 4 && chain::magic(file) {
        assert(file.take(4) =~= seq![71u8, 67u8, 68u8, 69u8]);
    }
}

/// A walk over a file keeps every block that is not of the first kind, byte for
/// byte, and of the others only how the last was packed.
pub proof fn a_walk_keeps_every_other_block(
    block: Block,
    rest: Seq<u8>,
    at: nat,
    checksums: bool,
    kept: Kept,
) -> (header: Header)
    requires
        known(block),
    ensures
        chain::block_of(laid(block, checksums) + rest, at, checksums) == Ok::<Header, Fault>(header),
        ({
            let whole = laid(block, checksums);
            let after = chain::noted(kept, whole, header);
            &&& block.kind == 1 ==> chain::walked(whole + rest, at, checksums, kept)
                == chain::walked(
                rest,
                at + whole.len(),
                checksums,
                Kept { compression: Compression::numbered(block.packing as u16)->0, ..kept },
            )
            &&& block.kind != 1 ==> chain::walked(whole + rest, at, checksums, kept)
                == chain::walked(rest, at + whole.len(), checksums, after)
            &&& after.prelude == kept.prelude + whole
            &&& after.compression == kept.compression
        }),
        chain::walked(seq![], at, checksums, kept) == Ok::<Kept, Fault>(kept),
        chain::nothing().prelude == Seq::<u8>::empty(),
        chain::nothing().compression == Compression::numbered(3)->0,
{
    let whole = laid(block, checksums);
    let header = a_block_is_read_as_it_is_laid_out(block, rest, at, checksums);
    reveal(chain::noted);
    assert((whole + rest).take(whole.len() as int) =~= whole);
    assert((whole + rest).skip(whole.len() as int) =~= rest);
    header
}

/// Of the metadata in a block a walk keeps the layer heights, every one that is
/// stated; and of the walls' width, which has two names, and the nozzle the first.
pub proof fn a_walk_keeps_what_metadata_states(
    block: Block,
    checksums: bool,
    header: Header,
    kept: Kept,
    ini: Seq<u8>,
)
    requires
        known(block),
        chain::block_of(laid(block, checksums), 0, checksums) == Ok::<Header, Fault>(header),
        packing::unpacked(block.payload, header.packing, block.promised) == Ok::<Seq<u8>, Fault>(
            ini,
        ),
    ensures
        ({
            let after = chain::noted(kept, laid(block, checksums), header);
            let says = |key: &str| metadata::stated(ini, text::bytes(key@));
            &&& after.layer_heights == if says("layer_height") is Some {
                kept.layer_heights.push(says("layer_height")->0)
            } else {
                kept.layer_heights
            }
            &&& after.first_layer_heights == if says("first_layer_height") is Some {
                kept.first_layer_heights.push(says("first_layer_height")->0)
            } else {
                kept.first_layer_heights
            }
            &&& kept.wall_width is Some ==> after.wall_width == kept.wall_width
            &&& kept.wall_width is None && says("perimeter_extrusion_width") is Some
                ==> after.wall_width == says("perimeter_extrusion_width")
            &&& kept.wall_width is None && says("perimeter_extrusion_width") is None
                ==> after.wall_width == says("inner_wall_line_width")
            &&& kept.nozzle is Some ==> after.nozzle == kept.nozzle
            &&& kept.nozzle is None ==> after.nozzle == says("nozzle_diameter")
        }),
{
    let whole = laid(block, checksums);
    let found = a_block_is_read_as_it_is_laid_out(block, seq![], 0, checksums);
    assert(whole + seq![] =~= whole);
    reveal(chain::noted);
}

proof fn lemma_bytes(value: nat)
    ensures
        value < 65536 ==> chain::bytes16(value as u16) == two(value),
        value < 4294967296 ==> chain::bytes32(value as u32) == four(value),
{
    if value < 65536 {
        assert(chain::bytes16(value as u16) =~= two(value));
    }
    if value < 4294967296 {
        let (low, high) = (value % 65536, value / 65536);
        assert(value == 65536 * high + low);
        assert(low % 256 == value % 256);
        assert(low / 256 % 256 == value / 256 % 256);
        assert(high / 256 % 256 == value / 16777216);
        let number = value as u32;
        let bytes = chain::bytes32(number);
        let quarters = four(value);
        assert(bytes[0] == quarters[0]);
        assert(bytes[1] == quarters[1]);
        assert(bytes[2] == quarters[2]);
        assert(bytes[3] == quarters[3]);
        assert(bytes =~= quarters);
    }
}

/// Text is written as a block of the first kind that says it is not encoded, with
/// its length and its payload's.
pub proof fn text_is_written_as_a_text_block(checksums: bool, code: u16, data: Seq<u8>)
    requires
        code <= 3,
        data.len() < 4294967296,
        packing::packed(data, Compression::numbered(code)->0).len() < 4294967296,
    ensures
        ({
            let packing = Compression::numbered(code)->0;
            layout::sealed(checksums, packing, data) == laid(
                Block {
                    kind: 1,
                    packing: code as nat,
                    promised: data.len(),
                    parameters: seq![0u8, 0u8],
                    payload: packing::packed(data, packing),
                },
                checksums,
            )
        }),
{
    let packing = Compression::numbered(code)->0;
    let payload = packing::packed(data, packing);
    let block = Block {
        kind: 1,
        packing: code as nat,
        promised: data.len(),
        parameters: seq![0u8, 0u8],
        payload,
    };
    reveal(layout::sealed);
    lemma_bytes(1);
    lemma_bytes(code as nat);
    lemma_bytes(0);
    lemma_bytes(data.len());
    lemma_bytes(payload.len());
    assert(layout::body(packing, data) =~= front(block) + payload) by {
        reveal(front);
    }
    lemma_bytes(chain::crc32(front(block) + payload) as nat);
}

/// A file is written with the letters GCDE, its version in four bytes and in two
/// whether its blocks carry checksums.
pub proof fn a_file_is_written_with_its_version(version: u32, checksums: bool)
    ensures
        layout::opening(version, checksums) == seq![71u8, 67u8, 68u8, 69u8] + four(version as nat)
            + two(
            if checksums {
                1
            } else {
                0
            },
        ),
{
    assert(layout::opening(version, checksums) =~= seq![71u8, 67u8, 68u8, 69u8] + four(
        version as nat,
    ) + two(
        if checksums {
            1
        } else {
            0
        },
    ));
}

/// A text is cut into blocks at line feeds: a block ends at the first one that
/// makes it sixty-four kibibytes long or more, and there is none before that.
pub proof fn a_block_ends_at_the_first_line_past_its_size(stream: Seq<u8>, at: int)
    requires
        65535 <= at < stream.len(),
        stream[at] == 10,
        forall|i: int| 65535 <= i < at ==> #[trigger] stream[i] != 10,
    ensures
        layout::block_length(stream) == Some(at + 1),
        layout::chunks(stream).len() > 0,
        layout::chunks(stream)[0] == stream.take(at + 1),
        layout::chunks(stream).skip(1) == layout::chunks(stream.skip(at + 1)),
{
    text::lemma_find(stream, 0x0a, 65535, stream.len() as int);
    let rest = layout::chunks(stream.skip(at + 1));
    assert(layout::chunks(stream) == seq![stream.take(at + 1)] + rest);
    assert(layout::chunks(stream).skip(1) =~= rest);
}

/// A text without a line feed that far in is one block, and an empty one is none.
pub proof fn a_short_text_is_one_block(stream: Seq<u8>)
    requires
        forall|i: int| 65535 <= i < stream.len() ==> #[trigger] stream[i] != 10,
    ensures
        layout::block_length(stream) is None,
        stream.len() > 0 ==> layout::chunks(stream) == seq![stream],
        stream.len() == 0 ==> layout::chunks(stream) == Seq::<Seq<u8>>::empty(),
{
    if 65535 < stream.len() {
        text::lemma_find(stream, 0x0a, 65535, stream.len() as int);
    }
}

} // verus!
