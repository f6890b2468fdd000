//! How a G-code stream is laid out in blocks, and why it reads back.

use super::chain;
use super::chain::Header;
use super::chain::Kept;
use super::chain::CHECKSUM;
use super::chain::GCODE_BLOCK;
use super::chain::HEADER;
use super::fault::Fault;
use super::packing;
use super::packing::Compression;
use crate::text;
use vstd::prelude::*;

verus! {

/// Uncompressed bytes per generated G-code block, matching the order of
/// magnitude a slicer emits so firmware still streams the file in small steps.
pub const BLOCK_TARGET: usize = 65536;

/// Length of the block that `pending` starts with, or nothing while it is still
/// too short: a block ends at the first line boundary at or past the target
/// size, so no command is ever cut in half.
pub open spec fn block_length(pending: Seq<u8>) -> Option<int> {
    let at = text::find(pending, 0x0a, BLOCK_TARGET - 1, pending.len() as int);
    if BLOCK_TARGET - 1 < pending.len() && at < pending.len() {
        Some(at + 1)
    } else {
        None
    }
}

/// The texts a stream's blocks hold, the last of them whatever is left over.
pub open spec fn chunks(stream: Seq<u8>) -> Seq<Seq<u8>>
    decreases stream.len(),
{
    match block_length(stream) {
        Some(length) => {
            proof {
                lemma_block_length(stream);
            }
            seq![stream.take(length)] + chunks(stream.skip(length))
        },
        None => if stream.len() == 0 {
            seq![]
        } else {
            seq![stream]
        },
    }
}

/// The texts of the blocks a stream has made up already, whatever comes next.
pub open spec fn whole(stream: Seq<u8>) -> Seq<Seq<u8>>
    decreases stream.len(),
{
    match block_length(stream) {
        Some(length) => {
            proof {
                lemma_block_length(stream);
            }
            seq![stream.take(length)] + whole(stream.skip(length))
        },
        None => seq![],
    }
}

/// The end of a stream that has not made up a block yet.
pub open spec fn tail(stream: Seq<u8>) -> Seq<u8>
    decreases stream.len(),
{
    match block_length(stream) {
        Some(length) => {
            proof {
                lemma_block_length(stream);
            }
            tail(stream.skip(length))
        },
        None => stream,
    }
}

/// The end of a stream that is not a block yet is the end of it, and is none.
pub proof fn lemma_tail(stream: Seq<u8>)
    ensures
        tail(stream).len() <= stream.len(),
        tail(stream) == stream.skip(stream.len() - tail(stream).len()),
        block_length(tail(stream)) is None,
    decreases stream.len(),
{
    match block_length(stream) {
        Some(length) => {
            lemma_block_length(stream);
            let rest = stream.skip(length);
            lemma_tail(rest);
            assert(rest.skip(rest.len() - tail(stream).len()) =~= stream.skip(
                stream.len() - tail(stream).len(),
            ));
        },
        None => {
            assert(stream.skip(0) =~= stream);
        },
    }
}

/// A line feed stands in every run of as many bytes as a block aims at.
pub open spec fn broken_into_lines(stream: Seq<u8>) -> bool {
    forall|from: int|
        0 <= from && from + BLOCK_TARGET <= stream.len() ==> #[trigger] holds_line_feed(
            stream,
            from,
        )
}

pub open spec fn holds_line_feed(stream: Seq<u8>, from: int) -> bool {
    exists|i: int| from <= i < from + BLOCK_TARGET && #[trigger] stream[i] == 0x0a
}

/// Of a stream that is broken into lines, less than two blocks are ever held
/// back, however long it runs.
pub proof fn a_tail_is_less_than_two_blocks(stream: Seq<u8>)
    requires
        broken_into_lines(stream),
    ensures
        tail(stream).len() < 2 * BLOCK_TARGET,
{
    lemma_tail(stream);
    let held = tail(stream);
    if held.len() >= 2 * BLOCK_TARGET - 1 {
        let start = stream.len() - held.len();
        let from = start + BLOCK_TARGET - 1;
        assert(holds_line_feed(stream, from));
        let i = choose|i: int| from <= i < from + BLOCK_TARGET && #[trigger] stream[i] == 0x0a;
        assert(held[i - start] == 0x0a);
        text::lemma_find(held, 0x0a, BLOCK_TARGET - 1, held.len() as int);
    }
}

/// A stream without a line feed is held back whole.
pub proof fn text_without_a_line_feed_is_all_tail(stream: Seq<u8>)
    requires
        forall|i: int| 0 <= i < stream.len() ==> #[trigger] stream[i] != 0x0a,
    ensures
        tail(stream) == stream,
{
    if BLOCK_TARGET - 1 < stream.len() {
        text::lemma_find(stream, 0x0a, BLOCK_TARGET - 1, stream.len() as int);
    }
}

/// A G-code block before its checksum.
pub open spec fn body(packing: Compression, data: Seq<u8>) -> Seq<u8> {
    let payload = packing::packed(data, packing);
    let sizes = if packing == Compression::Stored {
        chain::bytes32(data.len() as u32)
    } else {
        chain::bytes32(data.len() as u32) + chain::bytes32(payload.len() as u32)
    };
    chain::bytes16(GCODE_BLOCK) + chain::bytes16(packing.number()) + sizes + chain::bytes16(0)
        + payload
}

/// One complete G-code block, header and checksum with it.
#[verifier::opaque]
pub open spec fn sealed(checksums: bool, packing: Compression, data: Seq<u8>) -> Seq<u8> {
    let body = body(packing, data);
    if checksums {
        body + chain::bytes32(chain::crc32(body))
    } else {
        body
    }
}

/// The blocks of some texts, one after the other.
pub open spec fn sealed_all(checksums: bool, packing: Compression, parts: Seq<Seq<u8>>) -> Seq<u8>
    decreases parts.len(),
{
    if parts.len() == 0 {
        seq![]
    } else {
        sealed_all(checksums, packing, parts.drop_last()) + sealed(
            checksums,
            packing,
            parts.last(),
        )
    }
}

/// Some texts, one after the other.
pub open spec fn joined(parts: Seq<Seq<u8>>) -> Seq<u8>
    decreases parts.len(),
{
    if parts.len() == 0 {
        seq![]
    } else {
        joined(parts.drop_last()) + parts.last()
    }
}

/// The ten bytes a file starts with.
pub open spec fn opening(version: u32, checksums: bool) -> Seq<u8> {
    seq![0x47u8, 0x43, 0x44, 0x45] + chain::bytes32(version) + chain::bytes16(
        if checksums {
            1
        } else {
            0
        },
    )
}

/// A text's length and that of its payload both fit the fields of a block
/// header.
pub open spec fn fits(packing: Compression, data: Seq<u8>) -> bool {
    data.len() <= u32::MAX && packing::packed(data, packing).len() <= u32::MAX
}

/// Every block of a stream fits its header.
pub open spec fn all_fit(packing: Compression, parts: Seq<Seq<u8>>) -> bool {
    forall|i: int| 0 <= i < parts.len() ==> fits(packing, #[trigger] parts[i])
}

/// A text's payload unpacks to it.
pub open spec fn undone(packing: Compression, data: Seq<u8>) -> bool {
    packing::unpacked(packing::packed(data, packing), packing, data.len()) == Ok::<Seq<u8>, Fault>(
        data,
    )
}

/// Every text's payload unpacks to it.
pub open spec fn all_undone(packing: Compression, parts: Seq<Seq<u8>>) -> bool {
    forall|i: int| 0 <= i < parts.len() ==> undone(packing, #[trigger] parts[i])
}

/// The bytes are a chain of whole blocks that are not G-code and add up.
pub open spec fn sound(prelude: Seq<u8>, checksums: bool) -> bool
    decreases prelude.len(),
{
    prelude.len() == 0 || match chain::block_of(prelude, 0, checksums) {
        Err(_) => false,
        Ok(header) => {
            let length = chain::extent(header, checksums) as int;
            proof {
                chain::lemma_block_of(prelude, 0, checksums);
            }
            &&& header.kind != GCODE_BLOCK
            &&& chain::adds_up(prelude.take(length), checksums)
            &&& sound(prelude.skip(length), checksums)
        },
    }
}

pub proof fn lemma_block_length(pending: Seq<u8>)
    ensures
        block_length(pending) is Some ==> BLOCK_TARGET <= block_length(pending)->0
            <= pending.len() && pending[block_length(pending)->0 - 1] == 0x0a,
{
    if BLOCK_TARGET - 1 < pending.len() {
        text::lemma_find(pending, 0x0a, BLOCK_TARGET - 1, pending.len() as int);
    }
}

proof fn lemma_find_extends(stream: Seq<u8>, more: Seq<u8>, from: int)
    requires
        0 <= from <= stream.len(),
        text::find(stream, 0x0a, from, stream.len() as int) < stream.len(),
    ensures
        text::find(stream + more, 0x0a, from, (stream + more).len() as int) == text::find(
            stream,
            0x0a,
            from,
            stream.len() as int,
        ),
    decreases stream.len() - from,
{
    assert((stream + more)[from] == stream[from]);
    if stream[from] != 0x0a {
        lemma_find_extends(stream, more, from + 1);
    }
}

/// Where a block ends does not depend on what comes after it.
pub proof fn lemma_block_length_extends(stream: Seq<u8>, more: Seq<u8>)
    requires
        block_length(stream) is Some,
    ensures
        block_length(stream + more) == block_length(stream),
{
    lemma_find_extends(stream, more, BLOCK_TARGET - 1);
}

/// A stream that can supply a block gives it up as its first chunk, whatever
/// comes after.
pub proof fn lemma_first_chunk(stream: Seq<u8>, more: Seq<u8>)
    requires
        block_length(stream) is Some,
    ensures
        chunks(stream + more) == seq![stream.take(block_length(stream)->0)] + chunks(
            stream.skip(block_length(stream)->0) + more,
        ),
        whole(stream + more) == seq![stream.take(block_length(stream)->0)] + whole(
            stream.skip(block_length(stream)->0) + more,
        ),
        tail(stream + more) == tail(stream.skip(block_length(stream)->0) + more),
{
    let length = block_length(stream)->0;
    lemma_block_length(stream);
    lemma_block_length_extends(stream, more);
    assert((stream + more).take(length) =~= stream.take(length));
    assert((stream + more).skip(length) =~= stream.skip(length) + more);
}

proof fn lemma_joined(a: Seq<Seq<u8>>, b: Seq<Seq<u8>>)
    ensures
        joined(a + b) == joined(a) + joined(b),
    decreases b.len(),
{
    if b.len() == 0 {
        assert(a + b =~= a);
        assert(joined(a) + joined(b) =~= joined(a));
    } else {
        lemma_joined(a, b.drop_last());
        assert((a + b).drop_last() =~= a + b.drop_last());
        assert(joined(a + b) =~= joined(a) + joined(b));
    }
}

proof fn lemma_joined_one(part: Seq<u8>)
    ensures
        joined(seq![part]) == part,
{
    let parts = seq![part];
    assert(parts.drop_last() =~= Seq::<Seq<u8>>::empty());
    assert(parts.last() == part);
    assert(joined(parts.drop_last()) =~= Seq::<u8>::empty());
    assert(joined(parts) =~= Seq::<u8>::empty() + part);
    assert(Seq::<u8>::empty() + part =~= part);
}

/// A stream's chunks are the whole stream, in order.
pub proof fn chunks_are_the_stream(stream: Seq<u8>)
    ensures
        joined(chunks(stream)) == stream,
    decreases stream.len(),
{
    match block_length(stream) {
        Some(length) => {
            lemma_block_length(stream);
            chunks_are_the_stream(stream.skip(length));
            let first = seq![stream.take(length)];
            lemma_joined(first, chunks(stream.skip(length)));
            lemma_joined_one(stream.take(length));
            assert(stream.take(length) + stream.skip(length) =~= stream);
        },
        None => {
            if stream.len() > 0 {
                lemma_joined_one(stream);
            } else {
                assert(joined(seq![]) =~= stream);
            }
        },
    }
}

/// Every chunk but the last ends a line, so no command is ever cut in half.
pub proof fn a_chunk_ends_on_a_line(stream: Seq<u8>, i: int)
    requires
        0 <= i < chunks(stream).len() - 1,
    ensures
        chunks(stream)[i].len() >= BLOCK_TARGET,
        chunks(stream)[i].last() == 0x0a,
    decreases stream.len(),
{
    match block_length(stream) {
        Some(length) => {
            lemma_block_length(stream);
            if i > 0 {
                a_chunk_ends_on_a_line(stream.skip(length), i - 1);
                assert(chunks(stream)[i] == chunks(stream.skip(length))[i - 1]);
            } else {
                assert(chunks(stream)[0] == stream.take(length));
            }
        },
        None => {},
    }
}

proof fn lemma_le16(bytes: Seq<u8>, at: int, number: u16)
    requires
        0 <= at,
        at + 2 <= bytes.len(),
        bytes.subrange(at, at + 2) == chain::bytes16(number),
    ensures
        chain::le16(bytes, at) == number,
{
    let part = bytes.subrange(at, at + 2);
    assert(part[0] == bytes[at] && part[1] == bytes[at + 1]);
}

proof fn lemma_le32(bytes: Seq<u8>, at: int, number: u32)
    requires
        0 <= at,
        at + 4 <= bytes.len(),
        bytes.subrange(at, at + 4) == chain::bytes32(number),
    ensures
        chain::le32(bytes, at) == number,
{
    let part = bytes.subrange(at, at + 4);
    assert(part[0] == bytes[at] && part[1] == bytes[at + 1] && part[2] == bytes[at + 2] && part[3]
        == bytes[at + 3]);
}

/// The header of a G-code block reads back as it was written.
proof fn lemma_sealed_header(
    checksums: bool,
    packing: Compression,
    data: Seq<u8>,
    tail: Seq<u8>,
    at: nat,
) -> (header: Header)
    requires
        fits(packing, data),
    ensures
        chain::block_of(sealed(checksums, packing, data) + tail, at, checksums) == Ok::<
            Header,
            Fault,
        >(header),
        header.kind == GCODE_BLOCK,
        header.packing == packing,
        header.encoding == 0,
        header.uncompressed == data.len(),
        header.stored == packing::packed(data, packing).len(),
        chain::extent(header, checksums) == sealed(checksums, packing, data).len(),
        chain::payload_of(sealed(checksums, packing, data), header) == packing::packed(
            data,
            packing,
        ),
{
    reveal(sealed);
    reveal(chain::header_of);
    reveal(chain::block_of);
    let block = sealed(checksums, packing, data);
    let rest = block + tail;
    let payload = packing::packed(data, packing);
    let stored = packing == Compression::Stored;
    let sizes: int = if stored {
        4
    } else {
        8
    };
    let size = 6 + sizes;
    let body = body(packing, data);
    assert(body.len() == size + payload.len());
    assert(rest.subrange(0, 2) =~= chain::bytes16(GCODE_BLOCK));
    assert(rest.subrange(2, 4) =~= chain::bytes16(packing.number()));
    assert(rest.subrange(4, 8) =~= chain::bytes32(data.len() as u32));
    assert(rest.subrange(4 + sizes, 6 + sizes) =~= chain::bytes16(0));
    lemma_le16(rest, 0, GCODE_BLOCK);
    lemma_le16(rest, 2, packing.number());
    lemma_le32(rest, 4, data.len() as u32);
    lemma_le16(rest, 4 + sizes, 0);
    if !stored {
        assert(rest.subrange(8, 12) =~= chain::bytes32(payload.len() as u32));
        lemma_le32(rest, 8, payload.len() as u32);
    }
    let header = Header {
        kind: GCODE_BLOCK,
        packing,
        uncompressed: data.len() as usize,
        stored: payload.len() as usize,
        encoding: 0,
        size: size as usize,
    };
    assert(Compression::numbered(packing.number()) == Some(packing));
    assert(chain::header_of(rest, at) == Ok::<Header, Fault>(header));
    assert(chain::payload_of(block, header) =~= payload);
    header
}

/// A G-code block decodes to the text it was made of, wherever it stands.
proof fn lemma_sealed_reads_back(
    checksums: bool,
    packing: Compression,
    data: Seq<u8>,
    tail: Seq<u8>,
    at: nat,
)
    requires
        fits(packing, data),
        undone(packing, data),
    ensures
        chain::gcode_from(sealed(checksums, packing, data) + tail, at, checksums) == ({
            let (more, end) = chain::gcode_from(
                tail,
                at + sealed(checksums, packing, data).len(),
                checksums,
            );
            (data + more, end)
        }),
{
    let block = sealed(checksums, packing, data);
    let rest = block + tail;
    let header = lemma_sealed_header(checksums, packing, data, tail, at);
    let length = block.len() as int;
    assert(rest.take(length) =~= block);
    assert(rest.skip(length) =~= tail);
    lemma_sealed_adds_up(checksums, packing, data);
    chain::lemma_block_of(rest, at, checksums);
    assert(chain::gcode_of(block, header, at, checksums) == Ok::<Seq<u8>, Fault>(data)) by {
        reveal(chain::gcode_of);
    }
}

proof fn lemma_sealed_adds_up(checksums: bool, packing: Compression, data: Seq<u8>)
    ensures
        chain::adds_up(sealed(checksums, packing, data), checksums),
{
    reveal(sealed);
    let block = sealed(checksums, packing, data);
    if checksums {
        let body = body(packing, data);
        let split = block.len() - CHECKSUM;
        assert(block.take(split) =~= body);
        assert(block.subrange(split, split + 4) =~= chain::bytes32(chain::crc32(body)));
        lemma_le32(block, split, chain::crc32(body));
    }
}

/// The blocks of some texts decode to those texts, and the reader goes on with
/// what follows them.
pub proof fn lemma_blocks_read_back(
    checksums: bool,
    packing: Compression,
    parts: Seq<Seq<u8>>,
    tail: Seq<u8>,
    at: nat,
)
    requires
        all_fit(packing, parts),
        all_undone(packing, parts),
    ensures
        chain::gcode_from(sealed_all(checksums, packing, parts) + tail, at, checksums) == ({
            let (more, end) = chain::gcode_from(
                tail,
                at + sealed_all(checksums, packing, parts).len(),
                checksums,
            );
            (joined(parts) + more, end)
        }),
    decreases parts.len(),
{
    let length = sealed_all(checksums, packing, parts).len();
    let more = chain::gcode_from(tail, at + length, checksums).0;
    if parts.len() == 0 {
        assert(sealed_all(checksums, packing, parts) + tail =~= tail);
        assert(joined(parts) + more =~= more);
    } else {
        let before = parts.drop_last();
        let last = parts.last();
        let block = sealed(checksums, packing, last);
        assert forall|i: int| 0 <= i < before.len() implies fits(packing, #[trigger] before[i])
            && undone(packing, before[i]) by {
            assert(before[i] == parts[i]);
        }
        lemma_blocks_read_back(checksums, packing, before, block + tail, at);
        assert(parts[parts.len() - 1] == last);
        lemma_sealed_reads_back(
            checksums,
            packing,
            last,
            tail,
            at + sealed_all(checksums, packing, before).len(),
        );
        assert(sealed_all(checksums, packing, parts) + tail =~= sealed_all(
            checksums,
            packing,
            before,
        ) + (block + tail));
        assert(joined(before) + (last + more) =~= joined(parts) + more);
    }
}

/// A walk steps over G-code blocks, and keeps nothing of them but their
/// compression.
pub proof fn lemma_blocks_are_stepped_over(
    checksums: bool,
    packing: Compression,
    parts: Seq<Seq<u8>>,
    tail: Seq<u8>,
    at: nat,
    kept: Kept,
)
    requires
        all_fit(packing, parts),
    ensures
        chain::walked(sealed_all(checksums, packing, parts) + tail, at, checksums, kept)
            == chain::walked(
            tail,
            at + sealed_all(checksums, packing, parts).len(),
            checksums,
            if parts.len() == 0 {
                kept
            } else {
                Kept { compression: packing, ..kept }
            },
        ),
    decreases parts.len(),
{
    if parts.len() == 0 {
        assert(sealed_all(checksums, packing, parts) + tail =~= tail);
    } else {
        let before = parts.drop_last();
        let last = parts.last();
        let block = sealed(checksums, packing, last);
        assert forall|i: int| 0 <= i < before.len() implies fits(packing, #[trigger] before[i]) by {
            assert(before[i] == parts[i]);
        }
        lemma_blocks_are_stepped_over(checksums, packing, before, block + tail, at, kept);
        assert(parts[parts.len() - 1] == last);
        let start = at + sealed_all(checksums, packing, before).len();
        let header = lemma_sealed_header(checksums, packing, last, tail, start);
        chain::lemma_block_of(block + tail, start, checksums);
        assert((block + tail).skip(block.len() as int) =~= tail);
        assert(sealed_all(checksums, packing, parts) + tail =~= sealed_all(
            checksums,
            packing,
            before,
        ) + (block + tail));
    }
}

/// A block that is there in full is there in full whatever follows it, and
/// wherever it stands.
pub proof fn lemma_block_extends(
    rest: Seq<u8>,
    tail: Seq<u8>,
    here: nat,
    there: nat,
    checksums: bool,
)
    requires
        chain::block_of(rest, here, checksums) is Ok,
    ensures
        chain::block_of(rest + tail, there, checksums) == chain::block_of(rest, here, checksums),
        ({
            let length = chain::extent(
                chain::block_of(rest, here, checksums)->Ok_0,
                checksums,
            ) as int;
            &&& 0 < length <= rest.len()
            &&& (rest + tail).take(length) == rest.take(length)
            &&& (rest + tail).skip(length) == rest.skip(length) + tail
        }),
{
    reveal(chain::header_of);
    reveal(chain::block_of);
    let whole = rest + tail;
    assert forall|i: int| 0 <= i < rest.len() implies whole[i] == rest[i] by {}
    let length = chain::extent(chain::block_of(rest, here, checksums)->Ok_0, checksums) as int;
    assert(whole.take(length) =~= rest.take(length));
    assert(whole.skip(length) =~= rest.skip(length) + tail);
}

/// A prelude holds no G-code: the reader passes over it.
pub proof fn lemma_prelude_holds_no_gcode(
    prelude: Seq<u8>,
    tail: Seq<u8>,
    at: nat,
    checksums: bool,
)
    requires
        sound(prelude, checksums),
    ensures
        chain::gcode_from(prelude + tail, at, checksums) == chain::gcode_from(
            tail,
            at + prelude.len(),
            checksums,
        ),
    decreases prelude.len(),
{
    if prelude.len() == 0 {
        assert(prelude + tail =~= tail);
    } else {
        lemma_block_extends(prelude, tail, 0, at, checksums);
        let header = chain::block_of(prelude, 0, checksums)->Ok_0;
        let length = chain::extent(header, checksums);
        lemma_prelude_holds_no_gcode(prelude.skip(length as int), tail, at + length, checksums);
    }
}

/// A walk keeps a prelude byte for byte, and learns from it what it learns from
/// it alone.
pub proof fn lemma_prelude_is_kept(
    prelude: Seq<u8>,
    tail: Seq<u8>,
    at: nat,
    alone: nat,
    checksums: bool,
    kept: Kept,
)
    requires
        sound(prelude, checksums),
    ensures
        chain::walked(prelude, alone, checksums, kept) is Ok,
        chain::walked(prelude, alone, checksums, kept)->Ok_0.prelude == kept.prelude + prelude,
        chain::walked(prelude, alone, checksums, kept)->Ok_0.compression == kept.compression,
        chain::walked(prelude + tail, at, checksums, kept) == chain::walked(
            tail,
            at + prelude.len(),
            checksums,
            chain::walked(prelude, alone, checksums, kept)->Ok_0,
        ),
    decreases prelude.len(),
{
    if prelude.len() == 0 {
        assert(prelude + tail =~= tail);
        assert(kept.prelude + prelude =~= kept.prelude);
    } else {
        lemma_block_extends(prelude, tail, 0, at, checksums);
        lemma_block_extends(prelude, seq![], 0, alone, checksums);
        assert(prelude + seq![] =~= prelude);
        let header = chain::block_of(prelude, 0, checksums)->Ok_0;
        let length = chain::extent(header, checksums);
        let block = prelude.take(length as int);
        let next = chain::noted(kept, block, header);
        assert(next.prelude == kept.prelude + block && next.compression == kept.compression) by {
            reveal(chain::noted);
        }
        lemma_prelude_is_kept(
            prelude.skip(length as int),
            tail,
            at + length,
            alone + length,
            checksums,
            next,
        );
        assert(kept.prelude + block + prelude.skip(length as int) =~= kept.prelude + prelude);
    }
}

/// A sound prelude is still sound with one more block at its end.
pub proof fn lemma_prelude_grows(
    prelude: Seq<u8>,
    rest: Seq<u8>,
    at: nat,
    checksums: bool,
)
    requires
        sound(prelude, checksums),
        chain::block_of(rest, at, checksums) is Ok,
        ({
            let header = chain::block_of(rest, at, checksums)->Ok_0;
            let length = chain::extent(header, checksums) as int;
            &&& header.kind != GCODE_BLOCK
            &&& chain::adds_up(rest.take(length), checksums)
        }),
    ensures
        ({
            let length = chain::extent(
                chain::block_of(rest, at, checksums)->Ok_0,
                checksums,
            ) as int;
            sound(prelude + rest.take(length), checksums)
        }),
    decreases prelude.len(),
{
    let header = chain::block_of(rest, at, checksums)->Ok_0;
    let length = chain::extent(header, checksums) as int;
    let block = rest.take(length);
    chain::lemma_block_of(rest, at, checksums);
    if prelude.len() == 0 {
        assert forall|i: int| 0 <= i < block.len() implies block[i] == rest[i] by {}
        assert(prelude + block =~= block);
        assert(chain::block_of(block, 0, checksums) == Ok::<Header, Fault>(header)) by {
            reveal(chain::header_of);
            reveal(chain::block_of);
        }
        assert(block.take(length) =~= block);
        assert(block.skip(length) =~= seq![]);
        assert(sound(block.skip(length), checksums));
        assert(sound(block, checksums));
    } else {
        lemma_block_extends(prelude, block, 0, 0, checksums);
        let first = chain::extent(
            chain::block_of(prelude, 0, checksums)->Ok_0,
            checksums,
        ) as int;
        lemma_prelude_grows(prelude.skip(first), rest, at, checksums);
        assert(sound(prelude.skip(first) + block, checksums));
        assert(sound(prelude + block, checksums));
    }
}

/// The opening of a file reads back as it was written.
pub proof fn lemma_opening(version: u32, checksums: bool, tail: Seq<u8>)
    requires
        version <= super::fault::VERSION,
    ensures
        opening(version, checksums).len() == HEADER,
        chain::file_header_of(opening(version, checksums) + tail) == Ok::<(u32, bool), Fault>(
            (version, checksums),
        ),
        (opening(version, checksums) + tail).skip(HEADER as int) == tail,
{
    let file = opening(version, checksums) + tail;
    let flag: u16 = if checksums {
        1
    } else {
        0
    };
    assert(file.subrange(4, 8) =~= chain::bytes32(version));
    assert(file.subrange(8, 10) =~= chain::bytes16(flag));
    lemma_le32(file, 4, version);
    lemma_le16(file, 8, flag);
    assert(file.skip(HEADER as int) =~= tail);
}

} // verus!
