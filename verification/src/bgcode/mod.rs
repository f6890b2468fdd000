//! Prusa's binary G-code container.
//!
//! A file is a ten byte header followed by blocks: metadata, thumbnails and
//! then the G-code itself. Only the G-code blocks are of interest here, so they
//! are decoded to text and every other block is kept exactly as it was read.
//! Rewriting therefore cannot disturb thumbnails, printer settings or the
//! slicer's own configuration, and the file keeps the compression it arrived
//! with.

pub mod blocks;
pub mod chain;
pub mod fault;
pub mod heatshrink;
pub mod layout;
pub mod meatpack;
pub mod metadata;
pub mod packed_text;
pub mod packing;
pub mod tokens;

use crate::text;
use chain::Kept;
use chain::GCODE_BLOCK;
use chain::HEADER;
use fault::Fault;
use fault::VERSION;
use layout::BLOCK_TARGET;
use packing::Compression;
use vstd::prelude::*;
use vstd::slice::*;
use vstd::string::*;

verus! {

/// Whether a file is a binary G-code container.
pub fn is_binary(bytes: &[u8]) -> (binary: bool)
    ensures
        binary == chain::magic(bytes@),
{
    chain::is_magic(bytes)
}

/// Everything needed to put a rewritten G-code stream back into the file it
/// came from.
#[derive(Clone, Debug)]
pub struct Container {
    pub version: u32,
    pub checksums: bool,
    /// Every block that is not G-code, byte for byte as it was read.
    pub prelude: Vec<u8>,
    pub compression: Compression,
    /// Layer heights from the file's metadata, which plain G-code carries as a
    /// comment but binary G-code keeps out of the G-code stream. The first that
    /// is a height counts.
    pub layer_heights: Vec<Vec<u8>>,
    /// First layer heights from the same metadata. The first that is a height
    /// counts.
    pub first_layer_heights: Vec<Vec<u8>>,
    /// Width the internal perimeters were metered at, as the metadata states
    /// it: in mm, or as a share of the nozzle.
    pub wall_width: Option<Vec<u8>>,
    /// Nozzle diameter, as the metadata states it.
    pub nozzle: Option<Vec<u8>>,
}

/// Texts by their bytes.
pub open spec fn views(texts: Seq<Vec<u8>>) -> Seq<Seq<u8>> {
    Seq::new(texts.len(), |i: int| texts[i]@)
}

/// A text by its bytes, where there is one.
pub open spec fn view_of(text: Option<Vec<u8>>) -> Option<Seq<u8>> {
    match text {
        Some(text) => Some(text@),
        None => None,
    }
}

/// What opening a file finds: its version, whether it carries checksums, and
/// what a walk over its blocks keeps.
pub open spec fn opened(file: Seq<u8>) -> Result<(u32, bool, Kept), Fault> {
    match chain::file_header_of(file) {
        Err(fault) => Err(fault),
        Ok((version, checksums)) => match chain::walked(
            file.skip(HEADER as int),
            HEADER as nat,
            checksums,
            chain::nothing(),
        ) {
            Err(fault) => Err(fault),
            Ok(kept) => Ok((version, checksums, kept)),
        },
    }
}

/// The G-code a file holds: all the text before the chain ends, or all before
/// the first fault, and that fault.
pub open spec fn gcode(file: Seq<u8>, checksums: bool) -> (Seq<u8>, Option<Fault>) {
    chain::gcode_from(file.skip(HEADER as int), HEADER as nat, checksums)
}

impl Container {
    pub open spec fn kept(self) -> Kept {
        Kept {
            prelude: self.prelude@,
            compression: self.compression,
            layer_heights: views(self.layer_heights@),
            first_layer_heights: views(self.first_layer_heights@),
            wall_width: view_of(self.wall_width),
            nozzle: view_of(self.nozzle),
        }
    }

    /// The version can be read and the prelude is a chain of whole blocks that
    /// are not G-code, as every opened file has it.
    pub open spec fn sound(self) -> bool {
        self.version <= VERSION && layout::sound(self.prelude@, self.checksums)
    }

    /// The file this container makes of a G-code stream.
    pub open spec fn file(self, stream: Seq<u8>) -> Seq<u8> {
        layout::opening(self.version, self.checksums) + self.prelude@ + layout::sealed_all(
            self.checksums,
            self.compression,
            layout::chunks(stream),
        )
    }

    /// The start of that file which a stream has settled, whatever comes next.
    pub open spec fn begun(self, stream: Seq<u8>) -> Seq<u8> {
        layout::opening(self.version, self.checksums) + self.prelude@ + layout::sealed_all(
            self.checksums,
            self.compression,
            layout::whole(stream),
        )
    }

    /// Every block of a stream fits the size fields of its header.
    pub open spec fn fits(self, stream: Seq<u8>) -> bool {
        layout::all_fit(self.compression, layout::chunks(stream))
    }

    /// Opening a file finds this container's blocks where they were, byte for
    /// byte, with what they state, and the stream as its G-code.
    pub open spec fn holds(self, file: Seq<u8>, stream: Seq<u8>) -> bool {
        let alone = chain::walked(
            self.prelude@,
            HEADER as nat,
            self.checksums,
            chain::nothing(),
        );
        &&& chain::magic(file)
        &&& alone is Ok
        &&& alone->Ok_0.prelude == self.prelude@
        &&& opened(file) == Ok::<(u32, bool, Kept), Fault>(
            (
                self.version,
                self.checksums,
                Kept {
                    compression: if stream.len() == 0 {
                        chain::nothing().compression
                    } else {
                        self.compression
                    },
                    ..alone->Ok_0
                },
            ),
        )
        &&& gcode(file, self.checksums) == (stream, None::<Fault>)
    }

    /// Walks a container's block chain, keeping only what a rewrite has to put
    /// back: the blocks that are not G-code, byte for byte, and the settings a
    /// binary file states outside its G-code stream.
    ///
    /// G-code payloads are stepped over rather than unpacked. Their checksums
    /// are therefore left to [`Container::blocks`], which is still a pass
    /// earlier than the first byte of output.
    pub fn read(file: &[u8]) -> (container: Result<Self, String>)
        ensures
            container is Ok == opened(file@) is Ok,
            container is Ok ==> {
                &&& container->Ok_0.version == opened(file@)->Ok_0.0
                &&& container->Ok_0.checksums == opened(file@)->Ok_0.1
                &&& container->Ok_0.kept() == opened(file@)->Ok_0.2
                &&& container->Ok_0.sound()
            },
            container is Err ==> container->Err_0@ == fault::told(opened(file@)->Err_0),
    {
        let (version, checksums) = match chain::file_header(file) {
            Ok(head) => head,
            Err(reason) => {
                return Err(reason);
            },
        };
        let mut at: usize = HEADER;
        let mut found = Container {
            version,
            checksums,
            prelude: Vec::new(),
            compression: Compression::Heatshrink12,
            layer_heights: Vec::new(),
            first_layer_heights: Vec::new(),
            wall_width: None,
            nozzle: None,
        };
        assert(found.kept() =~= chain::nothing());
        while at < file.len()
            invariant
                HEADER <= at <= file.len(),
                version <= VERSION,
                found.version == version,
                found.checksums == checksums,
                layout::sound(found.prelude@, checksums),
                chain::file_header_of(file@) == Ok::<(u32, bool), Fault>((version, checksums)),
                chain::walked(
                    file@.skip(HEADER as int),
                    HEADER as nat,
                    checksums,
                    chain::nothing(),
                ) == chain::walked(file@.skip(at as int), at as nat, checksums, found.kept()),
            decreases file.len() - at,
        {
            let ghost rest = file@.skip(at as int);
            let ghost before = found.kept();
            let (header, end) = match chain::read_block(file, at, checksums) {
                Ok(block) => block,
                Err(reason) => {
                    return Err(reason);
                },
            };
            assert(rest.skip(end - at) =~= file@.skip(end as int));
            if header.kind == GCODE_BLOCK {
                found.compression = header.packing;
                assert(found.kept() =~= Kept { compression: header.packing, ..before });
            } else {
                let block = &file[at..end];
                assert(block@ =~= rest.take(end - at));
                if !chain::verify(block, checksums) {
                    return Err(
                        text::phrase("checksum mismatch in the block at byte ", at as u64),
                    );
                }
                proof {
                    layout::lemma_prelude_grows(found.prelude@, rest, at as nat, checksums);
                }
                found.note(block, &header);
            }
            at = end;
        }
        Ok(found)
    }

    /// Keeps a block that is not G-code, and what it states.
    fn note(&mut self, block: &[u8], header: &chain::Header)
        requires
            header.size + header.stored <= block.len(),
        ensures
            final(self).kept() == chain::noted(old(self).kept(), block@, *header),
            final(self).version == old(self).version,
            final(self).checksums == old(self).checksums,
            final(self).prelude@ == old(self).prelude@ + block@,
    {
        let ghost before = self.kept();
        proof {
            reveal(chain::noted);
        }
        match chain::read_contents(block, header) {
            Ok(ini) => {
                match metadata::setting(ini.as_slice(), "layer_height") {
                    Some(height) => {
                        let height = slice_to_vec(height);
                        self.layer_heights.push(height);
                    },
                    None => {},
                }
                match metadata::setting(ini.as_slice(), "first_layer_height") {
                    Some(height) => {
                        let height = slice_to_vec(height);
                        self.first_layer_heights.push(height);
                    },
                    None => {},
                }
                if self.wall_width.is_none() {
                    self.wall_width = match metadata::setting(
                        ini.as_slice(),
                        "perimeter_extrusion_width",
                    ) {
                        Some(width) => Some(slice_to_vec(width)),
                        None => match metadata::setting(ini.as_slice(), "inner_wall_line_width") {
                            Some(width) => Some(slice_to_vec(width)),
                            None => None,
                        },
                    };
                }
                if self.nozzle.is_none() {
                    self.nozzle = match metadata::setting(ini.as_slice(), "nozzle_diameter") {
                        Some(nozzle) => Some(slice_to_vec(nozzle)),
                        None => None,
                    };
                }
            },
            Err(_) => {},
        }
        self.prelude.extend_from_slice(block);
        assert(self.prelude@ =~= before.prelude + block@);
        assert(self.kept() =~= chain::noted(before, block@, *header));
    }

    /// A reader over the file's G-code, one block at a time.
    pub fn blocks<'a>(&self, file: &'a [u8]) -> (reader: Result<BlockReader<'a>, String>)
        ensures
            reader is Ok == chain::file_header_of(file@) is Ok,
            reader is Ok ==> {
                &&& reader->Ok_0.valid()
                &&& reader->Ok_0.file() == file@
                &&& reader->Ok_0.checks() == self.checksums
                &&& reader->Ok_0.place() == HEADER
                &&& reader->Ok_0.rest() == gcode(file@, self.checksums)
                &&& reader->Ok_0.block() == Seq::<u8>::empty()
                &&& reader->Ok_0.ready() == Seq::<u8>::empty()
            },
            reader is Err ==> reader->Err_0@ == fault::told(
                chain::file_header_of(file@)->Err_0,
            ),
    {
        match chain::file_header(file) {
            Ok(_) => {
                let reader = BlockReader {
                    file,
                    checksums: self.checksums,
                    at: HEADER,
                    text: Vec::new(),
                    read: 0,
                };
                proof {
                    let more = gcode(file@, self.checksums).0;
                    assert(reader.text@.skip(0) + more =~= more);
                }
                Ok(reader)
            },
            Err(reason) => Err(reason),
        }
    }

    /// A sink that packs a G-code stream into blocks as it is written, so a
    /// rewrite never has to exist in memory all at once.
    pub fn writer(&self) -> (writer: BlockWriter<'_>)
        ensures
            writer.valid(),
            writer.container() == *self,
            writer.taken() == Seq::<u8>::empty(),
            writer.sent() == Seq::<u8>::empty(),
            writer.waiting() == self.begun(Seq::<u8>::empty()),
            writer.held() == Seq::<u8>::empty(),
    {
        let mut out: Vec<u8> = Vec::new();
        out.push(0x47);
        out.push(0x43);
        out.push(0x44);
        out.push(0x45);
        assert(out@ =~= seq![0x47u8, 0x43, 0x44, 0x45]);
        chain::push32(&mut out, self.version);
        chain::push16(
            &mut out,
            if self.checksums {
                1
            } else {
                0
            },
        );
        out.extend_from_slice(self.prelude.as_slice());
        let writer = BlockWriter {
            container: self,
            out,
            pending: Vec::new(),
            stream: Ghost(Seq::empty()),
            parts: Ghost(Seq::empty()),
            gone: Ghost(Seq::empty()),
        };
        proof {
            assert(writer.gone@ + writer.out@ =~= layout::opening(self.version, self.checksums)
                + self.prelude@ + layout::sealed_all(
                self.checksums,
                self.compression,
                writer.parts@,
            ));
            assert forall|more: Seq<u8>| #[trigger] carries_on(
                writer.stream@,
                writer.parts@,
                writer.pending@,
                more,
            ) by {
                let stream = writer.pending@ + more;
                assert(writer.stream@ + more =~= stream);
                assert(writer.parts@ + layout::chunks(stream) =~= layout::chunks(stream));
                assert(writer.parts@ + layout::whole(stream) =~= layout::whole(stream));
            }
        }
        writer
    }

    /// The whole file a G-code stream makes. Where its blocks fit their headers,
    /// opening it gives back the stream and everything else this container kept.
    pub fn serialize(&self, gcode: &str) -> (file: Vec<u8>)
        ensures
            file@ == self.file(text::bytes(gcode@)),
            self.sound() && self.fits(text::bytes(gcode@)) ==> self.holds(
                file@,
                text::bytes(gcode@),
            ),
    {
        let mut writer = self.writer();
        writer.write_all(gcode.as_bytes());
        assert(writer.taken() =~= text::bytes(gcode@));
        let file = writer.finish();
        assert(Seq::<u8>::empty() + file@ =~= file@);
        file
    }

    /// One complete G-code block, header and checksum with it.
    pub fn block(&self, data: &[u8]) -> (block: Vec<u8>)
        ensures
            block@ == layout::sealed(self.checksums, self.compression, data@),
            layout::undone(self.compression, data@),
    {
        proof {
            reveal(layout::sealed);
        }
        let payload = packing::compress(data, self.compression);
        let mut block: Vec<u8> = Vec::new();
        chain::push16(&mut block, GCODE_BLOCK);
        chain::push16(&mut block, self.compression.code());
        chain::push32(&mut block, #[verifier::truncate] (data.len() as u32));
        if self.compression != Compression::Stored {
            chain::push32(&mut block, #[verifier::truncate] (payload.len() as u32));
        }
        // Encoding 0: the text is stored as-is rather than re-packed, because
        // MeatPack discards whitespace and inline comments.
        chain::push16(&mut block, 0);
        block.extend_from_slice(payload.as_slice());
        assert(block@ =~= layout::body(self.compression, data@));
        if self.checksums {
            let sum = crc32fast::hash(block.as_slice());
            chain::push32(&mut block, sum);
        }
        block
    }
}

/// Whatever a sound container writes, in blocks that fit their headers and
/// unpack to what they hold, is found again when the file is opened.
proof fn lemma_holds(container: Container, stream: Seq<u8>)
    requires
        container.sound(),
        container.fits(stream),
        layout::all_undone(container.compression, layout::chunks(stream)),
    ensures
        container.holds(container.file(stream), stream),
{
    let checksums = container.checksums;
    let packing = container.compression;
    let parts = layout::chunks(stream);
    let prelude = container.prelude@;
    let blocks = layout::sealed_all(checksums, packing, parts);
    let file = container.file(stream);
    let opening = layout::opening(container.version, checksums);
    let start = HEADER as nat;
    assert(file =~= opening + (prelude + blocks));
    layout::lemma_opening(container.version, checksums, prelude + blocks);
    layout::lemma_prelude_is_kept(prelude, blocks, start, start, checksums, chain::nothing());
    layout::lemma_prelude_holds_no_gcode(prelude, blocks, start, checksums);
    let kept = chain::walked(prelude, start, checksums, chain::nothing())->Ok_0;
    assert(Seq::<u8>::empty() + prelude =~= prelude);
    let after = start + prelude.len();
    assert(blocks + seq![] =~= blocks);
    layout::lemma_blocks_are_stepped_over(checksums, packing, parts, seq![], after, kept);
    layout::lemma_blocks_read_back(checksums, packing, parts, seq![], after);
    layout::chunks_are_the_stream(stream);
    assert(stream + Seq::<u8>::empty() =~= stream);
    assert(parts.len() == 0 <==> stream.len() == 0) by {
        layout::lemma_block_length(stream);
        if parts.len() == 0 {
            assert(layout::joined(parts) =~= seq![]);
        }
    }
    assert(kept.compression == chain::nothing().compression);
    assert(kept =~= Kept { compression: chain::nothing().compression, ..kept });
}

/// Turns a G-code byte stream into container blocks on the fly.
///
/// Text is held only until it reaches a block boundary, so the writer needs a
/// couple of block sizes of memory no matter how long the stream runs. Blocks end
/// on lines: text that holds no line feed is held until one comes.
pub struct BlockWriter<'a> {
    container: &'a Container,
    out: Vec<u8>,
    pending: Vec<u8>,
    /// All the text written so far.
    stream: Ghost<Seq<u8>>,
    /// The texts of the blocks made so far.
    parts: Ghost<Seq<Seq<u8>>>,
    /// The bytes already handed on.
    gone: Ghost<Seq<u8>>,
}

/// Whatever text comes next, the blocks of all of it are those made so far and
/// those of the text that is held with what comes next.
spec fn carries_on(stream: Seq<u8>, parts: Seq<Seq<u8>>, held: Seq<u8>, more: Seq<u8>) -> bool {
    &&& layout::chunks(stream + more) == parts + layout::chunks(held + more)
    &&& layout::whole(stream + more) == parts + layout::whole(held + more)
    &&& layout::tail(stream + more) == layout::tail(held + more)
}

impl<'a> BlockWriter<'a> {
    /// The container the blocks are made for.
    pub closed spec fn container(self) -> Container {
        *self.container
    }

    /// All the text written so far.
    pub closed spec fn taken(self) -> Seq<u8> {
        self.stream@
    }

    /// The bytes of the file already handed on.
    pub closed spec fn sent(self) -> Seq<u8> {
        self.gone@
    }

    /// The bytes of the file that have been made and not handed on yet.
    pub closed spec fn waiting(self) -> Seq<u8> {
        self.out@
    }

    /// Text that has not made up a block yet.
    pub closed spec fn held(self) -> Seq<u8> {
        self.pending@
    }

    /// What has been made so far is the start of the file, whatever text comes
    /// next.
    spec fn consistent(self, held: Seq<u8>) -> bool {
        let container = *self.container;
        &&& self.gone@ + self.out@ == layout::opening(container.version, container.checksums)
            + container.prelude@ + layout::sealed_all(
            container.checksums,
            container.compression,
            self.parts@,
        )
        &&& layout::all_undone(container.compression, self.parts@)
        &&& forall|more: Seq<u8>| #[trigger] carries_on(self.stream@, self.parts@, held, more)
    }

    pub closed spec fn valid(self) -> bool {
        &&& self.consistent(self.pending@)
        &&& layout::block_length(self.pending@) is None
    }

    /// Every block that the text so far makes up has been made, and only the text
    /// behind the last of them is held back.
    pub proof fn only_an_unfinished_block_is_held_back(self)
        requires
            self.valid(),
        ensures
            self.sent() + self.waiting() == self.container().begun(self.taken()),
            self.held() == layout::tail(self.taken()),
    {
        assert(carries_on(self.stream@, self.parts@, self.pending@, seq![]));
        assert(self.stream@ + seq![] =~= self.stream@);
        assert(self.pending@ + seq![] =~= self.pending@);
        assert(self.parts@ + Seq::<Seq<u8>>::empty() =~= self.parts@);
    }

    /// Less than two blocks of text are held back, however long the stream runs,
    /// as long as it is broken into lines no longer than a block.
    pub proof fn less_than_two_blocks_are_held_back(self)
        requires
            self.valid(),
            layout::broken_into_lines(self.taken()),
        ensures
            self.held().len() < 2 * BLOCK_TARGET,
    {
        self.only_an_unfinished_block_is_held_back();
        layout::a_tail_is_less_than_two_blocks(self.taken());
    }

    /// Writes the tail of the stream as a final block and returns what has not
    /// been handed on yet.
    pub fn finish(self) -> (last: Vec<u8>)
        requires
            self.valid(),
        ensures
            self.sent() + last@ == self.container().file(self.taken()),
            self.container().sound() && self.container().fits(self.taken())
                ==> self.container().holds(self.sent() + last@, self.taken()),
    {
        let mut out = self.out;
        let ghost container = *self.container;
        let ghost parts = layout::chunks(self.stream@);
        proof {
            assert(carries_on(self.stream@, self.parts@, self.pending@, seq![]));
            assert(self.stream@ + seq![] =~= self.stream@);
            assert(self.pending@ + seq![] =~= self.pending@);
            assert(parts == self.parts@ + layout::chunks(self.pending@));
        }
        if self.pending.len() > 0 {
            let block = self.container.block(self.pending.as_slice());
            out.extend_from_slice(block.as_slice());
            proof {
                assert(parts.drop_last() =~= self.parts@);
                assert(parts.last() == self.pending@);
                assert(self.gone@ + out@ =~= (self.gone@ + self.out@) + block@);
                assert(self.gone@ + out@ =~= container.file(self.stream@));
            }
        } else {
            assert(parts =~= self.parts@);
        }
        proof {
            assert forall|i: int| 0 <= i < parts.len() implies layout::undone(
                container.compression,
                #[trigger] parts[i],
            ) by {
                if i < self.parts@.len() {
                    assert(parts[i] == self.parts@[i]);
                } else {
                    assert(parts[i] == self.pending@);
                }
            }
            if container.sound() && container.fits(self.stream@) {
                lemma_holds(container, self.stream@);
            }
        }
        out
    }

    /// Hands on the bytes made so far.
    pub fn take_ready(&mut self) -> (ready: Vec<u8>)
        requires
            old(self).valid(),
        ensures
            final(self).valid(),
            ready@ == old(self).waiting(),
            final(self).waiting() == Seq::<u8>::empty(),
            final(self).sent() == old(self).sent() + ready@,
            final(self).container() == old(self).container(),
            final(self).taken() == old(self).taken(),
            final(self).held() == old(self).held(),
    {
        let mut ready: Vec<u8> = Vec::new();
        std::mem::swap(&mut ready, &mut self.out);
        self.gone = Ghost(self.gone@ + ready@);
        assert(self.gone@ + self.out@ =~= old(self).gone@ + old(self).out@);
        ready
    }

    /// Emits every whole block the pending text can supply, then compacts what
    /// is left over exactly once.
    fn drain(&mut self)
        requires
            old(self).consistent(old(self).pending@),
        ensures
            final(self).valid(),
            final(self).container == old(self).container,
            final(self).stream == old(self).stream,
            final(self).gone == old(self).gone,
    {
        let mut start: usize = 0;
        assert(self.pending@.skip(0) =~= self.pending@);
        loop
            invariant
                start <= self.pending.len(),
                self.pending == old(self).pending,
                self.container == old(self).container,
                self.stream == old(self).stream,
                self.gone == old(self).gone,
                self.consistent(self.pending@.skip(start as int)),
            ensures
                layout::block_length(self.pending@.skip(start as int)) is None,
            decreases self.pending.len() - start,
        {
            let rest = &self.pending.as_slice()[start..self.pending.len()];
            assert(rest@ =~= self.pending@.skip(start as int));
            let length = match block_end(rest) {
                Some(length) => length,
                None => {
                    break;
                },
            };
            let ghost chunk = rest@.take(length as int);
            let ghost before = *self;
            let block = self.container.block(&rest[0..length]);
            assert(rest@.subrange(0, length as int) =~= chunk);
            self.out.extend_from_slice(block.as_slice());
            self.parts = Ghost(self.parts@.push(chunk));
            proof {
                let container = *self.container;
                assert(self.parts@.drop_last() =~= before.parts@);
                assert(self.gone@ + self.out@ =~= (before.gone@ + before.out@) + block@);
                assert(self.gone@ + self.out@ =~= layout::opening(
                    container.version,
                    container.checksums,
                ) + container.prelude@ + layout::sealed_all(
                    container.checksums,
                    container.compression,
                    self.parts@,
                ));
                assert(layout::all_undone(container.compression, self.parts@));
                let left = self.pending@.skip(start + length);
                assert(rest@.skip(length as int) =~= left);
                assert forall|more: Seq<u8>| #[trigger] carries_on(
                    self.stream@,
                    self.parts@,
                    left,
                    more,
                ) by {
                    assert(carries_on(before.stream@, before.parts@, rest@, more));
                    layout::lemma_first_chunk(rest@, more);
                    assert(before.parts@ + (seq![chunk] + layout::chunks(left + more))
                        =~= self.parts@ + layout::chunks(left + more));
                    assert(before.parts@ + (seq![chunk] + layout::whole(left + more))
                        =~= self.parts@ + layout::whole(left + more));
                }
            }
            start = start + length;
        }
        if start > 0 {
            let rest = self.pending.split_off(start);
            assert(rest@ =~= old(self).pending@.skip(start as int));
            self.pending = rest;
        }
    }

    /// Takes as much of `data` as there is room for, and says how much that was.
    ///
    /// Bounded so a single huge write cannot pull the whole stream into memory;
    /// [`BlockWriter::write_all`] comes back for the rest.
    pub fn write(&mut self, data: &[u8]) -> (taken: usize)
        requires
            old(self).valid(),
        ensures
            final(self).valid(),
            taken == if data@.len() <= BLOCK_TARGET {
                data@.len() as int
            } else if data@.len() + old(self).held().len() <= 2 * BLOCK_TARGET {
                data@.len() as int
            } else if old(self).held().len() <= BLOCK_TARGET {
                2 * BLOCK_TARGET - old(self).held().len()
            } else {
                BLOCK_TARGET as int
            },
            final(self).taken() == old(self).taken() + data@.take(taken as int),
            final(self).container() == old(self).container(),
            final(self).sent() == old(self).sent(),
            final(self).sent() + final(self).waiting() == final(self).container().begun(
                final(self).taken(),
            ),
            final(self).held() == layout::tail(final(self).taken()),
    {
        let held = self.pending.len();
        let room: usize = if held <= BLOCK_TARGET {
            2 * BLOCK_TARGET - held
        } else {
            BLOCK_TARGET
        };
        let taken = if data.len() <= room {
            data.len()
        } else {
            room
        };
        let part = &data[0..taken];
        assert(part@ =~= data@.take(taken as int));
        let ghost before = *self;
        self.pending.extend_from_slice(part);
        self.stream = Ghost(self.stream@ + part@);
        proof {
            assert(self.pending@ =~= before.pending@ + part@);
            assert forall|more: Seq<u8>| #[trigger] carries_on(
                self.stream@,
                self.parts@,
                self.pending@,
                more,
            ) by {
                assert(carries_on(before.stream@, before.parts@, before.pending@, part@ + more));
                assert(self.stream@ + more =~= before.stream@ + (part@ + more));
                assert(self.pending@ + more =~= before.pending@ + (part@ + more));
            }
        }
        self.drain();
        proof {
            self.only_an_unfinished_block_is_held_back();
        }
        taken
    }

    /// Takes all of `data`.
    pub fn write_all(&mut self, data: &[u8])
        requires
            old(self).valid(),
        ensures
            final(self).valid(),
            final(self).taken() == old(self).taken() + data@,
            final(self).container() == old(self).container(),
            final(self).sent() == old(self).sent(),
            final(self).sent() + final(self).waiting() == final(self).container().begun(
                final(self).taken(),
            ),
            final(self).held() == layout::tail(final(self).taken()),
    {
        let mut at: usize = 0;
        assert(self.stream@ + data@.take(0) =~= self.stream@);
        while at < data.len()
            invariant
                at <= data.len(),
                self.valid(),
                self.taken() == old(self).taken() + data@.take(at as int),
                self.container() == old(self).container(),
                self.sent() == old(self).sent(),
            decreases data.len() - at,
        {
            let rest = &data[at..data.len()];
            let taken = self.write(rest);
            assert(data@.take(at as int) + rest@.take(taken as int) =~= data@.take(at + taken));
            assert(self.taken() =~= old(self).taken() + data@.take(at + taken));
            at = at + taken;
        }
        assert(data@.take(at as int) =~= data@);
        proof {
            self.only_an_unfinished_block_is_held_back();
        }
    }
}

/// Length of the leading block in `pending`, or `None` while it is still too
/// short.
pub fn block_end(pending: &[u8]) -> (length: Option<usize>)
    ensures
        length is Some == layout::block_length(pending@) is Some,
        length is Some ==> {
            &&& length->0 == layout::block_length(pending@)->0
            &&& BLOCK_TARGET <= length->0 <= pending.len()
        },
{
    if pending.len() < BLOCK_TARGET {
        return None;
    }
    let at = text::position(pending, 0x0a, BLOCK_TARGET - 1, pending.len());
    if at < pending.len() {
        Some(at + 1)
    } else {
        None
    }
}

/// Opens a file and decodes all of its G-code.
pub fn parse(file: &[u8]) -> (parsed: Result<(Container, String), String>)
    ensures
        parsed is Ok == (opened(file@) is Ok && gcode(file@, opened(file@)->Ok_0.1).1 is None),
        parsed is Ok ==> {
            let (container, said) = parsed->Ok_0;
            let raw = gcode(file@, container.checksums).0;
            &&& container.version == opened(file@)->Ok_0.0
            &&& container.checksums == opened(file@)->Ok_0.1
            &&& container.kept() == opened(file@)->Ok_0.2
            &&& container.sound()
            &&& said@ == text::repaired(raw)
            &&& vstd::utf8::valid_utf8(raw) ==> said@ == vstd::utf8::decode_utf8(raw)
        },
        parsed is Err ==> parsed->Err_0@ == match opened(file@) {
            Err(fault) => fault::told(fault),
            Ok((_, checksums, _)) => fault::damage(gcode(file@, checksums).1->0),
        },
{
    let container = match Container::read(file) {
        Ok(container) => container,
        Err(reason) => {
            return Err(reason);
        },
    };
    let mut reader = match container.blocks(file) {
        Ok(reader) => reader,
        Err(reason) => {
            return Err(reason);
        },
    };
    match reader.read_to_end() {
        Ok(raw) => Ok((container, text::repair(raw.as_slice()))),
        Err(reason) => Err(reason),
    }
}

/// Decodes a container's G-code blocks one at a time.
///
/// Only the block being read is unpacked, so a pass over a print's worth of
/// G-code costs one block of memory however long the print is. Blocks that are
/// not G-code are stepped over: a rewrite puts back the copies
/// [`Container::read`] kept.
pub struct BlockReader<'a> {
    file: &'a [u8],
    checksums: bool,
    /// Byte offset of the next block.
    at: usize,
    /// The current block, decoded.
    text: Vec<u8>,
    read: usize,
}

impl<'a> BlockReader<'a> {
    pub closed spec fn valid(self) -> bool {
        self.at <= self.file@.len() && self.read <= self.text@.len()
    }

    /// The file being read.
    pub closed spec fn file(self) -> Seq<u8> {
        self.file@
    }

    /// Its blocks carry checksums.
    pub closed spec fn checks(self) -> bool {
        self.checksums
    }

    /// Byte offset of the next block.
    pub closed spec fn place(self) -> nat {
        self.at as nat
    }

    /// The text of the block being read.
    pub closed spec fn block(self) -> Seq<u8> {
        self.text@
    }

    /// What is left of that text.
    pub closed spec fn ready(self) -> Seq<u8> {
        self.text@.skip(self.read as int)
    }

    /// The next block that holds any text.
    pub open spec fn next(self) -> Result<Option<(Seq<u8>, nat)>, (Fault, nat)> {
        chain::next_text(self.file().skip(self.place() as int), self.place(), self.checks())
    }

    /// The block being read once the chain has ended or a fault has been met: the
    /// one it was, unless others that hold no text came after it.
    pub open spec fn last_block(self) -> Seq<u8> {
        match chain::next_gcode(
            self.file().skip(self.place() as int),
            self.place(),
            self.checks(),
        ) {
            Ok(Some(_)) => seq![],
            _ => self.block(),
        }
    }

    /// The text still to be read: all of it before the chain ends, or all before
    /// the first fault, and that fault.
    pub open spec fn rest(self) -> (Seq<u8>, Option<Fault>) {
        let (more, end) = chain::gcode_from(
            self.file().skip(self.place() as int),
            self.place(),
            self.checks(),
        );
        (self.ready() + more, end)
    }

    /// Decodes the next G-code block, skipping anything else. `false` once the
    /// chain has ended. A fault is passed: what has been read of its block is not
    /// read again.
    fn next_block(&mut self) -> (more: Result<bool, String>)
        requires
            old(self).valid(),
        ensures
            final(self).valid(),
            final(self).file == old(self).file,
            final(self).checksums == old(self).checksums,
            match chain::next_gcode(
                old(self).file@.skip(old(self).at as int),
                old(self).at as nat,
                old(self).checksums,
            ) {
                Ok(Some((text, end))) => {
                    &&& more == Ok::<bool, String>(true)
                    &&& final(self).text@ == text
                    &&& final(self).at == end
                    &&& final(self).read == 0
                },
                Ok(None) => {
                    &&& more == Ok::<bool, String>(false)
                    &&& final(self).text == old(self).text
                    &&& final(self).at == old(self).file@.len()
                    &&& final(self).read == old(self).read
                },
                Err((fault, end)) => {
                    &&& more is Err
                    &&& more->Err_0@ == fault::told(fault)
                    &&& final(self).text == old(self).text
                    &&& final(self).at == end
                    &&& final(self).read == old(self).read
                },
            },
    {
        let ghost start = self.at as nat;
        let ghost found = chain::next_gcode(self.file@.skip(start as int), start, self.checksums);
        while self.at < self.file.len()
            invariant
                self.valid(),
                self.file == old(self).file,
                self.checksums == old(self).checksums,
                self.text == old(self).text,
                self.read == old(self).read,
                found == chain::next_gcode(
                    self.file@.skip(self.at as int),
                    self.at as nat,
                    self.checksums,
                ),
                found == chain::next_gcode(
                    old(self).file@.skip(old(self).at as int),
                    old(self).at as nat,
                    old(self).checksums,
                ),
            decreases self.file.len() - self.at,
        {
            let at = self.at;
            let ghost rest = self.file@.skip(at as int);
            let (header, end) = match chain::read_block(self.file, at, self.checksums) {
                Ok(block) => block,
                Err(reason) => {
                    self.at = chain::fault_end(self.file, at);
                    return Err(reason);
                },
            };
            assert(rest.skip(end - at) =~= self.file@.skip(end as int));
            self.at = end;
            if header.kind == GCODE_BLOCK {
                let block = slice_subrange(self.file, at, end);
                assert(block@ =~= rest.take(end - at));
                match chain::read_gcode(block, &header, at, self.checksums) {
                    Ok(text) => {
                        self.text = text;
                        self.read = 0;
                        return Ok(true);
                    },
                    Err(reason) => {
                        return Err(reason);
                    },
                }
            }
        }
        Ok(false)
    }

    /// Decodes blocks until there is text to be had or the chain has ended: the
    /// next one that holds any, and none behind it.
    pub fn fill_buf(&mut self) -> (filled: Result<(), String>)
        requires
            old(self).valid(),
        ensures
            final(self).valid(),
            final(self).file() == old(self).file(),
            final(self).checks() == old(self).checks(),
            old(self).ready().len() > 0 ==> filled is Ok && *final(self) == *old(self),
            old(self).ready().len() == 0 ==> match old(self).next() {
                Ok(Some((text, end))) => {
                    &&& filled is Ok
                    &&& final(self).block() == text
                    &&& final(self).ready() == text
                    &&& final(self).place() == end
                },
                Ok(None) => {
                    &&& filled is Ok
                    &&& final(self).block() == old(self).last_block()
                    &&& final(self).ready() == Seq::<u8>::empty()
                    &&& final(self).place() == old(self).file().len()
                },
                Err((fault, end)) => {
                    &&& filled is Err
                    &&& filled->Err_0@ == fault::damage(fault)
                    &&& final(self).block() == old(self).last_block()
                    &&& final(self).ready() == Seq::<u8>::empty()
                    &&& final(self).place() == end
                },
            },
            filled is Ok ==> final(self).rest() == old(self).rest(),
    {
        let ghost first = *self;
        proof {
            if self.read == self.text@.len() {
                assert(self.ready() =~= seq![]);
                chain::lemma_next_text(
                    self.file@.skip(self.at as int),
                    self.at as nat,
                    self.checksums,
                );
            }
        }
        while self.read == self.text.len()
            invariant
                self.valid(),
                first == *old(self),
                first.valid(),
                self.file == first.file,
                self.checksums == first.checksums,
                first.ready().len() > 0 ==> *self == first,
                first.ready().len() == 0 ==> {
                    ||| *self == first
                    ||| {
                        &&& self.read == 0
                        &&& chain::next_gcode(
                            first.file@.skip(first.at as int),
                            first.at as nat,
                            first.checksums,
                        ) matches Ok(Some(_))
                        &&& self.text@.len() == 0 ==> first.next() == self.next()
                        &&& self.text@.len() > 0 ==> first.next() == Ok::<
                            Option<(Seq<u8>, nat)>,
                            (Fault, nat),
                        >(Some((self.text@, self.at as nat)))
                    }
                },
            decreases self.file.len() - self.at,
        {
            let ghost before = *self;
            let ghost rest = self.file@.skip(self.at as int);
            proof {
                chain::lemma_next_gcode(rest, self.at as nat, self.checksums);
                assert(self.ready() =~= seq![]);
            }
            match self.next_block() {
                Ok(true) => {
                    assert(rest.skip(self.at - before.at) =~= self.file@.skip(self.at as int));
                },
                Ok(false) => {
                    assert(self.ready() =~= seq![]);
                    proof {
                        self.lemma_rest(first);
                    }
                    return Ok(());
                },
                Err(reason) => {
                    assert(self.ready() =~= seq![]);
                    return Err(fault::damaged(&reason));
                },
            }
        }
        proof {
            if first.ready().len() == 0 {
                assert(self.ready() =~= self.text@);
                self.lemma_rest(first);
            }
        }
        Ok(())
    }

    /// Decoding the next text, or finding that there is none, takes nothing from
    /// what is still to be read.
    proof fn lemma_rest(self, before: Self)
        requires
            before.at <= before.file@.len(),
            self.file == before.file,
            self.checksums == before.checksums,
            before.ready().len() == 0,
            before.next() matches Ok(Some((text, end))) ==> self.ready() == text && self.at == end,
            before.next() matches Ok(None) ==> self.ready().len() == 0 && self.at
                == before.file@.len(),
            before.next() is Ok,
        ensures
            self.rest() == before.rest(),
    {
        let rest = before.file@.skip(before.at as int);
        chain::lemma_next_text(rest, before.at as nat, before.checksums);
        let (all, _) = chain::gcode_from(rest, before.at as nat, before.checksums);
        assert(before.ready() + all =~= all);
        if let Ok(Some((_, end))) = before.next() {
            assert(rest.skip(end - before.at) =~= self.file@.skip(end as int));
        } else {
            let none = self.file@.skip(self.at as int);
            assert(none.len() == 0);
            assert(self.ready() + Seq::<u8>::empty() =~= Seq::<u8>::empty());
        }
    }

    /// The text that has been decoded and not read yet.
    pub fn buffer(&self) -> (ready: &[u8])
        requires
            self.valid(),
        ensures
            ready@ == self.ready(),
            ready@.len() <= self.rest().0.len(),
            ready@ == self.rest().0.take(ready@.len() as int),
    {
        let ready = slice_subrange(self.text.as_slice(), self.read, self.text.len());
        assert(ready@ =~= self.text@.skip(self.read as int));
        assert(ready@ =~= self.rest().0.take(ready@.len() as int));
        ready
    }

    /// Bytes of text the block being read holds.
    pub fn unpacked(&self) -> (length: usize)
        requires
            self.valid(),
        ensures
            length == self.block().len(),
            self.ready() == self.block().skip(length - self.ready().len()),
    {
        self.text.len()
    }

    /// Marks decoded text as read.
    pub fn consume(&mut self, amount: usize)
        requires
            old(self).valid(),
        ensures
            final(self).valid(),
            final(self).file() == old(self).file(),
            final(self).checks() == old(self).checks(),
            final(self).place() == old(self).place(),
            final(self).block() == old(self).block(),
            ({
                let taken = if amount <= old(self).ready().len() {
                    amount as int
                } else {
                    old(self).ready().len() as int
                };
                &&& final(self).ready() == old(self).ready().skip(taken)
                &&& final(self).rest() == (old(self).rest().0.skip(taken), old(self).rest().1)
            }),
    {
        let left = self.text.len() - self.read;
        let taken = if amount <= left {
            amount
        } else {
            left
        };
        let ghost before = *self;
        self.read = self.read + taken;
        assert(self.ready() =~= before.ready().skip(taken as int));
        assert(self.rest().0 =~= before.rest().0.skip(taken as int));
    }

    /// The text a read takes from: what is left of the block being read, or else
    /// the next one that holds any.
    pub open spec fn available(self) -> Seq<u8> {
        if self.ready().len() > 0 {
            self.ready()
        } else {
            match self.next() {
                Ok(Some((text, _))) => text,
                _ => seq![],
            }
        }
    }

    /// Reads text into `buffer`, as much as the current block and the buffer
    /// have in common. Nothing is read only where the text has ended or the
    /// buffer is empty.
    pub fn read(&mut self, buffer: &mut [u8]) -> (taken: Result<usize, String>)
        requires
            old(self).valid(),
        ensures
            final(self).valid(),
            final(self).file() == old(self).file(),
            final(self).checks() == old(self).checks(),
            taken is Err == (old(self).ready().len() == 0 && old(self).next() is Err),
            taken is Ok ==> {
                let count = taken->Ok_0 as int;
                let available = old(self).available();
                &&& count == if available.len() <= old(buffer)@.len() {
                    available.len()
                } else {
                    old(buffer)@.len()
                }
                &&& final(buffer)@ == available.take(count) + old(buffer)@.skip(count)
                &&& final(self).ready() == available.skip(count)
                &&& final(self).rest() == (old(self).rest().0.skip(count), old(self).rest().1)
                &&& final(self).place() == if old(self).ready().len() > 0 {
                    old(self).place()
                } else {
                    match old(self).next()->Ok_0 {
                        Some((_, end)) => end,
                        None => old(self).file().len(),
                    }
                }
                &&& final(self).block() == if old(self).ready().len() > 0 {
                    old(self).block()
                } else {
                    match old(self).next()->Ok_0 {
                        Some((text, _)) => text,
                        None => old(self).last_block(),
                    }
                }
            },
            taken is Err ==> {
                &&& final(buffer)@ == old(buffer)@
                &&& taken->Err_0@ == fault::damage((old(self).next()->Err_0).0)
                &&& final(self).ready() == Seq::<u8>::empty()
                &&& final(self).place() == (old(self).next()->Err_0).1
                &&& final(self).block() == old(self).last_block()
            },
    {
        match self.fill_buf() {
            Ok(()) => {},
            Err(reason) => {
                return Err(reason);
            },
        }
        let ghost all = old(self).available();
        let ghost filled = *self;
        let ghost before = buffer@;
        assert(self.ready() =~= all);
        let available = self.text.len() - self.read;
        let taken = if available <= buffer.len() {
            available
        } else {
            buffer.len()
        };
        let mut i: usize = 0;
        while i < taken
            invariant
                *self == filled,
                self.valid(),
                all == self.ready(),
                i <= taken <= buffer@.len() == before.len(),
                taken <= self.text.len() - self.read,
                buffer@ == all.take(i as int) + before.skip(i as int),
            decreases taken - i,
        {
            buffer[i] = self.text[self.read + i];
            i = i + 1;
            assert(buffer@ =~= all.take(i as int) + before.skip(i as int));
        }
        assert(taken == 0 ==> all.take(0) + before.skip(0) =~= before);
        self.consume(taken);
        Ok(taken)
    }

    /// Reads all the text there is, as far as the first fault.
    pub fn read_to_end(&mut self) -> (raw: Result<Vec<u8>, String>)
        requires
            old(self).valid(),
        ensures
            final(self).valid(),
            final(self).file() == old(self).file(),
            final(self).checks() == old(self).checks(),
            raw is Ok == old(self).rest().1 is None,
            raw is Ok ==> raw->Ok_0@ == old(self).rest().0,
            raw is Err ==> raw->Err_0@ == fault::damage(old(self).rest().1->0),
            final(self).ready() == Seq::<u8>::empty(),
            final(self).place() == chain::read_upto(
                old(self).file().skip(old(self).place() as int),
                old(self).place(),
                old(self).checks(),
            ),
    {
        let mut raw: Vec<u8> = Vec::new();
        assert(raw@ + self.rest().0 =~= old(self).rest().0);
        let ghost stop = chain::read_upto(
            self.file@.skip(self.at as int),
            self.at as nat,
            self.checksums,
        );
        loop
            invariant
                self.valid(),
                self.file == old(self).file,
                self.checksums == old(self).checksums,
                raw@ + self.rest().0 == old(self).rest().0,
                self.rest().1 == old(self).rest().1,
                stop == chain::read_upto(
                    self.file@.skip(self.at as int),
                    self.at as nat,
                    self.checksums,
                ),
                stop == chain::read_upto(
                    old(self).file().skip(old(self).place() as int),
                    old(self).place(),
                    old(self).checks(),
                ),
            decreases self.rest().0.len(),
        {
            let ghost before = *self;
            let ghost left = self.file@.skip(self.at as int);
            proof {
                chain::lemma_next_text(left, self.at as nat, self.checksums);
                if self.ready().len() == 0 {
                    let (more, _) = chain::gcode_from(left, self.at as nat, self.checksums);
                    assert(self.ready() + more =~= more);
                }
            }
            match self.fill_buf() {
                Ok(()) => {},
                Err(reason) => {
                    return Err(reason);
                },
            }
            proof {
                if before.ready().len() == 0 {
                    if let Ok(Some((_, end))) = before.next() {
                        assert(left.skip(end - before.at) =~= self.file@.skip(end as int));
                    }
                }
            }
            let ghost rest = self.rest().0;
            let ghost so_far = raw@;
            let count = self.buffer().len();
            if count == 0 {
                assert(raw@ + Seq::<u8>::empty() =~= raw@);
                return Ok(raw);
            }
            raw.extend_from_slice(self.buffer());
            self.consume(count);
            assert(raw@ =~= so_far + rest.take(count as int));
            assert(raw@ + self.rest().0 =~= so_far + rest);
        }
    }
}

} // verus!
