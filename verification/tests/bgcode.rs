use bricklayers::bgcode::block_end;
use bricklayers::bgcode::chain;
use bricklayers::bgcode::chain::CHECKSUM;
use bricklayers::bgcode::chain::GCODE_BLOCK;
use bricklayers::bgcode::chain::HEADER;
use bricklayers::bgcode::fault::VERSION;
use bricklayers::bgcode::is_binary;
use bricklayers::bgcode::layout::BLOCK_TARGET;
use bricklayers::bgcode::metadata::setting;
use bricklayers::bgcode::packing::compress;
use bricklayers::bgcode::packing::decompress;
use bricklayers::bgcode::packing::Compression;
use bricklayers::bgcode::parse;
use bricklayers::bgcode::Container;
use bricklayers::double::Double;
use bricklayers::gcode::Lines;
use bricklayers::source::layer_height;

const MAGIC: &[u8] = b"GCDE";

fn container() -> Container {
    Container {
        version: VERSION,
        checksums: true,
        prelude: Vec::new(),
        compression: Compression::Heatshrink12,
        layer_heights: Vec::new(),
        first_layer_heights: Vec::new(),
        wall_width: None,
        nozzle: None,
    }
}

/// Walks a serialized file and counts its G-code blocks.
fn gcode_blocks(bytes: &[u8]) -> usize {
    let (_, checksums) = chain::file_header(bytes).expect("file header");
    let mut at = HEADER;
    let mut blocks = 0;
    while at < bytes.len() {
        let (header, end) = chain::read_block(bytes, at, checksums).expect("block");
        blocks += usize::from(header.kind == GCODE_BLOCK);
        at = end;
    }
    blocks
}

/// A container built by hand, so a block can hold exactly these bytes rather
/// than whatever the writer's own boundaries would produce.
fn packed(container: &Container, chunks: &[&[u8]]) -> Vec<u8> {
    let mut bytes = Vec::new();
    bytes.extend_from_slice(MAGIC);
    bytes.extend_from_slice(&container.version.to_le_bytes());
    bytes.extend_from_slice(&u16::from(container.checksums).to_le_bytes());
    bytes.extend_from_slice(&container.prelude);
    for chunk in chunks {
        bytes.extend_from_slice(&container.block(chunk));
    }
    bytes
}

/// One metadata block, the shape a slicer writes its settings in.
fn metadata(container: &Container, kind: u16, ini: &str) -> Vec<u8> {
    let payload = compress(ini.as_bytes(), container.compression);
    let mut block = Vec::new();
    block.extend_from_slice(&kind.to_le_bytes());
    block.extend_from_slice(&container.compression.code().to_le_bytes());
    block.extend_from_slice(&(ini.len() as u32).to_le_bytes());
    block.extend_from_slice(&(payload.len() as u32).to_le_bytes());
    block.extend_from_slice(&0u16.to_le_bytes());
    block.extend_from_slice(&payload);
    if container.checksums {
        block.extend_from_slice(&crc32fast::hash(&block).to_le_bytes());
    }
    block
}

fn number(text: &[u8]) -> Option<Double> {
    let text = String::from_utf8(text.to_vec()).ok()?;
    let value: f64 = text.parse().ok()?;
    Some(Double::from_bits(value.to_bits()))
}

/// The first height the metadata states, the way a file's own is settled.
fn first_height(texts: &[Vec<u8>]) -> Option<f64> {
    let stated: Vec<Option<Double>> = texts.iter().map(|text| number(text)).collect();
    layer_height(&stated).map(|height| f64::from_bits(height.to_bits()))
}

/// The height one metadata block states.
fn height(ini: &[u8], key: &str) -> Option<f64> {
    first_height(&[setting(ini, key)?.to_vec()])
}

#[test]
fn rejects_plain_text() {
    assert!(!is_binary(b"G1 X1 Y1\n"));
    assert!(parse(b"G1 X1 Y1\n").is_err());
}

#[test]
fn round_trips_through_the_container() {
    let gcode = "; header\nG1 X1 Y1 E1\n;TYPE:Perimeter\nG1 X2 Y2 E2\n".repeat(400);
    let bytes = container().serialize(&gcode);

    assert!(is_binary(&bytes));
    let (parsed, text) = parse(&bytes).expect("round trip should parse");
    assert_eq!(text, gcode);
    assert_eq!(parsed.compression, Compression::Heatshrink12);
}

#[test]
fn round_trips_under_every_compression() {
    let gcode = "G1 X1 Y1 E1\n".repeat(9000);
    for packing in [
        Compression::Stored,
        Compression::Deflate,
        Compression::Heatshrink11,
        Compression::Heatshrink12,
    ] {
        let mut source = container();
        source.compression = packing;
        let bytes = source.serialize(&gcode);
        let (_, text) = parse(&bytes).unwrap_or_else(|error| panic!("{packing:?}: {error}"));
        assert_eq!(text, gcode, "{packing:?}");
    }
}

#[test]
fn round_trips_without_checksums() {
    let mut source = container();
    source.checksums = false;
    let bytes = source.serialize("G1 X1\n");
    assert_eq!(parse(&bytes).unwrap().1, "G1 X1\n");
}

#[test]
fn a_corrupted_byte_fails_the_checksum() {
    let mut bytes = container().serialize("G1 X1 Y1 E1\n");
    *bytes.last_mut().unwrap() ^= 0xFF;
    assert!(parse(&bytes).unwrap_err().contains("checksum"));
}

#[test]
fn a_block_ends_at_the_first_line_break_past_the_target() {
    let mut data = vec![b'x'; BLOCK_TARGET * 2];
    data[BLOCK_TARGET - 2] = b'\n';
    data[BLOCK_TARGET + 5] = b'\n';
    assert_eq!(block_end(&data), Some(BLOCK_TARGET + 6));

    // Too short to close a block, and long enough but with nowhere to cut.
    assert_eq!(block_end(b"G1 X1\n"), None);
    assert_eq!(block_end(&vec![b'x'; BLOCK_TARGET * 2]), None);
}

#[test]
fn long_gcode_is_split_across_blocks() {
    let gcode = "G1 X123.456 Y234.567 E1.234\n".repeat(20_000);
    let bytes = container().serialize(&gcode);

    assert!(gcode_blocks(&bytes) > 1, "expected several blocks");
    assert_eq!(parse(&bytes).expect("round trip").1, gcode);
}

#[test]
fn a_trailing_line_without_a_newline_survives() {
    let bytes = container().serialize("G1 X1\nG1 X2");
    assert_eq!(parse(&bytes).expect("round trip").1, "G1 X1\nG1 X2");
    assert_eq!(gcode_blocks(&bytes), 1);
}

#[test]
fn empty_gcode_writes_no_blocks() {
    let bytes = container().serialize("");
    assert_eq!(gcode_blocks(&bytes), 0);
    assert_eq!(parse(&bytes).expect("round trip").1, "");
}

/// The block layout has to depend on the text alone, not on how the
/// transform happened to hand it over.
#[test]
fn chunked_writes_produce_an_identical_file() {
    let gcode = "; a comment\nG1 X1 Y1 E1\n".repeat(8_000);
    let whole = container().serialize(&gcode);

    for chunk in [1, 7, 4096, BLOCK_TARGET, BLOCK_TARGET * 3] {
        let source = container();
        let mut writer = source.writer();
        let mut file = Vec::new();
        for piece in gcode.as_bytes().chunks(chunk) {
            writer.write_all(piece);
            file.extend(writer.take_ready());
        }
        file.extend(writer.finish());
        assert_eq!(file, whole, "chunk size {chunk}");
    }
}

/// The whole point of the block reader: a file's G-code is decoded a block
/// at a time, so what is held never grows with the print.
#[test]
fn only_one_block_is_unpacked_at_a_time() {
    let gcode = "G1 X123.456 Y234.567 E1.234\n".repeat(40_000);
    let bytes = container().serialize(&gcode);
    assert!(gcode_blocks(&bytes) > 10, "expected many blocks");

    let mut reader = container().blocks(&bytes).expect("start reader");
    let mut read = Vec::new();
    let mut buffer = [0u8; 1024];

    loop {
        let taken = reader.read(&mut buffer).expect("read");
        if taken == 0 {
            break;
        }
        read.extend_from_slice(&buffer[..taken]);
        assert!(
            reader.unpacked() <= BLOCK_TARGET * 2,
            "{} bytes unpacked after {} read",
            reader.unpacked(),
            read.len()
        );
    }
    assert_eq!(read, gcode.as_bytes());
}

/// Blocks written elsewhere need not end on a line, and a reader that
/// returned bytes a block at a time would cut such a line in half.
#[test]
fn a_line_split_across_two_blocks_is_read_whole() {
    let bytes = packed(&container(), &[b"G1 X1 Y1 ", b"E1\nG1 X2\n"]);
    assert_eq!(gcode_blocks(&bytes), 2);

    let mut lines = Vec::new();
    let mut reader = container().blocks(&bytes).expect("reader");
    let text = reader.read_to_end().expect("text");
    let mut source = Lines::new(&text);
    while let Some(line) = source.next_line() {
        lines.push(line);
    }
    assert_eq!(lines, ["G1 X1 Y1 E1", "G1 X2"]);
}

/// Reading in awkward steps must not lose or repeat a byte at a block
/// boundary, whatever size the caller asks for.
#[test]
fn any_read_size_returns_the_same_stream() {
    let gcode = "; a comment\nG1 X1 Y1 E1\n".repeat(8_000);
    let bytes = container().serialize(&gcode);

    for size in [1, 3, 4096, BLOCK_TARGET - 1, BLOCK_TARGET * 3] {
        let mut reader = container().blocks(&bytes).expect("reader");
        let mut read = Vec::new();
        let mut buffer = vec![0u8; size];
        loop {
            let taken = reader.read(&mut buffer).expect("read");
            if taken == 0 {
                break;
            }
            read.extend_from_slice(&buffer[..taken]);
        }
        assert_eq!(read, gcode.as_bytes(), "read size {size}");
    }
}

/// Opening a file walks its block headers without unpacking any G-code, so
/// a G-code block that will not decode has to survive that walk and fail on
/// the pass that reads it — which is still before a byte of output.
#[test]
fn opening_a_file_does_not_decode_its_gcode() {
    let sound = packed(&container(), &[b"G1 X1 Y1 E1\n"]);

    // A size only a decode compares against what it unpacked. The stored
    // length is untouched, so the walk still steps over exactly the block.
    let mut lying = sound.clone();
    lying[HEADER + 4..HEADER + 8].copy_from_slice(&99u32.to_le_bytes());
    let repaired = crc32fast::hash(&lying[HEADER..lying.len() - CHECKSUM]);
    let end = lying.len() - CHECKSUM;
    lying[end..].copy_from_slice(&repaired.to_le_bytes());

    Container::read(&lying).expect("the walk should not decode");
    assert!(
        parse(&lying).is_err(),
        "a block that lies should not decode"
    );

    // And a G-code block's checksum, which the walk steps over with it.
    let mut corrupt = sound.clone();
    *corrupt.last_mut().unwrap() ^= 0xFF;

    Container::read(&corrupt).expect("the walk should not checksum G-code");
    assert!(parse(&corrupt).expect_err("corrupt").contains("checksum"));
}

/// A rewrite puts the prelude back before the G-code it packs, so a
/// metadata block that trailed the G-code must still be found and kept.
#[test]
fn metadata_is_found_wherever_it_sits() {
    let source = container();
    let mut bytes = packed(&source, &[b"G1 X1 Y1 E1\n"]);
    let trailing = metadata(&source, 4, "layer_height=0.25\nfirst_layer_height=0.3\n");
    bytes.extend_from_slice(&trailing);

    let container = Container::read(&bytes).expect("walk the chain");
    assert_eq!(first_height(&container.layer_heights), Some(0.25));
    assert_eq!(first_height(&container.first_layer_heights), Some(0.3));
    assert_eq!(container.prelude, trailing, "kept byte for byte");
    assert_eq!(parse(&bytes).expect("decode").1, "G1 X1 Y1 E1\n");
}

/// A truncated file is refused when it is opened, before a transform has a
/// chance to write anything.
#[test]
fn a_file_that_ends_inside_a_block_is_refused() {
    let bytes = container().serialize(&"G1 X1 Y1 E1\n".repeat(200));
    for cut in [HEADER + 3, HEADER + 12, bytes.len() - 1] {
        let error = Container::read(&bytes[..cut])
            .expect_err("a short file should not parse");
        assert!(error.contains("ends inside"), "{cut}: {error}");
    }
}

/// A length taken from the file must fail as a short read rather than be
/// reserved for, or a corrupt header becomes a four gigabyte allocation.
#[test]
fn an_impossible_block_length_is_not_allocated_for() {
    let mut bytes = container().serialize("G1 X1 Y1 E1\n");
    bytes[HEADER + 8..HEADER + 12].copy_from_slice(&u32::MAX.to_le_bytes());
    assert!(
        Container::read(&bytes)
            .expect_err("an impossible length should not parse")
            .contains("ends inside")
    );
}

#[test]
fn reads_a_metadata_setting() {
    assert_eq!(
        height(b"a=1\nlayer_height=0.25\nz=9\n", "layer_height"),
        Some(0.25)
    );
    assert_eq!(height(b"first_layer_height=0.3\n", "layer_height"), None);
}

/// Both keys are heights the nozzle is driven by, so a metadata block that
/// states one that is not a length must read as if it had said nothing.
#[test]
fn a_metadata_height_that_is_not_a_length_is_ignored() {
    for value in ["0", "-0.2", "nan", "inf", "thick", ""] {
        let ini = format!("layer_height={value}\n");
        assert_eq!(height(ini.as_bytes(), "layer_height"), None, "{value}");
    }
}

/// Everything a compression packs unpacks to what went in, and no compression
/// hands its input back.
#[test]
fn every_compression_packs_and_unpacks() {
    let data = b"G1 X1 Y1 E1\n".repeat(50);
    for packing in [
        Compression::Deflate,
        Compression::Heatshrink11,
        Compression::Heatshrink12,
    ] {
        let stored = compress(&data, packing);
        assert!(stored.len() < data.len(), "{packing:?}");
        assert_eq!(decompress(&stored, packing, data.len()), Ok(data.clone()), "{packing:?}");
    }
    assert_eq!(compress(&data, Compression::Stored), data);
}

#[test]
fn a_stream_that_is_not_deflate_is_refused() {
    let error = decompress(b"not deflate", Compression::Deflate, 4).expect_err("no zlib header");
    assert!(error.starts_with("deflate stream: "), "{error}");
}

#[test]
fn a_block_that_holds_another_length_than_promised_is_refused() {
    assert_eq!(
        decompress(b"abc", Compression::Stored, 4),
        Err("block holds 3 bytes but its header promised 4".to_owned())
    );
    assert_eq!(
        decompress(b"", Compression::Heatshrink12, 4),
        Err("heatshrink stream ends early".to_owned())
    );
}

/// A literal is a set bit and eight more; a reference a clear bit, the distance
/// less one and the length less one.
#[test]
fn heatshrink_streams_are_read_bit_by_bit() {
    // 'a' and then three more of it, one back: 1 01100001, 0 00000000000 0010.
    let stored = [0b1011_0000, 0b1000_0000, 0b0000_0001, 0b0000_0000];
    assert_eq!(decompress(&stored, Compression::Heatshrink11, 4), Ok(b"aaaa".to_vec()));
}

#[test]
fn every_fault_of_a_header_is_named() {
    let sound = packed(&container(), &[b"G1 X1\n"]);
    let refused = |bytes: &[u8]| Container::read(bytes).expect_err("a fault");

    assert_eq!(refused(b"GCD"), "missing GCDE magic number");
    assert_eq!(refused(b"GCDX\x01\0\0\0\x01\0"), "missing GCDE magic number");

    let mut bytes = sound.clone();
    bytes[4] = 2;
    assert_eq!(refused(&bytes), "version 2 is newer than 1");

    let mut bytes = sound.clone();
    bytes[8] = 7;
    assert_eq!(refused(&bytes), "unknown checksum type 7");

    let mut bytes = sound.clone();
    bytes[HEADER + 2] = 9;
    assert_eq!(refused(&bytes), "unknown compression type 9");

    let mut bytes = sound.clone();
    bytes[HEADER] = 6;
    assert_eq!(refused(&bytes), "unknown block type 6");
}

#[test]
fn a_metadata_block_that_does_not_add_up_is_refused() {
    let source = container();
    let mut bytes = packed(&source, &[]);
    bytes.extend_from_slice(&metadata(&source, 4, "layer_height=0.25\n"));
    *bytes.last_mut().expect("a checksum") ^= 1;
    assert_eq!(
        Container::read(&bytes).expect_err("a bad checksum"),
        "checksum mismatch in the block at byte 10"
    );
}

#[test]
fn an_unknown_text_encoding_is_refused() {
    let source = Container { checksums: false, ..container() };
    let mut bytes = packed(&source, &[b"G1 X1\n"]);
    bytes[HEADER + 12] = 3;
    assert_eq!(
        parse(&bytes).expect_err("no such encoding"),
        "not valid binary G-code: unknown G-code encoding 3"
    );
}

/// The two MeatPack encodings go through the unpacker.
#[test]
fn meatpacked_blocks_are_unpacked() {
    let source = Container { checksums: false, compression: Compression::Stored, ..container() };
    let mut bytes = packed(&source, &[&[0xff, 0xff, 251, 0x1d, 0x1e, 0xc2]]);
    for encoding in [1, 2] {
        bytes[HEADER + 8] = encoding;
        assert_eq!(parse(&bytes).expect("meatpacked").1, "G1 X12\n");
    }
}

/// What is not UTF-8 in the G-code of a container is repaired, and nothing else
/// of it changes.
#[test]
fn gcode_that_is_not_utf8_is_repaired() {
    let bytes = packed(&container(), &[b"; Caf\xe9\nG1 X1\n"]);
    assert_eq!(parse(&bytes).expect("repaired").1, "; Caf\u{fffd}\nG1 X1\n");
}

/// A rewrite keeps every block that is not G-code where it was, byte for byte,
/// with what it states.
#[test]
fn a_rewrite_keeps_the_prelude_and_what_it_states() {
    let mut source = container();
    source.prelude = metadata(
        &source,
        4,
        "layer_height = 0.25\nperimeter_extrusion_width=112%\nnozzle_diameter=0.4\n",
    );
    let written = source.serialize("G1 X1 Y1 E1\n");
    let (kept, text) = parse(&written).expect("round trip");
    assert_eq!(text, "G1 X1 Y1 E1\n");
    assert_eq!(kept.prelude, source.prelude);
    assert_eq!(first_height(&kept.layer_heights), Some(0.25));
    assert_eq!(kept.wall_width.as_deref(), Some(&b"112%"[..]));
    assert_eq!(kept.nozzle.as_deref(), Some(&b"0.4"[..]));

    let again = kept.serialize(&text);
    assert_eq!(again, written);
}

/// Settings are text; a block that is not states nothing.
#[test]
fn metadata_that_is_not_text_states_nothing() {
    assert_eq!(setting(b"layer_height=0.25\nname=\xff\n", "layer_height"), None);
    assert_eq!(setting(b" layer_height = 0.25 \r\n", "layer_height"), Some(&b"0.25"[..]));
}

/// A block leaves the writer as soon as its text is there, and nothing of the
/// next one does before its own is.
#[test]
fn only_an_unfinished_block_is_held_back() {
    let source = container();
    let first = vec![b'a'; BLOCK_TARGET - 1];
    let mut writer = source.writer();
    writer.write_all(&first);
    // Nothing but the head of the file, while the block is a byte short.
    assert_eq!(writer.take_ready(), packed(&source, &[]));
    writer.write_all(b"\nG1 X1\n");
    let whole = [&first[..], b"\n"].concat();
    assert_eq!(writer.take_ready(), source.block(&whole));
    assert_eq!(writer.take_ready(), b"");
    assert_eq!(writer.finish(), source.block(b"G1 X1\n"));
}

/// A read ends where the block it is taken from does.
#[test]
fn a_read_takes_no_more_than_one_block_has() {
    let source = container();
    let file = packed(&source, &[b"G1 X1\n", b"G1 X2\nG1 X3\n"]);
    let mut reader = source.blocks(&file).expect("start reader");
    let mut buffer = [0u8; 8];
    let mut counts = Vec::new();
    loop {
        let count = reader.read(&mut buffer).expect("a sound file");
        counts.push(count);
        if count == 0 {
            break;
        }
    }
    assert_eq!(counts, [6, 8, 4, 0]);
}

/// What is decoded is the text of one block, whatever follows it.
#[test]
fn a_fill_decodes_the_next_block_that_holds_text_and_no_other() {
    let source = container();
    let mut file = packed(&source, &[b"G1 X1\n", b"", b"G1 X2\nG1 X3\n"]);
    file.extend(metadata(&source, 4, "nozzle_diameter=0.4\n"));
    file.extend(source.block(b"G1 X4\n"));
    let mut reader = source.blocks(&file).expect("start reader");
    assert_eq!(reader.unpacked(), 0);
    for text in [&b"G1 X1\n"[..], b"G1 X2\nG1 X3\n", b"G1 X4\n"] {
        reader.fill_buf().expect("a sound file");
        assert_eq!(reader.buffer(), text);
        assert_eq!(reader.unpacked(), text.len());
        // A second fill finds the text still there.
        reader.fill_buf().expect("a sound file");
        assert_eq!(reader.buffer(), text);
        reader.consume(text.len());
    }
    reader.fill_buf().expect("a sound file");
    assert_eq!(reader.buffer(), b"");
}

/// A faulty block has been read by the time its fault is known, so reading goes
/// on behind it.
#[test]
fn reading_goes_on_behind_a_faulty_block() {
    let source = container();
    let mut file = packed(&source, &[b"G1 X1\n"]);
    let last = file.len() - 1;
    file[last] ^= 1;
    file.extend(source.block(b"G1 X2\n"));
    let mut reader = source.blocks(&file).expect("start reader");
    assert_eq!(
        reader.read_to_end(),
        Err("not valid binary G-code: checksum mismatch in the block at byte 10".to_owned())
    );
    assert_eq!(reader.read_to_end(), Ok(b"G1 X2\n".to_vec()));
    assert_eq!(reader.read_to_end(), Ok(Vec::new()));

    // Nothing is left behind a block that the file ends inside.
    let short = &file[..file.len() - 1];
    let mut reader = source.blocks(short).expect("start reader");
    assert!(reader.read_to_end().is_err());
    assert!(reader.read_to_end().expect_err("cut short").contains("file ends inside the block"));
    assert_eq!(reader.read_to_end(), Ok(Vec::new()));

    // Only the kind and the packing have been read where one is unknown.
    let mut file = packed(&source, &[]);
    file.extend([9, 0, 0, 0]);
    file.extend(source.block(b"G1 X3\n"));
    let mut reader = source.blocks(&file).expect("start reader");
    let mut buffer = [0u8; 8];
    assert_eq!(
        reader.read(&mut buffer),
        Err("not valid binary G-code: unknown block type 9".to_owned())
    );
    assert_eq!(reader.read(&mut buffer), Ok(6));
    assert_eq!(&buffer[..6], b"G1 X3\n");
}

/// The checksum behind a block, bit by bit.
#[test]
fn a_block_ends_in_its_ieee_checksum() {
    let sum = |bytes: &[u8]| {
        let mut sum = u32::MAX;
        for byte in bytes {
            sum ^= u32::from(*byte);
            for _ in 0..8 {
                sum = if sum & 1 == 1 { (sum >> 1) ^ 0xedb8_8320 } else { sum >> 1 };
            }
        }
        !sum
    };
    assert_eq!(sum(b"123456789"), 0xcbf4_3926);
    for text in [&b""[..], b"G1 X1\n", &[0xff; 300]] {
        let block = container().block(text);
        let (covered, stored) = block.split_at(block.len() - CHECKSUM);
        assert_eq!(stored, sum(covered).to_le_bytes());
    }
}

/// However long a stream of lines runs, the writer holds less than two blocks of
/// it; what holds no line feed it holds whole.
#[test]
fn less_than_two_blocks_are_held_back() {
    let source = Container { compression: Compression::Stored, checksums: false, ..container() };
    let mut writer = source.writer();
    let line = [vec![b'a'; BLOCK_TARGET - 1], vec![b'\n']].concat();
    let (mut taken, mut made) = (0, 0);
    for _ in 0..5 {
        for piece in line.chunks(1000) {
            writer.write_all(piece);
            taken += piece.len();
            made += writer.take_ready().len();
            assert!(taken < made + 2 * BLOCK_TARGET);
        }
    }
    let mut writer = source.writer();
    writer.write_all(&vec![b'a'; 3 * BLOCK_TARGET]);
    assert_eq!(writer.take_ready(), packed(&source, &[]));
}
