use bricklayers::bgcode;
use bricklayers::bgcode::fault::VERSION;
use bricklayers::bgcode::packing::Compression;
use bricklayers::bgcode::Container;
use bricklayers::double::Double;
use bricklayers::source::layer_height;
use bricklayers::Error;
use bricklayers::Source;

fn container() -> Container {
    Container {
        version: VERSION,
        checksums: true,
        prelude: Vec::new(),
        compression: Compression::Deflate,
        layer_heights: Vec::new(),
        first_layer_heights: Vec::new(),
        wall_width: None,
        nozzle: None,
    }
}

#[test]
fn plain_text_is_left_to_the_text_path() {
    assert!(!bgcode::is_binary(b"G1 X1 Y1 E1\n"));
    assert!(bgcode::parse(b"G1 X1 Y1 E1\n").is_err());
}

#[test]
fn a_file_is_opened_by_its_first_bytes() {
    let text = Source::open("part.gcode".to_owned(), b"G1 X").expect("text");
    assert_eq!(text.path(), "part.gcode");
    assert!(!text.is_binary());
    assert!(text.decoded().is_none() && text.container().is_none());

    let bytes = container().serialize("G1 X1 Y1 E1\n");
    let binary = Source::open("part.bgcode".to_owned(), &bytes).expect("binary");
    assert!(binary.is_binary());
    assert_eq!(binary.decoded(), Some("G1 X1 Y1 E1\n"));
    let kept = binary.container().expect("a container");
    assert_eq!(kept.compression, Compression::Deflate);
    assert_eq!(kept.serialize("G1 X1 Y1 E1\n"), bytes);
}

#[test]
fn a_damaged_container_is_refused_by_name() {
    let mut bytes = container().serialize("G1 X1 Y1 E1\n");
    *bytes.last_mut().expect("a checksum") ^= 0xff;
    let Err(error) = Source::open("part.bgcode".to_owned(), &bytes) else {
        panic!("the checksum is wrong");
    };
    assert!(matches!(error, Error::Bgcode { .. }));
    let message = error.message();
    assert!(message.starts_with("part.bgcode is not valid binary G-code: "), "{message}");
    assert!(message.contains("checksum"), "{message}");
}

/// A value that is not a height is no better than a missing one, so the next
/// block that states one counts.
#[test]
fn the_first_stated_height_that_is_one_counts() {
    let double = |value: f64| Some(Double::from_bits(value.to_bits()));
    assert_eq!(
        layer_height(&vec![None, double(-0.2), double(f64::NAN), double(0.25), double(0.3)]),
        double(0.25)
    );
    assert_eq!(layer_height(&vec![double(0.0), None]), None);
    assert_eq!(layer_height(&Vec::new()), None);
}
