use bricklayers::double::Double;
use bricklayers::gcode::fixed;
use bricklayers::gcode::line_text;
use bricklayers::gcode::number;
use bricklayers::gcode::strip;
use bricklayers::gcode::write_e;
use bricklayers::gcode::Code;
use bricklayers::gcode::Extruder;
use bricklayers::gcode::Line;
use bricklayers::gcode::Lines;
use bricklayers::gcode::Number;
use bricklayers::gcode::Relocation;
use bricklayers::gcode::Word;
use bricklayers::gcode::MAX_FIXED_DECIMALS;

fn double(value: f64) -> Double {
    Double::from_bits(value.to_bits())
}

fn float(value: Double) -> f64 {
    f64::from_bits(value.to_bits())
}

/// The value of a number as it was written: one division where both sides are
/// exact, and the standard parser otherwise.
fn worth(number: Number, text: &str) -> Option<f64> {
    match number {
        Number::Exact { negative, mantissa, decimals } => {
            let value = mantissa as f64 / 10f64.powi(i32::from(decimals));
            Some(if negative { -value } else { value })
        }
        Number::Handed => text.parse().ok(),
    }
}

fn read(text: &str) -> Option<f64> {
    worth(number(text.as_bytes())?, text)
}

fn value(line: &Line<'_>, word: Option<Word>) -> Option<f64> {
    let word = word?;
    worth(word.value, &line.raw[word.start..word.end])
}

fn plane(line: &Line<'_>) -> Option<(f64, f64)> {
    let (x, y) = line.xy()?;
    Some((value(line, Some(x))?, value(line, Some(y))?))
}

/// The digits of a value, laid down by the library where scaling it to an
/// integer is exact enough.
fn digits(value: f64, decimals: usize) -> Vec<u8> {
    let scaled = value * 10f64.powi(decimals as i32);
    let rounded = scaled.round();
    let exact = decimals <= usize::from(MAX_FIXED_DECIMALS)
        && !scaled.is_nan()
        && scaled.abs() < 1e15
        && (scaled - rounded).abs() < 0.5 - scaled.abs() * (4.0 * f64::EPSILON);
    if exact {
        fixed(value.is_sign_negative(), rounded.abs() as u64, decimals as u8)
    } else {
        format!("{value:.decimals$}").into_bytes()
    }
}

fn with_e(line: &Line<'_>, value: f64) -> String {
    let mut out = Vec::new();
    line.write_e(&mut out, &digits(value, 5));
    String::from_utf8(out).expect("G-code lines are UTF-8")
}

fn formatted(value: f64, decimals: usize) -> String {
    String::from_utf8(digits(value, decimals)).expect("digits are UTF-8")
}

fn lines_of(source: &str) -> Vec<String> {
    let mut lines = Lines::new(source.as_bytes());
    let mut out = Vec::new();
    while let Some(line) = lines.next_line() {
        out.push(line);
    }
    out
}

fn observe(extruder: &mut Extruder, value: f64) -> f64 {
    let difference = value - float(extruder.input);
    float(extruder.observe(double(value), double(difference)))
}

fn advance(extruder: &mut Extruder, delta: f64) -> f64 {
    let sum = float(extruder.output) + delta;
    float(extruder.advance(double(delta), double(sum)))
}

#[test]
fn reading_lines_matches_the_str_iterator() {
    for source in [
        "",
        "\n",
        "G1 X1",
        "G1 X1\n",
        "G1 X1\nG1 X2\n",
        "G1 X1\r\nG1 X2\r\n",
        "G1 X1\n\nG1 X2",
        "\r\n\r\n",
    ] {
        let expected: Vec<String> = source.lines().map(str::to_owned).collect();
        assert_eq!(lines_of(source), expected, "{source:?}");
    }
}

#[test]
fn a_line_that_is_not_utf8_is_repaired_rather_than_refused() {
    // A slicer naming an object in the host's legacy encoding.
    let source: &[u8] = b"G1 X1 E0.5\n; printing object Caf\xe9\nG1 X2 E0.5\n";
    let mut lines = Lines::new(source);
    let mut out = Vec::new();
    while let Some(line) = lines.next_line() {
        out.push(line);
    }

    assert_eq!(
        out,
        ["G1 X1 E0.5", "; printing object Caf\u{fffd}", "G1 X2 E0.5"],
        "only the offending byte may change, and only on its own line"
    );
}

#[test]
fn parses_words_and_command() {
    let line = Line::parse("G1 X10.5 Y-2 Z0.4 E0.05 F1800");
    assert_eq!(line.code, Code::Move);
    assert_eq!(plane(&line), Some((10.5, -2.0)));
    assert_eq!(value(&line, line.z), Some(0.4));
    assert_eq!(value(&line, line.e), Some(0.05));
    assert_eq!(value(&line, line.f), Some(1800.0));
}

#[test]
fn ignores_words_inside_comments() {
    let line = Line::parse("G1 X1 Y1 ; travel to Z99 E42");
    assert_eq!(line.z, None);
    assert_eq!(line.e, None);
    assert_eq!(line.comment(), Some(" travel to Z99 E42"));
}

#[test]
fn a_machine_limit_is_not_an_extrusion() {
    for raw in [
        "M201 X20000 Y20000 Z500 E5000",
        "M203 X500 Y500 Z20 E30",
        "M205 X9.00 Y9.00 Z3.00 E2.50 ; sets the jerk limits, mm/sec",
    ] {
        let line = Line::parse(raw);
        assert_eq!(line.e, None, "{raw}");
        assert_eq!(with_e(&line, 1.0), raw, "{raw} must survive a rewrite");
    }
    let line = Line::parse("G92 E0");
    assert_eq!(value(&line, line.e), Some(0.0));
    let line = Line::parse("G1 X1 E0.5");
    assert_eq!(value(&line, line.e), Some(0.5));
}

#[test]
fn recognises_extrusion_mode_commands() {
    assert_eq!(Line::parse("M82").code, Code::AbsoluteE);
    assert_eq!(Line::parse("M83 ; relative E").code, Code::RelativeE);
    assert_eq!(Line::parse("G92 E0").code, Code::SetPosition);
    assert_eq!(Line::parse("M104 S200").code, Code::Other);
    assert_eq!(Line::parse("").code, Code::Other);
    assert_eq!(Line::parse(";TYPE:Perimeter").code, Code::Other);
}

#[test]
fn rewrites_only_the_e_word() {
    let line = Line::parse("G1 X1 Y1 E0.05 F1800 ; keep E0.05 here");
    assert_eq!(
        with_e(&line, 0.075),
        "G1 X1 Y1 E0.07500 F1800 ; keep E0.05 here"
    );
}

#[test]
fn rewriting_a_line_without_e_is_a_copy() {
    let line = Line::parse("G1 X1 Y1");
    assert_eq!(with_e(&line, 1.0), "G1 X1 Y1");
}

#[test]
fn scanning_skips_the_plane_but_still_sees_it() {
    let line = Line::scan("G1 X10.5 Y-2 Z0.4 E0.05 F1800");
    assert_eq!((line.x, line.y), (None, None));
    assert!(line.is_xy_move(), "an X or Y word still marks a plane move");
    assert_eq!(value(&line, line.z), Some(0.4));
    assert_eq!(value(&line, line.e), Some(0.05));
    assert_eq!(value(&line, line.f), Some(1800.0));

    assert!(!Line::scan("G1 Z0.4 F600").is_xy_move());
}

#[test]
fn only_a_bare_comment_is_a_marker() {
    assert_eq!(
        Line::parse("  ;TYPE:Perimeter").marker(),
        Some("TYPE:Perimeter")
    );
    assert_eq!(Line::parse(";LAYER_CHANGE").marker(), Some("LAYER_CHANGE"));
    // The stamp this tool leaves rides a move, and must not read as one.
    let stamped = Line::parse("G1 Z0.300 F600 ; bricklayers brick raised");
    assert_eq!(stamped.marker(), None);
    assert_eq!(stamped.comment(), Some(" bricklayers brick raised"));
    assert_eq!(Line::parse("G1 X1 Y1").marker(), None);
    assert_eq!(Line::parse("G1 X1 ;TYPE:Perimeter").marker(), None);
}

/// The survey reads its lines with the plane skipped, so the two ways of
/// reading one have to agree about everything the survey looks at.
#[test]
fn scanning_agrees_with_a_full_parse_apart_from_the_plane() {
    for raw in [
        "G1 X10.5 Y-2 Z0.4 E0.05 F1800",
        "G1 Z0.4 F600",
        "G0 X1 Y1 F9000",
        "G2 X3 Y3 I1 J1 E0.5",
        "G92 E0",
        "M83",
        "M201 X20000 Y20000 Z500 E5000",
        ";TYPE:Perimeter",
        "G1 X1 Y1 ; travel to Z99 E42",
        "N42 G1 X1 Y2 E0.5*57",
        "",
    ] {
        let (full, scanned) = (Line::parse(raw), Line::scan(raw));
        assert_eq!(full.code, scanned.code, "{raw}");
        assert_eq!(full.z, scanned.z, "{raw}");
        assert_eq!(full.e, scanned.e, "{raw}");
        assert_eq!(full.f, scanned.f, "{raw}");
        assert_eq!(full.e_span(), scanned.e_span(), "{raw}");
        assert_eq!(full.comment(), scanned.comment(), "{raw}");
        assert_eq!(full.marker(), scanned.marker(), "{raw}");
        assert_eq!(full.is_xy_move(), scanned.is_xy_move(), "{raw}");
        assert_eq!(full.draws(), scanned.draws(), "{raw}");
    }
}

#[test]
fn reads_a_line_numbered_command() {
    // Marlin's serial dialect, line number in front and checksum behind.
    let line = Line::parse("N42 G1 X1 Y2 E0.5*57");
    assert_eq!(line.code, Code::Move);
    assert_eq!(plane(&line), Some((1.0, 2.0)));
    assert_eq!(value(&line, line.e), Some(0.5));
    assert_eq!(Line::parse("N7 M83").code, Code::RelativeE);
    assert_eq!(Line::parse("n7 g92 E0").code, Code::SetPosition);
    // `N` without digits is a word, not a line number.
    assert_eq!(Line::parse("NG1 X1").code, Code::Other);
}

#[test]
fn numbers_parse_bit_for_bit_like_the_standard_library() {
    let texts = [
        "0",
        "-0",
        "1",
        "+1",
        "1.",
        ".5",
        "-.5",
        "0.05",
        "10.5",
        "-2",
        "1800",
        "123456789.123456",
        "0.000000001",
        "1e3",
        "1.2.3",
        "--1",
        "",
        "-",
        ".",
        "1-2",
        "123456789012345",
        "1234567890123456",
        "000000000000000000001",
        "99999999999999999999",
    ];
    for text in texts {
        let expected = text.parse::<f64>().ok();
        let actual = read(text);
        assert_eq!(
            actual.map(f64::to_bits),
            expected.map(f64::to_bits),
            "{text:?} parsed as {actual:?}, expected {expected:?}"
        );
    }
}

/// Every shape a slicer writes a coordinate, a feedrate or an extrusion
/// in, at every precision it uses.
#[test]
fn every_slicer_shaped_number_parses_like_the_standard_library() {
    let mut checked = 0;
    let mut mismatches = 0;
    for whole in [0u64, 1, 7, 42, 250, 9000, 123456] {
        for fraction in 0..1000u64 {
            for decimals in [0usize, 1, 2, 3, 5] {
                for sign in ["", "-"] {
                    let text = if decimals == 0 {
                        format!("{sign}{whole}")
                    } else {
                        format!("{sign}{whole}.{fraction:0>decimals$}")
                    };
                    let expected = text.parse::<f64>().expect("well formed");
                    checked += 1;
                    mismatches += usize::from(
                        read(&text).map(f64::to_bits) != Some(expected.to_bits()),
                    );
                }
            }
        }
    }
    assert_eq!(mismatches, 0, "over {checked} numbers");
}

/// Every number this tool writes goes out at one of these precisions, so a
/// value has to survive being written and read back.
#[test]
fn a_written_number_reads_back_as_itself() {
    for decimals in [0usize, 3, 5] {
        for step in 0..2000 {
            let text = formatted(step as f64 * 0.0137 - 13.7, decimals);
            assert_eq!(
                read(&text).map(f64::to_bits),
                text.parse::<f64>().ok().map(f64::to_bits),
                "{text}"
            );
        }
    }
}

#[test]
fn fixed_point_output_matches_the_standard_formatter() {
    let mut value = 0.0f64;
    let mut mismatches = 0;
    for step in 0..200_000u64 {
        value = (value + 0.0137).rem_euclid(250.0);
        for (candidate, decimals) in [
            (value, 3),
            (value, 5),
            (value, 0),
            (-value, 3),
            // Odd sixteenths sit exactly on a half-way point at three
            // decimals, where `core` rounds to even and scaling does not.
            (step as f64 / 16.0, 3),
            (step as f64 * 0.5, 0),
        ] {
            mismatches += usize::from(
                formatted(candidate, decimals) != format!("{candidate:.decimals$}"),
            );
        }
    }
    assert_eq!(mismatches, 0);
}

#[test]
fn fixed_point_output_handles_the_awkward_values() {
    for (value, decimals) in [
        (0.0, 3),
        (-0.0, 3),
        (-0.0001, 3),
        (0.0625, 3),
        (0.0015, 3),
        (0.5, 0),
        (1.5, 0),
        (2.5, 0),
        (-2.5, 0),
        (f64::NAN, 3),
        (f64::INFINITY, 3),
        (f64::NEG_INFINITY, 3),
        (1e20, 3),
        (-1e20, 5),
        (f64::MAX, 3),
        (f64::MIN_POSITIVE, 5),
        // Wider than the fixed-point path lays down, so `core` takes it.
        (1.0, 12),
    ] {
        assert_eq!(
            formatted(value, decimals),
            format!("{value:.decimals$}"),
            "{value} at {decimals} decimals"
        );
    }
}

#[test]
fn relative_extruder_passes_deltas_through() {
    let mut extruder = Extruder::new();
    extruder.set_mode(Code::RelativeE);
    assert_eq!(observe(&mut extruder, 0.5), 0.5);
    assert_eq!(advance(&mut extruder, 0.75), 0.75);
}

#[test]
fn absolute_extruder_keeps_the_stream_continuous() {
    let mut extruder = Extruder::new();
    // 1.0 -> 2.0 asks for 1 mm; emitting 1.5 mm shifts everything after it.
    assert_eq!(observe(&mut extruder, 1.0), 1.0);
    assert_eq!(advance(&mut extruder, 1.5), 1.5);
    assert_eq!(observe(&mut extruder, 2.0), 1.0);
    assert_eq!(advance(&mut extruder, 1.0), 2.5);

    extruder.set_position(double(0.0));
    assert_eq!(observe(&mut extruder, 1.0), 1.0);
    assert_eq!(advance(&mut extruder, 1.0), 1.0, "a reset origin starts over");
}

/// A caller that buffers a region observes all of it before emitting any
/// of it, so the two positions are unrelated until replay catches up. The
/// value handed back is still the right one for each line in turn.
#[test]
fn an_extruder_read_ahead_of_its_output_still_meters_correctly() {
    let mut extruder = Extruder::new();
    let deltas: Vec<f64> = [1.0, 2.0, 3.0, 4.0]
        .into_iter()
        .map(|value| observe(&mut extruder, value))
        .collect();
    assert_eq!(deltas, [1.0, 1.0, 1.0, 1.0]);

    let emitted: Vec<f64> = deltas
        .iter()
        .map(|delta| advance(&mut extruder, delta * 1.5))
        .collect();
    assert_eq!(emitted, [1.5, 3.0, 4.5, 6.0]);
}

/// A line takes its terminator and nothing else, and a bare carriage return at
/// the end of the text is part of the last line.
#[test]
fn only_a_terminator_is_stripped() {
    assert_eq!(strip(b"G1 X1\r\n"), b"G1 X1");
    assert_eq!(strip(b"G1 X1\n"), b"G1 X1");
    assert_eq!(strip(b"G1 X1\r"), b"G1 X1\r");
    assert_eq!(strip(b""), b"");
    assert_eq!(lines_of("G1\rX1\nG2\r"), ["G1\rX1", "G2\r"]);
    assert_eq!(line_text(b"; \xe9\r\n"), "; \u{fffd}");
}

#[test]
fn numbers_are_read_as_they_were_written() {
    let exact = |negative, mantissa, decimals| Some(Number::Exact { negative, mantissa, decimals });
    assert_eq!(number(b"-12.50"), exact(true, 1250, 2));
    assert_eq!(number(b"+.5"), exact(false, 5, 1));
    assert_eq!(number(b"7."), exact(false, 7, 0));
    assert_eq!(number(b"1e3"), Some(Number::Handed));
    assert_eq!(number(b"1.2.3"), None);
    assert_eq!(number(b"1234567890123456"), Some(Number::Handed));
    assert_eq!(number(b""), None);
}

#[test]
fn what_is_laid_down_reads_back_as_it_was() {
    for (negative, scaled, decimals, text) in [
        (false, 0, 3, "0.000"),
        (true, 0, 3, "-0.000"),
        (false, 1250, 2, "12.50"),
        (true, 5, 5, "-0.00005"),
        (false, 42, 0, "42"),
    ] {
        let laid = fixed(negative, scaled, decimals);
        assert_eq!(laid, text.as_bytes());
        assert_eq!(
            number(&laid),
            Some(Number::Exact { negative, mantissa: scaled, decimals })
        );
    }
}

#[test]
fn a_height_rides_a_move() {
    let written = |raw: &str| {
        let mut out = Vec::new();
        Line::parse(raw).write_z(&mut out, b"0.300");
        String::from_utf8(out).expect("UTF-8")
    };
    assert_eq!(written("G1 X1 Y2 F9000"), "G1 X1 Y2 F9000 Z0.300");
    assert_eq!(written("G1 X1 Z0.2 Y2"), "G1 X1 Z0.300 Y2");
    assert_eq!(written("G1 X1 ; c"), "G1 X1 Z0.300 ; c");
    assert_eq!(written("G1 X1  ; go"), "G1 X1 Z0.300  ; go");
    assert_eq!(written("G1 X1;go"), "G1 X1 Z0.300;go");
    assert_eq!(written("G1 X1 \t"), "G1 X1 Z0.300 \t");
}

#[test]
fn a_line_is_taken_elsewhere_word_by_word() {
    let moved = |raw: &str, to: &Relocation<'_>| {
        let mut out = Vec::new();
        let written = Line::parse(raw).write_moved(&mut out, to);
        (written, String::from_utf8(out).expect("UTF-8"))
    };
    let plain = Relocation { x: b"1.500", y: b"2.500", centre: None, e: Some(b"0.30000"), z: None };
    assert_eq!(
        moved("G1 X1 Y2 E0.5 F1800 ; X9", &plain),
        (true, "G1 X1.500 Y2.500 E0.30000 F1800 ; X9".to_owned())
    );
    assert_eq!(moved("G1 Y2 X1", &plain), (true, "G1 Y2.500 X1.500".to_owned()));
    // A line that does not name both axes is left to the caller.
    assert_eq!(moved("G1 X1 E0.5", &plain), (false, String::new()));
    assert_eq!(moved("G1 Z0.4", &plain), (false, String::new()));

    let arc = Relocation { centre: Some((b"0.100", b"0.200")), ..plain };
    assert_eq!(
        moved("G2 X1 Y2 I0.5 J0.6 E0.5", &arc),
        (true, "G2 X1.500 Y2.500 I0.100 J0.200 E0.30000".to_owned())
    );
    assert_eq!(moved("G2 X1 Y2 I0.5 E0.5", &arc), (false, String::new()));

    let lifted = Relocation { x: b"1.500", y: b"2.500", centre: None, e: None, z: Some(b"0.300") };
    assert_eq!(moved("G1 X1 Y2 F9", &lifted), (true, "G1 X1.500 Y2.500 F9 Z0.300".to_owned()));
    assert_eq!(moved("G1 Z2 X1 Y2", &lifted), (true, "G1 Z0.300 X1.500 Y2.500".to_owned()));
}

#[test]
fn a_word_that_is_not_there_leaves_the_text_alone() {
    let mut out = b"; ".to_vec();
    write_e(&mut out, "G1 X1 E0.5", Some((7, 10)), b"1");
    write_e(&mut out, "M83", None, b"1");
    assert_eq!(out, b"; G1 X1 E1M83");
}

#[test]
fn only_an_arc_has_a_centre() {
    let arc = Line::parse("G3 X1 Y2 I0.5 J-0.5 E1");
    let (i, j, clockwise) = arc.arc().expect("an arc");
    assert_eq!(value(&arc, Some(i)), Some(0.5));
    assert_eq!(value(&arc, Some(j)), Some(-0.5));
    assert!(!clockwise);
    assert!(Line::parse("G2 X1 I1 J1").clockwise);
    assert!(Line::parse("G1 X1 I1 J1").arc().is_none());
    assert!(Line::parse("G2 X1 R5").arc().is_none());
}

#[test]
fn an_origin_reaches_each_stream_at_its_own_time() {
    let mut extruder = Extruder::default();
    assert!(extruder.is_absolute());
    assert_eq!(observe(&mut extruder, 5.0), 5.0);
    extruder.observe_origin(double(0.0));
    assert_eq!(observe(&mut extruder, 2.0), 2.0);
    assert_eq!(advance(&mut extruder, 5.0), 5.0);
    extruder.advance_origin(double(0.0));
    assert_eq!(advance(&mut extruder, 2.0), 2.0);
}

/// What a line says, word by word.
fn says(text: &str) -> Vec<Option<f64>> {
    let line = Line::parse(text);
    let words = [line.x, line.y, line.z, line.e, line.f, line.i, line.j];
    words.iter().map(|word| value(&line, *word)).collect()
}

#[test]
fn a_rewritten_word_says_what_it_was_given_and_the_rest_what_they_said() {
    let raw = "g1 F1800 X10.5 E0.04 Y-3 ; E9";
    let mut out = Vec::new();
    Line::parse(raw).write_e(&mut out, b"-0.05125");
    let made = String::from_utf8(out).expect("UTF-8");
    assert_eq!(made, "g1 F1800 X10.5 E-0.05125 Y-3 ; E9");
    assert_eq!(
        says(&made),
        [Some(10.5), Some(-3.0), None, Some(-0.05125), Some(1800.0), None, None]
    );
    assert_eq!(Line::parse(&made).code, Line::parse(raw).code);
    assert_eq!(Line::parse(&made).comment(), Some(" E9"));
}

#[test]
fn a_height_put_behind_a_line_reads_back() {
    for raw in ["G0 X1 Y2 F9000", "G1 X1 Y2 \t ; go", "N7 G1 X1 Y2", "N7"] {
        let mut out = Vec::new();
        Line::parse(raw).write_z(&mut out, b"0.300");
        let made = String::from_utf8(out).expect("UTF-8");
        let mut wanted = says(raw);
        wanted[2] = Some(0.3);
        assert_eq!(says(&made), wanted, "{made}");
        assert_eq!(Line::parse(&made).code, Line::parse(raw).code, "{made}");
    }
}

#[test]
fn a_moved_line_says_what_it_was_given_and_the_rest_as_before() {
    let raw = "G3 J-5 E0.5 Y2 F900 I3 X1  ; ring";
    let to = Relocation {
        x: b"10.125",
        y: b"-2",
        centre: Some((b"0.5", b"0.25")),
        e: None,
        z: Some(b"0.3"),
    };
    let mut out = Vec::new();
    assert!(Line::parse(raw).write_moved(&mut out, &to));
    let made = String::from_utf8(out).expect("UTF-8");
    assert_eq!(made, "G3 J0.25 E0.5 Y-2 F900 I0.5 X10.125 Z0.3  ; ring");
    assert_eq!(
        says(&made),
        [Some(10.125), Some(-2.0), Some(0.3), Some(0.5), Some(900.0), Some(0.5), Some(0.25)]
    );
    assert_eq!(Line::parse(&made).code, Code::Arc);
    assert!(!Line::parse(&made).clockwise);
    assert_eq!(Line::parse(&made).comment(), Some(" ring"));
}

/// Everything but the word that is put in is copied byte for byte.
#[test]
fn taking_a_height_out_again_gives_the_line_back() {
    for raw in ["G1 X1 ; c", "G1 X1\t", "  G0 Y2 F9000  ;a ; b", "G1 X1", "; only this", ""] {
        let mut out = Vec::new();
        Line::parse(raw).write_z(&mut out, b"0.900");
        let made = String::from_utf8(out).expect("UTF-8");
        assert_eq!(made.replacen(" Z0.900", "", 1), raw);
        assert_eq!(made.len(), raw.len() + 7);
    }
}
