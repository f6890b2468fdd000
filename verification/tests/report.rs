use bricklayers::brick::pass::Config;
use bricklayers::double::Double;
use bricklayers::report::applied;
use bricklayers::report::is_steep;
use bricklayers::report::raised_by;
use bricklayers::report::refusal;
use bricklayers::report::resolve;
use bricklayers::report::warnings;
use bricklayers::report::widened;
use bricklayers::report::within;
use bricklayers::report::Known;
use bricklayers::report::Refusal;
use bricklayers::report::Warning;
use bricklayers::scan::Measures;
use bricklayers::scan::Scan;
use bricklayers::scan::Survey;
use bricklayers::slicer::Settings;
use bricklayers::slicer::WallOrder;
use bricklayers::gcode::Line;
use bricklayers::Error;

fn double(value: f64) -> Double {
    Double::from_bits(value.to_bits())
}

/// A survey of lines that measure nothing.
fn survey(source: &str, varies: bool) -> Survey {
    let mut scan = Scan::new();
    for (index, raw) in source.lines().enumerate() {
        let measures = Measures {
            height: None,
            rise: double(0.2),
            x: double(0.0),
            y: double(0.0),
            z: double(0.2 * (index + 1) as f64),
            e: double(0.0),
            f: double(0.0),
            fed: double(0.0),
            step: 200,
            path: &[],
        };
        scan.feed(&Line::parse(raw), &measures);
    }
    scan.end(double(0.2)).finish(varies)
}

fn config() -> Config {
    Config {
        layer_height: None,
        wall_flow: Some(double(1.5)),
        extra_flow: double(0.05),
        wall_width: None,
        external_perimeters_first: false,
    }
}

fn nothing() -> Known {
    Known {
        slicer_height: None,
        file_height: None,
        slicer_width: None,
        file_width: None,
        survey_width: None,
    }
}

/// The dial is a percentage; zero is a real setting, and nothing outside the
/// range or that is no number gets past it.
#[test]
fn the_extra_flow_is_held_to_its_range() {
    let held = |text: &str| {
        within(text.parse::<f64>().ok().map(double), double(0.0), double(50.0))
    };
    for accepted in ["0", "2.5", "5", "12", "50"] {
        assert_eq!(held(accepted), Ok(double(accepted.parse().expect("a number"))));
    }
    for rejected in ["-0.1", "50.1", "-1", "nan", "inf", "more"] {
        assert!(held(rejected).is_err(), "{rejected} should be rejected");
    }
    assert_eq!(held("more"), Err(Refusal::NotANumber));
    assert_eq!(held("nan"), Err(Refusal::NotFinite));
    assert_eq!(held("50.1"), Err(Refusal::Outside));
}

#[test]
fn a_bricked_file_is_refused_unless_forced() {
    let bricked = survey("G1 Z0.3 F600 ; bricklayers brick raised\n", false);
    let fresh = survey("G1 Z0.3 F600\n", false);
    let path = || "part.gcode".to_owned();
    let refused = refusal(&bricked, false, path()).expect("already done");
    assert_eq!(
        refused.message(),
        "part.gcode has already been bricked; running again would stack a second shift on the \
         first. Re-slice, or pass --force if that is what you want"
    );
    assert!(refusal(&bricked, true, path()).is_none());
    assert!(refusal(&fresh, false, path()).is_none());
}

#[test]
fn every_error_names_its_file() {
    let path = "part.bgcode".to_owned();
    let io = Error::Io { path: path.clone(), reason: "no such file".to_owned() };
    assert_eq!(io.message(), "part.bgcode: no such file");
    let bgcode = Error::Bgcode { path, reason: "unknown block type 6".to_owned() };
    assert_eq!(
        bgcode.message(),
        "part.bgcode is not valid binary G-code: unknown block type 6"
    );
}

/// What the slicer exported comes before what the file states about itself, and
/// that before the settings in its G-code.
#[test]
fn the_slicer_is_asked_before_the_file() {
    let plain = survey("; wall_sequence = outer wall/inner wall\n", false);
    let known = Known {
        slicer_height: Some(double(0.2)),
        file_height: Some(double(0.3)),
        slicer_width: None,
        file_width: Some(double(0.45)),
        survey_width: Some(double(0.5)),
    };
    let resolved = resolve(config(), &Settings::default(), known, &plain);
    assert_eq!(resolved.layer_height, Some(double(0.2)));
    assert_eq!(resolved.wall_width, Some(double(0.45)));
    assert!(resolved.external_perimeters_first);
    assert_eq!(resolved.wall_flow, Some(double(1.5)));

    let slicer = Settings {
        wall_order: Some(WallOrder::InternalFirst),
        ..Settings::default()
    };
    let known = Known { survey_width: Some(double(0.5)), ..nothing() };
    let resolved = resolve(config(), &slicer, known, &plain);
    assert_eq!(resolved.layer_height, None);
    assert_eq!(resolved.wall_width, Some(double(0.5)));
    assert!(!resolved.external_perimeters_first);
}

/// A nominal height cannot stand in for a file that measures several.
#[test]
fn a_nominal_height_does_not_describe_a_varied_file() {
    let varied = survey(
        ";LAYER_CHANGE\nG1 Z0.2\n;LAYER_CHANGE\nG1 Z0.4\n;LAYER_CHANGE\nG1 Z0.5\n",
        true,
    );
    assert!(varied.variable_layers());
    let known = Known { slicer_height: Some(double(0.2)), ..nothing() };
    let resolved = resolve(config(), &Settings::default(), known, &varied);
    assert_eq!(resolved.layer_height, None);
}

#[test]
fn warns_of_settings_that_leave_nothing_to_raise() {
    assert!(warnings(&Settings::default()).is_empty());
    let vase = Settings {
        spiral_vase: Some(true),
        walls: Some(1),
        ..Settings::default()
    };
    assert_eq!(warnings(&vase), [Warning::SpiralVase, Warning::FewWalls(1)]);
    let sound = Settings {
        spiral_vase: Some(false),
        walls: Some(2),
        ..Settings::default()
    };
    assert!(warnings(&sound).is_empty());
}

#[test]
fn a_step_is_steep_above_a_quarter_of_the_nozzle() {
    let steep = |step: f64, nozzle: f64| {
        let raise = Some((double(0.05), double(step)));
        is_steep(raise, Some(double(nozzle)), double(nozzle / 4.0))
    };
    assert!(steep(0.125, 0.4));
    assert!(!steep(0.1, 0.4));
    assert!(!steep(0.125, 0.0));
    assert!(!is_steep(None, Some(double(0.4)), double(0.1)));
    assert!(!is_steep(Some((double(1.0), double(1.0))), None, double(0.1)));
}

#[test]
fn a_range_widens_to_what_it_is_shown() {
    let range = widened(None, double(0.1));
    assert_eq!(range, Some((double(0.1), double(0.1))));
    let range = widened(range, double(0.3));
    let range = widened(range, double(0.05));
    assert_eq!(range, Some((double(0.05), double(0.3))));
}

#[test]
fn figures_are_told_as_one_or_as_a_range() {
    assert_eq!(raised_by("0.100", "0.100"), "0.100 mm");
    assert_eq!(raised_by("0.050", "0.100"), "0.050 to 0.100 mm");
    assert_eq!(applied(None, Some("7.0")), "the flow");
    assert_eq!(applied(Some(("1.025", "1.025")), None), "a flow of 1.025");
    assert_eq!(
        applied(Some(("1.012", "1.040")), Some("7.0")),
        "a flow of 1.012 to 1.040 (--extra-flow 7.0%)"
    );
}
