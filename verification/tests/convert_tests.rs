use cfov::{
    AspectRatio, Config, Fov, FovError, FovType, build_config, convert, horizontal_from_vertical,
    select_direction, vertical_from_horizontal,
};

fn deg(nanos: i64) -> f64 {
    nanos as f64 / 1e9
}

fn assert_about_eq(expected: f64, actual: f64) {
    assert!(
        (expected - actual).abs() < 0.5,
        "assert_about_eq failed: expected {}, actual {}",
        expected,
        actual
    );
}

#[test]
fn test_hfov_typical() {
    let ratio = AspectRatio::parse("4:3").unwrap();
    let fov = Fov::parse("55.4").unwrap();
    assert_about_eq(70.0, deg(horizontal_from_vertical(&ratio, &fov).unwrap().value()));
}

#[test]
fn test_vfov_typical() {
    let ratio = AspectRatio::from_nanos(1_333_333_333).unwrap();
    let fov = Fov::parse("69.5").unwrap();
    assert_about_eq(55.0, deg(vertical_from_horizontal(&ratio, &fov).unwrap().value()));
}

#[test]
fn sixteen_nine_vertical_scenario() {
    let ratio = AspectRatio::parse("16:9").unwrap();
    let fov = Fov::parse("90").unwrap();
    let v = deg(vertical_from_horizontal(&ratio, &fov).unwrap().value());
    assert!((v - 58.7).abs() < 0.05, "expected about 58.7, got {}", v);
}

#[test]
fn round_trip_keeps_angle() {
    for (ratio_s, fov_s) in [
        ("16:9", "75"),
        ("4:3", "55.4"),
        ("1.33", "110"),
        ("21:9", "160"),
        ("1:1", "33.3"),
    ] {
        let ratio = AspectRatio::parse(ratio_s).unwrap();
        let fov = Fov::parse(fov_s).unwrap();
        let v = vertical_from_horizontal(&ratio, &fov).unwrap();
        let back = horizontal_from_vertical(&ratio, &v).unwrap();
        let rel = (deg(back.value()) - deg(fov.value())).abs() / deg(fov.value());
        assert!(rel <= 1e-6, "round trip {} at {}: rel err {}", fov_s, ratio_s, rel);
    }
}

#[test]
fn reciprocal_symmetry_is_exact() {
    for (ratio_s, fov_s) in [("16:9", "90"), ("4:3", "55.4"), ("1.33", "120")] {
        let ratio = AspectRatio::parse(ratio_s).unwrap();
        let fov = Fov::parse(fov_s).unwrap();
        let a = horizontal_from_vertical(&ratio, &fov).unwrap();
        let b = vertical_from_horizontal(&ratio.invert(), &fov).unwrap();
        assert_eq!(a.value(), b.value());
    }
}

#[test]
fn square_ratio_is_identity_like() {
    let ratio = AspectRatio::parse("1:1").unwrap();
    let fov = Fov::parse("90").unwrap();
    let v = vertical_from_horizontal(&ratio, &fov).unwrap();
    assert!((deg(v.value()) - 90.0).abs() < 1e-6);
}

#[test]
fn full_angle_stays_in_domain() {
    let ratio = AspectRatio::parse("4:3").unwrap();
    let fov = Fov::parse("180.0").unwrap();
    let v = vertical_from_horizontal(&ratio, &fov).unwrap();
    assert!(v.value() <= 180_000_000_000 && v.value() > 179_000_000_000);
}

#[test]
fn geometric_overflow_reported() {
    let ratio = AspectRatio::parse("9000000000").unwrap();
    let fov = Fov::parse("0.000000001").unwrap();
    assert_eq!(
        vertical_from_horizontal(&ratio, &fov),
        Err(FovError::GeometricOverflow)
    );
}

#[test]
fn direction_selection() {
    assert_eq!(select_direction(true, true), Err(FovError::ConflictingDirection));
    assert_eq!(select_direction(false, false), Err(FovError::MissingDirection));
    assert_eq!(select_direction(true, false), Ok(FovType::VERTICAL));
    assert_eq!(select_direction(false, true), Ok(FovType::HORIZONTAL));
}

#[test]
fn conflicting_direction_scenario() {
    let args = vec![String::from("4:3"), String::from("90")];
    assert_eq!(
        build_config(true, true, &args),
        Err(FovError::ConflictingDirection)
    );
}

#[test]
fn zero_height_scenario() {
    let args = vec![String::from("4:0"), String::from("90")];
    assert_eq!(build_config(true, false, &args), Err(FovError::ZeroHeight));
    let args = vec![String::from("4:0"), String::from("55.4")];
    assert_eq!(build_config(false, true, &args), Err(FovError::ZeroHeight));
}

#[test]
fn missing_arguments_scenario() {
    let args = vec![String::from("4:3")];
    assert_eq!(build_config(true, false, &args), Err(FovError::MissingArguments));
    let args: Vec<String> = vec![];
    assert_eq!(build_config(false, true, &args), Err(FovError::MissingArguments));
    let args = vec![String::from("4:3"), String::from("90"), String::from("1")];
    assert_eq!(build_config(true, false, &args), Err(FovError::MissingArguments));
}

#[test]
fn build_config_happy_path() {
    let args = vec![String::from("16:9"), String::from("90")];
    let c = build_config(true, false, &args).unwrap();
    assert_eq!(c.output_fov_type, FovType::VERTICAL);
    assert_eq!((c.aspect_ratio.num(), c.aspect_ratio.den()), (16_000_000_000, 9_000_000_000));
    assert_eq!(c.fov.value(), 90_000_000_000);
    let v = convert(&c).unwrap();
    assert!((deg(v.value()) - 58.7155).abs() < 0.001);
}

#[test]
fn build_config_propagates_fov_error() {
    let args = vec![String::from("4:3"), String::from("181")];
    assert_eq!(build_config(true, false, &args), Err(FovError::InvalidFov));
    let args = vec![String::from("4:3"), String::from("nope")];
    assert_eq!(build_config(false, true, &args), Err(FovError::InvalidFov));
}

#[test]
fn default_config_converts() {
    let c = Config::default();
    assert_eq!(c.output_fov_type, FovType::VERTICAL);
    assert_eq!(c.fov.value(), 90_000_000_000);
    assert_eq!((c.aspect_ratio.num(), c.aspect_ratio.den()), (4_000_000_000, 3_000_000_000));
    let v = convert(&c).unwrap();
    assert_about_eq(73.74, deg(v.value()));
}

#[test]
fn convert_dispatches_both_ways() {
    let ratio = AspectRatio::parse("4:3").unwrap();
    let fov = Fov::parse("55.4").unwrap();
    let ch = Config { output_fov_type: FovType::HORIZONTAL, aspect_ratio: ratio, fov };
    let cv = Config { output_fov_type: FovType::VERTICAL, aspect_ratio: ratio, fov };
    let h = convert(&ch).unwrap();
    let v = convert(&cv).unwrap();
    assert_about_eq(70.0, deg(h.value()));
    assert!(deg(v.value()) < deg(fov.value()));
}
