use cfov::{AspectRatio, Fov, FovError, NumToken, parse_number};

#[test]
fn number_plain_decimal() {
    assert_eq!(parse_number(b"1.5"), Some(NumToken::Finite(1_500_000_000)));
    assert_eq!(parse_number(b"90"), Some(NumToken::Finite(90_000_000_000)));
    assert_eq!(parse_number(b"0"), Some(NumToken::Finite(0)));
    assert_eq!(parse_number(b"0.0"), Some(NumToken::Finite(0)));
}

#[test]
fn number_signs() {
    assert_eq!(parse_number(b"-2"), Some(NumToken::Finite(-2_000_000_000)));
    assert_eq!(parse_number(b"+3"), Some(NumToken::Finite(3_000_000_000)));
    assert_eq!(parse_number(b"-0"), Some(NumToken::Finite(0)));
}

#[test]
fn number_dot_forms() {
    assert_eq!(parse_number(b".5"), Some(NumToken::Finite(500_000_000)));
    assert_eq!(parse_number(b"5."), Some(NumToken::Finite(5_000_000_000)));
    assert_eq!(parse_number(b"."), None);
    assert_eq!(parse_number(b""), None);
    assert_eq!(parse_number(b"1.2.3"), None);
}

#[test]
fn number_rejects_junk() {
    assert_eq!(parse_number(b"abc"), None);
    assert_eq!(parse_number(b"1a"), None);
    assert_eq!(parse_number(b"1 "), None);
    assert_eq!(parse_number(b" 1"), None);
}

#[test]
fn number_nonfinite_words() {
    assert_eq!(parse_number(b"inf"), Some(NumToken::NonFinite));
    assert_eq!(parse_number(b"-inf"), Some(NumToken::NonFinite));
    assert_eq!(parse_number(b"InFiNiTy"), Some(NumToken::NonFinite));
    assert_eq!(parse_number(b"NaN"), Some(NumToken::NonFinite));
    assert_eq!(parse_number(b"nan"), Some(NumToken::NonFinite));
    assert_eq!(parse_number(b"infin"), None);
}

#[test]
fn number_deep_fraction_rounds_up() {
    assert_eq!(parse_number(b"0.0000000001"), Some(NumToken::Finite(1)));
    assert_eq!(parse_number(b"0.000000001"), Some(NumToken::Finite(1)));
    assert_eq!(parse_number(b"1.0000000000"), Some(NumToken::Finite(1_000_000_000)));
    assert_eq!(
        parse_number(b"180.0000000001"),
        Some(NumToken::Finite(180_000_000_001))
    );
}

#[test]
fn number_exponent_forms() {
    assert_eq!(parse_number(b"9e1"), Some(NumToken::Finite(90_000_000_000)));
    assert_eq!(parse_number(b"2.5E-1"), Some(NumToken::Finite(250_000_000)));
    assert_eq!(parse_number(b"1e0"), Some(NumToken::Finite(1_000_000_000)));
    assert_eq!(parse_number(b"1.5e2"), Some(NumToken::Finite(150_000_000_000)));
    assert_eq!(parse_number(b"1e+2"), Some(NumToken::Finite(100_000_000_000)));
    assert_eq!(parse_number(b"-2e-1"), Some(NumToken::Finite(-200_000_000)));
    assert_eq!(parse_number(b"1.e1"), Some(NumToken::Finite(10_000_000_000)));
    assert_eq!(parse_number(b".5e1"), Some(NumToken::Finite(5_000_000_000)));
    assert_eq!(
        parse_number(b"9.9999999999e1"),
        Some(NumToken::Finite(99_999_999_999))
    );
}

#[test]
fn number_exponent_rescues_deep_digits() {
    assert_eq!(parse_number(b"0.0000000001e5"), Some(NumToken::Finite(10_000)));
    assert_eq!(parse_number(b"0.00000000012e1"), Some(NumToken::Finite(2)));
}

#[test]
fn number_exponent_extremes() {
    assert_eq!(parse_number(b"1e-9999"), Some(NumToken::Finite(1)));
    assert_eq!(parse_number(b"1e9999"), Some(NumToken::Finite(i64::MAX)));
    assert_eq!(parse_number(b"-1e9999"), Some(NumToken::Finite(-i64::MAX)));
    assert_eq!(parse_number(b"0e9999"), Some(NumToken::Finite(0)));
    assert_eq!(parse_number(b"0e-9999"), Some(NumToken::Finite(0)));
    assert_eq!(
        parse_number(b"1e99999999999999999999999"),
        Some(NumToken::Finite(i64::MAX))
    );
}

#[test]
fn number_exponent_rejections() {
    assert_eq!(parse_number(b"1e"), None);
    assert_eq!(parse_number(b"1e+"), None);
    assert_eq!(parse_number(b"1e-"), None);
    assert_eq!(parse_number(b"e5"), None);
    assert_eq!(parse_number(b"1e5.2"), None);
    assert_eq!(parse_number(b"1e5e2"), None);
    assert_eq!(parse_number(b"1ee5"), None);
    assert_eq!(parse_number(b"infe1"), None);
}

#[test]
fn number_saturates() {
    assert_eq!(
        parse_number(b"99999999999999999999"),
        Some(NumToken::Finite(i64::MAX))
    );
    assert_eq!(
        parse_number(b"-99999999999999999999"),
        Some(NumToken::Finite(-i64::MAX))
    );
}

#[test]
fn fov_boundaries() {
    assert!(Fov::parse("180.0").is_ok());
    assert_eq!(Fov::parse("180.0").unwrap().value(), 180_000_000_000);
    assert!(Fov::parse("179.9999999").is_ok());
    assert!(Fov::parse("90").is_ok());
    assert!(Fov::parse("0.000001").is_ok());
    assert_eq!(Fov::parse("0"), Err(FovError::InvalidFov));
    assert_eq!(Fov::parse("-5"), Err(FovError::InvalidFov));
    assert_eq!(Fov::parse("180.0001"), Err(FovError::InvalidFov));
    assert_eq!(Fov::parse("NaN"), Err(FovError::InvalidFov));
    assert_eq!(Fov::parse("inf"), Err(FovError::InvalidFov));
    assert_eq!(Fov::parse("-inf"), Err(FovError::InvalidFov));
    assert_eq!(Fov::parse("abc"), Err(FovError::InvalidFov));
    assert_eq!(Fov::parse(""), Err(FovError::InvalidFov));
}

#[test]
fn fov_exponent_tokens() {
    assert_eq!(Fov::parse("9e1").unwrap().value(), 90_000_000_000);
    assert_eq!(Fov::parse("2.5E-1").unwrap().value(), 250_000_000);
    assert_eq!(Fov::parse("1.8e2").unwrap().value(), 180_000_000_000);
    assert_eq!(Fov::parse("1.80001e2"), Err(FovError::InvalidFov));
    assert_eq!(Fov::parse("1e3"), Err(FovError::InvalidFov));
    assert_eq!(Fov::parse("0e5"), Err(FovError::InvalidFov));
}

#[test]
fn ratio_exponent_tokens() {
    let r = AspectRatio::parse("1e0").unwrap();
    assert_eq!((r.num(), r.den()), (1_000_000_000, 1_000_000_000));
    let r = AspectRatio::parse("1.6e1:9e0").unwrap();
    assert_eq!((r.num(), r.den()), (16_000_000_000, 9_000_000_000));
    assert_eq!(AspectRatio::parse("4:0e5"), Err(FovError::ZeroHeight));
    assert_eq!(AspectRatio::parse("-1e0"), Err(FovError::InvalidAspectRatio));
}

#[test]
fn fov_from_nanos_boundaries() {
    assert_eq!(Fov::from_nanos(180_000_000_000).unwrap().value(), 180_000_000_000);
    assert_eq!(Fov::from_nanos(1).unwrap().value(), 1);
    assert_eq!(Fov::from_nanos(180_000_000_001), Err(FovError::InvalidFov));
    assert_eq!(Fov::from_nanos(0), Err(FovError::InvalidFov));
    assert_eq!(Fov::from_nanos(-1), Err(FovError::InvalidFov));
}

#[test]
fn ratio_accepts_common_forms() {
    let r = AspectRatio::parse("4:3").unwrap();
    assert_eq!((r.num(), r.den()), (4_000_000_000, 3_000_000_000));
    let r = AspectRatio::parse("16:9").unwrap();
    assert_eq!((r.num(), r.den()), (16_000_000_000, 9_000_000_000));
    let r = AspectRatio::parse("1.33").unwrap();
    assert_eq!((r.num(), r.den()), (1_330_000_000, 1_000_000_000));
}

#[test]
fn ratio_rejections() {
    assert_eq!(AspectRatio::parse("4:0"), Err(FovError::ZeroHeight));
    assert_eq!(AspectRatio::parse("4:-0"), Err(FovError::ZeroHeight));
    assert_eq!(AspectRatio::parse("4:3:2"), Err(FovError::MalformedRatio));
    assert_eq!(AspectRatio::parse("abc"), Err(FovError::MalformedRatio));
    assert_eq!(AspectRatio::parse("abc:3"), Err(FovError::MalformedRatio));
    assert_eq!(AspectRatio::parse("4:xyz"), Err(FovError::MalformedRatio));
    assert_eq!(AspectRatio::parse(""), Err(FovError::MalformedRatio));
    assert_eq!(AspectRatio::parse("-4:3"), Err(FovError::InvalidAspectRatio));
    assert_eq!(AspectRatio::parse("4:-3"), Err(FovError::InvalidAspectRatio));
    assert_eq!(AspectRatio::parse("0:3"), Err(FovError::InvalidAspectRatio));
    assert_eq!(AspectRatio::parse("-1.5"), Err(FovError::InvalidAspectRatio));
    assert_eq!(AspectRatio::parse("0"), Err(FovError::InvalidAspectRatio));
    assert_eq!(AspectRatio::parse("nan"), Err(FovError::InvalidAspectRatio));
    assert_eq!(AspectRatio::parse("inf"), Err(FovError::InvalidAspectRatio));
    assert_eq!(AspectRatio::parse("inf:3"), Err(FovError::InvalidAspectRatio));
    assert_eq!(AspectRatio::parse("3:inf"), Err(FovError::InvalidAspectRatio));
    assert_eq!(AspectRatio::parse("inf:0"), Err(FovError::ZeroHeight));
}

#[test]
fn ratio_negative_pair_is_positive() {
    let r = AspectRatio::parse("-4:-3").unwrap();
    assert_eq!((r.num(), r.den()), (4_000_000_000, 3_000_000_000));
}

#[test]
fn ratio_value_and_invert() {
    let r = AspectRatio::parse("4:3").unwrap();
    assert_eq!(r.value(), 1_333_333_333);
    let i = r.invert();
    assert_eq!((i.num(), i.den()), (3_000_000_000, 4_000_000_000));
    assert_eq!(i.value(), 750_000_000);
    let one = AspectRatio::from_nanos(1_000_000_000).unwrap();
    assert_eq!(one.value(), 1_000_000_000);
}
