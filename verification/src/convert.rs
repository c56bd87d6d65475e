use vstd::prelude::*;

verus! {

use vstd::pervasive::unreached;
use vstd::utf8::encode_utf8;
use vstd::string::StringSliceAdditionalSpecFns;
use crate::errors::FovError;
use crate::fov::{Fov, fov_nanos_ok, spec_fov_outcome};
use crate::ratio::{AspectRatio, spec_ratio_outcome};
use crate::trig::{convert_nanos, spec_convert_nanos};

/// Which field of view the conversion is to produce.
#[derive(Debug, Clone, Copy, PartialEq, Eq, Structural)]
pub enum FovType {
    VERTICAL,
    HORIZONTAL,
}

/// A validated conversion request: the direction, the aspect ratio and
/// the input field of view.
#[derive(Debug, Clone, Copy, PartialEq, Eq, Structural)]
pub struct Config {
    pub output_fov_type: FovType,
    pub aspect_ratio: AspectRatio,
    pub fov: Fov,
}

impl Config {
    /// Invariant: both held values are within their domains.
    pub open spec fn valid(self) -> bool {
        self.aspect_ratio.valid() && self.fov.valid()
    }
}

impl Default for Config {
    /// A vertical conversion of ninety degrees at four by three.
    fn default() -> (c: Config)
        ensures
            c.output_fov_type == FovType::VERTICAL,
            c.aspect_ratio.spec_num() == 4_000_000_000,
            c.aspect_ratio.spec_den() == 3_000_000_000,
            c.fov.spec_nanos() == 90_000_000_000,
            c.valid(),
    {
        let aspect_ratio = match AspectRatio::from_pair_nanos(4_000_000_000, 3_000_000_000) {
            Ok(a) => a,
            Err(_) => unreached(),
        };
        let fov = match Fov::from_nanos(90_000_000_000) {
            Ok(f) => f,
            Err(_) => unreached(),
        };
        Config { output_fov_type: FovType::VERTICAL, aspect_ratio, fov }
    }
}

/// The nanodegree result of a vertical-from-horizontal conversion:
/// 2 * atan(tan(hfov / 2) * height / width).
pub open spec fn spec_vertical_nanos(ratio: AspectRatio, fov: Fov) -> int {
    spec_convert_nanos(fov.spec_nanos(), ratio.spec_den(), ratio.spec_num())
}

/// The nanodegree result of a horizontal-from-vertical conversion:
/// 2 * atan(tan(vfov / 2) * width / height).
pub open spec fn spec_horizontal_nanos(ratio: AspectRatio, fov: Fov) -> int {
    spec_convert_nanos(fov.spec_nanos(), ratio.spec_num(), ratio.spec_den())
}

/// The vertical field of view complementary to a horizontal one at the
/// given ratio; `GeometricOverflow` when the computed angle leaves the
/// valid domain.
pub fn vertical_from_horizontal(ratio: &AspectRatio, fov: &Fov) -> (r: Result<Fov, FovError>)
    requires
        ratio.valid(),
        fov.valid(),
    ensures
        fov_nanos_ok(spec_vertical_nanos(*ratio, *fov)) ==> (r matches Ok(f) && f.spec_nanos()
            == spec_vertical_nanos(*ratio, *fov) && f.valid()),
        !fov_nanos_ok(spec_vertical_nanos(*ratio, *fov)) ==> r == Err::<Fov, FovError>(
            FovError::GeometricOverflow,
        ),
{
    let v = convert_nanos(fov.value(), ratio.den(), ratio.num());
    match Fov::from_nanos(v) {
        Ok(f) => Ok(f),
        Err(_) => Err(FovError::GeometricOverflow),
    }
}

/// The horizontal field of view complementary to a vertical one at the
/// given ratio; `GeometricOverflow` when the computed angle leaves the
/// valid domain.
pub fn horizontal_from_vertical(ratio: &AspectRatio, fov: &Fov) -> (r: Result<Fov, FovError>)
    requires
        ratio.valid(),
        fov.valid(),
    ensures
        fov_nanos_ok(spec_horizontal_nanos(*ratio, *fov)) ==> (r matches Ok(f) && f.spec_nanos()
            == spec_horizontal_nanos(*ratio, *fov) && f.valid()),
        !fov_nanos_ok(spec_horizontal_nanos(*ratio, *fov)) ==> r == Err::<Fov, FovError>(
            FovError::GeometricOverflow,
        ),
{
    let v = convert_nanos(fov.value(), ratio.num(), ratio.den());
    match Fov::from_nanos(v) {
        Ok(f) => Ok(f),
        Err(_) => Err(FovError::GeometricOverflow),
    }
}

/// Law: converting in one direction at a ratio is the same computation
/// as converting in the other direction at the reciprocal ratio, so
/// the two functions agree exactly on every valid input:
/// `horizontal_from_vertical(r, a)` equals
/// `vertical_from_horizontal(r.invert(), a)`.
pub proof fn lemma_reciprocal_symmetry(r: AspectRatio, rinv: AspectRatio, a: Fov)
    requires
        r.valid(),
        a.valid(),
        rinv.spec_num() == r.spec_den(),
        rinv.spec_den() == r.spec_num(),
    ensures
        spec_horizontal_nanos(r, a) == spec_vertical_nanos(rinv, a),
{
}

/// Runs the conversion a request asks for.
pub fn convert(config: &Config) -> (r: Result<Fov, FovError>)
    requires
        config.valid(),
    ensures
        config.output_fov_type == FovType::VERTICAL ==> ({
            let v = spec_vertical_nanos(config.aspect_ratio, config.fov);
            if fov_nanos_ok(v) {
                r matches Ok(f) && f.spec_nanos() == v && f.valid()
            } else {
                r == Err::<Fov, FovError>(FovError::GeometricOverflow)
            }
        }),
        config.output_fov_type == FovType::HORIZONTAL ==> ({
            let v = spec_horizontal_nanos(config.aspect_ratio, config.fov);
            if fov_nanos_ok(v) {
                r matches Ok(f) && f.spec_nanos() == v && f.valid()
            } else {
                r == Err::<Fov, FovError>(FovError::GeometricOverflow)
            }
        }),
{
    match config.output_fov_type {
        FovType::VERTICAL => vertical_from_horizontal(&config.aspect_ratio, &config.fov),
        FovType::HORIZONTAL => horizontal_from_vertical(&config.aspect_ratio, &config.fov),
    }
}

/// Exactly one direction flag must be set: both at once conflict,
/// neither is missing.
pub fn select_direction(vertical: bool, horizontal: bool) -> (r: Result<FovType, FovError>)
    ensures
        vertical && horizontal ==> r == Err::<FovType, FovError>(FovError::ConflictingDirection),
        !vertical && !horizontal ==> r == Err::<FovType, FovError>(FovError::MissingDirection),
        vertical && !horizontal ==> r == Ok::<FovType, FovError>(FovType::VERTICAL),
        horizontal && !vertical ==> r == Ok::<FovType, FovError>(FovType::HORIZONTAL),
{
    if vertical && horizontal {
        Err(FovError::ConflictingDirection)
    } else if vertical {
        Ok(FovType::VERTICAL)
    } else if horizontal {
        Ok(FovType::HORIZONTAL)
    } else {
        Err(FovError::MissingDirection)
    }
}

/// Builds a validated request from raw command inputs: the two
/// direction flags and the positional tokens, of which there must be
/// exactly two, the ratio then the field of view.
pub fn build_config(vertical: bool, horizontal: bool, args: &Vec<String>) -> (r: Result<
    Config,
    FovError,
>)
    ensures
        vertical && horizontal ==> r == Err::<Config, FovError>(FovError::ConflictingDirection),
        !vertical && !horizontal ==> r == Err::<Config, FovError>(FovError::MissingDirection),
        (vertical != horizontal) && args@.len() != 2 ==> r == Err::<Config, FovError>(
            FovError::MissingArguments,
        ),
        (vertical != horizontal) && args@.len() == 2 ==> ({
            let rb = encode_utf8(args@[0]@);
            let fb = encode_utf8(args@[1]@);
            match spec_ratio_outcome(rb) {
                Err(e) => r == Err::<Config, FovError>(e),
                Ok(nd) => match spec_fov_outcome(fb) {
                    Err(e) => r == Err::<Config, FovError>(e),
                    Ok(v) => r matches Ok(c) && c.output_fov_type == (if vertical {
                        FovType::VERTICAL
                    } else {
                        FovType::HORIZONTAL
                    }) && c.aspect_ratio.spec_num() == nd.0 && c.aspect_ratio.spec_den() == nd.1
                        && c.fov.spec_nanos() == v && c.valid(),
                },
            }
        }),
{
    let output_fov_type = match select_direction(vertical, horizontal) {
        Ok(t) => t,
        Err(e) => {
            return Err(e);
        },
    };
    if args.len() != 2 {
        return Err(FovError::MissingArguments);
    }
    let aspect_ratio = match AspectRatio::parse(args[0].as_str()) {
        Ok(a) => a,
        Err(e) => {
            return Err(e);
        },
    };
    let fov = match Fov::parse(args[1].as_str()) {
        Ok(f) => f,
        Err(e) => {
            return Err(e);
        },
    };
    Ok(Config { output_fov_type, aspect_ratio, fov })
}

} // verus!
