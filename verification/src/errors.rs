use vstd::prelude::*;

verus! {

/// Everything that can go wrong while reading inputs or converting an
/// angle: each variant identifies which input failed and why.
#[derive(Debug, Clone, Copy, PartialEq, Eq, Structural)]
pub enum FovError {
    /// A ratio string with the wrong number of `:`-separated tokens, or
    /// a token that is not numeric.
    MalformedRatio,
    /// A `width:height` pair whose height is zero.
    ZeroHeight,
    /// A ratio that is non-positive or non-finite.
    InvalidAspectRatio,
    /// A field-of-view token that is unparsable, non-finite, not positive,
    /// or over 180 degrees.
    InvalidFov,
    /// Both conversion directions were requested at once.
    ConflictingDirection,
    /// Neither conversion direction was requested.
    MissingDirection,
    /// The wrong number of positional arguments was supplied.
    MissingArguments,
    /// A computed angle fell outside the valid field-of-view domain.
    GeometricOverflow,
}

} // verus!
