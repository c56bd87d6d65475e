use vstd::prelude::*;

verus! {

use vstd::string::StringSliceAdditionalSpecFns;
use crate::errors::FovError;
use crate::num::{NumToken, parse_number, spec_parse_number};

/// A field-of-view angle, held in nanodegrees: positive and at most
/// one hundred eighty degrees, finite by construction.
#[derive(Debug, Clone, Copy, PartialEq, Eq, Structural)]
pub struct Fov {
    nanos: i64,
}

/// The nanodegree range a field of view may take: (0, 180] degrees.
pub open spec fn fov_nanos_ok(v: int) -> bool {
    0 < v <= 180_000_000_000
}

/// What a field-of-view token yields: its nanodegree value when it is
/// a finite decimal in (0, 180] degrees, otherwise `InvalidFov`,
/// whether unparsable, non-finite, non-positive or over one eighty.
pub open spec fn spec_fov_outcome(b: Seq<u8>) -> Result<int, FovError> {
    match spec_parse_number(b) {
        Some(NumToken::Finite(v)) => if fov_nanos_ok(v as int) {
            Ok(v as int)
        } else {
            Err(FovError::InvalidFov)
        },
        _ => Err(FovError::InvalidFov),
    }
}

impl Fov {
    /// The angle in nanodegrees.
    pub closed spec fn spec_nanos(self) -> int {
        self.nanos as int
    }

    /// Invariant: the held angle lies in (0, 180] degrees.
    pub open spec fn valid(self) -> bool {
        fov_nanos_ok(self.spec_nanos())
    }

    /// The angle in nanodegrees.
    pub fn value(&self) -> (r: i64)
        ensures
            r == self.spec_nanos(),
    {
        self.nanos
    }

    /// Accepts exactly the nanodegree values in (0, 180] degrees.
    pub fn from_nanos(v: i64) -> (r: Result<Fov, FovError>)
        ensures
            fov_nanos_ok(v as int) ==> (r matches Ok(f) && f.spec_nanos() == v && f.valid()),
            !fov_nanos_ok(v as int) ==> r == Err::<Fov, FovError>(FovError::InvalidFov),
    {
        if 0 < v && v <= 180_000_000_000 {
            Ok(Fov { nanos: v })
        } else {
            Err(FovError::InvalidFov)
        }
    }

    /// Reads a field-of-view token: yields exactly what
    /// `spec_fov_outcome` says of the bytes of `s`.
    pub fn parse(s: &str) -> (r: Result<Fov, FovError>)
        ensures
            match spec_fov_outcome(s.spec_bytes()) {
                Ok(v) => r matches Ok(f) && f.spec_nanos() == v && f.valid(),
                Err(e) => r == Err::<Fov, FovError>(e),
            },
    {
        let b = s.as_bytes();
        match parse_number(b) {
            Some(NumToken::Finite(v)) => Fov::from_nanos(v),
            _ => Err(FovError::InvalidFov),
        }
    }
}

} // verus!
