use vstd::prelude::*;

verus! {

use vstd::string::StringSliceAdditionalSpecFns;
use crate::errors::FovError;
use crate::num::{NumToken, parse_number, spec_parse_number, find_byte, lemma_find_byte_is};

/// An aspect ratio, held as a positive pair `num / den` of nano-scaled
/// width and height: the represented ratio is `num / den`, always
/// positive and finite by construction.
#[derive(Debug, Clone, Copy, PartialEq, Eq, Structural)]
pub struct AspectRatio {
    num: i64,
    den: i64,
}

/// Occurrences of `b` in `s`.
pub open spec fn count_byte(s: Seq<u8>, b: u8) -> nat
    decreases s.len(),
{
    if s.len() == 0 {
        0
    } else {
        count_byte(s.drop_last(), b) + (if s.last() == b {
            1nat
        } else {
            0nat
        })
    }
}

/// Magnitude of a nano-scaled value, saturated at `i64::MAX`.
pub open spec fn abs_sat(v: int) -> int {
    if v >= 0 {
        v
    } else if -v > i64::MAX {
        i64::MAX as int
    } else {
        -v
    }
}

/// The nano value inside a finite token; zero for anything else.
pub open spec fn finite_of(t: Option<NumToken>) -> int {
    match t {
        Some(NumToken::Finite(v)) => v as int,
        _ => 0,
    }
}

/// What a ratio string yields. A lone token is the ratio itself and
/// must be a positive finite decimal. A `width:height` pair must have
/// both tokens numeric, the height nonzero (else `ZeroHeight`), and a
/// positive quotient: both components of one sign and a nonzero width.
/// More than one `:` is malformed.
pub open spec fn spec_ratio_outcome(b: Seq<u8>) -> Result<(int, int), FovError> {
    let cnt = count_byte(b, 58);
    if cnt == 0 {
        match spec_parse_number(b) {
            Option::None => Err(FovError::MalformedRatio),
            Some(NumToken::NonFinite) => Err(FovError::InvalidAspectRatio),
            Some(NumToken::Finite(v)) => if v <= 0 {
                Err(FovError::InvalidAspectRatio)
            } else {
                Ok((v as int, 1_000_000_000int))
            },
        }
    } else if cnt == 1 {
        let c = find_byte(b, 58);
        let wtok = spec_parse_number(b.take(c));
        let htok = spec_parse_number(b.skip(c + 1));
        if wtok is None || htok is None {
            Err(FovError::MalformedRatio)
        } else if htok == Some(NumToken::Finite(0i64)) {
            Err(FovError::ZeroHeight)
        } else if wtok == Some(NumToken::NonFinite) || htok == Some(NumToken::NonFinite) {
            Err(FovError::InvalidAspectRatio)
        } else {
            let w = finite_of(wtok);
            let h = finite_of(htok);
            if w == 0 || ((w > 0) != (h > 0)) {
                Err(FovError::InvalidAspectRatio)
            } else {
                Ok((abs_sat(w), abs_sat(h)))
            }
        }
    } else {
        Err(FovError::MalformedRatio)
    }
}

impl AspectRatio {
    /// Nano-scaled width component.
    pub closed spec fn spec_num(self) -> int {
        self.num as int
    }

    /// Nano-scaled height component.
    pub closed spec fn spec_den(self) -> int {
        self.den as int
    }

    /// Invariant: both components positive, so the ratio is positive
    /// and finite.
    pub open spec fn valid(self) -> bool {
        1 <= self.spec_num() && 1 <= self.spec_den()
    }

    /// Nano-scaled width component.
    pub fn num(&self) -> (r: i64)
        ensures
            r == self.spec_num(),
    {
        self.num
    }

    /// Nano-scaled height component.
    pub fn den(&self) -> (r: i64)
        ensures
            r == self.spec_den(),
    {
        self.den
    }

    /// The ratio `num / den` as a nano-scaled value: truncated, kept at
    /// least one and at most `i64::MAX`.
    pub open spec fn spec_value(self) -> int {
        let q = (self.spec_num() * 1_000_000_000) / self.spec_den();
        if q == 0 {
            1
        } else if q > i64::MAX {
            i64::MAX as int
        } else {
            q
        }
    }

    /// The nano-scaled quotient, per `spec_value`.
    pub fn value(&self) -> (r: i64)
        requires
            self.valid(),
        ensures
            r == self.spec_value(),
    {
        let q = ((self.num as u128) * 1_000_000_000) / (self.den as u128);
        proof {
            vstd::arithmetic::div_mod::lemma_div_is_ordered(
                0,
                (self.num as u128 * 1_000_000_000) as int,
                self.den as int,
            );
        }
        if q == 0 {
            1
        } else if q > 9_223_372_036_854_775_807u128 {
            i64::MAX
        } else {
            q as i64
        }
    }

    /// The reciprocal ratio: the components exchanged exactly.
    pub fn invert(&self) -> (r: AspectRatio)
        requires
            self.valid(),
        ensures
            r.spec_num() == self.spec_den(),
            r.spec_den() == self.spec_num(),
            r.valid(),
    {
        AspectRatio { num: self.den, den: self.num }
    }

    /// Accepts exactly the positive nano-scaled values as a direct
    /// ratio over a unit height.
    pub fn from_nanos(v: i64) -> (r: Result<AspectRatio, FovError>)
        ensures
            v > 0 ==> (r matches Ok(a) && a.spec_num() == v && a.spec_den() == 1_000_000_000
                && a.valid()),
            v <= 0 ==> r == Err::<AspectRatio, FovError>(FovError::InvalidAspectRatio),
    {
        if v > 0 {
            Ok(AspectRatio { num: v, den: 1_000_000_000 })
        } else {
            Err(FovError::InvalidAspectRatio)
        }
    }

    /// Builds from a nano-scaled `width:height` pair: `ZeroHeight` for
    /// a zero height, `InvalidAspectRatio` whenever the quotient would
    /// not be positive, else the pair of magnitudes.
    pub fn from_pair_nanos(w: i64, h: i64) -> (r: Result<AspectRatio, FovError>)
        ensures
            h == 0 ==> r == Err::<AspectRatio, FovError>(FovError::ZeroHeight),
            h != 0 && (w == 0 || ((w > 0) != (h > 0))) ==> r == Err::<AspectRatio, FovError>(
                FovError::InvalidAspectRatio,
            ),
            h != 0 && w != 0 && ((w > 0) == (h > 0)) ==> (r matches Ok(a) && a.spec_num()
                == abs_sat(w as int) && a.spec_den() == abs_sat(h as int) && a.valid()),
    {
        if h == 0 {
            Err(FovError::ZeroHeight)
        } else if w > 0 && h > 0 {
            Ok(AspectRatio { num: w, den: h })
        } else if w < 0 && h < 0 {
            Ok(AspectRatio { num: neg_sat(w), den: neg_sat(h) })
        } else {
            Err(FovError::InvalidAspectRatio)
        }
    }

    /// Reads a ratio string: yields exactly what `spec_ratio_outcome`
    /// says of the bytes of `s`.
    pub fn parse(s: &str) -> (r: Result<AspectRatio, FovError>)
        ensures
            match spec_ratio_outcome(s.spec_bytes()) {
                Ok(nd) => r matches Ok(a) && a.spec_num() == nd.0 && a.spec_den() == nd.1
                    && a.valid(),
                Err(e) => r == Err::<AspectRatio, FovError>(e),
            },
    {
        let b = s.as_bytes();
        let n = b.len();
        let mut cnt: usize = 0;
        let mut first: usize = 0;
        let mut j: usize = 0;
        while j < n
            invariant
                j <= n,
                n == b@.len(),
                cnt <= j,
                cnt == count_byte(b@.subrange(0, j as int), 58),
                cnt == 0 ==> forall|k: int| 0 <= k < j ==> b@[k] != 58,
                cnt >= 1 ==> first < j && b@[first as int] == 58 && forall|k: int|
                    0 <= k < first ==> b@[k] != 58,
            decreases n - j,
        {
            proof {
                let pre = b@.subrange(0, j as int);
                let post = b@.subrange(0, j as int + 1);
                assert(post.drop_last() =~= pre);
                assert(post.last() == b@[j as int]);
            }
            if b[j] == 58 {
                if cnt == 0 {
                    first = j;
                }
                cnt = cnt + 1;
            }
            j = j + 1;
        }
        proof {
            assert(b@.subrange(0, n as int) =~= b@);
        }
        if cnt == 0 {
            match parse_number(b) {
                Option::None => Err(FovError::MalformedRatio),
                Some(NumToken::NonFinite) => Err(FovError::InvalidAspectRatio),
                Some(NumToken::Finite(v)) => {
                    if v <= 0 {
                        Err(FovError::InvalidAspectRatio)
                    } else {
                        AspectRatio::from_nanos(v)
                    }
                },
            }
        } else if cnt == 1 {
            proof {
                lemma_find_byte_is(b@, 58, first as int);
                assert(b@.take(first as int) =~= b@.subrange(0, first as int));
                assert(b@.skip(first as int + 1) =~= b@.subrange(first as int + 1, n as int));
            }
            let wt = parse_number(&b[0..first]);
            let ht = parse_number(&b[first + 1..n]);
            match (wt, ht) {
                (Option::None, _) => Err(FovError::MalformedRatio),
                (_, Option::None) => Err(FovError::MalformedRatio),
                (Some(wv), Some(hv)) => {
                    match (wv, hv) {
                        (_, NumToken::Finite(0)) => Err(FovError::ZeroHeight),
                        (NumToken::NonFinite, _) => Err(FovError::InvalidAspectRatio),
                        (_, NumToken::NonFinite) => Err(FovError::InvalidAspectRatio),
                        (NumToken::Finite(w), NumToken::Finite(h)) => AspectRatio::from_pair_nanos(
                            w,
                            h,
                        ),
                    }
                },
            }
        } else {
            Err(FovError::MalformedRatio)
        }
    }
}

/// Magnitude of a negative value, saturated at `i64::MAX`.
fn neg_sat(v: i64) -> (r: i64)
    requires
        v < 0,
    ensures
        r == abs_sat(v as int),
{
    if v == i64::MIN {
        i64::MAX
    } else {
        -v
    }
}

} // verus!
