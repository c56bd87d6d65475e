use vstd::prelude::*;

verus! {

use vstd::arithmetic::div_mod::lemma_fundamental_div_mod_converse;

/// Ten to the thirty-sixth: the significant-digit window of the
/// scanner; a value with this many digits already saturates any
/// nano-scaled `i64` unless a negative exponent pulls it back down.
pub const POW36: u128 = 1000000000000000000000000000000000000;

/// Ten to the twentieth: exponent magnitudes at or above it act the
/// same as any larger one, since no input holds that many digits.
pub const ECAP: u128 = 100000000000000000000;

/// Outcome of reading one numeric token.
#[derive(Debug, Clone, Copy, PartialEq, Eq, Structural)]
pub enum NumToken {
    /// A finite decimal, scaled to nano-units: the exact value floored
    /// to nanos, rounded up by one nano-unit when anything nonzero lay
    /// below the last place, and saturated at `i64::MAX` magnitude.
    Finite(i64),
    /// The token spells an infinity or a not-a-number value.
    NonFinite,
}

pub open spec fn is_digit(b: u8) -> bool {
    48 <= b && b <= 57
}

pub open spec fn digit_val(b: u8) -> nat {
    (b - 48) as nat
}

/// Value of a string of decimal digits, most significant first.
pub open spec fn seq_val(s: Seq<u8>) -> nat
    decreases s.len(),
{
    if s.len() == 0 {
        0
    } else {
        seq_val(s.drop_last()) * 10 + digit_val(s.last())
    }
}

pub open spec fn all_digits(s: Seq<u8>) -> bool {
    forall|i: int| 0 <= i < s.len() ==> is_digit(#[trigger] s[i])
}

pub open spec fn pow10(n: nat) -> nat
    decreases n,
{
    if n == 0 {
        1
    } else {
        10 * pow10((n - 1) as nat)
    }
}

/// Index of the first occurrence of `b` in `s`, or `s.len()` if absent.
pub open spec fn find_byte(s: Seq<u8>, b: u8) -> int
    decreases s.len(),
{
    if s.len() == 0 {
        0
    } else if s[0] == b {
        0
    } else {
        1 + find_byte(s.skip(1), b)
    }
}

pub open spec fn is_exp_marker(b: u8) -> bool {
    b == 101 || b == 69
}

/// Index of the first `e` or `E` in `s`, or `s.len()` if absent.
pub open spec fn find_exp(s: Seq<u8>) -> int
    decreases s.len(),
{
    if s.len() == 0 {
        0
    } else if is_exp_marker(s[0]) {
        0
    } else {
        1 + find_exp(s.skip(1))
    }
}

/// A leading `+` or `-` is split off; `-` negates the value.
pub open spec fn spec_strip_sign(s: Seq<u8>) -> (bool, Seq<u8>) {
    if s.len() >= 1 && (s[0] == 43 || s[0] == 45) {
        (s[0] == 45, s.drop_first())
    } else {
        (false, s)
    }
}

pub open spec fn lower(b: u8) -> u8 {
    if 65 <= b && b <= 90 {
        (b + 32) as u8
    } else {
        b
    }
}

/// The unsigned body spells `inf`, `infinity` or `nan`, in any case.
pub open spec fn is_nonfinite_body(s: Seq<u8>) -> bool {
    ||| (s.len() == 3 && lower(s[0]) == 105 && lower(s[1]) == 110 && lower(s[2]) == 102)
    ||| (s.len() == 8 && lower(s[0]) == 105 && lower(s[1]) == 110 && lower(s[2]) == 102
        && lower(s[3]) == 105 && lower(s[4]) == 110 && lower(s[5]) == 105 && lower(s[6]) == 116
        && lower(s[7]) == 121)
    ||| (s.len() == 3 && lower(s[0]) == 110 && lower(s[1]) == 97 && lower(s[2]) == 110)
}

pub open spec fn clamp_mag(m: nat) -> i64 {
    if m > i64::MAX {
        i64::MAX
    } else {
        m as i64
    }
}

pub open spec fn apply_sign(neg: bool, m: i64) -> i64
    recommends
        m >= 0,
{
    if neg {
        (-m) as i64
    } else {
        m
    }
}

/// Exact nano-unit magnitude of `ip.fp x 10^(sign ev)`: the
/// mathematical value floored to nano-units, rounded up by one when
/// the remainder was nonzero, and saturated at `i64::MAX`.
pub open spec fn mag_of(ip: Seq<u8>, fp: Seq<u8>, eneg: bool, ev: nat) -> i64 {
    let m = seq_val(ip) * pow10(fp.len()) + seq_val(fp);
    let sh = 9 + (if eneg {
        -(ev as int)
    } else {
        ev as int
    }) - fp.len();
    let fl = if sh >= 0 {
        m * pow10(sh as nat)
    } else {
        m / pow10((-sh) as nat)
    };
    let lost = sh < 0 && (m % pow10((-sh) as nat)) != 0;
    clamp_mag((fl + (if lost {
        1nat
    } else {
        0nat
    })) as nat)
}

/// What parsing a numeric token yields: `None` for anything that is
/// not an optionally signed decimal (at least one digit, at most one
/// dot, an optional `e`/`E` exponent with signed digits) or a spelled
/// non-finite value.
pub open spec fn spec_parse_number(s: Seq<u8>) -> Option<NumToken> {
    let (neg, body) = spec_strip_sign(s);
    if is_nonfinite_body(body) {
        Some(NumToken::NonFinite)
    } else {
        let ei = find_exp(body);
        let mant = body.take(ei);
        let d = find_byte(mant, 46);
        let ip = mant.take(d);
        let fp = if d == mant.len() {
            Seq::<u8>::empty()
        } else {
            mant.skip(d + 1)
        };
        let mant_ok = ip.len() + fp.len() >= 1 && all_digits(ip) && all_digits(fp);
        if ei == body.len() {
            if mant_ok {
                Some(NumToken::Finite(apply_sign(neg, mag_of(ip, fp, false, 0))))
            } else {
                None
            }
        } else {
            let (eneg, ed) = spec_strip_sign(body.skip(ei + 1));
            if mant_ok && ed.len() >= 1 && all_digits(ed) {
                Some(NumToken::Finite(apply_sign(neg, mag_of(ip, fp, eneg, seq_val(ed)))))
            } else {
                None
            }
        }
    }
}

/// Relates the scanner state to the exact value `m` of the digits seen
/// so far: exact below thirty-seven significant digits, then a window
/// of the leading digits with a count of dropped places and a flag for
/// any nonzero dropped digit.
pub open spec fn acc_rel(m: nat, macc: u128, mdrop: nat, mlost: bool) -> bool {
    ||| (mdrop == 0 && macc == m && macc < POW36 * 10 && !mlost)
    ||| (mdrop >= 1 && POW36 <= macc && macc < POW36 * 10 && macc * pow10(mdrop) <= m && m < (macc
        + 1) * pow10(mdrop) && (mlost <==> m != macc * pow10(mdrop)))
}

proof fn lemma_pow10_pos(a: nat)
    ensures
        pow10(a) >= 1,
    decreases a,
{
    if a > 0 {
        lemma_pow10_pos((a - 1) as nat);
    }
}

proof fn lemma_pow10_mono(a: nat, b: nat)
    requires
        a <= b,
    ensures
        pow10(a) <= pow10(b),
    decreases b,
{
    if a < b {
        lemma_pow10_mono(a, (b - 1) as nat);
        assert(pow10(b) == 10 * pow10((b - 1) as nat));
    }
}

proof fn lemma_pow10_adds(a: nat, b: nat)
    ensures
        pow10(a) * pow10(b) == pow10(a + b),
    decreases a,
{
    if a == 0 {
        assert(pow10(0) == 1);
    } else {
        lemma_pow10_adds((a - 1) as nat, b);
        assert(pow10(a) == 10 * pow10((a - 1) as nat));
        assert((10 * pow10((a - 1) as nat)) * pow10(b) == 10 * (pow10((a - 1) as nat) * pow10(b)))
            by (nonlinear_arith);
    }
}

/// The powers of ten the scanner reasons with, as literals.
proof fn lemma_pow10_literals()
    ensures
        pow10(9) == 1_000_000_000,
        pow10(18) == 1_000_000_000_000_000_000,
        pow10(19) == 10_000_000_000_000_000_000,
        pow10(20) == ECAP,
        pow10(36) == POW36,
        pow10(37) == POW36 * 10,
        pow10(38) == POW36 * 100,
{
    reveal_with_fuel(pow10, 39);
}

/// One more digit under the windowed-accumulator discipline.
proof fn lemma_acc_step(m: nat, macc: u128, mdrop: nat, mlost: bool, d: nat)
    requires
        acc_rel(m, macc, mdrop, mlost),
        d < 10,
    ensures
        macc < POW36 ==> acc_rel(m * 10 + d, (macc * 10 + d) as u128, 0, false),
        macc >= POW36 ==> acc_rel(m * 10 + d, macc, (mdrop + 1) as nat, mlost || d != 0),
{
    if macc < POW36 {
        assert(mdrop == 0 && macc == m);
        assert(macc * 10 + d < POW36 * 10);
    } else {
        let p = pow10(mdrop);
        let p1 = pow10((mdrop + 1) as nat);
        lemma_pow10_pos(mdrop);
        assert(p1 == 10 * p);
        if mdrop == 0 {
            assert(macc == m && p == 1);
            assert(macc * p1 <= m * 10 + d && m * 10 + d < (macc + 1) * p1) by (nonlinear_arith)
                requires
                    macc == m,
                    p1 == 10,
                    d < 10,
            ;
            assert((m * 10 + d == macc * p1) <==> (d == 0)) by (nonlinear_arith)
                requires
                    macc == m,
                    p1 == 10,
                    d < 10,
            ;
        } else {
            assert(macc * p <= m && m < (macc + 1) * p);
            assert(macc * p1 <= m * 10 + d) by (nonlinear_arith)
                requires
                    macc * p <= m,
                    p1 == 10 * p,
                    d >= 0,
            ;
            assert(m * 10 + d < (macc + 1) * p1) by (nonlinear_arith)
                requires
                    m < (macc + 1) * p,
                    p1 == 10 * p,
                    d < 10,
            ;
            assert((m * 10 + d == macc * p1) <==> (m == macc * p && d == 0)) by (nonlinear_arith)
                requires
                    macc * p <= m,
                    p1 == 10 * p,
                    d < 10,
                    p >= 1,
            ;
        }
    }
}

/// Floor and remainder of the exact value through the window: dividing
/// by a deeper power of ten reduces to dividing the window itself.
proof fn lemma_div_window(m: nat, macc: u128, mdrop: nat, mlost: bool, d: nat)
    requires
        acc_rel(m, macc, mdrop, mlost),
        macc >= 1,
        mdrop < d,
        d - mdrop <= 37,
    ensures
        m / pow10(d) == (macc as nat) / pow10((d - mdrop) as nat),
        (m % pow10(d) != 0) <==> (mlost || (macc as nat) % pow10((d - mdrop) as nat) != 0),
{
    let c = pow10(mdrop);
    let e2 = pow10((d - mdrop) as nat);
    lemma_pow10_pos(mdrop);
    lemma_pow10_pos((d - mdrop) as nat);
    lemma_pow10_adds(mdrop, (d - mdrop) as nat);
    assert(c * e2 == pow10(d));
    if mdrop == 0 {
        assert(c == 1);
        assert(macc * c == macc) by (nonlinear_arith)
            requires
                c == 1,
        ;
    } else {
        assert((macc + 1) * c == macc * c + c) by (nonlinear_arith);
    }
    let r = (m - macc * c) as nat;
    assert(m == macc * c + r && r < c && (mlost <==> r != 0));
    let q2 = (macc as nat) / e2;
    let s = (macc as nat) % e2;
    vstd::arithmetic::div_mod::lemma_fundamental_div_mod(macc as int, e2 as int);
    assert(macc == e2 * q2 + s && 0 <= s < e2);
    assert(m == q2 * (c * e2) + (s * c + r)) by (nonlinear_arith)
        requires
            m == macc * c + r,
            macc == e2 * q2 + s,
    ;
    assert(s * c + r < e2 * c) by (nonlinear_arith)
        requires
            s < e2,
            r < c,
            c >= 1,
    ;
    assert(c * e2 == e2 * c) by (nonlinear_arith);
    lemma_fundamental_div_mod_converse(m as int, (c * e2) as int, q2 as int, (s * c + r) as int);
    assert(m / pow10(d) == q2);
    assert(m % pow10(d) == s * c + r);
    assert((s * c + r != 0) <==> (s != 0 || r != 0)) by (nonlinear_arith)
        requires
            c >= 1,
            r < c,
            s >= 0,
            r >= 0,
    ;
}

pub proof fn lemma_find_byte_is(s: Seq<u8>, b: u8, m: int)
    requires
        0 <= m <= s.len(),
        forall|k: int| 0 <= k < m ==> s[k] != b,
        m < s.len() ==> s[m] == b,
    ensures
        find_byte(s, b) == m,
    decreases m,
{
    if m == 0 {
        if s.len() != 0 {
            assert(s[0] == b);
        }
    } else {
        assert(s[0] != b);
        let t = s.skip(1);
        assert forall|k: int| 0 <= k < m - 1 implies t[k] != b by {
            assert(t[k] == s[k + 1]);
        }
        if m - 1 < t.len() {
            assert(t[m - 1] == s[m]);
        }
        lemma_find_byte_is(t, b, m - 1);
    }
}

pub proof fn lemma_find_exp_is(s: Seq<u8>, m: int)
    requires
        0 <= m <= s.len(),
        forall|k: int| 0 <= k < m ==> !is_exp_marker(s[k]),
        m < s.len() ==> is_exp_marker(s[m]),
    ensures
        find_exp(s) == m,
    decreases m,
{
    if m == 0 {
        if s.len() != 0 {
            assert(is_exp_marker(s[0]));
        }
    } else {
        assert(!is_exp_marker(s[0]));
        let t = s.skip(1);
        assert forall|k: int| 0 <= k < m - 1 implies !is_exp_marker(t[k]) by {
            assert(t[k] == s[k + 1]);
        }
        if m - 1 < t.len() {
            assert(t[m - 1] == s[m]);
        }
        lemma_find_exp_is(t, m - 1);
    }
}

fn lower_byte(b: u8) -> (r: u8)
    ensures
        r == lower(b),
{
    if 65 <= b && b <= 90 {
        b + 32
    } else {
        b
    }
}

fn pow10_u128(e: usize) -> (r: u128)
    requires
        e <= 37,
    ensures
        r == pow10(e as nat),
{
    let mut r: u128 = 1;
    let mut i: usize = 0;
    while i < e
        invariant
            i <= e <= 37,
            r == pow10(i as nat),
            r <= POW36 * 10,
        decreases e - i,
    {
        proof {
            lemma_pow10_literals();
            lemma_pow10_mono((i + 1) as nat, 37);
        }
        r = r * 10;
        i = i + 1;
    }
    r
}

/// A byte that is no digit, dot or exponent marker, standing before
/// the first dot and the first marker, makes the token unparsable.
proof fn lemma_bad_int_byte(s: Seq<u8>, i: int, j: int, neg: bool)
    requires
        0 <= i <= j < s.len(),
        spec_strip_sign(s) == (neg, s.skip(i)),
        !is_nonfinite_body(s.skip(i)),
        forall|k: int| i <= k < j ==> s[k] != 46 && !is_exp_marker(s[k]),
        s[j] != 46,
        !is_exp_marker(s[j]),
        !is_digit(s[j]),
    ensures
        spec_parse_number(s) is None,
{
    let body = s.skip(i);
    let ei = find_exp(body);
    lemma_find_exp_lower(body, j - i + 1);
    let mant = body.take(ei);
    let d = find_byte(mant, 46);
    lemma_find_byte_lower(mant, j - i + 1);
    let ip = mant.take(d);
    assert(ip[j - i] == s[j]);
    assert(!all_digits(ip));
}

/// A byte that is no digit or exponent marker, standing after the
/// first dot and before the first marker, makes the token unparsable.
proof fn lemma_bad_frac_byte(s: Seq<u8>, i: int, j: int, k: int, neg: bool)
    requires
        0 <= i <= j < k < s.len(),
        spec_strip_sign(s) == (neg, s.skip(i)),
        !is_nonfinite_body(s.skip(i)),
        forall|t: int| i <= t < j ==> s[t] != 46 && !is_exp_marker(s[t]),
        forall|t: int| j < t < k ==> !is_exp_marker(s[t]),
        s[j] == 46,
        !is_exp_marker(s[k]),
        !is_digit(s[k]),
    ensures
        spec_parse_number(s) is None,
{
    let body = s.skip(i);
    let ei = find_exp(body);
    lemma_find_exp_lower(body, k - i + 1);
    let mant = body.take(ei);
    lemma_find_byte_is(mant, 46, j - i);
    let fp = mant.skip(j - i + 1);
    assert(fp[k - j - 1] == s[k]);
    assert(!all_digits(fp));
}

/// No marker among the first `m` bytes puts the first marker at `m` or
/// beyond.
proof fn lemma_find_exp_lower(s: Seq<u8>, m: int)
    requires
        0 <= m,
        forall|k: int| 0 <= k < m && k < s.len() ==> !is_exp_marker(s[k]),
    ensures
        find_exp(s) >= m || find_exp(s) == s.len(),
        forall|k: int| 0 <= k < find_exp(s) ==> !is_exp_marker(s[k]),
        find_exp(s) <= s.len(),
        find_exp(s) < s.len() ==> is_exp_marker(s[find_exp(s)]),
    decreases s.len(),
{
    if s.len() == 0 || is_exp_marker(s[0]) {
    } else {
        let t = s.skip(1);
        assert forall|k: int| 0 <= k < m - 1 && k < t.len() implies !is_exp_marker(t[k]) by {
            assert(t[k] == s[k + 1]);
        }
        lemma_find_exp_lower(t, if m > 0 { m - 1 } else { 0 });
        let f = find_exp(s);
        assert forall|k: int| 0 <= k < f implies !is_exp_marker(s[k]) by {
            if k > 0 {
                assert(t[k - 1] == s[k]);
            }
        }
        if f < s.len() {
            assert(t[f - 1] == s[f]);
        }
    }
}

/// The same for the dot.
proof fn lemma_find_byte_lower(s: Seq<u8>, m: int)
    requires
        0 <= m,
        forall|k: int| 0 <= k < m && k < s.len() ==> s[k] != 46,
    ensures
        find_byte(s, 46) >= m || find_byte(s, 46) == s.len(),
        find_byte(s, 46) <= s.len(),
    decreases s.len(),
{
    if s.len() == 0 || s[0] == 46 {
    } else {
        let t = s.skip(1);
        assert forall|k: int| 0 <= k < m - 1 && k < t.len() implies t[k] != 46 by {
            assert(t[k] == s[k + 1]);
        }
        lemma_find_byte_lower(t, if m > 0 { m - 1 } else { 0 });
    }
}

/// Reads one optionally signed decimal, exponent-form or non-finite
/// token; yields exactly what `spec_parse_number` says of the bytes.
#[verifier::rlimit(100)]
pub fn parse_number(s: &[u8]) -> (r: Option<NumToken>)
    ensures
        r == spec_parse_number(s@),
{
    let n = s.len();
    let mut i: usize = 0;
    let mut neg = false;
    if n >= 1 && (s[0] == 43 || s[0] == 45) {
        neg = s[0] == 45;
        i = 1;
    }
    let ghost body = s@.skip(i as int);
    proof {
        assert(s@.skip(0) =~= s@);
        if i == 1 {
            assert(s@.drop_first() =~= s@.skip(1));
        }
        assert(spec_strip_sign(s@) == (neg, body));
    }
    // Spelled non-finite values.
    if n - i == 3 {
        let a = lower_byte(s[i]);
        let b = lower_byte(s[i + 1]);
        let c = lower_byte(s[i + 2]);
        if (a == 105 && b == 110 && c == 102) || (a == 110 && b == 97 && c == 110) {
            return Some(NumToken::NonFinite);
        }
    }
    if n - i == 8 {
        let a0 = lower_byte(s[i]);
        let a1 = lower_byte(s[i + 1]);
        let a2 = lower_byte(s[i + 2]);
        let a3 = lower_byte(s[i + 3]);
        let a4 = lower_byte(s[i + 4]);
        let a5 = lower_byte(s[i + 5]);
        let a6 = lower_byte(s[i + 6]);
        let a7 = lower_byte(s[i + 7]);
        if a0 == 105 && a1 == 110 && a2 == 102 && a3 == 105 && a4 == 110 && a5 == 105 && a6 == 116
            && a7 == 121 {
            return Some(NumToken::NonFinite);
        }
    }
    proof {
        assert forall|k: int| 0 <= k < body.len() implies body[k] == s@[i + k] by {}
        assert(!is_nonfinite_body(body));
    }

    // Integer part: scan to the first dot or exponent marker, under
    // the windowed-accumulator discipline.
    let mut macc: u128 = 0;
    let ghost mut mval: nat = 0nat;
    let mut mdrop: usize = 0;
    let mut mlost = false;
    let mut j = i;
    while j < n && s[j] != 46 && s[j] != 101 && s[j] != 69
        invariant
            i <= j <= n,
            n == s@.len(),
            i <= s@.len(),
            spec_strip_sign(s@) == (neg, s@.skip(i as int)),
            !is_nonfinite_body(s@.skip(i as int)),
            forall|k: int| i <= k < j ==> s@[k] != 46 && !is_exp_marker(s@[k]),
            forall|k: int| i <= k < j ==> is_digit(#[trigger] s@[k]),
            mval == seq_val(s@.subrange(i as int, j as int)),
            acc_rel(mval, macc, mdrop as nat, mlost),
            mdrop <= j,
        decreases n - j,
    {
        let b = s[j];
        if !(48 <= b && b <= 57) {
            proof {
                lemma_bad_int_byte(s@, i as int, j as int, neg);
            }
            return None;
        }
        proof {
            let pre = s@.subrange(i as int, j as int);
            let post = s@.subrange(i as int, j as int + 1);
            assert(post.drop_last() =~= pre);
            assert(post.last() == s@[j as int]);
            assert(seq_val(post) == seq_val(pre) * 10 + digit_val(s@[j as int]));
            lemma_acc_step(mval, macc, mdrop as nat, mlost, digit_val(s@[j as int]));
            mval = mval * 10 + digit_val(s@[j as int]);
        }
        if macc < POW36 {
            macc = macc * 10 + ((b - 48) as u128);
        } else {
            mdrop = mdrop + 1;
            if b != 48 {
                mlost = true;
            }
        }
        j = j + 1;
    }
    let ghost ipseq = s@.subrange(i as int, j as int);

    // Fraction part, if a dot follows: scan to the marker or the end,
    // the same discipline continued below the point.
    let dot = j < n && s[j] == 46;
    let mut k = j;
    let mut flen: usize = 0;
    let ghost mut fpseq: Seq<u8> = Seq::<u8>::empty();
    if dot {
        let fstart = j + 1;
        k = fstart;
        proof {
            assert(s@.subrange(fstart as int, fstart as int).len() == 0);
            assert(pow10(0) == 1);
            assert(seq_val(ipseq) * pow10(0) == seq_val(ipseq)) by (nonlinear_arith)
                requires
                    pow10(0) == 1,
            ;
        }
        while k < n && s[k] != 101 && s[k] != 69
            invariant
                fstart <= k <= n,
                n == s@.len(),
                i <= j < fstart,
                fstart == j + 1,
                s@[j as int] == 46,
                spec_strip_sign(s@) == (neg, s@.skip(i as int)),
                !is_nonfinite_body(s@.skip(i as int)),
                forall|t: int| i <= t < j ==> s@[t] != 46 && !is_exp_marker(s@[t]),
                forall|t: int| fstart <= t < k ==> is_digit(#[trigger] s@[t]),
                forall|t: int| fstart <= t < k ==> !is_exp_marker(s@[t]),
                ipseq == s@.subrange(i as int, j as int),
                ({
                    let fpre = s@.subrange(fstart as int, k as int);
                    mval == seq_val(ipseq) * pow10(fpre.len()) + seq_val(fpre)
                }),
                acc_rel(mval, macc, mdrop as nat, mlost),
                mdrop <= k,
            decreases n - k,
        {
            let b = s[k];
            if !(48 <= b && b <= 57) {
                proof {
                    lemma_bad_frac_byte(s@, i as int, j as int, k as int, neg);
                }
                return None;
            }
            proof {
                let fpre = s@.subrange(fstart as int, k as int);
                let fpost = s@.subrange(fstart as int, k as int + 1);
                assert(fpost.drop_last() =~= fpre);
                assert(fpost.last() == s@[k as int]);
                assert(seq_val(fpost) == seq_val(fpre) * 10 + digit_val(s@[k as int]));
                let a = seq_val(ipseq);
                let bb = seq_val(fpre);
                let p = pow10(fpre.len());
                let d = digit_val(s@[k as int]);
                assert(pow10(fpost.len()) == 10 * p);
                assert((a * p + bb) * 10 + d == a * (10 * p) + (bb * 10 + d)) by (nonlinear_arith);
                lemma_acc_step(mval, macc, mdrop as nat, mlost, d);
                mval = mval * 10 + d;
            }
            if macc < POW36 {
                macc = macc * 10 + ((b - 48) as u128);
            } else {
                mdrop = mdrop + 1;
                if b != 48 {
                    mlost = true;
                }
            }
            k = k + 1;
        }
        flen = k - (j + 1);
        proof {
            fpseq = s@.subrange(j as int + 1, k as int);
        }
    }

    proof {
        if !dot {
            let ip = s@.subrange(i as int, j as int);
            assert(pow10(0) == 1);
            assert(seq_val(ip) * pow10(0) == seq_val(ip)) by (nonlinear_arith)
                requires
                    pow10(0) == 1,
            ;
        }
    }
    finish_number(s, i, j, k, dot, neg, macc, mdrop, mlost, flen, Ghost(mval))
}

/// Validates the exponent and folds everything into the token, given
/// the mantissa scan's state and what it established about the bytes.
#[verifier::rlimit(100)]
fn finish_number(
    s: &[u8],
    i: usize,
    j: usize,
    k: usize,
    dot: bool,
    neg: bool,
    macc: u128,
    mdrop: usize,
    mlost: bool,
    flen: usize,
    Ghost(mval): Ghost<nat>,
) -> (r: Option<NumToken>)
    requires
        i <= j <= k <= s@.len(),
        spec_strip_sign(s@) == (neg, s@.skip(i as int)),
        !is_nonfinite_body(s@.skip(i as int)),
        forall|t: int| i <= t < j ==> is_digit(#[trigger] s@[t]),
        forall|t: int| i <= t < j ==> s@[t] != 46 && !is_exp_marker(s@[t]),
        dot ==> j < k && s@[j as int] == 46,
        dot ==> forall|t: int| j + 1 <= t < k ==> is_digit(#[trigger] s@[t]),
        dot ==> forall|t: int| j + 1 <= t < k ==> !is_exp_marker(#[trigger] s@[t]),
        !dot ==> j == k,
        flen == (if dot {
            k - j - 1
        } else {
            0
        }),
        k == s@.len() || is_exp_marker(s@[k as int]),
        ({
            let ip = s@.subrange(i as int, j as int);
            let fp = if dot {
                s@.subrange(j as int + 1, k as int)
            } else {
                Seq::<u8>::empty()
            };
            mval == seq_val(ip) * pow10(fp.len()) + seq_val(fp)
        }),
        acc_rel(mval, macc, mdrop as nat, mlost),
    ensures
        r == spec_parse_number(s@),
{
    let n = s.len();
    let ghost body = s@.skip(i as int);
    let ghost ipseq = s@.subrange(i as int, j as int);
    let ghost fpseq = if dot {
        s@.subrange(j as int + 1, k as int)
    } else {
        Seq::<u8>::empty()
    };
    // Identify the spec's decomposition of the token.
    let ghost ei = k - i;
    proof {
        lemma_find_exp_is(body, k - i);
        let mant = body.take(k - i);
        assert(mant =~= s@.subrange(i as int, k as int));
        if dot {
            assert forall|t: int| 0 <= t < j - i implies mant[t] != 46 by {
                assert(mant[t] == s@[i + t]);
            }
            assert(mant[j - i] == 46);
            lemma_find_byte_is(mant, 46, j - i);
            assert(mant.take(j - i) =~= ipseq);
            assert(mant.skip(j - i + 1) =~= fpseq);
        } else {
            assert(j == k);
            assert forall|t: int| 0 <= t < mant.len() implies mant[t] != 46 by {
                assert(mant[t] == s@[i + t]);
            }
            lemma_find_byte_is(mant, 46, k - i);
            assert(mant.take(k - i) =~= ipseq);
        }
        assert(mval == seq_val(ipseq) * pow10(fpseq.len()) + seq_val(fpseq)) by {
            if !dot {
                assert(fpseq.len() == 0);
                assert(pow10(0) == 1);
            }
        }
    }

    // At least one digit somewhere in the mantissa.
    if j == i && flen == 0 {
        assert(ipseq.len() + fpseq.len() == 0);
        return None;
    }

    // Exponent part, if a marker follows.
    let mut eneg = false;
    let mut eacc: u128 = 0;
    let ghost mut ev: nat = 0nat;
    if k < n {
        let mut t = k + 1;
        if t < n && (s[t] == 43 || s[t] == 45) {
            eneg = s[t] == 45;
            t = t + 1;
        }
        let ghost edseq = s@.subrange(t as int, n as int);
        proof {
            let etail = body.skip(ei + 1);
            assert(etail =~= s@.subrange(k as int + 1, n as int));
            if t == k + 2 {
                assert(etail.drop_first() =~= s@.subrange(t as int, n as int));
            } else {
                assert(etail =~= s@.subrange(t as int, n as int));
            }
            assert(spec_strip_sign(etail) == (eneg, edseq));
        }
        let (eok, ea) = scan_exp_digits(s, t);
        if !eok {
            return None;
        }
        eacc = ea;
        proof {
            ev = seq_val(edseq);
        }
    }

    let v = combine_nanos(
        neg,
        macc,
        mdrop,
        mlost,
        flen,
        eneg,
        eacc,
        Ghost(ipseq),
        Ghost(fpseq),
        Ghost(ev),
    );
    Some(NumToken::Finite(v))
}

fn sign_mag(neg: bool, m: i64) -> (r: i64)
    requires
        m >= 0,
    ensures
        r == apply_sign(neg, m),
{
    if neg {
        -m
    } else {
        m
    }
}

/// Reads the exponent digits from `start` to the end: whether they
/// form a nonempty all-digit run, and their value, exact below `ECAP`
/// and held at or above `ECAP` otherwise.
fn scan_exp_digits(s: &[u8], start: usize) -> (r: (bool, u128))
    requires
        start <= s@.len(),
    ensures
        ({
            let ed = s@.subrange(start as int, s@.len() as int);
            &&& r.0 == (ed.len() >= 1 && all_digits(ed))
            &&& (r.0 ==> ({
                let ev = seq_val(ed);
                (ev < ECAP && r.1 == ev) || (ev >= ECAP && ECAP <= r.1)
            }))
        }),
{
    let n = s.len();
    if start == n {
        return (false, 0);
    }
    let mut eacc: u128 = 0;
    let mut t = start;
    while t < n
        invariant
            start <= t <= n,
            n == s@.len(),
            forall|k: int| start <= k < t ==> is_digit(#[trigger] s@[k]),
            ({
                let ev = seq_val(s@.subrange(start as int, t as int));
                (ev < ECAP && eacc == ev) || (ev >= ECAP && ECAP <= eacc && eacc < ECAP * 10)
            }),
        decreases n - t,
    {
        let b = s[t];
        if !(48 <= b && b <= 57) {
            assert(!is_digit(s@.subrange(start as int, n as int)[t - start]));
            return (false, 0);
        }
        proof {
            let pre = s@.subrange(start as int, t as int);
            let post = s@.subrange(start as int, t as int + 1);
            assert(post.drop_last() =~= pre);
            assert(post.last() == s@[t as int]);
            assert(seq_val(post) == seq_val(pre) * 10 + digit_val(s@[t as int]));
            if seq_val(pre) >= ECAP {
                assert(seq_val(post) >= seq_val(pre));
            }
        }
        if eacc < ECAP {
            eacc = eacc * 10 + ((b - 48) as u128);
        }
        t = t + 1;
    }
    (true, eacc)
}

/// Folds the scanned mantissa window and exponent into the signed,
/// saturated nano-unit value.
#[verifier::rlimit(100)]
fn combine_nanos(
    neg: bool,
    macc: u128,
    mdrop: usize,
    mlost: bool,
    flen: usize,
    eneg: bool,
    eacc: u128,
    Ghost(ip): Ghost<Seq<u8>>,
    Ghost(fp): Ghost<Seq<u8>>,
    Ghost(ev): Ghost<nat>,
) -> (v: i64)
    requires
        acc_rel(seq_val(ip) * pow10(fp.len()) + seq_val(fp), macc, mdrop as nat, mlost),
        flen == fp.len(),
        (ev < ECAP && eacc == ev) || (ev >= ECAP && ECAP <= eacc),
    ensures
        v == apply_sign(neg, mag_of(ip, fp, eneg, ev)),
{
    let ghost m: nat = seq_val(ip) * pow10(fp.len()) + seq_val(fp);
    let ghost e_int: int = if eneg {
        -(ev as int)
    } else {
        ev as int
    };
    let ghost sh: int = 9 + e_int - fp.len();
    proof {
        lemma_pow10_literals();
    }
    if macc == 0 {
        proof {
            assert(mdrop == 0 && m == 0) by {
                if mdrop != 0 {
                    assert(POW36 <= macc);
                }
            }
            if sh >= 0 {
                assert(m * pow10(sh as nat) == 0) by (nonlinear_arith)
                    requires
                        m == 0,
                ;
            } else {
                lemma_pow10_pos((-sh) as nat);
                lemma_fundamental_div_mod_converse(0, pow10((-sh) as nat) as int, 0, 0);
            }
            assert(mag_of(ip, fp, eneg, ev) == 0);
        }
        return sign_mag(neg, 0);
    }
    proof {
        assert(m >= 1) by {
            if mdrop != 0 {
                lemma_pow10_pos(mdrop as nat);
                assert(macc * pow10(mdrop as nat) >= 1) by (nonlinear_arith)
                    requires
                        macc >= 1,
                        pow10(mdrop as nat) >= 1,
                ;
            }
        }
    }
    if !eneg && eacc >= ECAP {
        // The exponent alone pushes any nonzero value past the range.
        proof {
            assert(ev >= ECAP);
            assert(flen < ECAP - 20);
            assert(sh >= 20);
            lemma_pow10_mono(20, sh as nat);
            assert(m * pow10(sh as nat) >= pow10(sh as nat)) by (nonlinear_arith)
                requires
                    m >= 1,
                    pow10(sh as nat) >= 0,
            ;
            assert(mag_of(ip, fp, eneg, ev) == i64::MAX);
        }
        return sign_mag(neg, i64::MAX);
    }
    if eneg && eacc >= ECAP {
        // The exponent pulls any value below one nano-unit: floor zero,
        // round the nonzero remainder up to one.
        proof {
            assert(ev >= ECAP);
            let d = (-sh) as nat;
            assert(d >= ECAP - 9);
            assert(37 + mdrop < d);
            lemma_bound_window(m, macc, mdrop as nat, mlost);
            lemma_pow10_mono((37 + mdrop) as nat, d);
            assert(m < pow10(d));
            lemma_fundamental_div_mod_converse(m as int, pow10(d) as int, 0, m as int);
            assert(mag_of(ip, fp, eneg, ev) == 1);
        }
        return sign_mag(neg, 1);
    }
    assert(eacc == ev && ev < ECAP);
    let sh_e: i128 = 9 + (if eneg {
        -(eacc as i128)
    } else {
        eacc as i128
    }) - (flen as i128);
    assert(sh_e == sh);
    if sh_e >= 0 {
        if mdrop > 0 {
            proof {
                assert(POW36 <= macc);
                lemma_pow10_pos(mdrop as nat);
                assert(m >= POW36) by (nonlinear_arith)
                    requires
                        macc * pow10(mdrop as nat) <= m,
                        macc >= POW36,
                        pow10(mdrop as nat) >= 1,
                ;
                lemma_pow10_pos(sh as nat);
                assert(m * pow10(sh as nat) >= m) by (nonlinear_arith)
                    requires
                        m >= 0,
                        pow10(sh as nat) >= 1,
                ;
                assert(mag_of(ip, fp, eneg, ev) == i64::MAX);
            }
            return sign_mag(neg, i64::MAX);
        }
        assert(m == macc && !mlost);
        if sh_e > 18 {
            proof {
                lemma_pow10_mono(19, sh as nat);
                assert(m * pow10(sh as nat) >= pow10(sh as nat)) by (nonlinear_arith)
                    requires
                        m >= 1,
                        pow10(sh as nat) >= 0,
                ;
                assert(mag_of(ip, fp, eneg, ev) == i64::MAX);
            }
            return sign_mag(neg, i64::MAX);
        }
        let p = pow10_u128(sh_e as usize);
        if macc >= 10_000_000_000_000_000_000u128 {
            proof {
                lemma_pow10_pos(sh as nat);
                assert(m * pow10(sh as nat) >= m) by (nonlinear_arith)
                    requires
                        m >= 0,
                        pow10(sh as nat) >= 1,
                ;
                assert(mag_of(ip, fp, eneg, ev) == i64::MAX);
            }
            return sign_mag(neg, i64::MAX);
        }
        proof {
            lemma_pow10_mono(sh as nat, 18);
            assert(macc * p < POW36 * 100) by (nonlinear_arith)
                requires
                    macc < 10_000_000_000_000_000_000u128,
                    p <= 1_000_000_000_000_000_000u128,
                    POW36 * 100 == 100000000000000000000000000000000000000u128,
            ;
        }
        let w = macc * p;
        let mag = if w > 9_223_372_036_854_775_807u128 {
            i64::MAX
        } else {
            w as i64
        };
        assert(mag == mag_of(ip, fp, eneg, ev));
        sign_mag(neg, mag)
    } else {
        let d_e: i128 = -sh_e;
        if (mdrop as i128) >= d_e {
            // At least thirty-seven significant digits survive the
            // shift: saturated.
            proof {
                let d = (-sh) as nat;
                let rest = (mdrop - d) as nat;
                let pm = pow10(mdrop as nat);
                let pd = pow10(d);
                let pr = pow10(rest);
                lemma_pow10_adds(rest, d);
                lemma_pow10_pos(d);
                lemma_pow10_pos(rest);
                assert(POW36 <= macc);
                assert(macc * pm == (macc * pr) * pd) by (nonlinear_arith)
                    requires
                        pm == pr * pd,
                ;
                lemma_div_multiple_lower(m, (macc * pr) as nat, pd);
                assert(macc * pr >= POW36) by (nonlinear_arith)
                    requires
                        macc >= POW36,
                        pr >= 1,
                ;
                assert(mag_of(ip, fp, eneg, ev) == i64::MAX);
            }
            return sign_mag(neg, i64::MAX);
        }
        let d2_e: i128 = d_e - (mdrop as i128);
        if d2_e >= 38 {
            // Everything falls below one nano-unit: floor zero, round
            // the nonzero remainder up to one.
            proof {
                let d = (-sh) as nat;
                assert(37 + mdrop < d);
                lemma_bound_window(m, macc, mdrop as nat, mlost);
                lemma_pow10_mono((37 + mdrop) as nat, d);
                assert(m < pow10(d));
                lemma_fundamental_div_mod_converse(m as int, pow10(d) as int, 0, m as int);
                assert(mag_of(ip, fp, eneg, ev) == 1);
            }
            return sign_mag(neg, 1);
        }
        let p2 = pow10_u128(d2_e as usize);
        proof {
            lemma_pow10_pos((d2_e as usize) as nat);
        }
        let q = macc / p2;
        let rem = macc % p2;
        let lost2 = mlost || rem != 0;
        proof {
            let d = (-sh) as nat;
            lemma_pow10_pos((d - mdrop) as nat);
            lemma_div_window(m, macc, mdrop as nat, mlost, d);
        }
        let fl_plus = q + (if lost2 {
            1u128
        } else {
            0u128
        });
        let mag = if fl_plus > 9_223_372_036_854_775_807u128 {
            i64::MAX
        } else {
            fl_plus as i64
        };
        assert(mag == mag_of(ip, fp, eneg, ev));
        sign_mag(neg, mag)
    }
}

/// The exact value is below ten to the window width plus the dropped
/// count.
proof fn lemma_bound_window(m: nat, macc: u128, mdrop: nat, mlost: bool)
    requires
        acc_rel(m, macc, mdrop, mlost),
    ensures
        m < pow10((37 + mdrop) as nat),
{
    lemma_pow10_literals();
    lemma_pow10_adds(37, mdrop);
    lemma_pow10_pos(mdrop);
    if mdrop == 0 {
        assert(m == macc);
    } else {
        assert(m < (macc + 1) * pow10(mdrop));
        assert((macc + 1) * pow10(mdrop) <= pow10(37) * pow10(mdrop)) by (nonlinear_arith)
            requires
                macc + 1 <= pow10(37),
                pow10(mdrop) >= 0,
        ;
    }
}

/// A value at least `q` times a positive divisor divides to at least
/// `q`.
proof fn lemma_div_multiple_lower(m: nat, q: nat, p: nat)
    requires
        p >= 1,
        m >= q * p,
    ensures
        m / p >= q,
{
    let r = (m - q * p) as nat;
    let extra = r / p;
    let rr = r % p;
    vstd::arithmetic::div_mod::lemma_fundamental_div_mod(r as int, p as int);
    assert(m == (q + extra) * p + rr) by (nonlinear_arith)
        requires
            m == q * p + r,
            r == p * extra + rr,
    ;
    lemma_fundamental_div_mod_converse(m as int, p as int, (q + extra) as int, rr as int);
}

} // verus!
