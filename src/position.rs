//! Coordinate parser: free-form latitude/longitude text in decimal degrees,
//! degree-minutes or degree-minutes-seconds, tried in that order.
use vstd::prelude::*;
use crate::angle::Angle;
use crate::text::{digit_run, digit_run_end, digits_capped, digits_value, lemma_digit_run_end_bounds};

verus! {

/// The capture groups after the whole match (absent ones as `None`) of the
/// first match of regular expression `pattern` in `text`; `None` where there
/// is no match or the pattern does not compile.
pub uninterp spec fn regex_captures(pattern: Seq<char>, text: Seq<char>) -> Option<Seq<Option<Seq<char>>>>;

pub open spec fn groups_view(v: Seq<Option<String>>) -> Seq<Option<Seq<char>>> {
    v.map(|_i, g: Option<String>| match g {
        Some(s) => Some(s@),
        None => None,
    })
}

/// Relies on `regex::Regex::new` and `regex::Regex::captures`: the groups of
/// the first match, which depend on the pattern and the text alone.
#[verifier::external_body]
pub(crate) fn captures(pattern: &str, text: &str) -> (r: Option<Vec<Option<String>>>)
    ensures
        match r {
            Some(v) => regex_captures(pattern@, text@) == Some(groups_view(v@)),
            None => regex_captures(pattern@, text@) is None,
        },
{
    let re = regex::Regex::new(pattern).ok()?;
    let caps = re.captures(text)?;
    Some(caps.iter().skip(1).map(|m| m.map(|m| m.as_str().to_string())).collect())
}

/// Decimal degrees: sign, number, optional unit, optional hemisphere; twice.
pub open spec fn dd_pattern() -> Seq<char> {
    "^(-?)([\\d]+(?:.[\\d]+)?)[\\s]*(?:°|d|deg|)?[\\s]*(N|S|)[\\s,]*(-?)([\\d]+(?:.[\\d]+)?)[\\s]*(?:°|d|deg|)?[\\s]*(E|W|)$"@
}

/// Degree-minutes: sign, whole degrees, decimal minutes, hemisphere; twice.
pub open spec fn dm_pattern() -> Seq<char> {
    "^(-?)([\\d]+)[\\s]*(?:°|d|deg)[\\s]*([\\d]+(?:.[\\d]+)?)(?:'|\u{2018}|\u{2019}|m|min)[\\s]*(N|S)[\\s,]*(-?)([\\d]+)[\\s]*(?:°|d|deg)[\\s]*([\\d]+(?:.[\\d]+)?)(?:'|\u{2018}|\u{2019}|m|min)[\\s]*(E|W)$"@
}

/// Degree-minutes-seconds: sign, whole degrees, whole minutes, decimal
/// seconds, hemisphere; twice.
pub open spec fn dms_pattern() -> Seq<char> {
    "^(-?)([\\d]+)[\\s]*(?:°|d|deg)[\\s]*([\\d]+)[\\s]*(?:'|\u{2018}|\u{2019}|m|min)[\\s]*([\\d]+(?:.[\\d]+)?)(?:\"|\u{201C}|\u{201D}|s|sec)[\\s]*(N|S)[\\s,]*(-?)([\\d]+)[\\s]*(?:°|d|deg)[\\s]*([\\d]+)[\\s]*(?:'|\u{2018}|\u{2019}|m|min)[\\s]*([\\d]+(?:.[\\d]+)?)(?:\"|\u{201C}|\u{201D}|s|sec)[\\s]*(E|W)$"@
}


fn dd_pattern_str() -> (r: &'static str)
    ensures
        r@ == dd_pattern(),
{
    "^(-?)([\\d]+(?:.[\\d]+)?)[\\s]*(?:°|d|deg|)?[\\s]*(N|S|)[\\s,]*(-?)([\\d]+(?:.[\\d]+)?)[\\s]*(?:°|d|deg|)?[\\s]*(E|W|)$"
}

fn dm_pattern_str() -> (r: &'static str)
    ensures
        r@ == dm_pattern(),
{
    "^(-?)([\\d]+)[\\s]*(?:°|d|deg)[\\s]*([\\d]+(?:.[\\d]+)?)(?:'|\u{2018}|\u{2019}|m|min)[\\s]*(N|S)[\\s,]*(-?)([\\d]+)[\\s]*(?:°|d|deg)[\\s]*([\\d]+(?:.[\\d]+)?)(?:'|\u{2018}|\u{2019}|m|min)[\\s]*(E|W)$"
}

fn dms_pattern_str() -> (r: &'static str)
    ensures
        r@ == dms_pattern(),
{
    "^(-?)([\\d]+)[\\s]*(?:°|d|deg)[\\s]*([\\d]+)[\\s]*(?:'|\u{2018}|\u{2019}|m|min)[\\s]*([\\d]+(?:.[\\d]+)?)(?:\"|\u{201C}|\u{201D}|s|sec)[\\s]*(N|S)[\\s,]*(-?)([\\d]+)[\\s]*(?:°|d|deg)[\\s]*([\\d]+)[\\s]*(?:'|\u{2018}|\u{2019}|m|min)[\\s]*([\\d]+(?:.[\\d]+)?)(?:\"|\u{201C}|\u{201D}|s|sec)[\\s]*(E|W)$"
}

/// Why a position text was refused.
#[derive(Debug, Clone, Copy, PartialEq, Eq, Structural)]
pub enum PositionError {
    /// Degrees are not a decimal number.
    DegreesNotDecimal,
    /// Degrees are not an integer that fits 32 bits.
    DegreesNotInteger,
    /// Minutes are not a decimal number.
    MinutesNotDecimal,
    /// Minutes are not an integer that fits 32 bits.
    MinutesNotInteger,
    /// Minutes are not within `[0, 60)`.
    MinutesOutOfRange,
    /// Seconds are not a decimal number.
    SecondsNotDecimal,
    /// Seconds are not within `[0, 60)`.
    SecondsOutOfRange,
    /// A negative angle together with a south or west hemisphere.
    NegativeSouthWest,
    /// The angle is above the largest allowed.
    TooLarge,
    /// The angle is below the smallest allowed.
    TooSmall,
    /// None of the three forms matched.
    Format,
}

impl PositionError {
    /// A description of the error for people.
    pub fn message(&self) -> &'static str {
        match self {
            PositionError::DegreesNotDecimal => "degrees not a valid decimal number",
            PositionError::DegreesNotInteger => "degrees not a valid integer",
            PositionError::MinutesNotDecimal => "minutes not a valid decimal number",
            PositionError::MinutesNotInteger => "minutes not a valid integer",
            PositionError::MinutesOutOfRange => "minutes must be between 0 inclusive and 60 exclusive",
            PositionError::SecondsNotDecimal => "seconds not a valid decimal number",
            PositionError::SecondsOutOfRange => "seconds must be between 0 inclusive and 60 exclusive",
            PositionError::NegativeSouthWest => "a negative angle south or west is likely a mistake so it is disallowed",
            PositionError::TooLarge => "angle is greater than the largest allowed",
            PositionError::TooSmall => "angle is less than the smallest allowed",
            PositionError::Format => "parse error, expected in format \"<deg>°<min>'<sec>\"<N|S>, <deg>°<min>'<sec>\"<E|W>\"",
        }
    }
}

/// The most decimal places that are kept; later digits are dropped.
pub const MAX_DECIMALS: usize = 12;

/// The largest value of a signed 32-bit integer.
pub const I32_MAX: u64 = 0x7fff_ffff;

pub open spec fn pow10(k: nat) -> nat
    decreases k,
{
    if k == 0 { 1 } else { 10 * pow10((k - 1) as nat) }
}

/// A run of digits, alone.
pub open spec fn is_integer_text(t: Seq<char>) -> bool {
    t.len() > 0 && digit_run_end(t, 0) == t.len()
}

/// The whole and fraction digits of `<digits>` or `<digits>.<digits>`.
pub open spec fn decimal_split(t: Seq<char>) -> Option<(Seq<char>, Seq<char>)> {
    let a = digit_run_end(t, 0);
    if a > 0 && a == t.len() {
        Some((t, Seq::<char>::empty()))
    } else if 0 < a && a + 1 < t.len() && t[a] == '.' && digit_run_end(t, a + 1) == t.len() {
        Some((t.subrange(0, a), t.subrange(a + 1, t.len() as int)))
    } else {
        None
    }
}

/// The fraction digits that are kept: the first twelve.
pub open spec fn kept(f: Seq<char>) -> Seq<char> {
    if f.len() > MAX_DECIMALS { f.subrange(0, MAX_DECIMALS as int) } else { f }
}

/// The numerator over `10^places` of a split decimal.
pub open spec fn scaled(w: Seq<char>, f: Seq<char>) -> nat {
    digits_value(w) * pow10(f.len()) + digits_value(f)
}

/// Applies sign and hemisphere to a magnitude of `num / den` degrees and
/// checks it against `max`.
pub open spec fn signed_angle(sign: Seq<char>, dir: Seq<char>, num: nat, den: nat, max: nat) -> Result<Angle, PositionError> {
    let neg = sign == seq!['-'];
    let sw = dir == seq!['S'] || dir == seq!['W'];
    if neg && sw {
        Err(PositionError::NegativeSouthWest)
    } else if num > max * den && !sw && !neg {
        Err(PositionError::TooLarge)
    } else if num > max * den {
        Err(PositionError::TooSmall)
    } else {
        Ok(Angle { num: (if neg || sw { -num } else { num as int }) as i64, den: den as u64 })
    }
}

/// The angle of decimal degrees.
pub open spec fn dd_angle(sign: Seq<char>, deg: Seq<char>, dir: Seq<char>, max: nat) -> Result<Angle, PositionError> {
    match decimal_split(deg) {
        None => Err(PositionError::DegreesNotDecimal),
        Some((w, f)) => signed_angle(sign, dir, scaled(w, kept(f)), pow10(kept(f).len()), max),
    }
}

/// The angle of whole degrees and decimal minutes.
pub open spec fn dm_angle(sign: Seq<char>, deg: Seq<char>, min: Seq<char>, dir: Seq<char>, max: nat) -> Result<Angle, PositionError> {
    if !is_integer_text(deg) || digits_value(deg) > I32_MAX {
        Err(PositionError::DegreesNotInteger)
    } else {
        match decimal_split(min) {
            None => Err(PositionError::MinutesNotDecimal),
            Some((w, f)) => if scaled(w, kept(f)) >= 60 * pow10(kept(f).len()) {
                Err(PositionError::MinutesOutOfRange)
            } else {
                let p = pow10(kept(f).len());
                signed_angle(sign, dir, digits_value(deg) * 60 * p + scaled(w, kept(f)), 60 * p, max)
            },
        }
    }
}

/// The angle of whole degrees, whole minutes and decimal seconds.
pub open spec fn dms_angle(sign: Seq<char>, deg: Seq<char>, min: Seq<char>, sec: Seq<char>, dir: Seq<char>, max: nat) -> Result<Angle, PositionError> {
    if !is_integer_text(deg) || digits_value(deg) > I32_MAX {
        Err(PositionError::DegreesNotInteger)
    } else if !is_integer_text(min) || digits_value(min) > I32_MAX {
        Err(PositionError::MinutesNotInteger)
    } else if digits_value(min) >= 60 {
        Err(PositionError::MinutesOutOfRange)
    } else {
        match decimal_split(sec) {
            None => Err(PositionError::SecondsNotDecimal),
            Some((w, f)) => if scaled(w, kept(f)) >= 60 * pow10(kept(f).len()) {
                Err(PositionError::SecondsOutOfRange)
            } else {
                let p = pow10(kept(f).len());
                signed_angle(sign, dir,
                    digits_value(deg) * 3600 * p + digits_value(min) * 60 * p + scaled(w, kept(f)), 3600 * p, max)
            },
        }
    }
}


proof fn lemma_digits_value_bound(s: Seq<char>)
    requires
        forall|k: int| 0 <= k < s.len() ==> crate::text::is_digit(#[trigger] s[k]),
    ensures
        digits_value(s) < pow10(s.len()),
    decreases s.len(),
{
    if s.len() > 0 {
        let t = s.drop_last();
        assert forall|k: int| 0 <= k < t.len() implies crate::text::is_digit(#[trigger] t[k]) by {
            assert(t[k] == s[k]);
        }
        lemma_digits_value_bound(t);
        assert(crate::text::is_digit(s[s.len() - 1]));
    }
}

proof fn lemma_pow10_bound(k: nat)
    requires
        k <= MAX_DECIMALS,
    ensures
        1 <= pow10(k) <= 1_000_000_000_000,
{
    reveal_with_fuel(pow10, 13);
    assert(k == 0 || k == 1 || k == 2 || k == 3 || k == 4 || k == 5 || k == 6 || k == 7 || k == 8
        || k == 9 || k == 10 || k == 11 || k == 12);
}

fn pow10_exec(k: usize) -> (r: u64)
    requires
        k <= MAX_DECIMALS,
    ensures
        r == pow10(k as nat),
{
    let mut r: u64 = 1;
    let mut i: usize = 0;
    while i < k
        invariant
            i <= k <= MAX_DECIMALS,
            r == pow10(i as nat),
        decreases k - i,
    {
        proof { lemma_pow10_bound((i + 1) as nat); }
        r = r * 10;
        i = i + 1;
    }
    r
}

/// Whether `s` is exactly the one character `c`.
fn is_single(s: &str, c: char) -> (r: bool)
    ensures
        r == (s@ == seq![c]),
{
    if s.unicode_len() == 1 && s.get_char(0) == c {
        assert(s@ =~= seq![c]);
        true
    } else {
        false
    }
}

/// Whether `t` is a run of digits alone.
fn integer_text(t: &str) -> (r: bool)
    ensures
        r == is_integer_text(t@),
        r ==> forall|k: int| 0 <= k < t@.len() ==> crate::text::is_digit(#[trigger] t@[k]),
{
    let n = t.unicode_len();
    let e = digit_run(t, 0);
    proof { lemma_digit_run_end_bounds(t@, 0); }
    n > 0 && e == n
}

/// Where the whole digits of a decimal end and its fraction digits start.
fn split_decimal(t: &str) -> (r: Option<(usize, usize)>)
    ensures
        match decimal_split(t@) {
            None => r is None,
            Some((w, f)) => r matches Some((a, b)) && a <= b <= t@.len() && w == t@.subrange(0, a as int)
                && f == t@.subrange(b as int, t@.len() as int)
                && forall|k: int| (0 <= k < a || b <= k < t@.len()) ==> crate::text::is_digit(#[trigger] t@[k]),
        },
{
    let n = t.unicode_len();
    let a = digit_run(t, 0);
    proof { lemma_digit_run_end_bounds(t@, 0); }
    if a > 0 && a == n {
        proof { assert(t@.subrange(0, n as int) == t@); assert(t@.subrange(n as int, n as int) =~= Seq::<char>::empty()); }
        return Some((a, a));
    }
    if 0 < a && a + 1 < n && t.get_char(a) == '.' {
        let e = digit_run(t, a + 1);
        proof { lemma_digit_run_end_bounds(t@, a + 1); }
        if e == n {
            return Some((a, a + 1));
        }
    }
    None
}

proof fn lemma_signed_past_max(sign: Seq<char>, dir: Seq<char>, n1: nat, n2: nat, den: nat, max: nat)
    requires
        n1 > max * den,
        n2 > max * den,
    ensures
        signed_angle(sign, dir, n1, den, max) == signed_angle(sign, dir, n2, den, max),
{
}

/// Applies sign and hemisphere to `num / den` degrees and checks the bound.
fn signed_angle_exec(sign: &str, dir: &str, num: u64, den: u64, max: u64) -> (r: Result<Angle, PositionError>)
    requires
        0 < den <= 3600 * 1_000_000_000_000,
        max <= 180,
        num <= 0x7fff_ffff_ffff_ffff,
    ensures
        r == signed_angle(sign@, dir@, num as nat, den as nat, max as nat),
        r matches Ok(a) ==> a.within(max as int),
{
    let neg = is_single(sign, '-');
    let sw = is_single(dir, 'S') || is_single(dir, 'W');
    assert(max * den <= 180 * 3600 * 1_000_000_000_000) by (nonlinear_arith)
        requires max <= 180, den <= 3600 * 1_000_000_000_000;
    let limit = max * den;
    assert(-(max as int) * (den as int) == -(limit as int)) by (nonlinear_arith)
        requires limit == max * den;
    if neg && sw {
        Err(PositionError::NegativeSouthWest)
    } else if num > limit && !sw && !neg {
        Err(PositionError::TooLarge)
    } else if num > limit {
        Err(PositionError::TooSmall)
    } else {
        let v: i64 = if neg || sw { -(num as i64) } else { num as i64 };
        Ok(Angle { num: v, den })
    }
}

/// The value of the decimal `t[0..a] . t[b..]`, its fraction cut to the
/// kept places, over `10^places`, with the whole part held at `cap` where it
/// is larger.
fn scaled_exec(t: &str, a: usize, b: usize, cap: u64) -> (r: (u64, u64))
    requires
        a <= b <= t@.len(),
        1 <= cap <= 1000,
        forall|k: int| (0 <= k < a || b <= k < t@.len()) ==> crate::text::is_digit(#[trigger] t@[k]),
    ensures
        r.1 == pow10(kept(t@.subrange(b as int, t@.len() as int)).len()),
        1 <= r.1 <= 1_000_000_000_000,
        digits_value(t@.subrange(0, a as int)) < cap ==> r.0 == scaled(t@.subrange(0, a as int), kept(t@.subrange(b as int, t@.len() as int))),
        digits_value(t@.subrange(0, a as int)) >= cap ==> r.0 >= cap * r.1,
        r.0 < (cap + 1) * r.1,
{
    let n = t.unicode_len();
    let e = if n - b > MAX_DECIMALS { b + MAX_DECIMALS } else { n };
    let p = pow10_exec(e - b);
    let w = digits_capped(t, 0, a, cap);
    let f = digits_capped(t, b, e, 10_000_000_000_000);
    let ghost fs = t@.subrange(b as int, e as int);
    proof {
        assert(kept(t@.subrange(b as int, n as int)) =~= fs);
        lemma_pow10_bound((e - b) as nat);
        assert forall|k: int| 0 <= k < fs.len() implies crate::text::is_digit(#[trigger] fs[k]) by {
            assert(fs[k] == t@[b + k]);
        }
        lemma_digits_value_bound(fs);
        assert(w * p <= 1000 * 1_000_000_000_000) by (nonlinear_arith)
            requires w <= cap, cap <= 1000, p <= 1_000_000_000_000;
        assert(w * p + f < (cap + 1) * p) by (nonlinear_arith)
            requires w <= cap, f < p;
        if w == cap {
            assert(w * p >= cap * p);
        }
    }
    (w * p + f, p)
}

/// The angle of decimal degrees, checked against `max`.
fn dd_angle_exec(sign: &str, deg: &str, dir: &str, max: u64) -> (r: Result<Angle, PositionError>)
    requires
        max == 90 || max == 180,
    ensures
        r == dd_angle(sign@, deg@, dir@, max as nat),
        r matches Ok(a) ==> a.within(max as int),
{
    let n = deg.unicode_len();
    match split_decimal(deg) {
        None => Err(PositionError::DegreesNotDecimal),
        Some((a, b)) => {
            let (num, p) = scaled_exec(deg, a, b, 1000);
            let ghost w = deg@.subrange(0, a as int);
            let ghost f = kept(deg@.subrange(b as int, n as int));
            proof {
                lemma_pow10_bound(f.len());
                if digits_value(w) >= 1000 {
                    assert(scaled(w, f) >= 1000 * pow10(f.len())) by (nonlinear_arith)
                        requires scaled(w, f) == digits_value(w) * pow10(f.len()) + digits_value(f),
                            digits_value(w) >= 1000, pow10(f.len()) >= 1;
                    assert(num > max * p) by (nonlinear_arith) requires num >= 1000 * p, p >= 1, max <= 180;
                    assert(scaled(w, f) > max * p) by (nonlinear_arith)
                        requires scaled(w, f) >= 1000 * p, p >= 1, max <= 180;
                    lemma_signed_past_max(sign@, dir@, num as nat, scaled(w, f), p as nat, max as nat);
                }
            }
            signed_angle_exec(sign, dir, num, p, max)
        },
    }
}

/// The angle of whole degrees and decimal minutes, checked against `max`.
fn dm_angle_exec(sign: &str, deg: &str, min: &str, dir: &str, max: u64) -> (r: Result<Angle, PositionError>)
    requires
        max == 90 || max == 180,
    ensures
        r == dm_angle(sign@, deg@, min@, dir@, max as nat),
        r matches Ok(a) ==> a.within(max as int),
{
    if !integer_text(deg) {
        return Err(PositionError::DegreesNotInteger);
    }
    let dv = digits_capped(deg, 0, deg.unicode_len(), I32_MAX + 1);
    proof { assert(deg@.subrange(0, deg@.len() as int) == deg@); }
    if dv > I32_MAX {
        return Err(PositionError::DegreesNotInteger);
    }
    let n = min.unicode_len();
    match split_decimal(min) {
        None => Err(PositionError::MinutesNotDecimal),
        Some((a, b)) => {
            let (mn, p) = scaled_exec(min, a, b, 60);
            let ghost w = min@.subrange(0, a as int);
            let ghost f = kept(min@.subrange(b as int, n as int));
            proof {
                lemma_pow10_bound(f.len());
                if digits_value(w) >= 60 {
                    assert(scaled(w, f) >= 60 * pow10(f.len())) by (nonlinear_arith)
                        requires scaled(w, f) == digits_value(w) * pow10(f.len()) + digits_value(f),
                            digits_value(w) >= 60, pow10(f.len()) >= 1;
                }
            }
            if mn >= 60 * p {
                return Err(PositionError::MinutesOutOfRange);
            }
            let dc: u64 = if dv < 1000 { dv } else { 1000 };
            assert(dc * 60 * p <= 60_000 * 1_000_000_000_000) by (nonlinear_arith)
                requires dc <= 1000, p <= 1_000_000_000_000;
            let num = dc * 60 * p + mn;
            let den = 60 * p;
            proof {
                let sn: nat = digits_value(deg@) * 60 * (p as nat) + scaled(w, f);
                if dv >= 1000 {
                    assert(num > max * den) by (nonlinear_arith)
                        requires num == dc * 60 * p + mn, dc == 1000, den == 60 * p, p >= 1, max <= 180;
                    assert(sn > max * den) by (nonlinear_arith)
                        requires sn == digits_value(deg@) * 60 * p + scaled(w, f), digits_value(deg@) >= 1000,
                            den == 60 * p, p >= 1, max <= 180;
                    lemma_signed_past_max(sign@, dir@, num as nat, sn, den as nat, max as nat);
                }
            }
            signed_angle_exec(sign, dir, num, den, max)
        },
    }
}

/// The angle of whole degrees, whole minutes and decimal seconds, checked
/// against `max`.
fn dms_angle_exec(sign: &str, deg: &str, min: &str, sec: &str, dir: &str, max: u64) -> (r: Result<Angle, PositionError>)
    requires
        max == 90 || max == 180,
    ensures
        r == dms_angle(sign@, deg@, min@, sec@, dir@, max as nat),
        r matches Ok(a) ==> a.within(max as int),
{
    if !integer_text(deg) {
        return Err(PositionError::DegreesNotInteger);
    }
    let dv = digits_capped(deg, 0, deg.unicode_len(), I32_MAX + 1);
    proof { assert(deg@.subrange(0, deg@.len() as int) == deg@); }
    if dv > I32_MAX {
        return Err(PositionError::DegreesNotInteger);
    }
    if !integer_text(min) {
        return Err(PositionError::MinutesNotInteger);
    }
    let mv = digits_capped(min, 0, min.unicode_len(), I32_MAX + 1);
    proof { assert(min@.subrange(0, min@.len() as int) == min@); }
    if mv > I32_MAX {
        return Err(PositionError::MinutesNotInteger);
    }
    if mv >= 60 {
        return Err(PositionError::MinutesOutOfRange);
    }
    let n = sec.unicode_len();
    match split_decimal(sec) {
        None => Err(PositionError::SecondsNotDecimal),
        Some((a, b)) => {
            let (sn, p) = scaled_exec(sec, a, b, 60);
            let ghost w = sec@.subrange(0, a as int);
            let ghost f = kept(sec@.subrange(b as int, n as int));
            proof {
                lemma_pow10_bound(f.len());
                if digits_value(w) >= 60 {
                    assert(scaled(w, f) >= 60 * pow10(f.len())) by (nonlinear_arith)
                        requires scaled(w, f) == digits_value(w) * pow10(f.len()) + digits_value(f),
                            digits_value(w) >= 60, pow10(f.len()) >= 1;
                }
            }
            if sn >= 60 * p {
                return Err(PositionError::SecondsOutOfRange);
            }
            let dc: u64 = if dv < 1000 { dv } else { 1000 };
            assert(mv * 60 * p < 3600 * p) by (nonlinear_arith) requires mv < 60, p >= 1;
            assert(dc * 3600 * p <= 3_600_000 * 1_000_000_000_000) by (nonlinear_arith)
                requires dc <= 1000, p <= 1_000_000_000_000;
            let num = dc * 3600 * p + mv * 60 * p + sn;
            let den = 3600 * p;
            proof {
                let tn: nat = digits_value(deg@) * 3600 * (p as nat) + digits_value(min@) * 60 * (p as nat) + scaled(w, f);
                if dv >= 1000 {
                    assert(num > max * den) by (nonlinear_arith)
                        requires num == dc * 3600 * p + mv * 60 * p + sn, dc == 1000, den == 3600 * p, p >= 1, max <= 180;
                    assert(tn > max * den) by (nonlinear_arith)
                        requires tn == digits_value(deg@) * 3600 * p + digits_value(min@) * 60 * p + scaled(w, f),
                            digits_value(deg@) >= 1000, den == 3600 * p, p >= 1, max <= 180;
                    lemma_signed_past_max(sign@, dir@, num as nat, tn, den as nat, max as nat);
                }
            }
            signed_angle_exec(sign, dir, num, den, max)
        },
    }
}


/// Capture group `i`, with an absent group read as empty text.
pub open spec fn group(g: Seq<Option<Seq<char>>>, i: int) -> Seq<char> {
    match g[i] {
        Some(t) => t,
        None => Seq::<char>::empty(),
    }
}

/// Both angles, or the first error of the latitude then the longitude.
pub open spec fn pair(lat: Result<Angle, PositionError>, long: Result<Angle, PositionError>) -> Result<(Angle, Angle), PositionError> {
    match lat {
        Err(e) => Err(e),
        Ok(a) => match long {
            Err(e) => Err(e),
            Ok(b) => Ok((a, b)),
        },
    }
}

/// The position of the six groups of the decimal-degrees form.
pub open spec fn dd_position_spec(g: Seq<Option<Seq<char>>>) -> Result<(Angle, Angle), PositionError> {
    pair(dd_angle(group(g, 0), group(g, 1), group(g, 2), 90), dd_angle(group(g, 3), group(g, 4), group(g, 5), 180))
}

/// The position of the eight groups of the degree-minutes form.
pub open spec fn dm_position_spec(g: Seq<Option<Seq<char>>>) -> Result<(Angle, Angle), PositionError> {
    pair(
        dm_angle(group(g, 0), group(g, 1), group(g, 2), group(g, 3), 90),
        dm_angle(group(g, 4), group(g, 5), group(g, 6), group(g, 7), 180),
    )
}

/// The position of the ten groups of the degree-minutes-seconds form.
pub open spec fn dms_position_spec(g: Seq<Option<Seq<char>>>) -> Result<(Angle, Angle), PositionError> {
    pair(
        dms_angle(group(g, 0), group(g, 1), group(g, 2), group(g, 3), group(g, 4), 90),
        dms_angle(group(g, 5), group(g, 6), group(g, 7), group(g, 8), group(g, 9), 180),
    )
}

/// A match with exactly `n` groups.
pub open spec fn has_groups(c: Option<Seq<Option<Seq<char>>>>, n: int) -> bool {
    match c {
        Some(g) => g.len() == n,
        None => false,
    }
}

/// What parsing a position text gives: the first of the three forms that
/// matches the whole text decides.
pub open spec fn parse_pos_spec(s: Seq<char>) -> Result<(Angle, Angle), PositionError> {
    let dd = regex_captures(dd_pattern(), s);
    let dm = regex_captures(dm_pattern(), s);
    let dms = regex_captures(dms_pattern(), s);
    if has_groups(dd, 6) {
        dd_position_spec(dd.unwrap())
    } else if has_groups(dm, 8) {
        dm_position_spec(dm.unwrap())
    } else if has_groups(dms, 10) {
        dms_position_spec(dms.unwrap())
    } else {
        Err(PositionError::Format)
    }
}

fn group_str(g: &Vec<Option<String>>, i: usize) -> (r: &str)
    requires
        i < g@.len(),
    ensures
        r@ == group(groups_view(g@), i as int),
{
    proof {
        reveal_strlit("");
        assert(groups_view(g@)[i as int] == match g@[i as int] { Some(t) => Some(t@), None => None });
    }
    match &g[i] {
        Some(t) => t.as_str(),
        None => "",
    }
}

/// The position given by the six capture groups of the decimal-degrees form:
/// latitude sign, degrees, hemisphere; longitude sign, degrees, hemisphere.
pub fn dd_position(g: &Vec<Option<String>>) -> (r: Result<(Angle, Angle), PositionError>)
    requires
        g@.len() == 6,
    ensures
        r == dd_position_spec(groups_view(g@)),
        r matches Ok((lat, long)) ==> lat.within(90) && long.within(180),
{
    let lat = dd_angle_exec(group_str(g, 0), group_str(g, 1), group_str(g, 2), 90);
    let long = dd_angle_exec(group_str(g, 3), group_str(g, 4), group_str(g, 5), 180);
    match lat {
        Err(e) => Err(e),
        Ok(a) => match long {
            Err(e) => Err(e),
            Ok(b) => Ok((a, b)),
        },
    }
}

/// The position given by the eight capture groups of the degree-minutes
/// form: sign, degrees, minutes, hemisphere; twice.
pub fn dm_position(g: &Vec<Option<String>>) -> (r: Result<(Angle, Angle), PositionError>)
    requires
        g@.len() == 8,
    ensures
        r == dm_position_spec(groups_view(g@)),
        r matches Ok((lat, long)) ==> lat.within(90) && long.within(180),
{
    let lat = dm_angle_exec(group_str(g, 0), group_str(g, 1), group_str(g, 2), group_str(g, 3), 90);
    match lat {
        Err(e) => Err(e),
        Ok(a) => {
            let long = dm_angle_exec(group_str(g, 4), group_str(g, 5), group_str(g, 6), group_str(g, 7), 180);
            match long {
                Err(e) => Err(e),
                Ok(b) => Ok((a, b)),
            }
        },
    }
}

/// The position given by the ten capture groups of the
/// degree-minutes-seconds form: sign, degrees, minutes, seconds, hemisphere;
/// twice.
pub fn dms_position(g: &Vec<Option<String>>) -> (r: Result<(Angle, Angle), PositionError>)
    requires
        g@.len() == 10,
    ensures
        r == dms_position_spec(groups_view(g@)),
        r matches Ok((lat, long)) ==> lat.within(90) && long.within(180),
{
    let lat = dms_angle_exec(group_str(g, 0), group_str(g, 1), group_str(g, 2), group_str(g, 3), group_str(g, 4), 90);
    match lat {
        Err(e) => Err(e),
        Ok(a) => {
            let long = dms_angle_exec(group_str(g, 5), group_str(g, 6), group_str(g, 7), group_str(g, 8), group_str(g, 9), 180);
            match long {
                Err(e) => Err(e),
                Ok(b) => Ok((a, b)),
            }
        },
    }
}

/// Parses a latitude/longitude pair written in decimal degrees
/// (`"-48.88, -123.39"`, `"48.88° S, 123.39° W"`), degree-minutes
/// (`"48° 52.6' S, 123° 23.6' W"`) or degree-minutes-seconds
/// (`"48°52'36.0\"S, 123°23'36.0\"W"`), tried in that order.
pub fn parse_pos_string(s: &str) -> (r: Result<(Angle, Angle), PositionError>)
    ensures
        r == parse_pos_spec(s@),
        r matches Ok((lat, long)) ==> lat.within(90) && long.within(180),
{
    let dd = captures(dd_pattern_str(), s);
    if let Some(g) = &dd {
        if g.len() == 6 {
            return dd_position(g);
        }
    }
    let dm = captures(dm_pattern_str(), s);
    if let Some(g) = &dm {
        if g.len() == 8 {
            return dm_position(g);
        }
    }
    let dms = captures(dms_pattern_str(), s);
    if let Some(g) = &dms {
        if g.len() == 10 {
            return dms_position(g);
        }
    }
    Err(PositionError::Format)
}

} // verus!
