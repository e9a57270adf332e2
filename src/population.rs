//! Population codec: scientific-notation text such as `"3.4e+5"` packed into
//! a 12-bit code (whole digit, decimal digit, exponent; one nibble each).
use vstd::prelude::*;
use crate::text::{digit_char, digit_value, is_digit, decimal_chars, decimal_string, digit_run, digit_run_end, digits_capped, digits_value, lemma_digit_run_end_bounds};

verus! {

/// Why a population text was refused.
#[derive(Debug, Clone, Copy, PartialEq, Eq, Structural)]
pub enum PopulationError {
    /// The text is neither `"0"` nor `<whole>.<decimal>e+<exponent>`.
    Format,
    /// The whole part does not fit a 16-bit integer.
    WholeNotInteger,
    /// The decimal part does not fit a 16-bit integer.
    DecimalNotInteger,
    /// The exponent does not fit a 16-bit integer.
    SignificandNotInteger,
    /// The whole part is more than one digit.
    WholeTooLarge,
    /// The decimal part is more than one digit.
    DecimalTooLarge,
    /// The exponent is above 15.
    SignificandTooLarge,
}

impl PopulationError {
    /// A description of the error for people.
    pub fn message(&self) -> &'static str {
        match self {
            PopulationError::Format => "parse error, expected in format \"<whole>.<decimal>e+<significand>\"",
            PopulationError::WholeNotInteger => "whole part not a valid integer",
            PopulationError::DecimalNotInteger => "decimal part not a valid integer",
            PopulationError::SignificandNotInteger => "significand not a valid integer",
            PopulationError::WholeTooLarge => "whole part must be a single digit, 0-9",
            PopulationError::DecimalTooLarge => "decimal part must be a single digit, 0-9",
            PopulationError::SignificandTooLarge => "significand must be between 0-15 inclusive",
        }
    }
}

/// The three digit runs of `<whole>.<decimal>(e|E)[+]<exponent>` spanning all of `s`.
pub open spec fn population_parts(s: Seq<char>) -> Option<(Seq<char>, Seq<char>, Seq<char>)> {
    let a = digit_run_end(s, 0);
    let b0 = a + 1;
    let b = digit_run_end(s, b0);
    let e = b + 1;
    let c0 = if e < s.len() && s[e] == '+' { e + 1 } else { e };
    let c = digit_run_end(s, c0);
    if 0 < a < s.len() && s[a] == '.' && b0 < b < s.len() && (s[b] == 'e' || s[b] == 'E')
        && c0 < c && c == s.len() {
        Some((s.subrange(0, a), s.subrange(b0, b), s.subrange(c0, c)))
    } else {
        None
    }
}

/// The packed code of whole digit `w`, decimal digit `d` and exponent `e`.
pub open spec fn pack_population(w: nat, d: nat, e: nat) -> u16 {
    (w * 256 + d * 16 + e) as u16
}

/// What parsing a population text gives.
pub open spec fn parse_population_spec(s: Seq<char>) -> Result<u16, PopulationError> {
    if s == seq!['0'] {
        Ok(0)
    } else {
        match population_parts(s) {
            None => Err(PopulationError::Format),
            Some((w, d, e)) => {
                if digits_value(w) > 0xffff {
                    Err(PopulationError::WholeNotInteger)
                } else if digits_value(d) > 0xffff {
                    Err(PopulationError::DecimalNotInteger)
                } else if digits_value(e) > 0xffff {
                    Err(PopulationError::SignificandNotInteger)
                } else if digits_value(w) > 9 {
                    Err(PopulationError::WholeTooLarge)
                } else if digits_value(d) > 9 {
                    Err(PopulationError::DecimalTooLarge)
                } else if digits_value(e) > 15 {
                    Err(PopulationError::SignificandTooLarge)
                } else {
                    Ok(pack_population(digits_value(w), digits_value(d), digits_value(e)))
                }
            },
        }
    }
}

/// The text of a packed population: `"0"` when both digit nibbles are zero,
/// else `<whole>.<decimal>e+<exponent>`.
pub open spec fn format_population_spec(pop: u16) -> Seq<char> {
    if pop & 0x0ff0 == 0 {
        seq!['0']
    } else {
        decimal_chars((pop >> 8) as nat) + seq!['.'] + decimal_chars(((pop >> 4) & 0x0f) as nat)
            + seq!['e', '+'] + decimal_chars((pop & 0x0f) as nat)
    }
}

/// Parses `"0"` or `<whole>.<decimal>e+<exponent>` into a packed population code.
pub fn parse_population_string(s: &str) -> (r: Result<u16, PopulationError>)
    ensures
        r == parse_population_spec(s@),
{
    proof { reveal_strlit("0"); }
    let n = s.unicode_len();
    if n == 1 && s.get_char(0) == '0' {
        proof { assert(s@ =~= seq!['0']); }
        return Ok(0);
    }
    proof {
        if s@ == seq!['0'] {
            assert(s@[0] == '0');
        }
    }
    let a = digit_run(s, 0);
    if a == 0 || a >= n || s.get_char(a) != '.' {
        return Err(PopulationError::Format);
    }
    let b0 = a + 1;
    let b = digit_run(s, b0);
    if b == b0 || b >= n || (s.get_char(b) != 'e' && s.get_char(b) != 'E') {
        return Err(PopulationError::Format);
    }
    let e = b + 1;
    let c0 = if e < n && s.get_char(e) == '+' { e + 1 } else { e };
    let c = digit_run(s, c0);
    if c == c0 || c != n {
        return Err(PopulationError::Format);
    }
    proof {
        lemma_digit_run_end_bounds(s@, 0);
        lemma_digit_run_end_bounds(s@, b0 as int);
        lemma_digit_run_end_bounds(s@, c0 as int);
    }
    let w = digits_capped(s, 0, a, 0x10000);
    let d = digits_capped(s, b0, b, 0x10000);
    let g = digits_capped(s, c0, c, 0x10000);
    if w > 0xffff {
        Err(PopulationError::WholeNotInteger)
    } else if d > 0xffff {
        Err(PopulationError::DecimalNotInteger)
    } else if g > 0xffff {
        Err(PopulationError::SignificandNotInteger)
    } else if w > 9 {
        Err(PopulationError::WholeTooLarge)
    } else if d > 9 {
        Err(PopulationError::DecimalTooLarge)
    } else if g > 15 {
        Err(PopulationError::SignificandTooLarge)
    } else {
        Ok((w * 256 + d * 16 + g) as u16)
    }
}

/// The text of a packed population code.
pub fn format_population(pop: u16) -> (r: String)
    ensures
        r@ == format_population_spec(pop),
        pop & 0x0ff0 == 0 ==> r@ == seq!['0'],
{
    if pop & 0x0ff0 == 0 {
        proof { reveal_strlit("0"); }
        String::from_str("0")
    } else {
        let mut r = decimal_string((pop >> 8) as u64);
        r.append(".");
        let d = decimal_string(((pop >> 4) & 0x0f) as u64);
        r.append(d.as_str());
        r.append("e+");
        let e = decimal_string((pop & 0x0f) as u64);
        r.append(e.as_str());
        proof {
            reveal_strlit(".");
            reveal_strlit("e+");
        }
        r
    }
}


/// The canonical text of whole digit `w`, decimal digit `d` and exponent `e`.
pub open spec fn population_text(w: nat, d: nat, e: nat) -> Seq<char> {
    decimal_chars(w) + seq!['.'] + decimal_chars(d) + seq!['e', '+'] + decimal_chars(e)
}

proof fn lemma_digit_char(n: nat)
    requires
        n < 10,
    ensures
        is_digit(digit_char(n)),
        digit_value(digit_char(n)) == n,
        digit_char(n) != '.' && digit_char(n) != 'e' && digit_char(n) != '+',
{
}

proof fn lemma_single_digit(c: char)
    ensures
        digits_value(seq![c]) == digit_value(c),
{
    reveal_with_fuel(digits_value, 2);
    assert(seq![c].drop_last() =~= Seq::<char>::empty());
    assert(seq![c].last() == c);
}

/// Packing the parsed fields of a population text and formatting the code
/// gives the text back, for every text in canonical form whose digits are not
/// both zero; `"0"` parses to zero, and zero formats as `"0"`.
pub proof fn lemma_population_round_trip(w: nat, d: nat, e: nat)
    requires
        w <= 9,
        d <= 9,
        e <= 15,
        w + d > 0,
    ensures
        parse_population_spec(population_text(w, d, e)) == Ok::<u16, PopulationError>(pack_population(w, d, e)),
        format_population_spec(pack_population(w, d, e)) == population_text(w, d, e),
        parse_population_spec(seq!['0']) == Ok::<u16, PopulationError>(0),
        format_population_spec(0) == seq!['0'],
{
    let t = population_text(w, d, e);
    assert(0u16 & 0x0ff0u16 == 0u16) by (bit_vector);
    lemma_digit_char(w);
    lemma_digit_char(d);
    lemma_single_digit(digit_char(w));
    lemma_single_digit(digit_char(d));
    reveal_with_fuel(decimal_chars, 2);
    reveal_with_fuel(digit_run_end, 3);
    let ce = decimal_chars(e);
    if e < 10 {
        lemma_digit_char(e);
        lemma_single_digit(digit_char(e));
        assert(ce == seq![digit_char(e)]);
    } else {
        lemma_digit_char(1);
        lemma_digit_char((e % 10) as nat);
        assert(ce == seq![digit_char(1), digit_char((e % 10) as nat)]);
        assert(ce.drop_last() =~= seq![digit_char(1)]);
        lemma_single_digit(digit_char(1));
        assert(digits_value(ce) == e);
    }
    assert(t =~= seq![digit_char(w), '.', digit_char(d), 'e', '+'] + ce);
    assert(digit_run_end(t, 0) == 1);
    assert(digit_run_end(t, 2) == 3);
    assert(digit_run_end(t, 5) == t.len());
    assert(t.subrange(0, 1) =~= seq![digit_char(w)]);
    assert(t.subrange(2, 3) =~= seq![digit_char(d)]);
    assert(t.subrange(5, t.len() as int) =~= ce);
    assert(t != seq!['0']);
    let code = pack_population(w, d, e);
    let (wu, du, eu) = (w as u16, d as u16, e as u16);
    assert(code == wu * 256 + du * 16 + eu);
    assert((code >> 8) == wu && ((code >> 4) & 0x0f) == du && (code & 0x0f) == eu && (code & 0x0ff0) != 0) by (bit_vector)
        requires code == wu * 256 + du * 16 + eu, wu <= 9, du <= 9, eu <= 15, wu + du > 0;
}

} // verus!
