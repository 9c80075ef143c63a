//! Reading a colour text of any accepted form, and the hue-sector table that
//! the conversions from hue-based models into RGB share.
use vstd::prelude::*;

use crate::chars::{
    all_hex_digits, chars_without_spaces, hex_value, hex_value_of, is_hex_digit,
    lemma_without_spaces_keeps, lower_char, lower_text, lowercase_chars, upper_hex_char,
    without_spaces,
};
use crate::css::{notation_result, CssColorNotation, CssColorType, Error};
use crate::hex::{decode_hex_pairs, hex_bytes, hex_text};

verus! {

/// A colour text once read: the bytes of a `#` hexadecimal colour (three, or
/// four with alpha), or a colour in functional notation.
#[derive(Clone, Debug, PartialEq, Eq)]
pub enum ColorSource {
    Hex(Vec<u8>),
    Notation(CssColorNotation),
}

/// A colour text with its spaces removed and its ASCII capitals lowered.
pub open spec fn normalized(s: Seq<char>) -> Seq<char> {
    lower_text(without_spaces(s))
}

/// Whether a normalized colour text is in `#` hexadecimal form.
pub open spec fn is_hex_form(t: Seq<char>) -> bool {
    t.len() > 0 && t[0] == '#'
}

/// What the digits after `#` read as: the bytes of six or eight hexadecimal
/// digits. A character that is not a digit is reported before a wrong length.
pub open spec fn hex_result(p: Seq<char>) -> Result<Seq<u8>, Error> {
    if !all_hex_digits(p) {
        Err(Error::InvalidHexChars)
    } else if p.len() == 6 || p.len() == 8 {
        Ok(hex_bytes(p))
    } else {
        Err(Error::InvalidHexLength)
    }
}

fn all_hex(v: &Vec<char>, from: usize) -> (r: bool)
    requires
        from <= v.len(),
    ensures
        r == all_hex_digits(v@.skip(from as int)),
{
    let mut i = from;
    while i < v.len()
        invariant
            from <= i <= v.len(),
            forall|j: int| from <= j < i ==> is_hex_digit(#[trigger] v@[j]),
        decreases v.len() - i,
    {
        if hex_value_of(v[i]).is_none() {
            assert(!is_hex_digit(v@.skip(from as int)[i - from]));
            return false;
        }
        i += 1;
    }
    assert forall|j: int| 0 <= j < v@.skip(from as int).len() implies is_hex_digit(
        #[trigger] v@.skip(from as int)[j],
    ) by {
        assert(v@.skip(from as int)[j] == v@[from + j]);
    }
    true
}

/// Reads a colour text: spaces are ignored and case does not matter. A text
/// that starts with `#` must hold six or eight hexadecimal digits; any other
/// text is read as functional notation.
pub fn parse_color(s: &str) -> (r: Result<ColorSource, Error>)
    ensures
        is_hex_form(normalized(s@)) ==> match r {
            Ok(ColorSource::Hex(b)) => hex_result(normalized(s@).drop_first()) == Ok::<
                _,
                Error,
            >(b@),
            Ok(ColorSource::Notation(_)) => false,
            Err(e) => hex_result(normalized(s@).drop_first()) == Err::<Seq<u8>, _>(e),
        },
        !is_hex_form(normalized(s@)) ==> match r {
            Ok(ColorSource::Notation(n)) => n.wf() && notation_result(normalized(s@)) == Ok::<
                _,
                Error,
            >(n@),
            Ok(ColorSource::Hex(_)) => false,
            Err(e) => notation_result(normalized(s@)) == Err::<
                (CssColorType, Seq<(bool, Seq<char>)>),
                _,
            >(e),
        },
{
    let v = chars_without_spaces(s);
    let t = lowercase_chars(&v);
    if t.len() > 0 && t[0] == '#' {
        assert(t@.skip(1) =~= t@.drop_first());
        if !all_hex(&t, 1) {
            return Err(Error::InvalidHexChars);
        }
        let n = t.len() - 1;
        if n != 6 && n != 8 {
            return Err(Error::InvalidHexLength);
        }
        assert(t@.subrange(1, 1 + 2 * (n / 2)) =~= t@.drop_first());
        match decode_hex_pairs(&t, 1, n / 2) {
            Some(b) => Ok(ColorSource::Hex(b)),
            None => Err(Error::InvalidHexChars),
        }
    } else {
        match CssColorNotation::parse_chars(&t) {
            Ok(n) => Ok(ColorSource::Notation(n)),
            Err(e) => Err(e),
        }
    }
}

/// The red, green and blue parts, before the common offset is added, for a
/// hue in sector `sector` (the hue divided by 60, rounded down): `c` is the
/// chroma, `x` the second-largest part and `zero` the smallest. Outside the six
/// sectors all three are `zero`.
pub open spec fn sector_parts<T>(c: T, x: T, zero: T, sector: int) -> (T, T, T) {
    if sector == 0 {
        (c, x, zero)
    } else if sector == 1 {
        (x, c, zero)
    } else if sector == 2 {
        (zero, c, x)
    } else if sector == 3 {
        (zero, x, c)
    } else if sector == 4 {
        (x, zero, c)
    } else if sector == 5 {
        (c, zero, x)
    } else {
        (zero, zero, zero)
    }
}

/// Places chroma and the second part by hue sector; see `sector_parts`.
pub fn neighboring<T: Copy>(c: T, x: T, zero: T, sector: usize) -> (r: (T, T, T))
    ensures
        r == sector_parts(c, x, zero, sector as int),
{
    match sector {
        0 => (c, x, zero),
        1 => (x, c, zero),
        2 => (zero, c, x),
        3 => (zero, x, c),
        4 => (x, zero, c),
        5 => (c, zero, x),
        _ => (zero, zero, zero),
    }
}

proof fn lemma_hex_digit_char(n: int)
    requires
        0 <= n < 16,
    ensures
        upper_hex_char(n) != ' ',
        is_hex_digit(lower_char(upper_hex_char(n))),
        hex_value(lower_char(upper_hex_char(n))) == n,
{
    let c = upper_hex_char(n);
    if n < 10 {
        assert(c as u32 == n + 48);
    } else {
        assert(c as u32 == n + 55);
        assert(lower_char(c) as u32 == n + 87);
    }
}

proof fn lemma_hex_text_chars(b: Seq<u8>)
    ensures
        hex_text(b).len() == 2 * b.len(),
        forall|i: int|
            0 <= i < b.len() ==> hex_text(b)[2 * i] == upper_hex_char(b[i] as int / 16) && hex_text(
                b,
            )[2 * i + 1] == upper_hex_char(b[i] as int % 16),
    decreases b.len(),
{
    if b.len() > 0 {
        lemma_hex_text_chars(b.drop_last());
        assert forall|i: int| 0 <= i < b.len() implies hex_text(b)[2 * i] == upper_hex_char(
            b[i] as int / 16,
        ) && hex_text(b)[2 * i + 1] == upper_hex_char(b[i] as int % 16) by {
            if i < b.len() - 1 {
                assert(b.drop_last()[i] == b[i]);
            }
        }
    }
}

/// Writing bytes as a `#` hexadecimal colour and reading the text back gives
/// the same bytes, for the three bytes of an RGB colour and the four of an
/// RGBA colour.
pub proof fn lemma_hex_round_trip(b: Seq<u8>)
    requires
        b.len() == 3 || b.len() == 4,
    ensures
        is_hex_form(normalized(seq!['#'] + hex_text(b))),
        hex_result(normalized(seq!['#'] + hex_text(b)).drop_first()) == Ok::<_, Error>(b),
{
    let h = hex_text(b);
    let s = seq!['#'] + h;
    lemma_hex_text_chars(b);
    assert forall|j: int| 0 <= j < h.len() implies h[j] != ' ' && is_hex_digit(
        lower_char(#[trigger] h[j]),
    ) by {
        let i = j / 2;
        if j % 2 == 0 {
            assert(j == 2 * i);
            lemma_hex_digit_char(b[i] as int / 16);
        } else {
            assert(j == 2 * i + 1);
            lemma_hex_digit_char(b[i] as int % 16);
        }
    }
    assert forall|i: int| 0 <= i < s.len() implies s[i] != ' ' by {
        if i > 0 {
            assert(s[i] == h[i - 1]);
        }
    }
    lemma_without_spaces_keeps(s);
    let p = normalized(s).drop_first();
    assert(p =~= lower_text(h));
    assert forall|i: int| 0 <= i < p.len() implies is_hex_digit(#[trigger] p[i]) by {
        assert(p[i] == lower_char(h[i]));
    }
    assert forall|i: int| 0 <= i < b.len() implies #[trigger] hex_bytes(p)[i] == b[i] by {
        lemma_hex_digit_char(b[i] as int / 16);
        lemma_hex_digit_char(b[i] as int % 16);
        assert(p[2 * i] == lower_char(h[2 * i]));
        assert(p[2 * i + 1] == lower_char(h[2 * i + 1]));
    }
    assert(hex_bytes(p) =~= b);
}

} // verus!
