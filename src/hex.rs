//! Hexadecimal text for byte sequences: the `#RRGGBB` and `#RRGGBBAA` forms.
use vstd::prelude::*;

use crate::chars::{all_hex_digits, hex_digit_str, hex_value, hex_value_of, upper_hex_char};

verus! {

/// Upper-case hexadecimal text of `b`, two digits per byte, high digit first.
pub open spec fn hex_text(b: Seq<u8>) -> Seq<char>
    decreases b.len(),
{
    if b.len() == 0 {
        Seq::empty()
    } else {
        hex_text(b.drop_last()) + seq![
            upper_hex_char(b.last() as int / 16),
            upper_hex_char(b.last() as int % 16),
        ]
    }
}

/// The bytes that pairs of hexadecimal digits denote; a trailing odd digit is ignored.
pub open spec fn hex_bytes(s: Seq<char>) -> Seq<u8> {
    Seq::new(s.len() / 2, |i: int| (hex_value(s[2 * i]) * 16 + hex_value(s[2 * i + 1])) as u8)
}

/// The text with one leading `#` removed, if it has one.
pub open spec fn without_pound(s: Seq<char>) -> Seq<char> {
    if s.len() > 0 && s[0] == '#' {
        s.drop_first()
    } else {
        s
    }
}

/// Renders bytes as `#` followed by two upper-case hexadecimal digits per byte.
pub fn hex_string(bytes: &Vec<u8>) -> (r: String)
    ensures
        r@ == seq!['#'] + hex_text(bytes@),
{
    let mut r = String::from_str("#");
    proof {
        reveal_strlit("#");
    }
    let mut i: usize = 0;
    while i < bytes.len()
        invariant
            i <= bytes.len(),
            r@ == seq!['#'] + hex_text(bytes@.take(i as int)),
        decreases bytes.len() - i,
    {
        let b = bytes[i];
        r.append(hex_digit_str(b / 16));
        r.append(hex_digit_str(b % 16));
        assert(bytes@.take(i + 1).drop_last() =~= bytes@.take(i as int));
        i += 1;
        assert(r@ =~= seq!['#'] + hex_text(bytes@.take(i as int)));
    }
    assert(bytes@.take(bytes.len() as int) =~= bytes@);
    r
}

/// Decodes `count` bytes from the `2 * count` characters of `v` that start at `from`.
/// Returns `None` when one of those characters is not a hexadecimal digit.
pub fn decode_hex_pairs(v: &Vec<char>, from: usize, count: usize) -> (r: Option<Vec<u8>>)
    requires
        from + 2 * count <= v.len(),
    ensures
        r is Some <==> all_hex_digits(v@.subrange(from as int, from + 2 * count)),
        r matches Some(b) ==> b@ == hex_bytes(v@.subrange(from as int, from + 2 * count)),
{
    let ghost digits = v@.subrange(from as int, from + 2 * count);
    let mut out: Vec<u8> = Vec::new();
    let mut i: usize = 0;
    while i < count
        invariant
            from + 2 * count <= v.len(),
            digits == v@.subrange(from as int, from + 2 * count),
            i <= count,
            out@.len() == i,
            all_hex_digits(digits.take(2 * i)),
            forall|j: int|
                0 <= j < i ==> out@[j] == (hex_value(digits[2 * j]) * 16 + hex_value(
                    digits[2 * j + 1],
                )) as u8,
        decreases count - i,
    {
        let hi = hex_value_of(v[from + 2 * i]);
        let lo = hex_value_of(v[from + 2 * i + 1]);
        match (hi, lo) {
            (Some(h), Some(l)) => {
                out.push(h * 16 + l);
            },
            _ => {
                assert(!all_hex_digits(digits)) by {
                    if hi is None {
                        assert(digits[2 * i] == v@[from + 2 * i]);
                    } else {
                        assert(digits[2 * i + 1] == v@[from + 2 * i + 1]);
                    }
                }
                return None;
            },
        }
        assert(all_hex_digits(digits.take(2 * i + 2))) by {
            assert forall|j: int| 0 <= j < 2 * i + 2 implies crate::chars::is_hex_digit(
                #[trigger] digits.take(2 * i + 2)[j],
            ) by {
                if j < 2 * i {
                    assert(digits.take(2 * i)[j] == digits[j]);
                }
            }
        }
        i += 1;
    }
    assert(digits.take(2 * count) =~= digits);
    assert(out@ =~= hex_bytes(digits));
    Some(out)
}

/// Decodes the first `count` bytes of a hexadecimal colour text, with an optional
/// leading `#`. Characters after the first `2 * count` digits are ignored. Returns
/// `None` when the text is too short or one of those characters is not a hexadecimal
/// digit.
pub fn decode_hex_prefix(s: &str, count: usize) -> (r: Option<Vec<u8>>)
    requires
        count <= usize::MAX / 4,
    ensures
        r is Some <==> (without_pound(s@).len() >= 2 * count && all_hex_digits(
            without_pound(s@).take(2 * count),
        )),
        r matches Some(b) ==> b@ == hex_bytes(without_pound(s@).take(2 * count)),
{
    let v = crate::chars::chars_of(s);
    let from: usize = if v.len() > 0 && v[0] == '#' {
        1
    } else {
        0
    };
    let ghost payload = without_pound(s@);
    assert(payload =~= v@.skip(from as int));
    if v.len() - from < 2 * count {
        return None;
    }
    assert(v@.subrange(from as int, from + 2 * count) =~= payload.take(2 * count));
    decode_hex_pairs(&v, from, count)
}

} // verus!
