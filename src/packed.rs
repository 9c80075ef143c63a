//! Colours packed into one unsigned 32-bit integer: red in the highest byte,
//! then green, blue, and alpha in the lowest.
use vstd::prelude::*;

verus! {

/// The integer whose bytes, from the highest, are `r`, `g`, `b` and `a`.
pub open spec fn packed(r: u8, g: u8, b: u8, a: u8) -> int {
    r * 0x100_0000 + g * 0x1_0000 + b * 0x100 + a
}

/// Packs four channel bytes as `(r << 24) | (g << 16) | (b << 8) | a`.
pub fn pack_rgba(r: u8, g: u8, b: u8, a: u8) -> (p: u32)
    ensures
        p == packed(r, g, b, a),
{
    let p = ((r as u32) << 24u32) | ((g as u32) << 16u32) | ((b as u32) << 8u32) | (a as u32);
    assert(p == (r as u32) * 0x100_0000u32 + (g as u32) * 0x1_0000u32 + (b as u32) * 0x100u32 + (
    a as u32)) by (bit_vector)
        requires
            p == ((r as u32) << 24u32) | ((g as u32) << 16u32) | ((b as u32) << 8u32) | (a as u32),
            r < 256,
            g < 256,
            b < 256,
            a < 256,
    ;
    p
}

/// Packs three channel bytes into the top three bytes; the lowest byte is zero.
pub fn pack_rgb(r: u8, g: u8, b: u8) -> (p: u32)
    ensures
        p == packed(r, g, b, 0),
{
    pack_rgba(r, g, b, 0)
}

/// Splits a packed colour into its four bytes, highest first.
pub fn unpack_rgba(p: u32) -> (r: (u8, u8, u8, u8))
    ensures
        packed(r.0, r.1, r.2, r.3) == p,
{
    let r = (p >> 24u32) as u8;
    let g = (p >> 16u32) as u8;
    let b = (p >> 8u32) as u8;
    let a = p as u8;
    assert(p == ((p >> 24u32) & 0xff) * 0x100_0000u32 + ((p >> 16u32) & 0xff) * 0x1_0000u32 + ((p
        >> 8u32) & 0xff) * 0x100u32 + (p & 0xff)) by (bit_vector);
    assert(r == (p >> 24u32) & 0xff && g == (p >> 16u32) & 0xff && b == (p >> 8u32) & 0xff && a == p
        & 0xff) by (bit_vector)
        requires
            r == (p >> 24u32) as u8,
            g == (p >> 16u32) as u8,
            b == (p >> 8u32) as u8,
            a == p as u8,
    ;
    (r, g, b, a)
}

/// Splits a packed colour into its three highest bytes; the lowest byte is ignored.
pub fn unpack_rgb(p: u32) -> (r: (u8, u8, u8))
    ensures
        packed(r.0, r.1, r.2, (p % 0x100) as u8) == p,
{
    let (r, g, b, a) = unpack_rgba(p);
    assert(a == p % 0x100) by {
        lemma_packed_low_byte(r, g, b, a);
    }
    (r, g, b)
}

/// The lowest byte of a packed colour is its alpha byte.
pub proof fn lemma_packed_low_byte(r: u8, g: u8, b: u8, a: u8)
    ensures
        packed(r, g, b, a) % 0x100 == a,
{
    assert((r * 0x100_0000 + g * 0x1_0000 + b * 0x100 + a) % 0x100 == a) by (nonlinear_arith)
        requires
            a < 256,
    ;
}

/// Different bytes pack to different integers. With the contracts of
/// `pack_rgba` and `unpack_rgba` this makes splitting a packed colour give back
/// the bytes it was packed from.
pub proof fn lemma_packed_injective(r: u8, g: u8, b: u8, a: u8, r2: u8, g2: u8, b2: u8, a2: u8)
    ensures
        packed(r, g, b, a) == packed(r2, g2, b2, a2) ==> (r, g, b, a) == (r2, g2, b2, a2),
{
    if packed(r, g, b, a) == packed(r2, g2, b2, a2) {
        assert((r, g, b, a) == (r2, g2, b2, a2)) by (nonlinear_arith)
            requires
                r * 0x100_0000 + g * 0x1_0000 + b * 0x100 + a == r2 * 0x100_0000 + g2 * 0x1_0000 + b2
                    * 0x100 + a2,
                r < 256,
                g < 256,
                b < 256,
                a < 256,
                r2 < 256,
                g2 < 256,
                b2 < 256,
                a2 < 256,
        ;
    }
}

} // verus!
