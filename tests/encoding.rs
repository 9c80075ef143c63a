use sorbet_color::color::{neighboring, parse_color, ColorSource};
use sorbet_color::css::{CssColorType, Error};
use sorbet_color::hex::{decode_hex_prefix, hex_string};
use sorbet_color::packed::{pack_rgb, pack_rgba, unpack_rgb, unpack_rgba};

#[test]
fn it_works() {
    let result = 2 + 2;
    assert_eq!(result, 4);
}

#[test]
fn hex_string_is_upper_case_with_pound() {
    assert_eq!(hex_string(&vec![0x12, 0xab, 0xff]), "#12ABFF");
    assert_eq!(hex_string(&vec![0, 0, 0, 0]), "#00000000");
    assert_eq!(hex_string(&vec![255, 0, 0]), "#FF0000");
}

#[test]
fn unchecked_hex_prefix_decoding() {
    assert_eq!(decode_hex_prefix("#12abFF", 3), Some(vec![0x12, 0xab, 0xff]));
    assert_eq!(decode_hex_prefix("12ABff80", 4), Some(vec![0x12, 0xab, 0xff, 0x80]));
    assert_eq!(decode_hex_prefix("12ABff80", 3), Some(vec![0x12, 0xab, 0xff]));
    assert_eq!(decode_hex_prefix("#12ABf", 3), None);
    assert_eq!(decode_hex_prefix("#12ABfG", 3), None);
}

#[test]
fn packing_puts_red_highest() {
    assert_eq!(pack_rgba(0x11, 0x22, 0x33, 0x44), 0x1122_3344);
    assert_eq!(pack_rgb(0x11, 0x22, 0x33), 0x1122_3300);
    assert_eq!(unpack_rgba(0xAABB_CCDD), (0xAA, 0xBB, 0xCC, 0xDD));
    assert_eq!(unpack_rgb(0xAABB_CCDD), (0xAA, 0xBB, 0xCC));
    assert_eq!(unpack_rgba(pack_rgba(1, 2, 3, 4)), (1, 2, 3, 4));
}

#[test]
fn hex_colour_texts() {
    assert_eq!(parse_color("#FF0000"), Ok(ColorSource::Hex(vec![255, 0, 0])));
    assert_eq!(parse_color("# ff 00 00 80"), Ok(ColorSource::Hex(vec![255, 0, 0, 0x80])));
    assert_eq!(parse_color("#12345"), Err(Error::InvalidHexLength));
    assert_eq!(parse_color("#"), Err(Error::InvalidHexLength));
    assert_eq!(parse_color("#1234567"), Err(Error::InvalidHexLength));
    assert_eq!(parse_color("#12345G"), Err(Error::InvalidHexChars));
    assert_eq!(parse_color("#12G"), Err(Error::InvalidHexChars));
}

#[test]
fn red_hex_round_trip() {
    let bytes = match parse_color("#FF0000") {
        Ok(ColorSource::Hex(b)) => b,
        other => panic!("unexpected {:?}", other),
    };
    assert_eq!(hex_string(&bytes), "#FF0000");
}

#[test]
fn every_byte_survives_hex_round_trip() {
    for r in 0..=255u8 {
        let g = r.wrapping_mul(7);
        let b = r.wrapping_add(101);
        for bytes in [vec![r, g, b], vec![r, g, b, g ^ b]] {
            let text = hex_string(&bytes);
            assert_eq!(parse_color(&text), Ok(ColorSource::Hex(bytes.clone())));
            assert_eq!(decode_hex_prefix(&text, bytes.len()), Some(bytes));
        }
    }
}

#[test]
fn functional_colour_texts() {
    match parse_color("HSL(240, 100%, 50%)") {
        Ok(ColorSource::Notation(n)) => {
            assert_eq!(n.format, CssColorType::Hsl);
            assert_eq!(n.to_css_string(), "hsl(240, 100%, 50%)");
        }
        other => panic!("unexpected {:?}", other),
    }
    assert_eq!(parse_color("notacolor(1,2,3)"), Err(Error::UnknownCssFormat));
    assert_eq!(parse_color("rgb(1,2)"), Err(Error::InvalidCssParams));
    assert_eq!(parse_color("ff0000"), Err(Error::MissingCssParens));
}

#[test]
fn hue_sectors() {
    assert_eq!(neighboring(1, 2, 0, 0), (1, 2, 0));
    assert_eq!(neighboring(1, 2, 0, 1), (2, 1, 0));
    assert_eq!(neighboring(1, 2, 0, 2), (0, 1, 2));
    assert_eq!(neighboring(1, 2, 0, 3), (0, 2, 1));
    assert_eq!(neighboring(1, 2, 0, 4), (2, 0, 1));
    assert_eq!(neighboring(1, 2, 0, 5), (1, 0, 2));
    assert_eq!(neighboring(1, 2, 0, 6), (0, 0, 0));
}

#[test]
fn edge_inputs() {
    assert_eq!(parse_color(""), Err(Error::MissingCssParens));
    assert_eq!(parse_color("   "), Err(Error::MissingCssParens));
    assert_eq!(pack_rgba(255, 255, 255, 255), u32::MAX);
    assert_eq!(unpack_rgba(u32::MAX), (255, 255, 255, 255));
    assert_eq!(unpack_rgba(0), (0, 0, 0, 0));
    assert_eq!(hex_string(&vec![]), "#");
}

#[test]
fn out_of_range_values_are_kept() {
    match parse_color("rgb(-1, 300, 1000%)") {
        Ok(ColorSource::Notation(n)) => {
            assert_eq!(n.to_css_string(), "rgb(-1, 300, 1000%)");
        }
        other => panic!("unexpected {:?}", other),
    }
}
