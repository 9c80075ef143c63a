use sorbet_color::css::{CssColorNotation, CssColorType, CssNumber, Error};
use sorbet_color::decimal::Decimal;

fn dec(s: &str) -> Decimal {
    Decimal::from_text(s).unwrap()
}

fn float(s: &str) -> CssNumber {
    CssNumber::Float(dec(s))
}

fn percent(s: &str) -> CssNumber {
    CssNumber::Percent(dec(s))
}

fn number(s: &str) -> Result<CssNumber, Error> {
    CssNumber::parse(&s.chars().collect())
}

fn nice(x: f64) -> String {
    dec(&x.to_string()).to_display_string()
}

fn notations() -> Vec<(&'static str, CssColorNotation)> {
    vec![
        (
            "rgb(127.5, 255, 0)",
            CssColorNotation {
                format: CssColorType::Rgb,
                values: vec![float("127.5"), float("255"), float("0")],
            },
        ),
        (
            "rgb(100%, 50%, 75.5%)",
            CssColorNotation {
                format: CssColorType::Rgb,
                values: vec![percent("100"), percent("50"), percent("75.5")],
            },
        ),
        (
            "rgb(127.5, 120, 95%)",
            CssColorNotation {
                format: CssColorType::Rgb,
                values: vec![float("127.5"), float("120"), percent("95")],
            },
        ),
        (
            "rgba(127.5, 120, 95%, 30%)",
            CssColorNotation {
                format: CssColorType::Rgba,
                values: vec![float("127.5"), float("120"), percent("95"), percent("30")],
            },
        ),
        (
            "rgba(127.5, 120, 95%, 0.3)",
            CssColorNotation {
                format: CssColorType::Rgba,
                values: vec![float("127.5"), float("120"), percent("95"), float("0.3")],
            },
        ),
        (
            "hsva(360, 30%, 60%, 0.7)",
            CssColorNotation {
                format: CssColorType::Hsva,
                values: vec![float("360"), percent("30"), percent("60"), float("0.7")],
            },
        ),
        (
            "hsla(240.5, 30%, 60%, 0.7)",
            CssColorNotation {
                format: CssColorType::Hsla,
                values: vec![float("240.5"), percent("30"), percent("60"), float("0.7")],
            },
        ),
    ]
}

#[test]
fn test_float_to_nice_string() {
    assert_eq!(nice(99.0), "99");
    assert_eq!(nice(99.9), "99.9");
    assert_eq!(nice(99.999), "99.999");
    assert_eq!(nice(99.9994), "99.999");
    assert_eq!(nice(99.9996), "100");
    // half away from zero on the shortest decimal form
    assert_eq!(nice(99.9995), "100");
}

#[test]
fn rounding_to_three_places() {
    assert_eq!(dec("1.2345").round_to(3).to_text(), "1.235");
    assert_eq!(dec("1.2344").round_to(3).to_text(), "1.234");
    assert_eq!(dec("-0.0005").round_to(3).to_text(), "-0.001");
    assert_eq!(dec("9.9995").round_to(3).to_text(), "10.000");
    assert_eq!(dec("99.9996").round_to(3).to_text(), "100.000");
    assert_eq!(dec("7").round_to(3).to_text(), "7.000");
    assert_eq!(dec("0.12").round_to(3).to_text(), "0.120");
    assert_eq!(dec("0.12").round_to(0).to_text(), "0");
    assert_eq!(dec("0.5").round_to(0).to_text(), "1");
}

#[test]
fn nice_string_of_small_and_negative_numbers() {
    assert_eq!(nice(0.0), "0");
    assert_eq!(nice(0.5), "0.5");
    assert_eq!(nice(-1.25), "-1.25");
    assert_eq!(dec("100").to_nice_string(), "100");
    assert_eq!(dec("100.000").to_nice_string(), "100");
    assert_eq!(dec("120.050").to_nice_string(), "120.05");
}

#[test]
fn test_parse_css_number() {
    assert_eq!(number("99"), Ok(float("99")));
    assert_eq!(number("101.1"), Ok(float("101.1")));
    assert_eq!(number("100"), Ok(float("100")));
    assert_eq!(number("99%"), Ok(percent("99")));
    assert_eq!(number("99.5%"), Ok(percent("99.5")));
    assert_eq!(number("-3.25"), Ok(float("-3.25")));
}

#[test]
fn decimal_parts() {
    let d = dec("-12.50");
    assert!(d.negative);
    assert_eq!(d.whole, vec![1, 2]);
    assert_eq!(d.fraction, vec![5, 0]);
    assert_eq!(d.to_text(), "-12.50");
    assert_eq!(dec("7").fraction, Vec::<u8>::new());
}

#[test]
fn rejected_numbers() {
    assert_eq!(number("abc"), Err(Error::InvalidCssFloat));
    assert_eq!(number(""), Err(Error::InvalidCssFloat));
    assert_eq!(number("1."), Err(Error::InvalidCssFloat));
    assert_eq!(number(".5"), Err(Error::InvalidCssFloat));
    assert_eq!(number("1.2.3"), Err(Error::InvalidCssFloat));
    assert_eq!(number("x%"), Err(Error::InvalidCssPercent));
    assert_eq!(number("%"), Err(Error::InvalidCssPercent));
    assert_eq!(number("5%%"), Err(Error::InvalidCssPercent));
}

#[test]
fn test_display_css_number() {
    assert_eq!(float("99.0").to_css_string(), "99");
    assert_eq!(float("99.9").to_css_string(), "99.9");
    assert_eq!(float("99.999").to_css_string(), "99.999");
    assert_eq!(float("99.9994").to_css_string(), "99.999");
    assert_eq!(float("99.9996").to_css_string(), "100");
    // percentages hold the number written before `%`: 0.99 is `99%`
    assert_eq!(percent("99.0").to_css_string(), "99%");
    assert_eq!(percent("99.9").to_css_string(), "99.9%");
    assert_eq!(percent("99.999").to_css_string(), "99.999%");
    assert_eq!(percent("99.9994").to_css_string(), "99.999%");
    assert_eq!(percent("99.9996").to_css_string(), "100%");
}

#[test]
fn display_rounds_half_away_from_zero() {
    assert_eq!(float("99.9995").to_css_string(), "100");
    assert_eq!(float("-1.2345").to_css_string(), "-1.235");
    assert_eq!(float("0.0004").to_css_string(), "0");
    let n = CssColorNotation::parse("rgb(127.51234, 0, 0.5)").unwrap();
    assert_eq!(n.to_css_string(), "rgb(127.512, 0, 0.5)");
    assert_eq!(dec("99.9994").to_display_string(), "99.999");
}

#[test]
fn test_parse_css_color_notation() {
    for (text, expected) in notations() {
        assert_eq!(CssColorNotation::parse(text), Ok(expected.clone()));
        assert_eq!(text.parse::<CssColorNotation>(), Ok(expected));
    }
}

#[test]
fn test_display_css_color_notation() {
    for (text, notation) in notations() {
        assert_eq!(notation.to_css_string(), text);
    }
}

#[test]
fn parse_ignores_spaces_and_name_case() {
    let n = CssColorNotation::parse(" RGB ( 1 , 2 ,3 ) ").unwrap();
    assert_eq!(n.format, CssColorType::Rgb);
    assert_eq!(n.values, vec![float("1"), float("2"), float("3")]);
}

#[test]
fn arity_is_enforced() {
    assert_eq!(CssColorNotation::parse("rgb(1,2)"), Err(Error::InvalidCssParams));
    assert_eq!(CssColorNotation::parse("rgba(1,2,3)"), Err(Error::InvalidCssParams));
    assert_eq!(CssColorNotation::parse("hsl(1,2,3,4)"), Err(Error::InvalidCssParams));
    assert!(CssColorNotation::parse("rgb(1,2,3)").is_ok());
    assert!(CssColorNotation::parse("hsla(1,2,3,4)").is_ok());
}

#[test]
fn notation_errors() {
    assert_eq!(CssColorNotation::parse("rgb 1,2,3"), Err(Error::MissingCssParens));
    assert_eq!(CssColorNotation::parse("rgb(1,2,3"), Err(Error::MissingCssParens));
    assert_eq!(CssColorNotation::parse("rgb("), Err(Error::MissingCssParens));
    assert_eq!(CssColorNotation::parse("notacolor(1,2,3)"), Err(Error::UnknownCssFormat));
    assert_eq!(CssColorNotation::parse("rgb(a,2,3)"), Err(Error::InvalidCssFloat));
    assert_eq!(CssColorNotation::parse("rgb(1,2x%,3)"), Err(Error::InvalidCssPercent));
    assert_eq!(CssColorNotation::parse("rgb()"), Err(Error::InvalidCssFloat));
    // the first value that does not read decides the error
    assert_eq!(CssColorNotation::parse("rgb(1,a%,b)"), Err(Error::InvalidCssPercent));
}

#[test]
fn color_type_names() {
    let all = [
        (CssColorType::Rgb, "rgb", 3),
        (CssColorType::Rgba, "rgba", 4),
        (CssColorType::Hsv, "hsv", 3),
        (CssColorType::Hsva, "hsva", 4),
        (CssColorType::Hsl, "hsl", 3),
        (CssColorType::Hsla, "hsla", 4),
    ];
    for (t, name, arity) in all {
        assert_eq!(t.name(), name);
        assert_eq!(t.arity(), arity);
        assert_eq!(CssColorType::from_name(&name.to_uppercase().chars().collect()), Some(t));
    }
    assert_eq!(CssColorType::from_name(&"rgbx".chars().collect()), None);
    assert_eq!(CssColorType::Hsla.base(), CssColorType::Hsl);
}

fn channel_values(n: &CssColorNotation, target: CssColorType) -> Result<Vec<f64>, Error> {
    Ok(n.channels_for(target)?
        .iter()
        .map(|c| c.amount.to_text().parse::<f64>().unwrap() / c.divisor as f64)
        .collect())
}

#[test]
fn rgba_channels_from_notation() {
    let n = CssColorNotation::parse("rgba(127.5, 120, 95%, 0.3)").unwrap();
    let v = channel_values(&n, CssColorType::Rgba).unwrap();
    assert_eq!(v.len(), 4);
    assert!((v[0] - 0.5).abs() < 1e-9);
    assert!((v[1] - 0.4706).abs() < 1e-4);
    assert!((v[2] - 0.95).abs() < 1e-9);
    assert!((v[3] - 0.3).abs() < 1e-9);
    let divisors: Vec<u16> = n.channels().unwrap().iter().map(|c| c.divisor).collect();
    assert_eq!(divisors, vec![255, 255, 100, 1]);
}

#[test]
fn rgb_percent_and_plain_forms_agree() {
    let a = CssColorNotation::parse("rgb(255, 0, 0)").unwrap();
    let b = CssColorNotation::parse("rgb(100%, 0%, 0%)").unwrap();
    assert_eq!(
        channel_values(&a, CssColorType::Rgb).unwrap(),
        channel_values(&b, CssColorType::Rgb).unwrap()
    );
}

#[test]
fn hue_is_read_in_degrees() {
    let n = CssColorNotation::parse("hsva(360, 30%, 60%, 0.7)").unwrap();
    let v = channel_values(&n, CssColorType::Hsv).unwrap();
    assert_eq!(v[0], 360.0);
    assert!((v[1] - 0.3).abs() < 1e-9);
    assert!((v[2] - 0.6).abs() < 1e-9);
    assert!((v[3] - 0.7).abs() < 1e-9);
    // a percent sign on the hue does not make it a fraction
    let p = CssColorNotation::parse("hsl(50%, 0.5, 40%)").unwrap();
    let divisors: Vec<u16> = p.channels().unwrap().iter().map(|c| c.divisor).collect();
    assert_eq!(divisors, vec![1, 1, 100]);
}

#[test]
fn channels_check_model_and_count() {
    let n = CssColorNotation::parse("rgb(1, 2, 3)").unwrap();
    assert_eq!(n.channels_for(CssColorType::Hsl), Err(Error::WrongCssFormat));
    assert!(n.channels_for(CssColorType::Rgba).is_ok());
    let short = CssColorNotation { format: CssColorType::Rgba, values: vec![float("1")] };
    assert_eq!(short.channels(), Err(Error::InvalidCssParams));
    assert_eq!(short.channels_for(CssColorType::Rgb), Err(Error::InvalidCssParams));
}

#[test]
fn display_text_reads_back() {
    let n = CssColorNotation {
        format: CssColorType::Hsla,
        values: vec![float("240.500"), percent("30.000"), percent("60"), float("0.70")],
    };
    let text = n.to_css_string();
    assert_eq!(text, "hsla(240.5, 30%, 60%, 0.7)");
    let back = CssColorNotation::parse(&text).unwrap();
    assert_eq!(back.format, CssColorType::Hsla);
    assert_eq!(back.values, vec![float("240.5"), percent("30"), percent("60"), float("0.7")]);
}

#[test]
fn well_formedness_is_checked() {
    assert!(dec("1.5").is_well_formed());
    let bad = Decimal { negative: false, whole: vec![12], fraction: vec![] };
    assert!(!bad.is_well_formed());
    let empty = Decimal { negative: true, whole: vec![], fraction: vec![5] };
    assert!(!empty.is_well_formed());
    let n = CssColorNotation {
        format: CssColorType::Rgb,
        values: vec![float("1"), CssNumber::Float(bad), float("3")],
    };
    assert!(!n.is_well_formed());
    assert!(CssColorNotation::parse("rgb(1, 2, 3)").unwrap().is_well_formed());
}
