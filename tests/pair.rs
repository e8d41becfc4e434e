use mandelbrot::pair::{parse_pair, parse_usize, split_pair};

fn parse_float_pair(s: &str, separator: char) -> Option<(f64, f64)> {
    match split_pair(s, separator) {
        None => None,
        Some((l, r)) => match (l.parse::<f64>(), r.parse::<f64>()) {
            (Ok(a), Ok(b)) => Some((a, b)),
            _ => None,
        },
    }
}

#[test]
fn test_parse_pair() {
    assert_eq!(parse_pair("", ','), None);
    assert_eq!(parse_pair("10,", ','), None);
    assert_eq!(parse_pair(",10", ','), None);
    assert_eq!(parse_pair("10,20", ','), Some((10, 20)));
    assert_eq!(parse_pair("10,20xy", ','), None);
    assert_eq!(parse_float_pair("0.5x", 'x'), None);
    assert_eq!(parse_float_pair("0.5x1.5", 'x'), Some((0.5, 1.5)));
}

#[test]
fn test_parse_complex() {
    assert_eq!(parse_float_pair("1.25,-0.0625", ','), Some((1.25, -0.0625)));
    assert_eq!(parse_float_pair(",-0.0625", ','), None);
}

#[test]
fn parse_pair_of_image_bounds() {
    assert_eq!(parse_pair("1280x960", 'x'), Some((1280, 960)));
    assert_eq!(parse_pair("1280x960", ','), None);
    assert_eq!(parse_pair("1x2x3", 'x'), None);
    assert_eq!(parse_pair("+7x08", 'x'), Some((7, 8)));
}

#[test]
fn split_pair_cuts_at_first_separator() {
    assert_eq!(split_pair("a,b,c", ','), Some(("a", "b,c")));
    assert_eq!(split_pair(",", ','), Some(("", "")));
    assert_eq!(split_pair("abc", ','), None);
    assert_eq!(split_pair("", ','), None);
    assert_eq!(split_pair("é×ü", '×'), Some(("é", "ü")));
}

#[test]
fn parse_usize_accepts_decimal_only() {
    assert_eq!(parse_usize("0"), Some(0));
    assert_eq!(parse_usize("+42"), Some(42));
    assert_eq!(parse_usize("007"), Some(7));
    assert_eq!(parse_usize(""), None);
    assert_eq!(parse_usize("+"), None);
    assert_eq!(parse_usize("-1"), None);
    assert_eq!(parse_usize("12a"), None);
    assert_eq!(parse_usize(" 1"), None);
    assert_eq!(parse_usize("1.5"), None);
}

#[test]
fn parse_usize_at_the_largest_value() {
    let max = usize::MAX.to_string();
    assert_eq!(parse_usize(&max), Some(usize::MAX));
    let past = format!("{}0", max);
    assert_eq!(parse_usize(&past), None);
    assert_eq!(parse_usize("99999999999999999999999"), None);
}
