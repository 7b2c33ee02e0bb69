use mandelbrot::{pair_of, parse_pair, split_pair};
use num::Complex;

fn parse_complex(s: &str) -> Option<Complex<f64>> {
    match parse_pair(s, ',') {
        Some((re, im)) => Some(Complex { re, im }),
        None => None,
    }
}

#[test]
fn test_parse_pair() {
    assert_eq!(parse_pair::<i32>("", ','), None);
    assert_eq!(parse_pair::<i32>("10", ','), None);
    assert_eq!(parse_pair::<i32>(",10", ','), None);
    assert_eq!(parse_pair::<i32>("10,20", ','), Some((10, 20)));
    assert_eq!(parse_pair::<i32>("10,20xy", ','), None);
    assert_eq!(parse_pair::<f64>("0.5x", 'x'), None);
    assert_eq!(parse_pair::<f64>("0.5x1.5", 'x'), Some((0.5, 1.5)));
}

#[test]
fn test_parse_complex() {
    assert_eq!(
        parse_complex("1.25,-0.0625"),
        Some(Complex { re: 1.25, im: -0.0625 })
    );
    assert_eq!(parse_complex(",-0.0625"), None);
}

#[test]
fn parse_pair_rejects_a_lone_separator() {
    assert_eq!(parse_pair::<i32>(",", ','), None);
    assert_eq!(parse_pair::<f64>(",", ','), None);
}

#[test]
fn parse_pair_rejects_the_wrong_separator() {
    assert_eq!(parse_pair::<usize>("1000,750", 'x'), None);
    assert_eq!(parse_pair::<usize>("1000x750", 'x'), Some((1000, 750)));
}

#[test]
fn parse_pair_splits_at_the_first_separator() {
    // The right half of "1,2,3" is "2,3", which is no number.
    assert_eq!(parse_pair::<i32>("1,2,3", ','), None);
    assert_eq!(
        parse_pair::<String>("1,2,3", ','),
        Some(("1".to_string(), "2,3".to_string()))
    );
}

#[test]
fn parse_pair_takes_a_separator_of_any_width() {
    assert_eq!(parse_pair::<i32>("3\u{d7}4", '\u{d7}'), Some((3, 4)));
    assert_eq!(
        parse_pair::<String>("\u{e9}t\u{e9},hiver", ','),
        Some(("\u{e9}t\u{e9}".to_string(), "hiver".to_string()))
    );
}

#[test]
fn parse_pair_parses_each_half_by_its_type() {
    // A wrapper that handed its argument back could not turn text into numbers.
    assert_eq!(parse_pair::<u8>("255,0", ','), Some((255, 0)));
    assert_eq!(parse_pair::<u8>("256,0", ','), None);
    assert_eq!(parse_pair::<i64>("-1.20,0.35", ','), None);
    assert_eq!(parse_pair::<f64>("-1.20,0.35", ','), Some((-1.20, 0.35)));
}

#[test]
fn split_pair_gives_both_halves_without_the_separator() {
    assert_eq!(split_pair("10,20", ','), Some(("10", "20")));
    assert_eq!(split_pair(",10", ','), Some(("", "10")));
    assert_eq!(split_pair("0.5x", 'x'), Some(("0.5", "")));
    assert_eq!(split_pair(",", ','), Some(("", "")));
    assert_eq!(split_pair("a,b,c", ','), Some(("a", "b,c")));
}

#[test]
fn split_pair_finds_nothing_without_a_separator() {
    assert_eq!(split_pair("", ','), None);
    assert_eq!(split_pair("10", ','), None);
    assert_eq!(split_pair("10x20", ','), None);
}

#[test]
fn pair_of_needs_both_halves() {
    assert_eq!(pair_of(Some(1), Some(2)), Some((1, 2)));
    assert_eq!(pair_of(Some(1), None::<i32>), None);
    assert_eq!(pair_of(None::<i32>, Some(2)), None);
    assert_eq!(pair_of(None::<i32>, None), None);
}
