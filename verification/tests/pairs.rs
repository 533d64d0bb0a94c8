use mandelbrot::pairs::{pair_of, parse_pair, split_pair};
use num::Complex;

fn parse_complex(s: &str) -> Option<Complex<f64>> {
    match parse_pair(s, ',') {
        Some((re, im)) => Some(Complex { re: re, im: im }),
        None => None,
    }
}

#[test]
fn test_parse_complex() {
    assert_eq!(parse_complex("1.0"), None);
    assert_eq!(parse_complex("1.0,2.0"), Some(Complex { re: 1.0, im: 2.0 }));
}

#[test]
fn test_parse_pair() {
    assert_eq!(parse_pair::<i32>("", ','), None);
    assert_eq!(parse_pair::<i32>("10,", ','), None);
    assert_eq!(parse_pair::<i32>(",20", ','), None);
    assert_eq!(parse_pair::<i32>("10,20x", ','), None);
    assert_eq!(parse_pair::<i32>("10,20", ','), Some((10, 20)));
    assert_eq!(parse_pair::<i32>("10x20", 'x'), Some((10, 20)));
}

#[test]
fn parse_pair_reads_floating_point_halves() {
    assert_eq!(parse_pair::<f64>("1.0", ','), None);
    assert_eq!(parse_pair::<f64>("1.0,2.0", ','), Some((1.0, 2.0)));
    assert_eq!(parse_pair::<f64>("-0.77568377,0.13646737", ','), Some((-0.77568377, 0.13646737)));
}

#[test]
fn parse_pair_cuts_at_the_first_separator() {
    assert_eq!(parse_pair::<i32>("1,2,3", ','), None);
    assert_eq!(parse_pair::<String>("1,2,3", ','), Some(("1".to_string(), "2,3".to_string())));
}

#[test]
fn split_pair_gives_both_sides() {
    assert_eq!(split_pair("", ','), None);
    assert_eq!(split_pair("400x600", 'x'), Some(("400", "600")));
    assert_eq!(split_pair(",", ','), Some(("", "")));
    assert_eq!(split_pair("a,b,c", ','), Some(("a", "b,c")));
    assert_eq!(split_pair("é→,xö", ','), Some(("é→", "xö")));
    assert_eq!(split_pair("1→2", '→'), Some(("1", "2")));
}

#[test]
fn pair_of_needs_both_halves() {
    assert_eq!(pair_of(Some(1), Some(2)), Some((1, 2)));
    assert_eq!(pair_of(Some(1), None), None);
    assert_eq!(pair_of(None, Some(2)), None);
    assert_eq!(pair_of::<i32>(None, None), None);
}
