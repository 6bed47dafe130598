use mandelbrot::parser::{find_separator, join_pair, parse_pair};

#[test]
fn test_parse_pair() {
    assert_eq!(parse_pair::<f64>("0.5x1.5", 'x'), Some((0.5, 1.5)));
    assert_eq!(parse_pair::<f64>("", 'x'), None);
    assert_eq!(parse_pair::<f64>("20x", 'x'), None);
    assert_eq!(parse_pair::<f64>("x20", 'x'), None);
    assert_eq!(parse_pair::<i32>("10,20", ','), Some((10, 20)));
}

#[test]
fn parse_pair_integer_bounds() {
    assert_eq!(parse_pair::<usize>("1000x750", 'x'), Some((1000, 750)));
    assert_eq!(parse_pair::<usize>("1000x-750", 'x'), None);
}

#[test]
fn parse_pair_splits_at_first_separator() {
    assert_eq!(parse_pair::<i32>("1,2,3", ','), None);
    assert_eq!(parse_pair::<String>("a,b,c", ','), Some(("a".to_string(), "b,c".to_string())));
}

#[test]
fn parse_pair_complex_parts() {
    assert_eq!(parse_pair::<f64>("1.25,-0.0625", ','), Some((1.25, -0.0625)));
}

#[test]
fn parse_pair_without_separator() {
    assert_eq!(parse_pair::<i32>("1020", ','), None);
}

#[test]
fn find_separator_positions() {
    assert_eq!(find_separator("10,20", ','), Some(2));
    assert_eq!(find_separator(",", ','), Some(0));
    assert_eq!(find_separator("ab", ','), None);
    assert_eq!(find_separator("", ','), None);
    assert_eq!(find_separator("é,x", ','), Some(1));
}

#[test]
fn join_pair_needs_both() {
    assert_eq!(join_pair(Some(1), Some(2)), Some((1, 2)));
    assert_eq!(join_pair(Some(1), None::<i32>), None);
    assert_eq!(join_pair(None, Some(2)), None);
    assert_eq!(join_pair(None::<i32>, None), None);
}
