use z_polyhedrator::errors::ErrorKind;
use z_polyhedrator::patterns::{parse_pattern_line, parse_patterns};
use z_polyhedrator::spsearch::{SpSearchMatrix, SpSearchPatternsFlags};

#[test]
fn a_line_writes_a_pattern() {
    assert_eq!(parse_pattern_line(b"(4,1,1)"), Some((4, 1, 1)));
    assert_eq!(parse_pattern_line(b"(3,0,-1)"), Some((3, 0, -1)));
    assert_eq!(parse_pattern_line(b"(12,-7,+25)"), Some((12, -7, 25)));
    assert_eq!(
        parse_pattern_line(b"(2147483647,-2147483648,0)"),
        Some((2147483647, -2147483648, 0))
    );
}

#[test]
fn a_malformed_line_writes_none() {
    assert_eq!(parse_pattern_line(b""), None);
    assert_eq!(parse_pattern_line(b"4,1,1"), None);
    assert_eq!(parse_pattern_line(b"(4,1)"), None);
    assert_eq!(parse_pattern_line(b"(4,,1)"), None);
    assert_eq!(parse_pattern_line(b"(a,1,1)"), None);
    assert_eq!(parse_pattern_line(b"(4,1,-)"), None);
    assert_eq!(parse_pattern_line(b"(2147483648,1,1)"), None);
}

#[test]
fn lines_give_the_patterns_in_order() {
    let lines = vec!["(4,1,1)".to_string(), "(3,0,1)".to_string()];
    assert_eq!(parse_patterns(&lines), Some(vec![(4, 1, 1), (3, 0, 1)]));
    assert_eq!(parse_patterns(&Vec::new()), Some(Vec::new()));
}

#[test]
fn short_patterns_are_refused_at_load() {
    let mut m = SpSearchMatrix::from_coordinates(2, 2, &vec![(0, 0), (1, 1)]).unwrap();
    m.set_patterns(vec![(2, 1, 1)]).unwrap();
    let lines = vec!["(4,1,1)".to_string(), "(1,0,0)".to_string()];
    assert_eq!(m.load_patterns(&lines), Err(ErrorKind::InputParse));
    assert_eq!(m.set_patterns(vec![(3, 0, 1), (0, 1, 1)]), Err(ErrorKind::InputParse));
    // the patterns that were loaded before are still in place
    m.search_patterns(SpSearchPatternsFlags::pattern_first()).unwrap();
    assert_eq!(m.get_piece_list(), vec![(0usize, 0usize, (2, 1, 1))]);
}

#[test]
fn a_blank_line_is_refused_at_load() {
    let mut m = SpSearchMatrix::from_coordinates(2, 2, &vec![(0, 0), (1, 1)]).unwrap();
    let lines = vec!["(2,1,1)".to_string(), "".to_string()];
    assert_eq!(m.load_patterns(&lines), Err(ErrorKind::InputParse));
    let lines = vec!["(2,1,1)".to_string()];
    assert_eq!(m.load_patterns(&lines), Ok(()));
    m.search_patterns(SpSearchPatternsFlags::cell_first()).unwrap();
    assert_eq!(m.get_piece_list(), vec![(0usize, 0usize, (2, 1, 1))]);
}
