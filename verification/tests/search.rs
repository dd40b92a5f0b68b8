use z_polyhedrator::errors::ErrorKind;
use z_polyhedrator::spsearch::{SpSearchMatrix, SpSearchPatternsFlags};

fn diagonal() -> SpSearchMatrix {
    let coords = vec![(0usize, 0usize), (1, 1), (2, 2), (3, 3)];
    SpSearchMatrix::from_coordinates(4, 4, &coords).unwrap()
}

#[test]
fn single_diagonal_is_one_piece() {
    let mut m = diagonal();
    m.set_patterns(vec![(4, 1, 1)]).unwrap();
    m.search_patterns(SpSearchPatternsFlags::pattern_first()).unwrap();
    assert_eq!(m.get_piece_list(), vec![(0usize, 0usize, (4, 1, 1))]);
}

#[test]
fn dense_three_by_three_pattern_first() {
    let mut coords = Vec::new();
    for r in 0..3usize {
        for c in 0..3usize {
            coords.push((r, c));
        }
    }
    let mut m = SpSearchMatrix::from_coordinates(3, 3, &coords).unwrap();
    m.set_patterns(vec![(3, 0, 1), (3, 1, 0)]).unwrap();
    m.search_patterns(SpSearchPatternsFlags::pattern_first()).unwrap();
    assert_eq!(
        m.get_piece_list(),
        vec![(0usize, 0usize, (3, 0, 1)), (1, 0, (3, 0, 1)), (2, 0, (3, 0, 1))]
    );
}

#[test]
fn dense_three_by_three_cell_first() {
    let mut coords = Vec::new();
    for r in 0..3usize {
        for c in 0..3usize {
            coords.push((r, c));
        }
    }
    let mut m = SpSearchMatrix::from_coordinates(3, 3, &coords).unwrap();
    m.set_patterns(vec![(3, 0, 1), (3, 1, 0)]).unwrap();
    m.search_patterns(SpSearchPatternsFlags::cell_first()).unwrap();
    assert_eq!(
        m.get_piece_list(),
        vec![(0usize, 0usize, (3, 0, 1)), (1, 0, (3, 0, 1)), (2, 0, (3, 0, 1))]
    );
}

#[test]
fn mixed_residual() {
    let coords = vec![(0usize, 0usize), (0, 1), (0, 2), (3, 3)];
    let mut m = SpSearchMatrix::from_coordinates(4, 4, &coords).unwrap();
    m.set_patterns(vec![(3, 0, 1)]).unwrap();
    m.search_patterns(SpSearchPatternsFlags::pattern_first()).unwrap();
    assert_eq!(
        m.get_piece_list(),
        vec![(0usize, 0usize, (3, 0, 1)), (3, 3, (1, 0, 0))]
    );
}

#[test]
fn one_priority_must_be_chosen() {
    let mut m = diagonal();
    m.set_patterns(vec![(4, 1, 1)]).unwrap();
    assert_eq!(
        m.search_patterns(SpSearchPatternsFlags::no_flags()),
        Err(ErrorKind::Policy)
    );
    let both = SpSearchPatternsFlags::pattern_first().union(SpSearchPatternsFlags::cell_first());
    assert!(both.contains(SpSearchPatternsFlags::cell_first()));
    assert!(!SpSearchPatternsFlags::pattern_first().contains(SpSearchPatternsFlags::cell_first()));
    assert_eq!(m.search_patterns(both), Err(ErrorKind::Policy));
    assert_eq!(m.get_piece_list(), Vec::new());
}

#[test]
fn coordinates_outside_the_matrix_are_refused() {
    assert!(SpSearchMatrix::from_coordinates(2, 2, &vec![(0, 0), (2, 1)]).is_err());
    assert!(SpSearchMatrix::from_coordinates(2, 2, &vec![(0, 2)]).is_err());
    assert!(SpSearchMatrix::from_coordinates(2, 2, &vec![(1, 1)]).is_ok());
}

#[test]
fn without_patterns_every_nonzero_is_a_single_point() {
    let coords = vec![(2usize, 1usize), (0, 3), (0, 0)];
    let mut m = SpSearchMatrix::from_coordinates(3, 4, &coords).unwrap();
    m.search_patterns(SpSearchPatternsFlags::pattern_first()).unwrap();
    assert_eq!(
        m.get_piece_list(),
        vec![(0usize, 0usize, (1, 0, 0)), (0, 3, (1, 0, 0)), (2, 1, (1, 0, 0))]
    );
}

#[test]
fn a_pattern_needs_all_of_its_cells_free() {
    // the column through (0, 1) is claimed first, so the row through (1, 0) does not fit
    let coords = vec![(0usize, 1usize), (1, 0), (1, 1), (1, 2), (2, 1)];
    let mut m = SpSearchMatrix::from_coordinates(3, 3, &coords).unwrap();
    m.set_patterns(vec![(3, 1, 0), (3, 0, 1)]).unwrap();
    m.search_patterns(SpSearchPatternsFlags::pattern_first()).unwrap();
    assert_eq!(
        m.get_piece_list(),
        vec![(0usize, 1usize, (3, 1, 0)), (1, 0, (1, 0, 0)), (1, 2, (1, 0, 0))]
    );
}

#[test]
fn the_priorities_differ_where_patterns_compete() {
    let coords = vec![(0usize, 0usize), (1, 0), (1, 1)];
    let patterns = vec![(2, 0, 1), (2, 1, 0)];
    // the first pattern claims the lower row before the second is tried
    let mut by_pattern = SpSearchMatrix::from_coordinates(2, 2, &coords).unwrap();
    by_pattern.set_patterns(patterns.clone()).unwrap();
    by_pattern.search_patterns(SpSearchPatternsFlags::pattern_first()).unwrap();
    assert_eq!(
        by_pattern.get_piece_list(),
        vec![(1usize, 0usize, (2, 0, 1)), (0, 0, (1, 0, 0))]
    );
    // at the first cell only the second pattern fits, and it claims the column
    let mut by_cell = SpSearchMatrix::from_coordinates(2, 2, &coords).unwrap();
    by_cell.set_patterns(patterns).unwrap();
    by_cell.search_patterns(SpSearchPatternsFlags::cell_first()).unwrap();
    assert_eq!(
        by_cell.get_piece_list(),
        vec![(0usize, 0usize, (2, 1, 0)), (1, 1, (1, 0, 0))]
    );
}

#[test]
fn a_backward_pattern_stays_inside_the_matrix() {
    // the anti-diagonal is found from its first stored cell, (0, 2)
    let coords = vec![(0usize, 2usize), (1, 1), (2, 0)];
    let mut m = SpSearchMatrix::from_coordinates(3, 3, &coords).unwrap();
    m.set_patterns(vec![(3, 1, -1)]).unwrap();
    m.search_patterns(SpSearchPatternsFlags::pattern_first()).unwrap();
    assert_eq!(m.get_piece_list(), vec![(0usize, 2usize, (3, 1, -1))]);
    let mut m = SpSearchMatrix::from_coordinates(3, 3, &coords).unwrap();
    m.set_patterns(vec![(3, -1, 1)]).unwrap();
    m.search_patterns(SpSearchPatternsFlags::pattern_first()).unwrap();
    assert_eq!(
        m.get_piece_list(),
        vec![(2usize, 0usize, (3, -1, 1))]
    );
}

#[test]
fn the_matrix_records_its_counts() {
    let m = diagonal();
    assert_eq!((m.numrows(), m.numcols(), m.nonzeros()), (4, 4, 4));
    assert_eq!((m.numrows, m.numcols, m.nonzeros), (4, 4, 4));
}
