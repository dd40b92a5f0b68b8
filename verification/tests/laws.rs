use linked_hash_map::LinkedHashMap;
use z_polyhedrator::grid::ValueGrid;
use z_polyhedrator::spaugment::SpAugment;
use z_polyhedrator::spfgen::{convert_spf, SPFGen};
use z_polyhedrator::spsearch::{SpSearchMatrix, SpSearchPatternsFlags};

type Shape = ((i32, i32, i32), i32, Option<i32>);

/// A matrix with rows of three, a diagonal, a column and scattered cells.
fn sample() -> (usize, usize, Vec<(usize, usize)>) {
    let mut coords = vec![];
    for r in [0usize, 2, 4, 6] {
        for start in [0usize, 4, 8, 12] {
            for k in 0..3usize {
                coords.push((r, start + k));
            }
        }
    }
    for k in 0..5usize {
        coords.push((8 + k, k));
    }
    for k in 0..4usize {
        coords.push((8 + k, 10));
    }
    coords.extend([(1usize, 7usize), (3, 3), (13, 14), (5, 0), (5, 1)]);
    coords.sort();
    (14, 15, coords)
}

fn patterns() -> Vec<(i32, i32, i32)> {
    vec![(5, 1, 1), (4, 1, 0), (3, 0, 1), (2, 0, 1)]
}

fn value_of(cell: (usize, usize)) -> f64 {
    cell.0 as f64 * 100.0 + cell.1 as f64 + 0.25
}

fn values(nrows: usize, ncols: usize, coords: &Vec<(usize, usize)>) -> ValueGrid {
    let triplets: Vec<(usize, usize, u64)> =
        coords.iter().map(|c| (c.0, c.1, value_of(*c).to_bits())).collect();
    ValueGrid::from_triplets(nrows, ncols, &triplets).unwrap()
}

fn search(flags: SpSearchPatternsFlags) -> Vec<(usize, usize, (i32, i32, i32))> {
    let (nrows, ncols, coords) = sample();
    let mut m = SpSearchMatrix::from_coordinates(nrows, ncols, &coords).unwrap();
    m.set_patterns(patterns()).unwrap();
    m.search_patterns(flags).unwrap();
    m.get_piece_list()
}

fn cells_of(pieces: &Vec<(usize, usize, (i32, i32, i32))>) -> Vec<(i64, i64)> {
    let mut cells = vec![];
    for (row, col, (n, i, j)) in pieces {
        for k in 0..*n as i64 {
            cells.push((*row as i64 + k * *i as i64, *col as i64 + k * *j as i64));
        }
    }
    cells
}

fn expand(shapes: &LinkedHashMap<i32, Shape>, id: i32, row: i64, col: i64, out: &mut Vec<(i64, i64)>) {
    let ((n, i, j), order, inner) = shapes[&id];
    for k in 0..n as i64 {
        let (r, c) = (row + k * i as i64, col + k * j as i64);
        match inner {
            Some(sub) if order > 1 => expand(shapes, sub, r, c, out),
            _ => out.push((r, c)),
        }
    }
}

fn cover(aug: &SpAugment) -> Vec<(i64, i64)> {
    let shapes = aug.get_metapatterns();
    let mut out = vec![];
    for (origin, id) in aug.get_metapattern_pieces().iter() {
        expand(&shapes, *id, origin.0 as i64, origin.1 as i64, &mut out);
    }
    out.sort();
    out
}

fn as_signed(coords: &Vec<(usize, usize)>) -> Vec<(i64, i64)> {
    coords.iter().map(|c| (c.0 as i64, c.1 as i64)).collect()
}

#[test]
fn the_pieces_partition_the_nonzeros() {
    let (_, _, coords) = sample();
    for flags in [SpSearchPatternsFlags::pattern_first(), SpSearchPatternsFlags::cell_first()] {
        let pieces = search(flags);
        let total: i64 = pieces.iter().map(|p| p.2 .0 as i64).sum();
        assert_eq!(total, coords.len() as i64);
        let mut cells = cells_of(&pieces);
        cells.sort();
        // sorted and equal to the nonzeros: no cell stands twice
        assert_eq!(cells, as_signed(&coords));
    }
}

#[test]
fn the_pieces_lie_inside_the_matrix() {
    let (nrows, ncols, _) = sample();
    for flags in [SpSearchPatternsFlags::pattern_first(), SpSearchPatternsFlags::cell_first()] {
        for (r, c) in cells_of(&search(flags)) {
            assert!(0 <= r && r < nrows as i64 && 0 <= c && c < ncols as i64);
        }
    }
}

#[test]
fn single_points_come_last_in_stored_order() {
    let pieces = search(SpSearchPatternsFlags::pattern_first());
    let first_single = pieces.iter().position(|p| p.2 .0 == 1).unwrap();
    let singles: Vec<(usize, usize)> = pieces[first_single..].iter().map(|p| (p.0, p.1)).collect();
    assert!(pieces[first_single..].iter().all(|p| p.2 == (1, 0, 0)));
    assert_eq!(singles, vec![(1, 7), (3, 3), (13, 14)]);
}

fn decoded(bytes: &Vec<u8>) -> Vec<(usize, usize, u64)> {
    let m = convert_spf(bytes).unwrap();
    assert_eq!(m.rows.len(), m.cols.len());
    assert_eq!(m.rows.len(), m.values.len());
    let mut out: Vec<(usize, usize, u64)> =
        (0..m.rows.len()).map(|k| (m.rows[k], m.cols[k], m.values[k])).collect();
    out.sort();
    out
}

#[test]
fn a_written_matrix_reads_back() {
    let (nrows, ncols, coords) = sample();
    for flags in [SpSearchPatternsFlags::pattern_first(), SpSearchPatternsFlags::cell_first()] {
        let gen = SPFGen::from_piece_list(search(flags), nrows, ncols, coords.len());
        let bytes = gen.write_spf(&values(nrows, ncols, &coords), false).unwrap();
        let want: Vec<(usize, usize, u64)> =
            coords.iter().map(|c| (c.0, c.1, value_of(*c).to_bits())).collect();
        assert_eq!(decoded(&bytes), want);
        let m = convert_spf(&bytes).unwrap();
        assert_eq!((m.nrows, m.ncols), (nrows, ncols));
    }
}

#[test]
fn a_transposed_file_reads_back_transposed() {
    let (nrows, ncols, coords) = sample();
    let gen = SPFGen::from_piece_list(
        search(SpSearchPatternsFlags::pattern_first()),
        nrows,
        ncols,
        coords.len(),
    );
    let bytes = gen.write_spf(&values(nrows, ncols, &coords), true).unwrap();
    let mut want: Vec<(usize, usize, u64)> =
        coords.iter().map(|c| (c.1, c.0, value_of(*c).to_bits())).collect();
    want.sort();
    assert_eq!(decoded(&bytes), want);
    let m = convert_spf(&bytes).unwrap();
    assert_eq!((m.nrows, m.ncols), (ncols, nrows));
}

fn raised(target: usize) -> (SPFGen, SpAugment) {
    let (nrows, ncols, coords) = sample();
    let gen = SPFGen::from_piece_list(
        search(SpSearchPatternsFlags::pattern_first()),
        nrows,
        ncols,
        coords.len(),
    );
    let mut aug = SpAugment::from_1d_origin_uwc_list(gen.get_orig_uwc_list(), nrows, ncols, coords.len());
    aug.augment_dimensionality(target, 2, 0, 100).unwrap();
    (gen, aug)
}

#[test]
fn raising_keeps_the_cover() {
    let (_, _, coords) = sample();
    for target in [1usize, 2, 3, 4] {
        let (_, aug) = raised(target);
        assert_eq!(cover(&aug), as_signed(&coords));
    }
}

#[test]
fn raising_builds_shapes_of_three_axes() {
    let (_, aug) = raised(3);
    let orders: Vec<i32> = aug.get_metapatterns().iter().map(|(_, s)| s.1).collect();
    assert!(orders.contains(&2));
    assert!(orders.contains(&3));
    // every shape of a higher order repeats a shape of the order below
    let shapes = aug.get_metapatterns();
    for (_, shape) in shapes.iter() {
        match shape.2 {
            Some(inner) => assert_eq!(shapes[&inner].1, shape.1 - 1),
            None => assert_eq!(shape.1, 1),
        }
    }
    // every piece names a shape on record
    for (_, id) in aug.get_metapattern_pieces().iter() {
        assert!(shapes.contains_key(id));
    }
}

#[test]
fn a_raised_inventory_reads_back() {
    let (nrows, ncols, coords) = sample();
    let (gen, aug) = raised(3);
    let folded = SPFGen::from_metapatterns_list(
        aug.get_metapatterns(),
        aug.get_metapattern_pieces(),
        gen.nrows,
        gen.ncols,
        gen.nnz,
        gen.inc_nnz,
    );
    let bytes = folded.write_spf(&values(nrows, ncols, &coords), false).unwrap();
    let want: Vec<(usize, usize, u64)> =
        coords.iter().map(|c| (c.0, c.1, value_of(*c).to_bits())).collect();
    assert_eq!(decoded(&bytes), want);
}

#[test]
fn two_runs_write_the_same_bytes() {
    let (nrows, ncols, coords) = sample();
    let mut files = vec![];
    for _ in 0..2 {
        let (gen, aug) = raised(3);
        let folded = SPFGen::from_metapatterns_list(
            aug.get_metapatterns(),
            aug.get_metapattern_pieces(),
            gen.nrows,
            gen.ncols,
            gen.nnz,
            gen.inc_nnz,
        );
        files.push((
            gen.write_spf(&values(nrows, ncols, &coords), false).unwrap(),
            folded.write_spf(&values(nrows, ncols, &coords), false).unwrap(),
        ));
    }
    assert_eq!(files[0], files[1]);
    assert!(files[0].0 != files[0].1);
}
