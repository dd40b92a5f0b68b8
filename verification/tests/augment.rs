use linked_hash_map::LinkedHashMap;
use z_polyhedrator::errors::ErrorKind;
use z_polyhedrator::grid::ValueGrid;
use z_polyhedrator::spaugment::{compute_metapatterns, SpAugment};
use z_polyhedrator::spfgen::{convert_spf, SPFGen};
use z_polyhedrator::spsearch::{SpSearchMatrix, SpSearchPatternsFlags};

fn four_rows_of_three() -> (SPFGen, Vec<(usize, usize)>) {
    let mut coords = Vec::new();
    for start in [0usize, 4, 8, 12] {
        for k in 0..3usize {
            coords.push((0usize, start + k));
        }
    }
    let mut m = SpSearchMatrix::from_coordinates(1, 15, &coords).unwrap();
    m.set_patterns(vec![(3, 0, 1)]).unwrap();
    m.search_patterns(SpSearchPatternsFlags::pattern_first()).unwrap();
    let pieces = m.get_piece_list();
    assert_eq!(
        pieces,
        vec![
            (0usize, 0usize, (3, 0, 1)),
            (0, 4, (3, 0, 1)),
            (0, 8, (3, 0, 1)),
            (0, 12, (3, 0, 1))
        ]
    );
    (SPFGen::from_piece_list(pieces, 1, 15, 12), coords)
}

#[test]
fn second_level_folds_four_pieces() {
    let (gen, _) = four_rows_of_three();
    let mut aug = SpAugment::from_1d_origin_uwc_list(gen.get_orig_uwc_list(), 1, 15, 12);
    aug.augment_dimensionality(2, 2, 0, 100).unwrap();
    let shapes: Vec<(i32, ((i32, i32, i32), i32, Option<i32>))> = aug
        .get_metapatterns()
        .iter()
        .map(|(k, v)| (*k, *v))
        .collect();
    assert_eq!(
        shapes,
        vec![(0, ((3, 0, 1), 1, None)), (1, ((4, 0, 4), 2, Some(0)))]
    );
    let pieces: Vec<((usize, usize), i32)> = aug
        .get_metapattern_pieces()
        .iter()
        .map(|(k, v)| (*k, *v))
        .collect();
    assert_eq!(pieces, vec![((0, 0), 1)]);
}

#[test]
fn folded_inventory_round_trips() {
    let (gen, coords) = four_rows_of_three();
    let mut aug = SpAugment::from_1d_origin_uwc_list(gen.get_orig_uwc_list(), 1, 15, 12);
    aug.augment_dimensionality(2, 2, 0, 100).unwrap();
    let folded = SPFGen::from_metapatterns_list(
        aug.get_metapatterns(),
        aug.get_metapattern_pieces(),
        gen.nrows,
        gen.ncols,
        gen.nnz,
        gen.inc_nnz,
    );
    let triplets: Vec<(usize, usize, u64)> = coords
        .iter()
        .map(|c| (c.0, c.1, (c.1 as f64 + 0.5).to_bits()))
        .collect();
    let values = ValueGrid::from_triplets(1, 15, &triplets).unwrap();
    let bytes = folded.write_spf(&values, false).unwrap();
    // the greatest order is announced
    assert_eq!(&bytes[30..32], &[2u8, 0]);
    let m = convert_spf(&bytes).unwrap();
    assert_eq!(m.rows, vec![0; 12]);
    assert_eq!(m.cols, vec![0, 1, 2, 4, 5, 6, 8, 9, 10, 12, 13, 14]);
    let vals: Vec<f64> = m.values.iter().map(|b| f64::from_bits(*b)).collect();
    let want: Vec<f64> = m.cols.iter().map(|c| *c as f64 + 0.5).collect();
    assert_eq!(vals, want);
}

#[test]
fn cutoff_of_one_is_refused() {
    let (gen, _) = four_rows_of_three();
    let mut aug = SpAugment::from_1d_origin_uwc_list(gen.get_orig_uwc_list(), 1, 15, 12);
    assert_eq!(aug.augment_dimensionality(2, 1, 0, 100), Err(ErrorKind::Policy));
    assert_eq!(aug.get_metapattern_pieces().len(), 4);
}

#[test]
fn small_group_emits_nothing() {
    let origins = vec![(0, 0), (0, 4)];
    assert!(compute_metapatterns(&origins, 3, 5, 0, 0, 100).is_none());
}

#[test]
fn group_reuses_the_id_of_equal_shapes() {
    // two runs of three origins at stride (0, 2), far apart
    let origins = vec![(0, 0), (0, 2), (0, 4), (5, 0), (5, 2), (5, 4)];
    let (shapes, pieces) = compute_metapatterns(&origins, 2, 7, 3, 0, 2).unwrap();
    assert_eq!(shapes, vec![(7, ((3, 0, 2), 0, Some(3)))]);
    assert_eq!(pieces, vec![((0, 0), 7), ((5, 0), 7)]);
}

#[test]
fn closer_stride_wins_a_tie() {
    // strides (0, 1) and (0, 3) both occur twice; the shorter one is tried first
    let origins = vec![(0, 0), (0, 1), (0, 3), (0, 4)];
    let (shapes, pieces) = compute_metapatterns(&origins, 2, 0, 9, 0, 10).unwrap();
    assert_eq!(shapes[0], (0, ((2, 0, 1), 0, Some(9))));
    assert_eq!(pieces[0], ((0, 0), 0));
}

#[test]
fn inventory_from_maps_moves_single_points_last() {
    let mut shapes: LinkedHashMap<i32, ((i32, i32, i32), i32, Option<i32>)> = LinkedHashMap::new();
    shapes.insert(-1, ((1, 0, 0), 1, None));
    shapes.insert(0, ((2, 0, 1), 1, None));
    let mut pieces: LinkedHashMap<(usize, usize), i32> = LinkedHashMap::new();
    pieces.insert((3, 3), -1);
    pieces.insert((0, 0), 0);
    pieces.insert((2, 2), -1);
    pieces.insert((1, 0), 0);
    let gen = SPFGen::from_metapatterns_list(shapes, pieces, 4, 4, 6, 4);
    let ids: Vec<i32> = gen.get_uwc_list().iter().map(|e| e.1).collect();
    assert_eq!(ids, vec![0, 0, -1, -1]);
}

#[test]
fn strides_outside_the_window_are_not_folded() {
    let origins = vec![(0, 0), (0, 4), (0, 8), (0, 12)];
    assert!(compute_metapatterns(&origins, 2, 1, 0, 0, 3).is_none());
    // both components must lie in the window: the row stride 0 is below 1
    assert!(compute_metapatterns(&origins, 2, 1, 0, 1, 100).is_none());
    let (shapes, pieces) = compute_metapatterns(&origins, 2, 1, 0, 0, 4).unwrap();
    assert_eq!(shapes, vec![(1, ((4, 0, 4), 0, Some(0)))]);
    assert_eq!(pieces, vec![((0, 0), 1)]);
    let diagonal = vec![(0, 0), (4, 4), (8, 8), (12, 12)];
    let (shapes, pieces) = compute_metapatterns(&diagonal, 2, 1, 0, 4, 4).unwrap();
    assert_eq!(shapes, vec![(1, ((4, 4, 4), 0, Some(0)))]);
    assert_eq!(pieces, vec![((0, 0), 1)]);
}

#[test]
fn a_target_of_one_changes_nothing() {
    let (gen, _) = four_rows_of_three();
    let mut aug = SpAugment::from_1d_origin_uwc_list(gen.get_orig_uwc_list(), 1, 15, 12);
    assert_eq!(aug.augment_dimensionality(1, 2, 0, 100), Ok(()));
    assert_eq!(aug.get_metapatterns().len(), 1);
    assert_eq!(aug.get_metapattern_pieces().len(), 4);
    assert_eq!((aug.nrows, aug.ncols, aug.nnz), (1, 15, 12));
    assert_eq!((aug.nrows(), aug.ncols(), aug.nnz()), (1, 15, 12));
}

#[test]
fn single_points_are_not_folded() {
    // four single points in a row, no pattern
    let coords = vec![(0usize, 0usize), (0, 2), (0, 4), (0, 6)];
    let mut m = SpSearchMatrix::from_coordinates(1, 7, &coords).unwrap();
    m.search_patterns(SpSearchPatternsFlags::pattern_first()).unwrap();
    let gen = SPFGen::from_piece_list(m.get_piece_list(), 1, 7, 4);
    let mut aug = SpAugment::from_1d_origin_uwc_list(gen.get_orig_uwc_list(), 1, 7, 4);
    aug.augment_dimensionality(2, 2, 0, 100).unwrap();
    let pieces: Vec<((usize, usize), i32)> =
        aug.get_metapattern_pieces().iter().map(|(k, v)| (*k, *v)).collect();
    assert_eq!(pieces, vec![((0, 0), -1), ((0, 2), -1), ((0, 4), -1), ((0, 6), -1)]);
}

#[test]
fn a_group_of_many_origins_is_folded() {
    // 40000 origins in one row, one column apart
    let origins: Vec<(i32, i32)> = (0..40000).map(|c| (0, c)).collect();
    let (shapes, pieces) = compute_metapatterns(&origins, 2, 3, 0, 0, 1).unwrap();
    assert_eq!(shapes, vec![(3, ((40000, 0, 1), 0, Some(0)))]);
    assert_eq!(pieces, vec![((0, 0), 3)]);
}

#[test]
fn a_used_up_stride_ends_the_sweep_of_the_stride_before_it() {
    // every stride occurs once; the shortest, (0, 2), is folded first and its
    // count falls to 0, which ends the sweep of the last stride, (0, 3), at the
    // first origin: the pair (3, 1), (3, 4) is not folded
    let origins = vec![(1, 3), (1, 5), (3, 1), (3, 4)];
    let (shapes, pieces) = compute_metapatterns(&origins, 2, 0, 9, 0, 3).unwrap();
    assert_eq!(shapes, vec![(0, ((2, 0, 2), 0, Some(9)))]);
    assert_eq!(pieces, vec![((1, 3), 0)]);
}
