use linked_hash_map::LinkedHashMap;
use z_polyhedrator::errors::ErrorKind;
use z_polyhedrator::grid::ValueGrid;
use z_polyhedrator::spfgen::{
    convert_spf, convert_spf_for_timing, recursive_populate_row_col_vec, recursive_traverse,
    residual_format, SPFGen,
};
use z_polyhedrator::spsearch::{SpSearchMatrix, SpSearchPatternsFlags};

fn le32(v: i32) -> Vec<u8> {
    v.to_le_bytes().to_vec()
}

fn le16(v: i16) -> Vec<u8> {
    v.to_le_bytes().to_vec()
}

fn search(
    nrows: usize,
    ncols: usize,
    coords: &Vec<(usize, usize)>,
    patterns: Vec<(i32, i32, i32)>,
) -> SPFGen {
    let mut m = SpSearchMatrix::from_coordinates(nrows, ncols, coords).unwrap();
    m.set_patterns(patterns).unwrap();
    m.search_patterns(SpSearchPatternsFlags::pattern_first()).unwrap();
    SPFGen::from_piece_list(m.get_piece_list(), nrows, ncols, coords.len())
}

fn grid(nrows: usize, ncols: usize, triplets: &Vec<(usize, usize, f64)>) -> ValueGrid {
    let bits: Vec<(usize, usize, u64)> =
        triplets.iter().map(|t| (t.0, t.1, t.2.to_bits())).collect();
    ValueGrid::from_triplets(nrows, ncols, &bits).unwrap()
}

#[test]
fn diagonal_file_bytes() {
    let coords = vec![(0usize, 0usize), (1, 1), (2, 2), (3, 3)];
    let gen = search(4, 4, &coords, vec![(4, 1, 1)]);
    assert_eq!(gen.inc_nnz, 4);
    let values = grid(
        4,
        4,
        &vec![(0, 0, 1.0), (1, 1, 2.0), (2, 2, 3.0), (3, 3, 4.0)],
    );
    let bytes = gen.write_spf(&values, false).unwrap();
    let mut want: Vec<u8> = Vec::new();
    want.extend(le32(4)); // nnz
    want.extend(le32(4)); // inc_nnz
    want.extend(le32(4)); // nrows
    want.extend(le32(4)); // ncols
    want.extend(le16(2)); // dims
    want.extend(le32(1)); // shapes
    want.extend(le32(0)); // hierarchical shapes
    want.extend(le32(32 + 4 + 26 + 4 + 14 + 1)); // data pointer
    want.extend(le16(1)); // greatest order
    want.extend(le32(0)); // reserved
    want.extend(le16(0)); // shape id
    want.extend(le16(0)); // encoding
    want.extend(le16(1)); // order
    want.extend(le32(0)); // corner
    want.extend(le32(3)); // length
    want.extend(le32(1)); // stride
    want.extend(le32(1)); // lattice I
    want.extend(le32(1)); // lattice J
    want.extend(le32(1)); // origins
    want.extend(le16(0));
    want.extend(le32(0));
    want.extend(le32(0));
    want.extend(le32(0));
    want.push(2); // no single point: coordinates
    for v in [1.0f64, 2.0, 3.0, 4.0] {
        want.extend(v.to_le_bytes());
    }
    assert_eq!(bytes, want);
}

#[test]
fn diagonal_round_trip() {
    let coords = vec![(0usize, 0usize), (1, 1), (2, 2), (3, 3)];
    let gen = search(4, 4, &coords, vec![(4, 1, 1)]);
    let values = grid(
        4,
        4,
        &vec![(0, 0, 1.0), (1, 1, 2.0), (2, 2, 3.0), (3, 3, 4.0)],
    );
    let bytes = gen.write_spf(&values, false).unwrap();
    let m = convert_spf(&bytes).unwrap();
    assert_eq!((m.nrows, m.ncols), (4, 4));
    assert_eq!(m.rows, vec![0, 1, 2, 3]);
    assert_eq!(m.cols, vec![0, 1, 2, 3]);
    let vals: Vec<f64> = m.values.iter().map(|b| f64::from_bits(*b)).collect();
    assert_eq!(vals, vec![1.0, 2.0, 3.0, 4.0]);
}

#[test]
fn mixed_residual_uses_coordinates() {
    let coords = vec![(0usize, 0usize), (0, 1), (0, 2), (3, 3)];
    let gen = search(4, 4, &coords, vec![(3, 0, 1)]);
    assert_eq!(gen.inc_nnz, 3);
    let values = grid(
        4,
        4,
        &vec![(0, 0, 1.5), (0, 1, 2.5), (0, 2, 3.5), (3, 3, 4.5)],
    );
    let bytes = gen.write_spf(&values, false).unwrap();
    // header 32 + reserved 4 + shape 26 + count 4 + origin 14
    assert_eq!(bytes[32 + 4 + 26 + 4 + 14], 2);
    let m = convert_spf(&bytes).unwrap();
    assert_eq!(m.rows, vec![0, 0, 0, 3]);
    assert_eq!(m.cols, vec![0, 1, 2, 3]);
    let vals: Vec<f64> = m.values.iter().map(|b| f64::from_bits(*b)).collect();
    assert_eq!(vals, vec![1.5, 2.5, 3.5, 4.5]);
}

#[test]
fn transposed_output_swaps_coordinates() {
    let coords = vec![(0usize, 0usize), (0, 1), (0, 2), (3, 3)];
    let gen = search(4, 5, &coords, vec![(3, 0, 1)]);
    let values = grid(
        4,
        5,
        &vec![(0, 0, 1.5), (0, 1, 2.5), (0, 2, 3.5), (3, 3, 4.5)],
    );
    let bytes = gen.write_spf(&values, true).unwrap();
    let m = convert_spf(&bytes).unwrap();
    assert_eq!((m.nrows, m.ncols), (5, 4));
    assert_eq!(m.rows, vec![0, 1, 2, 3]);
    assert_eq!(m.cols, vec![0, 0, 0, 3]);
}

#[test]
fn many_single_points_use_compressed_rows() {
    // no pattern fits: 5 single points in 2 rows, 2 + 1 + 5 <= 10
    let coords = vec![(0usize, 0usize), (0, 2), (0, 4), (1, 1), (1, 3)];
    let gen = search(2, 5, &coords, vec![(2, 1, 0)]);
    assert_eq!(gen.inc_nnz, 0);
    let values = grid(
        2,
        5,
        &vec![(0, 0, 1.0), (0, 2, 2.0), (0, 4, 3.0), (1, 1, 4.0), (1, 3, 5.0)],
    );
    let bytes = gen.write_spf(&values, false).unwrap();
    // header 32, no reserved word, no shape, count 4
    assert_eq!(bytes[32 + 4], 0);
    let m = convert_spf(&bytes).unwrap();
    assert_eq!(m.rows, vec![0, 0, 0, 1, 1]);
    assert_eq!(m.cols, vec![0, 2, 4, 1, 3]);
    let vals: Vec<f64> = m.values.iter().map(|b| f64::from_bits(*b)).collect();
    assert_eq!(vals, vec![1.0, 2.0, 3.0, 4.0, 5.0]);
}

#[test]
fn format_byte_follows_the_sizes() {
    assert_eq!(residual_format(4, 0), 2);
    assert_eq!(residual_format(4, 1), 2);
    assert_eq!(residual_format(4, 4), 2);
    assert_eq!(residual_format(4, 5), 0);
    assert_eq!(residual_format(0, 1), 0);
}

#[test]
fn value_count_must_agree() {
    let coords = vec![(0usize, 0usize), (1, 1)];
    let gen = search(2, 2, &coords, vec![(2, 1, 1)]);
    let values = grid(2, 2, &vec![(0, 0, 1.0)]);
    assert_eq!(gen.write_spf(&values, false), Err(ErrorKind::Consistency));
}

#[test]
fn reader_refuses_other_dimensions() {
    let coords = vec![(0usize, 0usize), (1, 1)];
    let gen = search(2, 2, &coords, vec![(2, 1, 1)]);
    let values = grid(2, 2, &vec![(0, 0, 1.0), (1, 1, 2.0)]);
    let mut bytes = gen.write_spf(&values, false).unwrap();
    bytes[16] = 3;
    assert!(matches!(convert_spf(&bytes), Err(ErrorKind::Unsupported)));
}

#[test]
fn reader_refuses_other_encodings_and_formats() {
    let coords = vec![(0usize, 0usize), (1, 1)];
    let gen = search(2, 2, &coords, vec![(2, 1, 1)]);
    let values = grid(2, 2, &vec![(0, 0, 1.0), (1, 1, 2.0)]);
    let bytes = gen.write_spf(&values, false).unwrap();
    let mut other_encoding = bytes.clone();
    other_encoding[32 + 4 + 2] = 1;
    assert!(matches!(convert_spf(&other_encoding), Err(ErrorKind::Unsupported)));
    let mut other_format = bytes.clone();
    other_format[32 + 4 + 26 + 4 + 14] = 1;
    assert!(matches!(convert_spf(&other_format), Err(ErrorKind::Unsupported)));
    let short = &bytes[..bytes.len() - 1];
    assert!(matches!(convert_spf(short), Err(ErrorKind::Io)));
}

#[test]
fn a_matrix_too_large_for_the_fields_is_refused() {
    let gen = SPFGen::from_piece_list(Vec::new(), 1usize << 40, 4, 0);
    let empty = ValueGrid::from_triplets(1, 1, &Vec::new()).unwrap();
    assert_eq!(gen.write_spf(&empty, false), Err(ErrorKind::Unsupported));
}

#[test]
fn values_must_stand_where_the_pieces_are() {
    let coords = vec![(0usize, 0usize), (0, 1), (0, 2), (3, 3)];
    let gen = search(4, 4, &coords, vec![(3, 0, 1)]);
    let elsewhere = grid(4, 4, &vec![(0, 0, 1.0), (0, 1, 2.0), (1, 2, 3.0), (3, 3, 4.0)]);
    assert_eq!(gen.write_spf(&elsewhere, false), Err(ErrorKind::Consistency));
}

#[test]
fn the_value_grid_stores_by_rows() {
    let g = ValueGrid::from_triplets(3, 3, &vec![(2, 1, 7), (0, 2, 8), (0, 0, 9)]).unwrap();
    assert_eq!(g.nnz(), 3);
    assert_eq!(g.get(0, 0), Some(9));
    assert_eq!(g.get(0, 2), Some(8));
    assert_eq!(g.get(2, 1), Some(7));
    assert_eq!(g.get(1, 1), None);
    assert_eq!(g.get(5, 0), None);
}

#[test]
fn values_follow_the_pieces_not_the_rows() {
    // two columns of two: the values of the first column come first
    let coords = vec![(0usize, 0usize), (0, 1), (1, 0), (1, 1)];
    let gen = search(2, 2, &coords, vec![(2, 1, 0)]);
    let bytes = gen
        .write_spf(
            &grid(2, 2, &vec![(0, 0, 1.0), (0, 1, 2.0), (1, 0, 3.0), (1, 1, 4.0)]),
            false,
        )
        .unwrap();
    let tail: Vec<f64> = bytes[bytes.len() - 32..]
        .chunks(8)
        .map(|c| f64::from_le_bytes([c[0], c[1], c[2], c[3], c[4], c[5], c[6], c[7]]))
        .collect();
    assert_eq!(tail, vec![1.0, 3.0, 2.0, 4.0]);
    let m = convert_spf(&bytes).unwrap();
    assert_eq!(m.rows, vec![0, 1, 0, 1]);
    assert_eq!(m.cols, vec![0, 0, 1, 1]);
    let vals: Vec<f64> = m.values.iter().map(|b| f64::from_bits(*b)).collect();
    assert_eq!(vals, vec![1.0, 3.0, 2.0, 4.0]);
}

#[test]
fn the_timing_reader_reads_the_same_matrix() {
    let coords = vec![(0usize, 0usize), (0, 1), (0, 2), (3, 3)];
    let gen = search(4, 4, &coords, vec![(3, 0, 1)]);
    let bytes = gen
        .write_spf(
            &grid(4, 4, &vec![(0, 0, 1.5), (0, 1, 2.5), (0, 2, 3.5), (3, 3, 4.5)]),
            false,
        )
        .unwrap();
    let a = convert_spf(&bytes).unwrap();
    let b = convert_spf_for_timing(&bytes).unwrap();
    assert_eq!((a.nrows, a.ncols), (b.nrows, b.ncols));
    assert_eq!(a.rows, b.rows);
    assert_eq!(a.cols, b.cols);
    assert_eq!(a.values, b.values);
    assert_eq!(a.rows, vec![0, 0, 0, 3]);
    assert_eq!(a.cols, vec![0, 1, 2, 3]);
}

#[test]
fn a_truncated_file_is_refused() {
    let coords = vec![(0usize, 0usize), (1, 1), (2, 2), (3, 3)];
    let gen = search(4, 4, &coords, vec![(4, 1, 1)]);
    let bytes = gen
        .write_spf(
            &grid(4, 4, &vec![(0, 0, 1.0), (1, 1, 2.0), (2, 2, 3.0), (3, 3, 4.0)]),
            false,
        )
        .unwrap();
    for cut in [0usize, 10, 25, 40, bytes.len() - 1] {
        assert!(convert_spf(&bytes[..cut]).is_err());
    }
    assert!(convert_spf(&bytes).is_ok());
}

#[test]
fn nested_cells_are_appended_outermost_axis_slowest() {
    let mut rows = vec![9usize];
    let mut cols = vec![9usize];
    // two repetitions stepped by (1, 0) of three cells stepped by (0, 2)
    let ok = recursive_populate_row_col_vec(2, &[1, 2], &[1, 0, 0, 2], &mut rows, &mut cols, 4, 1);
    assert!(ok);
    assert_eq!(rows, vec![9, 4, 4, 4, 5, 5, 5]);
    assert_eq!(cols, vec![9, 1, 3, 5, 1, 3, 5]);
    let mut rows = vec![];
    let mut cols = vec![];
    assert!(recursive_populate_row_col_vec(1, &[3], &[1, -1], &mut rows, &mut cols, 0, 3));
    assert_eq!(rows, vec![0, 1, 2, 3]);
    assert_eq!(cols, vec![3, 2, 1, 0]);
}

#[test]
fn cells_before_the_first_row_are_no_cells() {
    let mut rows = vec![];
    let mut cols = vec![];
    assert!(!recursive_populate_row_col_vec(1, &[1], &[-1, 0], &mut rows, &mut cols, 0, 0));
}

#[test]
fn values_of_a_nested_piece() {
    let mut shapes: LinkedHashMap<i32, ((i32, i32, i32), i32, Option<i32>)> = LinkedHashMap::new();
    shapes.insert(0, ((2, 0, 1), 1, None));
    shapes.insert(1, ((2, 1, 0), 2, Some(0)));
    let g = ValueGrid::from_triplets(3, 3, &vec![(1, 1, 11), (1, 2, 12), (2, 1, 21), (2, 2, 22)])
        .unwrap();
    assert_eq!(recursive_traverse(&(1, 1), 1, &shapes, &g), Some(vec![11, 12, 21, 22]));
    assert_eq!(recursive_traverse(&(1, 1), 0, &shapes, &g), Some(vec![11, 12]));
    assert_eq!(recursive_traverse(&(0, 1), 1, &shapes, &g), None);
}

#[test]
fn shape_records_of_an_inventory() {
    let coords = vec![(0usize, 0usize), (0, 1), (0, 2), (3, 3)];
    let gen = search(4, 4, &coords, vec![(3, 0, 1)]);
    assert_eq!((gen.nrows, gen.ncols, gen.nnz, gen.inc_nnz), (4, 4, 4, 3));
    assert_eq!(
        gen.get_uwc_list(),
        vec![
            ((vec![vec![-1], vec![1]], vec![2, 0], vec![0, 1]), 0),
            ((vec![vec![-1], vec![1]], vec![0, 0], vec![0, 0]), -1)
        ]
    );
    assert_eq!(
        gen.get_orig_uwc_list(),
        vec![
            ((0, 0, (vec![vec![-1], vec![1]], vec![2, 0], vec![0, 1])), 0),
            ((3, 3, (vec![vec![-1], vec![1]], vec![0, 0], vec![0, 0])), -1)
        ]
    );
}

#[test]
fn the_shapes_on_record_each_once() {
    let coords = vec![(0usize, 0usize), (0, 1), (0, 2), (2, 0), (2, 1), (2, 2), (3, 3)];
    let gen = search(4, 4, &coords, vec![(3, 0, 1)]);
    assert_eq!(gen.get_uwc_list().len(), 3);
    assert_eq!(
        gen.get_distinct_uwc_list(),
        vec![
            ((vec![vec![-1], vec![1]], vec![2, 0], vec![0, 1]), 0),
            ((vec![vec![-1], vec![1]], vec![0, 0], vec![0, 0]), -1)
        ]
    );
    assert_eq!((gen.nrows(), gen.ncols(), gen.nnz(), gen.inc_nnz()), (4, 4, 7, 6));
}

#[test]
fn an_inventory_is_ready_when_it_is_consistent() {
    let coords = vec![(0usize, 0usize), (0, 1), (0, 2), (3, 3)];
    assert!(search(4, 4, &coords, vec![(3, 0, 1)]).ready());
    let mut shapes: LinkedHashMap<i32, ((i32, i32, i32), i32, Option<i32>)> = LinkedHashMap::new();
    shapes.insert(0, ((2, 0, 1), 1, None));
    shapes.insert(1, ((2, 1, 0), 2, Some(0)));
    let mut pieces: LinkedHashMap<(usize, usize), i32> = LinkedHashMap::new();
    pieces.insert((0, 0), 1);
    assert!(SPFGen::from_metapatterns_list(shapes.clone(), pieces.clone(), 2, 2, 4, 4).ready());
    // an origin outside the matrix
    assert!(!SPFGen::from_metapatterns_list(shapes.clone(), pieces.clone(), 2, 0, 4, 4).ready());
    // a piece of a shape that is not on record
    let mut unknown = pieces.clone();
    unknown.insert((1, 1), 7);
    assert!(!SPFGen::from_metapatterns_list(shapes.clone(), unknown, 2, 2, 4, 4).ready());
    // a shape whose order is not the depth of its chain
    let mut shallow = shapes.clone();
    shallow.insert(2, ((2, 1, 1), 3, Some(0)));
    assert!(!SPFGen::from_metapatterns_list(shallow, pieces.clone(), 2, 2, 4, 4).ready());
    // a shape without a cell
    let mut hollow = shapes.clone();
    hollow.insert(3, ((0, 1, 1), 1, None));
    assert!(!SPFGen::from_metapatterns_list(hollow, pieces, 2, 2, 4, 4).ready());
}

#[test]
fn the_greatest_order_is_that_of_the_shapes_in_use() {
    let mut shapes: LinkedHashMap<i32, ((i32, i32, i32), i32, Option<i32>)> = LinkedHashMap::new();
    shapes.insert(0, ((2, 0, 1), 1, None));
    shapes.insert(1, ((2, 1, 0), 2, Some(0)));
    let mut pieces: LinkedHashMap<(usize, usize), i32> = LinkedHashMap::new();
    pieces.insert((0, 0), 0);
    pieces.insert((1, 0), 0);
    // no piece has the shape of two axes
    let gen = SPFGen::from_metapatterns_list(shapes.clone(), pieces, 2, 2, 4, 4);
    let values = grid(2, 2, &vec![(0, 0, 1.0), (0, 1, 2.0), (1, 0, 3.0), (1, 1, 4.0)]);
    let bytes = gen.write_spf(&values, false).unwrap();
    assert_eq!(&bytes[30..32], &[1u8, 0]);
    assert_eq!(convert_spf(&bytes).unwrap().values.len(), 4);
    // one piece has it
    let mut pieces: LinkedHashMap<(usize, usize), i32> = LinkedHashMap::new();
    pieces.insert((0, 0), 1);
    let gen = SPFGen::from_metapatterns_list(shapes, pieces, 2, 2, 4, 4);
    let bytes = gen.write_spf(&values, false).unwrap();
    assert_eq!(&bytes[30..32], &[2u8, 0]);
    let m = convert_spf(&bytes).unwrap();
    assert_eq!(m.rows, vec![0, 0, 1, 1]);
    assert_eq!(m.cols, vec![0, 1, 0, 1]);
}
