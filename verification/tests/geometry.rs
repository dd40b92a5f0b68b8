use linked_hash_map::LinkedHashMap;
use z_polyhedrator::utils::{
    convex_hull_1d, convex_hull_hyperrectangle_nd, flatten, metapattern_to_hyperrectangle_uwc,
    orig_uwc_to_piece_1d, pattern_to_uwc,
};

#[test]
fn flatten_joins_the_rows_in_order() {
    assert_eq!(flatten(vec![vec![1, 2], vec![], vec![3]]), vec![1, 2, 3]);
    assert_eq!(flatten::<i32>(vec![]), Vec::<i32>::new());
}

#[test]
fn pattern_as_shape_record() {
    let (u, w, c) = pattern_to_uwc(&(4, 1, -1));
    assert_eq!(u, vec![vec![-1], vec![1]]);
    assert_eq!(w, vec![3, 0]);
    assert_eq!(c, vec![1, -1]);
}

#[test]
fn shape_record_back_to_piece() {
    let record = (2usize, 5usize, pattern_to_uwc(&(4, 1, -1)));
    assert_eq!(orig_uwc_to_piece_1d(&record), (2, 5, (4, 1, -1)));
}

#[test]
fn hull_of_one_axis() {
    let u = vec![vec![-1], vec![1]];
    let w = vec![3, 0];
    let want = vec![vec![0], vec![1], vec![2], vec![3]];
    assert_eq!(convex_hull_1d(&u, &w, true), want);
    assert_eq!(convex_hull_hyperrectangle_nd(&u, &w, true), want);
    assert_eq!(convex_hull_hyperrectangle_nd(&u, &w, false), want);
}

#[test]
fn dense_hull_is_the_whole_box() {
    let u = vec![vec![-1, 0], vec![0, -1], vec![1, 0], vec![0, 1]];
    let w = vec![1, 2, 0, 0];
    assert_eq!(
        convex_hull_hyperrectangle_nd(&u, &w, true),
        vec![vec![0, 0], vec![0, 1], vec![0, 2], vec![1, 0], vec![1, 1], vec![1, 2]]
    );
}

#[test]
fn sparse_hull_keeps_the_ends_of_the_last_axis() {
    let u = vec![vec![-1, 0], vec![0, -1], vec![1, 0], vec![0, 1]];
    let w = vec![1, 2, 0, 0];
    assert_eq!(
        convex_hull_hyperrectangle_nd(&u, &w, false),
        vec![vec![0, 0], vec![0, 2], vec![1, 0], vec![1, 2]]
    );
}

#[test]
fn hull_of_three_axes_varies_the_first_axis_slowest() {
    let u = vec![
        vec![-1, 0, 0],
        vec![0, -1, 0],
        vec![0, 0, -1],
        vec![1, 0, 0],
        vec![0, 1, 0],
        vec![0, 0, 1],
    ];
    let w = vec![1, 1, 1, 0, 0, 0];
    let hull = convex_hull_hyperrectangle_nd(&u, &w, true);
    assert_eq!(hull.len(), 8);
    assert_eq!(hull[0], vec![0, 0, 0]);
    assert_eq!(hull[1], vec![0, 0, 1]);
    assert_eq!(hull[2], vec![0, 1, 0]);
    assert_eq!(hull[4], vec![1, 0, 0]);
    assert_eq!(hull[7], vec![1, 1, 1]);
}

#[test]
fn nested_shape_as_hyperrectangle() {
    let mut shapes: LinkedHashMap<i32, ((i32, i32, i32), i32, Option<i32>)> = LinkedHashMap::new();
    shapes.insert(0, ((3, 0, 1), 1, None));
    shapes.insert(1, ((4, 0, 4), 2, Some(0)));
    let (u, w, c) = metapattern_to_hyperrectangle_uwc(1, &shapes);
    assert_eq!(u, vec![vec![-1, 0], vec![0, -1], vec![1, 0], vec![0, 1]]);
    assert_eq!(w, vec![3, 2, 0, 0]);
    assert_eq!(c, vec![0, 4, 0, 1]);
    let (u, w, c) = metapattern_to_hyperrectangle_uwc(0, &shapes);
    assert_eq!(u, vec![vec![-1], vec![1]]);
    assert_eq!(w, vec![2, 0]);
    assert_eq!(c, vec![0, 1]);
}
