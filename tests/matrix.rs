use geoms::matrix::pairwise_matrix;

#[test]
fn matrix_mirrors_each_pair() {
    let rows: Vec<Vec<u32>> = vec![vec![1, 2, 3], vec![4, 5], vec![6], vec![]];
    let m = pairwise_matrix(&rows, 0);
    let expected = vec![
        vec![0, 1, 2, 3],
        vec![1, 0, 4, 5],
        vec![2, 4, 0, 6],
        vec![3, 5, 6, 0],
    ];
    assert_eq!(m, expected);
}

#[test]
fn matrix_of_distances_is_symmetric_with_zero_diagonal() {
    let pts = [(0.0f64, 0.0f64), (3.0, 4.0), (6.0, 8.0)];
    let rows: Vec<Vec<f64>> = (0..pts.len())
        .map(|i| {
            ((i + 1)..pts.len())
                .map(|j| ((pts[i].0 - pts[j].0).powi(2) + (pts[i].1 - pts[j].1).powi(2)).sqrt())
                .collect()
        })
        .collect();
    let m = pairwise_matrix(&rows, 0.0);
    for i in 0..3 {
        assert_eq!(m[i][i], 0.0);
        for j in 0..3 {
            assert_eq!(m[i][j], m[j][i]);
        }
    }
    assert_eq!(m[0][1], 5.0);
    assert_eq!(m[0][2], 10.0);
    assert_eq!(m[2][1], 5.0);
}

#[test]
fn matrix_of_no_items_is_empty() {
    let rows: Vec<Vec<u8>> = Vec::new();
    assert!(pairwise_matrix(&rows, 0).is_empty());
}

#[test]
fn matrix_of_one_item_is_its_diagonal() {
    let rows: Vec<Vec<u8>> = vec![vec![]];
    assert_eq!(pairwise_matrix(&rows, 9), vec![vec![9]]);
}
