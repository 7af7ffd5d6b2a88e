use hubbard::array_utils::{
    build_tri_up_array, get_matrix_dimension, pack_tri_up_array, ArrayError,
};

#[test]
fn check_matrix_dimension() {
    let unwraped_array_length: usize = 45;
    let matrix_size: usize = 9;
    assert_eq!(Ok(matrix_size), get_matrix_dimension(unwraped_array_length));
}

#[test]
fn dimension_of_every_small_triangular_length() {
    for n in 0..200usize {
        assert_eq!(Ok(n), get_matrix_dimension(n * (n + 1) / 2));
    }
}

#[test]
fn other_lengths_are_refused() {
    assert_eq!(Err(ArrayError::NotTriangular), get_matrix_dimension(2));
    assert_eq!(Err(ArrayError::NotTriangular), get_matrix_dimension(4));
    assert_eq!(Err(ArrayError::NotTriangular), get_matrix_dimension(44));
    assert_eq!(Err(ArrayError::NotTriangular), get_matrix_dimension(46));
    assert_eq!(Err(ArrayError::NotTriangular), get_matrix_dimension(usize::MAX));
    assert_eq!(Ok(0), get_matrix_dimension(0));
    assert_eq!(Ok(1), get_matrix_dimension(1));
}

#[test]
fn check_tri_up_array() {
    let elements: Vec<i64> = vec![1, 2, 3, 4, 5, 6, 7, 8, 9, 10];
    let array: Vec<Vec<f32>> = vec![
        vec![1., 2., 4., 7.],
        vec![0., 3., 5., 8.],
        vec![0., 0., 6., 9.],
        vec![0., 0., 0., 10.],
    ];
    let built: Vec<Vec<f32>> = build_tri_up_array(&elements)
        .unwrap()
        .to_rows()
        .iter()
        .map(|row| row.iter().map(|x| *x as f32).collect())
        .collect();
    assert_eq!(array, built)
}

#[test]
fn expanding_refuses_a_length_that_is_not_triangular() {
    let elements: Vec<i64> = vec![1, 2, 3, 4];
    assert!(matches!(build_tri_up_array(&elements), Err(ArrayError::NotTriangular)));
}

#[test]
fn expanding_nothing_gives_the_empty_matrix() {
    let elements: Vec<i64> = Vec::new();
    let rows = build_tri_up_array(&elements).unwrap().to_rows();
    assert!(rows.is_empty());
}

#[test]
fn packing_undoes_expanding() {
    let elements: Vec<i64> = vec![2, 1, 0, 1, 1, 5, -3, 0, 7, 4, 9, 8, 6, 0, -1];
    let dense = build_tri_up_array(&elements).unwrap();
    assert_eq!(5, dense.to_rows().len());
    assert_eq!(elements, pack_tri_up_array(&dense));
}

#[test]
fn expanding_keeps_the_upper_triangle() {
    let elements: Vec<i64> = vec![11, 12, 22, 13, 23, 33];
    let rows = build_tri_up_array(&elements).unwrap().to_rows();
    assert_eq!(vec![vec![11, 12, 13], vec![0, 22, 23], vec![0, 0, 33]], rows);
    for j in 0..3usize {
        for i in 0..=j {
            assert_eq!(elements[i + j * (j + 1) / 2], rows[i][j]);
        }
    }
}
