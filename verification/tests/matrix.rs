use tsp_rust::matrix::EdgeDataMatrix;
use tsp_rust::matrix_sym::get_lower_triangle_matrix_entry;
use tsp_rust::matrix_sym::get_lower_triangle_matrix_entry_column_bigger;
use tsp_rust::matrix_sym::get_lower_triangle_matrix_entry_row_bigger;
use tsp_rust::matrix_sym::EdgeDataMatrixSym;
use tsp_rust::node::Node;

#[test]
fn lower_triangle_cells_are_numbered_row_by_row() {
    assert_eq!(get_lower_triangle_matrix_entry_row_bigger(0, 0), 0);
    assert_eq!(get_lower_triangle_matrix_entry_row_bigger(1, 0), 1);
    assert_eq!(get_lower_triangle_matrix_entry_row_bigger(1, 1), 2);
    assert_eq!(get_lower_triangle_matrix_entry_row_bigger(4, 2), 12);
    assert_eq!(get_lower_triangle_matrix_entry_column_bigger(2, 4), 12);
    assert_eq!(get_lower_triangle_matrix_entry(2, 4), 12);
    assert_eq!(get_lower_triangle_matrix_entry(4, 2), 12);
    assert_eq!(get_lower_triangle_matrix_entry(3, 3), 9);
}

#[test]
fn symmetric_matrix_reads_the_same_in_both_directions() {
    let matrix = EdgeDataMatrixSym::new_from_distance_function(6, |from, to| 10 * from.0 + to.0);
    for row in 0..6 {
        for column in 0..6 {
            assert_eq!(
                matrix.get_data(Node(row), Node(column)),
                matrix.get_data(Node(column), Node(row))
            );
        }
    }
    assert_eq!(matrix.get_data(Node(2), Node(4)), 42);
    assert_eq!(matrix.get_data_from_bigger(Node(4), Node(2)), 42);
    assert_eq!(matrix.get_data_to_bigger(Node(2), Node(4)), 42);
    assert_eq!(matrix.data().len(), 21);
}

#[test]
fn symmetric_matrix_writes_one_cell_for_both_directions() {
    let mut matrix = EdgeDataMatrixSym::new_from_dimension_with_value(4, 0);
    matrix.set_data(Node(1), Node(3), 7);
    assert_eq!(matrix.get_data(Node(3), Node(1)), 7);
    assert_eq!(matrix.get_data(Node(1), Node(3)), 7);
    matrix.set_data_from_bigger(Node(2), Node(0), 5);
    matrix.set_data_to_bigger(Node(0), Node(3), 6);
    assert_eq!(matrix.data, vec![0, 0, 0, 5, 0, 0, 6, 7, 0, 0]);
}

#[test]
fn restricted_view_reads_the_first_nodes() {
    let matrix = EdgeDataMatrixSym::new_from_distance_function(5, |from, to| 10 * from.0 + to.0);
    let view = matrix.restrict_to_first_n(3);
    assert_eq!(view.dimension, 3);
    assert_eq!(view.data, &[0, 10, 11, 20, 21, 22]);
    assert_eq!(view.get_data(Node(1), Node(2)), 21);
    assert_eq!(view.get_data_from_bigger(Node(2), Node(0)), 20);
    assert_eq!(view.get_data_to_bigger(Node(0), Node(2)), 20);
}

#[test]
fn symmetric_matrix_converts_to_a_full_matrix_with_the_same_cells() {
    let matrix = EdgeDataMatrixSym::new_from_distance_function(4, |from, to| 10 * from.0 + to.0);
    let full = matrix.to_edge_data_matrix();
    assert_eq!(full.dimension(), 4);
    for row in 0..4 {
        for column in 0..4 {
            assert_eq!(
                full.get_data(Node(row), Node(column)),
                matrix.get_data(Node(row), Node(column))
            );
        }
    }
    assert_eq!(
        full.data(),
        &[0, 10, 20, 30, 10, 11, 21, 31, 20, 21, 22, 32, 30, 31, 32, 33]
    );
}

#[test]
fn full_matrix_is_row_major() {
    let matrix = EdgeDataMatrix::slow_new_from_distance_function(3, |from, to| 10 * from.0 + to.0);
    assert_eq!(matrix.data, vec![0, 1, 2, 10, 11, 12, 20, 21, 22]);
    assert_eq!(matrix.get_data(Node(1), Node(2)), 12);
    assert_eq!(matrix.get_data_to_seq(Node(1), Node(2)), 12);
    assert_eq!(matrix.get_data_from_seq(Node(1), Node(2)), 21);
    assert_eq!(matrix.get_adjacency_list(Node(2)), &[20, 21, 22]);
    assert_eq!(matrix.get_index(Node(2), Node(1)), 7);
}

#[test]
fn set_data_writes_one_cell_and_set_data_symmetric_two() {
    let mut matrix = EdgeDataMatrix::new_from_dimension_with_value(3, 0);
    matrix.set_data(Node(0), Node(2), 5);
    assert_eq!(matrix.data, vec![0, 0, 5, 0, 0, 0, 0, 0, 0]);
    matrix.set_data_symmetric(Node(2), Node(1), 9);
    assert_eq!(matrix.get_data(Node(2), Node(1)), 9);
    assert_eq!(matrix.get_data(Node(1), Node(2)), 9);
    assert_eq!(matrix.data, vec![0, 0, 5, 0, 0, 9, 0, 9, 0]);
}

#[test]
fn first_row_and_rest_are_the_whole_matrix() {
    let matrix = EdgeDataMatrix::slow_new_from_distance_function(4, |from, to| 10 * from.0 + to.0);
    let (row, rest) = matrix.split_first_row();
    assert_eq!(row, &[0, 1, 2, 3]);
    assert_eq!(rest.dimension_total(), 4);
    assert_eq!(rest.dimension_adjusted(), 3);
    assert_eq!(rest.get_adjacency_list(Node(1)), &[10, 11, 12, 13]);
    assert_eq!(rest.get_adjacency_list(Node(3)), &[30, 31, 32, 33]);
    let mut joined = row.to_vec();
    joined.extend_from_slice(rest.data);
    assert_eq!(joined, matrix.data);
}
