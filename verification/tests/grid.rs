use sudoku::utils::Matrix;

#[test]
fn matrix_get_mut_then_get() {
    let mut m: Matrix<u8, 9> = Matrix::new();
    assert_eq!(*m.get(4, 4), 0);
    *m.get_mut(4, 4) = 7;
    assert_eq!(*m.get(4, 4), 7);
    assert_eq!(*m.get(4, 5), 0);
}

#[test]
fn matrix_row_and_column() {
    let mut m: Matrix<usize, 9> = Matrix::new();
    for r in 0..9 {
        for c in 0..9 {
            *m.get_mut(r, c) = r * 10 + c;
        }
    }
    let row: Vec<usize> = m.row_neighbors_iter(3).into_iter().cloned().collect();
    assert_eq!(row, vec![30, 31, 32, 33, 34, 35, 36, 37, 38]);
    let clm: Vec<usize> = m.clm_neighbors_iter(5).into_iter().cloned().collect();
    assert_eq!(clm, vec![5, 15, 25, 35, 45, 55, 65, 75, 85]);
}

#[test]
fn matrix_box_of_nine() {
    let mut m: Matrix<usize, 9> = Matrix::new();
    for r in 0..9 {
        for c in 0..9 {
            *m.get_mut(r, c) = r * 10 + c;
        }
    }
    let cells = m.box_neighbors_iter(4, 7);
    let positions: Vec<(usize, usize)> = cells.iter().map(|(p, _)| *p).collect();
    assert_eq!(
        positions,
        vec![(3, 6), (3, 7), (3, 8), (4, 6), (4, 7), (4, 8), (5, 6), (5, 7), (5, 8)]
    );
    let values: Vec<usize> = cells.iter().map(|(_, v)| **v).collect();
    assert_eq!(values, vec![36, 37, 38, 46, 47, 48, 56, 57, 58]);
}

#[test]
fn matrix_box_of_six() {
    let m: Matrix<u8, 6> = Matrix::new();
    let positions: Vec<(usize, usize)> = m.box_neighbors_iter(5, 2).iter().map(|(p, _)| *p).collect();
    assert_eq!(positions, vec![(4, 2), (4, 3), (5, 2), (5, 3)]);
}

#[test]
fn matrix_box_of_four_is_one_cell() {
    let m: Matrix<u8, 4> = Matrix::new();
    let positions: Vec<(usize, usize)> = m.box_neighbors_iter(3, 2).iter().map(|(p, _)| *p).collect();
    assert_eq!(positions, vec![(3, 2)]);
}
