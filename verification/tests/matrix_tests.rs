use reactor::matrix::SparseMatrix;

fn sample() -> SparseMatrix<f64> {
    let mut mat = SparseMatrix::new(4, 4);
    for i in 0..4 {
        mat.add_entry(i, i, 4.0);
    }
    for i in 1..4 {
        mat.add_entry(i, i - 1, 3.0);
    }
    for i in 2..4 {
        mat.add_entry(i, i - 2, 2.0);
    }
    mat
}

#[test]
fn new_and_add_entry() {
    let mut m: SparseMatrix<f64> = SparseMatrix::new(3, 2);
    assert_eq!((m.rows(), m.cols()), (3, 2));
    assert!(m.entries().is_empty());
    m.add_entry(2, 1, 0.5);
    m.add_entry(0, 0, -1.0);
    assert_eq!(m.entries(), &vec![(2, 1, 0.5), (0, 0, -1.0)]);
}

#[test]
fn sort_orders_by_row_then_column() {
    let mut m = sample();
    m.sort();
    let positions: Vec<(usize, usize)> = m.entries().iter().map(|e| (e.0, e.1)).collect();
    assert_eq!(
        positions,
        vec![(0, 0), (1, 0), (1, 1), (2, 0), (2, 1), (2, 2), (3, 1), (3, 2), (3, 3)]
    );
    assert_eq!(m.entries().len(), 9);
}

#[test]
fn sort_keeps_order_of_entries_at_one_position() {
    let mut m: SparseMatrix<f64> = SparseMatrix::new(2, 2);
    m.add_entry(1, 0, 1.0);
    m.add_entry(0, 1, 2.0);
    m.add_entry(1, 0, 3.0);
    m.add_entry(0, 1, 4.0);
    m.add_entry(0, 0, 5.0);
    m.sort();
    assert_eq!(
        m.entries(),
        &vec![(0, 0, 5.0), (0, 1, 2.0), (0, 1, 4.0), (1, 0, 1.0), (1, 0, 3.0)]
    );
    let before = m.entries().clone();
    m.sort();
    assert_eq!(m.entries(), &before);
}

#[test]
fn transpose_exchanges_rows_and_columns() {
    let mut m: SparseMatrix<f64> = SparseMatrix::new(2, 3);
    m.add_entry(0, 2, 1.5);
    m.add_entry(1, 0, 2.5);
    let t = m.transpose();
    assert_eq!((t.rows(), t.cols()), (3, 2));
    assert_eq!(t.entries(), &vec![(2, 0, 1.5), (0, 1, 2.5)]);
    let tt = t.transpose();
    assert_eq!((tt.rows(), tt.cols()), (2, 3));
    assert_eq!(tt.entries(), m.entries());
}

#[test]
fn row_and_col_compress() {
    let m = sample();
    let rows = m.row_compress();
    assert_eq!(rows.len(), 4);
    assert_eq!(rows[0], vec![(0, 4.0)]);
    assert_eq!(rows[2], vec![(2, 4.0), (1, 3.0), (0, 2.0)]);
    let cols = m.col_compress();
    assert_eq!(cols.len(), 4);
    assert_eq!(cols[0], vec![(0, 4.0), (1, 3.0), (2, 2.0)]);
    assert_eq!(cols[3], vec![(3, 4.0)]);
    assert_eq!(cols, m.transpose().row_compress());
}

#[test]
fn sort_agrees_with_stable_std_sort() {
    let mut m: SparseMatrix<f64> = SparseMatrix::new(7, 5);
    let mut expected = Vec::new();
    let mut seed: u64 = 12345;
    for k in 0..200 {
        seed = seed.wrapping_mul(6364136223846793005).wrapping_add(1442695040888963407);
        let row = ((seed >> 33) % 7) as usize;
        let col = ((seed >> 40) % 5) as usize;
        m.add_entry(row, col, k as f64);
        expected.push((row, col, k as f64));
    }
    expected.sort_by(|a, b| a.0.cmp(&b.0).then(a.1.cmp(&b.1)));
    m.sort();
    assert_eq!(m.entries(), &expected);
}

#[test]
fn sort_of_empty_and_single() {
    let mut m: SparseMatrix<f64> = SparseMatrix::new(1, 1);
    m.sort();
    assert!(m.entries().is_empty());
    m.add_entry(0, 0, 2.0);
    m.sort();
    assert_eq!(m.entries(), &vec![(0, 0, 2.0)]);
}
