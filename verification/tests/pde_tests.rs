use reactor::pde::{Grid1D, Grid2D};

#[test]
fn grid1d_segments_and_offsets() {
    let g = Grid1D::new(vec![2, 3, 0, 1]);
    assert_eq!(g.n(), 6);
    let segs: Vec<usize> = (0..6).map(|i| g.segment(i)).collect();
    assert_eq!(segs, vec![0, 0, 1, 1, 1, 3]);
    assert_eq!(g.offset(0), 0);
    assert_eq!(g.offset(1), 2);
    assert_eq!(g.offset(2), 5);
    assert_eq!(g.offset(3), 5);
    assert_eq!(g.offset(4), 6);
    assert_eq!(g.counts(), &vec![2, 3, 0, 1]);
}

#[test]
fn grid1d_empty() {
    let g = Grid1D::new(vec![]);
    assert_eq!(g.n(), 0);
    assert_eq!(g.offset(0), 0);
}

#[test]
fn grid2d_idx_and_to_coarse() {
    let g = Grid2D::new(vec![10, 5], vec![10]);
    assert_eq!(g.r_axis().n(), 15);
    assert_eq!(g.z_axis().n(), 10);
    assert_eq!(g.idx(0, 0), 0);
    assert_eq!(g.idx(1, 2), 12);
    assert_eq!(g.idx(14, 9), 149);
    assert_eq!(g.to_coarse(9, 3), (0, 0));
    assert_eq!(g.to_coarse(10, 9), (1, 0));
    assert_eq!(g.grid_n(), (vec![10, 5], vec![10]));
    assert_eq!(g.idx_inv(37), (2, 7));
}

#[test]
fn grid2d_idx_is_injective() {
    let g = Grid2D::new(vec![2, 1], vec![1, 3]);
    let mut seen = vec![false; 12];
    for i in 0..3 {
        for j in 0..4 {
            let k = g.idx(i, j);
            assert!(k < 12);
            assert!(!seen[k]);
            seen[k] = true;
        }
    }
}

#[test]
fn grid2d_idx_inv_undoes_idx_on_square_mesh() {
    let g = Grid2D::new(vec![2, 2], vec![3, 1]);
    for i in 0..4 {
        for j in 0..4 {
            assert_eq!(g.idx_inv(g.idx(i, j)), (i, j));
        }
    }
}

#[test]
fn grid2d_idx_inv_differs_when_axes_differ() {
    let g = Grid2D::new(vec![2], vec![3]);
    assert_eq!(g.idx(0, 2), 2);
    assert_eq!(g.idx_inv(2), (1, 0));
}

#[test]
fn clone_keeps_layout() {
    let g = Grid2D::new(vec![3, 2], vec![4]);
    let h = g.clone();
    assert_eq!(h.grid_n(), (vec![3, 2], vec![4]));
    assert_eq!(h.idx(4, 3), g.idx(4, 3));
    assert_eq!(h.to_coarse(4, 3), (1, 0));
}
