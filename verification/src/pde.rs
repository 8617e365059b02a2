use vstd::prelude::*;

verus! {

/// The number of cells of a mesh axis whose segments hold `counts` cells each.
pub open spec fn total(counts: Seq<usize>) -> nat
    decreases counts.len(),
{
    if counts.len() == 0 {
        0
    } else {
        total(counts.drop_last()) + counts.last() as nat
    }
}

/// For each cell of the axis, in order, the segment that holds it: segment
/// `k` holds `counts[k]` consecutive cells.
pub open spec fn segment_index(counts: Seq<usize>) -> Seq<usize>
    decreases counts.len(),
{
    if counts.len() == 0 {
        Seq::empty()
    } else {
        segment_index(counts.drop_last()) + Seq::new(
            counts.last() as nat,
            |_c: int| (counts.len() - 1) as usize,
        )
    }
}

/// The position in a flattened 2-D vector of cell `(i, j)`, for an axis `j`
/// of `nz` cells.
pub open spec fn cell_index(nz: nat, i: int, j: int) -> int {
    i * nz + j
}

proof fn lemma_segment_index_len(counts: Seq<usize>)
    ensures
        segment_index(counts).len() == total(counts),
    decreases counts.len(),
{
    if counts.len() > 0 {
        lemma_segment_index_len(counts.drop_last());
    }
}

proof fn lemma_total_prefix(counts: Seq<usize>, k: int)
    requires
        0 <= k < counts.len(),
    ensures
        total(counts.take(k + 1)) == total(counts.take(k)) + counts[k],
        total(counts.take(k + 1)) <= total(counts),
    decreases counts.len(),
{
    assert(counts.take(k + 1).drop_last() =~= counts.take(k));
    if k + 1 < counts.len() {
        lemma_total_prefix(counts.drop_last(), k);
        assert(counts.drop_last().take(k + 1) =~= counts.take(k + 1));
        assert(counts.drop_last().take(k) =~= counts.take(k));
    } else {
        assert(counts.take(k + 1) =~= counts);
    }
}

/// A cell of an axis lies in the segment that `segment_index` names for it:
/// between the cells of the segments before it and those of the segments
/// after it.
pub proof fn lemma_segment_of_cell(counts: Seq<usize>, i: int)
    requires
        counts.len() <= usize::MAX,
        0 <= i < total(counts),
    ensures
        segment_index(counts).len() == total(counts),
        segment_index(counts)[i] < counts.len(),
        total(counts.take(segment_index(counts)[i] as int)) <= i,
        i < total(counts.take(segment_index(counts)[i] + 1)),
    decreases counts.len(),
{
    lemma_segment_index_len(counts);
    assert(counts.len() > 0);
    let t = counts.drop_last();
    let tail = Seq::new(counts.last() as nat, |_c: int| (counts.len() - 1) as usize);
    assert(segment_index(counts) == segment_index(t) + tail);
    let k = counts.len() - 1;
    lemma_segment_index_len(t);
    assert(counts.take(k) =~= t);
    assert(counts.take(k + 1) =~= counts);
    if i < total(t) {
        lemma_segment_of_cell(t, i);
        let s = segment_index(t)[i];
        assert(segment_index(counts)[i] == s);
        assert(t.take(s as int) =~= counts.take(s as int));
        assert(t.take(s + 1) =~= counts.take(s + 1));
        assert(total(counts.take(s as int)) <= i);
        assert(i < total(counts.take(s + 1)));
    } else {
        assert(segment_index(counts)[i] == tail[i - total(t)]);
        assert(segment_index(counts)[i] as int == k);
        assert(total(counts) == total(t) + counts.last());
        assert(total(counts.take(k)) <= i);
        assert(i < total(counts.take(k + 1)));
    }
}

/// One axis of a mesh, as cells: segment `k` of the axis is divided into
/// `grid[k]` cells, `n` cells in all, and `grid_idx[i]` is the segment of cell `i`.
#[derive(Debug)]
pub struct Grid1D {
    grid: Vec<usize>,
    n: usize,
    grid_idx: Vec<usize>,
}

impl View for Grid1D {
    type V = Seq<usize>;

    /// The number of cells of each segment.
    closed spec fn view(&self) -> Seq<usize> {
        self.grid@
    }
}

impl Clone for Grid1D {
    fn clone(&self) -> (res: Self)
        ensures
            res@ == self@,
    {
        proof {
            use_type_invariant(self);
        }
        let grid = self.grid.clone();
        let grid_idx = self.grid_idx.clone();
        assert(grid@ =~= self.grid@);
        assert(grid_idx@ =~= self.grid_idx@);
        Grid1D { grid, n: self.n, grid_idx }
    }
}

impl Grid1D {
    #[verifier::type_invariant]
    closed spec fn inv(&self) -> bool {
        &&& self.n == total(self.grid@)
        &&& self.grid_idx@ == segment_index(self.grid@)
    }

    /// The axis whose segment `k` is divided into `grid[k]` cells.
    pub fn new(grid: Vec<usize>) -> (res: Self)
        requires
            total(grid@) <= usize::MAX,
        ensures
            res@ == grid@,
    {
        let mut n: usize = 0;
        let mut grid_idx: Vec<usize> = Vec::new();
        let len = grid.len();
        proof {
            assert(grid@.take(0) =~= Seq::<usize>::empty());
            assert(grid_idx@ =~= segment_index(grid@.take(0)));
        }
        for k in 0..len
            invariant
                len == grid@.len(),
                total(grid@) <= usize::MAX,
                n == total(grid@.take(k as int)),
                grid_idx@ == segment_index(grid@.take(k as int)),
        {
            proof {
                lemma_total_prefix(grid@, k as int);
                assert(grid@.take(k + 1).drop_last() =~= grid@.take(k as int));
            }
            let count = grid[k];
            n = n + count;
            let ghost start = grid_idx@;
            for _c in 0..count
                invariant
                    grid_idx@.len() == start.len() + _c,
                    grid_idx@.subrange(0, start.len() as int) == start,
                    forall|m: int| start.len() <= m < grid_idx@.len() ==> grid_idx@[m] == k,
            {
                grid_idx.push(k);
                assert(grid_idx@.subrange(0, start.len() as int) =~= start);
            }
            assert(grid_idx@ =~= segment_index(grid@.take(k + 1)));
        }
        assert(grid@.take(len as int) =~= grid@);
        Grid1D { grid, n, grid_idx }
    }

    /// The number of cells.
    pub fn n(&self) -> (n: usize)
        ensures
            n == total(self@),
    {
        proof {
            use_type_invariant(self);
        }
        self.n
    }

    /// The segment that holds cell `i`.
    pub fn segment(&self, i: usize) -> (k: usize)
        requires
            i < total(self@),
        ensures
            k == segment_index(self@)[i as int],
    {
        proof {
            use_type_invariant(self);
            lemma_segment_index_len(self@);
        }
        self.grid_idx[i]
    }

    /// The number of cells before segment `k`: the index of its first cell.
    pub fn offset(&self, k: usize) -> (o: usize)
        requires
            k <= self@.len(),
        ensures
            o == total(self@.take(k as int)),
    {
        proof {
            use_type_invariant(self);
            assert(self.grid@.take(0) =~= Seq::<usize>::empty());
        }
        let mut o: usize = 0;
        for m in 0..k
            invariant
                k <= self.grid@.len(),
                total(self.grid@) <= usize::MAX,
                o == total(self.grid@.take(m as int)),
        {
            proof {
                lemma_total_prefix(self.grid@, m as int);
            }
            o = o + self.grid[m];
        }
        o
    }

    /// The number of cells of each segment.
    pub fn counts(&self) -> (c: &Vec<usize>)
        ensures
            c@ == self@,
    {
        &self.grid
    }
}

/// A 2-D mesh in `(r, z)`: the product of an `r` axis and a `z` axis. A cell
/// `(i, j)` stands at `i * nz + j` in a flattened vector, `nz` the number of
/// `z` cells.
#[derive(Debug)]
pub struct Grid2D {
    r: Grid1D,
    z: Grid1D,
}

impl View for Grid2D {
    type V = (Seq<usize>, Seq<usize>);

    /// The number of cells of each segment of the `r` axis and of the `z` axis.
    closed spec fn view(&self) -> (Seq<usize>, Seq<usize>) {
        (self.r@, self.z@)
    }
}

impl Clone for Grid2D {
    fn clone(&self) -> (res: Self)
        ensures
            res@ == self@,
    {
        Grid2D { r: self.r.clone(), z: self.z.clone() }
    }
}

impl Grid2D {
    /// The mesh whose `r` segments hold `grid_x[k]` cells each and whose `z`
    /// segments hold `grid_y[k]` cells each.
    pub fn new(grid_x: Vec<usize>, grid_y: Vec<usize>) -> (res: Self)
        requires
            total(grid_x@) <= usize::MAX,
            total(grid_y@) <= usize::MAX,
        ensures
            res@ == (grid_x@, grid_y@),
    {
        Grid2D { r: Grid1D::new(grid_x), z: Grid1D::new(grid_y) }
    }

    /// The `r` axis.
    pub fn r_axis(&self) -> (a: &Grid1D)
        ensures
            a@ == self@.0,
    {
        &self.r
    }

    /// The `z` axis.
    pub fn z_axis(&self) -> (a: &Grid1D)
        ensures
            a@ == self@.1,
    {
        &self.z
    }

    /// The position of cell `(i, j)` in a flattened vector.
    pub fn idx(&self, i: usize, j: usize) -> (k: usize)
        requires
            cell_index(total(self@.1), i as int, j as int) <= usize::MAX,
        ensures
            k == cell_index(total(self@.1), i as int, j as int),
            k as int == i as int * total(self@.1) as int + j as int,
    {
        let nz = self.z.n();
        proof {
            assert(0 <= i * nz) by (nonlinear_arith);
        }
        i * nz + j
    }

    /// The pair `(idx / nr, idx % nr)`, `nr` the number of `r` cells.
    pub fn idx_inv(&self, idx: usize) -> (ij: (usize, usize))
        requires
            total(self@.0) > 0,
        ensures
            ij.0 == idx as int / total(self@.0) as int,
            ij.1 == idx as int % total(self@.0) as int,
    {
        let nr = self.r.n();
        (idx / nr, idx % nr)
    }

    /// The segments, of the `r` axis and of the `z` axis, that hold cell `(i, j)`.
    pub fn to_coarse(&self, i: usize, j: usize) -> (seg: (usize, usize))
        requires
            i < total(self@.0),
            j < total(self@.1),
        ensures
            seg.0 == segment_index(self@.0)[i as int],
            seg.1 == segment_index(self@.1)[j as int],
    {
        (self.r.segment(i), self.z.segment(j))
    }

    /// The number of cells of each segment of the `r` axis and of the `z` axis.
    pub fn grid_n(&self) -> (counts: (Vec<usize>, Vec<usize>))
        ensures
            counts.0@ == self@.0,
            counts.1@ == self@.1,
    {
        (self.r.counts().clone(), self.z.counts().clone())
    }
}

/// An axis with no segments has no cells; adding a segment of `x` cells adds
/// `x` cells, all of them in the new segment, after the others.
pub proof fn lemma_total_and_segments_push(counts: Seq<usize>, x: usize)
    ensures
        total(Seq::<usize>::empty()) == 0,
        segment_index(Seq::<usize>::empty()) == Seq::<usize>::empty(),
        total(counts.push(x)) == total(counts) + x,
        segment_index(counts.push(x)).len() == total(counts) + x,
        forall|i: int|
            0 <= i < total(counts) ==> #[trigger] segment_index(counts.push(x))[i]
                == segment_index(counts)[i],
        counts.len() <= usize::MAX ==> forall|i: int|
            total(counts) <= i < total(counts) + x ==> #[trigger] segment_index(counts.push(x))[i]
                == counts.len(),
{
    assert(counts.push(x).drop_last() =~= counts);
    lemma_segment_index_len(counts);
    lemma_segment_index_len(counts.push(x));
}

/// For `0 <= j < nz`, the position of cell `(i, j)` divided by `nz` gives `i`
/// back and leaves `j`: a row of `nz` cells fills positions `i * nz` to
/// `i * nz + nz - 1` in the order of `j`.
pub proof fn lemma_cell_index_div_mod(nz: nat, i: int, j: int)
    requires
        0 <= j < nz,
    ensures
        cell_index(nz, i, j) / (nz as int) == i,
        cell_index(nz, i, j) % (nz as int) == j,
        cell_index(nz, i, j) == i * nz + j,
{
    vstd::arithmetic::div_mod::lemma_fundamental_div_mod_converse(i * nz + j, nz as int, i, j);
}

/// Distinct cells of a mesh stand at distinct positions of a flattened
/// vector, each below the number of cells.
pub proof fn lemma_idx_injective(nr: nat, nz: nat, i1: int, j1: int, i2: int, j2: int)
    requires
        0 <= i1 < nr,
        0 <= i2 < nr,
        0 <= j1 < nz,
        0 <= j2 < nz,
    ensures
        0 <= cell_index(nz, i1, j1) < nr * nz,
        cell_index(nz, i1, j1) == cell_index(nz, i2, j2) ==> i1 == i2 && j1 == j2,
{
    assert(0 <= i1 * nz + j1 < nr * nz) by (nonlinear_arith)
        requires
            0 <= i1 < nr,
            0 <= j1 < nz,
    ;
    if i1 * nz + j1 == i2 * nz + j2 {
        if i1 < i2 {
            assert(i1 * nz + j1 < i2 * nz + j2) by (nonlinear_arith)
                requires
                    i1 < i2,
                    0 <= j1 < nz,
                    0 <= j2,
            ;
        } else if i2 < i1 {
            assert(i2 * nz + j2 < i1 * nz + j1) by (nonlinear_arith)
                requires
                    i2 < i1,
                    0 <= j2 < nz,
                    0 <= j1,
            ;
        }
    }
}

/// On a mesh with as many `r` cells as `z` cells, `idx_inv` gives back the
/// cell that `idx` placed. (With `nr != nz` it need not: `idx` strides by
/// `nz` and `idx_inv` divides by `nr`.)
pub proof fn lemma_idx_inv_undoes_idx(g: Grid2D, i: int, j: int)
    requires
        total(g@.0) == total(g@.1),
        0 <= i < total(g@.0),
        0 <= j < total(g@.1),
    ensures
        cell_index(total(g@.1), i, j) / (total(g@.0) as int) == i,
        cell_index(total(g@.1), i, j) % (total(g@.0) as int) == j,
{
    let n = total(g@.0) as int;
    vstd::arithmetic::div_mod::lemma_fundamental_div_mod_converse(i * n + j, n, i, j);
}

} // verus!
