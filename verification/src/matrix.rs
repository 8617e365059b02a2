use vstd::prelude::*;

verus! {

/// An entry of a sparse matrix: its row, its column and its value.
pub type Entry<T> = (usize, usize, T);

/// `a` comes no later than `b` in row-major order of their positions.
pub open spec fn position_le<T>(a: Entry<T>, b: Entry<T>) -> bool {
    a.0 < b.0 || (a.0 == b.0 && a.1 <= b.1)
}

/// The entries are in row-major order of their positions.
pub open spec fn sorted_by_position<T>(s: Seq<Entry<T>>) -> bool {
    forall|i: int, j: int| 0 <= i < j < s.len() ==> position_le(#[trigger] s[i], #[trigger] s[j])
}

/// Selects the entries at position `(row, col)`.
pub open spec fn at_position<T>(row: usize, col: usize) -> spec_fn(Entry<T>) -> bool {
    |e: Entry<T>| e.0 == row && e.1 == col
}

/// The entries of `s` at position `(row, col)`, in the order in which `s` holds them.
pub open spec fn entries_at<T>(s: Seq<Entry<T>>, row: usize, col: usize) -> Seq<Entry<T>> {
    s.filter(at_position(row, col))
}

/// The entries with row and column exchanged.
pub open spec fn transposed<T>(s: Seq<Entry<T>>) -> Seq<Entry<T>> {
    s.map_values(|e: Entry<T>| (e.1, e.0, e.2))
}

/// Selects the entries of row `row`.
pub open spec fn in_row<T>(row: usize) -> spec_fn(Entry<T>) -> bool {
    |e: Entry<T>| e.0 == row
}

/// Selects the entries of column `col`.
pub open spec fn in_col<T>(col: usize) -> spec_fn(Entry<T>) -> bool {
    |e: Entry<T>| e.1 == col
}

/// The `(col, value)` pairs of row `row`, in the order in which `s` holds them.
pub open spec fn row_entries<T>(s: Seq<Entry<T>>, row: usize) -> Seq<(usize, T)> {
    s.filter(in_row(row)).map_values(|e: Entry<T>| (e.1, e.2))
}

/// The `(row, value)` pairs of column `col`, in the order in which `s` holds them.
pub open spec fn col_entries<T>(s: Seq<Entry<T>>, col: usize) -> Seq<(usize, T)> {
    s.filter(in_col(col)).map_values(|e: Entry<T>| (e.0, e.2))
}

proof fn lemma_filter_none<A>(s: Seq<A>, pred: spec_fn(A) -> bool)
    requires
        forall|i: int| 0 <= i < s.len() ==> !pred(#[trigger] s[i]),
    ensures
        s.filter(pred) == Seq::<A>::empty(),
    decreases s.len(),
{
    reveal(Seq::filter);
    if s.len() > 0 {
        lemma_filter_none(s.drop_last(), pred);
    }
    assert(s.filter(pred) =~= Seq::<A>::empty());
}

proof fn lemma_position_le_transitive<T>(a: Entry<T>, b: Entry<T>, c: Entry<T>)
    requires
        position_le(a, b),
        position_le(b, c),
    ensures
        position_le(a, c),
{
}

/// Appending an entry of row `row` appends its `(col, value)` to that row's
/// list; appending an entry of another row leaves the list as it is.
pub proof fn lemma_row_entries_push<T>(s: Seq<Entry<T>>, e: Entry<T>, row: usize)
    ensures
        row_entries(s.push(e), row) == (if e.0 == row {
            row_entries(s, row).push((e.1, e.2))
        } else {
            row_entries(s, row)
        }),
{
    s.lemma_filter_push(e, in_row(row));
    if e.0 == row {
        let f = |x: Entry<T>| (x.1, x.2);
        assert(s.filter(in_row(row)).push(e).map_values(f) =~= s.filter(in_row(row)).map_values(
            f,
        ).push(f(e)));
    }
}

/// Appending an entry of column `col` appends its `(row, value)` to that
/// column's list; appending an entry of another column leaves it as it is.
pub proof fn lemma_col_entries_push<T>(s: Seq<Entry<T>>, e: Entry<T>, col: usize)
    ensures
        col_entries(s.push(e), col) == (if e.1 == col {
            col_entries(s, col).push((e.0, e.2))
        } else {
            col_entries(s, col)
        }),
{
    s.lemma_filter_push(e, in_col(col));
    if e.1 == col {
        let f = |x: Entry<T>| (x.0, x.2);
        assert(s.filter(in_col(col)).push(e).map_values(f) =~= s.filter(in_col(col)).map_values(
            f,
        ).push(f(e)));
    }
}

/// A matrix with no entries has empty row, column and position lists.
pub proof fn lemma_entry_lists_empty<T>(r: usize, c: usize)
    ensures
        row_entries(Seq::<Entry<T>>::empty(), r) == Seq::<(usize, T)>::empty(),
        col_entries(Seq::<Entry<T>>::empty(), c) == Seq::<(usize, T)>::empty(),
        entries_at(Seq::<Entry<T>>::empty(), r, c) == Seq::<Entry<T>>::empty(),
{
    reveal(Seq::filter);
    assert(row_entries(Seq::<Entry<T>>::empty(), r) =~= Seq::<(usize, T)>::empty());
    assert(col_entries(Seq::<Entry<T>>::empty(), c) =~= Seq::<(usize, T)>::empty());
}

/// Appending an entry at `(row, col)` appends it to the entries at that
/// position; an entry elsewhere leaves them as they are.
pub proof fn lemma_entries_at_push<T>(s: Seq<Entry<T>>, e: Entry<T>, row: usize, col: usize)
    ensures
        entries_at(s.push(e), row, col) == (if e.0 == row && e.1 == col {
            entries_at(s, row, col).push(e)
        } else {
            entries_at(s, row, col)
        }),
{
    s.lemma_filter_push(e, at_position(row, col));
}

/// The transpose holds, at each index, the entry at that index with its row
/// and column exchanged.
pub proof fn lemma_transposed_entries<T>(s: Seq<Entry<T>>)
    ensures
        transposed(s).len() == s.len(),
        forall|k: int| 0 <= k < s.len() ==> #[trigger] transposed(s)[k] == (s[k].1, s[k].0, s[k].2),
{
}

/// Exchanging rows and columns twice gives the entries back.
pub proof fn lemma_transpose_involutive<T>(s: Seq<Entry<T>>)
    ensures
        transposed(transposed(s)) == s,
{
    assert(transposed(transposed(s)) =~= s);
}

/// Column `col` of a matrix lists the same `(index, value)` pairs, in the same
/// order, as row `col` of its transpose.
pub proof fn lemma_col_entries_of_transpose<T>(s: Seq<Entry<T>>, col: usize)
    ensures
        col_entries(s, col) == row_entries(transposed(s), col),
    decreases s.len(),
{
    if s.len() == 0 {
        reveal(Seq::filter);
        assert(col_entries(s, col) =~= Seq::<(usize, T)>::empty());
        assert(row_entries(transposed(s), col) =~= Seq::<(usize, T)>::empty());
    } else {
        let e = s.last();
        let t = s.drop_last();
        lemma_col_entries_of_transpose(t, col);
        assert(s =~= t.push(e));
        assert(transposed(s) =~= transposed(t).push((e.1, e.0, e.2)));
        lemma_col_entries_push(t, e, col);
        lemma_row_entries_push(transposed(t), (e.1, e.0, e.2), col);
    }
}

proof fn lemma_filter_nonempty<A>(s: Seq<A>, pred: spec_fn(A) -> bool)
    ensures
        s.filter(pred).len() > 0 <==> exists|k: int| 0 <= k < s.len() && pred(#[trigger] s[k]),
    decreases s.len(),
{
    reveal(Seq::filter);
    if s.len() > 0 {
        let t = s.drop_last();
        lemma_filter_nonempty(t, pred);
        if exists|k: int| 0 <= k < t.len() && pred(#[trigger] t[k]) {
            let k = choose|k: int| 0 <= k < t.len() && pred(#[trigger] t[k]);
            assert(s[k] == t[k]);
        }
        if exists|k: int| 0 <= k < s.len() && pred(#[trigger] s[k]) {
            let k = choose|k: int| 0 <= k < s.len() && pred(#[trigger] s[k]);
            if k < s.len() - 1 {
                assert(t[k] == s[k]);
            }
        }
    }
}

/// Two lists of entries in row-major order that hold, at each position, the
/// same entries in the same order are equal: the order that `sort` gives is
/// the only one it may give.
pub proof fn lemma_sorted_determined<T>(a: Seq<Entry<T>>, b: Seq<Entry<T>>)
    requires
        sorted_by_position(a),
        sorted_by_position(b),
        forall|r: usize, c: usize| #[trigger] entries_at(a, r, c) == entries_at(b, r, c),
    ensures
        a == b,
    decreases a.len() + b.len(),
{
    if a.len() == 0 && b.len() == 0 {
        assert(a =~= b);
    } else if a.len() == 0 {
        let y = b.last();
        lemma_filter_nonempty(b, at_position(y.0, y.1));
        lemma_filter_nonempty(a, at_position(y.0, y.1));
        assert(at_position::<T>(y.0, y.1)(b[b.len() - 1]));
        assert(entries_at(a, y.0, y.1) == entries_at(b, y.0, y.1));
    } else if b.len() == 0 {
        let x = a.last();
        lemma_filter_nonempty(a, at_position(x.0, x.1));
        lemma_filter_nonempty(b, at_position(x.0, x.1));
        assert(at_position::<T>(x.0, x.1)(a[a.len() - 1]));
        assert(entries_at(a, x.0, x.1) == entries_at(b, x.0, x.1));
    } else {
        let x = a.last();
        let y = b.last();
        assert(position_le(x, y)) by {
            lemma_filter_nonempty(a, at_position(x.0, x.1));
            lemma_filter_nonempty(b, at_position(x.0, x.1));
            assert(at_position::<T>(x.0, x.1)(a[a.len() - 1]));
            assert(entries_at(a, x.0, x.1) == entries_at(b, x.0, x.1));
            let k = choose|k: int| 0 <= k < b.len() && at_position::<T>(x.0, x.1)(#[trigger] b[k]);
            if k < b.len() - 1 {
                assert(position_le(b[k], b[b.len() - 1]));
            }
        }
        assert(position_le(y, x)) by {
            lemma_filter_nonempty(b, at_position(y.0, y.1));
            lemma_filter_nonempty(a, at_position(y.0, y.1));
            assert(at_position::<T>(y.0, y.1)(b[b.len() - 1]));
            assert(entries_at(a, y.0, y.1) == entries_at(b, y.0, y.1));
            let k = choose|k: int| 0 <= k < a.len() && at_position::<T>(y.0, y.1)(#[trigger] a[k]);
            if k < a.len() - 1 {
                assert(position_le(a[k], a[a.len() - 1]));
            }
        }
        let a1 = a.drop_last();
        let b1 = b.drop_last();
        assert forall|r: usize, c: usize| #[trigger] entries_at(a1, r, c) == entries_at(b1, r, c) by {
            let p = at_position::<T>(r, c);
            assert(a =~= a1.push(x));
            assert(b =~= b1.push(y));
            a1.lemma_filter_push(x, p);
            b1.lemma_filter_push(y, p);
            assert(entries_at(a, r, c) == entries_at(b, r, c));
            if p(x) {
                assert(entries_at(a, r, c).last() == x);
                assert(entries_at(b, r, c).last() == y);
                assert(entries_at(a1, r, c) =~= entries_at(a, r, c).drop_last());
                assert(entries_at(b1, r, c) =~= entries_at(b, r, c).drop_last());
            }
        }
        assert(x == y) by {
            let p = at_position::<T>(x.0, x.1);
            assert(a =~= a1.push(x));
            assert(b =~= b1.push(y));
            a1.lemma_filter_push(x, p);
            b1.lemma_filter_push(y, p);
            assert(entries_at(a, x.0, x.1) == entries_at(b, x.0, x.1));
            assert(entries_at(a, x.0, x.1).last() == x);
        }
        assert(sorted_by_position(a1)) by {
            assert forall|i: int, j: int| 0 <= i < j < a1.len() implies position_le(
                #[trigger] a1[i],
                #[trigger] a1[j],
            ) by {
                assert(a1[i] == a[i] && a1[j] == a[j]);
            }
        }
        assert(sorted_by_position(b1)) by {
            assert forall|i: int, j: int| 0 <= i < j < b1.len() implies position_le(
                #[trigger] b1[i],
                #[trigger] b1[j],
            ) by {
                assert(b1[i] == b[i] && b1[j] == b[j]);
            }
        }
        lemma_sorted_determined(a1, b1);
        assert(a =~= a1.push(x));
        assert(b =~= b1.push(y));
    }
}

/// `a` and `b` hold, at each position, the same entries in the same order.
pub open spec fn same_entries<T>(a: Seq<Entry<T>>, b: Seq<Entry<T>>) -> bool {
    forall|r: usize, c: usize| #[trigger] entries_at(a, r, c) == entries_at(b, r, c)
}

proof fn lemma_entries_at_add<T>(a: Seq<Entry<T>>, b: Seq<Entry<T>>, r: usize, c: usize)
    ensures
        entries_at(a + b, r, c) == entries_at(a, r, c) + entries_at(b, r, c),
{
    Seq::filter_distributes_over_add(a, b, at_position(r, c));
}

/// Merges the sorted runs `v[lo..mid]` and `v[mid..hi]`; of two entries at
/// one position, the one of the first run comes first.
fn merge<T: Copy>(v: &Vec<Entry<T>>, lo: usize, mid: usize, hi: usize) -> (m: Vec<Entry<T>>)
    requires
        lo <= mid <= hi <= v@.len(),
        sorted_by_position(v@.subrange(lo as int, mid as int)),
        sorted_by_position(v@.subrange(mid as int, hi as int)),
    ensures
        m@.len() == hi - lo,
        sorted_by_position(m@),
        forall|r: usize, c: usize|
            #[trigger] entries_at(m@, r, c) == entries_at(v@.subrange(lo as int, mid as int), r, c)
                + entries_at(v@.subrange(mid as int, hi as int), r, c),
{
    let ghost a = v@.subrange(lo as int, mid as int);
    let ghost b = v@.subrange(mid as int, hi as int);
    let mut m: Vec<Entry<T>> = Vec::new();
    let mut i = lo;
    let mut j = mid;
    proof {
        reveal_with_fuel(Seq::filter, 1);
        assert forall|r: usize, c: usize| #[trigger] entries_at(m@, r, c) == entries_at(a.take(0), r, c)
            + entries_at(b.take(0), r, c) by {
            assert(a.take(0) =~= Seq::<Entry<T>>::empty());
            assert(b.take(0) =~= Seq::<Entry<T>>::empty());
            assert(m@ =~= Seq::<Entry<T>>::empty());
            assert(Seq::<Entry<T>>::empty() + Seq::<Entry<T>>::empty() =~= Seq::<Entry<T>>::empty());
        }
    }
    while i < mid || j < hi
        invariant
            lo <= i <= mid <= j <= hi <= v@.len(),
            a == v@.subrange(lo as int, mid as int),
            b == v@.subrange(mid as int, hi as int),
            sorted_by_position(a),
            sorted_by_position(b),
            m@.len() == (i - lo) + (j - mid),
            sorted_by_position(m@),
            forall|k: int| 0 <= k < m@.len() && i < mid ==> position_le(#[trigger] m@[k], v@[i as int]),
            forall|k: int| 0 <= k < m@.len() && j < hi ==> position_le(#[trigger] m@[k], v@[j as int]),
            forall|t: int| 0 <= t < j - mid && i < mid ==> !position_le(v@[i as int], #[trigger] b[t]),
            forall|r: usize, c: usize|
                #[trigger] entries_at(m@, r, c) == entries_at(a.take(i - lo), r, c) + entries_at(
                    b.take(j - mid),
                    r,
                    c,
                ),
        decreases (mid - i) + (hi - j),
    {
        let ghost m0 = m@;
        let ghost ia = i - lo;
        let ghost jb = j - mid;
        if j >= hi || (i < mid && (v[i].0 < v[j].0 || (v[i].0 == v[j].0 && v[i].1 <= v[j].1))) {
            let e = v[i];
            proof {
                assert(e == a[ia]);
                assert(a.take(ia + 1) =~= a.take(ia).push(e));
            }
            m.push(e);
            i = i + 1;
            proof {
                assert forall|x: int, y: int| 0 <= x < y < m@.len() implies position_le(
                    #[trigger] m@[x],
                    #[trigger] m@[y],
                ) by {
                    if y == m@.len() - 1 {
                        assert(m@[x] == m0[x]);
                    } else {
                        assert(m@[x] == m0[x] && m@[y] == m0[y]);
                    }
                }
                if i < mid {
                    assert(position_le(e, v@[i as int])) by {
                        assert(a[ia] == v@[i - 1]);
                        assert(a[ia + 1] == v@[i as int]);
                    }
                    assert forall|k: int| 0 <= k < m@.len() implies position_le(
                        #[trigger] m@[k],
                        v@[i as int],
                    ) by {
                        if k < m@.len() - 1 {
                            assert(m@[k] == m0[k]);
                            lemma_position_le_transitive(m0[k], e, v@[i as int]);
                        }
                    }
                    assert forall|t: int| 0 <= t < j - mid implies !position_le(
                        v@[i as int],
                        #[trigger] b[t],
                    ) by {
                        if position_le(v@[i as int], b[t]) {
                            lemma_position_le_transitive(e, v@[i as int], b[t]);
                        }
                    }
                }
                assert forall|k: int| 0 <= k < m@.len() && j < hi implies position_le(
                    #[trigger] m@[k],
                    v@[j as int],
                ) by {
                    if k < m@.len() - 1 {
                        assert(m@[k] == m0[k]);
                    }
                }
                assert forall|r: usize, c: usize| #[trigger] entries_at(m@, r, c) == entries_at(
                    a.take(i - lo),
                    r,
                    c,
                ) + entries_at(b.take(j - mid), r, c) by {
                    let p = at_position::<T>(r, c);
                    m0.lemma_filter_push(e, p);
                    a.take(ia).lemma_filter_push(e, p);
                    assert(entries_at(m0, r, c) == entries_at(a.take(ia), r, c) + entries_at(
                        b.take(jb),
                        r,
                        c,
                    ));
                    if p(e) {
                        assert forall|t: int| 0 <= t < b.take(jb).len() implies !p(
                            #[trigger] b.take(jb)[t],
                        ) by {
                            assert(b.take(jb)[t] == b[t]);
                            assert(!position_le(e, b[t]));
                        }
                        lemma_filter_none(b.take(jb), p);
                        assert((entries_at(a.take(ia), r, c) + entries_at(b.take(jb), r, c)).push(e)
                            =~= entries_at(a.take(ia), r, c).push(e) + entries_at(b.take(jb), r, c));
                    }
                }
            }
        } else {
            let e = v[j];
            proof {
                assert(e == b[jb]);
                assert(b.take(jb + 1) =~= b.take(jb).push(e));
                assert(i < mid ==> !position_le(v@[i as int], e));
            }
            m.push(e);
            j = j + 1;
            proof {
                assert forall|x: int, y: int| 0 <= x < y < m@.len() implies position_le(
                    #[trigger] m@[x],
                    #[trigger] m@[y],
                ) by {
                    if y == m@.len() - 1 {
                        assert(m@[x] == m0[x]);
                    } else {
                        assert(m@[x] == m0[x] && m@[y] == m0[y]);
                    }
                }
                assert forall|k: int| 0 <= k < m@.len() && i < mid implies position_le(
                    #[trigger] m@[k],
                    v@[i as int],
                ) by {
                    if k < m@.len() - 1 {
                        assert(m@[k] == m0[k]);
                    }
                }
                if j < hi {
                    assert(position_le(e, v@[j as int])) by {
                        assert(b[jb] == v@[j - 1]);
                        assert(b[jb + 1] == v@[j as int]);
                    }
                    assert forall|k: int| 0 <= k < m@.len() implies position_le(
                        #[trigger] m@[k],
                        v@[j as int],
                    ) by {
                        if k < m@.len() - 1 {
                            assert(m@[k] == m0[k]);
                            lemma_position_le_transitive(m0[k], e, v@[j as int]);
                        }
                    }
                }
                assert forall|t: int| 0 <= t < j - mid && i < mid implies !position_le(
                    v@[i as int],
                    #[trigger] b[t],
                ) by {
                    if t == jb {
                    }
                }
                assert forall|r: usize, c: usize| #[trigger] entries_at(m@, r, c) == entries_at(
                    a.take(i - lo),
                    r,
                    c,
                ) + entries_at(b.take(j - mid), r, c) by {
                    let p = at_position::<T>(r, c);
                    m0.lemma_filter_push(e, p);
                    b.take(jb).lemma_filter_push(e, p);
                    assert(entries_at(m0, r, c) == entries_at(a.take(ia), r, c) + entries_at(
                        b.take(jb),
                        r,
                        c,
                    ));
                    if p(e) {
                        assert((entries_at(a.take(ia), r, c) + entries_at(b.take(jb), r, c)).push(e)
                            =~= entries_at(a.take(ia), r, c) + entries_at(b.take(jb), r, c).push(e));
                    }
                }
            }
        }
    }
    proof {
        assert(a.take(mid - lo) =~= a);
        assert(b.take(hi - mid) =~= b);
    }
    m
}

/// Sorts `v[lo..hi]` into row-major order of positions, keeping the order of
/// entries at one position, and leaves the rest of `v` as it is.
fn sort_range<T: Copy>(v: &mut Vec<Entry<T>>, lo: usize, hi: usize)
    requires
        lo <= hi <= old(v)@.len(),
    ensures
        final(v)@.len() == old(v)@.len(),
        final(v)@.subrange(0, lo as int) == old(v)@.subrange(0, lo as int),
        final(v)@.subrange(hi as int, final(v)@.len() as int) == old(v)@.subrange(
            hi as int,
            old(v)@.len() as int,
        ),
        sorted_by_position(final(v)@.subrange(lo as int, hi as int)),
        same_entries(final(v)@.subrange(lo as int, hi as int), old(v)@.subrange(lo as int, hi as int)),
    decreases hi - lo,
{
    let ghost v0 = v@;
    if hi - lo <= 1 {
        return ;
    }
    let mid = lo + (hi - lo) / 2;
    sort_range(v, lo, mid);
    let ghost v1 = v@;
    sort_range(v, mid, hi);
    let ghost v2 = v@;
    proof {
        assert(v2.subrange(lo as int, mid as int) =~= v1.subrange(lo as int, mid as int)) by {
            assert forall|k: int| lo <= k < mid implies v2[k] == v1[k] by {
                assert(v2[k] == v2.subrange(0, mid as int)[k]);
                assert(v1[k] == v1.subrange(0, mid as int)[k]);
            }
        }
        assert(v1.subrange(mid as int, hi as int) =~= v0.subrange(mid as int, hi as int)) by {
            assert forall|k: int| mid <= k < hi implies v1[k] == v0[k] by {
                assert(v1[k] == v1.subrange(mid as int, v1.len() as int)[k - mid]);
                assert(v0[k] == v0.subrange(mid as int, v0.len() as int)[k - mid]);
            }
        }
    }
    let m = merge(v, lo, mid, hi);
    let n = hi - lo;
    for k in 0..n
        invariant
            n == hi - lo,
            m@.len() == n,
            lo + n <= v2.len(),
            v@.len() == v2.len(),
            forall|x: int| 0 <= x < v2.len() && !(lo <= x < lo + k) ==> v@[x] == v2[x],
            forall|x: int| 0 <= x < k ==> v@[lo + x] == m@[x],
    {
        v.set(lo + k, m[k]);
    }
    proof {
        let vf = v@;
        assert(vf.subrange(lo as int, hi as int) =~= m@);
        assert(vf.subrange(0, lo as int) =~= v0.subrange(0, lo as int)) by {
            assert forall|x: int| 0 <= x < lo implies vf[x] == v0[x] by {
                assert(v2[x] == v2.subrange(0, mid as int)[x]);
                assert(v1[x] == v1.subrange(0, mid as int)[x]);
                assert(v1[x] == v1.subrange(0, lo as int)[x]);
                assert(v0[x] == v0.subrange(0, lo as int)[x]);
            }
        }
        assert(vf.subrange(hi as int, vf.len() as int) =~= v0.subrange(hi as int, v0.len() as int)) by {
            assert forall|x: int| hi <= x < vf.len() implies vf[x] == v0[x] by {
                assert(v2[x] == v2.subrange(hi as int, v2.len() as int)[x - hi]);
                assert(v1[x] == v1.subrange(hi as int, v1.len() as int)[x - hi]);
                assert(v1[x] == v1.subrange(mid as int, v1.len() as int)[x - mid]);
                assert(v0[x] == v0.subrange(mid as int, v0.len() as int)[x - mid]);
            }
        }
        assert(v0.subrange(lo as int, hi as int) =~= v0.subrange(lo as int, mid as int) + v0.subrange(
            mid as int,
            hi as int,
        ));
        assert forall|r: usize, c: usize| #[trigger] entries_at(m@, r, c) == entries_at(
            v0.subrange(lo as int, hi as int),
            r,
            c,
        ) by {
            lemma_entries_at_add(v0.subrange(lo as int, mid as int), v0.subrange(mid as int, hi as int), r, c);
            assert(entries_at(v1.subrange(lo as int, mid as int), r, c) == entries_at(
                v0.subrange(lo as int, mid as int),
                r,
                c,
            ));
            assert(entries_at(v2.subrange(mid as int, hi as int), r, c) == entries_at(
                v1.subrange(mid as int, hi as int),
                r,
                c,
            ));
        }
    }
}

/// A matrix stored as a list of `(row, col, value)` triplets; the same
/// position may occur more than once.
#[derive(Debug, Clone)]
pub struct SparseMatrix<T> {
    rows: usize,
    cols: usize,
    data: Vec<Entry<T>>,
}

impl<T> View for SparseMatrix<T> {
    type V = Seq<Entry<T>>;

    closed spec fn view(&self) -> Seq<Entry<T>> {
        self.data@
    }
}

impl<T> SparseMatrix<T> {
    /// The number of rows.
    pub closed spec fn num_rows(&self) -> usize {
        self.rows
    }

    /// The number of columns.
    pub closed spec fn num_cols(&self) -> usize {
        self.cols
    }

    /// An empty `rows` x `cols` matrix.
    pub fn new(rows: usize, cols: usize) -> (res: Self)
        ensures
            res.num_rows() == rows,
            res.num_cols() == cols,
            res@ == Seq::<Entry<T>>::empty(),
    {
        SparseMatrix { rows, cols, data: Vec::new() }
    }

    /// The number of rows.
    pub fn rows(&self) -> (r: usize)
        ensures
            r == self.num_rows(),
    {
        self.rows
    }

    /// The number of columns.
    pub fn cols(&self) -> (c: usize)
        ensures
            c == self.num_cols(),
    {
        self.cols
    }

    /// The entries, in the order in which the matrix holds them.
    pub fn entries(&self) -> (d: &Vec<Entry<T>>)
        ensures
            d@ == self@,
    {
        &self.data
    }

    /// Appends the entry `(row, col, value)`.
    pub fn add_entry(&mut self, row: usize, col: usize, value: T)
        ensures
            final(self).num_rows() == old(self).num_rows(),
            final(self).num_cols() == old(self).num_cols(),
            final(self)@ == old(self)@.push((row, col, value)),
    {
        self.data.push((row, col, value));
    }
}

impl<T: Copy> SparseMatrix<T> {
    /// Sorts the entries into row-major order of their positions; entries at
    /// the same position keep their order.
    pub fn sort(&mut self)
        ensures
            final(self).num_rows() == old(self).num_rows(),
            final(self).num_cols() == old(self).num_cols(),
            sorted_by_position(final(self)@),
            forall|i: int, j: int|
                #![trigger final(self)@[i], final(self)@[j]]
                0 <= i < j < final(self)@.len() ==> final(self)@[i].0 < final(self)@[j].0 || (
                final(self)@[i].0 == final(self)@[j].0 && final(self)@[i].1 <= final(self)@[j].1),
            forall|r: usize, c: usize|
                #[trigger] entries_at(final(self)@, r, c) == entries_at(old(self)@, r, c),
    {
        let n = self.data.len();
        let ghost before = self.data@;
        sort_range(&mut self.data, 0, n);
        assert(self.data@.subrange(0, n as int) =~= self.data@);
        assert(before.subrange(0, n as int) =~= before);
        let ghost d = self.data@;
        assert forall|i: int, j: int| 0 <= i < j < d.len() implies d[i].0 < d[j].0 || (d[i].0
            == d[j].0 && d[i].1 <= d[j].1) by {
            assert(position_le(d[i], d[j]));
        }
    }

    /// The transpose: a `cols` x `rows` matrix with each entry's row and
    /// column exchanged, in the same order.
    pub fn transpose(&self) -> (res: SparseMatrix<T>)
        ensures
            res.num_rows() == self.num_cols(),
            res.num_cols() == self.num_rows(),
            res@ == transposed(self@),
            res@.len() == self@.len(),
            forall|k: int|
                0 <= k < self@.len() ==> #[trigger] res@[k] == (self@[k].1, self@[k].0, self@[k].2),
    {
        let mut res = SparseMatrix::new(self.cols, self.rows);
        let n = self.data.len();
        for k in 0..n
            invariant
                n == self.data@.len(),
                res.rows == self.cols,
                res.cols == self.rows,
                res.data@ == transposed(self.data@.take(k as int)),
        {
            let (i, j, v) = self.data[k];
            res.data.push((j, i, v));
            assert(res.data@ =~= transposed(self.data@.take(k + 1)));
        }
        assert(self.data@.take(n as int) =~= self.data@);
        proof {
            lemma_transposed_entries(self.data@);
        }
        res
    }

    /// For each row, the `(col, value)` pairs of its entries in the order in
    /// which the matrix holds them.
    pub fn row_compress(&self) -> (res: Vec<Vec<(usize, T)>>)
        requires
            forall|k: int| 0 <= k < self@.len() ==> (#[trigger] self@[k]).0 < self.num_rows(),
        ensures
            res@.len() == self.num_rows(),
            forall|r: int| 0 <= r < self.num_rows() ==> (#[trigger] res@[r])@ == row_entries(self@, r as usize),
    {
        let mut res: Vec<Vec<(usize, T)>> = Vec::new();
        for r in 0..self.rows
            invariant
                res@.len() == r,
                forall|q: int| 0 <= q < r ==> (#[trigger] res@[q])@ == Seq::<(usize, T)>::empty(),
        {
            res.push(Vec::new());
        }
        proof {
            reveal(Seq::filter);
            assert forall|r: int| 0 <= r < self.rows implies (#[trigger] res@[r])@ == row_entries(
                self.data@.take(0),
                r as usize,
            ) by {
                assert(row_entries(self.data@.take(0), r as usize) =~= Seq::<(usize, T)>::empty());
            }
        }
        let n = self.data.len();
        assert forall|m: int| 0 <= m < n implies (#[trigger] self.data@[m]).0 < self.rows by {
            assert(self@[m] == self.data@[m]);
        }
        for k in 0..n
            invariant
                n == self.data@.len(),
                res@.len() == self.rows,
                forall|m: int| 0 <= m < n ==> (#[trigger] self.data@[m]).0 < self.rows,
                forall|r: int| 0 <= r < self.rows ==> (#[trigger] res@[r])@ == row_entries(self.data@.take(k as int), r as usize),
        {
            let (i, j, v) = self.data[k];
            let ghost before = res@;
            res[i].push((j, v));
            proof {
                assert(self.data@.take(k + 1) =~= self.data@.take(k as int).push((i, j, v)));
                assert forall|r: int| 0 <= r < self.rows implies (#[trigger] res@[r])@ == row_entries(
                    self.data@.take(k + 1),
                    r as usize,
                ) by {
                    lemma_row_entries_push(self.data@.take(k as int), (i, j, v), r as usize);
                    if r != i {
                        assert(res@[r] == before[r]);
                    }
                }
            }
        }
        assert(self.data@.take(n as int) =~= self.data@);
        res
    }

    /// For each column, the `(row, value)` pairs of its entries in the order
    /// in which the matrix holds them.
    pub fn col_compress(&self) -> (res: Vec<Vec<(usize, T)>>)
        requires
            forall|k: int| 0 <= k < self@.len() ==> (#[trigger] self@[k]).1 < self.num_cols(),
        ensures
            res@.len() == self.num_cols(),
            forall|c: int| 0 <= c < self.num_cols() ==> (#[trigger] res@[c])@ == col_entries(self@, c as usize),
    {
        let mut res: Vec<Vec<(usize, T)>> = Vec::new();
        for c in 0..self.cols
            invariant
                res@.len() == c,
                forall|q: int| 0 <= q < c ==> (#[trigger] res@[q])@ == Seq::<(usize, T)>::empty(),
        {
            res.push(Vec::new());
        }
        proof {
            reveal(Seq::filter);
            assert forall|c: int| 0 <= c < self.cols implies (#[trigger] res@[c])@ == col_entries(
                self.data@.take(0),
                c as usize,
            ) by {
                assert(col_entries(self.data@.take(0), c as usize) =~= Seq::<(usize, T)>::empty());
            }
        }
        let n = self.data.len();
        assert forall|m: int| 0 <= m < n implies (#[trigger] self.data@[m]).1 < self.cols by {
            assert(self@[m] == self.data@[m]);
        }
        for k in 0..n
            invariant
                n == self.data@.len(),
                res@.len() == self.cols,
                forall|m: int| 0 <= m < n ==> (#[trigger] self.data@[m]).1 < self.cols,
                forall|c: int| 0 <= c < self.cols ==> (#[trigger] res@[c])@ == col_entries(self.data@.take(k as int), c as usize),
        {
            let (i, j, v) = self.data[k];
            let ghost before = res@;
            res[j].push((i, v));
            proof {
                assert(self.data@.take(k + 1) =~= self.data@.take(k as int).push((i, j, v)));
                assert forall|c: int| 0 <= c < self.cols implies (#[trigger] res@[c])@ == col_entries(
                    self.data@.take(k + 1),
                    c as usize,
                ) by {
                    lemma_col_entries_push(self.data@.take(k as int), (i, j, v), c as usize);
                    if c != j {
                        assert(res@[c] == before[c]);
                    }
                }
            }
        }
        assert(self.data@.take(n as int) =~= self.data@);
        res
    }
}

} // verus!
