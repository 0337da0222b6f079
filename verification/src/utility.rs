//! Grid and string utilities used by the domain primitives.
use vstd::prelude::*;

verus! {

use vstd::string::StringSliceAdditionalSpecFns;
use crate::grid::Grid;
use crate::grid::GridView;
use crate::neuron::ColorMap;

/// Edit distance between the first `i` bytes of `a` and the first `j` bytes
/// of `b`: the least number of single-byte insertions, deletions and
/// substitutions turning one into the other.
pub open spec fn lev(a: Seq<u8>, b: Seq<u8>, i: nat, j: nat) -> nat
    recommends
        i <= a.len(),
        j <= b.len(),
    decreases i + j,
{
    if i == 0 {
        j
    } else if j == 0 {
        i
    } else if a[i - 1] == b[j - 1] {
        lev(a, b, (i - 1) as nat, (j - 1) as nat)
    } else {
        1 + min3(
            lev(a, b, (i - 1) as nat, (j - 1) as nat),
            lev(a, b, (i - 1) as nat, j),
            lev(a, b, i, (j - 1) as nat),
        )
    }
}

/// The least of three naturals.
pub open spec fn min3(x: nat, y: nat, z: nat) -> nat {
    if x <= y && x <= z {
        x
    } else if y <= z {
        y
    } else {
        z
    }
}

/// Edit distance between two byte strings.
pub open spec fn spec_levenshtein(a: Seq<u8>, b: Seq<u8>) -> nat {
    lev(a, b, a.len(), b.len())
}

/// The edit distance between prefixes of lengths `i` and `j` is at most the
/// longer of the two lengths.
proof fn lemma_lev_bound(a: Seq<u8>, b: Seq<u8>, i: nat, j: nat)
    ensures
        lev(a, b, i, j) <= if i >= j {
            i
        } else {
            j
        },
    decreases i + j,
{
    if i == 0 || j == 0 {
    } else {
        lemma_lev_bound(a, b, (i - 1) as nat, (j - 1) as nat);
        lemma_lev_bound(a, b, (i - 1) as nat, j);
        lemma_lev_bound(a, b, i, (j - 1) as nat);
    }
}

/// Computes the edit distance between two strings, counted over their UTF-8
/// bytes.
pub fn levenshtein(a: &str, b: &str) -> (r: usize)
    ensures
        r == spec_levenshtein(a.spec_bytes(), b.spec_bytes()),
{
    let a_bytes = a.as_bytes();
    let b_bytes = b.as_bytes();
    let n = a_bytes.len();
    let m = b_bytes.len();
    let ghost av = a.spec_bytes();
    let ghost bv = b.spec_bytes();
    if n == 0 {
        return m;
    }
    if m == 0 {
        return n;
    }

    // dp[q] holds the distance between the current prefix of `a` and the
    // first q + 1 bytes of `b`; the distance to the empty prefix of `b` is
    // kept in `d0`.
    let mut dp: Vec<usize> = Vec::new();
    let mut q: usize = 0;
    while q < m
        invariant
            q <= m,
            m <= usize::MAX - 1 || m == usize::MAX,
            dp@.len() == q,
            forall|p: int| 0 <= p < q ==> dp@[p] == p + 1,
        decreases m - q,
    {
        dp.push(q + 1);
        q += 1;
    }
    proof {
        assert(forall|p: int| 0 <= p < m ==> dp@[p] == lev(av, bv, 0, (p + 1) as nat));
    }

    let mut d0: usize = 0;
    let mut im1: usize = 0;
    while im1 < n
        invariant
            im1 <= n,
            n == av.len(),
            m == bv.len(),
            m >= 1,
            a_bytes@ == av,
            b_bytes@ == bv,
            dp@.len() == m,
            d0 == lev(av, bv, im1 as nat, 0),
            forall|p: int| 0 <= p < m ==> dp@[p] == lev(av, bv, im1 as nat, (p + 1) as nat),
        decreases n - im1,
    {
        let ghost i = im1 + 1;
        let mut prev = d0;
        d0 = im1 + 1;
        let mut jm1: usize = 0;
        while jm1 < m
            invariant
                jm1 <= m,
                im1 < n,
                i == im1 + 1,
                n == av.len(),
                m == bv.len(),
                a_bytes@ == av,
                b_bytes@ == bv,
                dp@.len() == m,
                d0 == lev(av, bv, i as nat, 0),
                prev == lev(av, bv, im1 as nat, jm1 as nat),
                forall|p: int| 0 <= p < jm1 ==> dp@[p] == lev(av, bv, i as nat, (p + 1) as nat),
                forall|p: int|
                    jm1 <= p < m ==> dp@[p] == lev(av, bv, im1 as nat, (p + 1) as nat),
            decreases m - jm1,
        {
            let ghost j = jm1 + 1;
            let cur = dp[jm1];
            if a_bytes[im1] == b_bytes[jm1] {
                dp.set(jm1, prev);
            } else {
                proof {
                    lemma_lev_bound(av, bv, im1 as nat, jm1 as nat);
                }
                let left = if jm1 == 0 {
                    d0
                } else {
                    dp[jm1 - 1]
                };
                let mn = if prev <= cur && prev <= left {
                    prev
                } else if cur <= left {
                    cur
                } else {
                    left
                };
                proof {
                    assert(mn <= lev(av, bv, im1 as nat, jm1 as nat));
                    assert(lev(av, bv, im1 as nat, jm1 as nat) <= if im1 >= jm1 {
                        im1 as nat
                    } else {
                        jm1 as nat
                    });
                }
                dp.set(jm1, 1 + mn);
            }
            prev = cur;
            jm1 += 1;
        }
        im1 += 1;
    }
    dp[m - 1]
}

/// The view of a grid mirrored left to right.
pub open spec fn flip_lr_view(g: GridView) -> GridView {
    GridView {
        rows: g.rows,
        cols: g.cols,
        cells: Seq::new(g.cells.len(), |t: int| g.cell(t / g.cols, g.cols - 1 - (t % g.cols))),
    }
}

/// The view of a grid mirrored top to bottom.
pub open spec fn flip_ud_view(g: GridView) -> GridView {
    GridView {
        rows: g.rows,
        cols: g.cols,
        cells: Seq::new(g.cells.len(), |t: int| g.cell(g.rows - 1 - (t / g.cols), t % g.cols)),
    }
}

/// The view of a grid with every cell rewritten through the entry list;
/// cells without a binding keep their value.
pub open spec fn map_view(g: GridView, es: Seq<(i8, i8)>) -> GridView {
    GridView {
        rows: g.rows,
        cols: g.cols,
        cells: Seq::new(
            g.cells.len(),
            |t: int|
                match crate::neuron::entries_get(es, g.cells[t]) {
                    Some(v) => v,
                    None => g.cells[t],
                },
        ),
    }
}

/// The mirrored view is well formed and reads the mirrored cell.
proof fn lemma_flip_lr_view(g: GridView)
    requires
        g.wf(),
    ensures
        flip_lr_view(g).wf(),
        flip_lr_view(g).rows == g.rows,
        flip_lr_view(g).cols == g.cols,
        forall|i: int, j: int|
            g.contains_index(i, j) ==> #[trigger] flip_lr_view(g).cell(i, j) == g.cell(
                i,
                g.cols - 1 - j,
            ),
{
    let h = flip_lr_view(g);
    assert forall|i: int, j: int| g.contains_index(i, j) implies #[trigger] h.cell(i, j) == g.cell(
        i,
        g.cols - 1 - j,
    ) by {
        crate::grid::lemma_row_major_in_range(i, j, g.rows, g.cols);
        vstd::arithmetic::div_mod::lemma_fundamental_div_mod_converse(
            i * g.cols + j,
            g.cols,
            i,
            j,
        );
    }
}

/// The flipped view is well formed and reads the flipped cell.
proof fn lemma_flip_ud_view(g: GridView)
    requires
        g.wf(),
    ensures
        flip_ud_view(g).wf(),
        flip_ud_view(g).rows == g.rows,
        flip_ud_view(g).cols == g.cols,
        forall|i: int, j: int|
            g.contains_index(i, j) ==> #[trigger] flip_ud_view(g).cell(i, j) == g.cell(
                g.rows - 1 - i,
                j,
            ),
{
    let h = flip_ud_view(g);
    assert forall|i: int, j: int| g.contains_index(i, j) implies #[trigger] h.cell(i, j) == g.cell(
        g.rows - 1 - i,
        j,
    ) by {
        crate::grid::lemma_row_major_in_range(i, j, g.rows, g.cols);
        vstd::arithmetic::div_mod::lemma_fundamental_div_mod_converse(
            i * g.cols + j,
            g.cols,
            i,
            j,
        );
    }
}

/// The rewritten view is well formed and reads the rewritten cell.
proof fn lemma_map_view(g: GridView, es: Seq<(i8, i8)>)
    requires
        g.wf(),
    ensures
        map_view(g, es).wf(),
        map_view(g, es).rows == g.rows,
        map_view(g, es).cols == g.cols,
        forall|i: int, j: int|
            g.contains_index(i, j) ==> #[trigger] map_view(g, es).cell(i, j) == (
            match crate::neuron::entries_get(es, g.cell(i, j)) {
                Some(v) => v,
                None => g.cell(i, j),
            }),
{
    let h = map_view(g, es);
    assert forall|i: int, j: int| g.contains_index(i, j) implies #[trigger] h.cell(i, j) == (
    match crate::neuron::entries_get(es, g.cell(i, j)) {
        Some(v) => v,
        None => g.cell(i, j),
    }) by {
        crate::grid::lemma_row_major_in_range(i, j, g.rows, g.cols);
    }
}

/// Mirrors a grid left to right: column `j` becomes column `cols - 1 - j`.
pub fn fliplr(x: &Grid) -> (r: Grid)
    requires
        x.wf(),
    ensures
        r.wf(),
        r.spec_rows() == x.spec_rows(),
        r.spec_cols() == x.spec_cols(),
        forall|i: int, j: int|
            r.contains_index(i, j) ==> #[trigger] r.cell(i, j) == x.cell(i, x.spec_cols() - 1 - j),
        r@ == flip_lr_view(x@),
{
    let rows = x.nrows();
    let cols = x.ncols();
    let mut y = x.clone();
    let mut i: usize = 0;
    while i < rows
        invariant
            i <= rows,
            x.wf(),
            y.wf(),
            y.spec_rows() == rows == x.spec_rows(),
            y.spec_cols() == cols == x.spec_cols(),
            forall|p: int, q: int|
                0 <= p < i && 0 <= q < cols ==> #[trigger] y.cell(p, q) == x.cell(p, cols - 1 - q),
            forall|p: int, q: int|
                i <= p < rows && 0 <= q < cols ==> #[trigger] y.cell(p, q) == x.cell(p, q),
        decreases rows - i,
    {
        let mut j: usize = 0;
        while j < cols
            invariant
                j <= cols,
                i < rows,
                x.wf(),
                y.wf(),
                y.spec_rows() == rows == x.spec_rows(),
                y.spec_cols() == cols == x.spec_cols(),
                forall|p: int, q: int|
                    0 <= p < i && 0 <= q < cols ==> #[trigger] y.cell(p, q) == x.cell(
                        p,
                        cols - 1 - q,
                    ),
                forall|q: int|
                    0 <= q < j ==> #[trigger] y.cell(i as int, q) == x.cell(i as int, cols - 1 - q),
                forall|q: int|
                    j <= q < cols ==> #[trigger] y.cell(i as int, q) == x.cell(i as int, q),
                forall|p: int, q: int|
                    i < p < rows && 0 <= q < cols ==> #[trigger] y.cell(p, q) == x.cell(p, q),
            decreases cols - j,
        {
            let v = x.get(i, cols - 1 - j);
            y.set(i, j, v);
            j += 1;
        }
        i += 1;
    }
    proof {
        lemma_flip_lr_view(x@);
        assert forall|i: int, j: int| y@.contains_index(i, j) implies #[trigger] y@.cell(i, j)
            == flip_lr_view(x@).cell(i, j) by {
            assert(y.cell(i, j) == x.cell(i, cols - 1 - j));
        }
        crate::grid::lemma_grid_view_cellwise(y@, flip_lr_view(x@));
    }
    y
}

/// Mirrors a grid top to bottom: row `i` becomes row `rows - 1 - i`.
pub fn flipud(x: &Grid) -> (r: Grid)
    requires
        x.wf(),
    ensures
        r.wf(),
        r.spec_rows() == x.spec_rows(),
        r.spec_cols() == x.spec_cols(),
        forall|i: int, j: int|
            r.contains_index(i, j) ==> #[trigger] r.cell(i, j) == x.cell(x.spec_rows() - 1 - i, j),
        r@ == flip_ud_view(x@),
{
    let rows = x.nrows();
    let cols = x.ncols();
    let mut y = x.clone();
    let mut i: usize = 0;
    while i < rows
        invariant
            i <= rows,
            x.wf(),
            y.wf(),
            y.spec_rows() == rows == x.spec_rows(),
            y.spec_cols() == cols == x.spec_cols(),
            forall|p: int, q: int|
                0 <= p < i && 0 <= q < cols ==> #[trigger] y.cell(p, q) == x.cell(rows - 1 - p, q),
        decreases rows - i,
    {
        let mut j: usize = 0;
        while j < cols
            invariant
                j <= cols,
                i < rows,
                x.wf(),
                y.wf(),
                y.spec_rows() == rows == x.spec_rows(),
                y.spec_cols() == cols == x.spec_cols(),
                forall|p: int, q: int|
                    0 <= p < i && 0 <= q < cols ==> #[trigger] y.cell(p, q) == x.cell(
                        rows - 1 - p,
                        q,
                    ),
                forall|q: int|
                    0 <= q < j ==> #[trigger] y.cell(i as int, q) == x.cell(rows - 1 - i, q),
        decreases cols - j,
        {
            let v = x.get(rows - 1 - i, j);
            y.set(i, j, v);
            j += 1;
        }
        i += 1;
    }
    proof {
        lemma_flip_ud_view(x@);
        assert forall|i: int, j: int| y@.contains_index(i, j) implies #[trigger] y@.cell(i, j)
            == flip_ud_view(x@).cell(i, j) by {
            assert(y.cell(i, j) == x.cell(rows - 1 - i, j));
        }
        crate::grid::lemma_grid_view_cellwise(y@, flip_ud_view(x@));
    }
    y
}

/// The coordinate pair addresses a cell of the grid.
pub fn valid_index(a: &Grid, at: (isize, isize)) -> (r: bool)
    ensures
        r == a.contains_index(at.0 as int, at.1 as int),
{
    let (r0, c0) = at;
    r0 >= 0 && c0 >= 0 && (r0 as usize) < a.nrows() && (c0 as usize) < a.ncols()
}

/// The neighbour offset list entry for one direction: the moved coordinate
/// if the direction is admissible and the result lies inside the bounds,
/// nothing otherwise. Without `diagonals` only the four axis-aligned
/// directions are admissible.
pub open spec fn neighbor_step(
    loc: (isize, isize),
    size: (isize, isize),
    di: int,
    dj: int,
    diagonals: bool,
) -> Seq<(isize, isize)> {
    let i = loc.0 + di;
    let j = loc.1 + dj;
    if (diagonals || di == 0 || dj == 0) && 0 <= i && 0 <= j && i < size.0 && j < size.1 {
        seq![(i as isize, j as isize)]
    } else {
        Seq::empty()
    }
}

/// The neighbours of a coordinate within the given bounds, in row-major
/// order of the offsets.
pub open spec fn spec_neighbors(
    loc: (isize, isize),
    size: (isize, isize),
    diagonals: bool,
) -> Seq<(isize, isize)> {
    neighbor_step(loc, size, -1, -1, diagonals) + neighbor_step(loc, size, -1, 0, diagonals)
        + neighbor_step(loc, size, -1, 1, diagonals) + neighbor_step(loc, size, 0, -1, diagonals)
        + neighbor_step(loc, size, 0, 1, diagonals) + neighbor_step(loc, size, 1, -1, diagonals)
        + neighbor_step(loc, size, 1, 0, diagonals) + neighbor_step(loc, size, 1, 1, diagonals)
}

/// Collects the neighbours of a coordinate within the given bounds: the
/// eight surrounding cells, or only the four sharing an edge when
/// `diagonals` is false.
pub fn neighbors(loc: (isize, isize), size: (isize, isize), diagonals: bool) -> (r: Vec<
    (isize, isize),
>)
    requires
        isize::MIN < loc.0 < isize::MAX,
        isize::MIN < loc.1 < isize::MAX,
    ensures
        r@ == spec_neighbors(loc, size, diagonals),
{
    let mut r: Vec<(isize, isize)> = Vec::new();
    push_neighbor(&mut r, loc, size, -1, -1, diagonals);
    push_neighbor(&mut r, loc, size, -1, 0, diagonals);
    push_neighbor(&mut r, loc, size, -1, 1, diagonals);
    push_neighbor(&mut r, loc, size, 0, -1, diagonals);
    push_neighbor(&mut r, loc, size, 0, 1, diagonals);
    push_neighbor(&mut r, loc, size, 1, -1, diagonals);
    push_neighbor(&mut r, loc, size, 1, 0, diagonals);
    push_neighbor(&mut r, loc, size, 1, 1, diagonals);
    proof {
        assert(r@ =~= spec_neighbors(loc, size, diagonals));
    }
    r
}

/// Appends the moved coordinate for one direction if it is admissible and in
/// bounds.
fn push_neighbor(
    r: &mut Vec<(isize, isize)>,
    loc: (isize, isize),
    size: (isize, isize),
    di: isize,
    dj: isize,
    diagonals: bool,
)
    requires
        -1 <= di <= 1,
        -1 <= dj <= 1,
        isize::MIN < loc.0 < isize::MAX,
        isize::MIN < loc.1 < isize::MAX,
    ensures
        final(r)@ == old(r)@ + neighbor_step(loc, size, di as int, dj as int, diagonals),
{
    if !diagonals && di != 0 && dj != 0 {
        proof {
            assert(old(r)@ + neighbor_step(loc, size, di as int, dj as int, diagonals) =~= old(
                r,
            )@);
        }
        return ;
    }
    let i = loc.0 + di;
    let j = loc.1 + dj;
    if i >= 0 && j >= 0 && i < size.0 && j < size.1 {
        r.push((i, j));
        proof {
            assert(r@ =~= old(r)@ + neighbor_step(loc, size, di as int, dj as int, diagonals));
        }
    } else {
        proof {
            assert(old(r)@ + neighbor_step(loc, size, di as int, dj as int, diagonals) =~= old(
                r,
            )@);
        }
    }
}

/// Rewrites every cell through the mapping; cells without a binding keep
/// their value.
pub fn map(dst: &Grid, mapping: &ColorMap) -> (r: Grid)
    requires
        dst.wf(),
    ensures
        r.wf(),
        r.spec_rows() == dst.spec_rows(),
        r.spec_cols() == dst.spec_cols(),
        forall|i: int, j: int|
            r.contains_index(i, j) ==> #[trigger] r.cell(i, j) == (match mapping.spec_get(
                dst.cell(i, j),
            ) {
                Some(n) => n,
                None => dst.cell(i, j),
            }),
        r@ == map_view(dst@, mapping.entries@),
{
    let rows = dst.nrows();
    let cols = dst.ncols();
    let mut y = dst.clone();
    let mut i: usize = 0;
    while i < rows
        invariant
            i <= rows,
            dst.wf(),
            y.wf(),
            y.spec_rows() == rows == dst.spec_rows(),
            y.spec_cols() == cols == dst.spec_cols(),
            forall|p: int, q: int|
                0 <= p < i && 0 <= q < cols ==> #[trigger] y.cell(p, q) == (match mapping.spec_get(
                    dst.cell(p, q),
                ) {
                    Some(n) => n,
                    None => dst.cell(p, q),
                }),
            forall|p: int, q: int|
                i <= p < rows && 0 <= q < cols ==> #[trigger] y.cell(p, q) == dst.cell(p, q),
        decreases rows - i,
    {
        let mut j: usize = 0;
        while j < cols
            invariant
                j <= cols,
                i < rows,
                dst.wf(),
                y.wf(),
                y.spec_rows() == rows == dst.spec_rows(),
                y.spec_cols() == cols == dst.spec_cols(),
                forall|p: int, q: int|
                    0 <= p < i && 0 <= q < cols ==> #[trigger] y.cell(p, q) == (match mapping.spec_get(
                        dst.cell(p, q),
                    ) {
                        Some(n) => n,
                        None => dst.cell(p, q),
                    }),
                forall|q: int|
                    0 <= q < j ==> #[trigger] y.cell(i as int, q) == (match mapping.spec_get(
                        dst.cell(i as int, q),
                    ) {
                        Some(n) => n,
                        None => dst.cell(i as int, q),
                    }),
                forall|q: int|
                    j <= q < cols ==> #[trigger] y.cell(i as int, q) == dst.cell(i as int, q),
                forall|p: int, q: int|
                    i < p < rows && 0 <= q < cols ==> #[trigger] y.cell(p, q) == dst.cell(p, q),
            decreases cols - j,
        {
            let v = y.get(i, j);
            match mapping.get(v) {
                Some(n) => {
                    y.set(i, j, n);
                },
                None => {},
            }
            j += 1;
        }
        i += 1;
    }
    proof {
        lemma_map_view(dst@, mapping.entries@);
        assert forall|i: int, j: int| y@.contains_index(i, j) implies #[trigger] y@.cell(i, j)
            == map_view(dst@, mapping.entries@).cell(i, j) by {
            assert(y.cell(i, j) == (match mapping.spec_get(dst.cell(i, j)) {
                Some(n) => n,
                None => dst.cell(i, j),
            }));
        }
        crate::grid::lemma_grid_view_cellwise(y@, map_view(dst@, mapping.entries@));
    }
    y
}

/// A coordinate list contains the cell `(i, j)`.
pub open spec fn contains_loc(s: Seq<(isize, isize)>, i: int, j: int) -> bool {
    exists|p: int| 0 <= p < s.len() && (#[trigger] s[p]).0 == i && s[p].1 == j
}

/// Overwrites the listed cells with `x`; coordinates outside the grid are
/// ignored.
pub fn fill_region(a: &Grid, region: &Vec<(isize, isize)>, x: i8) -> (r: Grid)
    requires
        a.wf(),
    ensures
        r.wf(),
        r.spec_rows() == a.spec_rows(),
        r.spec_cols() == a.spec_cols(),
        forall|i: int, j: int|
            r.contains_index(i, j) ==> #[trigger] r.cell(i, j) == (if contains_loc(region@, i, j) {
                x
            } else {
                a.cell(i, j)
            }),
{
    let n = region.len();
    let mut b = a.clone();
    let mut k: usize = 0;
    while k < n
        invariant
            k <= n,
            n == region@.len(),
            a.wf(),
            b.wf(),
            b.spec_rows() == a.spec_rows(),
            b.spec_cols() == a.spec_cols(),
            forall|i: int, j: int|
                b.contains_index(i, j) ==> #[trigger] b.cell(i, j) == (if contains_loc(
                    region@.subrange(0, k as int),
                    i,
                    j,
                ) {
                    x
                } else {
                    a.cell(i, j)
                }),
        decreases n - k,
    {
        let (ri, rj) = region[k];
        let ghost prefix = region@.subrange(0, k as int);
        let ghost prefix1 = region@.subrange(0, k + 1);
        let ghost b0 = b;
        proof {
            assert(prefix1 =~= prefix.push(region@[k as int]));
            assert(prefix1[k as int] == region@[k as int]);
            assert forall|i: int, j: int| contains_loc(prefix, i, j) implies contains_loc(
                prefix1,
                i,
                j,
            ) by {
                let p = choose|p: int|
                    0 <= p < prefix.len() && (#[trigger] prefix[p]).0 == i && prefix[p].1 == j;
                assert(prefix1[p] == prefix[p]);
            }
        }
        if ri >= 0 && rj >= 0 && (ri as usize) < b.nrows() && (rj as usize) < b.ncols() {
            b.set(ri as usize, rj as usize, x);
        }
        proof {
            assert forall|i: int, j: int| b.contains_index(i, j) implies #[trigger] b.cell(i, j)
                == (if contains_loc(prefix1, i, j) {
                x
            } else {
                a.cell(i, j)
            }) by {
                if contains_loc(prefix1, i, j) {
                    let p = choose|p: int|
                        0 <= p < prefix1.len() && (#[trigger] prefix1[p]).0 == i && prefix1[p].1
                            == j;
                    if p < prefix.len() {
                        assert(prefix[p] == prefix1[p]);
                        assert(contains_loc(prefix, i, j));
                        assert(b0.cell(i, j) == x);
                        if !(i == ri && j == rj) {
                            assert(b.cell(i, j) == b0.cell(i, j));
                        }
                    } else {
                        assert(prefix1[p] == (ri, rj));
                        assert(i == ri && j == rj);
                        assert(b.cell(i, j) == x);
                    }
                } else {
                    assert(!contains_loc(prefix, i, j));
                    assert(b0.cell(i, j) == a.cell(i, j));
                    assert(!(i == ri && j == rj));
                    assert(b.cell(i, j) == b0.cell(i, j));
                }
            }
        }
        k += 1;
    }
    proof {
        assert(region@.subrange(0, n as int) =~= region@);
    }
    b
}

/// The decimal digit character for `d`.
pub open spec fn digit_char(d: int) -> char {
    if d == 0 {
        '0'
    } else if d == 1 {
        '1'
    } else if d == 2 {
        '2'
    } else if d == 3 {
        '3'
    } else if d == 4 {
        '4'
    } else if d == 5 {
        '5'
    } else if d == 6 {
        '6'
    } else if d == 7 {
        '7'
    } else if d == 8 {
        '8'
    } else {
        '9'
    }
}

/// The decimal digit characters of `n`, most significant first.
pub open spec fn dec_digits(n: nat) -> Seq<char>
    decreases n,
{
    if n < 10 {
        seq![digit_char(n as int)]
    } else {
        dec_digits(n / 10).push(digit_char((n % 10) as int))
    }
}

/// The decimal representation of a signed number: a minus sign followed by
/// the digits of its magnitude, or just the digits.
pub open spec fn int64_chars(n: int) -> Seq<char> {
    if n < 0 {
        seq!['-'] + dec_digits((-n) as nat)
    } else {
        dec_digits(n as nat)
    }
}

/// Appends the decimal digit character for `d`.
fn push_digit(s: &mut String, d: u64)
    requires
        d < 10,
    ensures
        final(s)@ == old(s)@ + seq![digit_char(d as int)],
{
    proof {
        reveal_strlit("0");
        reveal_strlit("1");
        reveal_strlit("2");
        reveal_strlit("3");
        reveal_strlit("4");
        reveal_strlit("5");
        reveal_strlit("6");
        reveal_strlit("7");
        reveal_strlit("8");
        reveal_strlit("9");
    }
    if d == 0 {
        s.append("0");
    } else if d == 1 {
        s.append("1");
    } else if d == 2 {
        s.append("2");
    } else if d == 3 {
        s.append("3");
    } else if d == 4 {
        s.append("4");
    } else if d == 5 {
        s.append("5");
    } else if d == 6 {
        s.append("6");
    } else if d == 7 {
        s.append("7");
    } else if d == 8 {
        s.append("8");
    } else {
        s.append("9");
    }
    proof {
        assert(final(s)@ =~= old(s)@ + seq![digit_char(d as int)]);
    }
}

/// Appends the decimal digits of `mag`, most significant first.
pub fn push_decimal(s: &mut String, mag: u64)
    ensures
        final(s)@ == old(s)@ + dec_digits(mag as nat),
    decreases mag,
{
    if mag < 10 {
        push_digit(s, mag);
    } else {
        push_decimal(s, mag / 10);
        push_digit(s, mag % 10);
        proof {
            assert(old(s)@ + dec_digits((mag / 10) as nat) + seq![
                digit_char((mag % 10) as int),
            ] =~= old(s)@ + dec_digits(mag as nat));
        }
    }
}

/// Renders a signed number in decimal.
pub fn int64_to_string(n: i64) -> (r: String)
    ensures
        r@ == int64_chars(n as int),
{
    let mut s = String::new();
    if n < 0 {
        proof {
            reveal_strlit("-");
        }
        s.append("-");
        let mag: u64 = (-(n + 1)) as u64 + 1;
        push_decimal(&mut s, mag);
        proof {
            assert(mag as nat == (-(n as int)) as nat);
            assert(s@ =~= int64_chars(n as int));
        }
    } else {
        push_decimal(&mut s, n as u64);
    }
    s
}


/// Division rounded to the nearest integer, ties away from zero.
pub open spec fn round_div(p: int, q: int) -> int
    recommends
        q >= 1,
{
    if p >= 0 {
        (2 * p + q) / (2 * q)
    } else {
        -((2 * (-p) + q) / (2 * q))
    }
}

/// Computes the rounded quotient.
fn round_div_exec(p: i64, q: i64) -> (r: i64)
    requires
        1 <= q <= 0x8000_0000,
        -0x4000_0000_0000_0000 <= p <= 0x4000_0000_0000_0000,
    ensures
        r == round_div(p as int, q as int),
        -0x4000_0001_0000_0000 <= r <= 0x4000_0001_0000_0000,
{
    let mag: i128 = if p >= 0 {
        p as i128
    } else {
        -(p as i128)
    };
    let num: i128 = 2 * mag + q as i128;
    let den: i128 = 2 * q as i128;
    let quot: i128 = num / den;
    proof {
        vstd::arithmetic::div_mod::lemma_div_is_ordered_by_denominator(num as int, 2, den as int);
        assert(num / 2 <= 0x4000_0000_0000_0000 + 0x4000_0000);
        assert(0 <= quot <= 0x4000_0000_0000_0000 + 0x4000_0000);
    }
    if p >= 0 {
        quot as i64
    } else {
        -(quot as i64)
    }
}

/// The length of the discrete segment from `b` to `e`: the larger of the
/// coordinate spans.
pub open spec fn seg_steps(b: (isize, isize), e: (isize, isize)) -> int {
    let dx = abs_int(e.0 - b.0);
    let dy = abs_int(e.1 - b.1);
    if dx >= dy {
        dx
    } else {
        dy
    }
}

/// The absolute value.
pub open spec fn abs_int(x: int) -> int {
    if x < 0 {
        -x
    } else {
        x
    }
}

/// The `k`-th sample point of the discrete segment from `b` to `e`: the
/// rounded position `k / n` of the way along it.
pub open spec fn seg_point(b: (isize, isize), e: (isize, isize), k: int) -> (int, int) {
    let n = seg_steps(b, e);
    (b.0 + round_div(k * (e.0 - b.0), n), b.1 + round_div(k * (e.1 - b.1), n))
}

/// The cell `(i, j)` lies on the dotted discrete segment from `b` to `e`:
/// some sample point with index a multiple of `dot_step` falls on it.
pub open spec fn on_segment(
    b: (isize, isize),
    e: (isize, isize),
    dot_step: int,
    i: int,
    j: int,
) -> bool {
    exists|k: int|
        0 <= k <= seg_steps(b, e) && #[trigger] seg_point(b, e, k) == (i, j) && k % dot_step == 0
}

/// Draws a dotted segment: every `dot_step`-th sample point of the discrete
/// segment from `begin` to `end` that falls inside the grid is overwritten
/// with `value`. A zero `dot_step` or a zero-length segment draws nothing.
pub fn dot_segment(
    a: &Grid,
    begin: (isize, isize),
    end: (isize, isize),
    value: i8,
    dot_step: usize,
) -> (r: Grid)
    requires
        a.wf(),
        -0x4000_0000 <= begin.0 <= 0x4000_0000,
        -0x4000_0000 <= begin.1 <= 0x4000_0000,
        -0x4000_0000 <= end.0 <= 0x4000_0000,
        -0x4000_0000 <= end.1 <= 0x4000_0000,
    ensures
        r.wf(),
        r.spec_rows() == a.spec_rows(),
        r.spec_cols() == a.spec_cols(),
        (dot_step == 0 || seg_steps(begin, end) == 0) ==> forall|i: int, j: int|
            r.contains_index(i, j) ==> #[trigger] r.cell(i, j) == a.cell(i, j),
        (dot_step >= 1 && seg_steps(begin, end) > 0) ==> forall|i: int, j: int|
            r.contains_index(i, j) ==> #[trigger] r.cell(i, j) == (if on_segment(
                begin,
                end,
                dot_step as int,
                i,
                j,
            ) {
                value
            } else {
                a.cell(i, j)
            }),
{
    let mut m = a.clone();
    proof {
        assert(m@ =~= a@);
        assert(forall|i: int, j: int|
            m.contains_index(i, j) ==> #[trigger] m.cell(i, j) == a.cell(i, j));
    }
    if dot_step == 0 {
        return m;
    }
    let dx: i64 = end.0 as i64 - begin.0 as i64;
    let dy: i64 = end.1 as i64 - begin.1 as i64;
    let adx: i64 = if dx < 0 {
        -dx
    } else {
        dx
    };
    let ady: i64 = if dy < 0 {
        -dy
    } else {
        dy
    };
    let n: i64 = if adx >= ady {
        adx
    } else {
        ady
    };
    proof {
        assert(n == seg_steps(begin, end));
    }
    if n == 0 {
        return m;
    }
    let rows = a.nrows();
    let cols = a.ncols();
    let mut k: i64 = 0;
    while k <= n
        invariant
            0 <= k <= n + 1,
            1 <= n <= 0x8000_0000,
            n == seg_steps(begin, end),
            dx == end.0 - begin.0,
            dy == end.1 - begin.1,
            -0x8000_0000 <= dx <= 0x8000_0000,
            -0x8000_0000 <= dy <= 0x8000_0000,
            -0x4000_0000 <= begin.0 <= 0x4000_0000,
            -0x4000_0000 <= begin.1 <= 0x4000_0000,
            1 <= dot_step,
            a.wf(),
            m.wf(),
            m.spec_rows() == rows == a.spec_rows(),
            m.spec_cols() == cols == a.spec_cols(),
            forall|i: int, j: int|
                m.contains_index(i, j) ==> #[trigger] m.cell(i, j) == (if exists|t: int|
                    0 <= t < k && #[trigger] seg_point(begin, end, t) == (i, j) && t % (
                    dot_step as int) == 0 {
                    value
                } else {
                    a.cell(i, j)
                }),
        decreases n + 1 - k,
    {
        let ghost m0 = m;
        if (k as u64) % (dot_step as u64) == 0 {
            proof {
                assert(k as int % (dot_step as int) == 0);
                assert(-0x4000_0000_0000_0000 <= k * dx <= 0x4000_0000_0000_0000) by (nonlinear_arith)
                    requires
                        0 <= k <= 0x8000_0000,
                        -0x8000_0000 <= dx <= 0x8000_0000,
                ;
                assert(-0x4000_0000_0000_0000 <= k * dy <= 0x4000_0000_0000_0000) by (nonlinear_arith)
                    requires
                        0 <= k <= 0x8000_0000,
                        -0x8000_0000 <= dy <= 0x8000_0000,
                ;
            }
            let x: i64 = begin.0 as i64 + round_div_exec(k * dx, n);
            let y: i64 = begin.1 as i64 + round_div_exec(k * dy, n);
            proof {
                assert((x as int, y as int) == seg_point(begin, end, k as int));
            }
            if x >= 0 && y >= 0 && (x as u64) < (rows as u64) && (y as u64) < (cols as u64) {
                m.set(x as usize, y as usize, value);
            }
        }
        proof {
            assert forall|i: int, j: int|
                m.contains_index(i, j) implies #[trigger] m.cell(i, j) == (if exists|t: int|
                    0 <= t < k + 1 && #[trigger] seg_point(begin, end, t) == (i, j) && t % (
                    dot_step as int) == 0 {
                    value
                } else {
                    a.cell(i, j)
                }) by {
                if exists|t: int|
                    0 <= t < k + 1 && #[trigger] seg_point(begin, end, t) == (i, j) && t % (
                    dot_step as int) == 0 {
                    let t = choose|t: int|
                        0 <= t < k + 1 && #[trigger] seg_point(begin, end, t) == (i, j) && t % (
                        dot_step as int) == 0;
                    if t < k {
                        assert(m0.cell(i, j) == value);
                    }
                }
            }
        }
        k = k + 1;
    }
    proof {
        assert forall|i: int, j: int|
            m.contains_index(i, j) implies #[trigger] m.cell(i, j) == (if on_segment(
            begin,
            end,
            dot_step as int,
            i,
            j,
        ) {
            value
        } else {
            a.cell(i, j)
        }) by {
            if on_segment(begin, end, dot_step as int, i, j) {
                let t = choose|t: int|
                    0 <= t <= seg_steps(begin, end) && #[trigger] seg_point(begin, end, t) == (
                    i,
                    j,
                ) && t % (dot_step as int) == 0;
                assert(t < n + 1);
            }
        }
    }
    m
}


/// A path through same-valued neighbouring cells: consecutive entries are
/// neighbours, every entry lies inside the grid, and every entry holds the
/// value of the starting cell.
pub open spec fn is_region_path(a: Grid, s: Seq<(isize, isize)>, diagonals: bool) -> bool {
    &&& s.len() >= 1
    &&& forall|i: int|
        0 <= i < s.len() ==> a.contains_index((#[trigger] s[i]).0 as int, s[i].1 as int)
    &&& forall|i: int|
        0 <= i < s.len() ==> a.cell((#[trigger] s[i]).0 as int, s[i].1 as int) == a.cell(
            s[0].0 as int,
            s[0].1 as int,
        )
    &&& forall|i: int|
        0 < i < s.len() ==> spec_neighbors(
            s[i - 1],
            (a.rows as isize, a.cols as isize),
            diagonals,
        ).contains(#[trigger] s[i])
}

/// The cell `c` is connected to `from` through same-valued neighbours.
#[verifier::opaque]
pub open spec fn connected(a: Grid, from: (isize, isize), c: (isize, isize), diagonals: bool) -> bool {
    exists|s: Seq<(isize, isize)>|
        is_region_path(a, s, diagonals) && s[0] == from && s.last() == c
}

/// Collects the connected region of same-valued cells around `at`: every
/// returned cell is connected to `at` and holds its value, `at` comes
/// first, there are no duplicates, and the result is closed under
/// same-valued neighbours. An `at` outside the grid yields nothing.
/// The members of the worklist and the result are valid, same-valued,
/// connected and marked; marked cells are members; members are pairwise
/// distinct.
pub open spec fn dfs_inv(
    a: Grid,
    at: (isize, isize),
    v: i8,
    diagonals: bool,
    seen: Seq<bool>,
    stack: Seq<(isize, isize)>,
    indices: Seq<(isize, isize)>,
) -> bool {
    &&& seen.len() == a.rows * a.cols
    &&& forall|i: int|
        0 <= i < stack.len() ==> {
            &&& a.contains_index((#[trigger] stack[i]).0 as int, stack[i].1 as int)
            &&& a.cell(stack[i].0 as int, stack[i].1 as int) == v
            &&& connected(a, at, stack[i], diagonals)
            &&& seen[stack[i].0 as int * a.cols + stack[i].1 as int]
        }
    &&& forall|i: int|
        0 <= i < indices.len() ==> {
            &&& a.contains_index((#[trigger] indices[i]).0 as int, indices[i].1 as int)
            &&& a.cell(indices[i].0 as int, indices[i].1 as int) == v
            &&& connected(a, at, indices[i], diagonals)
            &&& seen[indices[i].0 as int * a.cols + indices[i].1 as int]
        }
    &&& forall|x: int, y: int|
        0 <= x < a.rows && 0 <= y < a.cols && seen[x * a.cols + y] ==> (contains_loc(stack, x, y)
            || contains_loc(indices, x, y))
    &&& forall|i: int, j: int| 0 <= i < j < stack.len() ==> stack[i] != stack[j]
    &&& forall|i: int, j: int| 0 <= i < j < indices.len() ==> indices[i] != indices[j]
    &&& forall|i: int, j: int|
        0 <= i < stack.len() && 0 <= j < indices.len() ==> stack[i] != indices[j]
}

/// Pushes the unseen same-valued neighbours of the result's newest cell
/// onto the worklist, marking them.
#[verifier::rlimit(100)]
#[verifier::spinoff_prover]
#[verifier::loop_isolation(true)]
fn visit_neighbors(
    a: &Grid,
    at: (isize, isize),
    v: i8,
    diagonals: bool,
    seen: &mut Vec<bool>,
    stack: &mut Vec<(isize, isize)>,
    indices: &Vec<(isize, isize)>,
)
    requires
        a.wf(),
        a.spec_rows() <= 0x4000_0000,
        a.spec_cols() <= 0x4000_0000,
        a.contains_index(at.0 as int, at.1 as int),
        v == a.cell(at.0 as int, at.1 as int),
        indices@.len() >= 1,
        dfs_inv(*a, at, v, diagonals, old(seen)@, old(stack)@, indices@),
        count_true(old(seen)@) <= old(seen)@.len(),
    ensures
        dfs_inv(*a, at, v, diagonals, final(seen)@, final(stack)@, indices@),
        count_true(final(seen)@) <= final(seen)@.len(),
        final(seen)@.len() - count_true(final(seen)@) + final(stack)@.len() == old(seen)@.len()
            - count_true(old(seen)@) + old(stack)@.len(),
        forall|q: (isize, isize)|
            spec_neighbors(
                indices@.last(),
                (a.rows as isize, a.cols as isize),
                diagonals,
            ).contains(q) && a.cell(q.0 as int, q.1 as int) == v ==> final(seen)@[q.0 as int
                * a.cols + q.1 as int],
        forall|t: int| 0 <= t < old(seen)@.len() && old(seen)@[t] ==> final(seen)@[t],
        final(seen)@.len() == old(seen)@.len(),
{
    let rows = a.nrows();
    let cols = a.ncols();
    let data_len = a.data.len();
    let ghost dims = (a.rows as isize, a.cols as isize);
    let loc = indices[indices.len() - 1];
    proof {
        assert(loc == indices@.last());
        assert(a.contains_index(loc.0 as int, loc.1 as int));
    }
    let nbs = neighbors(loc, (rows as isize, cols as isize), diagonals);
    let nn = nbs.len();
    let mut k: usize = 0;
    while k < nn
        invariant
            k <= nn,
            nn == nbs@.len(),
            a.wf(),
            rows == a.spec_rows(),
            cols == a.spec_cols(),
            rows <= 0x4000_0000,
            cols <= 0x4000_0000,
            data_len == rows * cols,
            dims == (a.rows as isize, a.cols as isize),
            a.contains_index(at.0 as int, at.1 as int),
            v == a.cell(at.0 as int, at.1 as int),
            indices@.len() >= 1,
            nbs@ == spec_neighbors(indices@.last(), dims, diagonals),
            dfs_inv(*a, at, v, diagonals, seen@, stack@, indices@),
            count_true(seen@) <= seen@.len(),
            seen@.len() - count_true(seen@) + stack@.len() == old(seen)@.len() - count_true(
                old(seen)@,
            ) + old(stack)@.len(),
            forall|p: int|
                0 <= p < k && a.cell((#[trigger] nbs@[p]).0 as int, nbs@[p].1 as int) == v
                    ==> seen@[nbs@[p].0 as int * cols + nbs@[p].1 as int],
            forall|t: int| 0 <= t < old(seen)@.len() && old(seen)@[t] ==> seen@[t],
            seen@.len() == old(seen)@.len(),
        decreases nn - k,
    {
        let nb = nbs[k];
        proof {
            lemma_neighbor_in_bounds(indices@.last(), dims, diagonals, nbs@[k as int]);
        }
        let ghost sb = seen@;
        mark_neighbor(a, at, v, diagonals, nb, seen, stack, indices);
        proof {
            assert forall|p: int|
                0 <= p < k + 1 && a.cell((#[trigger] nbs@[p]).0 as int, nbs@[p].1 as int) == v
                    implies seen@[nbs@[p].0 as int * cols + nbs@[p].1 as int] by {
                if p < k {
                    lemma_neighbor_in_bounds(indices@.last(), dims, diagonals, nbs@[p]);
                    crate::grid::lemma_row_major_in_range(
                        nbs@[p].0 as int,
                        nbs@[p].1 as int,
                        rows as int,
                        cols as int,
                    );
                    assert(sb[nbs@[p].0 as int * cols + nbs@[p].1 as int]);
                }
            }
        }
        k += 1;
    }
}

/// A same-valued neighbour of a connected cell is connected.
#[verifier::spinoff_prover]
proof fn lemma_connected_step(
    a: Grid,
    at: (isize, isize),
    c: (isize, isize),
    nb: (isize, isize),
    diagonals: bool,
)
    requires
        connected(a, at, c, diagonals),
        spec_neighbors(c, (a.rows as isize, a.cols as isize), diagonals).contains(nb),
        a.contains_index(nb.0 as int, nb.1 as int),
        a.cell(nb.0 as int, nb.1 as int) == a.cell(at.0 as int, at.1 as int),
        a.contains_index(at.0 as int, at.1 as int),
        a.cell(c.0 as int, c.1 as int) == a.cell(at.0 as int, at.1 as int),
    ensures
        connected(a, at, nb, diagonals),
{
    reveal(connected);
    let p = choose|p: Seq<(isize, isize)>|
        is_region_path(a, p, diagonals) && p[0] == at && p.last() == c;
    let p2 = p.push(nb);
    assert(is_region_path(a, p2, diagonals)) by {
        assert(forall|i: int| 0 <= i < p.len() ==> p2[i] == p[i]);
        assert(p2.last() == nb);
        assert(p2[p.len() as int] == nb);
        assert(spec_neighbors(p.last(), (a.rows as isize, a.cols as isize), diagonals).contains(
            nb,
        ));
    }
    assert(p2[0] == at && p2.last() == nb);
}

/// Marking and pushing a fresh, valid, same-valued, connected neighbour
/// keeps the search invariant.
#[verifier::rlimit(100)]
#[verifier::spinoff_prover]
proof fn lemma_dfs_push(
    a: Grid,
    at: (isize, isize),
    v: i8,
    diagonals: bool,
    nb: (isize, isize),
    pseen: Seq<bool>,
    pstack: Seq<(isize, isize)>,
    indices: Seq<(isize, isize)>,
)
    requires
        a.wf(),
        dfs_inv(a, at, v, diagonals, pseen, pstack, indices),
        a.contains_index(nb.0 as int, nb.1 as int),
        a.cell(nb.0 as int, nb.1 as int) == v,
        connected(a, at, nb, diagonals),
        !pseen[nb.0 as int * a.cols + nb.1 as int],
        !contains_loc(pstack, nb.0 as int, nb.1 as int),
        !contains_loc(indices, nb.0 as int, nb.1 as int),
    ensures
        dfs_inv(
            a,
            at,
            v,
            diagonals,
            pseen.update(nb.0 as int * a.cols + nb.1 as int, true),
            pstack.push(nb),
            indices,
        ),
{
    let pos = nb.0 as int * a.cols + nb.1 as int;
    let seen2 = pseen.update(pos, true);
    let stack2 = pstack.push(nb);
    let rows = a.rows as int;
    let cols = a.cols as int;
    crate::grid::lemma_row_major_in_range(nb.0 as int, nb.1 as int, rows, cols);
    assert forall|i: int|
        0 <= i < stack2.len() implies {
        &&& a.contains_index((#[trigger] stack2[i]).0 as int, stack2[i].1 as int)
        &&& a.cell(stack2[i].0 as int, stack2[i].1 as int) == v
        &&& connected(a, at, stack2[i], diagonals)
        &&& seen2[stack2[i].0 as int * a.cols + stack2[i].1 as int]
    } by {
        if i < pstack.len() {
            assert(stack2[i] == pstack[i]);
            crate::grid::lemma_row_major_in_range(
                pstack[i].0 as int,
                pstack[i].1 as int,
                rows,
                cols,
            );
            assert(pseen[pstack[i].0 as int * a.cols + pstack[i].1 as int]);
        } else {
            assert(stack2[i] == nb);
        }
    }
    assert forall|i: int|
        0 <= i < indices.len() implies seen2[(#[trigger] indices[i]).0 as int * a.cols
        + indices[i].1 as int] by {
        crate::grid::lemma_row_major_in_range(indices[i].0 as int, indices[i].1 as int, rows, cols);
        assert(pseen[indices[i].0 as int * a.cols + indices[i].1 as int]);
    }
    assert forall|x: int, y: int|
        0 <= x < a.rows && 0 <= y < a.cols && seen2[x * a.cols + y] implies (contains_loc(
        stack2,
        x,
        y,
    ) || contains_loc(indices, x, y)) by {
        crate::grid::lemma_row_major_in_range(x, y, rows, cols);
        if x * a.cols + y == pos {
            crate::grid::lemma_row_major_injective(x, y, nb.0 as int, nb.1 as int, cols);
            assert(stack2.last() == nb);
            assert(contains_loc(stack2, x, y));
        } else {
            assert(pseen[x * a.cols + y]);
            if contains_loc(pstack, x, y) {
                let w = choose|w: int|
                    0 <= w < pstack.len() && (#[trigger] pstack[w]).0 == x && pstack[w].1 == y;
                assert(stack2[w] == pstack[w]);
                assert(contains_loc(stack2, x, y));
            }
        }
    }
    assert forall|i: int, j: int| 0 <= i < j < stack2.len() implies stack2[i] != stack2[j] by {
        if j < pstack.len() {
            assert(stack2[i] == pstack[i] && stack2[j] == pstack[j]);
        } else {
            assert(stack2[j] == nb && stack2[i] == pstack[i]);
            if stack2[i] == nb {
                assert(contains_loc(pstack, nb.0 as int, nb.1 as int));
            }
        }
    }
    assert forall|i: int, j: int|
        0 <= i < stack2.len() && 0 <= j < indices.len() implies stack2[i] != indices[j] by {
        if i < pstack.len() {
            assert(stack2[i] == pstack[i]);
        } else {
            assert(stack2[i] == nb);
            if indices[j] == nb {
                assert(contains_loc(indices, nb.0 as int, nb.1 as int));
            }
        }
    }
}

/// Marks one same-valued unseen neighbour and puts it on the worklist.
#[verifier::rlimit(100)]
#[verifier::spinoff_prover]
fn mark_neighbor(
    a: &Grid,
    at: (isize, isize),
    v: i8,
    diagonals: bool,
    nb: (isize, isize),
    seen: &mut Vec<bool>,
    stack: &mut Vec<(isize, isize)>,
    indices: &Vec<(isize, isize)>,
)
    requires
        a.wf(),
        a.spec_rows() <= 0x4000_0000,
        a.spec_cols() <= 0x4000_0000,
        a.contains_index(at.0 as int, at.1 as int),
        v == a.cell(at.0 as int, at.1 as int),
        indices@.len() >= 1,
        a.contains_index(nb.0 as int, nb.1 as int),
        spec_neighbors(
            indices@.last(),
            (a.rows as isize, a.cols as isize),
            diagonals,
        ).contains(nb),
        connected(*a, at, indices@.last(), diagonals),
        a.cell(indices@.last().0 as int, indices@.last().1 as int) == v,
        dfs_inv(*a, at, v, diagonals, old(seen)@, old(stack)@, indices@),
        count_true(old(seen)@) <= old(seen)@.len(),
    ensures
        dfs_inv(*a, at, v, diagonals, final(seen)@, final(stack)@, indices@),
        count_true(final(seen)@) <= final(seen)@.len(),
        final(seen)@.len() - count_true(final(seen)@) + final(stack)@.len() == old(seen)@.len()
            - count_true(old(seen)@) + old(stack)@.len(),
        a.cell(nb.0 as int, nb.1 as int) == v ==> final(seen)@[nb.0 as int * a.cols
            + nb.1 as int],
        forall|t: int| 0 <= t < old(seen)@.len() && old(seen)@[t] ==> final(seen)@[t],
        final(seen)@.len() == old(seen)@.len(),
{
    let rows = a.nrows();
    let cols = a.ncols();
    let data_len = a.data.len();
    proof {
        crate::grid::lemma_row_major_in_range(nb.0 as int, nb.1 as int, rows as int, cols as int);
    }
    let cell_value = a.get(nb.0 as usize, nb.1 as usize);
    if cell_value == v {
        let pos = nb.0 as usize * cols + nb.1 as usize;
        if !seen[pos] {
            proof {
                lemma_count_true_update(seen@, pos as int);
                assert(!contains_loc(stack@, nb.0 as int, nb.1 as int)) by {
                    if contains_loc(stack@, nb.0 as int, nb.1 as int) {
                        let w = choose|w: int|
                            0 <= w < stack@.len() && (#[trigger] stack@[w]).0 == nb.0 as int
                                && stack@[w].1 == nb.1 as int;
                        assert(seen@[stack@[w].0 as int * cols + stack@[w].1 as int]);
                    }
                }
                assert(!contains_loc(indices@, nb.0 as int, nb.1 as int)) by {
                    if contains_loc(indices@, nb.0 as int, nb.1 as int) {
                        let w = choose|w: int|
                            0 <= w < indices@.len() && (#[trigger] indices@[w]).0 == nb.0 as int
                                && indices@[w].1 == nb.1 as int;
                        assert(seen@[indices@[w].0 as int * cols + indices@[w].1 as int]);
                    }
                }
                lemma_connected_step(*a, at, indices@.last(), nb, diagonals);
                lemma_dfs_push(*a, at, v, diagonals, nb, seen@, stack@, indices@);
            }
            stack.push(nb);
            seen.set(pos, true);
        }
    }
}

/// Collects the connected region of same-valued cells around `at`: every
/// returned cell is connected to `at` and holds its value, `at` comes
/// first, there are no duplicates, and the result is closed under
/// same-valued neighbours. An `at` outside the grid yields nothing.
#[verifier::rlimit(100)]
#[verifier::spinoff_prover]
#[verifier::loop_isolation(true)]
pub fn region(a: &Grid, at: (isize, isize), diagonals: bool) -> (r: Vec<(isize, isize)>)
    requires
        a.wf(),
        a.spec_rows() <= 0x4000_0000,
        a.spec_cols() <= 0x4000_0000,
    ensures
        !a.contains_index(at.0 as int, at.1 as int) ==> r@.len() == 0,
        a.contains_index(at.0 as int, at.1 as int) ==> r@.len() >= 1 && r@[0] == at,
        forall|i: int|
            0 <= i < r@.len() ==> {
                &&& a.contains_index((#[trigger] r@[i]).0 as int, r@[i].1 as int)
                &&& a.cell(r@[i].0 as int, r@[i].1 as int) == a.cell(at.0 as int, at.1 as int)
                &&& connected(*a, at, r@[i], diagonals)
            },
        forall|i: int, j: int| 0 <= i < j < r@.len() ==> r@[i] != r@[j],
        forall|i: int, q: (isize, isize)|
            #![trigger spec_neighbors(r@[i], (a.rows as isize, a.cols as isize), diagonals).contains(q)]
            0 <= i < r@.len() && spec_neighbors(
                r@[i],
                (a.rows as isize, a.cols as isize),
                diagonals,
            ).contains(q) && a.cell(q.0 as int, q.1 as int) == a.cell(at.0 as int, at.1 as int)
                ==> contains_loc(r@, q.0 as int, q.1 as int),
{
    let mut indices: Vec<(isize, isize)> = Vec::new();
    if !valid_index(a, at) {
        return indices;
    }
    let rows = a.nrows();
    let cols = a.ncols();
    let v = a.get(at.0 as usize, at.1 as usize);
    let mut seen: Vec<bool> = Vec::new();
    let data_len = a.data.len();
    proof {
        assert(data_len == rows * cols);
    }
    let total = rows * cols;
    let mut t: usize = 0;
    while t < total
        invariant
            t <= total,
            seen@.len() == t,
            forall|p: int| 0 <= p < t ==> !(#[trigger] seen@[p]),
            count_true(seen@) == 0,
        decreases total - t,
    {
        let ghost s0 = seen@;
        seen.push(false);
        proof {
            assert(seen@.drop_last() =~= s0);
        }
        t += 1;
    }
    let mut stack: Vec<(isize, isize)> = Vec::new();
    stack.push(at);
    proof {
        crate::grid::lemma_row_major_in_range(at.0 as int, at.1 as int, rows as int, cols as int);
        lemma_count_true_update(seen@, at.0 as int * cols + at.1 as int);
    }
    seen.set(at.0 as usize * cols + at.1 as usize, true);
    let ghost dims = (a.rows as isize, a.cols as isize);
    proof {
        reveal(connected);
        assert(is_region_path(*a, seq![at], diagonals));
        assert(seq![at][0] == at && seq![at].last() == at);
        assert(connected(*a, at, at, diagonals));
        assert forall|x: int, y: int|
            0 <= x < rows && 0 <= y < cols && seen@[x * cols + y] implies (contains_loc(
            stack@,
            x,
            y,
        ) || contains_loc(indices@, x, y)) by {
            crate::grid::lemma_row_major_in_range(x, y, rows as int, cols as int);
            if x * cols + y == at.0 as int * cols + at.1 as int {
                crate::grid::lemma_row_major_injective(
                    x,
                    y,
                    at.0 as int,
                    at.1 as int,
                    cols as int,
                );
                assert(stack@[0] == at);
                assert(contains_loc(stack@, x, y));
            }
        }
        lemma_count_true_bound(seen@);
        assert(dfs_inv(*a, at, v, diagonals, seen@, stack@, indices@));
    }
    while stack.len() > 0
        invariant
            a.wf(),
            rows == a.spec_rows(),
            cols == a.spec_cols(),
            rows <= 0x4000_0000,
            cols <= 0x4000_0000,
            data_len == rows * cols,
            dims == (a.rows as isize, a.cols as isize),
            a.contains_index(at.0 as int, at.1 as int),
            v == a.cell(at.0 as int, at.1 as int),
            dfs_inv(*a, at, v, diagonals, seen@, stack@, indices@),
            count_true(seen@) <= seen@.len(),
            forall|i: int, q: (isize, isize)|
                #![trigger spec_neighbors(indices@[i], dims, diagonals).contains(q)]
                0 <= i < indices@.len() && spec_neighbors(
                    indices@[i],
                    dims,
                    diagonals,
                ).contains(q) && a.cell(q.0 as int, q.1 as int) == v ==> seen@[q.0 as int * cols
                    + q.1 as int],
            indices@.len() == 0 ==> stack@.len() == 1 && stack@[0] == at,
            indices@.len() >= 1 ==> indices@[0] == at,
        decreases seen@.len() - count_true(seen@) + stack@.len(),
    {
        let ghost ostack = stack@;
        let ghost oind = indices@;
        let ghost oseen = seen@;
        let loc = stack.pop().unwrap();
        indices.push(loc);
        proof {
            assert(indices@.last() == loc);
            assert(stack@ =~= ostack.drop_last());
            assert forall|x: int, y: int|
                0 <= x < rows && 0 <= y < cols && seen@[x * cols + y] implies (contains_loc(
                stack@,
                x,
                y,
            ) || contains_loc(indices@, x, y)) by {
                if contains_loc(ostack, x, y) {
                    let w = choose|w: int|
                        0 <= w < ostack.len() && (#[trigger] ostack[w]).0 == x && ostack[w].1 == y;
                    if w < ostack.len() - 1 {
                        assert(stack@[w] == ostack[w]);
                        assert(contains_loc(stack@, x, y));
                    } else {
                        assert(indices@.last() == ostack[w]);
                        assert(contains_loc(indices@, x, y));
                    }
                } else {
                    let w = choose|w: int|
                        0 <= w < oind.len() && (#[trigger] oind[w]).0 == x && oind[w].1 == y;
                    assert(indices@[w] == oind[w]);
                    assert(contains_loc(indices@, x, y));
                }
            }
            assert(dfs_inv(*a, at, v, diagonals, seen@, stack@, indices@));
        }
        visit_neighbors(a, at, v, diagonals, &mut seen, &mut stack, &indices);
        proof {
            assert forall|i: int, q: (isize, isize)|
                #![trigger spec_neighbors(indices@[i], dims, diagonals).contains(q)]
                0 <= i < indices@.len() && spec_neighbors(
                    indices@[i],
                    dims,
                    diagonals,
                ).contains(q) && a.cell(q.0 as int, q.1 as int) == v implies seen@[q.0 as int
                * cols + q.1 as int] by {
                lemma_neighbor_in_bounds(indices@[i], dims, diagonals, q);
                if i < indices@.len() - 1 {
                    crate::grid::lemma_row_major_in_range(
                        q.0 as int,
                        q.1 as int,
                        rows as int,
                        cols as int,
                    );
                    assert(0 <= q.0 as int * cols + q.1 as int);
                    assert((q.0 as int * cols + q.1 as int) < oseen.len());
                    assert(oseen[q.0 as int * cols + q.1 as int]);
                    assert(forall|t: int| 0 <= t < oseen.len() && oseen[t] ==> seen@[t]);
                    assert(seen@[q.0 as int * cols + q.1 as int]);
                }
            }
        }
    }
    proof {
        assert forall|i: int, q: (isize, isize)|
            #![trigger spec_neighbors(indices@[i], dims, diagonals).contains(q)]
            0 <= i < indices@.len() && spec_neighbors(
                indices@[i],
                dims,
                diagonals,
            ).contains(q) && a.cell(q.0 as int, q.1 as int) == v implies contains_loc(
            indices@,
            q.0 as int,
            q.1 as int,
        ) by {
            lemma_neighbor_in_bounds(indices@[i], dims, diagonals, q);
            assert(seen@[q.0 as int * cols + q.1 as int]);
        }
    }
    indices
}

/// Every listed neighbour lies inside the bounds.
#[verifier::rlimit(100)]
#[verifier::spinoff_prover]
proof fn lemma_neighbor_in_bounds(
    loc: (isize, isize),
    size: (isize, isize),
    diagonals: bool,
    q: (isize, isize),
)
    requires
        spec_neighbors(loc, size, diagonals).contains(q),
    ensures
        0 <= q.0 < size.0,
        0 <= q.1 < size.1,
{
    let s = spec_neighbors(loc, size, diagonals);
    let w = choose|w: int| 0 <= w < s.len() && s[w] == q;
}

/// The number of set entries in a boolean vector.
pub open spec fn count_true(s: Seq<bool>) -> int
    decreases s.len(),
{
    if s.len() == 0 {
        0
    } else {
        count_true(s.drop_last()) + (if s.last() {
            1int
        } else {
            0int
        })
    }
}

/// Setting an unset entry raises the count by one; the count never exceeds
/// the length.
proof fn lemma_count_true_update(s: Seq<bool>, i: int)
    requires
        0 <= i < s.len(),
        !s[i],
    ensures
        count_true(s.update(i, true)) == count_true(s) + 1,
        count_true(s) < s.len(),
    decreases s.len(),
{
    if i == s.len() - 1 {
        assert(s.update(i, true).drop_last() =~= s.drop_last());
        lemma_count_true_bound(s.drop_last());
    } else {
        assert(s.update(i, true).drop_last() =~= s.drop_last().update(i, true));
        lemma_count_true_update(s.drop_last(), i);
    }
}

/// The count of set entries never exceeds the length.
proof fn lemma_count_true_bound(s: Seq<bool>)
    ensures
        0 <= count_true(s) <= s.len(),
    decreases s.len(),
{
    if s.len() > 0 {
        lemma_count_true_bound(s.drop_last());
    }
}


/// Ascending lexicographic order on coordinates.
pub open spec fn loc_le(a: (isize, isize), b: (isize, isize)) -> bool {
    a.0 < b.0 || (a.0 == b.0 && a.1 <= b.1)
}

/// The coordinate list is in ascending lexicographic order.
pub open spec fn locs_sorted(s: Seq<(isize, isize)>) -> bool {
    forall|p: int, q: int| 0 <= p < q < s.len() ==> loc_le(#[trigger] s[p], #[trigger] s[q])
}

/// Sorts coordinates ascending, keeping exactly the same coordinates.
fn sort_locs(v: Vec<(isize, isize)>) -> (r: Vec<(isize, isize)>)
    ensures
        r@.len() == v@.len(),
        locs_sorted(r@),
        forall|x: (isize, isize)| r@.contains(x) <==> v@.contains(x),
{
    let ghost total = v@.len();
    let ghost v0 = v@;
    let mut rest = v;
    let mut result: Vec<(isize, isize)> = Vec::new();
    while rest.len() > 0
        invariant
            locs_sorted(result@),
            rest@.len() + result@.len() == total,
            forall|x: (isize, isize)|
                v0.contains(x) <==> rest@.contains(x) || result@.contains(x),
        decreases rest@.len(),
    {
        let ghost rest0 = rest@;
        let c = rest.remove(0);
        let n = result.len();
        let mut pos: usize = 0;
        while pos < n
            invariant
                pos <= n,
                n == result@.len(),
                forall|p: int| 0 <= p < pos ==> loc_le(#[trigger] result@[p], c),
            decreases n - pos,
        {
            let e = result[pos];
            if !(e.0 < c.0 || (e.0 == c.0 && e.1 <= c.1)) {
                break ;
            }
            pos += 1;
        }
        let ghost before = result@;
        result.insert(pos, c);
        proof {
            assert forall|p: int, q: int|
                0 <= p < q < result@.len() implies loc_le(
                #[trigger] result@[p],
                #[trigger] result@[q],
            ) by {
                let cp = if p < pos {
                    before[p]
                } else if p == pos {
                    c
                } else {
                    before[p - 1]
                };
                let cq = if q < pos {
                    before[q]
                } else if q == pos {
                    c
                } else {
                    before[q - 1]
                };
                assert(result@[p] == cp);
                assert(result@[q] == cq);
                if pos < before.len() && (p == pos || q > pos) {
                    assert(!loc_le(before[pos as int], c) || pos == before.len());
                }
            }
            assert forall|x: (isize, isize)|
                v0.contains(x) implies rest@.contains(x) || result@.contains(x) by {
                if rest0.contains(x) {
                    let w = choose|w: int| 0 <= w < rest0.len() && rest0[w] == x;
                    if w == 0 {
                        assert(result@[pos as int] == c);
                        assert(result@.contains(x));
                    } else {
                        assert(rest@[w - 1] == rest0[w]);
                        assert(rest@.contains(x));
                    }
                } else if before.contains(x) {
                    let w = choose|w: int| 0 <= w < before.len() && before[w] == x;
                    if w < pos {
                        assert(result@[w] == before[w]);
                    } else {
                        assert(result@[w + 1] == before[w]);
                    }
                    assert(result@.contains(x));
                }
            }
            assert forall|x: (isize, isize)|
                rest@.contains(x) || result@.contains(x) implies v0.contains(x) by {
                if rest@.contains(x) {
                    let w = choose|w: int| 0 <= w < rest@.len() && rest@[w] == x;
                    assert(rest0[w + 1] == x);
                    assert(rest0.contains(x));
                } else {
                    let w = choose|w: int| 0 <= w < result@.len() && result@[w] == x;
                    if w == pos {
                        assert(rest0[0] == x);
                        assert(rest0.contains(x));
                    } else if w < pos {
                        assert(before[w] == x);
                        assert(before.contains(x));
                    } else {
                        assert(before[w - 1] == x);
                        assert(before.contains(x));
                    }
                }
            }
        }
    }
    result
}

/// One sorted region of a grid: non-empty, ascending, every cell inside the
/// grid, and all cells connected (through same-valued neighbours) to one of
/// its members.
pub open spec fn region_entry_ok(g: Seq<(isize, isize)>, m: Grid, diagonals: bool) -> bool {
    &&& g.len() >= 1
    &&& m.contains_index(g[0].0 as int, g[0].1 as int)
    &&& locs_sorted(g)
    &&& forall|c: int|
        0 <= c < g.len() ==> m.contains_index((#[trigger] g[c]).0 as int, g[c].1 as int)
    &&& exists|a: (isize, isize)|
        g.contains(a) && (forall|c: int| 0 <= c < g.len() ==> connected(m, a, #[trigger] g[c], diagonals))
}

/// Some collected region contains the cell.
pub open spec fn cell_covered(result: Seq<Vec<(isize, isize)>>, x: int, y: int) -> bool {
    exists|g: int| 0 <= g < result.len() && contains_loc((#[trigger] result[g])@, x, y)
}

/// Every marked cell belongs to some collected region.
pub open spec fn covered_by_regions(
    covered: Seq<bool>,
    result: Seq<Vec<(isize, isize)>>,
    rows: int,
    cols: int,
) -> bool {
    forall|x: int, y: int|
        #![trigger covered[x * cols + y]]
        0 <= x < rows && 0 <= y < cols && covered[x * cols + y] ==> exists|g: int|
            0 <= g < result.len() && contains_loc((#[trigger] result[g])@, x, y)
}

/// Splits a grid into regions: scanning the cells in row-major order, each
/// not yet covered cell contributes the connected same-valued region around
/// it, sorted ascending. Every region is non-empty, lies inside the grid,
/// and is connected around its seed.
#[verifier::rlimit(100)]
#[verifier::spinoff_prover]
pub fn region_set(m: &Grid, diagonals: bool) -> (r: Vec<Vec<(isize, isize)>>)
    requires
        m.wf(),
        m.spec_rows() <= 0x4000_0000,
        m.spec_cols() <= 0x4000_0000,
    ensures
        forall|g: int| 0 <= g < r@.len() ==> region_entry_ok((#[trigger] r@[g])@, *m, diagonals),
        forall|x: int, y: int|
            #![trigger cell_covered(r@, x, y)]
            0 <= x < m.spec_rows() && 0 <= y < m.spec_cols() ==> cell_covered(r@, x, y),
{
    let rows = m.nrows();
    let cols = m.ncols();
    let data_len = m.data.len();
    proof {
        assert(data_len == rows * cols);
    }
    let mut covered: Vec<bool> = Vec::new();
    let total = rows * cols;
    let mut t: usize = 0;
    while t < total
        invariant
            t <= total,
            covered@.len() == t,
            forall|p: int| 0 <= p < t ==> !(#[trigger] covered@[p]),
        decreases total - t,
    {
        covered.push(false);
        t += 1;
    }
    let mut result: Vec<Vec<(isize, isize)>> = Vec::new();
    proof {
        assert(covered_by_regions(covered@, result@, rows as int, cols as int)) by {
            assert forall|x: int, y: int|
                #![trigger covered@[x * cols + y]]
                0 <= x < rows && 0 <= y < cols && covered@[x * cols + y] implies exists|g: int|
                0 <= g < result@.len() && contains_loc((#[trigger] result@[g])@, x, y) by {
                crate::grid::lemma_row_major_in_range(x, y, rows as int, cols as int);
                assert(!covered@[x * cols + y]);
            }
        }
    }
    let mut i: usize = 0;
    while i < rows
        invariant
            i <= rows,
            m.wf(),
            rows == m.spec_rows(),
            cols == m.spec_cols(),
            rows <= 0x4000_0000,
            cols <= 0x4000_0000,
            data_len == rows * cols,
            covered@.len() == rows * cols,
            forall|g: int|
                0 <= g < result@.len() ==> region_entry_ok((#[trigger] result@[g])@, *m, diagonals),
            covered_by_regions(covered@, result@, rows as int, cols as int),
            forall|x: int, y: int|
                #![trigger covered@[x * cols + y]]
                0 <= x < i && 0 <= y < cols ==> covered@[x * cols + y],
        decreases rows - i,
    {
        let mut j: usize = 0;
        while j < cols
            invariant
                j <= cols,
                i < rows,
                m.wf(),
                rows == m.spec_rows(),
                cols == m.spec_cols(),
                rows <= 0x4000_0000,
                cols <= 0x4000_0000,
                data_len == rows * cols,
                covered@.len() == rows * cols,
                forall|g: int|
                    0 <= g < result@.len() ==> region_entry_ok(
                        (#[trigger] result@[g])@,
                        *m,
                        diagonals,
                    ),
                covered_by_regions(covered@, result@, rows as int, cols as int),
                forall|x: int, y: int|
                    #![trigger covered@[x * cols + y]]
                    0 <= x < i && 0 <= y < cols ==> covered@[x * cols + y],
                forall|y: int|
                    #![trigger covered@[i * cols + y]]
                    0 <= y < j ==> covered@[i * cols + y],
            decreases cols - j,
        {
            proof {
                crate::grid::lemma_row_major_in_range(i as int, j as int, rows as int, cols as int);
            }
            let pos = i * cols + j;
            if !covered[pos] {
                let rg = region(m, (i as isize, j as isize), diagonals);
                let rl = rg.len();
                let ghost cov0 = covered@;
                let mut c: usize = 0;
                while c < rl
                    invariant
                        c <= rl,
                        rl == rg@.len(),
                        rl >= 1,
                        m.wf(),
                        rows == m.spec_rows(),
                        cols == m.spec_cols(),
                        data_len == rows * cols,
                        covered@.len() == rows * cols,
                        rg@[0] == (i as isize, j as isize),
                        forall|p: int|
                            0 <= p < rg@.len() ==> m.contains_index(
                                (#[trigger] rg@[p]).0 as int,
                                rg@[p].1 as int,
                            ),
                        forall|t0: int|
                            0 <= t0 < covered@.len() && cov0[t0] ==> #[trigger] covered@[t0],
                        forall|x: int, y: int|
                            #![trigger covered@[x * cols + y]]
                            0 <= x < rows && 0 <= y < cols && covered@[x * cols + y] ==> cov0[x
                                * cols + y] || contains_loc(rg@, x, y),
                        forall|p: int|
                            0 <= p < c ==> #[trigger] covered@[rg@[p].0 as int * cols
                                + rg@[p].1 as int],
                    decreases rl - c,
                {
                    let cell = rg[c];
                    proof {
                        crate::grid::lemma_row_major_in_range(
                            cell.0 as int,
                            cell.1 as int,
                            rows as int,
                            cols as int,
                        );
                    }
                    let ghost cv = covered@;
                    covered.set(cell.0 as usize * cols + cell.1 as usize, true);
                    proof {
                        assert forall|p: int|
                            0 <= p < c + 1 implies #[trigger] covered@[rg@[p].0 as int * cols
                            + rg@[p].1 as int] by {
                            crate::grid::lemma_row_major_in_range(
                                rg@[p].0 as int,
                                rg@[p].1 as int,
                                rows as int,
                                cols as int,
                            );
                            if p < c {
                                assert(cv[rg@[p].0 as int * cols + rg@[p].1 as int]);
                            } else {
                                assert(rg@[p] == cell);
                            }
                        }
                        assert forall|x: int, y: int|
                            0 <= x < rows && 0 <= y < cols && covered@[x * cols + y] implies cov0[x
                            * cols + y] || contains_loc(rg@, x, y) by {
                            crate::grid::lemma_row_major_in_range(x, y, rows as int, cols as int);
                            if x * cols + y == cell.0 as int * cols + cell.1 as int {
                                crate::grid::lemma_row_major_injective(
                                    x,
                                    y,
                                    cell.0 as int,
                                    cell.1 as int,
                                    cols as int,
                                );
                                assert(rg@[c as int] == cell);
                                assert(contains_loc(rg@, x, y));
                            } else {
                                assert(cv[x * cols + y]);
                            }
                        }
                    }
                    c += 1;
                }
                let ghost rg0 = rg@;
                let sorted_rg = sort_locs(rg);
                proof {
                    assert(region_entry_ok(sorted_rg@, *m, diagonals)) by {
                        assert(rg0.contains(rg0[0]));
                        assert(sorted_rg@.contains(rg0[0]));
                        assert forall|cc: int|
                            0 <= cc < sorted_rg@.len() implies m.contains_index(
                            (#[trigger] sorted_rg@[cc]).0 as int,
                            sorted_rg@[cc].1 as int,
                        ) && connected(*m, rg0[0], sorted_rg@[cc], diagonals) by {
                            assert(sorted_rg@.contains(sorted_rg@[cc]));
                            assert(rg0.contains(sorted_rg@[cc]));
                            let w = choose|w: int|
                                0 <= w < rg0.len() && rg0[w] == sorted_rg@[cc];
                            assert(m.contains_index(rg0[w].0 as int, rg0[w].1 as int));
                            assert(connected(*m, (i as isize, j as isize), rg0[w], diagonals));
                            assert(rg0[0] == (i as isize, j as isize));
                        }
                    }
                }
                let ghost res0 = result@;
                result.push(sorted_rg);
                proof {
                    assert forall|x: int, y: int|
                        #![trigger covered@[x * cols + y]]
                        0 <= x < rows && 0 <= y < cols && covered@[x * cols + y] implies exists|
                        g: int,
                    |
                        0 <= g < result@.len() && contains_loc((#[trigger] result@[g])@, x, y) by {
                        assert(0 <= x * cols + y < covered@.len()) by {
                            crate::grid::lemma_row_major_in_range(x, y, rows as int, cols as int);
                        }
                        if cov0[x * cols + y] {
                            let g0 = choose|g0: int|
                                0 <= g0 < res0.len() && contains_loc((#[trigger] res0[g0])@, x, y);
                            assert(result@[g0] == res0[g0]);
                            assert(contains_loc(result@[g0]@, x, y));
                        } else {
                            assert(contains_loc(rg0, x, y));
                            let w = choose|w: int|
                                0 <= w < rg0.len() && (#[trigger] rg0[w]).0 == x && rg0[w].1 == y;
                            assert(rg0.contains(rg0[w]));
                            assert(sorted_rg@.contains(rg0[w]));
                            let w2 = choose|w2: int|
                                0 <= w2 < sorted_rg@.len() && sorted_rg@[w2] == rg0[w];
                            assert(result@[result@.len() - 1] == sorted_rg);
                            assert(contains_loc(result@[result@.len() - 1]@, x, y));
                        }
                    }
                    assert(covered_by_regions(covered@, result@, rows as int, cols as int));
                    assert(covered@[i * cols + j]) by {
                        assert(covered@[rg0[0].0 as int * cols + rg0[0].1 as int]);
                    }
                    assert forall|x: int, y: int|
                        #![trigger covered@[x * cols + y]]
                        0 <= x < i && 0 <= y < cols implies covered@[x * cols + y] by {
                        crate::grid::lemma_row_major_in_range(x, y, rows as int, cols as int);
                        assert(cov0[x * cols + y]);
                    }
                    assert forall|y: int|
                        #![trigger covered@[i * cols + y]]
                        0 <= y < j implies covered@[i * cols + y] by {
                        crate::grid::lemma_row_major_in_range(i as int, y, rows as int, cols as int);
                        assert(cov0[i * cols + y]);
                    }
                }
            }
            j += 1;
        }
        i += 1;
    }
    proof {
        assert forall|x: int, y: int|
            #![trigger cell_covered(result@, x, y)]
            0 <= x < m.spec_rows() && 0 <= y < m.spec_cols() implies cell_covered(
            result@,
            x,
            y,
        ) by {
            crate::grid::lemma_row_major_in_range(x, y, rows as int, cols as int);
            assert(covered@[x * cols + y]);
            let g0 = choose|g0: int|
                0 <= g0 < result@.len() && contains_loc((#[trigger] result@[g0])@, x, y);
            assert(0 <= g0 < result@.len() && contains_loc(result@[g0]@, x, y));
        }
    }
    result
}

/// The lexicographically least coordinate in a non-empty list.
fn min_loc(s: &Vec<(isize, isize)>) -> (r: (isize, isize))
    requires
        s@.len() >= 1,
    ensures
        contains_loc(s@, r.0 as int, r.1 as int),
{
    let mut best = s[0];
    proof {
        assert(s@[0] == best);
    }
    let n = s.len();
    let mut k: usize = 1;
    while k < n
        invariant
            1 <= k <= n,
            n == s@.len(),
            contains_loc(s@, best.0 as int, best.1 as int),
        decreases n - k,
    {
        let c = s[k];
        if c.0 < best.0 || (c.0 == best.0 && c.1 < best.1) {
            best = c;
            proof {
                assert(s@[k as int] == best);
            }
        }
        k += 1;
    }
    best
}

/// A list contains a coordinate.
fn contains_loc_exec(s: &Vec<(isize, isize)>, c: (isize, isize)) -> (r: bool)
    ensures
        r == contains_loc(s@, c.0 as int, c.1 as int),
{
    let n = s.len();
    let mut k: usize = 0;
    while k < n
        invariant
            k <= n,
            n == s@.len(),
            forall|p: int| 0 <= p < k ==> !((#[trigger] s@[p]).0 == c.0 && s@[p].1 == c.1),
        decreases n - k,
    {
        let e = s[k];
        if e.0 == c.0 && e.1 == c.1 {
            proof {
                assert(s@[k as int] == e);
            }
            return true;
        }
        k += 1;
    }
    false
}

/// The pair consists of two distinct non-empty regions of the list, in
/// either order.
pub open spec fn pair_of_regions(
    pr: (Vec<(isize, isize)>, Vec<(isize, isize)>),
    regions: Seq<Vec<(isize, isize)>>,
) -> bool {
    exists|p: int, q: int|
        #![trigger regions[p], regions[q]]
        {
            &&& 0 <= p < q < regions.len()
            &&& regions[p]@.len() >= 1
            &&& regions[q]@.len() >= 1
            &&& ((pr.0@ == regions[p]@ && pr.1@ == regions[q]@) || (pr.0@ == regions[q]@ && pr.1@
                == regions[p]@))
        }
}

/// Pairs regions of a grid that merge into one connected region when both
/// are painted with a fresh value: every returned pair consists of two
/// distinct non-empty input regions, the one holding the least merged
/// coordinate second.
#[verifier::rlimit(100)]
#[verifier::spinoff_prover]
pub fn paired_regions(a: &Grid, regions: &Vec<Vec<(isize, isize)>>) -> (r: Vec<
    (Vec<(isize, isize)>, Vec<(isize, isize)>),
>)
    requires
        a.wf(),
        a.spec_rows() <= 0x4000_0000,
        a.spec_cols() <= 0x4000_0000,
        a.data@.len() >= 1,
        forall|t: int| 0 <= t < a.data@.len() ==> (#[trigger] a.data@[t]) < 127,
    ensures
        forall|t: int| 0 <= t < r@.len() ==> pair_of_regions(#[trigger] r@[t], regions@),
{
    let mut result: Vec<(Vec<(isize, isize)>, Vec<(isize, isize)>)> = Vec::new();
    let dn = a.data.len();
    let mut mx: i8 = a.data[0];
    let mut k: usize = 1;
    while k < dn
        invariant
            1 <= k <= dn,
            dn == a.data@.len(),
            forall|t: int| 0 <= t < a.data@.len() ==> (#[trigger] a.data@[t]) < 127,
            mx < 127,
        decreases dn - k,
    {
        let c = a.data[k];
        if c > mx {
            mx = c;
        }
        k += 1;
    }
    let value = mx + 1;
    let n = regions.len();
    let mut i: usize = 0;
    while i < n
        invariant
            i <= n,
            n == regions@.len(),
            a.wf(),
            a.spec_rows() <= 0x4000_0000,
            a.spec_cols() <= 0x4000_0000,
            forall|t: int| 0 <= t < result@.len() ==> pair_of_regions(#[trigger] result@[t], regions@),
        decreases n - i,
    {
        if regions[i].len() > 0 {
            let mut j: usize = i + 1;
            while j < n
                invariant
                    i < j <= n,
                    i < n,
                    n == regions@.len(),
                    regions@[i as int]@.len() >= 1,
                    a.wf(),
                    a.spec_rows() <= 0x4000_0000,
                    a.spec_cols() <= 0x4000_0000,
                    forall|t: int|
                        0 <= t < result@.len() ==> pair_of_regions(
                            #[trigger] result@[t],
                            regions@,
                        ),
                decreases n - j,
            {
                if regions[j].len() > 0 {
                    let b1 = fill_region(a, &regions[i], value);
                    let b = fill_region(&b1, &regions[j], value);
                    let rr = region(&b, regions[i][0], true);
                    if rr.len() >= regions[i].len() && rr.len() - regions[i].len()
                        == regions[j].len() {
                        let mut merged = crate::neuron::copy_vec(&regions[i]);
                        let mut extra = crate::neuron::copy_vec(&regions[j]);
                        let el = extra.len();
                        let mut e: usize = 0;
                        while e < el
                            invariant
                                e <= el,
                                el == extra@.len(),
                                merged@.len() >= 1,
                            decreases el - e,
                        {
                            merged.push(extra[e]);
                            e += 1;
                        }
                        let least = min_loc(&merged);
                        let ri = crate::neuron::copy_vec(&regions[i]);
                        let rj = crate::neuron::copy_vec(&regions[j]);
                        let ghost before = result@;
                        if contains_loc_exec(&regions[i], least) {
                            result.push((rj, ri));
                        } else {
                            result.push((ri, rj));
                        }
                        proof {
                            assert(pair_of_regions(result@.last(), regions@)) by {
                                assert(regions@[i as int]@.len() >= 1);
                                assert(regions@[j as int]@.len() >= 1);
                                assert(result@.last().0@ == regions@[j as int]@
                                    && result@.last().1@ == regions@[i as int]@
                                    || result@.last().0@ == regions@[i as int]@
                                    && result@.last().1@ == regions@[j as int]@);
                            }
                            assert forall|t: int|
                                0 <= t < result@.len() implies pair_of_regions(
                                #[trigger] result@[t],
                                regions@,
                            ) by {
                                if t < before.len() {
                                    assert(result@[t] == before[t]);
                                } else {
                                    assert(result@[t] == result@.last());
                                }
                            }
                        }
                    }
                }
                j += 1;
            }
        }
        i += 1;
    }
    result
}

} // verus!
