//! Domain primitives over lists of grids, coordinate-pair groups and region
//! lists. These are the operations the engine's evaluators are drawn from.
use vstd::prelude::*;

verus! {

use crate::grid::Grid;
use crate::neuron::ColorMap;
use crate::neuron::Loc;
use crate::utility;
use crate::grid::GridView;
use crate::neuron::grids_view;
use crate::utility::flip_lr_view;
use crate::utility::flip_ud_view;
use crate::utility::map_view;

/// All grids in the list are rectangular.
pub open spec fn grids_wf(gs: Seq<Grid>) -> bool {
    forall|i: int| 0 <= i < gs.len() ==> (#[trigger] gs[i]).wf()
}

/// Mirrors every grid left to right.
pub fn fliplr(x: &Vec<Grid>) -> (r: Vec<Grid>)
    requires
        grids_wf(x@),
    ensures
        r@.len() == x@.len(),
        forall|i: int|
            0 <= i < x@.len() ==> {
                let g = #[trigger] r@[i];
                &&& g.wf()
                &&& g.spec_rows() == x@[i].spec_rows()
                &&& g.spec_cols() == x@[i].spec_cols()
                &&& forall|p: int, q: int|
                    g.contains_index(p, q) ==> #[trigger] g.cell(p, q) == x@[i].cell(
                        p,
                        x@[i].spec_cols() - 1 - q,
                    )
            },
        grids_view(r@) == Seq::new(x@.len(), |i: int| flip_lr_view(x@[i]@)),
{
    let n = x.len();
    let mut r: Vec<Grid> = Vec::new();
    let mut i: usize = 0;
    while i < n
        invariant
            i <= n,
            n == x@.len(),
            grids_wf(x@),
            r@.len() == i,
            forall|t: int|
                0 <= t < i ==> {
                    let g = #[trigger] r@[t];
                    &&& g.wf()
                    &&& g.spec_rows() == x@[t].spec_rows()
                    &&& g.spec_cols() == x@[t].spec_cols()
                    &&& forall|p: int, q: int|
                        g.contains_index(p, q) ==> #[trigger] g.cell(p, q) == x@[t].cell(
                            p,
                            x@[t].spec_cols() - 1 - q,
                        )
                },
            forall|t: int| 0 <= t < i ==> (#[trigger] r@[t])@ == flip_lr_view(x@[t]@),
        decreases n - i,
    {
        r.push(utility::fliplr(&x[i]));
        i += 1;
    }
    proof {
        assert(grids_view(r@) =~= Seq::new(x@.len(), |t: int| flip_lr_view(x@[t]@)));
    }
    r
}

/// Mirrors every grid top to bottom.
pub fn flipud(x: &Vec<Grid>) -> (r: Vec<Grid>)
    requires
        grids_wf(x@),
    ensures
        r@.len() == x@.len(),
        forall|i: int|
            0 <= i < x@.len() ==> {
                let g = #[trigger] r@[i];
                &&& g.wf()
                &&& g.spec_rows() == x@[i].spec_rows()
                &&& g.spec_cols() == x@[i].spec_cols()
                &&& forall|p: int, q: int|
                    g.contains_index(p, q) ==> #[trigger] g.cell(p, q) == x@[i].cell(
                        x@[i].spec_rows() - 1 - p,
                        q,
                    )
            },
        grids_view(r@) == Seq::new(x@.len(), |i: int| flip_ud_view(x@[i]@)),
{
    let n = x.len();
    let mut r: Vec<Grid> = Vec::new();
    let mut i: usize = 0;
    while i < n
        invariant
            i <= n,
            n == x@.len(),
            grids_wf(x@),
            r@.len() == i,
            forall|t: int|
                0 <= t < i ==> {
                    let g = #[trigger] r@[t];
                    &&& g.wf()
                    &&& g.spec_rows() == x@[t].spec_rows()
                    &&& g.spec_cols() == x@[t].spec_cols()
                    &&& forall|p: int, q: int|
                        g.contains_index(p, q) ==> #[trigger] g.cell(p, q) == x@[t].cell(
                            x@[t].spec_rows() - 1 - p,
                            q,
                        )
                },
            forall|t: int| 0 <= t < i ==> (#[trigger] r@[t])@ == flip_ud_view(x@[t]@),
        decreases n - i,
    {
        r.push(utility::flipud(&x[i]));
        i += 1;
    }
    proof {
        assert(grids_view(r@) =~= Seq::new(x@.len(), |t: int| flip_ud_view(x@[t]@)));
    }
    r
}

/// Rewrites the cells of every grid through the mapping.
pub fn map(x: &Vec<Grid>, mapping: &ColorMap) -> (r: Vec<Grid>)
    requires
        grids_wf(x@),
    ensures
        r@.len() == x@.len(),
        forall|i: int|
            0 <= i < x@.len() ==> {
                let g = #[trigger] r@[i];
                &&& g.wf()
                &&& g.spec_rows() == x@[i].spec_rows()
                &&& g.spec_cols() == x@[i].spec_cols()
                &&& forall|p: int, q: int|
                    g.contains_index(p, q) ==> #[trigger] g.cell(p, q) == (
                    match mapping.spec_get(x@[i].cell(p, q)) {
                        Some(v) => v,
                        None => x@[i].cell(p, q),
                    })
            },
        grids_view(r@) == Seq::new(x@.len(), |i: int| map_view(x@[i]@, mapping.entries@)),
{
    let n = x.len();
    let mut r: Vec<Grid> = Vec::new();
    let mut i: usize = 0;
    while i < n
        invariant
            i <= n,
            n == x@.len(),
            grids_wf(x@),
            r@.len() == i,
            forall|t: int|
                0 <= t < i ==> {
                    let g = #[trigger] r@[t];
                    &&& g.wf()
                    &&& g.spec_rows() == x@[t].spec_rows()
                    &&& g.spec_cols() == x@[t].spec_cols()
                    &&& forall|p: int, q: int|
                        g.contains_index(p, q) ==> #[trigger] g.cell(p, q) == (
                        match mapping.spec_get(x@[t].cell(p, q)) {
                            Some(v) => v,
                            None => x@[t].cell(p, q),
                        })
                },
            forall|t: int| 0 <= t < i ==> (#[trigger] r@[t])@ == map_view(x@[t]@, mapping.entries@),
        decreases n - i,
    {
        r.push(utility::map(&x[i], mapping));
        i += 1;
    }
    proof {
        assert(grids_view(r@) =~= Seq::new(x@.len(), |t: int| map_view(x@[t]@, mapping.entries@)));
    }
    r
}

/// Keeps a coordinate pair when its two locations agree on the chosen
/// component: the row when `first` is set, the column otherwise.
pub open spec fn same_component(p: (Loc, Loc), first: bool) -> bool {
    if first {
        p.0.0 == p.1.0
    } else {
        p.0.1 == p.1.1
    }
}

/// The subsequence of pairs that agree on the chosen component, in order.
pub open spec fn spec_same_element(g: Seq<(Loc, Loc)>, first: bool) -> Seq<(Loc, Loc)>
    decreases g.len(),
{
    if g.len() == 0 {
        Seq::empty()
    } else if same_component(g.last(), first) {
        spec_same_element(g.drop_last(), first).push(g.last())
    } else {
        spec_same_element(g.drop_last(), first)
    }
}

/// Filters every group of coordinate pairs down to those whose locations
/// agree on the first component (`first`) or on the second.
pub fn same_element(pairs: &Vec<Vec<(Loc, Loc)>>, first: bool) -> (r: Vec<Vec<(Loc, Loc)>>)
    ensures
        r@.len() == pairs@.len(),
        forall|i: int|
            0 <= i < pairs@.len() ==> (#[trigger] r@[i])@ == spec_same_element(
                pairs@[i]@,
                first,
            ),
        Seq::new(r@.len(), |i: int| r@[i]@) == Seq::new(
            pairs@.len(),
            |i: int| spec_same_element(pairs@[i]@, first),
        ),
{
    let n = pairs.len();
    let mut r: Vec<Vec<(Loc, Loc)>> = Vec::new();
    let mut i: usize = 0;
    while i < n
        invariant
            i <= n,
            n == pairs@.len(),
            r@.len() == i,
            forall|t: int|
                0 <= t < i ==> (#[trigger] r@[t])@ == spec_same_element(pairs@[t]@, first),
        decreases n - i,
    {
        let group = &pairs[i];
        let m = group.len();
        let mut filtered: Vec<(Loc, Loc)> = Vec::new();
        let mut j: usize = 0;
        while j < m
            invariant
                j <= m,
                m == group@.len(),
                filtered@ == spec_same_element(group@.subrange(0, j as int), first),
            decreases m - j,
        {
            let p = group[j];
            proof {
                assert(group@.subrange(0, j + 1).drop_last() =~= group@.subrange(0, j as int));
                assert(group@.subrange(0, j + 1).last() == group@[j as int]);
            }
            if first {
                if p.0.0 == p.1.0 {
                    filtered.push(p);
                }
            } else {
                if p.0.1 == p.1.1 {
                    filtered.push(p);
                }
            }
            j += 1;
        }
        proof {
            assert(group@.subrange(0, m as int) =~= group@);
        }
        r.push(filtered);
        i += 1;
    }
    proof {
        assert(Seq::new(r@.len(), |t: int| r@[t]@) =~= Seq::new(
            pairs@.len(),
            |t: int| spec_same_element(pairs@[t]@, first),
        ));
    }
    r
}

/// The pair joins a location of one region of `x` with a location of a later
/// region.
pub open spec fn pair_in_cross(x: Seq<Vec<Loc>>, pr: (Loc, Loc)) -> bool {
    exists|a: int, b: int, c: int, d: int|
        #![trigger (x[a]@)[c], (x[b]@)[d]]
        {
            &&& 0 <= a < b < x.len()
            &&& 0 <= c < x[a]@.len()
            &&& 0 <= d < x[b]@.len()
            &&& pr == ((x[a]@)[c], (x[b]@)[d])
        }
}

/// The group contains the pair `(p, q)`.
pub open spec fn covers(g: Seq<(Loc, Loc)>, p: Loc, q: Loc) -> bool {
    exists|t: int| 0 <= t < g.len() && g[t] == (p, q)
}

/// The group pairs every location of region `a` with every location of
/// region `b`.
pub open spec fn block_covered(g: Seq<(Loc, Loc)>, x: Seq<Vec<Loc>>, a: int, b: int) -> bool {
    forall|c: int, d: int|
        #![trigger (x[a]@)[c], (x[b]@)[d]]
        (0 <= c < x[a]@.len() && 0 <= d < x[b]@.len()) ==> covers(g, (x[a]@)[c], (x[b]@)[d])
}

/// The group holds exactly the cross pairs of the regions in `x`: each pair
/// joins two distinct regions, and every such join occurs.
pub open spec fn is_cross_pairs(x: Seq<Vec<Loc>>, g: Seq<(Loc, Loc)>) -> bool {
    &&& forall|t: int| 0 <= t < g.len() ==> pair_in_cross(x, #[trigger] g[t])
    &&& forall|a: int, b: int| 0 <= a < b < x.len() ==> block_covered(g, x, a, b)
}

/// A coverage fact survives appending to the group.
proof fn lemma_block_covered_extend(g1: Seq<(Loc, Loc)>, g2: Seq<(Loc, Loc)>, x: Seq<Vec<Loc>>, a: int, b: int)
    requires
        g1.len() <= g2.len(),
        forall|t: int| 0 <= t < g1.len() ==> g2[t] == g1[t],
        block_covered(g1, x, a, b),
    ensures
        block_covered(g2, x, a, b),
{
    assert forall|c: int, d: int|
        (0 <= c < x[a]@.len() && 0 <= d < x[b]@.len()) implies covers(
        g2,
        #[trigger] (x[a]@)[c],
        #[trigger] (x[b]@)[d],
    ) by {
        let t = choose|t: int| 0 <= t < g1.len() && g1[t] == ((x[a]@)[c], (x[b]@)[d]);
        assert(g2[t] == ((x[a]@)[c], (x[b]@)[d]));
    }
}

/// The first `k` cross pairs of two regions, in row-major order: pair `t`
/// joins location `t / |rb|` of `ra` with location `t % |rb|` of `rb`.
pub open spec fn cross_seq(ra: Seq<Loc>, rb: Seq<Loc>, k: nat) -> Seq<(Loc, Loc)>
    recommends
        rb.len() > 0,
{
    Seq::new(k, |t: int| (ra[t / rb.len() as int], rb[t % rb.len() as int]))
}

/// Every cross pair of two regions, in row-major order.
pub open spec fn full_cross(ra: Seq<Loc>, rb: Seq<Loc>) -> Seq<(Loc, Loc)> {
    cross_seq(ra, rb, (ra.len() * rb.len()) as nat)
}

/// The cross pairs of region `a` with the regions after it, up to region
/// `j1` exclusive, in order.
pub open spec fn cross_row(x: Seq<Seq<Loc>>, a: int, j1: int) -> Seq<(Loc, Loc)>
    decreases j1 - a,
{
    if j1 <= a + 1 {
        Seq::empty()
    } else {
        cross_row(x, a, j1 - 1) + full_cross(x[a], x[j1 - 1])
    }
}

/// The cross pairs of the first `i1` regions with every later region, in
/// order.
pub open spec fn cross_rows(x: Seq<Seq<Loc>>, i1: int) -> Seq<(Loc, Loc)>
    decreases i1,
{
    if i1 <= 0 {
        Seq::empty()
    } else {
        cross_rows(x, i1 - 1) + cross_row(x, i1 - 1, x.len() as int)
    }
}

/// All cross pairs of one group of regions: each location of one region
/// paired with each location of every later region, regions in order.
pub open spec fn spec_region_pairs_group(x: Seq<Seq<Loc>>) -> Seq<(Loc, Loc)> {
    cross_rows(x, x.len() as int)
}

/// The views of one group of regions.
pub open spec fn region_group_view(x: Seq<Vec<Loc>>) -> Seq<Seq<Loc>> {
    Seq::new(x.len(), |j: int| x[j]@)
}

/// Appends every pair joining a location of `x[a]` with a location of `x[b]`.
fn cross_block(pairs: &mut Vec<(Loc, Loc)>, x: &Vec<Vec<Loc>>, a: usize, b: usize)
    requires
        a < b < x@.len(),
    ensures
        old(pairs)@.len() <= final(pairs)@.len(),
        forall|t: int| 0 <= t < old(pairs)@.len() ==> final(pairs)@[t] == old(pairs)@[t],
        forall|t: int|
            old(pairs)@.len() <= t < final(pairs)@.len() ==> pair_in_cross(
                x@,
                #[trigger] final(pairs)@[t],
            ),
        block_covered(final(pairs)@, x@, a as int, b as int),
        final(pairs)@ == old(pairs)@ + full_cross(x@[a as int]@, x@[b as int]@),
{
    let ghost base = pairs@.len();
    let ghost ra = x@[a as int]@;
    let ghost rb = x@[b as int]@;
    let la = x[a].len();
    let lb = x[b].len();
    if lb == 0 {
        proof {
            assert(ra.len() * rb.len() == 0) by (nonlinear_arith)
                requires
                    rb.len() == 0,
            ;
            assert(pairs@ =~= pairs@ + full_cross(ra, rb));
        }
        return ;
    }
    let mut c: usize = 0;
    while c < la
        invariant
            c <= la,
            a < b < x@.len(),
            la == ra.len(),
            lb == rb.len(),
            lb >= 1,
            ra == x@[a as int]@,
            rb == x@[b as int]@,
            pairs@ == old(pairs)@ + cross_seq(ra, rb, (c * lb) as nat),
        decreases la - c,
    {
        let mut d: usize = 0;
        while d < lb
            invariant
                c < la,
                d <= lb,
                a < b < x@.len(),
                la == ra.len(),
                lb == rb.len(),
                lb >= 1,
                ra == x@[a as int]@,
                rb == x@[b as int]@,
                pairs@ == old(pairs)@ + cross_seq(ra, rb, (c * lb + d) as nat),
            decreases lb - d,
        {
            proof {
                crate::grid::lemma_row_major_in_range(c as int, d as int, la as int, lb as int);
            }
            pairs.push((x[a][c], x[b][d]));
            proof {
                let k = c * lb + d;
                vstd::arithmetic::div_mod::lemma_fundamental_div_mod_converse(
                    k as int,
                    lb as int,
                    c as int,
                    d as int,
                );
                assert(cross_seq(ra, rb, (k + 1) as nat)[k as int] == (ra[c as int], rb[d as int]));
                assert(pairs@ =~= old(pairs)@ + cross_seq(ra, rb, (k + 1) as nat));
            }
            d += 1;
        }
        proof {
            assert(c * lb + lb == (c + 1) * lb) by (nonlinear_arith);
        }
        c += 1;
    }
    proof {
        let k = (la * lb) as nat;
        let full = cross_seq(ra, rb, k);
        assert(pairs@ == old(pairs)@ + full);
        assert forall|cc: int, dd: int|
            (0 <= cc < ra.len() && 0 <= dd < rb.len()) implies covers(
            pairs@,
            #[trigger] ra[cc],
            #[trigger] rb[dd],
        ) by {
            crate::grid::lemma_row_major_in_range(cc, dd, la as int, lb as int);
            let u = cc * lb + dd;
            vstd::arithmetic::div_mod::lemma_fundamental_div_mod_converse(
                u,
                lb as int,
                cc,
                dd,
            );
            assert(full[u] == (ra[cc], rb[dd]));
            assert(pairs@[base + u] == (ra[cc], rb[dd]));
        }
        assert forall|t: int|
            base <= t < pairs@.len() implies pair_in_cross(x@, #[trigger] pairs@[t]) by {
            let u = t - base;
            vstd::arithmetic::div_mod::lemma_fundamental_div_mod(u, lb as int);
            vstd::arithmetic::div_mod::lemma_mod_bound(u, lb as int);
            let cc = u / (lb as int);
            let dd = u % (lb as int);
            assert(u == lb * cc + dd);
            assert(cc >= 0) by (nonlinear_arith)
                requires
                    u >= 0,
                    lb >= 1,
                    dd < lb,
                    u == lb * cc + dd,
            ;
            assert(cc < la) by (nonlinear_arith)
                requires
                    u < la * lb,
                    lb >= 1,
                    0 <= dd,
                    u == lb * cc + dd,
            ;
            assert(pairs@[t] == full[u]);
            assert(full[u] == (ra[cc], rb[dd]));
        }
        assert(pairs@ == old(pairs)@ + full_cross(ra, rb));
    }
}

/// Pairs the locations of distinct regions within every group: each location
/// of one region is paired with each location of every later region.
pub fn region_pairs(regions: &Vec<Vec<Vec<Loc>>>) -> (r: Vec<Vec<(Loc, Loc)>>)
    ensures
        r@.len() == regions@.len(),
        forall|i: int| 0 <= i < regions@.len() ==> is_cross_pairs(regions@[i]@, (#[trigger] r@[i])@),
        forall|i: int|
            0 <= i < regions@.len() ==> (#[trigger] r@[i])@ == spec_region_pairs_group(
                region_group_view(regions@[i]@),
            ),
        Seq::new(r@.len(), |i: int| r@[i]@) == Seq::new(
            regions@.len(),
            |i: int| spec_region_pairs_group(region_group_view(regions@[i]@)),
        ),
{
    let n = regions.len();
    let mut r: Vec<Vec<(Loc, Loc)>> = Vec::new();
    let mut i: usize = 0;
    while i < n
        invariant
            i <= n,
            n == regions@.len(),
            r@.len() == i,
            forall|t: int| 0 <= t < i ==> is_cross_pairs(regions@[t]@, (#[trigger] r@[t])@),
            forall|t: int|
                0 <= t < i ==> (#[trigger] r@[t])@ == spec_region_pairs_group(
                    region_group_view(regions@[t]@),
                ),
        decreases n - i,
    {
        let x = &regions[i];
        let xl = x.len();
        let ghost gv = region_group_view(x@);
        let mut pairs: Vec<(Loc, Loc)> = Vec::new();
        let mut i1: usize = 0;
        while i1 < xl
            invariant
                i1 <= xl,
                xl == x@.len(),
                gv == region_group_view(x@),
                pairs@ == cross_rows(gv, i1 as int),
                forall|t: int| 0 <= t < pairs@.len() ==> pair_in_cross(x@, #[trigger] pairs@[t]),
                forall|a: int, b: int|
                    #![trigger block_covered(pairs@, x@, a, b)]
                    (0 <= a < b < xl && a < i1) ==> block_covered(pairs@, x@, a, b),
            decreases xl - i1,
        {
            let mut j1: usize = i1 + 1;
            while j1 < xl
                invariant
                    i1 < xl,
                    i1 + 1 <= j1 <= xl,
                    xl == x@.len(),
                    gv == region_group_view(x@),
                    pairs@ == cross_rows(gv, i1 as int) + cross_row(gv, i1 as int, j1 as int),
                    forall|t: int|
                        0 <= t < pairs@.len() ==> pair_in_cross(x@, #[trigger] pairs@[t]),
                    forall|a: int, b: int|
                        #![trigger block_covered(pairs@, x@, a, b)]
                        (0 <= a < b < xl && (a < i1 || (a == i1 && b < j1))) ==> block_covered(
                            pairs@,
                            x@,
                            a,
                            b,
                        ),
                decreases xl - j1,
            {
                let ghost before = pairs@;
                cross_block(&mut pairs, x, i1, j1);
                proof {
                    assert(gv[i1 as int] == x@[i1 as int]@ && gv[j1 as int] == x@[j1 as int]@);
                    assert(cross_row(gv, i1 as int, j1 + 1) == cross_row(gv, i1 as int, j1 as int)
                        + full_cross(gv[i1 as int], gv[j1 as int]));
                    assert(pairs@ =~= cross_rows(gv, i1 as int) + cross_row(gv, i1 as int, j1 + 1));
                    assert forall|a: int, b: int|
                        (0 <= a < b < xl && (a < i1 || (a == i1 && b < j1))) implies
                        #[trigger] block_covered(pairs@, x@, a, b) by {
                        lemma_block_covered_extend(before, pairs@, x@, a, b);
                    }
                }
                j1 += 1;
            }
            proof {
                assert(cross_rows(gv, i1 + 1) == cross_rows(gv, i1 as int) + cross_row(
                    gv,
                    i1 as int,
                    gv.len() as int,
                ));
            }
            i1 += 1;
        }
        proof {
            if xl == 0 {
                assert(pairs@ =~= cross_rows(gv, xl as int));
            }
            assert(pairs@ == spec_region_pairs_group(gv));
        }
        r.push(pairs);
        i += 1;
    }
    proof {
        assert(Seq::new(r@.len(), |t: int| r@[t]@) =~= Seq::new(
            regions@.len(),
            |t: int| spec_region_pairs_group(region_group_view(regions@[t]@)),
        ));
    }
    r
}


/// The view of a grid after drawing one dotted segment with its endpoints
/// optionally restored: when both endpoints lie inside the grid, every cell
/// on the discrete segment between them takes `value`, except the endpoints
/// where `start` or `finish` asks for their old cell back; otherwise the
/// grid is unchanged.
pub open spec fn seg_apply(
    g: GridView,
    p0: Loc,
    p1: Loc,
    value: i8,
    start: bool,
    finish: bool,
) -> GridView {
    if g.contains_index(p0.0 as int, p0.1 as int) && g.contains_index(p1.0 as int, p1.1 as int) {
        GridView {
            rows: g.rows,
            cols: g.cols,
            cells: Seq::new(
                g.cells.len(),
                |t: int|
                    {
                        let i = t / g.cols;
                        let j = t % g.cols;
                        if start && i == p0.0 && j == p0.1 {
                            g.cell(p0.0 as int, p0.1 as int)
                        } else if finish && i == p1.0 && j == p1.1 {
                            g.cell(p1.0 as int, p1.1 as int)
                        } else if crate::utility::seg_steps(p0, p1) > 0 && crate::utility::on_segment(
                            p0,
                            p1,
                            1,
                            i,
                            j,
                        ) {
                            value
                        } else {
                            g.cells[t]
                        }
                    },
            ),
        }
    } else {
        g
    }
}

/// The view of a grid after drawing one dotted segment for each coordinate
/// pair, in order.
pub open spec fn seg_fold(
    g: GridView,
    ps: Seq<(Loc, Loc)>,
    value: i8,
    start: bool,
    finish: bool,
) -> GridView
    decreases ps.len(),
{
    if ps.len() == 0 {
        g
    } else {
        seg_apply(
            seg_fold(g, ps.drop_last(), value, start, finish),
            ps.last().0,
            ps.last().1,
            value,
            start,
            finish,
        )
    }
}

/// Drawing one segment keeps the grid well formed and its shape.
proof fn lemma_seg_apply_wf(g: GridView, p0: Loc, p1: Loc, value: i8, start: bool, finish: bool)
    requires
        g.wf(),
    ensures
        seg_apply(g, p0, p1, value, start, finish).wf(),
        seg_apply(g, p0, p1, value, start, finish).rows == g.rows,
        seg_apply(g, p0, p1, value, start, finish).cols == g.cols,
{
}

/// Drawing segments keeps the grid well formed and its shape.
proof fn lemma_seg_fold_wf(g: GridView, ps: Seq<(Loc, Loc)>, value: i8, start: bool, finish: bool)
    requires
        g.wf(),
    ensures
        seg_fold(g, ps, value, start, finish).wf(),
        seg_fold(g, ps, value, start, finish).rows == g.rows,
        seg_fold(g, ps, value, start, finish).cols == g.cols,
    decreases ps.len(),
{
    if ps.len() > 0 {
        lemma_seg_fold_wf(g, ps.drop_last(), value, start, finish);
        lemma_seg_apply_wf(
            seg_fold(g, ps.drop_last(), value, start, finish),
            ps.last().0,
            ps.last().1,
            value,
            start,
            finish,
        );
    }
}

/// Draws one dotted segment on a grid, restoring the endpoints on request.
fn seg_apply_exec(m: &Grid, p0: Loc, p1: Loc, value: i8, start: bool, finish: bool) -> (r: Grid)
    requires
        m.wf(),
        m.spec_rows() <= 0x4000_0000,
        m.spec_cols() <= 0x4000_0000,
    ensures
        r@ == seg_apply(m@, p0, p1, value, start, finish),
        r.wf(),
        r.spec_rows() == m.spec_rows(),
        r.spec_cols() == m.spec_cols(),
{
    if !crate::utility::valid_index(m, p0) || !crate::utility::valid_index(m, p1) {
        let r = m.clone();
        proof {
            assert(r@ =~= m@);
        }
        return r;
    }
    let s = m.get(p0.0 as usize, p0.1 as usize);
    let f = m.get(p1.0 as usize, p1.1 as usize);
    let mut out = crate::utility::dot_segment(m, p0, p1, value, 1);
    if start {
        out.set(p0.0 as usize, p0.1 as usize, s);
    }
    if finish {
        out.set(p1.0 as usize, p1.1 as usize, f);
    }
    proof {
        let target = seg_apply(m@, p0, p1, value, start, finish);
        assert(target.wf());
        assert forall|i: int, j: int|
            out@.contains_index(i, j) implies #[trigger] out@.cell(i, j) == target.cell(i, j) by {
            crate::grid::lemma_row_major_in_range(i, j, m@.rows, m@.cols);
            vstd::arithmetic::div_mod::lemma_fundamental_div_mod_converse(
                i * m@.cols + j,
                m@.cols,
                i,
                j,
            );
            assert(out.cell(i, j) == out@.cell(i, j));
        }
        crate::grid::lemma_grid_view_cellwise(out@, target);
    }
    out
}

/// Draws dotted segments between paired locations in every grid: each pair
/// of a group draws the discrete segment between its two locations into the
/// group's grid, optionally restoring the cells under the segment's start
/// and finish. Mismatched list lengths yield an empty result.
pub fn segments(
    dst: &Vec<Grid>,
    pairs: &Vec<Vec<(Loc, Loc)>>,
    value: i8,
    start: bool,
    finish: bool,
) -> (r: Vec<Grid>)
    requires
        grids_wf(dst@),
        forall|i: int|
            0 <= i < dst@.len() ==> (#[trigger] dst@[i]).spec_rows() <= 0x4000_0000
                && dst@[i].spec_cols() <= 0x4000_0000,
    ensures
        dst@.len() != pairs@.len() ==> r@.len() == 0,
        dst@.len() == pairs@.len() ==> {
            &&& r@.len() == dst@.len()
            &&& forall|i: int|
                0 <= i < r@.len() ==> (#[trigger] r@[i])@ == seg_fold(
                    dst@[i]@,
                    pairs@[i]@,
                    value,
                    start,
                    finish,
                )
        },
{
    let mut r: Vec<Grid> = Vec::new();
    if dst.len() != pairs.len() {
        return r;
    }
    let n = dst.len();
    let mut i: usize = 0;
    while i < n
        invariant
            i <= n,
            n == dst@.len() == pairs@.len(),
            grids_wf(dst@),
            forall|p: int|
                0 <= p < dst@.len() ==> (#[trigger] dst@[p]).spec_rows() <= 0x4000_0000
                    && dst@[p].spec_cols() <= 0x4000_0000,
            r@.len() == i,
            forall|p: int|
                0 <= p < i ==> (#[trigger] r@[p])@ == seg_fold(
                    dst@[p]@,
                    pairs@[p]@,
                    value,
                    start,
                    finish,
                ),
        decreases n - i,
    {
        let mut m = dst[i].clone();
        proof {
            assert(m@ =~= dst@[i as int]@);
            assert(m@ == seg_fold(dst@[i as int]@, pairs@[i as int]@.subrange(0, 0), value, start, finish));
        }
        let group = &pairs[i];
        let gl = group.len();
        let mut j: usize = 0;
        while j < gl
            invariant
                j <= gl,
                i < n,
                n == dst@.len() == pairs@.len(),
                gl == group@.len(),
                group@ == pairs@[i as int]@,
                dst@[i as int].wf(),
                dst@[i as int].spec_rows() <= 0x4000_0000,
                dst@[i as int].spec_cols() <= 0x4000_0000,
                m@ == seg_fold(
                    dst@[i as int]@,
                    group@.subrange(0, j as int),
                    value,
                    start,
                    finish,
                ),
                m.wf(),
                m.spec_rows() == dst@[i as int].spec_rows(),
                m.spec_cols() == dst@[i as int].spec_cols(),
            decreases gl - j,
        {
            let (p0, p1) = group[j];
            proof {
                assert(group@.subrange(0, j + 1).drop_last() =~= group@.subrange(0, j as int));
                assert(group@.subrange(0, j + 1).last() == group@[j as int]);
                lemma_seg_fold_wf(
                    dst@[i as int]@,
                    group@.subrange(0, j as int),
                    value,
                    start,
                    finish,
                );
            }
            m = seg_apply_exec(&m, p0, p1, value, start, finish);
            j += 1;
        }
        proof {
            assert(group@.subrange(0, gl as int) =~= group@);
        }
        r.push(m);
        i += 1;
    }
    r
}


/// The cell pairs one grid pair contributes: the input grid's cells in
/// row-major order, each beside the output grid's cell at the same
/// coordinate.
pub open spec fn pair_cells(inp: GridView, out: GridView) -> Seq<(i8, i8)> {
    Seq::new(
        inp.cells.len(),
        |t: int| (inp.cells[t], out.cells[(t / inp.cols) * out.cols + (t % inp.cols)]),
    )
}

/// The concatenated cell pairs of a list of grid pairs.
pub open spec fn cells_of(ps: Seq<(GridView, GridView)>) -> Seq<(i8, i8)>
    decreases ps.len(),
{
    if ps.len() == 0 {
        Seq::empty()
    } else {
        cells_of(ps.drop_last()) + pair_cells(ps.last().0, ps.last().1)
    }
}

/// Runs the mapping inference over the cell pairs from position `i`: each
/// unseen input cell is bound to its output cell; the first input cell
/// bound to a different output cell stops the run. Returns the mapping and
/// whether the run consumed all cells.
pub open spec fn infer_run(cells: Seq<(i8, i8)>, i: int, m: Map<i8, i8>) -> (Map<i8, i8>, bool)
    decreases cells.len() - i,
{
    if i < 0 || i >= cells.len() {
        (m, true)
    } else {
        let (a, b) = cells[i];
        if m.dom().contains(a) {
            if m[a] == b {
                infer_run(cells, i + 1, m)
            } else {
                (m, false)
            }
        } else {
            infer_run(cells, i + 1, m.insert(a, b))
        }
    }
}

/// The views of a list of grid pairs.
pub open spec fn pair_grids_view(ps: Seq<(Grid, Grid)>) -> Seq<(GridView, GridView)> {
    Seq::new(ps.len(), |i: int| (ps[i].0@, ps[i].1@))
}

/// The mapping inferred from a list of grid pairs: the run of the inference
/// over all their cell pairs, from the empty mapping.
pub open spec fn spec_infer(ps: Seq<(GridView, GridView)>) -> Map<i8, i8> {
    infer_run(cells_of(ps), 0, Map::empty()).0
}

/// A canonical entry list holds exactly the bindings of a mapping.
pub open spec fn entries_match(cm: crate::neuron::ColorMap, m: Map<i8, i8>) -> bool {
    forall|k: i8|
        #[trigger] cm.spec_get(k) == (if m.dom().contains(k) {
            Some(m[k])
        } else {
            None::<i8>
        })
}

/// The cell pairs of a concatenation are the concatenation of the cell
/// pairs.
proof fn lemma_cells_of_concat(a: Seq<(GridView, GridView)>, b: Seq<(GridView, GridView)>)
    ensures
        cells_of(a + b) == cells_of(a) + cells_of(b),
    decreases b.len(),
{
    if b.len() == 0 {
        assert(a + b =~= a);
        assert(cells_of(a) + cells_of(b) =~= cells_of(a));
    } else {
        assert((a + b).drop_last() =~= a + b.drop_last());
        lemma_cells_of_concat(a, b.drop_last());
        assert((a + b).last() == b.last());
        assert(cells_of(a) + cells_of(b.drop_last()) + pair_cells(b.last().0, b.last().1)
            =~= cells_of(a) + cells_of(b));
    }
}

/// One step of the cell-pair prefix.
proof fn lemma_cells_of_step(ps: Seq<(GridView, GridView)>, p: int)
    requires
        0 <= p < ps.len(),
    ensures
        cells_of(ps.subrange(0, p + 1)) == cells_of(ps.subrange(0, p)) + pair_cells(
            ps[p].0,
            ps[p].1,
        ),
    decreases ps.len(),
{
    assert(ps.subrange(0, p + 1).drop_last() =~= ps.subrange(0, p));
    assert(ps.subrange(0, p + 1).last() == ps[p]);
}

/// The cell pair at offset `t` of pair `p` sits at the prefix length plus
/// `t` in the full stream.
proof fn lemma_cells_of_index(ps: Seq<(GridView, GridView)>, p: int, t: int)
    requires
        0 <= p < ps.len(),
        0 <= t < pair_cells(ps[p].0, ps[p].1).len(),
    ensures
        cells_of(ps).len() >= cells_of(ps.subrange(0, p)).len() + pair_cells(
            ps[p].0,
            ps[p].1,
        ).len(),
        cells_of(ps)[cells_of(ps.subrange(0, p)).len() + t] == pair_cells(ps[p].0, ps[p].1)[t],
{
    lemma_cells_of_step(ps, p);
    assert(ps =~= ps.subrange(0, p + 1) + ps.subrange(p + 1, ps.len() as int));
    lemma_cells_of_concat(ps.subrange(0, p + 1), ps.subrange(p + 1, ps.len() as int));
}

/// Infers a cell mapping from paired grids: walking every pair's input grid
/// in row-major order, each unseen input cell is bound to the output cell
/// at the same coordinate; the walk stops at the first input cell already
/// bound to a different output cell, returning the mapping built so far.
pub fn infer_color_mapping(pairs: &Vec<(Grid, Grid)>) -> (r: crate::neuron::ColorMap)
    requires
        forall|i: int|
            0 <= i < pairs@.len() ==> {
                &&& (#[trigger] pairs@[i]).0.wf()
                &&& pairs@[i].1.wf()
                &&& pairs@[i].0.spec_rows() <= pairs@[i].1.spec_rows()
                &&& pairs@[i].0.spec_cols() <= pairs@[i].1.spec_cols()
            },
    ensures
        r.wf(),
        entries_match(r, spec_infer(pair_grids_view(pairs@))),
{
    let ghost pv = pair_grids_view(pairs@);
    let ghost all = cells_of(pv);
    let mut cm = crate::neuron::ColorMap::new();
    let ghost mut gm = Map::<i8, i8>::empty();
    let ghost mut idx: int = 0;
    let n = pairs.len();
    let mut p: usize = 0;
    proof {
        assert(pv.subrange(0, 0) =~= Seq::<(GridView, GridView)>::empty());
    }
    while p < n
        invariant
            p <= n,
            n == pairs@.len(),
            pv == pair_grids_view(pairs@),
            all == cells_of(pv),
            forall|i: int|
                0 <= i < pairs@.len() ==> {
                    &&& (#[trigger] pairs@[i]).0.wf()
                    &&& pairs@[i].1.wf()
                    &&& pairs@[i].0.spec_rows() <= pairs@[i].1.spec_rows()
                    &&& pairs@[i].0.spec_cols() <= pairs@[i].1.spec_cols()
                },
            cm.wf(),
            entries_match(cm, gm),
            idx == cells_of(pv.subrange(0, p as int)).len(),
            infer_run(all, 0, Map::empty()) == infer_run(all, idx, gm),
        decreases n - p,
    {
        let inp = &pairs[p].0;
        let out = &pairs[p].1;
        let ghost base = idx;
        let h = inp.nrows();
        let w = inp.ncols();
        let mut ii: usize = 0;
        while ii < h
            invariant
                ii <= h,
                p < n,
                n == pairs@.len(),
                pv == pair_grids_view(pairs@),
                all == cells_of(pv),
                inp == &pairs@[p as int].0,
                out == &pairs@[p as int].1,
                inp.wf(),
                out.wf(),
                h == inp.spec_rows(),
                w == inp.spec_cols(),
                h <= out.spec_rows(),
                w <= out.spec_cols(),
                cm.wf(),
                entries_match(cm, gm),
                base == cells_of(pv.subrange(0, p as int)).len(),
                idx == base + ii * w,
                infer_run(all, 0, Map::empty()) == infer_run(all, idx, gm),
            decreases h - ii,
        {
            let mut jj: usize = 0;
            while jj < w
                invariant
                    jj <= w,
                    ii < h,
                    p < n,
                    n == pairs@.len(),
                    pv == pair_grids_view(pairs@),
                    all == cells_of(pv),
                    inp == &pairs@[p as int].0,
                    out == &pairs@[p as int].1,
                    inp.wf(),
                    out.wf(),
                    h == inp.spec_rows(),
                    w == inp.spec_cols(),
                    h <= out.spec_rows(),
                    w <= out.spec_cols(),
                    cm.wf(),
                    entries_match(cm, gm),
                    base == cells_of(pv.subrange(0, p as int)).len(),
                    idx == base + ii * w + jj,
                    infer_run(all, 0, Map::empty()) == infer_run(all, idx, gm),
                decreases w - jj,
            {
                let a = inp.get(ii, jj);
                let b = out.get(ii, jj);
                proof {
                    let t = ii * w + jj;
                    crate::grid::lemma_row_major_in_range(ii as int, jj as int, h as int, w as int);
                    vstd::arithmetic::div_mod::lemma_fundamental_div_mod_converse(
                        t,
                        w as int,
                        ii as int,
                        jj as int,
                    );
                    assert(pv[p as int] == (inp@, out@));
                    assert(pair_cells(inp@, out@)[t] == (a, b));
                    lemma_cells_of_index(pv, p as int, t);
                    assert(all[idx] == (a, b));
                    assert(0 <= idx < all.len());
                }
                match cm.get(a) {
                    Some(x) => {
                        if x != b {
                            proof {
                                assert(gm.dom().contains(a) && gm[a] == x && x != b);
                                assert(infer_run(all, idx, gm) == (gm, false));
                            }
                            return cm;
                        }
                        proof {
                            assert(infer_run(all, idx, gm) == infer_run(all, idx + 1, gm));
                            idx = idx + 1;
                        }
                    },
                    None => {
                        cm.insert(a, b);
                        proof {
                            assert(!gm.dom().contains(a));
                            assert(infer_run(all, idx, gm) == infer_run(all, idx + 1, gm.insert(
                                a,
                                b,
                            )));
                            gm = gm.insert(a, b);
                            idx = idx + 1;
                        }
                    },
                }
                jj += 1;
            }
            proof {
                assert((ii + 1) * w == ii * w + w) by (nonlinear_arith);
            }
            ii += 1;
        }
        proof {
            lemma_cells_of_step(pv, p as int);
            assert(pair_cells(inp@, out@).len() == h * w) by {
                assert(inp@.cells.len() == h * w);
            }
            idx = base + (h * w);
        }
        p += 1;
    }
    proof {
        assert(pv.subrange(0, n as int) =~= pv);
        assert(idx == all.len());
        assert(infer_run(all, idx, gm) == (gm, true));
    }
    cm
}

} // verus!
