//! Puzzle tasks: paired training grids and test grids whose outputs may be
//! withheld. Loading a task from its source is the caller's concern; this
//! module holds the task data and splits it into input and output lists.
use vstd::prelude::*;

use crate::grid::Grid;

verus! {

/// A puzzle task: training pairs, and test pairs whose outputs may be
/// withheld.
pub struct Task {
    pub train: Vec<(Grid, Grid)>,
    pub test: Vec<(Grid, Option<Grid>)>,
}

/// Parallel lists of input grids and output grids.
pub struct Pairs {
    pub inputs: Vec<Grid>,
    pub outputs: Vec<Grid>,
}

/// Splits grid pairs into parallel input and output lists.
pub fn input_output_pairs(pairs: &Vec<(Grid, Grid)>) -> (r: Pairs)
    ensures
        r.inputs@.len() == pairs@.len(),
        r.outputs@.len() == pairs@.len(),
        forall|i: int| 0 <= i < pairs@.len() ==> (#[trigger] r.inputs@[i])@ == pairs@[i].0@,
        forall|i: int| 0 <= i < pairs@.len() ==> (#[trigger] r.outputs@[i])@ == pairs@[i].1@,
{
    let n = pairs.len();
    let mut inputs: Vec<Grid> = Vec::new();
    let mut outputs: Vec<Grid> = Vec::new();
    let mut i: usize = 0;
    while i < n
        invariant
            i <= n,
            n == pairs@.len(),
            inputs@.len() == i,
            outputs@.len() == i,
            forall|p: int| 0 <= p < i ==> (#[trigger] inputs@[p])@ == pairs@[p].0@,
            forall|p: int| 0 <= p < i ==> (#[trigger] outputs@[p])@ == pairs@[p].1@,
        decreases n - i,
    {
        let g = pairs[i].0.clone();
        let h = pairs[i].1.clone();
        proof {
            assert(g@ =~= pairs@[i as int].0@);
            assert(h@ =~= pairs@[i as int].1@);
        }
        inputs.push(g);
        outputs.push(h);
        i += 1;
    }
    Pairs { inputs, outputs }
}

/// The view of the stand-in for a withheld output: one empty row.
pub open spec fn withheld_view() -> crate::grid::GridView {
    crate::grid::GridView { rows: 1, cols: 0, cells: Seq::empty() }
}

/// Splits grid pairs whose outputs may be withheld into parallel lists; a
/// withheld output becomes a grid of one empty row.
pub fn input_option_output_pairs(pairs: &Vec<(Grid, Option<Grid>)>) -> (r: Pairs)
    ensures
        r.inputs@.len() == pairs@.len(),
        r.outputs@.len() == pairs@.len(),
        forall|i: int| 0 <= i < pairs@.len() ==> (#[trigger] r.inputs@[i])@ == pairs@[i].0@,
        forall|i: int|
            0 <= i < pairs@.len() ==> (#[trigger] r.outputs@[i])@ == (match pairs@[i].1 {
                Some(g) => g@,
                None => withheld_view(),
            }),
{
    let n = pairs.len();
    let mut inputs: Vec<Grid> = Vec::new();
    let mut outputs: Vec<Grid> = Vec::new();
    let mut i: usize = 0;
    while i < n
        invariant
            i <= n,
            n == pairs@.len(),
            inputs@.len() == i,
            outputs@.len() == i,
            forall|p: int| 0 <= p < i ==> (#[trigger] inputs@[p])@ == pairs@[p].0@,
            forall|p: int|
                0 <= p < i ==> (#[trigger] outputs@[p])@ == (match pairs@[p].1 {
                    Some(g) => g@,
                    None => withheld_view(),
                }),
        decreases n - i,
    {
        let g = pairs[i].0.clone();
        proof {
            assert(g@ =~= pairs@[i as int].0@);
        }
        inputs.push(g);
        let out = match &pairs[i].1 {
            Some(h) => {
                let h2 = h.clone();
                proof {
                    assert(h2@ =~= h@);
                }
                h2
            },
            None => {
                let e = Grid { rows: 1, cols: 0, data: Vec::new() };
                proof {
                    assert(e@ =~= withheld_view());
                }
                e
            },
        };
        outputs.push(out);
        i += 1;
    }
    Pairs { inputs, outputs }
}

} // verus!
