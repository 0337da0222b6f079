//! The synthesis engine: level-by-level enumeration of well-typed expression
//! skeletons, binding of their free inputs to nullary sources, and the
//! best-match search against each target value.
use vstd::prelude::*;

use crate::connection::Connection;
use crate::connection::ConnectionValue;
use crate::connection::EngineError;
use crate::neuron::Distance;
use crate::neuron::Neuron;
use crate::neuron::NeuronValue;
use crate::neuron::ValueType;

verus! {

use crate::connection::cv_eq;
use crate::connection::cv_idx_ok;
use crate::connection::clamp_usize;
use crate::neuron::ValView;
use crate::neuron::view_heuristic;

/// A slot value carries the declared type: a concrete value must carry the
/// slot's tag, and a sub-connection's neuron must produce it.
pub open spec fn slot_typed(cv: ConnectionValue, t: ValueType, lib: Seq<Neuron>) -> bool
    decreases cv,
{
    match cv {
        ConnectionValue::Value(v) => v@.tag() == t,
        ConnectionValue::Connection(sub) => {
            &&& conn_typed(*sub, lib)
            &&& lib[sub.neuron as int].output_type == t
        },
    }
}

/// The tree is fully typed: every node's slot count matches its neuron's
/// declared input types and every slot carries its declared type.
pub open spec fn conn_typed(c: Connection, lib: Seq<Neuron>) -> bool
    decreases c,
{
    &&& c.neuron < lib.len()
    &&& c.inputs@.len() == lib[c.neuron as int].input_types@.len()
    &&& forall|i: int|
        0 <= i < c.inputs@.len() ==> slot_typed(
            #[trigger] c.inputs@[i],
            lib[c.neuron as int].input_types@[i],
            lib,
        )
}

/// A tree the engine keeps: indices valid, values well formed, fully typed.
pub open spec fn good_conn(c: Connection, lib: Seq<Neuron>) -> bool {
    c.idx_ok(lib) && c.vals_wf() && conn_typed(c, lib)
}

/// A bucket of trees sharing an output type, with no structural duplicates.
pub open spec fn bucket_wf(b: Seq<Connection>, lib: Seq<Neuron>, t: ValueType) -> bool {
    &&& forall|i: int|
        0 <= i < b.len() ==> good_conn(#[trigger] b[i], lib) && lib[b[i].neuron as int].output_type
            == t
    &&& forall|i: int, j: int|
        0 <= i < j < b.len() ==> !(#[trigger] b[i]).conn_eq(#[trigger] b[j])
}

/// A map from output type to a bucket of trees, with distinct keys.
pub open spec fn tmap_wf(m: Seq<(ValueType, Vec<Connection>)>, lib: Seq<Neuron>) -> bool {
    &&& forall|i: int, j: int| 0 <= i < j < m.len() ==> (#[trigger] m[i]).0 != (#[trigger] m[j]).0
    &&& forall|i: int| 0 <= i < m.len() ==> bucket_wf((#[trigger] m[i]).1@, lib, m[i].0)
}

/// Structural equality of trees is reflexive.
pub proof fn lemma_conn_eq_refl(a: Connection)
    ensures
        a.conn_eq(a),
    decreases a,
{
    assert forall|i: int| 0 <= i < a.inputs@.len() implies cv_eq(#[trigger] a.inputs@[i], a.inputs@[i]) by {
        match a.inputs@[i] {
            ConnectionValue::Connection(x) => {
                lemma_conn_eq_refl(*x);
            },
            _ => {},
        }
    }
}

/// Structurally equal trees have the same size.
pub proof fn lemma_conn_eq_cost(a: Connection, b: Connection)
    requires
        a.conn_eq(b),
    ensures
        a.spec_cost() == b.spec_cost(),
    decreases a,
{
    lemma_slots_eq_cost(a.inputs@, b.inputs@);
}

/// Pairwise structurally equal slot lists contribute the same size.
proof fn lemma_slots_eq_cost(a: Seq<ConnectionValue>, b: Seq<ConnectionValue>)
    requires
        a.len() == b.len(),
        forall|i: int| 0 <= i < a.len() ==> cv_eq(#[trigger] a[i], b[i]),
    ensures
        crate::connection::slots_cost(a) == crate::connection::slots_cost(b),
    decreases a,
{
    if a.len() > 0 {
        assert(forall|i: int|
            0 <= i < a.drop_last().len() ==> cv_eq(#[trigger] a.drop_last()[i], b.drop_last()[i]));
        lemma_slots_eq_cost(a.drop_last(), b.drop_last());
        assert(cv_eq(a.last(), b.last()));
        match (a.last(), b.last()) {
            (ConnectionValue::Connection(x), ConnectionValue::Connection(y)) => {
                lemma_conn_eq_cost(*x, *y);
            },
            _ => {},
        }
    }
}

/// The tree is the leaf of neuron `n`: that neuron at the root and no slots.
pub open spec fn is_leaf_of(c: Connection, n: int) -> bool {
    c.neuron == n && c.inputs@.len() == 0
}

/// The neuron takes no inputs.
pub open spec fn nullary(lib: Seq<Neuron>, n: int) -> bool {
    0 <= n < lib.len() && lib[n].input_types@.len() == 0
}

/// The distance of neuron `n`'s leaf tree to a target: the heuristic of the
/// neuron applied to no arguments, or infinity when that is undefined.
pub open spec fn leaf_dist(n: int, lib: Seq<Neuron>, t: NeuronValue) -> Distance {
    match crate::neuron::spec_apply(lib[n], Seq::<ValView>::empty()) {
        Some(w) => view_heuristic(w, t@),
        None => Distance::Infinite,
    }
}

/// A leaf tree's distance is its neuron's leaf distance.
pub proof fn lemma_leaf_cand_dist(c: Connection, lib: Seq<Neuron>, n: int, t: NeuronValue)
    requires
        is_leaf_of(c, n),
        0 <= n < lib.len(),
    ensures
        cand_dist(c, lib, t) == leaf_dist(n, lib, t),
{
    assert(crate::connection::slots_outputs(c.inputs@, lib) == Some(Seq::<ValView>::empty()));
}

/// Structurally equal trees evaluate to the same output.
pub proof fn lemma_conn_eq_output(a: Connection, b: Connection, lib: Seq<Neuron>)
    requires
        a.conn_eq(b),
    ensures
        a.spec_output(lib) == b.spec_output(lib),
    decreases a,
{
    lemma_slots_eq_outputs(a.inputs@, b.inputs@, lib);
}

/// Pairwise structurally equal slot lists contribute the same argument
/// vector.
proof fn lemma_slots_eq_outputs(a: Seq<ConnectionValue>, b: Seq<ConnectionValue>, lib: Seq<Neuron>)
    requires
        a.len() == b.len(),
        forall|i: int| 0 <= i < a.len() ==> cv_eq(#[trigger] a[i], b[i]),
    ensures
        crate::connection::slots_outputs(a, lib) == crate::connection::slots_outputs(b, lib),
    decreases a,
{
    if a.len() > 0 {
        assert(forall|i: int|
            0 <= i < a.drop_last().len() ==> cv_eq(#[trigger] a.drop_last()[i], b.drop_last()[i]));
        lemma_slots_eq_outputs(a.drop_last(), b.drop_last(), lib);
        assert(cv_eq(a.last(), b.last()));
        match (a.last(), b.last()) {
            (ConnectionValue::Connection(x), ConnectionValue::Connection(y)) => {
                lemma_conn_eq_output(*x, *y, lib);
            },
            _ => {},
        }
    }
}

/// The cartesian product of index ranges, one range per list: every tuple of
/// one index below each bound, ordered with the last position fastest.
pub open spec fn index_product(lens: Seq<usize>) -> Seq<Seq<usize>>
    decreases lens.len(),
{
    if lens.len() == 0 {
        seq![Seq::<usize>::empty()]
    } else {
        extend_each(index_product(lens.drop_last()), lens.last() as int)
    }
}

/// Appends each index below `m` to each tuple.
pub open spec fn extend_each(ts: Seq<Seq<usize>>, m: int) -> Seq<Seq<usize>> {
    Seq::new((ts.len() * m) as nat, |j: int| ts[j / m].push((j % m) as usize))
}

/// Materialises the cartesian product of index ranges.
pub fn product_indices(lens: &Vec<usize>) -> (r: Vec<Vec<usize>>)
    ensures
        Seq::new(r@.len(), |i: int| r@[i]@) == index_product(lens@),
{
    let mut result: Vec<Vec<usize>> = Vec::new();
    result.push(Vec::new());
    proof {
        assert(Seq::new(result@.len(), |i: int| result@[i]@) =~= index_product(
            lens@.subrange(0, 0),
        ));
    }
    let n = lens.len();
    let mut k: usize = 0;
    while k < n
        invariant
            k <= n,
            n == lens@.len(),
            Seq::new(result@.len(), |i: int| result@[i]@) == index_product(
                lens@.subrange(0, k as int),
            ),
        decreases n - k,
    {
        let ghost prev = Seq::new(result@.len(), |i: int| result@[i]@);
        let m = lens[k];
        let mut next: Vec<Vec<usize>> = Vec::new();
        let rl = result.len();
        let mut i: usize = 0;
        while i < rl
            invariant
                i <= rl,
                rl == result@.len(),
                m == lens@[k as int],
                prev == Seq::new(result@.len(), |t: int| result@[t]@),
                next@.len() == i * m,
                forall|j: int|
                    0 <= j < next@.len() ==> (#[trigger] next@[j])@ == prev[j / (m as int)].push(
                        ((j % (m as int)) as usize),
                    ),
            decreases rl - i,
        {
            let mut v: usize = 0;
            while v < m
                invariant
                    i < rl,
                    v <= m,
                    rl == result@.len(),
                    m == lens@[k as int],
                    prev == Seq::new(result@.len(), |t: int| result@[t]@),
                    next@.len() == i * m + v,
                    forall|j: int|
                        0 <= j < next@.len() ==> (#[trigger] next@[j])@ == prev[j / (m as int)].push(
                            ((j % (m as int)) as usize),
                        ),
                decreases m - v,
            {
                let mut tup = crate::neuron::copy_vec(&result[i]);
                tup.push(v);
                next.push(tup);
                proof {
                    let j = i * m + v;
                    vstd::arithmetic::div_mod::lemma_fundamental_div_mod_converse(
                        j as int,
                        m as int,
                        i as int,
                        v as int,
                    );
                    assert((next@[j as int])@ =~= prev[i as int].push(v));
                }
                v += 1;
            }
            i += 1;
            proof {
                assert(i * m == (i - 1) * m + m) by (nonlinear_arith);
            }
        }
        result = next;
        k += 1;
        proof {
            assert(lens@.subrange(0, k as int).drop_last() =~= lens@.subrange(0, k - 1));
            assert(lens@.subrange(0, k as int).last() == lens@[k - 1]);
            assert(Seq::new(result@.len(), |t: int| result@[t]@) =~= extend_each(
                prev,
                m as int,
            ));
        }
    }
    proof {
        assert(lens@.subrange(0, n as int) =~= lens@);
    }
    result
}

/// The distance of a candidate tree to a target: the heuristic of its
/// output, or infinity when its output is undefined.
pub open spec fn cand_dist(c: Connection, lib: Seq<Neuron>, t: NeuronValue) -> Distance {
    match c.spec_output(lib) {
        Some(w) => view_heuristic(w, t@),
        None => Distance::Infinite,
    }
}

/// The search key of a candidate: its distance, then its clamped size.
pub open spec fn cand_le(a: Connection, b: Connection, lib: Seq<Neuron>, t: NeuronValue) -> bool {
    ||| cand_dist(a, lib, t).spec_lt(cand_dist(b, lib, t))
    ||| (cand_dist(a, lib, t) == cand_dist(b, lib, t) && clamp_usize(a.spec_cost() as int)
        <= clamp_usize(b.spec_cost() as int))
}

/// The first candidate whose distance lies strictly below the threshold, at
/// or after position `i`; the length when there is none.
pub open spec fn first_hit_from(
    cands: Seq<Connection>,
    lib: Seq<Neuron>,
    t: NeuronValue,
    eps: u64,
    i: int,
) -> int
    decreases cands.len() - i,
{
    if i < 0 || i >= cands.len() {
        cands.len() as int
    } else if cand_dist(cands[i], lib, t).spec_below(eps) {
        i
    } else {
        first_hit_from(cands, lib, t, eps, i + 1)
    }
}

/// The part of the candidate list the searcher examines: everything up to
/// and including the first candidate below the threshold, or the whole list.
pub open spec fn scan_end(cands: Seq<Connection>, lib: Seq<Neuron>, t: NeuronValue, eps: u64) -> int {
    let h = first_hit_from(cands, lib, t, eps, 0);
    if h < cands.len() {
        h + 1
    } else {
        cands.len() as int
    }
}

/// A result the searcher may return for a target: a valid tree whose output
/// is defined and lies at a finite distance from the target.
pub open spec fn candidate_found(c: Connection, lib: Seq<Neuron>, t: NeuronValue) -> bool {
    &&& c.idx_ok(lib)
    &&& cand_dist(c, lib, t) is Finite
}

/// Searches a candidate list for the best match against one target.
///
/// Candidates are examined in order; the scan stops at the first candidate
/// whose distance lies strictly below `eps`. Among the examined candidates
/// the returned index minimises the key (distance, then size), preferring
/// the earliest; no index is returned exactly when every examined candidate
/// is at infinite distance.
pub fn best_candidate(
    cands: &Vec<Connection>,
    lib: &Vec<Neuron>,
    target: &NeuronValue,
    eps: u64,
) -> (r: Option<usize>)
    requires
        target.val_wf(),
    ensures
        r matches Some(j) ==> {
            &&& j < cands@.len()
            &&& cand_dist(cands@[j as int], lib@, *target) is Finite
            &&& forall|p: int|
                0 <= p < scan_end(cands@, lib@, *target, eps) ==> cand_le(
                    cands@[j as int],
                    #[trigger] cands@[p],
                    lib@,
                    *target,
                )
        },
        r is None <==> (forall|p: int|
            0 <= p < scan_end(cands@, lib@, *target, eps) ==> cand_dist(
                #[trigger] cands@[p],
                lib@,
                *target,
            ) is Infinite),
{
    let n = cands.len();
    let mut best: Option<usize> = None;
    let mut best_dist: Distance = Distance::Infinite;
    let mut best_cost: usize = 0;
    let mut i: usize = 0;
    proof {
        lemma_first_hit_at_least(cands@, lib@, *target, eps, 0);
    }
    while i < n
        invariant
            i <= n,
            n == cands@.len(),
            target.val_wf(),
            first_hit_from(cands@, lib@, *target, eps, 0) >= i,
            best matches Some(j) ==> {
                &&& j < i
                &&& cand_dist(cands@[j as int], lib@, *target) == best_dist
                &&& best_dist is Finite
                &&& best_cost == clamp_usize(cands@[j as int].spec_cost() as int)
                &&& forall|p: int|
                    0 <= p < i ==> cand_le(cands@[j as int], #[trigger] cands@[p], lib@, *target)
            },
            best is None ==> (best_dist is Infinite && forall|p: int|
                0 <= p < i ==> cand_dist(#[trigger] cands@[p], lib@, *target) is Infinite),
        decreases n - i,
    {
        proof {
            lemma_first_hit_step(cands@, lib@, *target, eps, i as int);
        }
        let d = match cands[i].output(lib) {
            Some(v) => v.heuristic(target),
            None => Distance::Infinite,
        };
        let c = cands[i].cost();
        let improves = match (&d, &best_dist) {
            (Distance::Infinite, _) => false,
            (Distance::Finite(x), Distance::Infinite) => true,
            (Distance::Finite(x), Distance::Finite(y)) => *x < *y || (*x == *y && c < best_cost),
        };
        if improves {
            best = Some(i);
            best_dist = d;
            best_cost = c;
        }
        i += 1;
        if d.below(eps) {
            proof {
                assert(first_hit_from(cands@, lib@, *target, eps, i - 1) == i - 1);
                lemma_first_hit_prefix(cands@, lib@, *target, eps, i - 1);
                assert(scan_end(cands@, lib@, *target, eps) == i);
            }
            return best;
        }
    }
    proof {
        lemma_first_hit_end(cands@, lib@, *target, eps);
    }
    best
}

/// If no candidate before `i` lies below the threshold, the first hit from
/// the start is the first hit from `i`.
proof fn lemma_first_hit_step(
    cands: Seq<Connection>,
    lib: Seq<Neuron>,
    t: NeuronValue,
    eps: u64,
    i: int,
)
    requires
        0 <= i < cands.len(),
        first_hit_from(cands, lib, t, eps, 0) >= i,
    ensures
        !cand_dist(cands[i], lib, t).spec_below(eps) ==> first_hit_from(cands, lib, t, eps, 0) >= i
            + 1,
        cand_dist(cands[i], lib, t).spec_below(eps) ==> first_hit_from(cands, lib, t, eps, 0) == i,
{
    lemma_first_hit_reaches(cands, lib, t, eps, 0, i);
    lemma_first_hit_at_least(cands, lib, t, eps, i + 1);
}

/// The first hit never lies before the start of the search.
proof fn lemma_first_hit_at_least(
    cands: Seq<Connection>,
    lib: Seq<Neuron>,
    t: NeuronValue,
    eps: u64,
    i: int,
)
    requires
        0 <= i <= cands.len(),
    ensures
        first_hit_from(cands, lib, t, eps, i) >= i,
    decreases cands.len() - i,
{
    if i < cands.len() {
        lemma_first_hit_at_least(cands, lib, t, eps, i + 1);
    }
}

/// Walking the first-hit recursion forward: if no candidate in `[from, i)`
/// lies below the threshold, the first hit from `from` is the first hit
/// from `i`.
proof fn lemma_first_hit_reaches(
    cands: Seq<Connection>,
    lib: Seq<Neuron>,
    t: NeuronValue,
    eps: u64,
    from: int,
    i: int,
)
    requires
        0 <= from <= i < cands.len(),
        first_hit_from(cands, lib, t, eps, from) >= i,
    ensures
        first_hit_from(cands, lib, t, eps, from) == first_hit_from(cands, lib, t, eps, i),
    decreases i - from,
{
    if from < i {
        lemma_first_hit_reaches(cands, lib, t, eps, from + 1, i);
    }
}

/// Once the first hit is known to be at `h`, the examined part ends right
/// after it.
proof fn lemma_first_hit_prefix(
    cands: Seq<Connection>,
    lib: Seq<Neuron>,
    t: NeuronValue,
    eps: u64,
    h: int,
)
    requires
        0 <= h < cands.len(),
        first_hit_from(cands, lib, t, eps, 0) == h,
    ensures
        scan_end(cands, lib, t, eps) == h + 1,
{
}

/// When the scan runs out, the examined part is the whole list.
proof fn lemma_first_hit_end(cands: Seq<Connection>, lib: Seq<Neuron>, t: NeuronValue, eps: u64)
    requires
        first_hit_from(cands, lib, t, eps, 0) >= cands.len(),
    ensures
        scan_end(cands, lib, t, eps) == cands.len(),
{
    lemma_first_hit_at_most(cands, lib, t, eps, 0);
}

/// A first hit inside the list really is a hit.
proof fn lemma_first_hit_hits(
    cands: Seq<Connection>,
    lib: Seq<Neuron>,
    t: NeuronValue,
    eps: u64,
    i: int,
)
    requires
        0 <= i,
        first_hit_from(cands, lib, t, eps, i) < cands.len(),
    ensures
        cand_dist(cands[first_hit_from(cands, lib, t, eps, i)], lib, t).spec_below(eps),
    decreases cands.len() - i,
{
    if i < cands.len() && !cand_dist(cands[i], lib, t).spec_below(eps) {
        lemma_first_hit_hits(cands, lib, t, eps, i + 1);
    }
}

/// The first hit never lies beyond the length.
proof fn lemma_first_hit_at_most(
    cands: Seq<Connection>,
    lib: Seq<Neuron>,
    t: NeuronValue,
    eps: u64,
    i: int,
)
    ensures
        first_hit_from(cands, lib, t, eps, i) <= cands.len(),
    decreases cands.len() - i,
{
    if 0 <= i < cands.len() {
        lemma_first_hit_at_most(cands, lib, t, eps, i + 1);
    }
}


/// Structurally equal trees agree on typing.
pub proof fn lemma_conn_eq_typed(a: Connection, b: Connection, lib: Seq<Neuron>)
    requires
        a.conn_eq(b),
    ensures
        conn_typed(a, lib) <==> conn_typed(b, lib),
    decreases a,
{
    assert forall|i: int|
        0 <= i < a.inputs@.len() implies (slot_typed(
        #[trigger] a.inputs@[i],
        lib[a.neuron as int].input_types@[i],
        lib,
    ) <==> slot_typed(b.inputs@[i], lib[b.neuron as int].input_types@[i], lib)) by {
        assert(cv_eq(a.inputs@[i], b.inputs@[i]));
        match (a.inputs@[i], b.inputs@[i]) {
            (ConnectionValue::Connection(x), ConnectionValue::Connection(y)) => {
                lemma_conn_eq_typed(*x, *y, lib);
            },
            _ => {},
        }
    }
    if conn_typed(a, lib) {
        assert forall|i: int|
            0 <= i < b.inputs@.len() implies slot_typed(
            #[trigger] b.inputs@[i],
            lib[b.neuron as int].input_types@[i],
            lib,
        ) by {
            assert(slot_typed(a.inputs@[i], lib[a.neuron as int].input_types@[i], lib));
        }
    }
    if conn_typed(b, lib) {
        assert forall|i: int|
            0 <= i < a.inputs@.len() implies slot_typed(
            #[trigger] a.inputs@[i],
            lib[a.neuron as int].input_types@[i],
            lib,
        ) by {
            assert(slot_typed(b.inputs@[i], lib[b.neuron as int].input_types@[i], lib));
        }
    }
}

/// Structurally equal trees agree on value well-formedness.
pub proof fn lemma_conn_eq_vals_wf(a: Connection, b: Connection)
    requires
        a.conn_eq(b),
    ensures
        a.vals_wf() <==> b.vals_wf(),
    decreases a,
{
    assert forall|i: int|
        0 <= i < a.inputs@.len() implies (crate::connection::cv_vals_wf(#[trigger] a.inputs@[i])
            <==> crate::connection::cv_vals_wf(b.inputs@[i])) by {
        assert(cv_eq(a.inputs@[i], b.inputs@[i]));
        match (a.inputs@[i], b.inputs@[i]) {
            (ConnectionValue::Connection(x), ConnectionValue::Connection(y)) => {
                lemma_conn_eq_vals_wf(*x, *y);
            },
            _ => {},
        }
    }
    if a.vals_wf() {
        assert forall|i: int|
            0 <= i < b.inputs@.len() implies crate::connection::cv_vals_wf(
            #[trigger] b.inputs@[i],
        ) by {
            assert(crate::connection::cv_vals_wf(a.inputs@[i]));
        }
    }
    if b.vals_wf() {
        assert forall|i: int|
            0 <= i < a.inputs@.len() implies crate::connection::cv_vals_wf(
            #[trigger] a.inputs@[i],
        ) by {
            assert(crate::connection::cv_vals_wf(b.inputs@[i]));
        }
    }
}

/// Structurally equal trees are equally good.
pub proof fn lemma_conn_eq_good(a: Connection, b: Connection, lib: Seq<Neuron>)
    requires
        a.conn_eq(b),
    ensures
        good_conn(a, lib) <==> good_conn(b, lib),
{
    crate::connection::lemma_conn_eq_idx_ok(a, b, lib);
    lemma_conn_eq_typed(a, b, lib);
    lemma_conn_eq_vals_wf(a, b);
}

/// Every tuple of the index product has one index per list, each below its
/// bound.
proof fn lemma_index_product_shape(lens: Seq<usize>, t: int)
    requires
        0 <= t < index_product(lens).len(),
    ensures
        index_product(lens)[t].len() == lens.len(),
        forall|j: int|
            0 <= j < lens.len() ==> (#[trigger] index_product(lens)[t][j]) < lens[j],
    decreases lens.len(),
{
    if lens.len() == 0 {
    } else {
        let prev = index_product(lens.drop_last());
        let m = lens.last() as int;
        assert(index_product(lens) == extend_each(prev, m));
        assert(0 <= t < prev.len() * m);
        vstd::arithmetic::div_mod::lemma_fundamental_div_mod(t, m);
        vstd::arithmetic::div_mod::lemma_mod_bound(t, m);
        let q = t / m;
        let w = t % m;
        assert(q >= 0) by (nonlinear_arith)
            requires
                t >= 0,
                m >= 1,
                w < m,
                t == m * q + w,
        ;
        assert(q < prev.len()) by (nonlinear_arith)
            requires
                t < prev.len() * m,
                m >= 1,
                0 <= w,
                t == m * q + w,
        ;
        lemma_index_product_shape(lens.drop_last(), q);
        assert(index_product(lens)[t] == prev[q].push(w as usize));
        assert forall|j: int|
            0 <= j < lens.len() implies (#[trigger] index_product(lens)[t][j]) < lens[j] by {
            if j < lens.len() - 1 {
                assert(index_product(lens)[t][j] == prev[q][j]);
                assert(lens.drop_last()[j] == lens[j]);
            } else {
                assert(index_product(lens)[t][j] == w as usize);
            }
        }
    }
}

/// Appends a tree to a bucket unless a structurally equal tree is already
/// present, keeping the bucket free of duplicates.
fn insert_unique(bucket: &mut Vec<Connection>, c: Connection, lib: &Vec<Neuron>, Ghost(k): Ghost<
    int,
>)
    requires
        bucket_ok(old(bucket)@, lib@, k),
        good_conn(c, lib@),
        tag_index_spec(lib@[c.neuron as int].output_type) == k,
    ensures
        bucket_ok(final(bucket)@, lib@, k),
        final(bucket)@ == old(bucket)@ || final(bucket)@ == old(bucket)@.push(c),
        exists|p: int| 0 <= p < final(bucket)@.len() && (#[trigger] final(bucket)@[p]).conn_eq(c),
{
    let n = bucket.len();
    let mut i: usize = 0;
    while i < n
        invariant
            i <= n,
            n == bucket@.len(),
            bucket_ok(bucket@, lib@, k),
            forall|p: int| 0 <= p < i ==> !(#[trigger] bucket@[p]).conn_eq(c),
        decreases n - i,
    {
        if bucket[i].equals(&c) {
            proof {
                assert(bucket@[i as int].conn_eq(c));
            }
            return ;
        }
        proof {
            lemma_conn_eq_sym(bucket@[i as int], c);
        }
        i += 1;
    }
    bucket.push(c);
    proof {
        lemma_conn_eq_refl(c);
        assert(bucket@.last().conn_eq(c));
    }
}

/// Structural equality of trees is symmetric.
pub proof fn lemma_conn_eq_sym(a: Connection, b: Connection)
    ensures
        a.conn_eq(b) <==> b.conn_eq(a),
    decreases a,
{
    if a.inputs@.len() == b.inputs@.len() {
        assert forall|i: int|
            0 <= i < a.inputs@.len() implies (cv_eq(#[trigger] a.inputs@[i], b.inputs@[i]) <==> cv_eq(
            #[trigger] b.inputs@[i],
            a.inputs@[i],
        )) by {
            match (a.inputs@[i], b.inputs@[i]) {
                (ConnectionValue::Connection(x), ConnectionValue::Connection(y)) => {
                    lemma_conn_eq_sym(*x, *y);
                },
                _ => {},
            }
        }
        if a.conn_eq(b) {
            assert forall|i: int|
                0 <= i < b.inputs@.len() implies cv_eq(#[trigger] b.inputs@[i], a.inputs@[i]) by {
                assert(cv_eq(a.inputs@[i], b.inputs@[i]));
            }
        }
        if b.conn_eq(a) {
            assert forall|i: int|
                0 <= i < a.inputs@.len() implies cv_eq(#[trigger] a.inputs@[i], b.inputs@[i]) by {
                assert(cv_eq(b.inputs@[i], a.inputs@[i]));
            }
        }
    }
}

/// The position a type tag's bucket occupies.
pub open spec fn tag_index_spec(t: ValueType) -> int {
    match t {
        ValueType::Bool => 0,
        ValueType::Char => 1,
        ValueType::Int8 => 2,
        ValueType::Int32 => 3,
        ValueType::Int64 => 4,
        ValueType::String => 5,
        ValueType::Grid => 6,
        ValueType::Grids => 7,
        ValueType::Type => 8,
        ValueType::Mapping => 9,
        ValueType::PairGrids => 10,
        ValueType::LocationPairs => 11,
        ValueType::RegionsList => 12,
    }
}

/// Computes the position of a type tag's bucket.
fn tag_index(t: ValueType) -> (r: usize)
    ensures
        r == tag_index_spec(t),
        r < 13,
{
    match t {
        ValueType::Bool => 0,
        ValueType::Char => 1,
        ValueType::Int8 => 2,
        ValueType::Int32 => 3,
        ValueType::Int64 => 4,
        ValueType::String => 5,
        ValueType::Grid => 6,
        ValueType::Grids => 7,
        ValueType::Type => 8,
        ValueType::Mapping => 9,
        ValueType::PairGrids => 10,
        ValueType::LocationPairs => 11,
        ValueType::RegionsList => 12,
    }
}

/// A bucket whose trees are all good and produce the type of bucket `k`,
/// with no structural duplicates.
pub open spec fn bucket_ok(b: Seq<Connection>, lib: Seq<Neuron>, k: int) -> bool {
    &&& forall|i: int|
        0 <= i < b.len() ==> good_conn(#[trigger] b[i], lib) && tag_index_spec(
            lib[b[i].neuron as int].output_type,
        ) == k
    &&& forall|i: int, j: int|
        0 <= i < j < b.len() ==> !(#[trigger] b[i]).conn_eq(#[trigger] b[j])
}

/// Buckets of trees grouped by output type.
pub open spec fn buckets_ok(bs: Seq<Vec<Connection>>, lib: Seq<Neuron>) -> bool {
    &&& bs.len() == 13
    &&& forall|k: int| 0 <= k < 13 ==> bucket_ok((#[trigger] bs[k])@, lib, k)
}

/// Thirteen empty buckets, one per type tag.
fn empty_buckets(lib: &Vec<Neuron>) -> (r: Vec<Vec<Connection>>)
    ensures
        buckets_ok(r@, lib@),
        forall|k: int| 0 <= k < r@.len() ==> (#[trigger] r@[k])@.len() == 0,
{
    let mut r: Vec<Vec<Connection>> = Vec::new();
    let mut k: usize = 0;
    while k < 13
        invariant
            k <= 13,
            r@.len() == k,
            forall|p: int| 0 <= p < k ==> bucket_ok((#[trigger] r@[p])@, lib@, p),
            forall|p: int| 0 <= p < k ==> (#[trigger] r@[p])@.len() == 0,
        decreases 13 - k,
    {
        r.push(Vec::new());
        k += 1;
    }
    r
}


/// Every tree in a sequence nests at most `d` levels of sub-connections.
pub open spec fn all_depth_le(s: Seq<Connection>, d: int) -> bool {
    forall|i: int| 0 <= i < s.len() ==> (#[trigger] s[i]).spec_depth() <= d
}

/// Every tree in the buckets nests at most `d` levels.
pub open spec fn buckets_depth_le(bs: Seq<Vec<Connection>>, d: int) -> bool {
    forall|k: int, p: int|
        0 <= k < bs.len() && 0 <= p < (#[trigger] bs[k])@.len() ==> (#[trigger] bs[k]@[p]).spec_depth() <= d
}

/// Every tree in a sequence is good.
pub open spec fn all_good(s: Seq<Connection>, lib: Seq<Neuron>) -> bool {
    forall|i: int| 0 <= i < s.len() ==> good_conn(#[trigger] s[i], lib)
}

/// The sequence is sorted ascending by clamped tree size.
pub open spec fn sorted_by_cost(s: Seq<Connection>) -> bool {
    forall|p: int, q: int|
        0 <= p < q < s.len() ==> clamp_usize((#[trigger] s[p]).spec_cost() as int) <= clamp_usize(
            (#[trigger] s[q]).spec_cost() as int,
        )
}

/// Sorts trees ascending by size (the Occam tiebreak: prefer small
/// programs), keeping every tree.
fn sort_by_cost(v: Vec<Connection>, lib: &Vec<Neuron>) -> (r: Vec<Connection>)
    requires
        all_good(v@, lib@),
    ensures
        all_good(r@, lib@),
        sorted_by_cost(r@),
        r@.len() == v@.len(),
        forall|x: Connection| v@.contains(x) ==> r@.contains(x),
        forall|x: Connection| r@.contains(x) ==> v@.contains(x),
{
    let ghost total = v@.len();
    let ghost v0 = v@;
    let mut rest = v;
    let mut result: Vec<Connection> = Vec::new();
    while rest.len() > 0
        invariant
            all_good(rest@, lib@),
            all_good(result@, lib@),
            sorted_by_cost(result@),
            rest@.len() + result@.len() == total,
            forall|x: Connection|
                v0.contains(x) ==> rest@.contains(x) || result@.contains(x),
            forall|x: Connection|
                rest@.contains(x) || result@.contains(x) ==> v0.contains(x),
        decreases rest@.len(),
    {
        let ghost rest0 = rest@;
        let c = rest.remove(0);
        proof {
            assert(good_conn(c, lib@));
        }
        let cc = c.cost();
        let n = result.len();
        let mut pos: usize = 0;
        while pos < n
            invariant
                pos <= n,
                n == result@.len(),
                cc == clamp_usize(c.spec_cost() as int),
                forall|p: int|
                    0 <= p < pos ==> clamp_usize((#[trigger] result@[p]).spec_cost() as int) <= cc,
            decreases n - pos,
        {
            let rc = result[pos].cost();
            if rc > cc {
                break ;
            }
            pos += 1;
        }
        let ghost before = result@;
        result.insert(pos, c);
        proof {
            assert forall|x: Connection|
                v0.contains(x) implies rest@.contains(x) || result@.contains(x) by {
                if rest0.contains(x) {
                    let w = choose|w: int| 0 <= w < rest0.len() && rest0[w] == x;
                    if w == 0 {
                        assert(result@[pos as int] == c);
                        assert(result@.contains(x));
                    } else {
                        assert(rest@[w - 1] == rest0[w]);
                        assert(rest@.contains(x));
                    }
                } else if before.contains(x) {
                    let w = choose|w: int| 0 <= w < before.len() && before[w] == x;
                    if w < pos {
                        assert(result@[w] == before[w]);
                    } else {
                        assert(result@[w + 1] == before[w]);
                    }
                    assert(result@.contains(x));
                }
            }
            assert forall|x: Connection|
                rest@.contains(x) || result@.contains(x) implies v0.contains(x) by {
                if rest@.contains(x) {
                    let w = choose|w: int| 0 <= w < rest@.len() && rest@[w] == x;
                    assert(rest0[w + 1] == x);
                    assert(rest0.contains(x));
                } else {
                    let w = choose|w: int| 0 <= w < result@.len() && result@[w] == x;
                    if w == pos {
                        assert(rest0[0] == x);
                        assert(rest0.contains(x));
                    } else if w < pos {
                        assert(before[w] == x);
                        assert(before.contains(x));
                    } else {
                        assert(before[w - 1] == x);
                        assert(before.contains(x));
                    }
                }
            }
            assert forall|p: int, q: int|
                0 <= p < q < result@.len() implies clamp_usize(
                (#[trigger] result@[p]).spec_cost() as int,
            ) <= clamp_usize((#[trigger] result@[q]).spec_cost() as int) by {
                let cp = if p < pos {
                    before[p]
                } else if p == pos {
                    c
                } else {
                    before[p - 1]
                };
                let cq = if q < pos {
                    before[q]
                } else if q == pos {
                    c
                } else {
                    before[q - 1]
                };
                assert(result@[p] == cp);
                assert(result@[q] == cq);
                if pos < before.len() && (p == pos || q > pos) {
                    assert(clamp_usize(c.spec_cost() as int) < clamp_usize(
                        before[pos as int].spec_cost() as int,
                    ) || pos == before.len());
                }
            }
            assert forall|i: int| 0 <= i < result@.len() implies good_conn(
                #[trigger] result@[i],
                lib@,
            ) by {
                if i < pos {
                    assert(result@[i] == before[i]);
                } else if i == pos {
                    assert(result@[i] == c);
                } else {
                    assert(result@[i] == before[i - 1]);
                }
            }
        }
    }
    result
}

/// A candidate with its search key: the heuristic distance of its output,
/// and its size as the tiebreak.
pub struct Pair {
    pub cost: Distance,
    pub connection_cost: usize,
    pub connection: Connection,
}

impl Pair {
    /// The strict search order: smaller distance first, then smaller size.
    pub open spec fn spec_better(self, other: Pair) -> bool {
        ||| self.cost.spec_lt(other.cost)
        ||| (self.cost == other.cost && self.connection_cost < other.connection_cost)
    }

    /// Compares two candidates by (distance, size).
    pub fn better(&self, other: &Pair) -> (r: bool)
        ensures
            r == self.spec_better(*other),
    {
        if self.cost.lt(&other.cost) {
            true
        } else {
            match (&self.cost, &other.cost) {
                (Distance::Finite(a), Distance::Finite(b)) => *a == *b && self.connection_cost
                    < other.connection_cost,
                (Distance::Infinite, Distance::Infinite) => self.connection_cost
                    < other.connection_cost,
                _ => false,
            }
        }
    }
}

/// The synthesis engine: a library of neurons, searched for expression
/// trees matching target values.
pub struct Brain {
    pub neurons: Vec<Neuron>,
}

impl Brain {
    /// Builds an engine over a neuron library.
    pub fn new(neurons: Vec<Neuron>) -> (r: Brain)
        ensures
            r.neurons == neurons,
    {
        Brain { neurons }
    }

    /// The neuron library.
    pub fn neurons(&self) -> (r: &Vec<Neuron>)
        ensures
            r == &self.neurons,
    {
        &self.neurons
    }

    /// Swaps the evaluator of one neuron, leaving its typed signature and
    /// the rest of the library unchanged. Used to rebind input neurons
    /// between training and test.
    pub fn rebind(&mut self, index: usize, function: crate::neuron::Evaluator)
        requires
            index < old(self).neurons@.len(),
        ensures
            final(self).neurons@.len() == old(self).neurons@.len(),
            final(self).neurons@[index as int].function == function,
            final(self).neurons@[index as int].name@ == old(self).neurons@[index as int].name@,
            final(self).neurons@[index as int].input_types@ == old(self).neurons@[
                index as int
            ].input_types@,
            final(self).neurons@[index as int].output_type == old(self).neurons@[
                index as int
            ].output_type,
            forall|i: int|
                0 <= i < old(self).neurons@.len() && i != index ==> final(self).neurons@[i] == old(
                    self,
                ).neurons@[i],
    {
        let slot = &mut self.neurons[index];
        slot.rebind(function);
    }
}


/// Distinct type tags occupy distinct buckets.
proof fn lemma_tag_index_injective(a: ValueType, b: ValueType)
    requires
        tag_index_spec(a) == tag_index_spec(b),
    ensures
        a == b,
{
}

/// Structural equality preserves a slot's typing and value well-formedness.
proof fn lemma_cv_eq_props(a: ConnectionValue, b: ConnectionValue, t: ValueType, lib: Seq<Neuron>)
    requires
        cv_eq(a, b),
    ensures
        slot_typed(a, t, lib) <==> slot_typed(b, t, lib),
        crate::connection::cv_vals_wf(a) <==> crate::connection::cv_vals_wf(b),
{
    match (a, b) {
        (ConnectionValue::Connection(x), ConnectionValue::Connection(y)) => {
            lemma_conn_eq_typed(*x, *y, lib);
            lemma_conn_eq_vals_wf(*x, *y);
        },
        _ => {},
    }
}

/// Deep-copies a good tree; the copy is good, structurally equal, and
/// produces the same output.
fn clone_good(c: &Connection, lib: &Vec<Neuron>) -> (r: Connection)
    requires
        good_conn(*c, lib@),
    ensures
        good_conn(r, lib@),
        r.conn_eq(*c),
        r.neuron == c.neuron,
        r.spec_output(lib@) == c.spec_output(lib@),
        r.spec_depth() == c.spec_depth(),
{
    let r = c.deep_clone();
    proof {
        lemma_conn_eq_good(r, *c, lib@);
        lemma_conn_eq_output(r, *c, lib@);
        crate::connection::lemma_conn_eq_depth(r, *c);
    }
    r
}

/// Flattens the buckets into one list of copies.
fn flatten_buckets(b: &Vec<Vec<Connection>>, lib: &Vec<Neuron>, Ghost(d): Ghost<int>) -> (r: Vec<
    Connection,
>)
    requires
        buckets_ok(b@, lib@),
        buckets_depth_le(b@, d),
    ensures
        all_good(r@, lib@),
        all_depth_le(r@, d),
{
    let mut r: Vec<Connection> = Vec::new();
    let mut k: usize = 0;
    while k < 13
        invariant
            k <= 13,
            buckets_ok(b@, lib@),
            buckets_depth_le(b@, d),
            all_good(r@, lib@),
            all_depth_le(r@, d),
        decreases 13 - k,
    {
        let bucket = &b[k];
        let m = bucket.len();
        let mut i: usize = 0;
        while i < m
            invariant
                i <= m,
                k < 13,
                m == bucket@.len(),
                bucket@ == b@[k as int]@,
                buckets_ok(b@, lib@),
                buckets_depth_le(b@, d),
                all_good(r@, lib@),
                all_depth_le(r@, d),
            decreases m - i,
        {
            proof {
                assert(good_conn(bucket@[i as int], lib@));
                assert(bucket@[i as int].spec_depth() <= d);
            }
            r.push(clone_good(&bucket[i], lib));
            i += 1;
        }
        k += 1;
    }
    r
}

/// The initial skeletons: one per neuron with inputs, each slot holding a
/// typed placeholder for its declared type.
pub fn init_skeletons(lib: &Vec<Neuron>) -> (r: Vec<Connection>)
    ensures
        all_good(r@, lib@),
        all_depth_le(r@, 0),
{
    let mut r: Vec<Connection> = Vec::new();
    let n = lib.len();
    let mut idx: usize = 0;
    while idx < n
        invariant
            idx <= n,
            n == lib@.len(),
            all_good(r@, lib@),
            all_depth_le(r@, 0),
        decreases n - idx,
    {
        let arity = lib[idx].input_types.len();
        if arity > 0 {
            let mut slots: Vec<ConnectionValue> = Vec::new();
            let mut j: usize = 0;
            while j < arity
                invariant
                    j <= arity,
                    idx < n,
                    n == lib@.len(),
                    arity == lib@[idx as int].input_types@.len(),
                    slots@.len() == j,
                    forall|p: int|
                        0 <= p < j ==> slot_typed(
                            #[trigger] slots@[p],
                            lib@[idx as int].input_types@[p],
                            lib@,
                        ) && cv_idx_ok(slots@[p], lib@) && crate::connection::cv_vals_wf(
                            slots@[p],
                        ) && (slots@[p] matches ConnectionValue::Value(_)),
                decreases arity - j,
            {
                let t = lib[idx].input_types[j];
                slots.push(ConnectionValue::Value(NeuronValue::ValueType(t)));
                j += 1;
            }
            let c = Connection { neuron: idx, inputs: slots };
            proof {
                assert(good_conn(c, lib@));
                assert forall|p: int|
                    0 <= p < c.inputs@.len() implies crate::connection::cv_depth(
                    #[trigger] c.inputs@[p],
                ) <= 0 by {}
                crate::connection::lemma_slots_depth_bound(c.inputs@, 0);
                assert(c.spec_depth() <= 0);
            }
            r.push(c);
        }
        idx += 1;
    }
    r
}

/// The leaves: one nullary connection per nullary neuron, grouped by output
/// type. Every nullary neuron is represented by its leaf tree.
pub fn init_leaves(lib: &Vec<Neuron>) -> (r: Vec<Vec<Connection>>)
    ensures
        buckets_ok(r@, lib@),
        buckets_depth_le(r@, 0),
        forall|m: int|
            nullary(lib@, m) ==> exists|k: int, p: int|
                0 <= k < r@.len() && 0 <= p < r@[k]@.len() && is_leaf_of(
                    #[trigger] r@[k]@[p],
                    m,
                ),
{
    let n = lib.len();
    let mut r: Vec<Vec<Connection>> = Vec::new();
    let mut k: usize = 0;
    while k < 13
        invariant
            k <= 13,
            n == lib@.len(),
            r@.len() == k,
            forall|p: int| 0 <= p < k ==> bucket_ok((#[trigger] r@[p])@, lib@, p),
            buckets_depth_le(r@, 0),
            forall|m: int|
                nullary(lib@, m) && tag_index_spec(lib@[m].output_type) < k ==> exists|
                    kk: int,
                    p: int,
                |
                    0 <= kk < r@.len() && 0 <= p < r@[kk]@.len() && is_leaf_of(
                        #[trigger] r@[kk]@[p],
                        m,
                    ),
        decreases 13 - k,
    {
        let mut nb: Vec<Connection> = Vec::new();
        let mut idx: usize = 0;
        while idx < n
            invariant
                idx <= n,
                k < 13,
                n == lib@.len(),
                bucket_ok(nb@, lib@, k as int),
                all_depth_le(nb@, 0),
                forall|m: int|
                    nullary(lib@, m) && tag_index_spec(lib@[m].output_type) == k && m < idx
                        ==> exists|p: int|
                        0 <= p < nb@.len() && is_leaf_of(#[trigger] nb@[p], m),
            decreases n - idx,
        {
            if lib[idx].input_types.len() == 0 && tag_index(lib[idx].output_type) == k {
                let c = Connection { neuron: idx, inputs: Vec::new() };
                let ghost nb0 = nb@;
                proof {
                    assert(good_conn(c, lib@));
                    assert(c.spec_depth() == 0);
                }
                insert_unique(&mut nb, c, lib, Ghost(k as int));
                proof {
                    assert forall|m: int|
                        nullary(lib@, m) && tag_index_spec(lib@[m].output_type) == k && m < idx + 1
                            implies exists|p: int|
                            0 <= p < nb@.len() && is_leaf_of(#[trigger] nb@[p], m) by {
                        if m < idx {
                            let p0 = choose|p0: int|
                                0 <= p0 < nb0.len() && is_leaf_of(#[trigger] nb0[p0], m);
                            assert(nb@[p0] == nb0[p0]);
                        } else {
                            let p1 = choose|p1: int|
                                0 <= p1 < nb@.len() && (#[trigger] nb@[p1]).conn_eq(c);
                            assert(is_leaf_of(nb@[p1], m));
                        }
                    }
                }
            }
            idx += 1;
        }
        let ghost r0 = r@;
        r.push(nb);
        proof {
            assert forall|m: int|
                nullary(lib@, m) && tag_index_spec(lib@[m].output_type) < k + 1 implies exists|
                kk: int,
                p: int,
            |
                0 <= kk < r@.len() && 0 <= p < r@[kk]@.len() && is_leaf_of(
                    #[trigger] r@[kk]@[p],
                    m,
                ) by {
                if tag_index_spec(lib@[m].output_type) < k {
                    let (kk0, p0) = choose|kk0: int, p0: int|
                        0 <= kk0 < r0.len() && 0 <= p0 < r0[kk0]@.len() && is_leaf_of(
                            #[trigger] r0[kk0]@[p0],
                            m,
                        );
                    assert(r@[kk0] == r0[kk0]);
                    assert(0 <= kk0 < r@.len() && 0 <= p0 < r@[kk0]@.len() && is_leaf_of(
                        r@[kk0]@[p0],
                        m,
                    ));
                } else {
                    let p0 = choose|p0: int|
                        0 <= p0 < nb@.len() && is_leaf_of(#[trigger] nb@[p0], m);
                    assert(r@[k as int]@ == nb@);
                    assert(0 <= k < r@.len() && 0 <= p0 < r@[k as int]@.len() && is_leaf_of(
                        r@[k as int]@[p0],
                        m,
                    ));
                }
            }
        }
        k += 1;
    }
    proof {
        assert forall|m: int| nullary(lib@, m) implies tag_index_spec(lib@[m].output_type)
            < 13 by {}
    }
    r
}

/// The per-slot possibility lists for one skeleton: a typed placeholder for
/// the slot's declared type, plus every grown tree of that type as a
/// sub-connection.
fn build_possibilities(
    s: &Connection,
    grown: &Vec<Vec<Connection>>,
    lib: &Vec<Neuron>,
    Ghost(d): Ghost<int>,
) -> (r: Vec<Vec<ConnectionValue>>)
    requires
        good_conn(*s, lib@),
        buckets_ok(grown@, lib@),
        buckets_depth_le(grown@, d),
        d >= 0,
    ensures
        r@.len() == lib@[s.neuron as int].input_types@.len(),
        forall|j: int, e: int|
            0 <= j < r@.len() && 0 <= e < (#[trigger] r@[j])@.len() ==> {
                let cv = #[trigger] (r@[j])@[e];
                &&& slot_typed(cv, lib@[s.neuron as int].input_types@[j], lib@)
                &&& cv_idx_ok(cv, lib@)
                &&& crate::connection::cv_vals_wf(cv)
                &&& crate::connection::cv_depth(cv) <= d + 1
            },
{
    let arity = lib[s.neuron].input_types.len();
    let mut r: Vec<Vec<ConnectionValue>> = Vec::new();
    let mut j: usize = 0;
    while j < arity
        invariant
            j <= arity,
            good_conn(*s, lib@),
            buckets_ok(grown@, lib@),
            arity == lib@[s.neuron as int].input_types@.len(),
            r@.len() == j,
            buckets_depth_le(grown@, d),
            forall|p: int, e: int|
                0 <= p < j && 0 <= e < (#[trigger] r@[p])@.len() ==> {
                    let cv = #[trigger] (r@[p])@[e];
                    &&& slot_typed(cv, lib@[s.neuron as int].input_types@[p], lib@)
                    &&& cv_idx_ok(cv, lib@)
                    &&& crate::connection::cv_vals_wf(cv)
                    &&& crate::connection::cv_depth(cv) <= d + 1
                },
        decreases arity - j,
    {
        let t = lib[s.neuron].input_types[j];
        let mut ps: Vec<ConnectionValue> = Vec::new();
        ps.push(ConnectionValue::Value(NeuronValue::ValueType(t)));
        let k = tag_index(t);
        let bucket = &grown[k];
        let m = bucket.len();
        let mut e: usize = 0;
        while e < m
            invariant
                e <= m,
                j < arity,
                k < 13,
                t == lib@[s.neuron as int].input_types@[j as int],
                k == tag_index_spec(t),
                m == bucket@.len(),
                bucket@ == grown@[k as int]@,
                buckets_ok(grown@, lib@),
                buckets_depth_le(grown@, d),
                forall|p: int|
                    0 <= p < ps@.len() ==> {
                        let cv = #[trigger] ps@[p];
                        &&& slot_typed(cv, t, lib@)
                        &&& cv_idx_ok(cv, lib@)
                        &&& crate::connection::cv_vals_wf(cv)
                        &&& crate::connection::cv_depth(cv) <= d + 1
                    },
            decreases m - e,
        {
            proof {
                assert(good_conn(bucket@[e as int], lib@));
                assert(bucket@[e as int].spec_depth() <= d);
                assert(tag_index_spec(lib@[bucket@[e as int].neuron as int].output_type)
                    == k as int);
                lemma_tag_index_injective(
                    lib@[bucket@[e as int].neuron as int].output_type,
                    t,
                );
            }
            let sub = clone_good(&bucket[e], lib);
            ps.push(ConnectionValue::Connection(Box::new(sub)));
            e += 1;
        }
        r.push(ps);
        j += 1;
    }
    r
}

/// Fills a skeleton's slots with one possibility per slot.
fn make_filled(
    s: &Connection,
    poss: &Vec<Vec<ConnectionValue>>,
    tup: &Vec<usize>,
    lib: &Vec<Neuron>,
    Ghost(db): Ghost<int>,
) -> (r: Connection)
    requires
        good_conn(*s, lib@),
        poss@.len() == lib@[s.neuron as int].input_types@.len(),
        tup@.len() == poss@.len(),
        forall|j: int| 0 <= j < tup@.len() ==> (#[trigger] tup@[j]) < poss@[j]@.len(),
        forall|j: int, e: int|
            0 <= j < poss@.len() && 0 <= e < (#[trigger] poss@[j])@.len() ==> {
                let cv = #[trigger] (poss@[j])@[e];
                &&& slot_typed(cv, lib@[s.neuron as int].input_types@[j], lib@)
                &&& cv_idx_ok(cv, lib@)
                &&& crate::connection::cv_vals_wf(cv)
                &&& crate::connection::cv_depth(cv) <= db
            },
        db >= 0,
    ensures
        good_conn(r, lib@),
        r.neuron == s.neuron,
        r.spec_depth() <= db,
{
    let n = tup.len();
    let mut inputs: Vec<ConnectionValue> = Vec::new();
    let mut j: usize = 0;
    while j < n
        invariant
            j <= n,
            n == tup@.len() == poss@.len(),
            good_conn(*s, lib@),
            poss@.len() == lib@[s.neuron as int].input_types@.len(),
            forall|p: int| 0 <= p < n ==> (#[trigger] tup@[p]) < poss@[p]@.len(),
            forall|p: int, e: int|
                0 <= p < poss@.len() && 0 <= e < (#[trigger] poss@[p])@.len() ==> {
                    let cv = #[trigger] (poss@[p])@[e];
                    &&& slot_typed(cv, lib@[s.neuron as int].input_types@[p], lib@)
                    &&& cv_idx_ok(cv, lib@)
                    &&& crate::connection::cv_vals_wf(cv)
                    &&& crate::connection::cv_depth(cv) <= db
                },
            db >= 0,
            inputs@.len() == j,
            forall|p: int|
                0 <= p < j ==> slot_typed(
                    #[trigger] inputs@[p],
                    lib@[s.neuron as int].input_types@[p],
                    lib@,
                ) && cv_idx_ok(inputs@[p], lib@) && crate::connection::cv_vals_wf(inputs@[p])
                    && crate::connection::cv_depth(#[trigger] inputs@[p]) <= db,
        decreases n - j,
    {
        let cv = crate::connection::clone_slot(&poss[j][tup[j]], lib);
        proof {
            lemma_cv_eq_props(
                cv,
                (poss@[j as int])@[tup@[j as int] as int],
                lib@[s.neuron as int].input_types@[j as int],
                lib@,
            );
            crate::connection::lemma_cv_eq_depth_pub(
                cv,
                (poss@[j as int])@[tup@[j as int] as int],
            );
        }
        inputs.push(cv);
        j += 1;
    }
    let r = Connection { neuron: s.neuron, inputs };
    proof {
        assert(good_conn(r, lib@));
        crate::connection::lemma_slots_depth_bound(r.inputs@, db as nat);
    }
    r
}

/// One growth step of the enumerator: every skeleton's slots are filled
/// with every combination of a placeholder or an already grown tree of the
/// slot's type; the results join the grown trees, grouped by output type
/// and with structural duplicates collapsed (`bucket_ok`: the enumerated
/// sets hold no two structurally equal trees).
pub fn grow_level(
    skeletons: &Vec<Connection>,
    grown: &Vec<Vec<Connection>>,
    lib: &Vec<Neuron>,
    Ghost(d): Ghost<int>,
) -> (next: Vec<Vec<Connection>>)
    requires
        all_good(skeletons@, lib@),
        buckets_ok(grown@, lib@),
        buckets_depth_le(grown@, d),
        d >= 0,
    ensures
        buckets_ok(next@, lib@),
        buckets_depth_le(next@, d + 1),
{
    let mut additions: Vec<Connection> = flatten_buckets(grown, lib, Ghost(d));
    let sn = skeletons.len();
    let mut si: usize = 0;
    while si < sn
        invariant
            si <= sn,
            sn == skeletons@.len(),
            all_good(skeletons@, lib@),
            buckets_ok(grown@, lib@),
            buckets_depth_le(grown@, d),
            d >= 0,
            all_good(additions@, lib@),
            all_depth_le(additions@, d + 1),
        decreases sn - si,
    {
        let s = &skeletons[si];
        proof {
            assert(good_conn(*s, lib@));
        }
        let poss = build_possibilities(s, grown, lib, Ghost(d));
        let pn = poss.len();
        let mut lens: Vec<usize> = Vec::new();
        let mut j: usize = 0;
        while j < pn
            invariant
                j <= pn,
                pn == poss@.len(),
                lens@.len() == j,
                forall|p: int| 0 <= p < j ==> (#[trigger] lens@[p]) == poss@[p]@.len(),
            decreases pn - j,
        {
            lens.push(poss[j].len());
            j += 1;
        }
        let tuples = product_indices(&lens);
        let tn = tuples.len();
        let mut ti: usize = 0;
        while ti < tn
            invariant
                ti <= tn,
                tn == tuples@.len(),
                good_conn(*s, lib@),
                buckets_ok(grown@, lib@),
                d >= 0,
                all_good(additions@, lib@),
                all_depth_le(additions@, d + 1),
                pn == poss@.len(),
                poss@.len() == lib@[s.neuron as int].input_types@.len(),
                lens@.len() == pn,
                forall|p: int| 0 <= p < pn ==> (#[trigger] lens@[p]) == poss@[p]@.len(),
                Seq::new(tuples@.len(), |i: int| tuples@[i]@) == index_product(lens@),
                forall|j2: int, e: int|
                    0 <= j2 < poss@.len() && 0 <= e < (#[trigger] poss@[j2])@.len() ==> {
                        let cv = #[trigger] (poss@[j2])@[e];
                        &&& slot_typed(cv, lib@[s.neuron as int].input_types@[j2], lib@)
                        &&& cv_idx_ok(cv, lib@)
                        &&& crate::connection::cv_vals_wf(cv)
                        &&& crate::connection::cv_depth(cv) <= d + 1
                    },
            decreases tn - ti,
        {
            proof {
                assert(tuples@[ti as int]@ == index_product(lens@)[ti as int]);
                lemma_index_product_shape(lens@, ti as int);
            }
            let c = make_filled(s, &poss, &tuples[ti], lib, Ghost(d + 1));
            additions.push(c);
            ti += 1;
        }
        si += 1;
    }
    let mut next: Vec<Vec<Connection>> = Vec::new();
    let mut k: usize = 0;
    while k < 13
        invariant
            k <= 13,
            all_good(additions@, lib@),
            all_depth_le(additions@, d + 1),
            next@.len() == k,
            forall|p: int| 0 <= p < k ==> bucket_ok((#[trigger] next@[p])@, lib@, p),
            buckets_depth_le(next@, d + 1),
        decreases 13 - k,
    {
        let mut nb: Vec<Connection> = Vec::new();
        let an = additions.len();
        let mut i: usize = 0;
        while i < an
            invariant
                i <= an,
                k < 13,
                an == additions@.len(),
                all_good(additions@, lib@),
                all_depth_le(additions@, d + 1),
                bucket_ok(nb@, lib@, k as int),
                all_depth_le(nb@, d + 1),
            decreases an - i,
        {
            proof {
                assert(good_conn(additions@[i as int], lib@));
                assert(additions@[i as int].spec_depth() <= d + 1);
            }
            if tag_index(lib[additions[i].neuron].output_type) == k {
                let c = clone_good(&additions[i], lib);
                insert_unique(&mut nb, c, lib, Ghost(k as int));
            }
            i += 1;
        }
        next.push(nb);
        k += 1;
    }
    next
}

/// Binds every skeleton's free inputs to every combination of leaves of the
/// right types and collects the resulting candidate trees; a skeleton with
/// a free input type for which no leaf exists is discarded.
fn build_candidates(
    skeletons: &Vec<Connection>,
    leaves: &Vec<Vec<Connection>>,
    lib: &Vec<Neuron>,
    Ghost(db): Ghost<int>,
) -> (r: Vec<Connection>)
    requires
        all_good(skeletons@, lib@),
        buckets_ok(leaves@, lib@),
        buckets_depth_le(leaves@, 0),
        all_depth_le(skeletons@, db),
        db >= 0,
    ensures
        forall|i: int| 0 <= i < r@.len() ==> (#[trigger] r@[i]).idx_ok(lib@),
        all_depth_le(r@, db + 1),
        forall|m: int|
            #![trigger nullary(lib@, m)]
            nullary(lib@, m) && (exists|p: int|
                0 <= p < skeletons@.len() && is_leaf_of(#[trigger] skeletons@[p], m)) ==> exists|
                q: int,
            |
                0 <= q < r@.len() && is_leaf_of(#[trigger] r@[q], m),
{
    let mut cands: Vec<Connection> = Vec::new();
    let sn = skeletons.len();
    let mut si: usize = 0;
    while si < sn
        invariant
            si <= sn,
            sn == skeletons@.len(),
            all_good(skeletons@, lib@),
            buckets_ok(leaves@, lib@),
            buckets_depth_le(leaves@, 0),
            all_depth_le(skeletons@, db),
            db >= 0,
            forall|i: int| 0 <= i < cands@.len() ==> (#[trigger] cands@[i]).idx_ok(lib@),
            all_depth_le(cands@, db + 1),
            forall|m: int|
                #![trigger nullary(lib@, m)]
                nullary(lib@, m) && (exists|p: int|
                    0 <= p < si && is_leaf_of(#[trigger] skeletons@[p], m)) ==> exists|q: int|
                    0 <= q < cands@.len() && is_leaf_of(#[trigger] cands@[q], m),
        decreases sn - si,
    {
        let s = &skeletons[si];
        proof {
            assert(good_conn(*s, lib@));
        }
        let free = s.input_types(lib);
        let fn_ = free.len();
        let mut ks: Vec<usize> = Vec::new();
        let mut lens: Vec<usize> = Vec::new();
        let mut satisfiable = true;
        let mut j: usize = 0;
        while j < fn_
            invariant
                j <= fn_,
                fn_ == free@.len(),
                buckets_ok(leaves@, lib@),
                ks@.len() == lens@.len(),
                satisfiable ==> ks@.len() == j,
                !satisfiable ==> fn_ > 0,
                forall|p: int| 0 <= p < ks@.len() ==> (#[trigger] ks@[p]) < 13,
                forall|p: int|
                    0 <= p < lens@.len() ==> (#[trigger] lens@[p]) == leaves@[ks@[p] as int]@.len(),
            decreases fn_ - j,
        {
            let k = tag_index(free[j]);
            if leaves[k].len() == 0 {
                satisfiable = false;
                break ;
            }
            ks.push(k);
            lens.push(leaves[k].len());
            j += 1;
        }
        if satisfiable {
            let tuples = product_indices(&lens);
            let tn = tuples.len();
            proof {
                if s.inputs@.len() == 0 {
                    assert(s.spec_input_types(lib@) =~= Seq::<ValueType>::empty());
                    assert(lens@ =~= Seq::<usize>::empty());
                    assert(Seq::new(tuples@.len(), |i: int| tuples@[i]@).len() == 1);
                    assert(tn == 1);
                }
            }
            let mut ti: usize = 0;
            while ti < tn
                invariant
                    ti <= tn,
                    tn == tuples@.len(),
                    good_conn(*s, lib@),
                    s == skeletons@[si as int],
                    si < sn,
                    sn == skeletons@.len(),
                    buckets_ok(leaves@, lib@),
                    buckets_depth_le(leaves@, 0),
                    s.spec_depth() <= db,
                    db >= 0,
                    all_depth_le(cands@, db + 1),
                    ks@.len() == lens@.len(),
                    forall|p: int| 0 <= p < ks@.len() ==> (#[trigger] ks@[p]) < 13,
                    forall|p: int|
                        0 <= p < lens@.len() ==> (#[trigger] lens@[p]) == leaves@[
                            ks@[p] as int
                        ]@.len(),
                    Seq::new(tuples@.len(), |i: int| tuples@[i]@) == index_product(lens@),
                    forall|i: int| 0 <= i < cands@.len() ==> (#[trigger] cands@[i]).idx_ok(lib@),
                    forall|m: int|
                        #![trigger nullary(lib@, m)]
                        nullary(lib@, m) && (exists|p: int|
                            0 <= p < si && is_leaf_of(#[trigger] skeletons@[p], m)) ==> exists|
                            q: int,
                        |
                            0 <= q < cands@.len() && is_leaf_of(#[trigger] cands@[q], m),
                    s.inputs@.len() == 0 && ti >= 1 ==> exists|q: int|
                        0 <= q < cands@.len() && is_leaf_of(
                            #[trigger] cands@[q],
                            s.neuron as int,
                        ),
                decreases tn - ti,
            {
                proof {
                    assert(tuples@[ti as int]@ == index_product(lens@)[ti as int]);
                    lemma_index_product_shape(lens@, ti as int);
                }
                let tup = &tuples[ti];
                let m = tup.len();
                let mut ins: Vec<ConnectionValue> = Vec::new();
                let mut j2: usize = 0;
                while j2 < m
                    invariant
                        j2 <= m,
                        m == tup@.len(),
                        m == lens@.len(),
                        buckets_ok(leaves@, lib@),
                        ks@.len() == lens@.len(),
                        forall|p: int| 0 <= p < ks@.len() ==> (#[trigger] ks@[p]) < 13,
                        forall|p: int|
                            0 <= p < lens@.len() ==> (#[trigger] lens@[p]) == leaves@[
                                ks@[p] as int
                            ]@.len(),
                        forall|p: int| 0 <= p < m ==> (#[trigger] tup@[p]) < lens@[p],
                        buckets_depth_le(leaves@, 0),
                        ins@.len() == j2,
                        forall|p: int| 0 <= p < j2 ==> cv_idx_ok(#[trigger] ins@[p], lib@),
                        forall|p: int|
                            0 <= p < j2 ==> crate::connection::cv_depth(#[trigger] ins@[p]) <= 1,
                    decreases m - j2,
                {
                    let k = ks[j2];
                    proof {
                        assert(bucket_ok(leaves@[k as int]@, lib@, k as int));
                        assert(good_conn(leaves@[k as int]@[tup@[j2 as int] as int], lib@));
                        assert(leaves@[k as int]@[tup@[j2 as int] as int].spec_depth() <= 0);
                    }
                    let leaf = clone_good(&leaves[k][tup[j2]], lib);
                    ins.push(ConnectionValue::Connection(Box::new(leaf)));
                    j2 += 1;
                }
                let mut cand = clone_good(s, lib);
                let ghost cands0 = cands@;
                let ghost cand0 = cand;
                match cand.apply_inputs(&ins, lib) {
                    Ok(()) => {
                        proof {
                            if s.inputs@.len() == 0 {
                                assert(cand.inputs@.len() == 0);
                                assert(is_leaf_of(cand, s.neuron as int));
                            }
                            crate::connection::lemma_rewritten_depth(
                                cand0,
                                ins@,
                                cand,
                                lib@,
                            );
                            assert(cand.spec_depth() <= db + 1);
                        }
                        cands.push(cand);
                        proof {
                            if s.inputs@.len() == 0 {
                                assert(cands@.last() == cand);
                                assert(is_leaf_of(
                                    cands@[cands@.len() - 1],
                                    s.neuron as int,
                                ));
                            }
                        }
                    },
                    Err(_) => {
                        proof {
                            if s.inputs@.len() == 0 {
                                assert(cand0.inputs@.len() == 0);
                                assert(ins@.len() == 0);
                                assert(cand0.spec_input_types(lib@) =~= Seq::<
                                    ValueType,
                                >::empty());
                                assert(crate::connection::conn_inputs_ok(
                                    cand0,
                                    ins@,
                                    lib@,
                                ));
                                assert(false);
                            }
                        }
                    },
                }
                proof {
                    assert forall|m: int|
                        nullary(lib@, m) && (exists|p: int|
                            0 <= p < si && is_leaf_of(#[trigger] skeletons@[p], m)) implies exists|
                        q: int,
                    |
                        0 <= q < cands@.len() && is_leaf_of(#[trigger] cands@[q], m) by {
                        let q0 = choose|q0: int|
                            0 <= q0 < cands0.len() && is_leaf_of(#[trigger] cands0[q0], m);
                        assert(cands@[q0] == cands0[q0]);
                    }
                    if s.inputs@.len() == 0 && ti >= 1 {
                        let q1 = choose|q1: int|
                            0 <= q1 < cands0.len() && is_leaf_of(
                                #[trigger] cands0[q1],
                                s.neuron as int,
                            );
                        assert(cands@[q1] == cands0[q1]);
                    }
                }
                ti += 1;
            }
        }
        proof {
            assert forall|m: int|
                nullary(lib@, m) && (exists|p: int|
                    0 <= p < si + 1 && is_leaf_of(#[trigger] skeletons@[p], m)) implies exists|
                q: int,
            |
                0 <= q < cands@.len() && is_leaf_of(#[trigger] cands@[q], m) by {
                let p0 = choose|p0: int|
                    0 <= p0 < si + 1 && is_leaf_of(#[trigger] skeletons@[p0], m);
                if p0 < si {
                    assert(exists|p: int| 0 <= p < si && is_leaf_of(#[trigger] skeletons@[p], m));
                } else {
                    assert(is_leaf_of(skeletons@[si as int], m));
                    assert(m == s.neuron as int && s.inputs@.len() == 0);
                }
            }
        }
        si += 1;
    }
    cands
}

/// The record of one search: the candidate list the searcher examined.
/// Every candidate is a valid tree; every nullary neuron's leaf tree is
/// among the candidates; the search succeeds exactly when every target has
/// a candidate at finite distance; and each returned tree minimises the key
/// (distance, then clamped size) among the candidates examined for its
/// target — everything up to and including the first candidate strictly
/// below the threshold, or the whole list.
pub open spec fn search_evidence(
    gg: Seq<Connection>,
    lib: Seq<Neuron>,
    targets: Seq<NeuronValue>,
    eps: u64,
    r: Result<Vec<Connection>, EngineError>,
) -> bool {
    &&& forall|p: int| 0 <= p < gg.len() ==> (#[trigger] gg[p]).idx_ok(lib)
    &&& forall|m: int|
        #![trigger nullary(lib, m)]
        nullary(lib, m) ==> exists|p: int| 0 <= p < gg.len() && is_leaf_of(#[trigger] gg[p], m)
    &&& (r is Ok <==> (forall|t: int|
        #![trigger targets[t]]
        0 <= t < targets.len() ==> exists|p: int|
            0 <= p < gg.len() && cand_dist(#[trigger] gg[p], lib, targets[t]) is Finite))
    &&& (r matches Ok(v) ==> forall|i: int|
        #![trigger targets[i]]
        0 <= i < targets.len() ==> {
            &&& exists|p: int| 0 <= p < gg.len() && (#[trigger] gg[p]).conn_eq(v@[i])
            &&& forall|p: int|
                0 <= p < scan_end(gg, lib, targets[i], eps) ==> cand_le(
                    v@[i],
                    #[trigger] gg[p],
                    lib,
                    targets[i],
                )
        })
}

impl Brain {
    /// Searches for one expression per target: skeletons are grown level by
    /// level up to `max_level`, their free inputs are bound to every
    /// combination of nullary leaves of the right types, and for each
    /// target the candidate minimising the heuristic distance (then the
    /// tree size) among those examined is returned; the scan for a target
    /// stops at the first candidate whose distance falls strictly below
    /// `eps`. Fails when some target has no candidate at a finite distance.
    pub fn learn(&self, targets: &Vec<NeuronValue>, max_level: usize, eps: u64) -> (r: Result<
        Vec<Connection>,
        EngineError,
    >)
        requires
            forall|i: int| 0 <= i < targets@.len() ==> (#[trigger] targets@[i]).val_wf(),
        ensures
            r matches Ok(v) ==> {
                &&& v@.len() == targets@.len()
                &&& forall|i: int|
                    0 <= i < v@.len() ==> candidate_found(
                        #[trigger] v@[i],
                        self.neurons@,
                        targets@[i],
                    )
            },
            r matches Err(e) ==> e == EngineError::NoSolution,
            targets@.len() == 0 ==> r is Ok,
            r is Err ==> exists|t: int|
                #![trigger targets@[t]]
                0 <= t < targets@.len() && (forall|m: int|
                    nullary(self.neurons@, m) ==> (#[trigger] leaf_dist(
                        m,
                        self.neurons@,
                        targets@[t],
                    )) is Infinite),
            r matches Ok(v) ==> forall|i: int|
                0 <= i < v@.len() ==> (#[trigger] v@[i]).spec_depth() <= max_level + 1,
            exists|gg: Seq<Connection>|
                search_evidence(gg, self.neurons@, targets@, eps, r),
    {
        let lib = &self.neurons;
        let mut skeletons = init_skeletons(lib);
        let leaves = init_leaves(lib);
        let mut grown = empty_buckets(lib);
        let mut level: usize = 0;
        while level < max_level
            invariant
                level <= max_level,
                all_good(skeletons@, lib@),
                buckets_ok(grown@, lib@),
                buckets_ok(leaves@, lib@),
                buckets_depth_le(leaves@, 0),
                all_depth_le(skeletons@, level as int),
                buckets_depth_le(grown@, level as int),
            decreases max_level - level,
        {
            let next = grow_level(&skeletons, &grown, lib, Ghost(level as int));
            skeletons = flatten_buckets(&next, lib, Ghost(level + 1));
            grown = next;
            level += 1;
        }
        let mut k: usize = 0;
        while k < 13
            invariant
                k <= 13,
                all_good(skeletons@, lib@),
                buckets_ok(leaves@, lib@),
                buckets_depth_le(leaves@, 0),
                all_depth_le(skeletons@, max_level as int),
                forall|m0: int|
                    nullary(lib@, m0) ==> exists|kk: int, p: int|
                        0 <= kk < leaves@.len() && 0 <= p < leaves@[kk]@.len() && is_leaf_of(
                            #[trigger] leaves@[kk]@[p],
                            m0,
                        ),
                forall|m0: int|
                    #![trigger nullary(lib@, m0)]
                    nullary(lib@, m0) && (exists|kk: int, p: int|
                        0 <= kk < k && 0 <= p < leaves@[kk]@.len() && is_leaf_of(
                            #[trigger] leaves@[kk]@[p],
                            m0,
                        )) ==> exists|q: int|
                        0 <= q < skeletons@.len() && is_leaf_of(#[trigger] skeletons@[q], m0),
            decreases 13 - k,
        {
            let bucket = &leaves[k];
            let m = bucket.len();
            let mut i: usize = 0;
            while i < m
                invariant
                    i <= m,
                    k < 13,
                    m == bucket@.len(),
                    bucket@ == leaves@[k as int]@,
                    buckets_ok(leaves@, lib@),
                    buckets_depth_le(leaves@, 0),
                    all_good(skeletons@, lib@),
                    all_depth_le(skeletons@, max_level as int),
                    forall|m0: int|
                        #![trigger nullary(lib@, m0)]
                        nullary(lib@, m0) && (exists|kk: int, p: int|
                            0 <= kk < k && 0 <= p < leaves@[kk]@.len() && is_leaf_of(
                                #[trigger] leaves@[kk]@[p],
                                m0,
                            )) ==> exists|q: int|
                            0 <= q < skeletons@.len() && is_leaf_of(
                                #[trigger] skeletons@[q],
                                m0,
                            ),
                    forall|p: int|
                        #![trigger bucket@[p]]
                        0 <= p < i ==> exists|q: int|
                            0 <= q < skeletons@.len() && (#[trigger] skeletons@[q]).conn_eq(
                                bucket@[p],
                            ),
                decreases m - i,
            {
                proof {
                    assert(good_conn(bucket@[i as int], lib@));
                }
                let ghost sk0 = skeletons@;
                proof {
                    assert(bucket@[i as int].spec_depth() <= 0);
                }
                skeletons.push(clone_good(&bucket[i], lib));
                proof {
                    assert(skeletons@.last().conn_eq(bucket@[i as int]));
                    assert forall|m0: int|
                        nullary(lib@, m0) && (exists|kk: int, p: int|
                            0 <= kk < k && 0 <= p < leaves@[kk]@.len() && is_leaf_of(
                                #[trigger] leaves@[kk]@[p],
                                m0,
                            )) implies exists|q: int|
                        0 <= q < skeletons@.len() && is_leaf_of(
                            #[trigger] skeletons@[q],
                            m0,
                        ) by {
                        let q0 = choose|q0: int|
                            0 <= q0 < sk0.len() && is_leaf_of(#[trigger] sk0[q0], m0);
                        assert(skeletons@[q0] == sk0[q0]);
                    }
                    assert forall|p: int|
                        #![trigger bucket@[p]]
                        0 <= p < i + 1 implies exists|q: int|
                        0 <= q < skeletons@.len() && (#[trigger] skeletons@[q]).conn_eq(
                            bucket@[p],
                        ) by {
                        if p < i {
                            let q0 = choose|q0: int|
                                0 <= q0 < sk0.len() && (#[trigger] sk0[q0]).conn_eq(bucket@[p]);
                            assert(skeletons@[q0] == sk0[q0]);
                        } else {
                            assert(skeletons@[skeletons@.len() - 1].conn_eq(bucket@[p]));
                        }
                    }
                }
                i += 1;
            }
            proof {
                assert forall|m0: int|
                    nullary(lib@, m0) && (exists|kk: int, p: int|
                        0 <= kk < k + 1 && 0 <= p < leaves@[kk]@.len() && is_leaf_of(
                            #[trigger] leaves@[kk]@[p],
                            m0,
                        )) implies exists|q: int|
                    0 <= q < skeletons@.len() && is_leaf_of(#[trigger] skeletons@[q], m0) by {
                    let (kk0, p0) = choose|kk0: int, p0: int|
                        0 <= kk0 < k + 1 && 0 <= p0 < leaves@[kk0]@.len() && is_leaf_of(
                            #[trigger] leaves@[kk0]@[p0],
                            m0,
                        );
                    if kk0 < k {
                        assert(exists|kk: int, p: int|
                            0 <= kk < k && 0 <= p < leaves@[kk]@.len() && is_leaf_of(
                                #[trigger] leaves@[kk]@[p],
                                m0,
                            ));
                    } else {
                        let q0 = choose|q0: int|
                            0 <= q0 < skeletons@.len() && (#[trigger] skeletons@[q0]).conn_eq(
                                bucket@[p0],
                            );
                        assert(is_leaf_of(skeletons@[q0], m0));
                    }
                }
            }
            k += 1;
        }
        proof {
            assert forall|m0: int| nullary(lib@, m0) implies exists|q: int|
                0 <= q < skeletons@.len() && is_leaf_of(#[trigger] skeletons@[q], m0) by {
                assert(exists|kk: int, p: int|
                    0 <= kk < 13 && 0 <= p < leaves@[kk]@.len() && is_leaf_of(
                        #[trigger] leaves@[kk]@[p],
                        m0,
                    ));
            }
        }
        let ghost pre_sort = skeletons@;
        let sorted = sort_by_cost(skeletons, lib);
        proof {
            assert forall|m0: int| nullary(lib@, m0) implies exists|q: int|
                0 <= q < sorted@.len() && is_leaf_of(#[trigger] sorted@[q], m0) by {
                let q0 = choose|q0: int|
                    0 <= q0 < pre_sort.len() && is_leaf_of(#[trigger] pre_sort[q0], m0);
                assert(pre_sort.contains(pre_sort[q0]));
                assert(sorted@.contains(pre_sort[q0]));
                let q1 = choose|q1: int| 0 <= q1 < sorted@.len() && sorted@[q1] == pre_sort[q0];
                assert(is_leaf_of(sorted@[q1], m0));
            }
            assert forall|q: int|
                0 <= q < sorted@.len() implies (#[trigger] sorted@[q]).spec_depth()
                <= max_level as int by {
                assert(sorted@.contains(sorted@[q]));
                assert(pre_sort.contains(sorted@[q]));
                let q0 = choose|q0: int| 0 <= q0 < pre_sort.len() && pre_sort[q0] == sorted@[q];
                assert(pre_sort[q0].spec_depth() <= max_level as int);
            }
        }
        let cands = build_candidates(&sorted, &leaves, lib, Ghost(max_level as int));
        proof {
            assert forall|m0: int| nullary(lib@, m0) implies exists|q: int|
                0 <= q < cands@.len() && is_leaf_of(#[trigger] cands@[q], m0) by {
                assert(exists|p: int| 0 <= p < sorted@.len() && is_leaf_of(#[trigger] sorted@[p], m0));
            }
        }
        let mut results: Vec<Connection> = Vec::new();
        let tn = targets.len();
        let mut ti: usize = 0;
        while ti < tn
            invariant
                ti <= tn,
                tn == targets@.len(),
                lib == &self.neurons,
                forall|i: int| 0 <= i < targets@.len() ==> (#[trigger] targets@[i]).val_wf(),
                forall|i: int| 0 <= i < cands@.len() ==> (#[trigger] cands@[i]).idx_ok(lib@),
                all_depth_le(cands@, max_level + 1),
                forall|m0: int|
                    #![trigger nullary(lib@, m0)]
                    nullary(lib@, m0) ==> exists|q: int|
                        0 <= q < cands@.len() && is_leaf_of(#[trigger] cands@[q], m0),
                results@.len() == ti,
                all_depth_le(results@, max_level + 1),
                forall|i: int|
                    0 <= i < ti ==> candidate_found(#[trigger] results@[i], lib@, targets@[i]),
                forall|i: int|
                    #![trigger targets@[i]]
                    0 <= i < ti ==> exists|p: int|
                        0 <= p < cands@.len() && cand_dist(
                            #[trigger] cands@[p],
                            lib@,
                            targets@[i],
                        ) is Finite,
                forall|i: int|
                    #![trigger results@[i]]
                    0 <= i < ti ==> exists|p: int|
                        0 <= p < cands@.len() && (#[trigger] cands@[p]).conn_eq(results@[i]),
                forall|i: int, p: int|
                    #![trigger results@[i], cands@[p]]
                    0 <= i < ti && 0 <= p < scan_end(cands@, lib@, targets@[i], eps) ==> cand_le(
                        results@[i],
                        cands@[p],
                        lib@,
                        targets@[i],
                    ),
            decreases tn - ti,
        {
            match best_candidate(&cands, lib, &targets[ti], eps) {
                Some(j) => {
                    let d = match cands[j].output(lib) {
                        Some(v) => v.heuristic(&targets[ti]),
                        None => Distance::Infinite,
                    };
                    let w = cands[j].deep_clone();
                    proof {
                        lemma_conn_eq_output(w, cands@[j as int], lib@);
                        lemma_conn_eq_cost(w, cands@[j as int]);
                        crate::connection::lemma_conn_eq_depth(w, cands@[j as int]);
                        crate::connection::lemma_conn_eq_idx_ok(w, cands@[j as int], lib@);
                        assert(w.spec_depth() <= max_level + 1);
                        assert(candidate_found(w, lib@, targets@[ti as int]));
                        lemma_conn_eq_sym(w, cands@[j as int]);
                        assert(cands@[j as int].conn_eq(w));
                        assert forall|p: int|
                            0 <= p < scan_end(cands@, lib@, targets@[ti as int], eps) implies
                        cand_le(w, #[trigger] cands@[p], lib@, targets@[ti as int]) by {
                            assert(cand_le(
                                cands@[j as int],
                                cands@[p],
                                lib@,
                                targets@[ti as int],
                            ));
                        }
                    }
                    let chosen = Pair { cost: d, connection_cost: cands[j].cost(), connection: w };
                    results.push(chosen.connection);
                },
                None => {
                    proof {
                        let t0 = targets@[ti as int];
                        assert(forall|p: int|
                            0 <= p < scan_end(cands@, lib@, t0, eps) ==> cand_dist(
                                #[trigger] cands@[p],
                                lib@,
                                t0,
                            ) is Infinite);
                        if first_hit_from(cands@, lib@, t0, eps, 0) < cands@.len() {
                            lemma_first_hit_hits(cands@, lib@, t0, eps, 0);
                            lemma_first_hit_at_least(cands@, lib@, t0, eps, 0);
                            let h = first_hit_from(cands@, lib@, t0, eps, 0);
                            assert(h < scan_end(cands@, lib@, t0, eps));
                            assert(cand_dist(cands@[h], lib@, t0) is Infinite);
                            assert(false);
                        }
                        lemma_first_hit_at_most(cands@, lib@, t0, eps, 0);
                        assert(scan_end(cands@, lib@, t0, eps) == cands@.len());
                        assert forall|m0: int| nullary(lib@, m0) implies (#[trigger] leaf_dist(
                            m0,
                            lib@,
                            t0,
                        )) is Infinite by {
                            let q0 = choose|q0: int|
                                0 <= q0 < cands@.len() && is_leaf_of(#[trigger] cands@[q0], m0);
                            lemma_leaf_cand_dist(cands@[q0], lib@, m0, t0);
                            assert(cand_dist(cands@[q0], lib@, t0) is Infinite);
                        }
                        assert(!(exists|p: int|
                            0 <= p < cands@.len() && cand_dist(
                                #[trigger] cands@[p],
                                lib@,
                                t0,
                            ) is Finite)) by {
                            if exists|p: int|
                                0 <= p < cands@.len() && cand_dist(
                                    #[trigger] cands@[p],
                                    lib@,
                                    t0,
                                ) is Finite {
                                let p0 = choose|p0: int|
                                    0 <= p0 < cands@.len() && cand_dist(
                                        #[trigger] cands@[p0],
                                        lib@,
                                        t0,
                                    ) is Finite;
                                assert(cand_dist(cands@[p0], lib@, t0) is Infinite);
                            }
                        }
                        assert(search_evidence(
                            cands@,
                            lib@,
                            targets@,
                            eps,
                            Err::<Vec<Connection>, EngineError>(EngineError::NoSolution),
                        ));
                    }
                    return Err(EngineError::NoSolution);
                },
            }
            ti += 1;
        }
        proof {
            assert(search_evidence(cands@, lib@, targets@, eps, Ok::<
                Vec<Connection>,
                EngineError,
            >(results)));
        }
        Ok(results)
    }
}


/// The entry list maps distinct keys to nullary region-list sources: each
/// source is a constant neuron holding a region-list value.
pub open spec fn region_neurons_wf(m: Seq<(i8, Neuron)>) -> bool {
    &&& forall|p: int, q: int| 0 <= p < q < m.len() ==> (#[trigger] m[p]).0 != (#[trigger] m[q]).0
    &&& forall|p: int|
        0 <= p < m.len() ==> (#[trigger] m[p]).1.input_types@.len() == 0 && m[p].1.output_type
            == ValueType::RegionsList
    &&& forall|p: int|
        0 <= p < m.len() ==> ((#[trigger] m[p]).1.function matches crate::neuron::Evaluator::Const(
            v,
        ) && v matches NeuronValue::RegionsList(_))
}

/// Refreshes the per-colour region sources from a list of grids: for each
/// colour, the connected regions of that colour are collected across the
/// grids; a colour seen in some grid gets its source neuron bound to the
/// collected region lists (inserted if absent), and a colour seen in none
/// has its source removed.
#[verifier::rlimit(100)]
#[verifier::spinoff_prover]
pub fn update_region_neurons(region_neurons: &mut Vec<(i8, Neuron)>, pairs: &Vec<crate::grid::Grid>)
    requires
        region_neurons_wf(old(region_neurons)@),
        crate::primitives::grids_wf(pairs@),
        forall|i: int|
            0 <= i < pairs@.len() ==> (#[trigger] pairs@[i]).spec_rows() <= 0x4000_0000
                && pairs@[i].spec_cols() <= 0x4000_0000,
    ensures
        region_neurons_wf(final(region_neurons)@),
{
    let mut k: i8 = 0;
    while k < 10
        invariant
            0 <= k <= 10,
            region_neurons_wf(region_neurons@),
            crate::primitives::grids_wf(pairs@),
            forall|i: int|
                0 <= i < pairs@.len() ==> (#[trigger] pairs@[i]).spec_rows() <= 0x4000_0000
                    && pairs@[i].spec_cols() <= 0x4000_0000,
        decreases 10 - k,
    {
        let mut lists: Vec<Vec<Vec<crate::neuron::Loc>>> = Vec::new();
        let mut any = false;
        let gn = pairs.len();
        let mut gi: usize = 0;
        while gi < gn
            invariant
                gi <= gn,
                gn == pairs@.len(),
                crate::primitives::grids_wf(pairs@),
                forall|i: int|
                    0 <= i < pairs@.len() ==> (#[trigger] pairs@[i]).spec_rows() <= 0x4000_0000
                        && pairs@[i].spec_cols() <= 0x4000_0000,
            decreases gn - gi,
        {
            let g = &pairs[gi];
            proof {
                assert(g.wf());
            }
            let rs = crate::utility::region_set(g, false);
            let mut groups: Vec<Vec<crate::neuron::Loc>> = Vec::new();
            let rn = rs.len();
            let mut ri: usize = 0;
            while ri < rn
                invariant
                    ri <= rn,
                    rn == rs@.len(),
                    g.wf(),
                    forall|t: int|
                        0 <= t < rs@.len() ==> (#[trigger] rs@[t])@.len() >= 1 && g.contains_index(
                            rs@[t]@[0].0 as int,
                            rs@[t]@[0].1 as int,
                        ),
                decreases rn - ri,
            {
                let seed = rs[ri][0];
                let seed_value = g.get(seed.0 as usize, seed.1 as usize);
                if seed_value == k {
                    groups.push(crate::neuron::copy_vec(&rs[ri]));
                }
                ri += 1;
            }
            if groups.len() > 0 {
                any = true;
            }
            lists.push(groups);
            gi += 1;
        }
        let mut found: Option<usize> = None;
        let en = region_neurons.len();
        let mut ei: usize = 0;
        while ei < en
            invariant
                ei <= en,
                en == region_neurons@.len(),
                region_neurons_wf(region_neurons@),
                found matches Some(f) ==> f < en && region_neurons@[f as int].0 == k,
                found is None ==> forall|p: int|
                    0 <= p < ei ==> (#[trigger] region_neurons@[p]).0 != k,
            decreases en - ei,
        {
            if region_neurons[ei].0 == k {
                found = Some(ei);
                break ;
            }
            ei += 1;
        }
        if any {
            let mut name = String::new();
            proof {
                reveal_strlit("region");
            }
            name.append("region");
            crate::utility::push_decimal(&mut name, k as u64);
            let neuron = Neuron::new(
                name,
                crate::neuron::Evaluator::Const(NeuronValue::RegionsList(lists)),
                Vec::new(),
                ValueType::RegionsList,
            );
            match found {
                Some(f) => {
                    let ghost before = region_neurons@;
                    region_neurons.set(f, (k, neuron));
                    proof {
                        assert forall|p: int, q: int|
                            0 <= p < q < region_neurons@.len() implies (
                        #[trigger] region_neurons@[p]).0 != (#[trigger] region_neurons@[q]).0 by {
                            assert(region_neurons@[p] == if p == f {
                                (k, region_neurons@[f as int].1)
                            } else {
                                before[p]
                            });
                            assert(before[p].0 != before[q].0);
                            if p == f as int {
                                assert(before[f as int].0 == k);
                            }
                            if q == f as int {
                                assert(before[f as int].0 == k);
                            }
                        }
                    }
                },
                None => {
                    let ghost before = region_neurons@;
                    region_neurons.push((k, neuron));
                    proof {
                        assert forall|p: int, q: int|
                            0 <= p < q < region_neurons@.len() implies (
                        #[trigger] region_neurons@[p]).0 != (#[trigger] region_neurons@[q]).0 by {
                            if q < before.len() {
                                assert(region_neurons@[p] == before[p]);
                                assert(region_neurons@[q] == before[q]);
                            } else {
                                assert(region_neurons@[q].0 == k);
                                assert(region_neurons@[p] == before[p]);
                            }
                        }
                    }
                },
            }
        } else {
            match found {
                Some(f) => {
                    let ghost before = region_neurons@;
                    let _ = region_neurons.remove(f);
                    proof {
                        assert forall|p: int, q: int|
                            0 <= p < q < region_neurons@.len() implies (
                        #[trigger] region_neurons@[p]).0 != (#[trigger] region_neurons@[q]).0 by {
                            let p0 = if p < f {
                                p
                            } else {
                                p + 1
                            };
                            let q0 = if q < f {
                                q
                            } else {
                                q + 1
                            };
                            assert(region_neurons@[p] == before[p0]);
                            assert(region_neurons@[q] == before[q0]);
                        }
                        assert forall|p: int|
                            0 <= p < region_neurons@.len() implies (
                        #[trigger] region_neurons@[p]).1.input_types@.len() == 0
                            && region_neurons@[p].1.output_type == ValueType::RegionsList by {
                            let p0 = if p < f {
                                p
                            } else {
                                p + 1
                            };
                            assert(region_neurons@[p] == before[p0]);
                        }
                    }
                },
                None => {},
            }
        }
        k = k + 1;
    }
}

} // verus!
