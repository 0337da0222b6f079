//! Typed domain values and typed primitive operators ("neurons").
//!
//! A `NeuronValue` is a tagged variant carrying either a concrete payload or a
//! type tag itself (a placeholder value denoting "a hole of type T"). A
//! `Neuron` is a named typed function: an input type vector, an output type
//! and an evaluator drawn from a closed set of domain operations. The
//! evaluator of a nullary neuron can be rebound between training and test.
use vstd::prelude::*;

use crate::grid::Grid;

verus! {

use vstd::string::StringSliceAdditionalSpecFns;
use vstd::utf8::encode_utf8;
use crate::grid::sum_of;
use crate::grid::GridView;
use crate::utility::levenshtein;
use crate::utility::spec_levenshtein;

/// A finite closed enumeration of domain types. Type tags are compared by
/// identity; they are the sole basis of type-checking in the engine.
#[derive(Clone, Copy, Debug, PartialEq, Eq, Hash, Structural)]
pub enum ValueType {
    Bool,
    Char,
    Int8,
    Int32,
    Int64,
    String,
    Grid,
    Grids,
    Type,
    Mapping,
    PairGrids,
    LocationPairs,
    RegionsList,
}

/// A grid coordinate: row and column.
pub type Loc = (isize, isize);

/// A finite mapping from cell value to cell value, kept in canonical form:
/// entries sorted by strictly increasing key, so structural equality of two
/// well-formed maps coincides with equality of the mappings they denote.
#[derive(Debug, PartialEq, Eq, Hash)]
pub struct ColorMap {
    pub entries: Vec<(i8, i8)>,
}

/// Copies a vector of plain values.
pub fn copy_vec<T: Copy>(v: &Vec<T>) -> (r: Vec<T>)
    ensures
        r@ == v@,
{
    let n = v.len();
    let mut r: Vec<T> = Vec::new();
    let mut i: usize = 0;
    while i < n
        invariant
            i <= n,
            n == v@.len(),
            r@.len() == i,
            forall|p: int| 0 <= p < i ==> r@[p] == v@[p],
        decreases n - i,
    {
        r.push(v[i]);
        i += 1;
    }
    proof {
        assert(r@ =~= v@);
    }
    r
}

impl Clone for ColorMap {
    /// A clone is an independent mapping with the same entries.
    fn clone(&self) -> (res: ColorMap)
        ensures
            res.entries@ == self.entries@,
    {
        ColorMap { entries: copy_vec(&self.entries) }
    }
}

/// Linear lookup of a key in an entry list: the value of the first entry
/// whose key matches, if any.
pub open spec fn entries_get(s: Seq<(i8, i8)>, k: i8) -> Option<i8>
    decreases s.len(),
{
    if s.len() == 0 {
        None
    } else if s[0].0 == k {
        Some(s[0].1)
    } else {
        entries_get(s.subrange(1, s.len() as int), k)
    }
}

proof fn lemma_entries_get_concat(a: Seq<(i8, i8)>, b: Seq<(i8, i8)>, k: i8)
    ensures
        entries_get(a + b, k) == (match entries_get(a, k) {
            Some(v) => Some(v),
            None => entries_get(b, k),
        }),
    decreases a.len(),
{
    if a.len() == 0 {
        assert(a + b =~= b);
    } else {
        if (a + b)[0].0 == k {
        } else {
            assert((a + b).subrange(1, (a + b).len() as int) =~= a.subrange(1, a.len() as int)
                + b);
            lemma_entries_get_concat(a.subrange(1, a.len() as int), b, k);
        }
    }
}

proof fn lemma_entries_get_absent(a: Seq<(i8, i8)>, k: i8)
    requires
        forall|i: int| 0 <= i < a.len() ==> (#[trigger] a[i]).0 != k,
    ensures
        entries_get(a, k) is None,
    decreases a.len(),
{
    if a.len() > 0 {
        lemma_entries_get_absent(a.subrange(1, a.len() as int), k);
    }
}

/// An entry list is sorted by strictly increasing key.
pub open spec fn entries_sorted(es: Seq<(i8, i8)>) -> bool {
    forall|p: int, q: int|
        0 <= p < q < es.len() ==> (#[trigger] es[p]).0 < (#[trigger] es[q]).0
}

impl ColorMap {
    /// Entries are sorted by strictly increasing key.
    pub open spec fn wf(self) -> bool {
        entries_sorted(self.entries@)
    }

    /// The value this map associates with `k`, if any.
    pub open spec fn spec_get(self, k: i8) -> Option<i8> {
        entries_get(self.entries@, k)
    }

    /// An empty mapping.
    pub fn new() -> (r: ColorMap)
        ensures
            r.wf(),
            forall|k: i8| r.spec_get(k) is None,
    {
        ColorMap { entries: Vec::new() }
    }

    /// Looks `k` up.
    pub fn get(&self, k: i8) -> (r: Option<i8>)
        ensures
            r == self.spec_get(k),
    {
        let n = self.entries.len();
        let mut i: usize = 0;
        proof {
            assert(self.entries@.subrange(0, n as int) =~= self.entries@);
        }
        while i < n
            invariant
                i <= n,
                n == self.entries@.len(),
                entries_get(self.entries@, k) == entries_get(
                    self.entries@.subrange(i as int, n as int),
                    k,
                ),
            decreases n - i,
        {
            let e = self.entries[i];
            proof {
                assert(self.entries@.subrange(i as int, n as int).subrange(
                    1,
                    (n - i) as int,
                ) =~= self.entries@.subrange(i + 1, n as int));
            }
            if e.0 == k {
                return Some(e.1);
            }
            i += 1;
        }
        proof {
            assert(self.entries@.subrange(n as int, n as int) =~= Seq::<(i8, i8)>::empty());
        }
        None
    }

    /// Checks that the entries are sorted by strictly increasing key.
    pub fn check_wf(&self) -> (r: bool)
        ensures
            r == self.wf(),
    {
        let n = self.entries.len();
        if n == 0 {
            return true;
        }
        let mut i: usize = 1;
        while i < n
            invariant
                1 <= i <= n,
                n == self.entries@.len(),
                forall|p: int| 0 <= p < i - 1 ==> (#[trigger] self.entries@[p]).0
                    < self.entries@[p + 1].0,
            decreases n - i,
        {
            if self.entries[i - 1].0 >= self.entries[i].0 {
                proof {
                    assert(!self.wf());
                }
                return false;
            }
            i += 1;
        }
        proof {
            assert forall|p: int, q: int|
                0 <= p < q < self.entries@.len() implies (#[trigger] self.entries@[p]).0
                    < (#[trigger] self.entries@[q]).0 by {
                lemma_adjacent_chain(self.entries@, p, q);
            }
        }
        true
    }

    /// Binds `k` to `v`, replacing any previous binding.
    pub fn insert(&mut self, k: i8, v: i8)
        requires
            old(self).wf(),
        ensures
            final(self).wf(),
            final(self).spec_get(k) == Some(v),
            forall|x: i8| x != k ==> #[trigger] final(self).spec_get(x) == old(self).spec_get(x),
    {
        let n = self.entries.len();
        let mut i: usize = 0;
        while i < n
            invariant
                i <= n,
                n == self.entries@.len(),
                forall|p: int| 0 <= p < i ==> (#[trigger] self.entries@[p]).0 < k,
            decreases n - i,
        {
            if self.entries[i].0 >= k {
                break ;
            }
            i += 1;
        }
        let ghost prefix = self.entries@.subrange(0, i as int);
        if i < n && self.entries[i].0 == k {
            let ghost tail = self.entries@.subrange(i + 1, n as int);
            self.entries.set(i, (k, v));
            proof {
                assert(self.entries@ =~= prefix + seq![(k, v)] + tail);
                assert(old(self).entries@ =~= prefix + seq![(k, old(self).entries@[i as int].1)]
                    + tail);
                lemma_insert_shape(prefix, tail, old(self).entries@[i as int].1, k, v);
            }
        } else {
            let ghost tail = self.entries@.subrange(i as int, n as int);
            proof {
                assert(forall|q: int|
                    i <= q < n ==> (#[trigger] old(self).entries@[q]).0 >= k);
                assert(forall|q: int|
                    0 <= q < tail.len() ==> (#[trigger] tail[q]).0 > k) by {
                    assert(forall|q: int| 0 <= q < tail.len() ==> tail[q] == old(
                        self,
                    ).entries@[q + i]);
                }
            }
            self.entries.insert(i, (k, v));
            proof {
                assert(self.entries@ =~= prefix + seq![(k, v)] + tail);
                assert(old(self).entries@ =~= prefix + tail);
                lemma_insert_fresh_shape(prefix, tail, k, v);
            }
        }
    }
}

/// In a list of entries whose adjacent keys increase strictly, keys increase
/// strictly between any two positions.
proof fn lemma_adjacent_chain(s: Seq<(i8, i8)>, p: int, q: int)
    requires
        forall|j: int| 0 <= j < s.len() - 1 ==> (#[trigger] s[j]).0 < s[j + 1].0,
        0 <= p < q < s.len(),
    ensures
        s[p].0 < s[q].0,
    decreases q - p,
{
    if q - p > 1 {
        lemma_adjacent_chain(s, p, q - 1);
    }
}

/// A tagged domain value: a concrete payload of one of the domain types, or
/// a type tag itself (a placeholder value denoting "a hole of type T").
#[derive(Debug, PartialEq, Eq, Hash)]
pub enum NeuronValue {
    Bool(bool),
    Char(String),
    Int8(i8),
    Int32(i32),
    Int64(i64),
    String(String),
    Grid(Grid),
    Grids(Vec<Grid>),
    ValueType(ValueType),
    Mapping(ColorMap),
    PairGrids(Vec<(Grid, Grid)>),
    LocationPairs(Vec<Vec<(Loc, Loc)>>),
    RegionsList(Vec<Vec<Vec<Loc>>>),
}

/// The mathematical value of a domain value: the same variants, with every
/// payload replaced by its mathematical view.
#[verifier::ext_equal]
pub enum ValView {
    Bool(bool),
    Char(Seq<char>),
    Int8(i8),
    Int32(i32),
    Int64(i64),
    String(Seq<char>),
    Grid(GridView),
    Grids(Seq<GridView>),
    ValueType(ValueType),
    Mapping(Seq<(i8, i8)>),
    PairGrids(Seq<(GridView, GridView)>),
    LocationPairs(Seq<Seq<(Loc, Loc)>>),
    RegionsList(Seq<Seq<Seq<Loc>>>),
}

/// The views of a list of grids.
pub open spec fn grids_view(gs: Seq<Grid>) -> Seq<GridView> {
    Seq::new(gs.len(), |i: int| gs[i]@)
}

impl View for NeuronValue {
    type V = ValView;

    open spec fn view(&self) -> ValView {
        match self {
            NeuronValue::Bool(b) => ValView::Bool(*b),
            NeuronValue::Char(s) => ValView::Char(s@),
            NeuronValue::Int8(x) => ValView::Int8(*x),
            NeuronValue::Int32(x) => ValView::Int32(*x),
            NeuronValue::Int64(x) => ValView::Int64(*x),
            NeuronValue::String(s) => ValView::String(s@),
            NeuronValue::Grid(g) => ValView::Grid(g@),
            NeuronValue::Grids(gs) => ValView::Grids(grids_view(gs@)),
            NeuronValue::ValueType(t) => ValView::ValueType(*t),
            NeuronValue::Mapping(m) => ValView::Mapping(m.entries@),
            NeuronValue::PairGrids(ps) => ValView::PairGrids(
                Seq::new(ps@.len(), |i: int| (ps@[i].0@, ps@[i].1@)),
            ),
            NeuronValue::LocationPairs(ls) => ValView::LocationPairs(
                Seq::new(ls@.len(), |i: int| ls@[i]@),
            ),
            NeuronValue::RegionsList(rs) => ValView::RegionsList(
                Seq::new(rs@.len(), |i: int| Seq::new(rs@[i]@.len(), |j: int| rs@[i]@[j]@)),
            ),
        }
    }
}

impl ValView {
    /// The type tag of this value. A placeholder value carrying the tag `T`
    /// stands for a value of type `T`, so its tag is `T` itself.
    pub open spec fn tag(self) -> ValueType {
        match self {
            ValView::Bool(_) => ValueType::Bool,
            ValView::Char(_) => ValueType::Char,
            ValView::Int8(_) => ValueType::Int8,
            ValView::Int32(_) => ValueType::Int32,
            ValView::Int64(_) => ValueType::Int64,
            ValView::String(_) => ValueType::String,
            ValView::Grid(_) => ValueType::Grid,
            ValView::Grids(_) => ValueType::Grids,
            ValView::ValueType(t) => t,
            ValView::Mapping(_) => ValueType::Mapping,
            ValView::PairGrids(_) => ValueType::PairGrids,
            ValView::LocationPairs(_) => ValueType::LocationPairs,
            ValView::RegionsList(_) => ValueType::RegionsList,
        }
    }

    /// Every grid payload is rectangular and every mapping payload sorted by
    /// strictly increasing key.
    pub open spec fn wf(self) -> bool {
        match self {
            ValView::Grid(g) => g.wf(),
            ValView::Grids(gs) => forall|i: int| 0 <= i < gs.len() ==> (#[trigger] gs[i]).wf(),
            ValView::Mapping(es) => entries_sorted(es),
            ValView::PairGrids(ps) => forall|i: int|
                0 <= i < ps.len() ==> (#[trigger] ps[i]).0.wf() && ps[i].1.wf(),
            _ => true,
        }
    }
}

/// Structural equality of grid lists.
pub open spec fn grids_eq(a: Seq<Grid>, b: Seq<Grid>) -> bool {
    a.len() == b.len() && forall|i: int| 0 <= i < a.len() ==> (#[trigger] a[i]).eq_spec(b[i])
}

/// Structural equality of grid-pair lists.
pub open spec fn pair_grids_eq(a: Seq<(Grid, Grid)>, b: Seq<(Grid, Grid)>) -> bool {
    a.len() == b.len() && forall|i: int|
        0 <= i < a.len() ==> (#[trigger] a[i]).0.eq_spec(b[i].0) && a[i].1.eq_spec(b[i].1)
}

/// Structural equality of coordinate-pair groups.
pub open spec fn loc_pairs_eq(a: Seq<Vec<(Loc, Loc)>>, b: Seq<Vec<(Loc, Loc)>>) -> bool {
    a.len() == b.len() && forall|i: int| 0 <= i < a.len() ==> (#[trigger] a[i])@ == b[i]@
}

/// Structural equality of region lists.
pub open spec fn regions_eq(a: Seq<Vec<Vec<Loc>>>, b: Seq<Vec<Vec<Loc>>>) -> bool {
    a.len() == b.len() && forall|i: int|
        0 <= i < a.len() ==> region_group_eq((#[trigger] a[i])@, b[i]@)
}

/// Structural equality of one list of regions.
pub open spec fn region_group_eq(a: Seq<Vec<Loc>>, b: Seq<Vec<Loc>>) -> bool {
    a.len() == b.len() && forall|i: int| 0 <= i < a.len() ==> (#[trigger] a[i])@ == b[i]@
}

impl NeuronValue {
    /// Structural equality of values. Integer and boolean payloads compare by
    /// value, strings by their characters, grids by shape and cells, and
    /// composite payloads element by element; values of different variants
    /// never compare equal.
    pub open spec fn val_eq(self, other: NeuronValue) -> bool {
        match (self, other) {
            (NeuronValue::Bool(a), NeuronValue::Bool(b)) => a == b,
            (NeuronValue::Char(a), NeuronValue::Char(b)) => a@ == b@,
            (NeuronValue::Int8(a), NeuronValue::Int8(b)) => a == b,
            (NeuronValue::Int32(a), NeuronValue::Int32(b)) => a == b,
            (NeuronValue::Int64(a), NeuronValue::Int64(b)) => a == b,
            (NeuronValue::String(a), NeuronValue::String(b)) => a@ == b@,
            (NeuronValue::Grid(a), NeuronValue::Grid(b)) => a.eq_spec(b),
            (NeuronValue::Grids(a), NeuronValue::Grids(b)) => grids_eq(a@, b@),
            (NeuronValue::ValueType(a), NeuronValue::ValueType(b)) => a == b,
            (NeuronValue::Mapping(a), NeuronValue::Mapping(b)) => a.entries@ == b.entries@,
            (NeuronValue::PairGrids(a), NeuronValue::PairGrids(b)) => pair_grids_eq(a@, b@),
            (NeuronValue::LocationPairs(a), NeuronValue::LocationPairs(b)) => loc_pairs_eq(
                a@,
                b@,
            ),
            (NeuronValue::RegionsList(a), NeuronValue::RegionsList(b)) => regions_eq(a@, b@),
            _ => false,
        }
    }

    /// Every grid payload is rectangular and every mapping payload canonical.
    pub open spec fn val_wf(self) -> bool {
        self@.wf()
    }

    /// The type tag of this value. A placeholder value carrying the tag `T`
    /// stands for a value of type `T`, so its tag is `T` itself.
    pub open spec fn spec_value_type(self) -> ValueType {
        match self {
            NeuronValue::Bool(_) => ValueType::Bool,
            NeuronValue::Char(_) => ValueType::Char,
            NeuronValue::Int8(_) => ValueType::Int8,
            NeuronValue::Int32(_) => ValueType::Int32,
            NeuronValue::Int64(_) => ValueType::Int64,
            NeuronValue::String(_) => ValueType::String,
            NeuronValue::Grid(_) => ValueType::Grid,
            NeuronValue::Grids(_) => ValueType::Grids,
            NeuronValue::ValueType(t) => t,
            NeuronValue::Mapping(_) => ValueType::Mapping,
            NeuronValue::PairGrids(_) => ValueType::PairGrids,
            NeuronValue::LocationPairs(_) => ValueType::LocationPairs,
            NeuronValue::RegionsList(_) => ValueType::RegionsList,
        }
    }

    /// Computes the type tag.
    pub fn value_type(&self) -> (r: ValueType)
        ensures
            r == self.spec_value_type(),
    {
        match self {
            NeuronValue::Bool(_) => ValueType::Bool,
            NeuronValue::Char(_) => ValueType::Char,
            NeuronValue::Int8(_) => ValueType::Int8,
            NeuronValue::Int32(_) => ValueType::Int32,
            NeuronValue::Int64(_) => ValueType::Int64,
            NeuronValue::String(_) => ValueType::String,
            NeuronValue::Grid(_) => ValueType::Grid,
            NeuronValue::Grids(_) => ValueType::Grids,
            NeuronValue::ValueType(t) => *t,
            NeuronValue::Mapping(_) => ValueType::Mapping,
            NeuronValue::PairGrids(_) => ValueType::PairGrids,
            NeuronValue::LocationPairs(_) => ValueType::LocationPairs,
            NeuronValue::RegionsList(_) => ValueType::RegionsList,
        }
    }

    /// Checks that every grid payload is rectangular and every mapping
    /// payload canonical.
    pub fn check_wf(&self) -> (r: bool)
        ensures
            r == self.val_wf(),
    {
        match self {
            NeuronValue::Grid(g) => {
                let ok = g.check_wf();
                proof {
                    assert(self@ == ValView::Grid(g@));
                    assert(g.wf() <==> g@.wf());
                }
                ok
            },
            NeuronValue::Grids(gs) => {
                let n = gs.len();
                let mut i: usize = 0;
                while i < n
                    invariant
                        i <= n,
                        n == gs@.len(),
                        forall|p: int| 0 <= p < i ==> (#[trigger] gs@[p]).wf(),
                    decreases n - i,
                {
                    if !gs[i].check_wf() {
                        proof {
                            assert(self@ == ValView::Grids(grids_view(gs@)));
                            assert(grids_view(gs@)[i as int] == gs@[i as int]@);
                            assert(!gs@[i as int]@.wf());
                            assert(!self.val_wf()) by {
                                if self@.wf() {
                                    match self@ {
                                        ValView::Grids(payload) => {
                                            assert(payload == grids_view(gs@));
                                            assert(payload[i as int].wf());
                                        },
                                        _ => {},
                                    }
                                }
                            }
                        }
                        return false;
                    }
                    i += 1;
                }
                proof {
                    assert(self@ == ValView::Grids(grids_view(gs@)));
                    assert forall|p: int|
                        0 <= p < grids_view(gs@).len() implies (#[trigger] grids_view(gs@)[p]).wf()
                        by {
                        assert(grids_view(gs@)[p] == gs@[p]@);
                        assert(gs@[p].wf());
                    }
                }
                true
            },
            NeuronValue::Mapping(m) => m.check_wf(),
            NeuronValue::PairGrids(ps) => {
                let ghost vw = Seq::new(ps@.len(), |i: int| (ps@[i].0@, ps@[i].1@));
                let n = ps.len();
                let mut i: usize = 0;
                while i < n
                    invariant
                        i <= n,
                        n == ps@.len(),
                        vw == Seq::new(ps@.len(), |t: int| (ps@[t].0@, ps@[t].1@)),
                        forall|p: int| 0 <= p < i ==> (#[trigger] ps@[p]).0.wf() && ps@[p].1.wf(),
                    decreases n - i,
                {
                    if !ps[i].0.check_wf() || !ps[i].1.check_wf() {
                        proof {
                            assert(self@ == ValView::PairGrids(vw));
                            assert(vw[i as int] == (ps@[i as int].0@, ps@[i as int].1@));
                            assert(!(vw[i as int].0.wf() && vw[i as int].1.wf()));
                            assert(!self.val_wf()) by {
                                if self@.wf() {
                                    match self@ {
                                        ValView::PairGrids(payload) => {
                                            assert(payload == vw);
                                            assert(payload[i as int].0.wf() && payload[i as int].1.wf());
                                        },
                                        _ => {},
                                    }
                                }
                            }
                        }
                        return false;
                    }
                    i += 1;
                }
                proof {
                    assert(self@ == ValView::PairGrids(vw));
                    assert forall|p: int|
                        0 <= p < vw.len() implies ((#[trigger] vw[p]).0.wf() && vw[p].1.wf()) by {
                        assert(vw[p] == (ps@[p].0@, ps@[p].1@));
                        assert(ps@[p].0.wf() && ps@[p].1.wf());
                    }
                }
                true
            },
            NeuronValue::Bool(b) => {
                proof {
                    assert(self@ == ValView::Bool(*b));
                }
                true
            },
            NeuronValue::Char(c) => {
                proof {
                    assert(self@ == ValView::Char(c@));
                }
                true
            },
            NeuronValue::Int8(x) => {
                proof {
                    assert(self@ == ValView::Int8(*x));
                }
                true
            },
            NeuronValue::Int32(x) => {
                proof {
                    assert(self@ == ValView::Int32(*x));
                }
                true
            },
            NeuronValue::Int64(x) => {
                proof {
                    assert(self@ == ValView::Int64(*x));
                }
                true
            },
            NeuronValue::String(c) => {
                proof {
                    assert(self@ == ValView::String(c@));
                }
                true
            },
            NeuronValue::ValueType(t) => {
                proof {
                    assert(self@ == ValView::ValueType(*t));
                }
                true
            },
            NeuronValue::LocationPairs(ls) => {
                proof {
                    assert(self@ == ValView::LocationPairs(Seq::new(ls@.len(), |i: int| ls@[i]@)));
                }
                true
            },
            NeuronValue::RegionsList(rs) => {
                proof {
                    assert(self@ == ValView::RegionsList(
                        Seq::new(rs@.len(), |i: int| Seq::new(rs@[i]@.len(), |j: int| rs@[i]@[j]@)),
                    ));
                }
                true
            },
        }
    }

    /// Compares two values structurally.
    pub fn equals(&self, other: &NeuronValue) -> (r: bool)
        ensures
            r == self.val_eq(*other),
    {
        match (self, other) {
            (NeuronValue::Bool(a), NeuronValue::Bool(b)) => *a == *b,
            (NeuronValue::Char(a), NeuronValue::Char(b)) => a.eq(b),
            (NeuronValue::Int8(a), NeuronValue::Int8(b)) => *a == *b,
            (NeuronValue::Int32(a), NeuronValue::Int32(b)) => *a == *b,
            (NeuronValue::Int64(a), NeuronValue::Int64(b)) => *a == *b,
            (NeuronValue::String(a), NeuronValue::String(b)) => a.eq(b),
            (NeuronValue::Grid(a), NeuronValue::Grid(b)) => a.equals(b),
            (NeuronValue::Grids(a), NeuronValue::Grids(b)) => grids_equal(a, b),
            (NeuronValue::ValueType(a), NeuronValue::ValueType(b)) => *a == *b,
            (NeuronValue::Mapping(a), NeuronValue::Mapping(b)) => entries_equal(
                &a.entries,
                &b.entries,
            ),
            (NeuronValue::PairGrids(a), NeuronValue::PairGrids(b)) => pair_grids_equal(a, b),
            (NeuronValue::LocationPairs(a), NeuronValue::LocationPairs(b)) => loc_pairs_equal(
                a,
                b,
            ),
            (NeuronValue::RegionsList(a), NeuronValue::RegionsList(b)) => regions_equal(a, b),
            _ => false,
        }
    }
}

impl Clone for NeuronValue {
    /// A clone is an independent value with the same mathematical view.
    fn clone(&self) -> (res: NeuronValue)
        ensures
            res@ == self@,
            res.val_eq(*self),
            res.spec_value_type() == self.spec_value_type(),
    {
        match self {
            NeuronValue::Bool(b) => NeuronValue::Bool(*b),
            NeuronValue::Char(s) => NeuronValue::Char(s.clone()),
            NeuronValue::Int8(x) => NeuronValue::Int8(*x),
            NeuronValue::Int32(x) => NeuronValue::Int32(*x),
            NeuronValue::Int64(x) => NeuronValue::Int64(*x),
            NeuronValue::String(s) => NeuronValue::String(s.clone()),
            NeuronValue::Grid(g) => {
                let g2 = g.clone();
                proof {
                    assert(g2@ =~= g@);
                }
                NeuronValue::Grid(g2)
            },
            NeuronValue::Grids(gs) => {
                let r = clone_grids(gs);
                proof {
                    assert forall|p: int|
                        0 <= p < r@.len() implies grids_view(r@)[p] == grids_view(gs@)[p] by {
                        assert(r@[p].eq_spec(gs@[p]));
                        assert(r@[p]@ =~= gs@[p]@);
                    }
                    assert(grids_view(r@) =~= grids_view(gs@));
                }
                NeuronValue::Grids(r)
            },
            NeuronValue::ValueType(t) => NeuronValue::ValueType(*t),
            NeuronValue::Mapping(m) => NeuronValue::Mapping(m.clone()),
            NeuronValue::PairGrids(ps) => {
                let r = clone_pair_grids(ps);
                proof {
                    let rv = Seq::new(r@.len(), |i: int| (r@[i].0@, r@[i].1@));
                    let pv = Seq::new(ps@.len(), |i: int| (ps@[i].0@, ps@[i].1@));
                    assert forall|p: int| 0 <= p < rv.len() implies rv[p] == pv[p] by {
                        assert(r@[p].0.eq_spec(ps@[p].0) && r@[p].1.eq_spec(ps@[p].1));
                        assert(r@[p].0@ =~= ps@[p].0@);
                        assert(r@[p].1@ =~= ps@[p].1@);
                    }
                    assert(rv =~= pv);
                }
                NeuronValue::PairGrids(r)
            },
            NeuronValue::LocationPairs(ls) => {
                let n = ls.len();
                let mut r: Vec<Vec<(Loc, Loc)>> = Vec::new();
                let mut i: usize = 0;
                while i < n
                    invariant
                        i <= n,
                        n == ls@.len(),
                        r@.len() == i,
                        forall|p: int| 0 <= p < i ==> (#[trigger] r@[p])@ == ls@[p]@,
                    decreases n - i,
                {
                    r.push(copy_vec(&ls[i]));
                    i += 1;
                }
                proof {
                    assert(Seq::new(r@.len(), |t: int| r@[t]@) =~= Seq::new(
                        ls@.len(),
                        |t: int| ls@[t]@,
                    ));
                }
                NeuronValue::LocationPairs(r)
            },
            NeuronValue::RegionsList(rs) => {
                let n = rs.len();
                let mut r: Vec<Vec<Vec<Loc>>> = Vec::new();
                let mut i: usize = 0;
                while i < n
                    invariant
                        i <= n,
                        n == rs@.len(),
                        r@.len() == i,
                        forall|p: int| 0 <= p < i ==> region_group_eq((#[trigger] r@[p])@, rs@[p]@),
                    decreases n - i,
                {
                    r.push(clone_region_group(&rs[i]));
                    i += 1;
                }
                proof {
                    let rv = Seq::new(r@.len(), |u: int| Seq::new(r@[u]@.len(), |j: int| r@[u]@[j]@));
                    let sv = Seq::new(
                        rs@.len(),
                        |u: int| Seq::new(rs@[u]@.len(), |j: int| rs@[u]@[j]@),
                    );
                    assert forall|t: int| 0 <= t < rv.len() implies rv[t] == sv[t] by {
                        assert(region_group_eq(r@[t]@, rs@[t]@));
                        assert(rv[t] =~= sv[t]);
                    }
                    assert(rv =~= sv);
                }
                NeuronValue::RegionsList(r)
            },
        }
    }
}

/// Copies a grid list.
pub fn clone_grids(gs: &Vec<Grid>) -> (r: Vec<Grid>)
    ensures
        grids_eq(r@, gs@),
{
    let n = gs.len();
    let mut r: Vec<Grid> = Vec::new();
    let mut i: usize = 0;
    while i < n
        invariant
            i <= n,
            n == gs@.len(),
            r@.len() == i,
            forall|p: int| 0 <= p < i ==> (#[trigger] r@[p]).eq_spec(gs@[p]),
        decreases n - i,
    {
        r.push(gs[i].clone());
        i += 1;
    }
    r
}

/// Copies a grid-pair list.
pub fn clone_pair_grids(ps: &Vec<(Grid, Grid)>) -> (r: Vec<(Grid, Grid)>)
    ensures
        pair_grids_eq(r@, ps@),
{
    let n = ps.len();
    let mut r: Vec<(Grid, Grid)> = Vec::new();
    let mut i: usize = 0;
    while i < n
        invariant
            i <= n,
            n == ps@.len(),
            r@.len() == i,
            forall|p: int|
                0 <= p < i ==> (#[trigger] r@[p]).0.eq_spec(ps@[p].0) && r@[p].1.eq_spec(ps@[p].1),
        decreases n - i,
    {
        r.push((ps[i].0.clone(), ps[i].1.clone()));
        i += 1;
    }
    r
}

/// Copies one list of regions.
pub fn clone_region_group(g: &Vec<Vec<Loc>>) -> (r: Vec<Vec<Loc>>)
    ensures
        region_group_eq(r@, g@),
{
    let n = g.len();
    let mut r: Vec<Vec<Loc>> = Vec::new();
    let mut i: usize = 0;
    while i < n
        invariant
            i <= n,
            n == g@.len(),
            r@.len() == i,
            forall|p: int| 0 <= p < i ==> (#[trigger] r@[p])@ == g@[p]@,
        decreases n - i,
    {
        r.push(copy_vec(&g[i]));
        i += 1;
    }
    r
}

/// Compares two grid lists structurally.
pub fn grids_equal(a: &Vec<Grid>, b: &Vec<Grid>) -> (r: bool)
    ensures
        r == grids_eq(a@, b@),
{
    if a.len() != b.len() {
        return false;
    }
    let n = a.len();
    let mut i: usize = 0;
    while i < n
        invariant
            i <= n,
            n == a@.len() == b@.len(),
            forall|p: int| 0 <= p < i ==> (#[trigger] a@[p]).eq_spec(b@[p]),
        decreases n - i,
    {
        if !a[i].equals(&b[i]) {
            return false;
        }
        i += 1;
    }
    true
}

/// Compares two grid-pair lists structurally.
pub fn pair_grids_equal(a: &Vec<(Grid, Grid)>, b: &Vec<(Grid, Grid)>) -> (r: bool)
    ensures
        r == pair_grids_eq(a@, b@),
{
    if a.len() != b.len() {
        return false;
    }
    let n = a.len();
    let mut i: usize = 0;
    while i < n
        invariant
            i <= n,
            n == a@.len() == b@.len(),
            forall|p: int|
                0 <= p < i ==> (#[trigger] a@[p]).0.eq_spec(b@[p].0) && a@[p].1.eq_spec(b@[p].1),
        decreases n - i,
    {
        if !a[i].0.equals(&b[i].0) || !a[i].1.equals(&b[i].1) {
            return false;
        }
        i += 1;
    }
    true
}

/// Compares two entry lists for equality.
pub fn entries_equal(a: &Vec<(i8, i8)>, b: &Vec<(i8, i8)>) -> (r: bool)
    ensures
        r == (a@ == b@),
{
    if a.len() != b.len() {
        return false;
    }
    let n = a.len();
    let mut i: usize = 0;
    while i < n
        invariant
            i <= n,
            n == a@.len() == b@.len(),
            forall|p: int| 0 <= p < i ==> a@[p] == b@[p],
        decreases n - i,
    {
        if a[i].0 != b[i].0 || a[i].1 != b[i].1 {
            return false;
        }
        proof {
            assert(a@[i as int].0 == b@[i as int].0 && a@[i as int].1 == b@[i as int].1);
            assert(a@[i as int] == b@[i as int]);
        }
        i += 1;
    }
    proof {
        assert(a@ =~= b@);
    }
    true
}

/// Compares two coordinate-pair lists for equality.
pub fn loc_pair_group_equal(a: &Vec<(Loc, Loc)>, b: &Vec<(Loc, Loc)>) -> (r: bool)
    ensures
        r == (a@ == b@),
{
    if a.len() != b.len() {
        return false;
    }
    let n = a.len();
    let mut i: usize = 0;
    while i < n
        invariant
            i <= n,
            n == a@.len() == b@.len(),
            forall|p: int| 0 <= p < i ==> a@[p] == b@[p],
        decreases n - i,
    {
        let x = a[i];
        let y = b[i];
        if x.0.0 != y.0.0 || x.0.1 != y.0.1 || x.1.0 != y.1.0 || x.1.1 != y.1.1 {
            return false;
        }
        proof {
            assert(a@[i as int] == b@[i as int]);
        }
        i += 1;
    }
    proof {
        assert(a@ =~= b@);
    }
    true
}

/// Compares two coordinate-pair group lists structurally.
pub fn loc_pairs_equal(a: &Vec<Vec<(Loc, Loc)>>, b: &Vec<Vec<(Loc, Loc)>>) -> (r: bool)
    ensures
        r == loc_pairs_eq(a@, b@),
{
    if a.len() != b.len() {
        return false;
    }
    let n = a.len();
    let mut i: usize = 0;
    while i < n
        invariant
            i <= n,
            n == a@.len() == b@.len(),
            forall|p: int| 0 <= p < i ==> (#[trigger] a@[p])@ == b@[p]@,
        decreases n - i,
    {
        if !loc_pair_group_equal(&a[i], &b[i]) {
            return false;
        }
        i += 1;
    }
    true
}

/// Compares two coordinate lists for equality.
pub fn loc_list_equal(a: &Vec<Loc>, b: &Vec<Loc>) -> (r: bool)
    ensures
        r == (a@ == b@),
{
    if a.len() != b.len() {
        return false;
    }
    let n = a.len();
    let mut i: usize = 0;
    while i < n
        invariant
            i <= n,
            n == a@.len() == b@.len(),
            forall|p: int| 0 <= p < i ==> a@[p] == b@[p],
        decreases n - i,
    {
        let x = a[i];
        let y = b[i];
        if x.0 != y.0 || x.1 != y.1 {
            return false;
        }
        proof {
            assert(a@[i as int] == b@[i as int]);
        }
        i += 1;
    }
    proof {
        assert(a@ =~= b@);
    }
    true
}

/// Compares two lists of regions structurally.
pub fn region_group_equal(a: &Vec<Vec<Loc>>, b: &Vec<Vec<Loc>>) -> (r: bool)
    ensures
        r == region_group_eq(a@, b@),
{
    if a.len() != b.len() {
        return false;
    }
    let n = a.len();
    let mut i: usize = 0;
    while i < n
        invariant
            i <= n,
            n == a@.len() == b@.len(),
            forall|p: int| 0 <= p < i ==> (#[trigger] a@[p])@ == b@[p]@,
        decreases n - i,
    {
        if !loc_list_equal(&a[i], &b[i]) {
            return false;
        }
        i += 1;
    }
    true
}

/// Compares two region lists structurally.
pub fn regions_equal(a: &Vec<Vec<Vec<Loc>>>, b: &Vec<Vec<Vec<Loc>>>) -> (r: bool)
    ensures
        r == regions_eq(a@, b@),
{
    if a.len() != b.len() {
        return false;
    }
    let n = a.len();
    let mut i: usize = 0;
    while i < n
        invariant
            i <= n,
            n == a@.len() == b@.len(),
            forall|p: int| 0 <= p < i ==> region_group_eq((#[trigger] a@[p])@, b@[p]@),
        decreases n - i,
    {
        if !region_group_equal(&a[i], &b[i]) {
            return false;
        }
        i += 1;
    }
    true
}

/// A non-negative distance between a computed value and a target: a finite
/// score, or infinity for incomparable values. Zero means an exact match.
#[derive(Clone, Copy, Debug, PartialEq, Eq, Structural)]
pub enum Distance {
    Finite(u64),
    Infinite,
}

impl Distance {
    /// Strict order: every finite distance lies below infinity.
    pub open spec fn spec_lt(self, other: Distance) -> bool {
        match (self, other) {
            (Distance::Finite(a), Distance::Finite(b)) => a < b,
            (Distance::Finite(_), Distance::Infinite) => true,
            _ => false,
        }
    }

    /// Compares two distances strictly.
    pub fn lt(&self, other: &Distance) -> (r: bool)
        ensures
            r == self.spec_lt(*other),
    {
        match (self, other) {
            (Distance::Finite(a), Distance::Finite(b)) => *a < *b,
            (Distance::Finite(_), Distance::Infinite) => true,
            _ => false,
        }
    }

    /// The distance is finite and lies strictly below the threshold.
    pub open spec fn spec_below(self, eps: u64) -> bool {
        match self {
            Distance::Finite(a) => a < eps,
            Distance::Infinite => false,
        }
    }

    /// Tests whether the distance lies strictly below a finite threshold.
    pub fn below(&self, eps: u64) -> (r: bool)
        ensures
            r == self.spec_below(eps),
    {
        match self {
            Distance::Finite(a) => *a < eps,
            Distance::Infinite => false,
        }
    }
}

/// Clamps a non-negative mathematical integer into a `u64` score.
pub open spec fn clamp64(x: int) -> u64 {
    if x > u64::MAX {
        u64::MAX
    } else if x < 0 {
        0
    } else {
        x as u64
    }
}

/// Saturating addition of scores.
pub open spec fn sat_add64(a: u64, b: u64) -> u64 {
    clamp64(a + b)
}

/// Saturating multiplication of scores.
pub open spec fn sat_mul64(a: u64, b: u64) -> u64 {
    clamp64(a * b)
}

/// The sum of the absolute cell differences of two equally long cell vectors.
pub open spec fn cells_abs_diff(a: Seq<i8>, b: Seq<i8>) -> int
    recommends
        a.len() == b.len(),
    decreases a.len(),
{
    if a.len() == 0 {
        0
    } else {
        cells_abs_diff(a.drop_last(), b.drop_last()) + abs_int(a.last() - b.last())
    }
}

/// The absolute value.
pub open spec fn abs_int(x: int) -> int {
    if x < 0 {
        -x
    } else {
        x
    }
}

/// The distance between two grids: the per-cell sum of absolute differences
/// for grids of the same shape, and a constant shape penalty plus the
/// difference of the cell sums otherwise.
pub open spec fn grid_dist(a: GridView, b: GridView) -> u64 {
    if a.rows == b.rows && a.cols == b.cols {
        clamp64(cells_abs_diff(a.cells, b.cells))
    } else {
        clamp64(100 + abs_int(sum_of(a.cells) - sum_of(b.cells)))
    }
}

/// The distance between two grid lists of equal length: the sum of the
/// squared per-grid distances (a monotone equivalent of the root of that sum,
/// with the same order and the same zeroes).
pub open spec fn grids_dist_sq(a: Seq<GridView>, b: Seq<GridView>) -> u64
    recommends
        a.len() == b.len(),
    decreases a.len(),
{
    if a.len() == 0 {
        0
    } else {
        sat_add64(
            grids_dist_sq(a.drop_last(), b.drop_last()),
            sat_mul64(grid_dist(a.last(), b.last()), grid_dist(a.last(), b.last())),
        )
    }
}

/// Computes the distance between two grids.
pub fn grid_distance(a: &Grid, b: &Grid) -> (r: u64)
    requires
        a.wf(),
        b.wf(),
    ensures
        r == grid_dist(a@, b@),
{
    if a.rows == b.rows && a.cols == b.cols {
        let n = a.data.len();
        let mut acc: u128 = 0;
        let mut k: usize = 0;
        while k < n
            invariant
                k <= n,
                n == a.data@.len(),
                n == b.data@.len(),
                acc == cells_abs_diff(a.data@.subrange(0, k as int), b.data@.subrange(0, k as int)),
                acc <= 255 * k,
            decreases n - k,
        {
            proof {
                assert(a.data@.subrange(0, k + 1).drop_last() =~= a.data@.subrange(0, k as int));
                assert(b.data@.subrange(0, k + 1).drop_last() =~= b.data@.subrange(0, k as int));
                assert(a.data@.subrange(0, k + 1).last() == a.data@[k as int]);
            }
            let d = a.data[k] as i16 - b.data[k] as i16;
            let ad: u128 = if d < 0 {
                (-d) as u128
            } else {
                d as u128
            };
            acc = acc + ad;
            k += 1;
        }
        proof {
            assert(a.data@.subrange(0, n as int) =~= a.data@);
            assert(b.data@.subrange(0, n as int) =~= b.data@);
        }
        if acc > u64::MAX as u128 {
            u64::MAX
        } else {
            acc as u64
        }
    } else {
        let la = a.data.len();
        let lb = b.data.len();
        let sa = a.cell_sum();
        let sb = b.cell_sum();
        let d = if sa >= sb {
            sa - sb
        } else {
            sb - sa
        };
        if d > (u64::MAX - 100) as i128 {
            u64::MAX
        } else {
            100 + (d as u64)
        }
    }
}

/// Structurally equal grids have equal views, and conversely.
pub proof fn lemma_grid_eq_view(a: Grid, b: Grid)
    ensures
        a.eq_spec(b) <==> (a@ == b@),
{
    if a.eq_spec(b) {
        assert(a@ =~= b@);
    }
}

/// Structurally equal grid lists have equal view lists, and conversely.
pub proof fn lemma_grids_eq_view(a: Seq<Grid>, b: Seq<Grid>)
    ensures
        grids_eq(a, b) <==> (grids_view(a) == grids_view(b)),
{
    if grids_eq(a, b) {
        assert forall|i: int|
            0 <= i < a.len() implies grids_view(a)[i] == grids_view(b)[i] by {
            lemma_grid_eq_view(a[i], b[i]);
        }
        assert(grids_view(a) =~= grids_view(b));
    }
    if grids_view(a) == grids_view(b) {
        assert(grids_view(a).len() == a.len() && grids_view(b).len() == b.len());
        assert forall|i: int| 0 <= i < a.len() implies (#[trigger] a[i]).eq_spec(b[i]) by {
            assert(grids_view(a)[i] == grids_view(b)[i]);
            lemma_grid_eq_view(a[i], b[i]);
        }
    }
}

/// Structurally equal grid-pair lists have equal view lists, and conversely.
pub proof fn lemma_pair_grids_eq_view(a: Seq<(Grid, Grid)>, b: Seq<(Grid, Grid)>)
    ensures
        pair_grids_eq(a, b) <==> (Seq::new(a.len(), |i: int| ((a[i].0)@, (a[i].1)@)) == Seq::new(
            b.len(),
            |i: int| ((b[i].0)@, (b[i].1)@),
        )),
{
    let av = Seq::new(a.len(), |i: int| ((a[i].0)@, (a[i].1)@));
    let bv = Seq::new(b.len(), |i: int| ((b[i].0)@, (b[i].1)@));
    if pair_grids_eq(a, b) {
        assert forall|i: int| 0 <= i < a.len() implies av[i] == bv[i] by {
            lemma_grid_eq_view(a[i].0, b[i].0);
            lemma_grid_eq_view(a[i].1, b[i].1);
        }
        assert(av =~= bv);
    }
    if av == bv {
        assert(av.len() == a.len() && bv.len() == b.len());
        assert forall|i: int|
            0 <= i < a.len() implies (#[trigger] a[i]).0.eq_spec(b[i].0) && a[i].1.eq_spec(
            b[i].1,
        ) by {
            assert(av[i] == bv[i]);
            lemma_grid_eq_view(a[i].0, b[i].0);
            lemma_grid_eq_view(a[i].1, b[i].1);
        }
    }
}

/// Structurally equal coordinate-pair groups have equal view lists, and
/// conversely.
pub proof fn lemma_loc_pairs_eq_view(a: Seq<Vec<(Loc, Loc)>>, b: Seq<Vec<(Loc, Loc)>>)
    ensures
        loc_pairs_eq(a, b) <==> (Seq::new(a.len(), |i: int| a[i]@) == Seq::new(
            b.len(),
            |i: int| b[i]@,
        )),
{
    let av = Seq::new(a.len(), |i: int| a[i]@);
    let bv = Seq::new(b.len(), |i: int| b[i]@);
    if loc_pairs_eq(a, b) {
        assert(av =~= bv);
    }
    if av == bv {
        assert(av.len() == a.len() && bv.len() == b.len());
        assert forall|i: int| 0 <= i < a.len() implies (#[trigger] a[i])@ == b[i]@ by {
            assert(av[i] == bv[i]);
        }
    }
}

/// Structurally equal region lists have equal view lists, and conversely.
pub proof fn lemma_regions_eq_view(a: Seq<Vec<Vec<Loc>>>, b: Seq<Vec<Vec<Loc>>>)
    ensures
        regions_eq(a, b) <==> (Seq::new(a.len(), |i: int| Seq::new(a[i]@.len(), |j: int| a[i]@[j]@))
            == Seq::new(b.len(), |i: int| Seq::new(b[i]@.len(), |j: int| b[i]@[j]@))),
{
    let av = Seq::new(a.len(), |i: int| Seq::new(a[i]@.len(), |j: int| a[i]@[j]@));
    let bv = Seq::new(b.len(), |i: int| Seq::new(b[i]@.len(), |j: int| b[i]@[j]@));
    if regions_eq(a, b) {
        assert forall|i: int| 0 <= i < a.len() implies av[i] == bv[i] by {
            assert(region_group_eq(a[i]@, b[i]@));
            assert(av[i] =~= bv[i]);
        }
        assert(av =~= bv);
    }
    if av == bv {
        assert(av.len() == a.len() && bv.len() == b.len());
        assert forall|i: int| 0 <= i < a.len() implies region_group_eq((#[trigger] a[i])@, b[i]@) by {
            assert(av[i] == bv[i]);
            assert(av[i].len() == a[i]@.len() && bv[i].len() == b[i]@.len());
            assert forall|j: int| 0 <= j < a[i]@.len() implies (#[trigger] a[i]@[j])@ == b[i]@[j]@ by {
                assert(av[i][j] == bv[i][j]);
            }
        }
    }
}

/// Structurally equal values have equal views, and conversely.
pub proof fn lemma_val_eq_is_view_eq(a: NeuronValue, b: NeuronValue)
    ensures
        a.val_eq(b) <==> (a@ == b@),
{
    match (a, b) {
        (NeuronValue::Grid(x), NeuronValue::Grid(y)) => {
            lemma_grid_eq_view(x, y);
        },
        (NeuronValue::Grids(x), NeuronValue::Grids(y)) => {
            lemma_grids_eq_view(x@, y@);
        },
        (NeuronValue::PairGrids(x), NeuronValue::PairGrids(y)) => {
            lemma_pair_grids_eq_view(x@, y@);
        },
        (NeuronValue::LocationPairs(x), NeuronValue::LocationPairs(y)) => {
            lemma_loc_pairs_eq_view(x@, y@);
        },
        (NeuronValue::RegionsList(x), NeuronValue::RegionsList(y)) => {
            lemma_regions_eq_view(x@, y@);
        },
        _ => {},
    }
}

impl NeuronValue {
    /// Computes the heuristic distance to a target.
    pub fn heuristic(&self, target: &NeuronValue) -> (r: Distance)
        requires
            self.val_wf(),
            target.val_wf(),
        ensures
            r == view_heuristic(self@, target@),
    {
        match (self, target) {
            (NeuronValue::Bool(a), NeuronValue::Bool(b)) => Distance::Finite(
                if *a == *b {
                    0
                } else {
                    1
                },
            ),
            (NeuronValue::Char(a), NeuronValue::Char(b)) => Distance::Finite(
                levenshtein(a.as_str(), b.as_str()) as u64,
            ),
            (NeuronValue::Int8(a), NeuronValue::Int8(b)) => {
                let d = *a as i16 - *b as i16;
                Distance::Finite(if d < 0 {
                    (-d) as u64
                } else {
                    d as u64
                })
            },
            (NeuronValue::Int32(a), NeuronValue::Int32(b)) => {
                let d = *a as i64 - *b as i64;
                Distance::Finite(if d < 0 {
                    (-d) as u64
                } else {
                    d as u64
                })
            },
            (NeuronValue::Int64(a), NeuronValue::Int64(b)) => {
                let d = *a as i128 - *b as i128;
                Distance::Finite(if d < 0 {
                    (-d) as u64
                } else {
                    d as u64
                })
            },
            (NeuronValue::String(a), NeuronValue::String(b)) => Distance::Finite(
                levenshtein(a.as_str(), b.as_str()) as u64,
            ),
            (NeuronValue::Grid(a), NeuronValue::Grid(b)) => Distance::Finite(grid_distance(a, b)),
            (NeuronValue::Grids(a), NeuronValue::Grids(b)) => {
                let ghost av = grids_view(a@);
                let ghost bv = grids_view(b@);
                proof {
                    assert forall|p: int| 0 <= p < a@.len() implies (#[trigger] a@[p]).wf() by {
                        assert(av[p] == a@[p]@);
                    }
                    assert forall|p: int| 0 <= p < b@.len() implies (#[trigger] b@[p]).wf() by {
                        assert(bv[p] == b@[p]@);
                    }
                }
                if a.len() == b.len() {
                    let n = a.len();
                    let mut acc: u64 = 0;
                    let mut k: usize = 0;
                    while k < n
                        invariant
                            k <= n,
                            n == a@.len() == b@.len(),
                            av == grids_view(a@),
                            bv == grids_view(b@),
                            forall|p: int| 0 <= p < n ==> (#[trigger] a@[p]).wf(),
                            forall|p: int| 0 <= p < n ==> (#[trigger] b@[p]).wf(),
                            acc == grids_dist_sq(av.subrange(0, k as int), bv.subrange(0, k as int)),
                        decreases n - k,
                    {
                        proof {
                            assert(av.subrange(0, k + 1).drop_last() =~= av.subrange(0, k as int));
                            assert(bv.subrange(0, k + 1).drop_last() =~= bv.subrange(0, k as int));
                            assert(av.subrange(0, k + 1).last() == a@[k as int]@);
                            assert(bv.subrange(0, k + 1).last() == b@[k as int]@);
                        }
                        let d = grid_distance(&a[k], &b[k]);
                        let sq = match d.checked_mul(d) {
                            Some(x) => x,
                            None => u64::MAX,
                        };
                        acc = acc.saturating_add(sq);
                        k += 1;
                    }
                    proof {
                        assert(av.subrange(0, n as int) =~= av);
                        assert(bv.subrange(0, n as int) =~= bv);
                    }
                    Distance::Finite(acc)
                } else {
                    let la = a.len();
                    let lb = b.len();
                    let d: u64 = if la >= lb {
                        (la - lb) as u64
                    } else {
                        (lb - la) as u64
                    };
                    Distance::Finite(d.saturating_add(100))
                }
            },
            (NeuronValue::ValueType(a), NeuronValue::ValueType(b)) => {
                if *a == *b {
                    Distance::Finite(0)
                } else {
                    Distance::Infinite
                }
            },
            (NeuronValue::Mapping(a), NeuronValue::Mapping(b)) => {
                if entries_equal(&a.entries, &b.entries) {
                    Distance::Finite(0)
                } else {
                    Distance::Infinite
                }
            },
            (NeuronValue::PairGrids(a), NeuronValue::PairGrids(b)) => {
                proof {
                    lemma_pair_grids_eq_view(a@, b@);
                }
                if pair_grids_equal(a, b) {
                    Distance::Finite(0)
                } else {
                    Distance::Infinite
                }
            },
            (NeuronValue::LocationPairs(a), NeuronValue::LocationPairs(b)) => {
                proof {
                    lemma_loc_pairs_eq_view(a@, b@);
                }
                if loc_pairs_equal(a, b) {
                    Distance::Finite(0)
                } else {
                    Distance::Infinite
                }
            },
            (NeuronValue::RegionsList(a), NeuronValue::RegionsList(b)) => {
                proof {
                    lemma_regions_eq_view(a@, b@);
                }
                if regions_equal(a, b) {
                    Distance::Finite(0)
                } else {
                    Distance::Infinite
                }
            },
            _ => Distance::Infinite,
        }
    }
}

/// The heuristic distance from a value to a target: deterministic,
/// non-negative, zero on equal values, and infinite across mismatched tags.
/// Numeric payloads use the absolute difference, strings the edit distance
/// over their UTF-8 bytes, grids the per-cell sum of absolute differences
/// (with a shape penalty), grid lists the sum of squared per-grid distances,
/// and the remaining composite payloads zero on equality and infinity
/// otherwise.
pub open spec fn view_heuristic(a: ValView, b: ValView) -> Distance {
    match (a, b) {
        (ValView::Bool(x), ValView::Bool(y)) => Distance::Finite(
            if x == y {
                0
            } else {
                1
            },
        ),
        (ValView::Char(x), ValView::Char(y)) => Distance::Finite(
            clamp64(spec_levenshtein(encode_utf8(x), encode_utf8(y)) as int),
        ),
        (ValView::Int8(x), ValView::Int8(y)) => Distance::Finite(clamp64(abs_int(x - y))),
        (ValView::Int32(x), ValView::Int32(y)) => Distance::Finite(clamp64(abs_int(x - y))),
        (ValView::Int64(x), ValView::Int64(y)) => Distance::Finite(clamp64(abs_int(x - y))),
        (ValView::String(x), ValView::String(y)) => Distance::Finite(
            clamp64(spec_levenshtein(encode_utf8(x), encode_utf8(y)) as int),
        ),
        (ValView::Grid(x), ValView::Grid(y)) => Distance::Finite(grid_dist(x, y)),
        (ValView::Grids(x), ValView::Grids(y)) => Distance::Finite(
            if x.len() == y.len() {
                grids_dist_sq(x, y)
            } else {
                clamp64(100 + abs_int(x.len() - y.len()))
            },
        ),
        (ValView::ValueType(x), ValView::ValueType(y)) => if x == y {
            Distance::Finite(0)
        } else {
            Distance::Infinite
        },
        (ValView::Mapping(x), ValView::Mapping(y)) => if x == y {
            Distance::Finite(0)
        } else {
            Distance::Infinite
        },
        (ValView::PairGrids(x), ValView::PairGrids(y)) => if x == y {
            Distance::Finite(0)
        } else {
            Distance::Infinite
        },
        (ValView::LocationPairs(x), ValView::LocationPairs(y)) => if x == y {
            Distance::Finite(0)
        } else {
            Distance::Infinite
        },
        (ValView::RegionsList(x), ValView::RegionsList(y)) => if x == y {
            Distance::Finite(0)
        } else {
            Distance::Infinite
        },
        _ => Distance::Infinite,
    }
}

/// The edit distance between equal prefixes of one byte string is zero.
proof fn lemma_lev_refl(x: Seq<u8>, i: nat)
    ensures
        crate::utility::lev(x, x, i, i) == 0,
    decreases i,
{
    if i > 0 {
        lemma_lev_refl(x, (i - 1) as nat);
    }
}

/// The per-cell difference of a cell vector with itself is zero.
proof fn lemma_cells_abs_diff_refl(a: Seq<i8>, b: Seq<i8>)
    requires
        a == b,
    ensures
        cells_abs_diff(a, b) == 0,
    decreases a.len(),
{
    if a.len() > 0 {
        lemma_cells_abs_diff_refl(a.drop_last(), b.drop_last());
    }
}

/// The distance between grids with equal views is zero.
proof fn lemma_grid_dist_refl(a: GridView, b: GridView)
    requires
        a == b,
    ensures
        grid_dist(a, b) == 0,
{
    lemma_cells_abs_diff_refl(a.cells, b.cells);
}

/// The distance between grid lists with equal views is zero.
proof fn lemma_grids_dist_sq_refl(a: Seq<GridView>, b: Seq<GridView>)
    requires
        a == b,
    ensures
        grids_dist_sq(a, b) == 0,
    decreases a.len(),
{
    if a.len() > 0 {
        lemma_grids_dist_sq_refl(a.drop_last(), b.drop_last());
        lemma_grid_dist_refl(a.last(), b.last());
    }
}

/// The heuristic is reflexive at zero: values with equal views are at
/// distance zero.
pub proof fn lemma_heuristic_reflexive(a: ValView, b: ValView)
    requires
        a == b,
    ensures
        view_heuristic(a, b) == Distance::Finite(0u64),
{
    match (a, b) {
        (ValView::Char(x), ValView::Char(y)) => {
            lemma_lev_refl(encode_utf8(x), encode_utf8(x).len());
        },
        (ValView::String(x), ValView::String(y)) => {
            lemma_lev_refl(encode_utf8(x), encode_utf8(x).len());
        },
        (ValView::Grid(x), ValView::Grid(y)) => {
            lemma_grid_dist_refl(x, y);
        },
        (ValView::Grids(x), ValView::Grids(y)) => {
            lemma_grids_dist_sq_refl(x, y);
        },
        _ => {},
    }
}


/// After replacing the binding of `k`, lookups of `k` see the new value and
/// lookups of other keys are unchanged; sortedness is preserved.
proof fn lemma_insert_shape(prefix: Seq<(i8, i8)>, tail: Seq<(i8, i8)>, w: i8, k: i8, v: i8)
    requires
        forall|p: int| 0 <= p < prefix.len() ==> (#[trigger] prefix[p]).0 < k,
        forall|p: int, q: int|
            0 <= p < q < (prefix + seq![(k, w)] + tail).len() ==> (#[trigger] (prefix + seq![
                (k, w),
            ] + tail)[p]).0 < (#[trigger] (prefix + seq![(k, w)] + tail)[q]).0,
    ensures
        forall|p: int, q: int|
            0 <= p < q < (prefix + seq![(k, v)] + tail).len() ==> (#[trigger] (prefix + seq![
                (k, v),
            ] + tail)[p]).0 < (#[trigger] (prefix + seq![(k, v)] + tail)[q]).0,
        entries_get(prefix + seq![(k, v)] + tail, k) == Some(v),
        forall|x: i8|
            x != k ==> #[trigger] entries_get(prefix + seq![(k, v)] + tail, x) == entries_get(
                prefix + seq![(k, w)] + tail,
                x,
            ),
{
    let old_s = prefix + seq![(k, w)] + tail;
    let new_s = prefix + seq![(k, v)] + tail;
    assert(new_s =~= prefix + (seq![(k, v)] + tail));
    assert(old_s =~= prefix + (seq![(k, w)] + tail));
    assert forall|p: int, q: int|
        0 <= p < q < new_s.len() implies (#[trigger] new_s[p]).0 < (#[trigger] new_s[q]).0 by {
        assert(new_s[p].0 == old_s[p].0);
        assert(new_s[q].0 == old_s[q].0);
    }
    lemma_entries_get_absent(prefix, k);
    lemma_entries_get_concat(prefix, seq![(k, v)] + tail, k);
    assert((seq![(k, v)] + tail)[0].0 == k);
    assert(entries_get(seq![(k, v)] + tail, k) == Some(v));
    assert forall|x: i8| x != k implies #[trigger] entries_get(new_s, x) == entries_get(
        old_s,
        x,
    ) by {
        lemma_entries_get_concat(prefix, seq![(k, v)] + tail, x);
        lemma_entries_get_concat(prefix, seq![(k, w)] + tail, x);
        assert((seq![(k, v)] + tail).subrange(1, (seq![(k, v)] + tail).len() as int) =~= tail);
        assert((seq![(k, w)] + tail).subrange(1, (seq![(k, w)] + tail).len() as int) =~= tail);
        assert(entries_get(seq![(k, v)] + tail, x) == entries_get(tail, x));
        assert(entries_get(seq![(k, w)] + tail, x) == entries_get(tail, x));
    }
}

/// After inserting a fresh binding of `k` between the entries below and above
/// it, lookups of `k` see the new value and lookups of other keys are
/// unchanged; sortedness is preserved.
proof fn lemma_insert_fresh_shape(prefix: Seq<(i8, i8)>, tail: Seq<(i8, i8)>, k: i8, v: i8)
    requires
        forall|p: int| 0 <= p < prefix.len() ==> (#[trigger] prefix[p]).0 < k,
        forall|q: int| 0 <= q < tail.len() ==> (#[trigger] tail[q]).0 > k,
        forall|p: int, q: int|
            0 <= p < q < (prefix + tail).len() ==> (#[trigger] (prefix + tail)[p]).0
                < (#[trigger] (prefix + tail)[q]).0,
    ensures
        forall|p: int, q: int|
            0 <= p < q < (prefix + seq![(k, v)] + tail).len() ==> (#[trigger] (prefix + seq![
                (k, v),
            ] + tail)[p]).0 < (#[trigger] (prefix + seq![(k, v)] + tail)[q]).0,
        entries_get(prefix + seq![(k, v)] + tail, k) == Some(v),
        forall|x: i8|
            x != k ==> #[trigger] entries_get(prefix + seq![(k, v)] + tail, x) == entries_get(
                prefix + tail,
                x,
            ),
{
    let new_s = prefix + seq![(k, v)] + tail;
    assert(new_s =~= prefix + (seq![(k, v)] + tail));
    assert forall|p: int, q: int|
        0 <= p < q < new_s.len() implies (#[trigger] new_s[p]).0 < (#[trigger] new_s[q]).0 by {
        let m = prefix.len() as int;
        if p < m {
            assert(new_s[p] == prefix[p]);
            assert(prefix[p] == (prefix + tail)[p]);
        }
        if q < m {
            assert(new_s[q] == prefix[q]);
            assert(prefix[q] == (prefix + tail)[q]);
        }
        if p > m {
            assert(new_s[p] == tail[p - m - 1]);
            assert(tail[p - m - 1] == (prefix + tail)[p - 1]);
        }
        if q > m {
            assert(new_s[q] == tail[q - m - 1]);
            assert(tail[q - m - 1] == (prefix + tail)[q - 1]);
        }
        if p == m {
            assert(new_s[p] == (k, v));
        }
        if q == m {
            assert(new_s[q] == (k, v));
        }
    }
    lemma_entries_get_absent(prefix, k);
    lemma_entries_get_concat(prefix, seq![(k, v)] + tail, k);
    assert((seq![(k, v)] + tail)[0].0 == k);
    assert(entries_get(seq![(k, v)] + tail, k) == Some(v));
    assert forall|x: i8| x != k implies #[trigger] entries_get(new_s, x) == entries_get(
        prefix + tail,
        x,
    ) by {
        lemma_entries_get_concat(prefix, seq![(k, v)] + tail, x);
        lemma_entries_get_concat(prefix, tail, x);
        assert((seq![(k, v)] + tail).subrange(1, (seq![(k, v)] + tail).len() as int) =~= tail);
        assert(entries_get(seq![(k, v)] + tail, x) == entries_get(tail, x));
    }
}


/// The views of a sequence of values.
pub open spec fn views_of(args: Seq<NeuronValue>) -> Seq<ValView> {
    Seq::new(args.len(), |i: int| args[i]@)
}

/// The view of an optional value.
pub open spec fn opt_view(r: Option<NeuronValue>) -> Option<ValView> {
    match r {
        Some(v) => Some(v@),
        None => None,
    }
}

/// A value's structural type tag equals the tag of its view.
pub proof fn lemma_value_type_view(v: NeuronValue)
    ensures
        v.spec_value_type() == v@.tag(),
{
}

/// The evaluator of a neuron: one operation of a closed set of domain
/// operations, or a constant for nullary neurons. The constant of an input
/// neuron is rebound between training and test.
pub enum Evaluator {
    /// Returns the stored value, whatever the arguments.
    Const(NeuronValue),
    /// Adds two signed numbers; undefined on overflow.
    AddInt64,
    /// Subtracts two signed numbers; undefined on overflow.
    SubInt64,
    /// Multiplies two signed numbers; undefined on overflow.
    MulInt64,
    /// Renders a signed number in decimal.
    IntToStr,
    /// Mirrors every grid of a list left to right.
    FliplrGrids,
    /// Mirrors every grid of a list top to bottom.
    FlipudGrids,
    /// Rewrites the cells of every grid of a list through a mapping.
    MapGrids,
    /// Keeps the coordinate pairs that agree on the chosen component.
    SameElement,
    /// Draws dotted segments between paired locations in every grid.
    Segments,
    /// Pairs the locations of distinct regions within every group.
    RegionPairs,
}

/// What an evaluator returns on a vector of argument views: the computed
/// value's view when the operation is defined on these arguments, nothing
/// otherwise.
pub open spec fn spec_eval(ev: Evaluator, args: Seq<ValView>) -> Option<ValView> {
    match ev {
        Evaluator::Const(v) => Some(v@),
        Evaluator::AddInt64 => if args.len() == 2 {
            match (args[0], args[1]) {
                (ValView::Int64(a), ValView::Int64(b)) => if i64::MIN <= a + b <= i64::MAX {
                    Some(ValView::Int64((a + b) as i64))
                } else {
                    None
                },
                _ => None,
            }
        } else {
            None
        },
        Evaluator::SubInt64 => if args.len() == 2 {
            match (args[0], args[1]) {
                (ValView::Int64(a), ValView::Int64(b)) => if i64::MIN <= a - b <= i64::MAX {
                    Some(ValView::Int64((a - b) as i64))
                } else {
                    None
                },
                _ => None,
            }
        } else {
            None
        },
        Evaluator::MulInt64 => if args.len() == 2 {
            match (args[0], args[1]) {
                (ValView::Int64(a), ValView::Int64(b)) => if i64::MIN <= a * b <= i64::MAX {
                    Some(ValView::Int64((a * b) as i64))
                } else {
                    None
                },
                _ => None,
            }
        } else {
            None
        },
        Evaluator::IntToStr => if args.len() == 1 {
            match args[0] {
                ValView::Int64(a) => Some(ValView::String(crate::utility::int64_chars(a as int))),
                _ => None,
            }
        } else {
            None
        },
        Evaluator::FliplrGrids => if args.len() == 1 {
            match args[0] {
                ValView::Grids(gs) => Some(
                    ValView::Grids(Seq::new(gs.len(), |i: int| crate::utility::flip_lr_view(gs[i]))),
                ),
                _ => None,
            }
        } else {
            None
        },
        Evaluator::FlipudGrids => if args.len() == 1 {
            match args[0] {
                ValView::Grids(gs) => Some(
                    ValView::Grids(Seq::new(gs.len(), |i: int| crate::utility::flip_ud_view(gs[i]))),
                ),
                _ => None,
            }
        } else {
            None
        },
        Evaluator::MapGrids => if args.len() == 2 {
            match (args[0], args[1]) {
                (ValView::Grids(gs), ValView::Mapping(es)) => Some(
                    ValView::Grids(
                        Seq::new(gs.len(), |i: int| crate::utility::map_view(gs[i], es)),
                    ),
                ),
                _ => None,
            }
        } else {
            None
        },
        Evaluator::SameElement => if args.len() == 2 {
            match (args[0], args[1]) {
                (ValView::LocationPairs(ls), ValView::Bool(b)) => Some(
                    ValView::LocationPairs(
                        Seq::new(
                            ls.len(),
                            |i: int| crate::primitives::spec_same_element(ls[i], b),
                        ),
                    ),
                ),
                _ => None,
            }
        } else {
            None
        },
        Evaluator::Segments => if args.len() == 5 {
            match (args[0], args[1], args[2], args[3], args[4]) {
                (
                    ValView::Grids(gs),
                    ValView::LocationPairs(ls),
                    ValView::Int8(v),
                    ValView::Bool(st),
                    ValView::Bool(fi),
                ) => if gs.len() == ls.len() && (forall|i: int|
                    0 <= i < gs.len() ==> (#[trigger] gs[i]).rows <= 0x4000_0000 && gs[i].cols
                        <= 0x4000_0000) {
                    Some(
                        ValView::Grids(
                            Seq::new(
                                gs.len(),
                                |i: int| crate::primitives::seg_fold(gs[i], ls[i], v, st, fi),
                            ),
                        ),
                    )
                } else {
                    None
                },
                _ => None,
            }
        } else {
            None
        },
        Evaluator::RegionPairs => if args.len() == 1 {
            match args[0] {
                ValView::RegionsList(rs) => Some(
                    ValView::LocationPairs(
                        Seq::new(
                            rs.len(),
                            |i: int| crate::primitives::spec_region_pairs_group(rs[i]),
                        ),
                    ),
                ),
                _ => None,
            }
        } else {
            None
        },
    }
}

/// A named typed function: an input type vector, an output type, and an
/// evaluator.
pub struct Neuron {
    pub name: String,
    pub function: Evaluator,
    pub input_types: Vec<ValueType>,
    pub output_type: ValueType,
}

/// The argument vector fits a neuron: one well-formed value per declared
/// input, each carrying the declared tag, and none of them a type-tag
/// value. A type-tag value is a placeholder — an unbound hole — and an
/// unbound hole makes evaluation undefined, so it never reaches an
/// evaluator.
pub open spec fn args_ok(n: Neuron, vs: Seq<ValView>) -> bool {
    &&& vs.len() == n.input_types@.len()
    &&& forall|i: int|
        0 <= i < vs.len() ==> (#[trigger] vs[i]).wf() && vs[i].tag() == n.input_types@[i] && !(
        vs[i] matches ValView::ValueType(_))
}

/// What applying a neuron returns: the evaluator's result when the arguments
/// fit the declared input types and the result is well formed and carries
/// the declared output type, nothing otherwise.
pub open spec fn spec_apply(n: Neuron, vs: Seq<ValView>) -> Option<ValView> {
    if args_ok(n, vs) {
        match spec_eval(n.function, vs) {
            Some(w) => if w.tag() == n.output_type && w.wf() {
                Some(w)
            } else {
                None
            },
            None => None,
        }
    } else {
        None
    }
}

impl Neuron {
    /// Builds a neuron from its name, evaluator and type signature.
    pub fn new(
        name: String,
        function: Evaluator,
        input_types: Vec<ValueType>,
        output_type: ValueType,
    ) -> (r: Neuron)
        ensures
            r.name@ == name@,
            r.function == function,
            r.input_types@ == input_types@,
            r.output_type == output_type,
    {
        Neuron { name, function, input_types, output_type }
    }

    /// The neuron's name.
    pub fn name(&self) -> (r: String)
        ensures
            r@ == self.name@,
    {
        self.name.clone()
    }

    /// The declared input types.
    pub fn input_types(&self) -> (r: &Vec<ValueType>)
        ensures
            r@ == self.input_types@,
    {
        &self.input_types
    }

    /// The declared output type.
    pub fn output_type(&self) -> (r: ValueType)
        ensures
            r == self.output_type,
    {
        self.output_type
    }

    /// Swaps the evaluator: the typed signature stays, the operation
    /// changes. Used to rebind input neurons between training and test.
    pub fn rebind(&mut self, function: Evaluator)
        ensures
            final(self).function == function,
            final(self).name@ == old(self).name@,
            final(self).input_types@ == old(self).input_types@,
            final(self).output_type == old(self).output_type,
    {
        self.function = function;
    }

    /// Applies the neuron to an argument vector: the evaluator's result when
    /// the arguments fit the declared input types and the result fits the
    /// declared output type, and nothing otherwise. A type-tag argument is a
    /// placeholder — an unbound hole — and makes the application undefined.
    pub fn apply(&self, args: &[NeuronValue]) -> (r: Option<NeuronValue>)
        ensures
            opt_view(r) == spec_apply(*self, views_of(args@)),
            r matches Some(v) ==> v.val_wf(),
    {
        let ghost vs = views_of(args@);
        let n_args = args.len();
        if n_args != self.input_types.len() {
            return None;
        }
        let mut i: usize = 0;
        while i < n_args
            invariant
                i <= n_args,
                n_args == args@.len(),
                n_args == self.input_types@.len(),
                vs == views_of(args@),
                forall|p: int|
                    0 <= p < i ==> (#[trigger] vs[p]).wf() && vs[p].tag() == self.input_types@[p]
                        && !(vs[p] matches ValView::ValueType(_)),
            decreases n_args - i,
        {
            proof {
                assert(vs[i as int] == args@[i as int]@);
                lemma_value_type_view(args@[i as int]);
            }
            if !args[i].check_wf() {
                proof {
                    assert(!args_ok(*self, vs)) by {
                        if args_ok(*self, vs) {
                            assert(vs[i as int].wf());
                        }
                    }
                }
                return None;
            }
            if args[i].value_type() != self.input_types[i] {
                proof {
                    assert(!args_ok(*self, vs)) by {
                        if args_ok(*self, vs) {
                            assert(vs[i as int].tag() == self.input_types@[i as int]);
                        }
                    }
                }
                return None;
            }
            match &args[i] {
                NeuronValue::ValueType(_) => {
                    proof {
                        assert(vs[i as int] matches ValView::ValueType(_));
                        assert(!args_ok(*self, vs)) by {
                            if args_ok(*self, vs) {
                                assert(!(vs[i as int] matches ValView::ValueType(_)));
                            }
                        }
                    }
                    return None;
                },
                _ => {},
            }
            i += 1;
        }
        proof {
            assert(args_ok(*self, vs));
        }
        let out = self.eval(args);
        match out {
            Some(v) => {
                proof {
                    lemma_value_type_view(v);
                }
                if v.value_type() == self.output_type {
                    if v.check_wf() {
                        Some(v)
                    } else {
                        None
                    }
                } else {
                    None
                }
            },
            None => None,
        }
    }

    /// Runs the evaluator on an argument vector.
    fn eval(&self, args: &[NeuronValue]) -> (r: Option<NeuronValue>)
        requires
            forall|p: int|
                0 <= p < args@.len() ==> (#[trigger] views_of(args@)[p]).wf(),
        ensures
            opt_view(r) == spec_eval(self.function, views_of(args@)),
    {
        let ghost vs = views_of(args@);
        match &self.function {
            Evaluator::Const(v) => Some(v.clone()),
            Evaluator::AddInt64 => {
                if args.len() != 2 {
                    return None;
                }
                proof {
                    assert(vs[0] == args@[0]@ && vs[1] == args@[1]@);
                }
                match (&args[0], &args[1]) {
                    (NeuronValue::Int64(a), NeuronValue::Int64(b)) => match a.checked_add(*b) {
                        Some(c) => Some(NeuronValue::Int64(c)),
                        None => None,
                    },
                    _ => None,
                }
            },
            Evaluator::SubInt64 => {
                if args.len() != 2 {
                    return None;
                }
                proof {
                    assert(vs[0] == args@[0]@ && vs[1] == args@[1]@);
                }
                match (&args[0], &args[1]) {
                    (NeuronValue::Int64(a), NeuronValue::Int64(b)) => match a.checked_sub(*b) {
                        Some(c) => Some(NeuronValue::Int64(c)),
                        None => None,
                    },
                    _ => None,
                }
            },
            Evaluator::MulInt64 => {
                if args.len() != 2 {
                    return None;
                }
                proof {
                    assert(vs[0] == args@[0]@ && vs[1] == args@[1]@);
                }
                match (&args[0], &args[1]) {
                    (NeuronValue::Int64(a), NeuronValue::Int64(b)) => match a.checked_mul(*b) {
                        Some(c) => Some(NeuronValue::Int64(c)),
                        None => None,
                    },
                    _ => None,
                }
            },
            Evaluator::IntToStr => {
                if args.len() != 1 {
                    return None;
                }
                proof {
                    assert(vs[0] == args@[0]@);
                }
                match &args[0] {
                    NeuronValue::Int64(a) => Some(
                        NeuronValue::String(crate::utility::int64_to_string(*a)),
                    ),
                    _ => None,
                }
            },
            Evaluator::FliplrGrids => {
                if args.len() != 1 {
                    return None;
                }
                proof {
                    assert(vs[0] == args@[0]@);
                }
                match &args[0] {
                    NeuronValue::Grids(gs) => {
                        proof {
                            lemma_grids_payload_wf(args@[0 as int], gs@);
                        }
                        let out = crate::primitives::fliplr(gs);
                        proof {
                            assert(grids_view(out@) =~= Seq::new(
                                grids_view(gs@).len(),
                                |i: int| crate::utility::flip_lr_view(grids_view(gs@)[i]),
                            ));
                        }
                        Some(NeuronValue::Grids(out))
                    },
                    _ => None,
                }
            },
            Evaluator::FlipudGrids => {
                if args.len() != 1 {
                    return None;
                }
                proof {
                    assert(vs[0] == args@[0]@);
                }
                match &args[0] {
                    NeuronValue::Grids(gs) => {
                        proof {
                            lemma_grids_payload_wf(args@[0 as int], gs@);
                        }
                        let out = crate::primitives::flipud(gs);
                        proof {
                            assert(grids_view(out@) =~= Seq::new(
                                grids_view(gs@).len(),
                                |i: int| crate::utility::flip_ud_view(grids_view(gs@)[i]),
                            ));
                        }
                        Some(NeuronValue::Grids(out))
                    },
                    _ => None,
                }
            },
            Evaluator::MapGrids => {
                if args.len() != 2 {
                    return None;
                }
                proof {
                    assert(vs[0] == args@[0]@ && vs[1] == args@[1]@);
                }
                match (&args[0], &args[1]) {
                    (NeuronValue::Grids(gs), NeuronValue::Mapping(m)) => {
                        proof {
                            lemma_grids_payload_wf(args@[0 as int], gs@);
                        }
                        let out = crate::primitives::map(gs, m);
                        proof {
                            assert(grids_view(out@) =~= Seq::new(
                                grids_view(gs@).len(),
                                |i: int| crate::utility::map_view(grids_view(gs@)[i], m.entries@),
                            ));
                        }
                        Some(NeuronValue::Grids(out))
                    },
                    _ => None,
                }
            },
            Evaluator::SameElement => {
                if args.len() != 2 {
                    return None;
                }
                proof {
                    assert(vs[0] == args@[0]@ && vs[1] == args@[1]@);
                }
                match (&args[0], &args[1]) {
                    (NeuronValue::LocationPairs(ls), NeuronValue::Bool(b)) => {
                        let out = crate::primitives::same_element(ls, *b);
                        proof {
                            let lsv = Seq::new(ls@.len(), |i: int| ls@[i]@);
                            assert(Seq::new(out@.len(), |i: int| out@[i]@) =~= Seq::new(
                                lsv.len(),
                                |i: int| crate::primitives::spec_same_element(lsv[i], *b),
                            ));
                        }
                        Some(NeuronValue::LocationPairs(out))
                    },
                    _ => None,
                }
            },
            Evaluator::Segments => {
                if args.len() != 5 {
                    return None;
                }
                proof {
                    assert(vs[0] == args@[0]@ && vs[1] == args@[1]@ && vs[2] == args@[2]@
                        && vs[3] == args@[3]@ && vs[4] == args@[4]@);
                }
                match (&args[0], &args[1], &args[2], &args[3], &args[4]) {
                    (
                        NeuronValue::Grids(gs),
                        NeuronValue::LocationPairs(ls),
                        NeuronValue::Int8(v),
                        NeuronValue::Bool(st),
                        NeuronValue::Bool(fi),
                    ) => {
                        proof {
                            lemma_grids_payload_wf(args@[0 as int], gs@);
                        }
                        if gs.len() != ls.len() {
                            return None;
                        }
                        let mut dims_ok = true;
                        let gn = gs.len();
                        let mut gi: usize = 0;
                        while gi < gn
                            invariant
                                gi <= gn,
                                gn == gs@.len(),
                                dims_ok <==> (forall|i: int|
                                    0 <= i < gi ==> (#[trigger] gs@[i]).spec_rows() <= 0x4000_0000
                                        && gs@[i].spec_cols() <= 0x4000_0000),
                            decreases gn - gi,
                        {
                            if gs[gi].nrows() > 0x4000_0000 || gs[gi].ncols() > 0x4000_0000 {
                                dims_ok = false;
                                proof {
                                    assert(!(forall|i: int|
                                        0 <= i <= gi ==> (#[trigger] gs@[i]).spec_rows()
                                            <= 0x4000_0000 && gs@[i].spec_cols() <= 0x4000_0000));
                                }
                                break ;
                            }
                            gi += 1;
                        }
                        proof {
                            let gv = grids_view(gs@);
                            assert forall|i: int|
                                0 <= i < gv.len() implies ((#[trigger] gv[i]).rows
                                == gs@[i].spec_rows() && gv[i].cols == gs@[i].spec_cols()) by {
                                assert(gv[i] == gs@[i]@);
                            }
                        }
                        if !dims_ok {
                            proof {
                                let gv = grids_view(gs@);
                                let bad = choose|i: int|
                                    0 <= i < gs@.len() && !((#[trigger] gs@[i]).spec_rows()
                                        <= 0x4000_0000 && gs@[i].spec_cols() <= 0x4000_0000);
                                assert(gv[bad] == gs@[bad]@);
                                assert(!(forall|i: int|
                                    0 <= i < gv.len() ==> (#[trigger] gv[i]).rows <= 0x4000_0000
                                        && gv[i].cols <= 0x4000_0000));
                            }
                            return None;
                        }
                        let out = crate::primitives::segments(gs, ls, *v, *st, *fi);
                        proof {
                            let gv = grids_view(gs@);
                            let lsv = Seq::new(ls@.len(), |i: int| ls@[i]@);
                            assert(gv.len() == lsv.len());
                            assert forall|i: int|
                                0 <= i < out@.len() implies grids_view(out@)[i] == Seq::new(
                                gv.len(),
                                |t: int| crate::primitives::seg_fold(gv[t], lsv[t], *v, *st, *fi),
                            )[i] by {
                                assert(grids_view(out@)[i] == out@[i]@);
                                assert(out@[i]@ == crate::primitives::seg_fold(
                                    gs@[i]@,
                                    ls@[i]@,
                                    *v,
                                    *st,
                                    *fi,
                                ));
                                assert(gv[i] == gs@[i]@ && lsv[i] == ls@[i]@);
                            }
                            assert(grids_view(out@) =~= Seq::new(
                                gv.len(),
                                |t: int| crate::primitives::seg_fold(gv[t], lsv[t], *v, *st, *fi),
                            ));
                        }
                        Some(NeuronValue::Grids(out))
                    },
                    _ => None,
                }
            },
            Evaluator::RegionPairs => {
                if args.len() != 1 {
                    return None;
                }
                proof {
                    assert(vs[0] == args@[0]@);
                }
                match &args[0] {
                    NeuronValue::RegionsList(rs) => {
                        let out = crate::primitives::region_pairs(rs);
                        proof {
                            let rsv = Seq::new(
                                rs@.len(),
                                |i: int| Seq::new(rs@[i]@.len(), |j: int| rs@[i]@[j]@),
                            );
                            assert forall|i: int|
                                0 <= i < rsv.len() implies crate::primitives::region_group_view(
                                rs@[i]@,
                            ) == rsv[i] by {
                                assert(crate::primitives::region_group_view(rs@[i]@) =~= rsv[i]);
                            }
                            assert(Seq::new(out@.len(), |i: int| out@[i]@) =~= Seq::new(
                                rsv.len(),
                                |i: int| crate::primitives::spec_region_pairs_group(rsv[i]),
                            ));
                        }
                        Some(NeuronValue::LocationPairs(out))
                    },
                    _ => None,
                }
            },
        }
    }
}

/// A well-formed grid-list value has well-formed grids.
proof fn lemma_grids_payload_wf(v: NeuronValue, gs: Seq<Grid>)
    requires
        v@.wf(),
        v@ == ValView::Grids(grids_view(gs)),
    ensures
        crate::primitives::grids_wf(gs),
{
    assert forall|i: int| 0 <= i < gs.len() implies (#[trigger] gs[i]).wf() by {
        match v@ {
            ValView::Grids(payload) => {
                assert(payload == grids_view(gs));
                assert(payload[i].wf());
                assert(payload[i] == gs[i]@);
            },
            _ => {},
        }
    }
}


/// Mixes a hash with a new word.
pub open spec fn mix(h: u64, x: u64) -> u64 {
    vstd::wrapping::u64_specs::wrapping_add(vstd::wrapping::u64_specs::wrapping_mul(h, 31), x)
}

/// Mixes a hash with a new word.
pub fn mix_exec(h: u64, x: u64) -> (r: u64)
    ensures
        r == mix(h, x),
{
    h.wrapping_mul(31).wrapping_add(x)
}

/// A deterministic hash of a cell vector.
pub open spec fn cells_hash(s: Seq<i8>) -> u64
    decreases s.len(),
{
    if s.len() == 0 {
        0
    } else {
        mix(cells_hash(s.drop_last()), (s.last() + 128) as u64)
    }
}

/// A deterministic hash of a grid view.
pub open spec fn grid_hash(g: GridView) -> u64 {
    mix(clamp64(g.rows), mix(clamp64(g.cols), cells_hash(g.cells)))
}

/// A deterministic hash of a grid list.
pub open spec fn grids_hash(gs: Seq<GridView>) -> u64
    decreases gs.len(),
{
    if gs.len() == 0 {
        0
    } else {
        mix(grids_hash(gs.drop_last()), grid_hash(gs.last()))
    }
}

/// A deterministic hash of a mapping's entries.
pub open spec fn entries_hash(es: Seq<(i8, i8)>) -> u64
    decreases es.len(),
{
    if es.len() == 0 {
        0
    } else {
        mix(entries_hash(es.drop_last()), mix((es.last().0 + 128) as u64, (es.last().1
            + 128) as u64))
    }
}

/// A numeric code for each type tag.
pub open spec fn tag_code(t: ValueType) -> u64 {
    match t {
        ValueType::Bool => 0,
        ValueType::Char => 1,
        ValueType::Int8 => 2,
        ValueType::Int32 => 3,
        ValueType::Int64 => 4,
        ValueType::String => 5,
        ValueType::Grid => 6,
        ValueType::Grids => 7,
        ValueType::Type => 8,
        ValueType::Mapping => 9,
        ValueType::PairGrids => 10,
        ValueType::LocationPairs => 11,
        ValueType::RegionsList => 12,
    }
}

/// A word standing for a signed number in a hash.
pub open spec fn i64_word(x: i64) -> u64 {
    if x >= 0 {
        mix(21, x as u64)
    } else {
        mix(22, (-(x + 1)) as u64)
    }
}

/// A deterministic hash of a value: a function of the value's view alone,
/// so structurally equal values hash equal. Scalar payloads contribute
/// their value, grids and mappings their contents, the remaining composite
/// payloads their length.
pub open spec fn val_hash(v: ValView) -> u64 {
    match v {
        ValView::Bool(b) => mix(1, if b {
            1
        } else {
            0
        }),
        ValView::Char(s) => mix(2, clamp64(s.len() as int)),
        ValView::Int8(x) => mix(3, (x + 128) as u64),
        ValView::Int32(x) => mix(4, (x + 0x8000_0000) as u64),
        ValView::Int64(x) => mix(5, i64_word(x)),
        ValView::String(s) => mix(6, clamp64(s.len() as int)),
        ValView::Grid(g) => mix(7, grid_hash(g)),
        ValView::Grids(gs) => mix(8, grids_hash(gs)),
        ValView::ValueType(t) => mix(9, tag_code(t)),
        ValView::Mapping(es) => mix(10, entries_hash(es)),
        ValView::PairGrids(ps) => mix(11, clamp64(ps.len() as int)),
        ValView::LocationPairs(ls) => mix(12, clamp64(ls.len() as int)),
        ValView::RegionsList(rs) => mix(13, clamp64(rs.len() as int)),
    }
}

/// Computes the hash of a cell vector.
fn cells_hash_exec(s: &Vec<i8>) -> (r: u64)
    ensures
        r == cells_hash(s@),
{
    let n = s.len();
    let mut h: u64 = 0;
    let mut i: usize = 0;
    while i < n
        invariant
            i <= n,
            n == s@.len(),
            h == cells_hash(s@.subrange(0, i as int)),
        decreases n - i,
    {
        proof {
            assert(s@.subrange(0, i + 1).drop_last() =~= s@.subrange(0, i as int));
            assert(s@.subrange(0, i + 1).last() == s@[i as int]);
        }
        h = mix_exec(h, (s[i] as i64 + 128) as u64);
        i += 1;
    }
    proof {
        assert(s@.subrange(0, n as int) =~= s@);
    }
    h
}

/// Computes the hash of a grid.
fn grid_hash_exec(g: &Grid) -> (r: u64)
    ensures
        r == grid_hash(g@),
{
    let rows = g.rows;
    let cols = g.cols;
    mix_exec(rows as u64, mix_exec(cols as u64, cells_hash_exec(&g.data)))
}

impl NeuronValue {
    /// Computes a deterministic hash, consistent with structural equality.
    pub fn hash_code(&self) -> (r: u64)
        ensures
            r == val_hash(self@),
    {
        match self {
            NeuronValue::Bool(b) => mix_exec(1, if *b {
                1
            } else {
                0
            }),
            NeuronValue::Char(s) => {
                let l = s.as_str().unicode_len();
                mix_exec(2, l as u64)
            },
            NeuronValue::Int8(x) => mix_exec(3, (*x as i64 + 128) as u64),
            NeuronValue::Int32(x) => mix_exec(4, (*x as i64 + 0x8000_0000) as u64),
            NeuronValue::Int64(x) => {
                let m: u64 = if *x >= 0 {
                    mix_exec(21, *x as u64)
                } else {
                    mix_exec(22, (-(*x + 1)) as u64)
                };
                mix_exec(5, m)
            },
            NeuronValue::String(s) => {
                let l = s.as_str().unicode_len();
                mix_exec(6, l as u64)
            },
            NeuronValue::Grid(g) => mix_exec(7, grid_hash_exec(g)),
            NeuronValue::Grids(gs) => {
                let n = gs.len();
                let mut h: u64 = 0;
                let mut i: usize = 0;
                while i < n
                    invariant
                        i <= n,
                        n == gs@.len(),
                        h == grids_hash(grids_view(gs@).subrange(0, i as int)),
                    decreases n - i,
                {
                    proof {
                        assert(grids_view(gs@).subrange(0, i + 1).drop_last()
                            =~= grids_view(gs@).subrange(0, i as int));
                        assert(grids_view(gs@).subrange(0, i + 1).last() == gs@[i as int]@);
                    }
                    h = mix_exec(h, grid_hash_exec(&gs[i]));
                    i += 1;
                }
                proof {
                    assert(grids_view(gs@).subrange(0, n as int) =~= grids_view(gs@));
                }
                mix_exec(8, h)
            },
            NeuronValue::ValueType(t) => {
                let code: u64 = match t {
                    ValueType::Bool => 0,
                    ValueType::Char => 1,
                    ValueType::Int8 => 2,
                    ValueType::Int32 => 3,
                    ValueType::Int64 => 4,
                    ValueType::String => 5,
                    ValueType::Grid => 6,
                    ValueType::Grids => 7,
                    ValueType::Type => 8,
                    ValueType::Mapping => 9,
                    ValueType::PairGrids => 10,
                    ValueType::LocationPairs => 11,
                    ValueType::RegionsList => 12,
                };
                mix_exec(9, code)
            },
            NeuronValue::Mapping(m) => {
                let n = m.entries.len();
                let mut h: u64 = 0;
                let mut i: usize = 0;
                while i < n
                    invariant
                        i <= n,
                        n == m.entries@.len(),
                        h == entries_hash(m.entries@.subrange(0, i as int)),
                    decreases n - i,
                {
                    proof {
                        assert(m.entries@.subrange(0, i + 1).drop_last() =~= m.entries@.subrange(
                            0,
                            i as int,
                        ));
                        assert(m.entries@.subrange(0, i + 1).last() == m.entries@[i as int]);
                    }
                    let e = m.entries[i];
                    h = mix_exec(h, mix_exec((e.0 as i64 + 128) as u64, (e.1 as i64 + 128) as u64));
                    i += 1;
                }
                proof {
                    assert(m.entries@.subrange(0, n as int) =~= m.entries@);
                }
                mix_exec(10, h)
            },
            NeuronValue::PairGrids(ps) => mix_exec(11, ps.len() as u64),
            NeuronValue::LocationPairs(ls) => mix_exec(12, ls.len() as u64),
            NeuronValue::RegionsList(rs) => mix_exec(13, rs.len() as u64),
        }
    }
}


/// The name of a type tag.
pub open spec fn tag_chars(t: ValueType) -> Seq<char> {
    match t {
        ValueType::Bool => seq!['B', 'o', 'o', 'l'],
        ValueType::Char => seq!['C', 'h', 'a', 'r'],
        ValueType::Int8 => seq!['I', 'n', 't', '8'],
        ValueType::Int32 => seq!['I', 'n', 't', '3', '2'],
        ValueType::Int64 => seq!['I', 'n', 't', '6', '4'],
        ValueType::String => seq!['S', 't', 'r', 'i', 'n', 'g'],
        ValueType::Grid => seq!['G', 'r', 'i', 'd'],
        ValueType::Grids => seq!['G', 'r', 'i', 'd', 's'],
        ValueType::Type => seq!['T', 'y', 'p', 'e'],
        ValueType::Mapping => seq!['M', 'a', 'p', 'p', 'i', 'n', 'g'],
        ValueType::PairGrids => seq!['P', 'a', 'i', 'r', 'G', 'r', 'i', 'd', 's'],
        ValueType::LocationPairs => seq![
            'L', 'o', 'c', 'a', 't', 'i', 'o', 'n', 'P', 'a', 'i', 'r', 's',
        ],
        ValueType::RegionsList => seq!['R', 'e', 'g', 'i', 'o', 'n', 's', 'L', 'i', 's', 't'],
    }
}

/// The text of a value: scalars in decimal, strings as themselves, type
/// tags by name, and the remaining payloads as their kind and extent.
pub open spec fn val_chars(v: ValView) -> Seq<char> {
    match v {
        ValView::Bool(b) => if b {
            seq!['t', 'r', 'u', 'e']
        } else {
            seq!['f', 'a', 'l', 's', 'e']
        },
        ValView::Char(s) => s,
        ValView::Int8(x) => crate::utility::int64_chars(x as int),
        ValView::Int32(x) => crate::utility::int64_chars(x as int),
        ValView::Int64(x) => crate::utility::int64_chars(x as int),
        ValView::String(s) => s,
        ValView::Grid(g) => seq!['g', 'r', 'i', 'd', '('] + crate::utility::dec_digits(
            g.rows as nat,
        ) + seq!['x'] + crate::utility::dec_digits(g.cols as nat) + seq![')'],
        ValView::Grids(gs) => seq!['g', 'r', 'i', 'd', 's', '('] + crate::utility::dec_digits(
            gs.len(),
        ) + seq![')'],
        ValView::ValueType(t) => tag_chars(t),
        ValView::Mapping(es) => seq!['m', 'a', 'p', '('] + crate::utility::dec_digits(es.len())
            + seq![')'],
        ValView::PairGrids(ps) => seq!['p', 'a', 'i', 'r', 's', '('] + crate::utility::dec_digits(
            ps.len(),
        ) + seq![')'],
        ValView::LocationPairs(ls) => seq![
            'l', 'o', 'c', 'a', 't', 'i', 'o', 'n', 's', '(',
        ] + crate::utility::dec_digits(ls.len()) + seq![')'],
        ValView::RegionsList(rs) => seq![
            'r', 'e', 'g', 'i', 'o', 'n', 's', '(',
        ] + crate::utility::dec_digits(rs.len()) + seq![')'],
    }
}

impl NeuronValue {
    /// Renders the value as text.
    pub fn to_text(&self) -> (r: String)
        ensures
            r@ == val_chars(self@),
    {
        let mut s = String::new();
        match self {
            NeuronValue::Bool(b) => {
                proof {
                    reveal_strlit("true");
                    reveal_strlit("false");
                }
                if *b {
                    s.append("true");
                } else {
                    s.append("false");
                }
                proof {
                    assert(s@ =~= val_chars(self@));
                }
            },
            NeuronValue::Char(c) => {
                s.append(c.as_str());
                proof {
                    assert(s@ =~= val_chars(self@));
                }
            },
            NeuronValue::Int8(x) => {
                s = crate::utility::int64_to_string(*x as i64);
            },
            NeuronValue::Int32(x) => {
                s = crate::utility::int64_to_string(*x as i64);
            },
            NeuronValue::Int64(x) => {
                s = crate::utility::int64_to_string(*x);
            },
            NeuronValue::String(c) => {
                s.append(c.as_str());
                proof {
                    assert(s@ =~= val_chars(self@));
                }
            },
            NeuronValue::Grid(g) => {
                proof {
                    reveal_strlit("grid(");
                    reveal_strlit("x");
                    reveal_strlit(")");
                }
                s.append("grid(");
                crate::utility::push_decimal(&mut s, g.nrows() as u64);
                s.append("x");
                crate::utility::push_decimal(&mut s, g.ncols() as u64);
                s.append(")");
                proof {
                    assert(s@ =~= val_chars(self@));
                }
            },
            NeuronValue::Grids(gs) => {
                proof {
                    reveal_strlit("grids(");
                    reveal_strlit(")");
                }
                s.append("grids(");
                crate::utility::push_decimal(&mut s, gs.len() as u64);
                s.append(")");
                proof {
                    assert(grids_view(gs@).len() == gs@.len());
                    assert(s@ =~= val_chars(self@));
                }
            },
            NeuronValue::ValueType(t) => {
                proof {
                    reveal_strlit("Bool");
                    reveal_strlit("Char");
                    reveal_strlit("Int8");
                    reveal_strlit("Int32");
                    reveal_strlit("Int64");
                    reveal_strlit("String");
                    reveal_strlit("Grid");
                    reveal_strlit("Grids");
                    reveal_strlit("Type");
                    reveal_strlit("Mapping");
                    reveal_strlit("PairGrids");
                    reveal_strlit("LocationPairs");
                    reveal_strlit("RegionsList");
                }
                match t {
                    ValueType::Bool => s.append("Bool"),
                    ValueType::Char => s.append("Char"),
                    ValueType::Int8 => s.append("Int8"),
                    ValueType::Int32 => s.append("Int32"),
                    ValueType::Int64 => s.append("Int64"),
                    ValueType::String => s.append("String"),
                    ValueType::Grid => s.append("Grid"),
                    ValueType::Grids => s.append("Grids"),
                    ValueType::Type => s.append("Type"),
                    ValueType::Mapping => s.append("Mapping"),
                    ValueType::PairGrids => s.append("PairGrids"),
                    ValueType::LocationPairs => s.append("LocationPairs"),
                    ValueType::RegionsList => s.append("RegionsList"),
                }
                proof {
                    assert(s@ =~= val_chars(self@));
                }
            },
            NeuronValue::Mapping(m) => {
                proof {
                    reveal_strlit("map(");
                    reveal_strlit(")");
                }
                s.append("map(");
                crate::utility::push_decimal(&mut s, m.entries.len() as u64);
                s.append(")");
                proof {
                    assert(s@ =~= val_chars(self@));
                }
            },
            NeuronValue::PairGrids(ps) => {
                proof {
                    reveal_strlit("pairs(");
                    reveal_strlit(")");
                }
                s.append("pairs(");
                crate::utility::push_decimal(&mut s, ps.len() as u64);
                s.append(")");
                proof {
                    assert(Seq::new(ps@.len(), |i: int| (ps@[i].0@, ps@[i].1@)).len()
                        == ps@.len());
                    assert(s@ =~= val_chars(self@));
                }
            },
            NeuronValue::LocationPairs(ls) => {
                proof {
                    reveal_strlit("locations(");
                    reveal_strlit(")");
                }
                s.append("locations(");
                crate::utility::push_decimal(&mut s, ls.len() as u64);
                s.append(")");
                proof {
                    assert(Seq::new(ls@.len(), |i: int| ls@[i]@).len() == ls@.len());
                    assert(s@ =~= val_chars(self@));
                }
            },
            NeuronValue::RegionsList(rs) => {
                proof {
                    reveal_strlit("regions(");
                    reveal_strlit(")");
                }
                s.append("regions(");
                crate::utility::push_decimal(&mut s, rs.len() as u64);
                s.append(")");
                proof {
                    assert(Seq::new(
                        rs@.len(),
                        |i: int| Seq::new(rs@[i]@.len(), |j: int| rs@[i]@[j]@),
                    ).len() == rs@.len());
                    assert(s@ =~= val_chars(self@));
                }
            },
        }
        s
    }
}

} // verus!

