//! Expression trees ("connections"): a neuron applied to typed input slots.
//!
//! A connection node names its neuron by index into the neuron library and
//! holds an ordered list of slots; each slot is either a concrete value (a
//! type-tag value stands for an unbound hole of that type) or a
//! sub-connection whose output feeds the slot.
use vstd::prelude::*;

use crate::neuron::NeuronValue;
use crate::neuron::Neuron;
use crate::neuron::ValueType;

verus! {

use crate::neuron::ValView;
use crate::neuron::spec_apply;
use crate::neuron::views_of;
use crate::neuron::opt_view;

/// One input slot of a connection: a concrete value, or a sub-connection
/// whose output feeds the slot.
#[derive(Debug, PartialEq, Eq, Hash)]
pub enum ConnectionValue {
    Value(NeuronValue),
    Connection(Box<Connection>),
}

/// A node in an expression tree: a neuron (named by its index into the
/// neuron library) and its input slots.
#[derive(Debug, PartialEq, Eq, Hash)]
pub struct Connection {
    pub neuron: usize,
    pub inputs: Vec<ConnectionValue>,
}

impl Connection {
    /// Structural equality: the same neuron and recursively equal slots.
    pub open spec fn conn_eq(self, other: Connection) -> bool
        decreases self,
    {
        &&& self.neuron == other.neuron
        &&& self.inputs@.len() == other.inputs@.len()
        &&& forall|i: int|
            0 <= i < self.inputs@.len() ==> cv_eq(#[trigger] self.inputs@[i], other.inputs@[i])
    }

    /// Every neuron index in the tree lies inside the library.
    pub open spec fn idx_ok(self, lib: Seq<Neuron>) -> bool
        decreases self,
    {
        &&& self.neuron < lib.len()
        &&& forall|i: int| 0 <= i < self.inputs@.len() ==> cv_idx_ok(#[trigger] self.inputs@[i], lib)
    }

    /// Every concrete value in the tree is well formed.
    pub open spec fn vals_wf(self) -> bool
        decreases self,
    {
        forall|i: int| 0 <= i < self.inputs@.len() ==> cv_vals_wf(#[trigger] self.inputs@[i])
    }

    /// The size of the tree: one for each slot, plus the sizes of the
    /// sub-connections.
    pub open spec fn spec_cost(self) -> nat
        decreases self,
    {
        slots_cost(self.inputs@)
    }

    /// The nesting depth of sub-connections below this node.
    pub open spec fn spec_depth(self) -> nat
        decreases self,
    {
        slots_depth(self.inputs@)
    }

    /// What evaluating the tree returns: each slot contributes its value or
    /// its sub-connection's output, and the neuron is applied to the
    /// resulting argument vector; an undefined child or application makes
    /// the whole output undefined, and so does a slot still holding a
    /// placeholder (a type-tag value standing for an unbound hole).
    pub open spec fn spec_output(self, lib: Seq<Neuron>) -> Option<ValView>
        decreases self,
    {
        if self.neuron < lib.len() {
            match slots_outputs(self.inputs@, lib) {
                Some(vs) => spec_apply(lib[self.neuron as int], vs),
                None => None,
            }
        } else {
            None
        }
    }

    /// The flattened sequence of free input types: a concrete value
    /// contributes its tag (a type-tag value stands for a hole of that
    /// type), a sub-connection contributes its own free input types, or its
    /// output type if it has none.
    pub open spec fn spec_input_types(self, lib: Seq<Neuron>) -> Seq<ValueType>
        decreases self,
    {
        slots_input_types(self.inputs@, lib)
    }
}

/// Structural equality of slots.
pub open spec fn cv_eq(a: ConnectionValue, b: ConnectionValue) -> bool
    decreases a,
{
    match (a, b) {
        (ConnectionValue::Value(x), ConnectionValue::Value(y)) => x@ == y@,
        (ConnectionValue::Connection(x), ConnectionValue::Connection(y)) => x.conn_eq(*y),
        _ => false,
    }
}

/// Every neuron index under the slot lies inside the library.
pub open spec fn cv_idx_ok(cv: ConnectionValue, lib: Seq<Neuron>) -> bool
    decreases cv,
{
    match cv {
        ConnectionValue::Value(_) => true,
        ConnectionValue::Connection(sub) => sub.idx_ok(lib),
    }
}

/// Every concrete value under the slot is well formed.
pub open spec fn cv_vals_wf(cv: ConnectionValue) -> bool
    decreases cv,
{
    match cv {
        ConnectionValue::Value(v) => v@.wf(),
        ConnectionValue::Connection(sub) => sub.vals_wf(),
    }
}

/// The size contributed by a slot list.
pub open spec fn slots_cost(s: Seq<ConnectionValue>) -> nat
    decreases s,
{
    if s.len() == 0 {
        0
    } else {
        slots_cost(s.drop_last()) + (match s.last() {
            ConnectionValue::Value(_) => 1nat,
            ConnectionValue::Connection(sub) => 1nat + sub.spec_cost(),
        })
    }
}

/// The nesting depth contributed by a slot list.
pub open spec fn slots_depth(s: Seq<ConnectionValue>) -> nat
    decreases s,
{
    if s.len() == 0 {
        0
    } else {
        let rest = slots_depth(s.drop_last());
        let here = match s.last() {
            ConnectionValue::Value(_) => 0nat,
            ConnectionValue::Connection(sub) => 1nat + sub.spec_depth(),
        };
        if here >= rest {
            here
        } else {
            rest
        }
    }
}

/// The argument vector a slot list contributes: the views of its values and
/// sub-outputs, or nothing if any sub-output is undefined.
pub open spec fn slots_outputs(s: Seq<ConnectionValue>, lib: Seq<Neuron>) -> Option<Seq<ValView>>
    decreases s,
{
    if s.len() == 0 {
        Some(Seq::empty())
    } else {
        match slots_outputs(s.drop_last(), lib) {
            Some(vs) => match s.last() {
                ConnectionValue::Value(v) => Some(vs.push(v@)),
                ConnectionValue::Connection(sub) => match sub.spec_output(lib) {
                    Some(w) => Some(vs.push(w)),
                    None => None,
                },
            },
            None => None,
        }
    }
}

/// The flattened free input types contributed by a slot list.
pub open spec fn slots_input_types(s: Seq<ConnectionValue>, lib: Seq<Neuron>) -> Seq<ValueType>
    decreases s,
{
    if s.len() == 0 {
        Seq::empty()
    } else {
        slots_input_types(s.drop_last(), lib) + cv_input_types(s.last(), lib)
    }
}

/// The flattened free input types contributed by one slot.
pub open spec fn cv_input_types(cv: ConnectionValue, lib: Seq<Neuron>) -> Seq<ValueType>
    decreases cv,
{
    match cv {
        ConnectionValue::Value(v) => seq![v@.tag()],
        ConnectionValue::Connection(sub) => {
            let inner = sub.spec_input_types(lib);
            if inner.len() == 0 {
                if sub.neuron < lib.len() {
                    seq![lib[sub.neuron as int].output_type]
                } else {
                    Seq::empty()
                }
            } else {
                inner
            }
        },
    }
}

impl Connection {
    /// Builds a connection after checking the slot-count invariant: the
    /// number of slots must match the neuron's declared input types (slot
    /// typing is checked lazily, during evaluation).
    pub fn new(neuron: usize, inputs: Vec<ConnectionValue>, lib: &Vec<Neuron>) -> (r: Result<
        Connection,
        EngineError,
    >)
        ensures
            r is Ok <==> (neuron < lib@.len() && inputs@.len()
                == lib@[neuron as int].input_types@.len()),
            r matches Ok(c) ==> c.neuron == neuron && c.inputs == inputs,
    {
        if neuron >= lib.len() {
            return Err(EngineError::UnknownNeuron);
        }
        if inputs.len() != lib[neuron].input_types.len() {
            return Err(EngineError::SlotCountMismatch);
        }
        Ok(Connection { neuron, inputs })
    }

    /// The index of this node's neuron in the library.
    pub fn neuron(&self) -> (r: usize)
        ensures
            r == self.neuron,
    {
        self.neuron
    }

    /// The input slots.
    pub fn inputs(&self) -> (r: &Vec<ConnectionValue>)
        ensures
            r == &self.inputs,
    {
        &self.inputs
    }

    /// Compares two trees structurally.
    pub fn equals(&self, other: &Connection) -> (r: bool)
        ensures
            r == self.conn_eq(*other),
        decreases *self,
    {
        if self.neuron != other.neuron {
            return false;
        }
        let n = self.inputs.len();
        if n != other.inputs.len() {
            return false;
        }
        let mut i: usize = 0;
        while i < n
            invariant
                i <= n,
                n == self.inputs@.len() == other.inputs@.len(),
                forall|p: int| 0 <= p < i ==> cv_eq(#[trigger] self.inputs@[p], other.inputs@[p]),
            decreases n - i,
        {
            let same = match (&self.inputs[i], &other.inputs[i]) {
                (ConnectionValue::Value(x), ConnectionValue::Value(y)) => {
                    proof {
                        crate::neuron::lemma_val_eq_is_view_eq(*x, *y);
                    }
                    x.equals(y)
                },
                (ConnectionValue::Connection(x), ConnectionValue::Connection(y)) => x.equals(y),
                _ => false,
            };
            proof {
                assert(same == cv_eq(self.inputs@[i as int], other.inputs@[i as int]));
            }
            if !same {
                return false;
            }
            i += 1;
        }
        true
    }

    /// Produces an independent tree that is structurally equal: the slot
    /// list is a deep copy.
    pub fn deep_clone(&self) -> (r: Connection)
        ensures
            r.conn_eq(*self),
        decreases *self,
    {
        let n = self.inputs.len();
        let mut inputs: Vec<ConnectionValue> = Vec::new();
        let mut i: usize = 0;
        while i < n
            invariant
                i <= n,
                n == self.inputs@.len(),
                inputs@.len() == i,
                forall|p: int| 0 <= p < i ==> cv_eq(#[trigger] inputs@[p], self.inputs@[p]),
            decreases n - i,
        {
            let cv = match &self.inputs[i] {
                ConnectionValue::Value(v) => ConnectionValue::Value(v.clone()),
                ConnectionValue::Connection(sub) => ConnectionValue::Connection(
                    Box::new(sub.deep_clone()),
                ),
            };
            proof {
                assert(cv_eq(cv, self.inputs@[i as int]));
            }
            inputs.push(cv);
            i += 1;
        }
        let r = Connection { neuron: self.neuron, inputs };
        r
    }

    /// Computes the size of the tree, saturating at the machine limit.
    pub fn cost(&self) -> (r: usize)
        ensures
            r == clamp_usize(self.spec_cost() as int),
        decreases *self,
    {
        let n = self.inputs.len();
        let mut c: usize = 0;
        let mut i: usize = 0;
        while i < n
            invariant
                i <= n,
                n == self.inputs@.len(),
                c == clamp_usize(slots_cost(self.inputs@.subrange(0, i as int)) as int),
            decreases n - i,
        {
            proof {
                assert(self.inputs@.subrange(0, i + 1).drop_last() =~= self.inputs@.subrange(
                    0,
                    i as int,
                ));
                assert(self.inputs@.subrange(0, i + 1).last() == self.inputs@[i as int]);
            }
            c = c.saturating_add(1);
            match &self.inputs[i] {
                ConnectionValue::Value(_) => {},
                ConnectionValue::Connection(sub) => {
                    let sc = sub.cost();
                    c = c.saturating_add(sc);
                },
            }
            i += 1;
        }
        proof {
            assert(self.inputs@.subrange(0, n as int) =~= self.inputs@);
        }
        c
    }

    /// Computes the nesting depth below this node, added to the running
    /// depth `d` and saturating at the machine limit.
    pub fn depth(&self, d: usize) -> (r: usize)
        ensures
            r == clamp_usize(d + self.spec_depth()),
        decreases *self,
    {
        let n = self.inputs.len();
        let mut acc: usize = d;
        let mut i: usize = 0;
        while i < n
            invariant
                i <= n,
                n == self.inputs@.len(),
                acc == clamp_usize(d + slots_depth(self.inputs@.subrange(0, i as int))),
            decreases n - i,
        {
            proof {
                assert(self.inputs@.subrange(0, i + 1).drop_last() =~= self.inputs@.subrange(
                    0,
                    i as int,
                ));
                assert(self.inputs@.subrange(0, i + 1).last() == self.inputs@[i as int]);
            }
            match &self.inputs[i] {
                ConnectionValue::Value(_) => {},
                ConnectionValue::Connection(sub) => {
                    let inner = sub.depth(d.saturating_add(1));
                    if inner > acc {
                        acc = inner;
                    }
                },
            }
            i += 1;
        }
        proof {
            assert(self.inputs@.subrange(0, n as int) =~= self.inputs@);
        }
        acc
    }

    /// Evaluates the tree: evaluates the sub-connections, then applies the
    /// neuron to the resulting argument vector. Returns nothing when a
    /// child, the application, or the typing is undefined.
    pub fn output(&self, lib: &Vec<Neuron>) -> (r: Option<NeuronValue>)
        ensures
            opt_view(r) == self.spec_output(lib@),
            r matches Some(v) ==> v.val_wf(),
        decreases *self,
    {
        if self.neuron >= lib.len() {
            return None;
        }
        let n = self.inputs.len();
        let mut args: Vec<NeuronValue> = Vec::new();
        let mut i: usize = 0;
        while i < n
            invariant
                i <= n,
                n == self.inputs@.len(),
                self.neuron < lib@.len(),
                slots_outputs(self.inputs@.subrange(0, i as int), lib@) == Some(views_of(args@)),
            decreases n - i,
        {
            proof {
                assert(self.inputs@.subrange(0, i + 1).drop_last() =~= self.inputs@.subrange(
                    0,
                    i as int,
                ));
                assert(self.inputs@.subrange(0, i + 1).last() == self.inputs@[i as int]);
            }
            let ghost prev = args@;
            match &self.inputs[i] {
                ConnectionValue::Value(v) => {
                    args.push(v.clone());
                },
                ConnectionValue::Connection(sub) => {
                    match sub.output(lib) {
                        Some(v) => {
                            args.push(v);
                        },
                        None => {
                            proof {
                                lemma_slots_outputs_none_extends(
                                    self.inputs@,
                                    i as int,
                                    n as int,
                                    lib@,
                                );
                            }
                            return None;
                        },
                    }
                },
            }
            proof {
                assert(views_of(args@) =~= views_of(prev).push(args@.last()@));
            }
            i += 1;
        }
        proof {
            assert(self.inputs@.subrange(0, n as int) =~= self.inputs@);
        }
        self.neuron_apply(lib, &args)
    }

    /// Applies this node's neuron to a computed argument vector.
    fn neuron_apply(&self, lib: &Vec<Neuron>, args: &Vec<NeuronValue>) -> (r: Option<NeuronValue>)
        requires
            self.neuron < lib@.len(),
        ensures
            opt_view(r) == spec_apply(lib@[self.neuron as int], views_of(args@)),
            r matches Some(v) ==> v.val_wf(),
    {
        lib[self.neuron].apply(args.as_slice())
    }

    /// Computes the flattened free input types.
    pub fn input_types(&self, lib: &Vec<Neuron>) -> (r: Vec<ValueType>)
        requires
            self.idx_ok(lib@),
        ensures
            r@ == self.spec_input_types(lib@),
        decreases *self,
    {
        let n = self.inputs.len();
        let mut types: Vec<ValueType> = Vec::new();
        let mut i: usize = 0;
        while i < n
            invariant
                i <= n,
                n == self.inputs@.len(),
                self.idx_ok(lib@),
                types@ == slots_input_types(self.inputs@.subrange(0, i as int), lib@),
            decreases n - i,
        {
            proof {
                assert(self.inputs@.subrange(0, i + 1).drop_last() =~= self.inputs@.subrange(
                    0,
                    i as int,
                ));
                assert(self.inputs@.subrange(0, i + 1).last() == self.inputs@[i as int]);
                assert(cv_idx_ok(self.inputs@[i as int], lib@));
            }
            match &self.inputs[i] {
                ConnectionValue::Value(v) => {
                    types.push(v.value_type());
                    proof {
                        crate::neuron::lemma_value_type_view(*v);
                        assert(self.inputs@[i as int] == ConnectionValue::Value(*v));
                        assert(cv_input_types(self.inputs@[i as int], lib@) =~= seq![v@.tag()]);
                        assert(types@ =~= slots_input_types(
                            self.inputs@.subrange(0, i + 1),
                            lib@,
                        ));
                    }
                },
                ConnectionValue::Connection(sub) => {
                    proof {
                        assert(self.inputs@[i as int] == ConnectionValue::Connection(*sub));
                    }
                    let sub_types = sub.input_types(lib);
                    if sub_types.len() == 0 {
                        types.push(lib[sub.neuron].output_type);
                        proof {
                            assert(sub.spec_input_types(lib@).len() == 0);
                            assert(sub.idx_ok(lib@));
                            assert(cv_input_types(self.inputs@[i as int], lib@) =~= seq![
                                lib@[sub.neuron as int].output_type,
                            ]);
                        }
                    } else {
                        let m = sub_types.len();
                        let mut j: usize = 0;
                        while j < m
                            invariant
                                j <= m,
                                m == sub_types@.len(),
                                types@ == slots_input_types(
                                    self.inputs@.subrange(0, i as int),
                                    lib@,
                                ) + sub_types@.subrange(0, j as int),
                            decreases m - j,
                        {
                            types.push(sub_types[j]);
                            proof {
                                assert(types@ =~= slots_input_types(
                                    self.inputs@.subrange(0, i as int),
                                    lib@,
                                ) + sub_types@.subrange(0, j + 1));
                            }
                            j += 1;
                        }
                        proof {
                            assert(sub_types@.subrange(0, m as int) =~= sub_types@);
                            assert(cv_input_types(self.inputs@[i as int], lib@)
                                == sub.spec_input_types(lib@));
                        }
                    }
                    proof {
                        assert(types@ =~= slots_input_types(
                            self.inputs@.subrange(0, i + 1),
                            lib@,
                        ));
                    }
                },
            }
            i += 1;
        }
        proof {
            assert(self.inputs@.subrange(0, n as int) =~= self.inputs@);
        }
        types
    }
}

/// An error of the engine's contract checks.
#[derive(Clone, Copy, Debug, PartialEq, Eq, Structural)]
pub enum EngineError {
    /// A neuron index lies outside the library.
    UnknownNeuron,
    /// A slot list does not match the neuron's declared input types.
    SlotCountMismatch,
    /// An input vector does not match the tree's free input arity.
    ArityMismatch,
    /// An input value does not carry the declared slot type.
    TypeMismatch,
    /// No candidate expression evaluated to a finite distance.
    NoSolution,
}

/// Clamps a non-negative mathematical integer into a machine size.
pub open spec fn clamp_usize(x: int) -> usize {
    if x > usize::MAX {
        usize::MAX
    } else if x < 0 {
        0
    } else {
        x as usize
    }
}

/// Once a slot list's argument vector is undefined at some prefix, it is
/// undefined for the whole list.
proof fn lemma_slots_outputs_none_extends(s: Seq<ConnectionValue>, i: int, n: int, lib: Seq<Neuron>)
    requires
        0 <= i < n == s.len(),
        slots_outputs(s.subrange(0, i + 1), lib) is None,
    ensures
        slots_outputs(s, lib) is None,
    decreases n - i,
{
    if i + 1 == n {
        assert(s.subrange(0, n) =~= s);
    } else {
        assert(s.subrange(0, i + 2).drop_last() =~= s.subrange(0, i + 1));
        lemma_slots_outputs_none_extends(s, i + 1, n, lib);
    }
}


/// The number of free inputs one slot consumes.
pub open spec fn cv_arity(cv: ConnectionValue, lib: Seq<Neuron>) -> nat {
    cv_input_types(cv, lib).len()
}

/// The position of slot `i`'s inputs inside a flat input vector: the number
/// of free inputs consumed by the slots before it.
pub open spec fn slot_pos(slots: Seq<ConnectionValue>, lib: Seq<Neuron>, i: int) -> int {
    slots_input_types(slots.subrange(0, i), lib).len() as int
}

/// The declared type of slot `i`, when the neuron and the slot both exist.
pub open spec fn declared_at(lib: Seq<Neuron>, neuron: int, i: int) -> Option<ValueType> {
    if 0 <= neuron < lib.len() && 0 <= i < lib[neuron].input_types@.len() {
        Some(lib[neuron].input_types@[i])
    } else {
        None
    }
}

/// One slot accepts its share of a flat input vector: a sub-connection with
/// free inputs passes them on; a sub-connection without free inputs is
/// overwritten unchecked; a concrete slot accepts a sub-connection
/// unchecked, and a concrete value only when its tag is the declared slot
/// type.
pub open spec fn cv_slot_ok(
    cv: ConnectionValue,
    ins: Seq<ConnectionValue>,
    d: Option<ValueType>,
    lib: Seq<Neuron>,
) -> bool
    recommends
        ins.len() == cv_arity(cv, lib),
    decreases cv,
{
    match cv {
        ConnectionValue::Connection(sub) => if sub.spec_input_types(lib).len() > 0 {
            conn_inputs_ok(*sub, ins, lib)
        } else {
            true
        },
        ConnectionValue::Value(_) => match ins[0] {
            ConnectionValue::Connection(_) => true,
            ConnectionValue::Value(nv) => d matches Some(t) && nv@.tag() == t,
        },
    }
}

/// A flat input vector fits a tree: every slot accepts its share.
pub open spec fn conn_inputs_ok(c: Connection, ins: Seq<ConnectionValue>, lib: Seq<Neuron>) -> bool
    recommends
        ins.len() == c.spec_input_types(lib).len(),
    decreases c,
{
    forall|i: int|
        0 <= i < c.inputs@.len() ==> cv_slot_ok(
            #[trigger] c.inputs@[i],
            ins.subrange(slot_pos(c.inputs@, lib, i), slot_pos(c.inputs@, lib, i + 1)),
            declared_at(lib, c.neuron as int, i),
            lib,
        )
}

/// The rewriting of one slot by its share of a flat input vector: a
/// sub-connection with free inputs is rewritten recursively; any other slot
/// is overwritten by its input.
pub open spec fn cv_rewritten(
    cv: ConnectionValue,
    ins: Seq<ConnectionValue>,
    ncv: ConnectionValue,
    lib: Seq<Neuron>,
) -> bool
    recommends
        ins.len() == cv_arity(cv, lib),
    decreases cv,
{
    match cv {
        ConnectionValue::Connection(sub) => if sub.spec_input_types(lib).len() > 0 {
            ncv matches ConnectionValue::Connection(nsub) && conn_rewritten(*sub, ins, *nsub, lib)
        } else {
            cv_eq(ncv, ins[0])
        },
        ConnectionValue::Value(_) => cv_eq(ncv, ins[0]),
    }
}

/// The rewriting of a tree by a flat input vector, consumed left to right in
/// preorder.
pub open spec fn conn_rewritten(
    c: Connection,
    ins: Seq<ConnectionValue>,
    nc: Connection,
    lib: Seq<Neuron>,
) -> bool
    recommends
        ins.len() == c.spec_input_types(lib).len(),
    decreases c,
{
    &&& nc.neuron == c.neuron
    &&& nc.inputs@.len() == c.inputs@.len()
    &&& forall|i: int|
        0 <= i < c.inputs@.len() ==> cv_rewritten(
            #[trigger] c.inputs@[i],
            ins.subrange(slot_pos(c.inputs@, lib, i), slot_pos(c.inputs@, lib, i + 1)),
            nc.inputs@[i],
            lib,
        )
}

/// The free input types of a concatenation of slot lists are the
/// concatenation of their free input types.
proof fn lemma_slots_input_types_step(s: Seq<ConnectionValue>, i: int, lib: Seq<Neuron>)
    requires
        0 <= i < s.len(),
    ensures
        slots_input_types(s.subrange(0, i + 1), lib) == slots_input_types(s.subrange(0, i), lib)
            + cv_input_types(s[i], lib),
{
    assert(s.subrange(0, i + 1).drop_last() =~= s.subrange(0, i));
    assert(s.subrange(0, i + 1).last() == s[i]);
}

/// Structurally equal trees agree on index validity.
pub proof fn lemma_conn_eq_idx_ok(a: Connection, b: Connection, lib: Seq<Neuron>)
    requires
        a.conn_eq(b),
    ensures
        a.idx_ok(lib) <==> b.idx_ok(lib),
    decreases a,
{
    assert forall|i: int|
        0 <= i < a.inputs@.len() implies (cv_idx_ok(#[trigger] a.inputs@[i], lib) <==> cv_idx_ok(
        b.inputs@[i],
        lib,
    )) by {
        assert(cv_eq(a.inputs@[i], b.inputs@[i]));
        match (a.inputs@[i], b.inputs@[i]) {
            (ConnectionValue::Connection(x), ConnectionValue::Connection(y)) => {
                lemma_conn_eq_idx_ok(*x, *y, lib);
            },
            _ => {},
        }
    }
    if a.idx_ok(lib) {
        assert forall|i: int|
            0 <= i < b.inputs@.len() implies cv_idx_ok(#[trigger] b.inputs@[i], lib) by {
            assert(cv_idx_ok(a.inputs@[i], lib));
        }
    }
    if b.idx_ok(lib) {
        assert forall|i: int|
            0 <= i < a.inputs@.len() implies cv_idx_ok(#[trigger] a.inputs@[i], lib) by {
            assert(cv_idx_ok(b.inputs@[i], lib));
        }
    }
}

/// Deep-copies one slot.
pub fn clone_slot(cv: &ConnectionValue, lib: &Vec<Neuron>) -> (r: ConnectionValue)
    requires
        cv_idx_ok(*cv, lib@),
    ensures
        cv_eq(r, *cv),
        cv_idx_ok(r, lib@),
{
    match cv {
        ConnectionValue::Value(v) => ConnectionValue::Value(v.clone()),
        ConnectionValue::Connection(sub) => {
            let nsub = sub.deep_clone();
            proof {
                lemma_conn_eq_idx_ok(nsub, **sub, lib@);
            }
            ConnectionValue::Connection(Box::new(nsub))
        },
    }
}

/// Rewrites the tree by the inputs at positions `start ..`, returning the
/// rewritten tree, or the reason the inputs do not fit.
#[verifier::rlimit(100)]
#[verifier::spinoff_prover]
fn rewrite_conn(c: &Connection, inputs: &Vec<ConnectionValue>, start: usize, lib: &Vec<Neuron>) -> (r:
    Result<Connection, EngineError>)
    requires
        c.idx_ok(lib@),
        forall|p: int| 0 <= p < inputs@.len() ==> cv_idx_ok(#[trigger] inputs@[p], lib@),
        start + c.spec_input_types(lib@).len() <= inputs@.len(),
    ensures
        r is Ok <==> conn_inputs_ok(
            *c,
            inputs@.subrange(start as int, start + c.spec_input_types(lib@).len()),
            lib@,
        ),
        r matches Ok(nc) ==> conn_rewritten(
            *c,
            inputs@.subrange(start as int, start + c.spec_input_types(lib@).len()),
            nc,
            lib@,
        ) && nc.idx_ok(lib@),
        r matches Err(e) ==> e == EngineError::TypeMismatch,
    decreases *c,
{
    let ghost arity = c.spec_input_types(lib@).len() as int;
    let ghost ins = inputs@.subrange(start as int, start + arity);
    let total = inputs.len();
    let n = c.inputs.len();
    let mut new_inputs: Vec<ConnectionValue> = Vec::new();
    let mut pos: usize = start;
    let mut i: usize = 0;
    proof {
        assert(c.inputs@.subrange(0, 0) =~= Seq::<ConnectionValue>::empty());
    }
    while i < n
        invariant
            i <= n,
            n == c.inputs@.len(),
            c.idx_ok(lib@),
            forall|p: int| 0 <= p < inputs@.len() ==> cv_idx_ok(#[trigger] inputs@[p], lib@),
            start + arity <= inputs@.len(),
            total == inputs@.len(),
            arity == c.spec_input_types(lib@).len(),
            ins == inputs@.subrange(start as int, start + arity),
            pos == start + slot_pos(c.inputs@, lib@, i as int),
            new_inputs@.len() == i,
            forall|p: int|
                0 <= p < i ==> cv_slot_ok(
                    #[trigger] c.inputs@[p],
                    ins.subrange(
                        slot_pos(c.inputs@, lib@, p),
                        slot_pos(c.inputs@, lib@, p + 1),
                    ),
                    declared_at(lib@, c.neuron as int, p),
                    lib@,
                ),
            forall|p: int|
                0 <= p < i ==> cv_rewritten(
                    #[trigger] c.inputs@[p],
                    ins.subrange(
                        slot_pos(c.inputs@, lib@, p),
                        slot_pos(c.inputs@, lib@, p + 1),
                    ),
                    new_inputs@[p],
                    lib@,
                ),
            forall|p: int| 0 <= p < i ==> cv_idx_ok(#[trigger] new_inputs@[p], lib@),
        decreases n - i,
    {
        proof {
            lemma_slots_input_types_step(c.inputs@, i as int, lib@);
            assert(cv_idx_ok(c.inputs@[i as int], lib@));
            lemma_slot_pos_bound(c.inputs@, lib@, i as int);
        }
        let ghost k = cv_arity(c.inputs@[i as int], lib@) as int;
        let ghost local = ins.subrange(
            slot_pos(c.inputs@, lib@, i as int),
            slot_pos(c.inputs@, lib@, i + 1),
        );
        proof {
            assert forall|t: int| 0 <= t < k implies local[t] == inputs@[pos + t] by {
                assert(local[t] == ins[slot_pos(c.inputs@, lib@, i as int) + t]);
            }
        }
        match &c.inputs[i] {
            ConnectionValue::Value(_) => {
                proof {
                    assert(k == 1);
                    assert(local[0] == inputs@[pos as int]);
                }
                let accept = match &inputs[pos] {
                    ConnectionValue::Connection(_) => true,
                    ConnectionValue::Value(nv) => {
                        let ghost d = declared_at(lib@, c.neuron as int, i as int);
                        proof {
                            crate::neuron::lemma_value_type_view(*nv);
                        }
                        if i < lib[c.neuron].input_types.len() {
                            nv.value_type() == lib[c.neuron].input_types[i]
                        } else {
                            false
                        }
                    },
                };
                if !accept {
                    proof {
                        lemma_not_all_slots_ok(*c, ins, lib@, i as int);
                    }
                    return Err(EngineError::TypeMismatch);
                }
                new_inputs.push(clone_slot(&inputs[pos], lib));
                pos = pos + 1;
            },
            ConnectionValue::Connection(sub) => {
                let sub_types = sub.input_types(lib);
                if sub_types.len() > 0 {
                    proof {
                        assert(k == sub.spec_input_types(lib@).len());
                        assert(local =~= inputs@.subrange(pos as int, pos + k));
                    }
                    proof {
                        assert(pos + k <= start + arity);
                    }
                    match rewrite_conn(sub, inputs, pos, lib) {
                        Ok(nsub) => {
                            new_inputs.push(ConnectionValue::Connection(Box::new(nsub)));
                            pos = pos + sub_types.len();
                        },
                        Err(e) => {
                            proof {
                                lemma_not_all_slots_ok(*c, ins, lib@, i as int);
                            }
                            return Err(e);
                        },
                    }
                } else {
                    proof {
                        assert(k == 1);
                        assert(local[0] == inputs@[pos as int]);
                    }
                    new_inputs.push(clone_slot(&inputs[pos], lib));
                    pos = pos + 1;
                }
            },
        }
        i += 1;
    }
    proof {
        assert(c.inputs@.subrange(0, n as int) =~= c.inputs@);
        assert(conn_inputs_ok(*c, ins, lib@));
    }
    let nc = Connection { neuron: c.neuron, inputs: new_inputs };
    proof {
        assert(conn_rewritten(*c, ins, nc, lib@));
    }
    Ok(nc)
}

/// The inputs consumed by the slots before slot `i`, plus slot `i`'s own
/// share, stay within the tree's total arity.
proof fn lemma_slot_pos_bound(s: Seq<ConnectionValue>, lib: Seq<Neuron>, i: int)
    requires
        0 <= i < s.len(),
    ensures
        0 <= slot_pos(s, lib, i),
        slot_pos(s, lib, i + 1) == slot_pos(s, lib, i) + cv_arity(s[i], lib),
        slot_pos(s, lib, i + 1) <= slots_input_types(s, lib).len(),
    decreases s.len() - i,
{
    lemma_slots_input_types_step(s, i, lib);
    if i + 1 == s.len() {
        assert(s.subrange(0, i + 1) =~= s);
    } else {
        lemma_slot_pos_bound(s, lib, i + 1);
    }
}

/// If one slot rejects its share, the whole input vector is rejected.
proof fn lemma_not_all_slots_ok(c: Connection, ins: Seq<ConnectionValue>, lib: Seq<Neuron>, i: int)
    requires
        0 <= i < c.inputs@.len(),
        !cv_slot_ok(
            c.inputs@[i],
            ins.subrange(slot_pos(c.inputs@, lib, i), slot_pos(c.inputs@, lib, i + 1)),
            declared_at(lib, c.neuron as int, i),
            lib,
        ),
    ensures
        !conn_inputs_ok(c, ins, lib),
{
}

impl Connection {
    /// Rewrites the tree in preorder by consuming the inputs left to right:
    /// a sub-connection with free inputs consumes as many inputs as its
    /// arity; any other slot is overwritten by the next input, a concrete
    /// value only after a check against the declared slot type. An input
    /// vector whose length differs from the tree's free input arity is
    /// rejected and leaves the tree unchanged, as does a failed type check.
    pub fn apply_inputs(&mut self, inputs: &Vec<ConnectionValue>, lib: &Vec<Neuron>) -> (r: Result<
        (),
        EngineError,
    >)
        requires
            old(self).idx_ok(lib@),
            forall|p: int| 0 <= p < inputs@.len() ==> cv_idx_ok(#[trigger] inputs@[p], lib@),
        ensures
            r == Err::<(), EngineError>(EngineError::ArityMismatch) <==> inputs@.len() != old(
                self,
            ).spec_input_types(lib@).len(),
            r is Ok <==> (inputs@.len() == old(self).spec_input_types(lib@).len()
                && conn_inputs_ok(*old(self), inputs@, lib@)),
            r is Err ==> *final(self) == *old(self),
            r is Ok ==> conn_rewritten(*old(self), inputs@, *final(self), lib@),
            r is Ok ==> final(self).idx_ok(lib@),
            r matches Err(e) ==> (e == EngineError::ArityMismatch || e
                == EngineError::TypeMismatch),
    {
        let types = self.input_types(lib);
        if inputs.len() != types.len() {
            return Err(EngineError::ArityMismatch);
        }
        proof {
            assert(inputs@.subrange(0, inputs@.len() as int) =~= inputs@);
        }
        match rewrite_conn(self, inputs, 0, lib) {
            Ok(nc) => {
                *self = nc;
                Ok(())
            },
            Err(e) => Err(e),
        }
    }
}


/// A deterministic hash of one slot.
pub open spec fn slot_hash(cv: ConnectionValue) -> u64
    decreases cv,
{
    match cv {
        ConnectionValue::Value(v) => crate::neuron::mix(17, crate::neuron::val_hash(v@)),
        ConnectionValue::Connection(sub) => crate::neuron::mix(19, conn_hash(*sub)),
    }
}

/// A deterministic hash of a slot list.
pub open spec fn slots_hash(s: Seq<ConnectionValue>) -> u64
    decreases s,
{
    if s.len() == 0 {
        0
    } else {
        crate::neuron::mix(slots_hash(s.drop_last()), slot_hash(s.last()))
    }
}

/// A deterministic hash of a tree: a function of the neuron index and the
/// slots' structure alone, so structurally equal trees hash equal.
pub open spec fn conn_hash(c: Connection) -> u64
    decreases c,
{
    crate::neuron::mix(c.neuron as u64, slots_hash(c.inputs@))
}

/// Structurally equal trees hash equal.
pub proof fn lemma_conn_eq_hash(a: Connection, b: Connection)
    requires
        a.conn_eq(b),
    ensures
        conn_hash(a) == conn_hash(b),
    decreases a,
{
    lemma_slots_eq_hash(a.inputs@, b.inputs@);
}

/// Pairwise structurally equal slot lists hash equal.
proof fn lemma_slots_eq_hash(a: Seq<ConnectionValue>, b: Seq<ConnectionValue>)
    requires
        a.len() == b.len(),
        forall|i: int| 0 <= i < a.len() ==> cv_eq(#[trigger] a[i], b[i]),
    ensures
        slots_hash(a) == slots_hash(b),
    decreases a,
{
    if a.len() > 0 {
        assert(forall|i: int|
            0 <= i < a.drop_last().len() ==> cv_eq(#[trigger] a.drop_last()[i], b.drop_last()[i]));
        lemma_slots_eq_hash(a.drop_last(), b.drop_last());
        assert(cv_eq(a.last(), b.last()));
        match (a.last(), b.last()) {
            (ConnectionValue::Connection(x), ConnectionValue::Connection(y)) => {
                lemma_conn_eq_hash(*x, *y);
                assert(slot_hash(a.last()) == slot_hash(b.last()));
            },
            (ConnectionValue::Value(x), ConnectionValue::Value(y)) => {
                assert(x@ == y@);
                assert(slot_hash(a.last()) == slot_hash(b.last()));
            },
            _ => {
                assert(false);
            },
        }
    }
}

impl Connection {
    /// Computes a deterministic hash, consistent with structural equality.
    pub fn hash_code(&self) -> (r: u64)
        ensures
            r == conn_hash(*self),
        decreases *self,
    {
        let n = self.inputs.len();
        let mut h: u64 = 0;
        let mut i: usize = 0;
        while i < n
            invariant
                i <= n,
                n == self.inputs@.len(),
                h == slots_hash(self.inputs@.subrange(0, i as int)),
            decreases n - i,
        {
            proof {
                assert(self.inputs@.subrange(0, i + 1).drop_last() =~= self.inputs@.subrange(
                    0,
                    i as int,
                ));
                assert(self.inputs@.subrange(0, i + 1).last() == self.inputs@[i as int]);
            }
            let sh = match &self.inputs[i] {
                ConnectionValue::Value(v) => {
                    proof {
                        assert(self.inputs@[i as int] == ConnectionValue::Value(*v));
                    }
                    crate::neuron::mix_exec(17, v.hash_code())
                },
                ConnectionValue::Connection(sub) => {
                    proof {
                        assert(self.inputs@[i as int] == ConnectionValue::Connection(*sub));
                    }
                    crate::neuron::mix_exec(19, sub.hash_code())
                },
            };
            proof {
                assert(sh == slot_hash(self.inputs@[i as int]));
            }
            h = crate::neuron::mix_exec(h, sh);
            i += 1;
        }
        proof {
            assert(self.inputs@.subrange(0, n as int) =~= self.inputs@);
        }
        crate::neuron::mix_exec(self.neuron as u64, h)
    }
}


/// The text of one slot: its value's text, or its sub-connection's text.
pub open spec fn slot_chars(cv: ConnectionValue, lib: Seq<Neuron>) -> Seq<char>
    decreases cv,
{
    match cv {
        ConnectionValue::Value(v) => crate::neuron::val_chars(v@),
        ConnectionValue::Connection(sub) => conn_chars(*sub, lib),
    }
}

/// The texts of a slot list, joined by commas.
pub open spec fn args_chars(s: Seq<ConnectionValue>, lib: Seq<Neuron>) -> Seq<char>
    decreases s,
{
    if s.len() == 0 {
        Seq::empty()
    } else if s.len() == 1 {
        slot_chars(s[0], lib)
    } else {
        args_chars(s.drop_last(), lib) + seq![',', ' '] + slot_chars(s.last(), lib)
    }
}

/// The text of a tree: the neuron's name alone for a nullary tree, and the
/// name followed by the parenthesised, comma-joined slot texts otherwise.
pub open spec fn conn_chars(c: Connection, lib: Seq<Neuron>) -> Seq<char>
    decreases c,
{
    if c.neuron < lib.len() {
        if c.inputs@.len() == 0 {
            lib[c.neuron as int].name@
        } else {
            lib[c.neuron as int].name@ + seq!['('] + args_chars(c.inputs@, lib) + seq![')']
        }
    } else {
        Seq::empty()
    }
}

impl Connection {
    /// Renders the tree as text.
    pub fn to_string(&self, lib: &Vec<Neuron>) -> (r: String)
        requires
            self.idx_ok(lib@),
        ensures
            r@ == conn_chars(*self, lib@),
        decreases *self,
    {
        let mut s = lib[self.neuron].name();
        let n = self.inputs.len();
        if n == 0 {
            return s;
        }
        proof {
            reveal_strlit("(");
            reveal_strlit(")");
            reveal_strlit(", ");
        }
        s.append("(");
        let ghost name_open = lib@[self.neuron as int].name@ + seq!['('];
        proof {
            assert(s@ =~= name_open);
        }
        let mut i: usize = 0;
        while i < n
            invariant
                i <= n,
                n == self.inputs@.len(),
                self.idx_ok(lib@),
                n > 0,
                name_open == lib@[self.neuron as int].name@ + seq!['('],
                s@ == name_open + args_chars(self.inputs@.subrange(0, i as int), lib@),
            decreases n - i,
        {
            proof {
                assert(self.inputs@.subrange(0, i + 1).drop_last() =~= self.inputs@.subrange(
                    0,
                    i as int,
                ));
                assert(self.inputs@.subrange(0, i + 1).last() == self.inputs@[i as int]);
                assert(self.inputs@.subrange(0, 1)[0] == self.inputs@[0]);
                assert(cv_idx_ok(self.inputs@[i as int], lib@));
            }
            if i > 0 {
                s.append(", ");
            }
            match &self.inputs[i] {
                ConnectionValue::Value(v) => {
                    let vt = v.to_text();
                    s.append(vt.as_str());
                    proof {
                        assert(self.inputs@[i as int] == ConnectionValue::Value(*v));
                    }
                },
                ConnectionValue::Connection(sub) => {
                    let st = sub.to_string(lib);
                    s.append(st.as_str());
                    proof {
                        assert(self.inputs@[i as int] == ConnectionValue::Connection(*sub));
                    }
                },
            }
            proof {
                let ghost sl = slot_chars(self.inputs@[i as int], lib@);
                let ghost prefix = name_open + args_chars(
                    self.inputs@.subrange(0, i as int),
                    lib@,
                );
                if i == 0 {
                    assert(s@ =~= prefix + sl);
                    assert(args_chars(self.inputs@.subrange(0, 1), lib@) == sl);
                    assert(prefix =~= name_open);
                } else {
                    assert(s@ =~= prefix + seq![',', ' '] + sl);
                    assert(args_chars(self.inputs@.subrange(0, i + 1), lib@) == args_chars(
                        self.inputs@.subrange(0, i as int),
                        lib@,
                    ) + seq![',', ' '] + sl);
                }
                assert(s@ =~= name_open + args_chars(self.inputs@.subrange(0, i + 1), lib@));
            }
            i += 1;
        }
        s.append(")");
        proof {
            assert(self.inputs@.subrange(0, n as int) =~= self.inputs@);
            assert(s@ =~= conn_chars(*self, lib@));
        }
        s
    }
}


/// The summed sizes of the sub-connections of a slot list.
pub open spec fn children_cost(s: Seq<ConnectionValue>) -> nat
    decreases s,
{
    if s.len() == 0 {
        0
    } else {
        children_cost(s.drop_last()) + (match s.last() {
            ConnectionValue::Value(_) => 0nat,
            ConnectionValue::Connection(sub) => sub.spec_cost(),
        })
    }
}

/// The size of a tree is at least the summed sizes of its children plus its
/// own slot count.
pub proof fn lemma_cost_decomposition(c: Connection)
    ensures
        c.spec_cost() >= children_cost(c.inputs@) + c.inputs@.len(),
{
    lemma_slots_cost_split(c.inputs@);
}

/// The size contributed by a slot list is its children's sizes plus one per
/// slot.
proof fn lemma_slots_cost_split(s: Seq<ConnectionValue>)
    ensures
        slots_cost(s) == children_cost(s) + s.len(),
    decreases s,
{
    if s.len() > 0 {
        lemma_slots_cost_split(s.drop_last());
    }
}

/// The output of a tree, when defined, carries its root neuron's declared
/// output type and is well formed.
pub proof fn lemma_output_type(c: Connection, lib: Seq<Neuron>)
    ensures
        c.spec_output(lib) matches Some(w) ==> {
            &&& c.neuron < lib.len()
            &&& w.tag() == lib[c.neuron as int].output_type
            &&& w.wf()
        },
{
}

/// An argument vector, when defined, has one entry per slot: the view of a
/// concrete slot value, or the sub-connection's output.
proof fn lemma_slots_outputs_at(s: Seq<ConnectionValue>, lib: Seq<Neuron>, i: int)
    requires
        0 <= i < s.len(),
        slots_outputs(s, lib) is Some,
    ensures
        slots_outputs(s, lib) matches Some(vs) ==> {
            &&& vs.len() == s.len()
            &&& (s[i] matches ConnectionValue::Value(v) ==> vs[i] == v@)
        },
    decreases s,
{
    if s.len() > 0 {
        if i < s.len() - 1 {
            lemma_slots_outputs_at(s.drop_last(), lib, i);
        } else if s.len() >= 2 {
            lemma_slots_outputs_at(s.drop_last(), lib, 0);
        }
    }
}

/// A tree with a remaining placeholder slot — a type-tag value standing for
/// an unbound hole — evaluates to nothing: evaluation of an unbound tree is
/// undefined.
pub proof fn lemma_placeholder_output_none(c: Connection, lib: Seq<Neuron>, i: int)
    requires
        0 <= i < c.inputs@.len(),
        c.inputs@[i] matches ConnectionValue::Value(v) && v@ matches ValView::ValueType(_),
    ensures
        c.spec_output(lib) is None,
{
    if c.neuron < lib.len() {
        match slots_outputs(c.inputs@, lib) {
            Some(vs) => {
                lemma_slots_outputs_at(c.inputs@, lib, i);
                assert(vs[i] matches ValView::ValueType(_));
                assert(!crate::neuron::args_ok(lib[c.neuron as int], vs)) by {
                    if crate::neuron::args_ok(lib[c.neuron as int], vs) {
                        assert(!(vs[i] matches ValView::ValueType(_)));
                    }
                }
            },
            None => {},
        }
    }
}

/// Leaf invariance: a nullary tree evaluates to exactly its neuron applied
/// to the empty argument vector.
pub proof fn lemma_leaf_invariance(c: Connection, lib: Seq<Neuron>)
    requires
        c.inputs@.len() == 0,
        c.neuron < lib.len(),
    ensures
        c.spec_output(lib) == crate::neuron::spec_apply(
            lib[c.neuron as int],
            Seq::<crate::neuron::ValView>::empty(),
        ),
{
    assert(slots_outputs(c.inputs@, lib) == Some(Seq::<crate::neuron::ValView>::empty()));
}


/// The depth contribution of one slot: nothing for a value, one more than
/// the sub-connection's depth.
pub open spec fn cv_depth(cv: ConnectionValue) -> nat
    decreases cv,
{
    match cv {
        ConnectionValue::Value(_) => 0,
        ConnectionValue::Connection(sub) => 1 + sub.spec_depth(),
    }
}

/// The depth of a slot list is the largest slot contribution.
pub proof fn lemma_slots_depth_bound(s: Seq<ConnectionValue>, d: nat)
    requires
        forall|i: int| 0 <= i < s.len() ==> cv_depth(#[trigger] s[i]) <= d,
    ensures
        slots_depth(s) <= d,
    decreases s,
{
    if s.len() > 0 {
        assert(forall|i: int|
            0 <= i < s.drop_last().len() ==> cv_depth(#[trigger] s.drop_last()[i]) <= d);
        lemma_slots_depth_bound(s.drop_last(), d);
        assert(cv_depth(s.last()) <= d);
    }
}

/// Pairwise slot contributions bound the depth of a rewritten list.
proof fn lemma_slots_depth_pointwise(a: Seq<ConnectionValue>, b: Seq<ConnectionValue>)
    requires
        a.len() == b.len(),
        forall|i: int| 0 <= i < a.len() ==> cv_depth(#[trigger] b[i]) <= cv_depth(a[i]) + 1,
    ensures
        slots_depth(b) <= slots_depth(a) + 1,
    decreases a,
{
    if a.len() > 0 {
        assert(forall|i: int|
            0 <= i < a.drop_last().len() ==> cv_depth(#[trigger] b.drop_last()[i]) <= cv_depth(
                a.drop_last()[i],
            ) + 1);
        lemma_slots_depth_pointwise(a.drop_last(), b.drop_last());
        assert(cv_depth(b.last()) <= cv_depth(a.last()) + 1);
    }
}

/// Structurally equal trees have the same depth.
pub proof fn lemma_conn_eq_depth(a: Connection, b: Connection)
    requires
        a.conn_eq(b),
    ensures
        a.spec_depth() == b.spec_depth(),
    decreases a,
{
    lemma_slots_eq_depth(a.inputs@, b.inputs@);
}

/// Pairwise structurally equal slot lists contribute the same depth.
proof fn lemma_slots_eq_depth(a: Seq<ConnectionValue>, b: Seq<ConnectionValue>)
    requires
        a.len() == b.len(),
        forall|i: int| 0 <= i < a.len() ==> cv_eq(#[trigger] a[i], b[i]),
    ensures
        slots_depth(a) == slots_depth(b),
    decreases a,
{
    if a.len() > 0 {
        assert(forall|i: int|
            0 <= i < a.drop_last().len() ==> cv_eq(#[trigger] a.drop_last()[i], b.drop_last()[i]));
        lemma_slots_eq_depth(a.drop_last(), b.drop_last());
        assert(cv_eq(a.last(), b.last()));
        match (a.last(), b.last()) {
            (ConnectionValue::Connection(x), ConnectionValue::Connection(y)) => {
                lemma_conn_eq_depth(*x, *y);
            },
            _ => {},
        }
    }
}

/// Rewriting one slot with shallow inputs deepens it by at most one level.
proof fn lemma_cv_rewritten_depth(
    cv: ConnectionValue,
    local: Seq<ConnectionValue>,
    ncv: ConnectionValue,
    lib: Seq<Neuron>,
)
    requires
        cv_rewritten(cv, local, ncv, lib),
        cv_idx_ok(cv, lib),
        local.len() == cv_arity(cv, lib),
        forall|j: int| 0 <= j < local.len() ==> cv_depth(#[trigger] local[j]) <= 1,
    ensures
        cv_depth(ncv) <= cv_depth(cv) + 1,
    decreases cv,
{
    match cv {
        ConnectionValue::Connection(sub) => {
            if sub.spec_input_types(lib).len() > 0 {
                assert(local.len() == sub.spec_input_types(lib).len());
                assert(sub.idx_ok(lib));
                match ncv {
                    ConnectionValue::Connection(nsub) => {
                        lemma_rewritten_depth(*sub, local, *nsub, lib);
                    },
                    _ => {},
                }
            } else {
                assert(cv_eq(ncv, local[0]));
                lemma_cv_eq_depth_pub(ncv, local[0]);
            }
        },
        ConnectionValue::Value(_) => {
            assert(cv_eq(ncv, local[0]));
            lemma_cv_eq_depth_pub(ncv, local[0]);
        },
    }
}

/// Rewriting with shallow inputs deepens a tree by at most one level: when
/// every input is a value or a sub-connection without slots of its own, the
/// rewritten tree's depth exceeds the old depth by at most one.
#[verifier::rlimit(100)]
#[verifier::spinoff_prover]
pub proof fn lemma_rewritten_depth(
    c: Connection,
    ins: Seq<ConnectionValue>,
    nc: Connection,
    lib: Seq<Neuron>,
)
    requires
        conn_rewritten(c, ins, nc, lib),
        c.idx_ok(lib),
        ins.len() == c.spec_input_types(lib).len(),
        forall|j: int| 0 <= j < ins.len() ==> cv_depth(#[trigger] ins[j]) <= 1,
    ensures
        nc.spec_depth() <= c.spec_depth() + 1,
    decreases c,
{
    assert forall|i: int|
        0 <= i < c.inputs@.len() implies cv_depth(#[trigger] nc.inputs@[i]) <= cv_depth(
        c.inputs@[i],
    ) + 1 by {
        lemma_slot_pos_bound(c.inputs@, lib, i);
        let local = ins.subrange(
            slot_pos(c.inputs@, lib, i),
            slot_pos(c.inputs@, lib, i + 1),
        );
        assert(cv_rewritten(c.inputs@[i], local, nc.inputs@[i], lib));
        assert(cv_idx_ok(c.inputs@[i], lib));
        assert(local.len() == cv_arity(c.inputs@[i], lib));
        assert forall|j: int| 0 <= j < local.len() implies cv_depth(#[trigger] local[j]) <= 1 by {
            assert(local[j] == ins[slot_pos(c.inputs@, lib, i) + j]);
        }
        lemma_cv_rewritten_depth(c.inputs@[i], local, nc.inputs@[i], lib);
    }
    lemma_slots_depth_pointwise(c.inputs@, nc.inputs@);
}

/// Structurally equal slots contribute the same depth.
pub proof fn lemma_cv_eq_depth_pub(a: ConnectionValue, b: ConnectionValue)
    requires
        cv_eq(a, b),
    ensures
        cv_depth(a) == cv_depth(b),
{
    match (a, b) {
        (ConnectionValue::Connection(x), ConnectionValue::Connection(y)) => {
            lemma_conn_eq_depth(*x, *y);
        },
        _ => {},
    }
}

} // verus!
