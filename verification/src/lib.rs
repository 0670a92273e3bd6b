//! Reverse-mode automatic differentiation over scalars stored on a tape.
//!
//! A computation graph is built bottom-up: leaves first, then combinator
//! nodes whose forward values are evaluated eagerly at construction and
//! never recomputed.  A backward pass over a chosen root node propagates
//! chain-rule contributions to every node the root depends on, in
//! topological order, so that a node shared by several parents has all of
//! its incoming contributions summed before anything is pushed into its
//! own operands.
//!
//! Nodes live in an arena ([`Tape`]) and refer to their operands by index;
//! a combinator only ever points at strictly earlier nodes, which keeps
//! the graph acyclic by construction.

use vstd::prelude::*;

pub mod backward;
pub mod props;

verus! {

/// The closed catalog of differentiable operations.  Operand indices point
/// at strictly earlier nodes on the tape.
#[derive(Clone, Copy, Debug, PartialEq, Eq)]
pub enum Op {
    /// A leaf: the value was supplied directly and has no operands.
    Leaf,
    /// Sum of two operand nodes.
    Add(usize, usize),
    /// Negation of one operand node.
    Neg(usize),
    /// Product of two operand nodes.
    Mul(usize, usize),
    /// `Pow(a, p)` raises node `a` to the fixed exponent `p`.  The exponent
    /// is captured at construction time and is never itself differentiated.
    Pow(usize, u32),
}

/// One vertex of the computation graph.
#[derive(Clone, Copy, Debug)]
pub struct Node {
    /// Forward value, fixed at construction.
    pub value: i64,
    /// Gradient accumulator.  Contributions are always added, never
    /// overwritten, because a node may be shared by several parents.
    pub grad: i64,
    /// The operation that produced this node, with its operand indices.
    pub op: Op,
}

/// The arena that owns every node of a graph.  Nodes are addressed by the
/// [`Var`] handles returned at construction; they are torn down together
/// with the tape, never individually.
pub struct Tape {
    nodes: Vec<Node>,
}

/// A handle to one node of a [`Tape`].
#[derive(Clone, Copy, Debug)]
pub struct Var {
    /// Index of the node on its tape.
    pub id: usize,
}

/// `x` is representable as an `i64`.
pub open spec fn fits_i64(x: int) -> bool {
    i64::MIN <= x <= i64::MAX
}

/// `b` to the power `e`, over the unbounded integers.
pub open spec fn pow_int(b: int, e: nat) -> int
    decreases e,
{
    if e == 0 {
        1
    } else {
        b * pow_int(b, (e - 1) as nat)
    }
}

/// The operand indices of `op` lie strictly below `i`.
pub open spec fn op_in_bounds(op: Op, i: int) -> bool {
    match op {
        Op::Leaf => true,
        Op::Add(a, b) => 0 <= (a as int) < i && 0 <= (b as int) < i,
        Op::Neg(a) => 0 <= (a as int) < i,
        Op::Mul(a, b) => 0 <= (a as int) < i && 0 <= (b as int) < i,
        Op::Pow(a, _) => 0 <= (a as int) < i,
    }
}

/// The stored value of node `i` equals the catalog's forward function
/// applied to its recorded operand values: values never drift after
/// construction.
pub open spec fn node_value_ok(nodes: Seq<Node>, i: int) -> bool {
    match nodes[i].op {
        Op::Leaf => true,
        Op::Add(a, b) => nodes[i].value == nodes[a as int].value + nodes[b as int].value,
        Op::Neg(a) => nodes[i].value == -(nodes[a as int].value as int),
        Op::Mul(a, b) => nodes[i].value == nodes[a as int].value * nodes[b as int].value,
        Op::Pow(a, p) => nodes[i].value == pow_int(nodes[a as int].value as int, p as nat),
    }
}

/// Node `i` is well formed: acyclic operand references and an eagerly
/// evaluated, consistent forward value.
pub open spec fn node_wf(nodes: Seq<Node>, i: int) -> bool {
    op_in_bounds(nodes[i].op, i) && node_value_ok(nodes, i)
}

/// Every node of the tape is well formed.
pub open spec fn tape_wf(nodes: Seq<Node>) -> bool {
    forall|i: int| 0 <= i < nodes.len() ==> #[trigger] node_wf(nodes, i)
}

impl View for Tape {
    type V = Seq<Node>;

    closed spec fn view(&self) -> Seq<Node> {
        self.nodes@
    }
}

/// Appending a well-formed node keeps the whole tape well formed.
proof fn lemma_push_preserves_wf(nodes: Seq<Node>, node: Node)
    requires
        tape_wf(nodes),
        op_in_bounds(node.op, nodes.len() as int),
        node_value_ok(nodes.push(node), nodes.len() as int),
    ensures
        tape_wf(nodes.push(node)),
{
    let nodes2 = nodes.push(node);
    assert forall|i: int| 0 <= i < nodes2.len() implies node_wf(nodes2, i) by {
        if i < nodes.len() {
            assert(node_wf(nodes, i));
            assert(nodes2[i] == nodes[i]);
            match nodes[i].op {
                Op::Leaf => {},
                Op::Add(a, b) => {
                    assert(nodes2[a as int] == nodes[a as int]);
                    assert(nodes2[b as int] == nodes[b as int]);
                },
                Op::Neg(a) => {
                    assert(nodes2[a as int] == nodes[a as int]);
                },
                Op::Mul(a, b) => {
                    assert(nodes2[a as int] == nodes[a as int]);
                    assert(nodes2[b as int] == nodes[b as int]);
                },
                Op::Pow(a, _) => {
                    assert(nodes2[a as int] == nodes[a as int]);
                },
            }
        } else {
            assert(nodes2[i] == node);
        }
    }
}

impl Tape {
    /// The tape's nodes are well formed (operands strictly earlier, forward
    /// values consistent with the operation catalog).
    pub open spec fn wf(self) -> bool {
        tape_wf(self@)
    }

    /// An empty tape.
    pub fn new() -> (t: Tape)
        ensures
            t.wf(),
            t@.len() == 0,
    {
        Tape { nodes: Vec::new() }
    }

    /// Number of nodes on the tape.
    pub fn len(&self) -> (n: usize)
        ensures
            n == self@.len(),
    {
        self.nodes.len()
    }

    /// Resets every gradient on the tape to zero, leaving values and
    /// operations untouched: the state a backward pass expects of the
    /// root's ancestors.
    pub fn zero_grads(&mut self)
        requires
            old(self).wf(),
        ensures
            final(self).wf(),
            final(self)@.len() == old(self)@.len(),
            forall|i: int|
                0 <= i < old(self)@.len() ==> final(self)@[i].value == old(self)@[i].value
                    && #[trigger] final(self)@[i].op == old(self)@[i].op
                    && final(self)@[i].grad == 0,
    {
        let n = self.nodes.len();
        let mut k: usize = 0;
        while k < n
            invariant
                self@.len() == old(self)@.len(),
                n == self@.len(),
                k <= n,
                forall|i: int|
                    #![trigger self@[i]]
                    0 <= i < n ==> self@[i].value == old(self)@[i].value && self@[i].op == old(
                        self,
                    )@[i].op,
                forall|i: int| 0 <= i < k ==> #[trigger] self@[i].grad == 0,
            decreases n - k,
        {
            let mut node = self.nodes[k];
            node.grad = 0;
            self.nodes.set(k, node);
            k = k + 1;
        }
        proof {
            crate::backward::lemma_wf_same_shape(old(self)@, self@);
        }
    }
}

/// A new leaf node holding `value`, with gradient zero and no operands.
pub fn new_var(t: &mut Tape, value: i64) -> (v: Var)
    requires
        old(t).wf(),
        old(t)@.len() < usize::MAX,
    ensures
        final(t).wf(),
        final(t)@ == old(t)@.push((Node { value: value, grad: 0, op: Op::Leaf })),
        v.id == old(t)@.len(),
{
    let node = Node { value: value, grad: 0, op: Op::Leaf };
    proof {
        lemma_push_preserves_wf(t@, node);
    }
    let id = t.nodes.len();
    t.nodes.push(node);
    Var { id }
}

impl Var {
    /// Forward value of this node.
    pub fn value(self, t: &Tape) -> (r: i64)
        requires
            self.id < t@.len(),
        ensures
            r == t@[self.id as int].value,
    {
        t.nodes[self.id].value
    }

    /// The operation that produced this node, with the operand indices that
    /// were recorded at construction.
    pub fn op(self, t: &Tape) -> (r: Op)
        requires
            self.id < t@.len(),
        ensures
            r == t@[self.id as int].op,
    {
        t.nodes[self.id].op
    }

    /// Current gradient of this node.
    pub fn grad(self, t: &Tape) -> (r: i64)
        requires
            self.id < t@.len(),
        ensures
            r == t@[self.id as int].grad,
    {
        t.nodes[self.id].grad
    }

    /// Sum node: eagerly evaluates `self + other` and records both operands.
    pub fn add(self, other: Var, t: &mut Tape) -> (v: Var)
        requires
            old(t).wf(),
            self.id < old(t)@.len(),
            other.id < old(t)@.len(),
            old(t)@.len() < usize::MAX,
            fits_i64(old(t)@[self.id as int].value + old(t)@[other.id as int].value),
        ensures
            final(t).wf(),
            final(t)@ == old(t)@.push((Node {
                value: (old(t)@[self.id as int].value + old(t)@[other.id as int].value) as i64,
                grad: 0,
                op: Op::Add(self.id, other.id),
            })),
            v.id == old(t)@.len(),
    {
        let value = t.nodes[self.id].value + t.nodes[other.id].value;
        let node = Node { value: value, grad: 0, op: Op::Add(self.id, other.id) };
        proof {
            assert(t@.push(node)[self.id as int] == t@[self.id as int]);
            assert(t@.push(node)[other.id as int] == t@[other.id as int]);
            lemma_push_preserves_wf(t@, node);
        }
        let id = t.nodes.len();
        t.nodes.push(node);
        Var { id }
    }

    /// Negation node: eagerly evaluates `-self` and records the operand.
    pub fn neg(self, t: &mut Tape) -> (v: Var)
        requires
            old(t).wf(),
            self.id < old(t)@.len(),
            old(t)@.len() < usize::MAX,
            fits_i64(-(old(t)@[self.id as int].value as int)),
        ensures
            final(t).wf(),
            final(t)@ == old(t)@.push((Node {
                value: (-(old(t)@[self.id as int].value as int)) as i64,
                grad: 0,
                op: Op::Neg(self.id),
            })),
            v.id == old(t)@.len(),
    {
        let value = -t.nodes[self.id].value;
        let node = Node { value: value, grad: 0, op: Op::Neg(self.id) };
        proof {
            assert(t@.push(node)[self.id as int] == t@[self.id as int]);
            lemma_push_preserves_wf(t@, node);
        }
        let id = t.nodes.len();
        t.nodes.push(node);
        Var { id }
    }

    /// Product node: eagerly evaluates `self * other` and records both
    /// operands.
    pub fn mul(self, other: Var, t: &mut Tape) -> (v: Var)
        requires
            old(t).wf(),
            self.id < old(t)@.len(),
            other.id < old(t)@.len(),
            old(t)@.len() < usize::MAX,
            fits_i64(old(t)@[self.id as int].value * old(t)@[other.id as int].value),
        ensures
            final(t).wf(),
            final(t)@ == old(t)@.push((Node {
                value: (old(t)@[self.id as int].value * old(t)@[other.id as int].value) as i64,
                grad: 0,
                op: Op::Mul(self.id, other.id),
            })),
            v.id == old(t)@.len(),
    {
        let value = t.nodes[self.id].value * t.nodes[other.id].value;
        let node = Node { value: value, grad: 0, op: Op::Mul(self.id, other.id) };
        proof {
            assert(t@.push(node)[self.id as int] == t@[self.id as int]);
            assert(t@.push(node)[other.id as int] == t@[other.id as int]);
            lemma_push_preserves_wf(t@, node);
        }
        let id = t.nodes.len();
        t.nodes.push(node);
        Var { id }
    }

    /// Power node: eagerly evaluates `self` to the fixed exponent `p` and
    /// records the operand.  The exponent is plain data, not a node.
    pub fn pow(self, p: u32, t: &mut Tape) -> (v: Var)
        requires
            old(t).wf(),
            self.id < old(t)@.len(),
            old(t)@.len() < usize::MAX,
            forall|e: nat| e <= p as nat ==> fits_i64(
                #[trigger] pow_int(old(t)@[self.id as int].value as int, e),
            ),
        ensures
            final(t).wf(),
            final(t)@ == old(t)@.push((Node {
                value: pow_int(old(t)@[self.id as int].value as int, p as nat) as i64,
                grad: 0,
                op: Op::Pow(self.id, p),
            })),
            v.id == old(t)@.len(),
    {
        let base = t.nodes[self.id].value;
        let acc = pow_i64(base, p);
        let node = Node { value: acc, grad: 0, op: Op::Pow(self.id, p) };
        proof {
            assert(t@.push(node)[self.id as int] == t@[self.id as int]);
            lemma_push_preserves_wf(t@, node);
        }
        let id = t.nodes.len();
        t.nodes.push(node);
        Var { id }
    }
}

/// `base` to the power `e`, by repeated multiplication.
pub(crate) fn pow_i64(base: i64, e: u32) -> (r: i64)
    requires
        forall|e2: nat| e2 <= e as nat ==> fits_i64(#[trigger] pow_int(base as int, e2)),
    ensures
        r == pow_int(base as int, e as nat),
{
    let mut acc: i64 = 1;
    let mut k: u32 = 0;
    while k < e
        invariant
            k <= e,
            acc == pow_int(base as int, k as nat),
            forall|e2: nat| e2 <= e as nat ==> fits_i64(#[trigger] pow_int(base as int, e2)),
        decreases e - k,
    {
        proof {
            lemma_i64_product_fits_i128(acc as int, base as int);
        }
        let wide: i128 = (acc as i128) * (base as i128);
        proof {
            assert(pow_int(base as int, (k + 1) as nat) == (base as int) * pow_int(
                base as int,
                k as nat,
            ));
            assert(fits_i64(pow_int(base as int, (k + 1) as nat)));
        }
        acc = wide as i64;
        k = k + 1;
    }
    acc
}

/// `base` to the power `e`, with an explicit representability check:
/// `None` exactly when some partial power escapes `i64`.
pub(crate) fn pow_i64_checked(base: i64, e: u32) -> (r: Option<i64>)
    ensures
        match r {
            Some(v) => v == pow_int(base as int, e as nat) && (forall|e2: nat|
                e2 <= e as nat ==> fits_i64(#[trigger] pow_int(base as int, e2))),
            None => exists|e2: nat|
                e2 <= e as nat && !fits_i64(#[trigger] pow_int(base as int, e2)),
        },
{
    let mut acc: i64 = 1;
    let mut k: u32 = 0;
    while k < e
        invariant
            k <= e,
            acc == pow_int(base as int, k as nat),
            forall|e2: nat| e2 <= k as nat ==> fits_i64(#[trigger] pow_int(base as int, e2)),
        decreases e - k,
    {
        proof {
            lemma_i64_product_fits_i128(acc as int, base as int);
        }
        let wide: i128 = (acc as i128) * (base as i128);
        proof {
            assert(pow_int(base as int, (k + 1) as nat) == (base as int) * pow_int(
                base as int,
                k as nat,
            ));
        }
        if wide < i64::MIN as i128 || wide > i64::MAX as i128 {
            proof {
                assert(!fits_i64(pow_int(base as int, (k + 1) as nat)));
            }
            return None;
        }
        acc = wide as i64;
        k = k + 1;
    }
    Some(acc)
}

/// The product of two `i64`-sized integers is at most `2^126` in
/// magnitude, so adding one more `i64` still stays inside `i128`.
pub(crate) proof fn lemma_i64_product_fits_i128(a: int, b: int)
    requires
        i64::MIN <= a <= i64::MAX,
        i64::MIN <= b <= i64::MAX,
    ensures
        -(0x4000_0000_0000_0000_0000_0000_0000_0000) <= a * b <= 0x4000_0000_0000_0000_0000_0000_0000_0000,
{
    assert(-(0x4000_0000_0000_0000_0000_0000_0000_0000) <= a * b
        <= 0x4000_0000_0000_0000_0000_0000_0000_0000) by (nonlinear_arith)
        requires
            -(0x8000_0000_0000_0000) <= a <= 0x7fff_ffff_ffff_ffff,
            -(0x8000_0000_0000_0000) <= b <= 0x7fff_ffff_ffff_ffff,
    ;
}

} // verus!
