//! Laws of the engine, stated over the same spec functions that the
//! public contracts use.

use vstd::prelude::*;

use crate::backward::{contrib_from, deriv1, grad_after, op1, op2, reaches};
use crate::{node_value_ok, node_wf, tape_wf, Node, Op};

verus! {

/// Dependency only ever points at earlier nodes: whatever node `j` depends
/// on has an index no larger than `j`.
pub proof fn lemma_reaches_below(nodes: Seq<Node>, j: int, i: int)
    requires
        tape_wf(nodes),
        0 <= j < nodes.len(),
        reaches(nodes, j, i),
    ensures
        0 <= i <= j,
    decreases j,
{
    assert(node_wf(nodes, j));
    if i != j {
        match nodes[j].op {
            Op::Leaf => {},
            Op::Neg(a) => {
                lemma_reaches_below(nodes, a as int, i);
            },
            Op::Pow(a, _) => {
                lemma_reaches_below(nodes, a as int, i);
            },
            Op::Add(a, b) => {
                if reaches(nodes, a as int, i) {
                    lemma_reaches_below(nodes, a as int, i);
                } else {
                    lemma_reaches_below(nodes, b as int, i);
                }
            },
            Op::Mul(a, b) => {
                if reaches(nodes, a as int, i) {
                    lemma_reaches_below(nodes, a as int, i);
                } else {
                    lemma_reaches_below(nodes, b as int, i);
                }
            },
        }
    }
}

/// If no node that the root depends on has an operand edge into `i`, the
/// backward pass contributes nothing to `i`.
pub proof fn lemma_no_contrib(nodes: Seq<Node>, root: int, i: int, j: int)
    requires
        tape_wf(nodes),
        0 <= root < nodes.len(),
        0 <= i < j <= root + 1,
        forall|k: int|
            j <= k <= root && #[trigger] reaches(nodes, root, k) ==> op1(nodes[k].op) != Some(i)
                && op2(nodes[k].op) != Some(i),
    ensures
        contrib_from(nodes, root, i, j) == 0,
    decreases root + 1 - j,
{
    if j <= root {
        lemma_no_contrib(nodes, root, i, j + 1);
    }
}

/// Running the backward pass on a leaf as the root sets the leaf's own
/// gradient to one and touches no other node's gradient.
pub proof fn lemma_backward_on_leaf(nodes: Seq<Node>, root: int)
    requires
        tape_wf(nodes),
        0 <= root < nodes.len(),
        nodes[root].op == Op::Leaf,
    ensures
        grad_after(nodes, root, root) == 1,
        forall|i: int| 0 <= i < root ==> grad_after(nodes, root, i) == nodes[i].grad,
{
    assert forall|i: int| 0 <= i < root implies grad_after(nodes, root, i) == nodes[i].grad by {
        assert forall|k: int|
            i + 1 <= k <= root && #[trigger] reaches(nodes, root, k) implies op1(nodes[k].op)
            != Some(i) && op2(nodes[k].op) != Some(i) by {
            assert(k == root);
        }
        lemma_no_contrib(nodes, root, i, i + 1);
    }
}

/// Along the way to the negate law: the only node the root depends on that
/// pushes into the operand `a` of a negation root is the root itself, and
/// its single contribution is `1 * (-1)`.
proof fn lemma_negate_contrib(nodes: Seq<Node>, root: int, a: usize, j: int)
    requires
        tape_wf(nodes),
        0 <= root < nodes.len(),
        nodes[root].op == Op::Neg(a),
        (a as int) < j <= root,
    ensures
        contrib_from(nodes, root, a as int, j) == -1,
    decreases root + 1 - j,
{
    assert(node_wf(nodes, root));
    assert(reaches(nodes, root, root));
    assert(grad_after(nodes, root, root) == 1);
    assert(deriv1(nodes, root) == -1);
    if j == root {
        assert(contrib_from(nodes, root, a as int, root + 1) == 0);
    } else {
        if reaches(nodes, root, j) {
            assert(reaches(nodes, a as int, j));
            lemma_reaches_below(nodes, a as int, j);
            assert(false);
        }
        lemma_negate_contrib(nodes, root, a, j + 1);
    }
}

/// The negate rule: for any operand `a` with a fresh (zero) gradient,
/// running the backward pass on `negate(a)` leaves `a` with gradient `-1`.
pub proof fn lemma_backward_on_negate(nodes: Seq<Node>, root: int, a: usize)
    requires
        tape_wf(nodes),
        0 <= root < nodes.len(),
        nodes[root].op == Op::Neg(a),
        nodes[a as int].grad == 0,
    ensures
        grad_after(nodes, root, a as int) == -1,
{
    assert(node_wf(nodes, root));
    lemma_negate_contrib(nodes, root, a, a as int + 1);
}

/// Determinism: two tapes holding the same graph (same values, operations
/// and starting gradients, node for node) get identical gradients from a
/// backward pass over the same root.
pub proof fn lemma_backward_deterministic(n1: Seq<Node>, n2: Seq<Node>, root: int)
    requires
        n1.len() == n2.len(),
        forall|i: int|
            #![trigger n1[i], n2[i]]
            0 <= i < n1.len() ==> n1[i].value == n2[i].value && n1[i].op == n2[i].op && n1[i].grad
                == n2[i].grad,
    ensures
        forall|i: int| 0 <= i < n1.len() ==> grad_after(n1, root, i) == grad_after(n2, root, i),
{
    assert(n1 =~= n2);
}

/// The round trip: on a well-formed tape the forward value of every node
/// equals the operation catalog's function applied to its recorded operand
/// values.  Construction establishes well-formedness and the backward pass
/// preserves it, so values never drift.
pub proof fn lemma_values_never_drift(nodes: Seq<Node>, i: int)
    requires
        tape_wf(nodes),
        0 <= i < nodes.len(),
    ensures
        node_value_ok(nodes, i),
{
    assert(node_wf(nodes, i));
}

} // verus!
