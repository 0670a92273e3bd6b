//! The backward pass: reverse accumulation of chain-rule contributions.
//!
//! Given a root node, the pass seeds the root's gradient with one and then
//! walks the tape from the root downward.  Because every node's operands
//! have strictly smaller indices, descending index order is a topological
//! order of the graph: a node is only propagated from once every parent
//! has already pushed its contribution into it.  Only nodes the root
//! actually depends on take part; the gradients of all other nodes are
//! left untouched.

use vstd::prelude::*;

use crate::{fits_i64, node_wf, pow_int, tape_wf, Node, Op, Tape, Var};
use crate::{lemma_i64_product_fits_i128, pow_i64, pow_i64_checked};

verus! {

/// First operand of `op`, if any.
pub open spec fn op1(op: Op) -> Option<int> {
    match op {
        Op::Leaf => None,
        Op::Add(a, _) => Some(a as int),
        Op::Neg(a) => Some(a as int),
        Op::Mul(a, _) => Some(a as int),
        Op::Pow(a, _) => Some(a as int),
    }
}

/// Second operand of `op`, if any.
pub open spec fn op2(op: Op) -> Option<int> {
    match op {
        Op::Leaf => None,
        Op::Add(_, b) => Some(b as int),
        Op::Neg(_) => None,
        Op::Mul(_, b) => Some(b as int),
        Op::Pow(_, _) => None,
    }
}

/// Local derivative of node `k`'s operation with respect to its first
/// operand, evaluated at the recorded operand values.
pub open spec fn deriv1(nodes: Seq<Node>, k: int) -> int {
    match nodes[k].op {
        Op::Leaf => 0,
        Op::Add(_, _) => 1,
        Op::Neg(_) => -1,
        Op::Mul(_, b) => nodes[b as int].value as int,
        Op::Pow(a, p) => if p == 0 {
            0
        } else {
            (p as int) * pow_int(nodes[a as int].value as int, (p - 1) as nat)
        },
    }
}

/// Local derivative of node `k`'s operation with respect to its second
/// operand, evaluated at the recorded operand values.
pub open spec fn deriv2(nodes: Seq<Node>, k: int) -> int {
    match nodes[k].op {
        Op::Leaf => 0,
        Op::Add(_, _) => 1,
        Op::Neg(_) => 0,
        Op::Mul(a, _) => nodes[a as int].value as int,
        Op::Pow(_, _) => 0,
    }
}

/// Node `j` depends on node `i`: `i` is `j` itself or an ancestor of `j`
/// through operand edges.
pub open spec fn reaches(nodes: Seq<Node>, j: int, i: int) -> bool
    decreases j,
        when 0 <= j < nodes.len() && tape_wf(nodes)
        via reaches_decreases
{
    i == j || match nodes[j].op {
        Op::Leaf => false,
        Op::Neg(a) => reaches(nodes, a as int, i),
        Op::Pow(a, _) => reaches(nodes, a as int, i),
        Op::Add(a, b) => reaches(nodes, a as int, i) || reaches(nodes, b as int, i),
        Op::Mul(a, b) => reaches(nodes, a as int, i) || reaches(nodes, b as int, i),
    }
}

#[via_fn]
proof fn reaches_decreases(nodes: Seq<Node>, j: int, i: int) {
    assert(node_wf(nodes, j));
}

/// Gradient of node `i` once the backward pass over `root` has finished,
/// starting from the gradients recorded in `nodes`.
///
/// The root is seeded with one.  Every other node keeps its prior gradient
/// plus one chain-rule contribution, `grad_after(parent) * local derivative`,
/// for each operand edge pointing at it from a node that the root depends
/// on.  A parent's own gradient is complete before it contributes: its
/// contributions are expressed through `grad_after` again.
pub open spec fn grad_after(nodes: Seq<Node>, root: int, i: int) -> int
    decreases root - i, 1int, 0int,
        when 0 <= i <= root < nodes.len() && tape_wf(nodes)
{
    if i == root {
        1
    } else {
        nodes[i].grad + contrib_from(nodes, root, i, i + 1)
    }
}

/// Sum of the chain-rule contributions pushed into node `i` by the nodes
/// `j`, `j + 1`, ..., `root`, counting one term for each operand edge of a
/// node that the root depends on.
pub open spec fn contrib_from(nodes: Seq<Node>, root: int, i: int, j: int) -> int
    decreases root - i, 0int, root + 1 - j,
        when 0 <= i < j <= root + 1 && root < nodes.len() && tape_wf(nodes)
{
    if j > root {
        0
    } else {
        (if reaches(nodes, root, j) {
            (if op1(nodes[j].op) == Some(i) {
                grad_after(nodes, root, j) * deriv1(nodes, j)
            } else {
                0
            }) + (if op2(nodes[j].op) == Some(i) {
                grad_after(nodes, root, j) * deriv2(nodes, j)
            } else {
                0
            })
        } else {
            0
        }) + contrib_from(nodes, root, i, j + 1)
    }
}

/// Gradient of node `i` at the intermediate point of the pass where the
/// nodes `j`, ..., `root` have already propagated and the rest have not.
pub open spec fn partial_at(nodes: Seq<Node>, root: int, i: int, j: int) -> int {
    if i == root {
        1
    } else {
        nodes[i].grad + contrib_from(nodes, root, i, if j < i + 1 { i + 1 } else { j })
    }
}

/// For a power node the pass must evaluate `p * value^(p - 1)`: every
/// partial power and the whole local derivative must be representable.
pub open spec fn pow_deriv_fits(nodes: Seq<Node>, k: int) -> bool {
    match nodes[k].op {
        Op::Pow(a, p) => p == 0 || ((forall|e: nat| e <= (p - 1) as nat ==> fits_i64(
            #[trigger] pow_int(nodes[a as int].value as int, e),
        )) && fits_i64((p as int) * pow_int(nodes[a as int].value as int, (p - 1) as nat))),
        _ => true,
    }
}

/// When both operand edges of node `k` point at the same node `a` (as in
/// `add(y, y)`), the pass stores the gradient of `a` between the two
/// accumulations: that intermediate value must be representable too.
pub open spec fn mid_update_fits(nodes: Seq<Node>, root: int, k: int) -> bool {
    match nodes[k].op {
        Op::Add(a, b) => a != b || fits_i64(
            partial_at(nodes, root, a as int, k + 1) + grad_after(nodes, root, k) * deriv1(
                nodes,
                k,
            ),
        ),
        Op::Mul(a, b) => a != b || fits_i64(
            partial_at(nodes, root, a as int, k + 1) + grad_after(nodes, root, k) * deriv1(
                nodes,
                k,
            ),
        ),
        _ => true,
    }
}

/// Every gradient the backward pass over `root` stores along the way fits
/// in an `i64`.  This is purely a machine limit: the pass computes the
/// exact integers described by [`grad_after`].
pub open spec fn pass_fits(nodes: Seq<Node>, root: int) -> bool {
    &&& forall|i: int, j: int|
        0 <= i <= root && i < j <= root + 1 ==> fits_i64(#[trigger] partial_at(nodes, root, i, j))
    &&& forall|k: int|
        0 <= k <= root && #[trigger] reaches(nodes, root, k) ==> pow_deriv_fits(nodes, k)
            && mid_update_fits(nodes, root, k)
}

/// The marked set is closed under dependency: everything a marked node
/// depends on is marked as well.
spec fn marks_closed(nodes: Seq<Node>, m: Seq<bool>) -> bool {
    forall|j: int, i: int|
        #![trigger m[j], reaches(nodes, j, i)]
        0 <= j < nodes.len() && 0 <= i < nodes.len() && m[j] && reaches(nodes, j, i) ==> m[i]
}

/// Depth-first marking of everything node `j` depends on, `j` included.
/// Operands are marked before the node itself, so the marked set stays
/// closed under dependency at every recursive return.
fn mark_reach(nodes: &Vec<Node>, m: &mut Vec<bool>, j: usize)
    requires
        tape_wf(nodes@),
        j < nodes@.len(),
        old(m)@.len() == nodes@.len(),
        marks_closed(nodes@, old(m)@),
    ensures
        final(m)@.len() == nodes@.len(),
        marks_closed(nodes@, final(m)@),
        forall|i: int|
            0 <= i < nodes@.len() ==> final(m)@[i] == (old(m)@[i] || reaches(
                nodes@,
                j as int,
                i,
            )),
    decreases j,
{
    proof {
        assert(node_wf(nodes@, j as int));
    }
    if m[j] {
        proof {
            assert forall|i: int|
                0 <= i < nodes@.len() implies m@[i] == (old(m)@[i] || reaches(
                nodes@,
                j as int,
                i,
            )) by {
                if reaches(nodes@, j as int, i) {
                    assert(m@[j as int] && reaches(nodes@, j as int, i));
                }
            }
        }
        return ;
    }
    match nodes[j].op {
        Op::Leaf => {},
        Op::Neg(a) => {
            mark_reach(nodes, m, a);
        },
        Op::Pow(a, _) => {
            mark_reach(nodes, m, a);
        },
        Op::Add(a, b) => {
            mark_reach(nodes, m, a);
            mark_reach(nodes, m, b);
        },
        Op::Mul(a, b) => {
            mark_reach(nodes, m, a);
            mark_reach(nodes, m, b);
        },
    }
    let ghost pre = m@;
    m.set(j, true);
    proof {
        assert forall|j2: int, i: int|
            #![trigger m@[j2], reaches(nodes@, j2, i)]
            0 <= j2 < nodes@.len() && 0 <= i < nodes@.len() && m@[j2] && reaches(
            nodes@,
            j2,
            i,
        ) implies m@[i] by {
            if j2 == j as int {
                if i != j2 {
                    match nodes@[j as int].op {
                        Op::Leaf => {},
                        Op::Neg(a) => {
                            assert(pre[a as int] && reaches(nodes@, a as int, i));
                        },
                        Op::Pow(a, _) => {
                            assert(pre[a as int] && reaches(nodes@, a as int, i));
                        },
                        Op::Add(a, b) => {
                            if reaches(nodes@, a as int, i) {
                                assert(pre[a as int] && reaches(nodes@, a as int, i));
                            } else {
                                assert(pre[b as int] && reaches(nodes@, b as int, i));
                            }
                        },
                        Op::Mul(a, b) => {
                            if reaches(nodes@, a as int, i) {
                                assert(pre[a as int] && reaches(nodes@, a as int, i));
                            } else {
                                assert(pre[b as int] && reaches(nodes@, b as int, i));
                            }
                        },
                    }
                }
            } else {
                assert(pre[j2] && reaches(nodes@, j2, i));
            }
        }
    }
}

/// Peeling one propagating node off a partial state: the gradients at the
/// point "`j`, ..., `root` have propagated" differ from the point
/// "`j + 1`, ..., `root` have propagated" by exactly the operand edges of
/// node `j`, and only when the root depends on `j`.
proof fn lemma_partial_step(nodes: Seq<Node>, root: int, i: int, j: int)
    requires
        tape_wf(nodes),
        0 <= root < nodes.len(),
        0 <= i <= root,
        0 <= j <= root,
    ensures
        partial_at(nodes, root, i, j) == partial_at(nodes, root, i, j + 1) + (if i < j && reaches(
            nodes,
            root,
            j,
        ) {
            (if op1(nodes[j].op) == Some(i) {
                grad_after(nodes, root, j) * deriv1(nodes, j)
            } else {
                0
            }) + (if op2(nodes[j].op) == Some(i) {
                grad_after(nodes, root, j) * deriv2(nodes, j)
            } else {
                0
            })
        } else {
            0
        }),
{
    if i < j {
        assert(contrib_from(nodes, root, i, j) == (if reaches(nodes, root, j) {
            (if op1(nodes[j].op) == Some(i) {
                grad_after(nodes, root, j) * deriv1(nodes, j)
            } else {
                0
            }) + (if op2(nodes[j].op) == Some(i) {
                grad_after(nodes, root, j) * deriv2(nodes, j)
            } else {
                0
            })
        } else {
            0
        }) + contrib_from(nodes, root, i, j + 1));
    }
}

/// Well-formedness only reads values and operations, never gradients.
pub(crate) proof fn lemma_wf_same_shape(n1: Seq<Node>, n2: Seq<Node>)
    requires
        tape_wf(n1),
        n2.len() == n1.len(),
        forall|i: int|
            #![trigger n2[i]]
            0 <= i < n1.len() ==> n2[i].value == n1[i].value && n2[i].op == n1[i].op,
    ensures
        tape_wf(n2),
{
    assert forall|i: int| 0 <= i < n2.len() implies node_wf(n2, i) by {
        assert(node_wf(n1, i));
        assert(n2[i].op == n1[i].op);
        match n1[i].op {
            Op::Leaf => {},
            Op::Add(a, b) => {
                assert(n2[a as int].value == n1[a as int].value);
                assert(n2[b as int].value == n1[b as int].value);
            },
            Op::Neg(a) => {
                assert(n2[a as int].value == n1[a as int].value);
            },
            Op::Mul(a, b) => {
                assert(n2[a as int].value == n1[a as int].value);
                assert(n2[b as int].value == n1[b as int].value);
            },
            Op::Pow(a, _) => {
                assert(n2[a as int].value == n1[a as int].value);
            },
        }
    }
}

/// Adds the chain-rule contribution `g * l` into the gradient of node `a`.
fn accumulate(nodes: &mut Vec<Node>, a: usize, g: i64, l: i64)
    requires
        a < old(nodes)@.len(),
        fits_i64(old(nodes)@[a as int].grad + g * l),
    ensures
        final(nodes)@ == old(nodes)@.update(a as int, (Node {
            value: old(nodes)@[a as int].value,
            grad: (old(nodes)@[a as int].grad + g * l) as i64,
            op: old(nodes)@[a as int].op,
        })),
{
    proof {
        lemma_i64_product_fits_i128(g as int, l as int);
    }
    let cur = nodes[a];
    let wide: i128 = (cur.grad as i128) + (g as i128) * (l as i128);
    let mut nn = cur;
    nn.grad = wide as i64;
    nodes.set(a, nn);
}

/// `cur + g * l` when it is representable, `None` when it is not.
fn checked_accum(cur: i64, g: i64, l: i64) -> (r: Option<i64>)
    ensures
        match r {
            Some(v) => v as int == cur + g * l && fits_i64(cur + g * l),
            None => !fits_i64(cur + g * l),
        },
{
    proof {
        lemma_i64_product_fits_i128(g as int, l as int);
    }
    let wide: i128 = (cur as i128) + (g as i128) * (l as i128);
    if wide < i64::MIN as i128 || wide > i64::MAX as i128 {
        None
    } else {
        Some(wide as i64)
    }
}

/// Dry run of the backward pass over scratch gradients, deciding whether
/// every value the pass would store is representable: the result is
/// exactly [`pass_fits`].
fn check_pass(nodes: &Vec<Node>, m: &Vec<bool>, root: usize) -> (ok: bool)
    requires
        tape_wf(nodes@),
        root < nodes@.len(),
        m@.len() == nodes@.len(),
        forall|i: int|
            0 <= i < nodes@.len() ==> #[trigger] m@[i] == reaches(nodes@, root as int, i),
    ensures
        ok == pass_fits(nodes@, root as int),
{
    let ghost nodes0 = nodes@;
    let ghost rooti = root as int;
    let n = nodes.len();
    let mut sg: Vec<i64> = Vec::new();
    let mut c: usize = 0;
    while c < n
        invariant
            nodes0 == nodes@,
            sg@.len() == c,
            c <= n,
            n == nodes0.len(),
            forall|i: int| 0 <= i < c ==> #[trigger] sg@[i] == nodes0[i].grad,
        decreases n - c,
    {
        sg.push(nodes[c].grad);
        c = c + 1;
    }
    sg.set(root, 1);
    proof {
        assert forall|i: int| 0 <= i <= rooti implies sg@[i] as int == partial_at(
            nodes0,
            rooti,
            i,
            rooti + 1,
        ) by {
            if i != rooti {
                assert(contrib_from(nodes0, rooti, i, rooti + 1) == 0);
            }
        }
    }
    let mut j: usize = root + 1;
    while j > 0
        invariant
            nodes0 == nodes@,
            n == nodes0.len(),
            rooti == root as int,
            root < n,
            j <= root + 1,
            tape_wf(nodes0),
            m@.len() == nodes0.len(),
            forall|i: int|
                0 <= i < nodes0.len() ==> #[trigger] m@[i] == reaches(nodes0, rooti, i),
            sg@.len() == n,
            forall|i: int|
                0 <= i <= rooti ==> sg@[i] as int == #[trigger] partial_at(
                    nodes0,
                    rooti,
                    i,
                    j as int,
                ),
            forall|i2: int, j2: int|
                0 <= i2 <= rooti && i2 < j2 <= rooti + 1 && j as int <= j2 ==> fits_i64(
                    #[trigger] partial_at(nodes0, rooti, i2, j2),
                ),
            forall|k: int|
                j as int <= k <= rooti && #[trigger] reaches(nodes0, rooti, k)
                    ==> pow_deriv_fits(nodes0, k) && mid_update_fits(nodes0, rooti, k),
        decreases j,
    {
        j = j - 1;
        let ghost jj = j as int;
        let ghost pre = sg@;
        if m[j] {
            let g = sg[j];
            proof {
                assert(partial_at(nodes0, rooti, jj, jj + 1) == grad_after(nodes0, rooti, jj));
                assert(g as int == grad_after(nodes0, rooti, jj));
                assert(node_wf(nodes0, jj));
            }
            match nodes[j].op {
                Op::Leaf => {
                    proof {
                        assert forall|i: int| 0 <= i <= rooti implies sg@[i] as int == partial_at(
                            nodes0,
                            rooti,
                            i,
                            jj,
                        ) by {
                            lemma_partial_step(nodes0, rooti, i, jj);
                        }
                    }
                },
                Op::Neg(a) => {
                    proof {
                        assert(deriv1(nodes0, jj) == -1);
                        lemma_partial_step(nodes0, rooti, a as int, jj);
                        assert(pre[a as int] + g * (-1) == partial_at(nodes0, rooti, a as int, jj));
                    }
                    match checked_accum(sg[a], g, -1i64) {
                        Some(v) => {
                            sg.set(a, v);
                            proof {
                                assert forall|i: int| 0 <= i <= rooti implies sg@[i] as int
                                    == partial_at(nodes0, rooti, i, jj) by {
                                    lemma_partial_step(nodes0, rooti, i, jj);
                                    if i != a as int {
                                        assert(sg@[i] == pre[i]);
                                    }
                                }
                            }
                        },
                        None => {
                            proof {
                                assert(!fits_i64(partial_at(nodes0, rooti, a as int, jj)));
                                assert(!pass_fits(nodes0, rooti));
                            }
                            return false;
                        },
                    }
                },
                Op::Pow(a, p) => {
                    let base = nodes[a].value;
                    let l_opt: Option<i64> = if p == 0 {
                        Some(0i64)
                    } else {
                        match pow_i64_checked(base, p - 1) {
                            Some(pm) => {
                                proof {
                                    lemma_i64_product_fits_i128(p as int, pm as int);
                                }
                                let wide: i128 = (p as i128) * (pm as i128);
                                if wide < i64::MIN as i128 || wide > i64::MAX as i128 {
                                    proof {
                                        assert(!fits_i64(
                                            (p as int) * pow_int(base as int, (p - 1) as nat),
                                        ));
                                        assert(!pow_deriv_fits(nodes0, jj));
                                        assert(!pass_fits(nodes0, rooti));
                                    }
                                    return false;
                                }
                                Some(wide as i64)
                            },
                            None => {
                                proof {
                                    assert(!pow_deriv_fits(nodes0, jj));
                                    assert(!pass_fits(nodes0, rooti));
                                }
                                None
                            },
                        }
                    };
                    match l_opt {
                        None => {
                            return false;
                        },
                        Some(l) => {
                            proof {
                                assert(l as int == deriv1(nodes0, jj));
                                assert(pow_deriv_fits(nodes0, jj));
                                lemma_partial_step(nodes0, rooti, a as int, jj);
                                assert(pre[a as int] + g * l == partial_at(
                                    nodes0,
                                    rooti,
                                    a as int,
                                    jj,
                                ));
                            }
                            match checked_accum(sg[a], g, l) {
                                Some(v) => {
                                    sg.set(a, v);
                                    proof {
                                        assert forall|i: int| 0 <= i <= rooti implies sg@[i] as int
                                            == partial_at(nodes0, rooti, i, jj) by {
                                            lemma_partial_step(nodes0, rooti, i, jj);
                                            if i != a as int {
                                                assert(sg@[i] == pre[i]);
                                            }
                                        }
                                    }
                                },
                                None => {
                                    proof {
                                        assert(!fits_i64(partial_at(nodes0, rooti, a as int, jj)));
                                        assert(!pass_fits(nodes0, rooti));
                                    }
                                    return false;
                                },
                            }
                        },
                    }
                },
                Op::Add(a, b) => {
                    proof {
                        assert(deriv1(nodes0, jj) == 1 && deriv2(nodes0, jj) == 1);
                        lemma_partial_step(nodes0, rooti, a as int, jj);
                        lemma_partial_step(nodes0, rooti, b as int, jj);
                    }
                    match checked_accum(sg[a], g, 1i64) {
                        Some(v) => {
                            sg.set(a, v);
                        },
                        None => {
                            proof {
                                if a == b {
                                    assert(!mid_update_fits(nodes0, rooti, jj));
                                } else {
                                    assert(pre[a as int] + g * 1 == partial_at(
                                        nodes0,
                                        rooti,
                                        a as int,
                                        jj,
                                    ));
                                    assert(!fits_i64(partial_at(nodes0, rooti, a as int, jj)));
                                }
                                assert(!pass_fits(nodes0, rooti));
                            }
                            return false;
                        },
                    }
                    let ghost mid = sg@;
                    match checked_accum(sg[b], g, 1i64) {
                        Some(v) => {
                            sg.set(b, v);
                            proof {
                                assert forall|i: int| 0 <= i <= rooti implies sg@[i] as int
                                    == partial_at(nodes0, rooti, i, jj) by {
                                    lemma_partial_step(nodes0, rooti, i, jj);
                                    if i != a as int && i != b as int {
                                        assert(sg@[i] == pre[i]);
                                    }
                                }
                            }
                        },
                        None => {
                            proof {
                                assert(mid[b as int] + g * 1 == partial_at(
                                    nodes0,
                                    rooti,
                                    b as int,
                                    jj,
                                ));
                                assert(!fits_i64(partial_at(nodes0, rooti, b as int, jj)));
                                assert(!pass_fits(nodes0, rooti));
                            }
                            return false;
                        },
                    }
                },
                Op::Mul(a, b) => {
                    let la = nodes[b].value;
                    let lb = nodes[a].value;
                    proof {
                        assert(la as int == deriv1(nodes0, jj));
                        assert(lb as int == deriv2(nodes0, jj));
                        lemma_partial_step(nodes0, rooti, a as int, jj);
                        lemma_partial_step(nodes0, rooti, b as int, jj);
                    }
                    match checked_accum(sg[a], g, la) {
                        Some(v) => {
                            sg.set(a, v);
                        },
                        None => {
                            proof {
                                if a == b {
                                    assert(!mid_update_fits(nodes0, rooti, jj));
                                } else {
                                    assert(pre[a as int] + g * la == partial_at(
                                        nodes0,
                                        rooti,
                                        a as int,
                                        jj,
                                    ));
                                    assert(!fits_i64(partial_at(nodes0, rooti, a as int, jj)));
                                }
                                assert(!pass_fits(nodes0, rooti));
                            }
                            return false;
                        },
                    }
                    let ghost mid = sg@;
                    match checked_accum(sg[b], g, lb) {
                        Some(v) => {
                            sg.set(b, v);
                            proof {
                                assert forall|i: int| 0 <= i <= rooti implies sg@[i] as int
                                    == partial_at(nodes0, rooti, i, jj) by {
                                    lemma_partial_step(nodes0, rooti, i, jj);
                                    if i != a as int && i != b as int {
                                        assert(sg@[i] == pre[i]);
                                    }
                                }
                            }
                        },
                        None => {
                            proof {
                                assert(mid[b as int] + g * lb == partial_at(
                                    nodes0,
                                    rooti,
                                    b as int,
                                    jj,
                                ));
                                assert(!fits_i64(partial_at(nodes0, rooti, b as int, jj)));
                                assert(!pass_fits(nodes0, rooti));
                            }
                            return false;
                        },
                    }
                },
            }
            proof {
                assert forall|i2: int, j2: int|
                    0 <= i2 <= rooti && i2 < j2 <= rooti + 1 && jj <= j2 implies fits_i64(
                    #[trigger] partial_at(nodes0, rooti, i2, j2),
                ) by {
                    if j2 == jj {
                        assert(sg@[i2] as int == partial_at(nodes0, rooti, i2, j2));
                    }
                }
                assert forall|k: int|
                    jj <= k <= rooti && #[trigger] reaches(nodes0, rooti, k) implies pow_deriv_fits(
                    nodes0,
                    k,
                ) && mid_update_fits(nodes0, rooti, k) by {
                    if k == jj {
                        match nodes0[jj].op {
                            Op::Leaf => {},
                            Op::Neg(_) => {},
                            Op::Pow(_, _) => {},
                            Op::Add(a, b) => {
                                if a == b {
                                    assert(pre[a as int] + grad_after(nodes0, rooti, jj) * deriv1(
                                        nodes0,
                                        jj,
                                    ) == partial_at(nodes0, rooti, a as int, jj + 1) + grad_after(
                                        nodes0,
                                        rooti,
                                        jj,
                                    ) * deriv1(nodes0, jj));
                                }
                            },
                            Op::Mul(a, b) => {
                                if a == b {
                                    assert(pre[a as int] + grad_after(nodes0, rooti, jj) * deriv1(
                                        nodes0,
                                        jj,
                                    ) == partial_at(nodes0, rooti, a as int, jj + 1) + grad_after(
                                        nodes0,
                                        rooti,
                                        jj,
                                    ) * deriv1(nodes0, jj));
                                }
                            },
                        }
                    }
                }
            }
        } else {
            proof {
                assert forall|i: int| 0 <= i <= rooti implies sg@[i] as int == partial_at(
                    nodes0,
                    rooti,
                    i,
                    jj,
                ) by {
                    lemma_partial_step(nodes0, rooti, i, jj);
                }
                assert forall|i2: int, j2: int|
                    0 <= i2 <= rooti && i2 < j2 <= rooti + 1 && jj <= j2 implies fits_i64(
                    #[trigger] partial_at(nodes0, rooti, i2, j2),
                ) by {
                    if j2 == jj {
                        assert(sg@[i2] as int == partial_at(nodes0, rooti, i2, j2));
                    }
                }
            }
        }
    }
    proof {
        assert(pass_fits(nodes0, rooti));
    }
    true
}

impl Var {
    /// The backward pass over this node as the root.
    ///
    /// The root's gradient is seeded with one; every node the root depends
    /// on then receives, exactly once per operand edge, the contribution
    /// `parent gradient * local derivative`, added on top of whatever
    /// gradient it held before the call.  Nodes the root does not depend on
    /// are left untouched, and no value or operation changes.  Nodes are
    /// propagated from in descending index order, a topological order of
    /// the graph, so a shared node is complete before it pushes into its
    /// own operands; [`grad_after`] is exactly that protocol.
    ///
    /// For gradients to be meaningful derivatives, the caller resets the
    /// gradients of the root's ancestors to zero beforehand, as on a
    /// freshly built tape.
    pub fn backward(self, t: &mut Tape)
        requires
            old(t).wf(),
            self.id < old(t)@.len(),
            pass_fits(old(t)@, self.id as int),
        ensures
            final(t).wf(),
            final(t)@.len() == old(t)@.len(),
            forall|i: int|
                0 <= i < old(t)@.len() ==> final(t)@[i].value == old(t)@[i].value
                    && #[trigger] final(t)@[i].op == old(t)@[i].op,
            forall|i: int|
                0 <= i <= self.id ==> final(t)@[i].grad as int == grad_after(
                    old(t)@,
                    self.id as int,
                    i,
                ),
            forall|i: int|
                self.id < i < old(t)@.len() ==> final(t)@[i].grad == old(t)@[i].grad,
    {
        let root = self.id;
        let ghost nodes0 = t@;
        let ghost rooti = root as int;
        let n = t.nodes.len();

        // Mark everything the root depends on.
        let mut m: Vec<bool> = Vec::new();
        let mut c: usize = 0;
        while c < n
            invariant
                m@.len() == c,
                c <= n,
                forall|i: int| 0 <= i < c ==> !(#[trigger] m@[i]),
            decreases n - c,
        {
            m.push(false);
            c = c + 1;
        }
        mark_reach(&t.nodes, &mut m, root);

        // Seed the root.
        let mut seeded = t.nodes[root];
        seeded.grad = 1;
        t.nodes.set(root, seeded);

        proof {
            assert forall|i: int| 0 <= i <= rooti implies t@[i].grad as int == partial_at(
                nodes0,
                rooti,
                i,
                rooti + 1,
            ) by {
                if i != rooti {
                    assert(contrib_from(nodes0, rooti, i, rooti + 1) == 0);
                }
            }
        }

        // Propagate in descending index order: a topological order.
        let mut j: usize = root + 1;
        while j > 0
            invariant
                t@.len() == nodes0.len(),
                0 <= rooti < nodes0.len(),
                rooti == root as int,
                root < n,
                n == nodes0.len(),
                j <= root + 1,
                tape_wf(nodes0),
                pass_fits(nodes0, rooti),
                m@.len() == nodes0.len(),
                forall|i: int|
                    0 <= i < nodes0.len() ==> #[trigger] m@[i] == reaches(nodes0, rooti, i),
                forall|i: int|
                    #![trigger t@[i]]
                    0 <= i < nodes0.len() ==> t@[i].value == nodes0[i].value && t@[i].op
                        == nodes0[i].op,
                forall|i: int|
                    0 <= i <= rooti ==> t@[i].grad as int == #[trigger] partial_at(
                        nodes0,
                        rooti,
                        i,
                        j as int,
                    ),
                forall|i: int| rooti < i < nodes0.len() ==> t@[i].grad == nodes0[i].grad,
            decreases j,
        {
            j = j - 1;
            let ghost jj = j as int;
            let ghost pre = t@;
            if m[j] {
                let g = t.nodes[j].grad;
                proof {
                    assert(partial_at(nodes0, rooti, jj, jj + 1) == grad_after(
                        nodes0,
                        rooti,
                        jj,
                    ));
                    assert(g as int == grad_after(nodes0, rooti, jj));
                    assert(node_wf(nodes0, jj));
                    assert(t@[jj].op == nodes0[jj].op);
                }
                match t.nodes[j].op {
                    Op::Leaf => {
                        proof {
                            assert forall|i: int| 0 <= i <= rooti implies t@[i].grad as int
                                == partial_at(nodes0, rooti, i, jj) by {
                                lemma_partial_step(nodes0, rooti, i, jj);
                            }
                        }
                    },
                    Op::Neg(a) => {
                        proof {
                            assert(node_wf(nodes0, jj));
                            assert(deriv1(nodes0, jj) == -1);
                            lemma_partial_step(nodes0, rooti, a as int, jj);
                            assert(partial_at(nodes0, rooti, a as int, jj) == partial_at(
                                nodes0,
                                rooti,
                                a as int,
                                jj + 1,
                            ) + (g as int) * (-1));
                            assert(fits_i64(partial_at(nodes0, rooti, a as int, jj)));
                        }
                        accumulate(&mut t.nodes, a, g, -1i64);
                        proof {
                            assert forall|i: int| 0 <= i <= rooti implies t@[i].grad as int
                                == partial_at(nodes0, rooti, i, jj) by {
                                lemma_partial_step(nodes0, rooti, i, jj);
                                if i != a as int {
                                    assert(t@[i] == pre[i]);
                                }
                            }
                        }
                    },
                    Op::Pow(a, p) => {
                        let base = t.nodes[a].value;
                        proof {
                            assert(node_wf(nodes0, jj));
                            assert(base == nodes0[a as int].value);
                            assert(pow_deriv_fits(nodes0, jj));
                        }
                        let l: i64 = if p == 0 {
                            0
                        } else {
                            let pm = pow_i64(base, p - 1);
                            proof {
                                lemma_i64_product_fits_i128(p as int, pm as int);
                                assert(fits_i64(
                                    (p as int) * pow_int(base as int, (p - 1) as nat),
                                ));
                            }
                            let wide: i128 = (p as i128) * (pm as i128);
                            wide as i64
                        };
                        proof {
                            assert(l as int == deriv1(nodes0, jj));
                            lemma_partial_step(nodes0, rooti, a as int, jj);
                            assert(fits_i64(partial_at(nodes0, rooti, a as int, jj)));
                        }
                        accumulate(&mut t.nodes, a, g, l);
                        proof {
                            assert forall|i: int| 0 <= i <= rooti implies t@[i].grad as int
                                == partial_at(nodes0, rooti, i, jj) by {
                                lemma_partial_step(nodes0, rooti, i, jj);
                                if i != a as int {
                                    assert(t@[i] == pre[i]);
                                }
                            }
                        }
                    },
                    Op::Add(a, b) => {
                        proof {
                            assert(node_wf(nodes0, jj));
                            assert(deriv1(nodes0, jj) == 1 && deriv2(nodes0, jj) == 1);
                            lemma_partial_step(nodes0, rooti, a as int, jj);
                            lemma_partial_step(nodes0, rooti, b as int, jj);
                            if a == b {
                                assert(mid_update_fits(nodes0, rooti, jj));
                            }
                            assert(fits_i64(pre[a as int].grad + g * 1));
                        }
                        accumulate(&mut t.nodes, a, g, 1i64);
                        let ghost mid = t@;
                        proof {
                            assert(fits_i64(mid[b as int].grad + g * 1));
                        }
                        accumulate(&mut t.nodes, b, g, 1i64);
                        proof {
                            assert forall|i: int| 0 <= i <= rooti implies t@[i].grad as int
                                == partial_at(nodes0, rooti, i, jj) by {
                                lemma_partial_step(nodes0, rooti, i, jj);
                                if i != a as int && i != b as int {
                                    assert(t@[i] == pre[i]);
                                }
                            }
                        }
                    },
                    Op::Mul(a, b) => {
                        let la = t.nodes[b].value;
                        let lb = t.nodes[a].value;
                        proof {
                            assert(node_wf(nodes0, jj));
                            assert(la as int == deriv1(nodes0, jj));
                            assert(lb as int == deriv2(nodes0, jj));
                            lemma_partial_step(nodes0, rooti, a as int, jj);
                            lemma_partial_step(nodes0, rooti, b as int, jj);
                            if a == b {
                                assert(mid_update_fits(nodes0, rooti, jj));
                            }
                            assert(fits_i64(pre[a as int].grad + g * la));
                        }
                        accumulate(&mut t.nodes, a, g, la);
                        let ghost mid = t@;
                        proof {
                            assert(fits_i64(mid[b as int].grad + g * lb));
                        }
                        accumulate(&mut t.nodes, b, g, lb);
                        proof {
                            assert forall|i: int| 0 <= i <= rooti implies t@[i].grad as int
                                == partial_at(nodes0, rooti, i, jj) by {
                                lemma_partial_step(nodes0, rooti, i, jj);
                                if i != a as int && i != b as int {
                                    assert(t@[i] == pre[i]);
                                }
                            }
                        }
                    },
                }
            } else {
                proof {
                    assert forall|i: int| 0 <= i <= rooti implies t@[i].grad as int == partial_at(
                        nodes0,
                        rooti,
                        i,
                        jj,
                    ) by {
                        lemma_partial_step(nodes0, rooti, i, jj);
                    }
                }
            }
        }
        proof {
            assert forall|i: int| 0 <= i <= rooti implies t@[i].grad as int == grad_after(
                nodes0,
                rooti,
                i,
            ) by {
                assert(t@[i].grad as int == partial_at(nodes0, rooti, i, 0));
            }
            lemma_wf_same_shape(nodes0, t@);
        }
    }

    /// The backward pass, guarded by a dry run: it propagates only when
    /// every gradient the pass would store is representable, and reports
    /// whether it did.  The result is `true` exactly on the tapes that
    /// satisfy [`pass_fits`]; when it is `false` the tape is untouched.
    pub fn try_backward(self, t: &mut Tape) -> (ok: bool)
        requires
            old(t).wf(),
            self.id < old(t)@.len(),
        ensures
            ok == pass_fits(old(t)@, self.id as int),
            final(t).wf(),
            final(t)@.len() == old(t)@.len(),
            forall|i: int|
                0 <= i < old(t)@.len() ==> final(t)@[i].value == old(t)@[i].value
                    && #[trigger] final(t)@[i].op == old(t)@[i].op,
            ok ==> forall|i: int|
                0 <= i <= self.id ==> final(t)@[i].grad as int == grad_after(
                    old(t)@,
                    self.id as int,
                    i,
                ),
            forall|i: int|
                self.id < i < old(t)@.len() ==> final(t)@[i].grad == old(t)@[i].grad,
            !ok ==> final(t)@ == old(t)@,
    {
        let root = self.id;
        let n = t.nodes.len();
        let mut m: Vec<bool> = Vec::new();
        let mut c: usize = 0;
        while c < n
            invariant
                m@.len() == c,
                c <= n,
                forall|i: int| 0 <= i < c ==> !(#[trigger] m@[i]),
            decreases n - c,
        {
            m.push(false);
            c = c + 1;
        }
        mark_reach(&t.nodes, &mut m, root);
        let ok = check_pass(&t.nodes, &m, root);
        if ok {
            self.backward(t);
        }
        ok
    }
}

} // verus!
