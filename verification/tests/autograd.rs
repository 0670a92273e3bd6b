use autograd::{new_var, Op, Tape, Var};

#[test]
fn test_all() {
    // not full
    let mut t = Tape::new();
    let a = new_var(&mut t, 4);
    let x = new_var(&mut t, 3);
    let b = new_var(&mut t, 10);
    let r = a.mul(x, &mut t);
    let tt = r.add(b, &mut t);
    tt.backward(&mut t);
    assert_eq!(x.grad(&t), a.value(&t));
}

#[test]
fn test_leaf_backward_touches_only_itself() {
    let mut t = Tape::new();
    let y = new_var(&mut t, 2);
    let z = new_var(&mut t, 3);
    let s = y.add(z, &mut t);
    let w = new_var(&mut t, 4);
    w.backward(&mut t);
    assert_eq!(w.grad(&t), 1);
    assert_eq!(y.grad(&t), 0);
    assert_eq!(z.grad(&t), 0);
    assert_eq!(s.grad(&t), 0);
}

#[test]
fn test_product_rule() {
    let mut t = Tape::new();
    let a = new_var(&mut t, 4);
    let x = new_var(&mut t, 3);
    let b = new_var(&mut t, 10);
    let r = a.mul(x, &mut t);
    let tt = r.add(b, &mut t);
    assert_eq!(r.value(&t), 12);
    assert_eq!(tt.value(&t), 22);
    tt.backward(&mut t);
    assert_eq!(x.grad(&t), 4);
    assert_eq!(a.grad(&t), 3);
    assert_eq!(b.grad(&t), 1);
    assert_eq!(tt.grad(&t), 1);
}

#[test]
fn test_power_rule() {
    let mut t = Tape::new();
    let a = new_var(&mut t, 2);
    let f = a.pow(3, &mut t);
    assert_eq!(f.value(&t), 8);
    f.backward(&mut t);
    assert_eq!(f.grad(&t), 1);
    assert_eq!(a.grad(&t), 12);
}

#[test]
fn test_negate_rule() {
    let mut t = Tape::new();
    let a = new_var(&mut t, 5);
    let n = a.neg(&mut t);
    assert_eq!(n.value(&t), -5);
    n.backward(&mut t);
    assert_eq!(n.grad(&t), 1);
    assert_eq!(a.grad(&t), -1);
}

#[test]
fn test_diamond_accumulates() {
    let mut t = Tape::new();
    let y = new_var(&mut t, 2);
    let s = y.add(y, &mut t);
    assert_eq!(s.value(&t), 4);
    s.backward(&mut t);
    assert_eq!(y.grad(&t), 2);
}

#[test]
fn test_repeat_on_fresh_copy_identical() {
    let mut grads1: Vec<i64> = Vec::new();
    let mut grads2: Vec<i64> = Vec::new();
    for pass in 0..2 {
        let mut t = Tape::new();
        let a = new_var(&mut t, 4);
        let x = new_var(&mut t, 3);
        let b = new_var(&mut t, 10);
        let r = a.mul(x, &mut t);
        let s = r.add(b, &mut t);
        let d = s.add(s, &mut t);
        let f = d.pow(2, &mut t);
        f.backward(&mut t);
        for id in 0..t.len() {
            let v = Var { id };
            if pass == 0 {
                grads1.push(v.grad(&t));
            } else {
                grads2.push(v.grad(&t));
            }
        }
    }
    assert_eq!(grads1, grads2);
}

#[test]
fn test_values_never_drift() {
    let mut t = Tape::new();
    let a = new_var(&mut t, 4);
    let x = new_var(&mut t, 3);
    let r = a.mul(x, &mut t);
    let s = r.neg(&mut t);
    let f = s.pow(2, &mut t);
    let before = [a.value(&t), x.value(&t), r.value(&t), s.value(&t), f.value(&t)];
    f.backward(&mut t);
    let after = [a.value(&t), x.value(&t), r.value(&t), s.value(&t), f.value(&t)];
    assert_eq!(before, after);
    assert_eq!(r.value(&t), a.value(&t) * x.value(&t));
    assert_eq!(s.value(&t), -r.value(&t));
    assert_eq!(f.value(&t), s.value(&t) * s.value(&t));
}

#[test]
fn test_gradients_start_at_zero() {
    let mut t = Tape::new();
    let a = new_var(&mut t, 9);
    let b = new_var(&mut t, -3);
    let s = a.add(b, &mut t);
    let m = a.mul(b, &mut t);
    let n = s.neg(&mut t);
    let p = m.pow(4, &mut t);
    for id in 0..t.len() {
        assert_eq!(Var { id }.grad(&t), 0);
    }
    assert_eq!(s.value(&t), 6);
    assert_eq!(m.value(&t), -27);
    assert_eq!(n.value(&t), -6);
    assert_eq!(p.value(&t), 531441);
}

#[test]
fn test_pow_zero_exponent() {
    let mut t = Tape::new();
    let a = new_var(&mut t, 3);
    let f = a.pow(0, &mut t);
    assert_eq!(f.value(&t), 1);
    f.backward(&mut t);
    assert_eq!(f.grad(&t), 1);
    assert_eq!(a.grad(&t), 0);
}

#[test]
fn test_pow_exponent_one() {
    let mut t = Tape::new();
    let a = new_var(&mut t, 7);
    let f = a.pow(1, &mut t);
    assert_eq!(f.value(&t), 7);
    f.backward(&mut t);
    assert_eq!(a.grad(&t), 1);
}

#[test]
fn test_mul_by_zero() {
    let mut t = Tape::new();
    let a = new_var(&mut t, 0);
    let b = new_var(&mut t, 5);
    let m = a.mul(b, &mut t);
    assert_eq!(m.value(&t), 0);
    m.backward(&mut t);
    assert_eq!(a.grad(&t), 5);
    assert_eq!(b.grad(&t), 0);
}

#[test]
fn test_deep_diamond_propagates_once_complete() {
    // v = (y * y) + (y * y) = 2 * y^2, so dv/dy = 4 * y = 12 at y = 3.
    // The shared inner product must be complete before it pushes into y.
    let mut t = Tape::new();
    let y = new_var(&mut t, 3);
    let u = y.mul(y, &mut t);
    let v = u.add(u, &mut t);
    assert_eq!(v.value(&t), 18);
    v.backward(&mut t);
    assert_eq!(u.grad(&t), 2);
    assert_eq!(y.grad(&t), 12);
}

#[test]
fn test_negate_chain() {
    let mut t = Tape::new();
    let a = new_var(&mut t, 4);
    let n1 = a.neg(&mut t);
    let n2 = n1.neg(&mut t);
    assert_eq!(n2.value(&t), 4);
    n2.backward(&mut t);
    assert_eq!(n1.grad(&t), -1);
    assert_eq!(a.grad(&t), 1);
}

#[test]
fn test_second_pass_accumulates() {
    // Without a reset between passes, contributions add on top of the old
    // gradients; only the root is re-seeded.
    let mut t = Tape::new();
    let a = new_var(&mut t, 5);
    let n = a.neg(&mut t);
    n.backward(&mut t);
    n.backward(&mut t);
    assert_eq!(n.grad(&t), 1);
    assert_eq!(a.grad(&t), -2);
}

#[test]
fn test_power_of_negative_base() {
    let mut t = Tape::new();
    let a = new_var(&mut t, -2);
    let f = a.pow(3, &mut t);
    assert_eq!(f.value(&t), -8);
    f.backward(&mut t);
    // 3 * (-2)^2 = 12
    assert_eq!(a.grad(&t), 12);
}

#[test]
fn test_operands_recorded_exactly() {
    let mut t = Tape::new();
    let y = new_var(&mut t, 2);
    let z = new_var(&mut t, 3);
    let s = y.add(z, &mut t);
    let m = z.mul(y, &mut t);
    let n = s.neg(&mut t);
    let p = y.pow(5, &mut t);
    assert_eq!(y.op(&t), Op::Leaf);
    assert_eq!(s.op(&t), Op::Add(y.id, z.id));
    assert_eq!(m.op(&t), Op::Mul(z.id, y.id));
    assert_eq!(n.op(&t), Op::Neg(s.id));
    assert_eq!(p.op(&t), Op::Pow(y.id, 5));
}

#[test]
fn test_try_backward_runs_when_it_fits() {
    let mut t = Tape::new();
    let a = new_var(&mut t, 4);
    let x = new_var(&mut t, 3);
    let b = new_var(&mut t, 10);
    let r = a.mul(x, &mut t);
    let tt = r.add(b, &mut t);
    assert!(tt.try_backward(&mut t));
    assert_eq!(x.grad(&t), 4);
    assert_eq!(a.grad(&t), 3);
    assert_eq!(b.grad(&t), 1);
}

#[test]
fn test_try_backward_refuses_overflowing_gradient() {
    // Forward values stay tiny (zero), but the gradient of `x` would be
    // the product of the two huge operand values, far outside i64.
    let mut t = Tape::new();
    let x = new_var(&mut t, 0);
    let b1 = new_var(&mut t, 1 << 62);
    let b2 = new_var(&mut t, 1 << 62);
    let m1 = x.mul(b1, &mut t);
    let m2 = m1.mul(b2, &mut t);
    assert_eq!(m2.value(&t), 0);
    assert!(!m2.try_backward(&mut t));
    // The tape is untouched: not even the root was seeded.
    for id in 0..t.len() {
        assert_eq!(Var { id }.grad(&t), 0);
    }
}

#[test]
fn test_zero_grads_then_repeat_is_identical() {
    let mut t = Tape::new();
    let a = new_var(&mut t, 4);
    let x = new_var(&mut t, 3);
    let r = a.mul(x, &mut t);
    let s = r.add(r, &mut t);
    s.backward(&mut t);
    let first: Vec<i64> = (0..t.len()).map(|id| Var { id }.grad(&t)).collect();
    t.zero_grads();
    for id in 0..t.len() {
        assert_eq!(Var { id }.grad(&t), 0);
    }
    s.backward(&mut t);
    let second: Vec<i64> = (0..t.len()).map(|id| Var { id }.grad(&t)).collect();
    assert_eq!(first, second);
}
