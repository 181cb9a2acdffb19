//! Exercises the engine end to end: the helpers below supply the
//! floating-point arithmetic that the verified core deliberately leaves to
//! its driver, converting between `f64` values and the engine's 64-bit
//! payloads.

use babygrad::{Graph, Op, Step, ValueData};

fn val_f(g: &Graph, i: usize) -> f64 {
    f64::from_bits(g.value(i))
}

fn grad_f(g: &Graph, i: usize) -> f64 {
    f64::from_bits(g.gradient(i))
}

fn leaf_f(g: &mut Graph, v: f64) -> usize {
    g.leaf(v.to_bits())
}

fn addv(g: &mut Graph, a: usize, b: usize) -> usize {
    let v = val_f(g, a) + val_f(g, b);
    g.add(a, b, v.to_bits())
}

fn subv(g: &mut Graph, a: usize, b: usize) -> usize {
    let v = val_f(g, a) + (-1.0 * val_f(g, b));
    g.sub(a, b, v.to_bits())
}

fn mulv(g: &mut Graph, a: usize, b: usize) -> usize {
    let v = val_f(g, a) * val_f(g, b);
    g.mul(a, b, v.to_bits())
}

fn divv(g: &mut Graph, a: usize, b: usize) -> usize {
    let v = val_f(g, a) / val_f(g, b);
    g.div(a, b, v.to_bits())
}

fn tanhv(g: &mut Graph, a: usize) -> usize {
    let v = val_f(g, a).tanh();
    g.tanh(a, v.to_bits())
}

fn expv(g: &mut Graph, a: usize) -> usize {
    let v = val_f(g, a).exp();
    g.exp(a, v.to_bits())
}

fn powv(g: &mut Graph, a: usize, exponent: f64) -> usize {
    let v = val_f(g, a).powf(exponent);
    g.pow(a, v.to_bits())
}

/// Unary negation: a proper one-input node, so gradient flows back through
/// it.
fn negv(g: &mut Graph, a: usize) -> usize {
    let v = -val_f(g, a);
    g.neg(a, v.to_bits())
}

/// `node + k`: the scalar becomes a fresh leaf, so gradient flows to both.
fn add_scalar(g: &mut Graph, a: usize, k: f64) -> usize {
    let kb = leaf_f(g, k);
    addv(g, a, kb)
}

/// `node - k` is built as `node + leaf(-k)`.
fn sub_scalar(g: &mut Graph, a: usize, k: f64) -> usize {
    let kb = leaf_f(g, -k);
    addv(g, a, kb)
}

fn mul_scalar(g: &mut Graph, a: usize, k: f64) -> usize {
    let kb = leaf_f(g, k);
    mulv(g, a, kb)
}

fn div_scalar(g: &mut Graph, a: usize, k: f64) -> usize {
    let kb = leaf_f(g, k);
    divv(g, a, kb)
}

/// `k + node`: only the computed number survives, as a detached leaf.
fn scalar_add(g: &mut Graph, k: f64, a: usize) -> usize {
    let v = k + val_f(g, a);
    g.leaf(v.to_bits())
}

fn scalar_sub(g: &mut Graph, k: f64, a: usize) -> usize {
    let v = k + (-1.0 * val_f(g, a));
    g.leaf(v.to_bits())
}

fn scalar_mul(g: &mut Graph, k: f64, a: usize) -> usize {
    let v = k * val_f(g, a);
    g.leaf(v.to_bits())
}

fn scalar_div(g: &mut Graph, k: f64, a: usize) -> usize {
    let v = k / val_f(g, a);
    g.leaf(v.to_bits())
}

/// The per-operator backward rules, applied to the payloads each step
/// carries. The engine fixes which payloads arrive and where the result is
/// stored; this closure supplies the arithmetic.
fn rule(s: Step) -> u64 {
    let og = f64::from_bits(s.out_gradient);
    let ov = f64::from_bits(s.out_value);
    let lv = f64::from_bits(s.lhs_value);
    let rv = f64::from_bits(s.rhs_value);
    let tg = f64::from_bits(s.target_gradient);
    let contribution = match s.op {
        Op::Add => og,
        Op::Sub => {
            if s.side == 0 {
                og
            } else {
                -og
            }
        }
        Op::Mul => {
            if s.side == 0 {
                rv * og
            } else {
                lv * og
            }
        }
        Op::Div => {
            if s.side == 0 {
                og / rv
            } else {
                -lv * og / (rv * rv)
            }
        }
        Op::Neg => -og,
        Op::Tanh => (1.0 - ov * ov) * og,
        Op::Exp => ov * og,
        Op::Pow => {
            let child_value = lv;
            let exponent = ov.log10() / child_value.log10();
            exponent * ov / child_value * og
        }
        _ => 0.0,
    };
    (tg + contribution).to_bits()
}

fn run_backward(g: &mut Graph, root: usize) {
    assert!(root < g.node_count());
    assert!(!g.visited(root));
    assert!(g.rules_arity_consistent());
    g.backward(root, rule);
}

fn assert_approx(a: f64, b: f64) {
    assert!((a - b).abs() < 1e-8, "{} !~= {}", a, b);
}

#[test]
fn create_a_value() {
    let v = ValueData::new(10.0f64.to_bits());
    assert_eq!(f64::from_bits(v.value), 10.0);
}

#[test]
fn tanh() {
    let mut g = Graph::new();
    let a = g.from(1.0f64.to_bits(), Vec::new(), Op::Leaf);
    let b = tanhv(&mut g, a);
    assert_eq!(val_f(&g, b), 0.7615941559557649);
    assert!(matches!(g.op(b), Op::Tanh));
}

#[test]
fn exp() {
    let mut g = Graph::new();
    let a = g.from(5.0f64.to_bits(), Vec::new(), Op::Leaf);
    let b = expv(&mut g, a);
    assert_eq!(val_f(&g, b), 148.4131591025766);
    assert!(matches!(g.op(b), Op::Exp));
}

#[test]
fn pow() {
    let mut g = Graph::new();
    let a = g.from(5.0f64.to_bits(), Vec::new(), Op::Leaf);
    let b = powv(&mut g, a, 2.0);
    assert_eq!(val_f(&g, b), 25.0);
    assert!(matches!(g.op(b), Op::Pow));
}

#[test]
fn test_arithmetic_operations_serie1() {
    let mut g = Graph::new();
    let a = g.from(2.0f64.to_bits(), Vec::new(), Op::Leaf);
    let b = g.from(3.0f64.to_bits(), Vec::new(), Op::Leaf);

    let result_add = addv(&mut g, a, b);
    let result_sub = subv(&mut g, a, b);
    let result_mul = mulv(&mut g, a, b);
    let result_div = divv(&mut g, a, b);

    assert_eq!(val_f(&g, result_add), 5.0);
    assert_eq!(val_f(&g, result_sub), -1.0);
    assert_eq!(val_f(&g, result_mul), 6.0);
    assert_eq!(val_f(&g, result_div), 2.0 / 3.0);
}

#[test]
fn test_arithmetic_operations_serie2() {
    let mut g = Graph::new();
    let a = g.from(2.0f64.to_bits(), Vec::new(), Op::Leaf);
    let b = 3.0;

    let result_add = add_scalar(&mut g, a, b);
    let result_sub = sub_scalar(&mut g, a, b);
    let result_mul = mul_scalar(&mut g, a, b);
    let result_div = div_scalar(&mut g, a, b);

    assert_eq!(val_f(&g, result_add), 5.0);
    assert_eq!(val_f(&g, result_sub), -1.0);
    assert_eq!(val_f(&g, result_mul), 6.0);
    assert_eq!(val_f(&g, result_div), 2.0 / 3.0);
}

#[test]
fn test_arithmetic_operations_serie3() {
    let mut g = Graph::new();
    let a = 2.0;
    let b = g.from(3.0f64.to_bits(), Vec::new(), Op::Leaf);

    let result_add = scalar_add(&mut g, a, b);
    let result_sub = scalar_sub(&mut g, a, b);
    let result_mul = scalar_mul(&mut g, a, b);
    let result_div = scalar_div(&mut g, a, b);

    assert_eq!(val_f(&g, result_add), 5.0);
    assert_eq!(val_f(&g, result_sub), -1.0);
    assert_eq!(val_f(&g, result_mul), 6.0);
    assert_eq!(val_f(&g, result_div), 2.0 / 3.0);
}

#[test]
fn topological_order() {
    let mut g = Graph::new();
    let v1 = g.from(5.0f64.to_bits(), Vec::new(), Op::Leaf);
    let v2 = g.from(1.0f64.to_bits(), Vec::new(), Op::Leaf);
    let v3 = addv(&mut g, v1, v2); // 6
    let x = g.from(2.0f64.to_bits(), Vec::new(), Op::Leaf);
    let y = g.from(3.0f64.to_bits(), Vec::new(), Op::Leaf);
    let v4 = mulv(&mut g, v3, x); // 12
    let v5 = mulv(&mut g, v3, y); // 18
    let v6 = mulv(&mut g, v4, v5); // 216

    let order = g.topological_sort(v6);
    for p in order.iter() {
        println!("{}", val_f(&g, *p));
    }
    assert_eq!(order.len(), 8);
}

#[test]
fn abc_backpropagation1() {
    let mut g = Graph::new();
    let a = g.from(2.0f64.to_bits(), Vec::new(), Op::Leaf);
    let b = g.from(3.0f64.to_bits(), Vec::new(), Op::Leaf);
    let c = g.from(10.0f64.to_bits(), Vec::new(), Op::Leaf);
    let ab = mulv(&mut g, a, b);
    let d = addv(&mut g, ab, c);

    run_backward(&mut g, d);
    assert_approx(grad_f(&g, a), 3.0);
    assert_approx(grad_f(&g, b), 2.0);
    assert_approx(grad_f(&g, c), 1.0);
}

#[test]
fn abc_backpropagation2() {
    let mut g = Graph::new();
    let a = g.from(2.0f64.to_bits(), Vec::new(), Op::Leaf);
    let pre = g.from(3.0f64.to_bits(), Vec::new(), Op::Leaf);
    let b = negv(&mut g, pre);
    let c = g.from(10.0f64.to_bits(), Vec::new(), Op::Leaf);
    let ab = mulv(&mut g, a, b);
    let d = addv(&mut g, ab, c);

    run_backward(&mut g, d);
    assert_approx(grad_f(&g, a), -3.0);
    assert_approx(grad_f(&g, b), 2.0);
    assert_approx(grad_f(&g, c), 1.0);
}

#[test]
fn abc_backpropagation3() {
    let mut g = Graph::new();
    let a = g.from(2.0f64.to_bits(), Vec::new(), Op::Leaf);
    let b = g.from((-3.0f64).to_bits(), Vec::new(), Op::Leaf);
    let c = g.from(10.0f64.to_bits(), Vec::new(), Op::Leaf);
    let ab = mulv(&mut g, a, b);
    let d = addv(&mut g, ab, c);

    run_backward(&mut g, d);
    assert_approx(grad_f(&g, a), -3.0);
    assert_approx(grad_f(&g, b), 2.0);
    assert_approx(grad_f(&g, c), 1.0);
}

#[test]
fn abc_backpropagation4() {
    let mut g = Graph::new();
    let a = g.from(2.0f64.to_bits(), Vec::new(), Op::Leaf);
    let b = g.from(3.0f64.to_bits(), Vec::new(), Op::Leaf);
    let c = g.from(10.0f64.to_bits(), Vec::new(), Op::Leaf);
    let ab = mulv(&mut g, a, b);
    let d = subv(&mut g, ab, c);

    run_backward(&mut g, d);
    assert_approx(grad_f(&g, a), 3.0);
    assert_approx(grad_f(&g, b), 2.0);
    assert_approx(grad_f(&g, c), -1.0);
}

#[test]
fn abc_backpropagation5() {
    let mut g = Graph::new();
    let a = g.from(2.0f64.to_bits(), Vec::new(), Op::Leaf);
    let b = g.from((-3.0f64).to_bits(), Vec::new(), Op::Leaf);
    let c = g.from(10.0f64.to_bits(), Vec::new(), Op::Leaf);
    let ab = divv(&mut g, a, b);
    let d = addv(&mut g, ab, c);

    run_backward(&mut g, d);
    assert_approx(grad_f(&g, a), -0.3333333333333333);
    assert_approx(grad_f(&g, b), -0.2222222222222222);
    assert_approx(grad_f(&g, c), 1.0);
}

#[test]
fn abc_backpropagation6() {
    let mut g = Graph::new();
    let x1 = g.from(2.0f64.to_bits(), Vec::new(), Op::Leaf);
    let x2 = g.from(0.0f64.to_bits(), Vec::new(), Op::Leaf);
    let w1 = g.from((-3.0f64).to_bits(), Vec::new(), Op::Leaf);
    let w2 = g.from(1.0f64.to_bits(), Vec::new(), Op::Leaf);
    let b = g.from(6.88137358f64.to_bits(), Vec::new(), Op::Leaf);

    let x1w1 = mulv(&mut g, x1, w1);
    let x2w2 = mulv(&mut g, x2, w2);
    let x1w1x2w2 = addv(&mut g, x1w1, x2w2);
    let n = addv(&mut g, x1w1x2w2, b);
    let o = tanhv(&mut g, n);
    run_backward(&mut g, o);

    println!("{}", val_f(&g, o));

    assert_approx(grad_f(&g, w1), 1.0);
    assert_approx(grad_f(&g, w2), 0.0);
}

#[test]
fn leaf_value_and_gradient_are_exact() {
    let mut g = Graph::new();
    for v in [0.0, 1.0, -2.5, 3.141592653589793, 1e-300, -1e300] {
        let a = leaf_f(&mut g, v);
        assert_eq!(val_f(&g, a), v);
        assert_eq!(grad_f(&g, a), 0.0);
        assert!(matches!(g.op(a), Op::Leaf));
    }
}

#[test]
fn forward_values_match_operands() {
    let mut g = Graph::new();
    for (x, y) in [(2.0, 3.0), (-1.5, 0.25), (7.0, -0.125), (0.0, 4.0)] {
        let a = leaf_f(&mut g, x);
        let b = leaf_f(&mut g, y);
        let s = addv(&mut g, a, b);
        let d = subv(&mut g, a, b);
        let m = mulv(&mut g, a, b);
        let q = divv(&mut g, a, b);
        assert_eq!(val_f(&g, s), x + y);
        assert_eq!(val_f(&g, d), x + (-1.0 * y));
        assert_eq!(val_f(&g, m), x * y);
        assert_eq!(val_f(&g, q), x / y);
    }
}

#[test]
fn finite_difference_matches_gradient() {
    // d/da of tanh(a*b + a*c) at a=0.4, b=0.7, c=-0.3 by a centered
    // difference, against the backward pass
    let build = |av: f64| -> (Graph, usize, usize) {
        let mut g = Graph::new();
        let a = leaf_f(&mut g, av);
        let b = leaf_f(&mut g, 0.7);
        let c = leaf_f(&mut g, -0.3);
        let ab = mulv(&mut g, a, b);
        let ac = mulv(&mut g, a, c);
        let s = addv(&mut g, ab, ac);
        let t = tanhv(&mut g, s);
        (g, a, t)
    };
    let eps = 1e-6;
    let (g_plus, _, t_plus) = build(0.4 + eps);
    let (g_minus, _, t_minus) = build(0.4 - eps);
    let numeric = (val_f(&g_plus, t_plus) - val_f(&g_minus, t_minus)) / (2.0 * eps);

    let (mut g, a, t) = build(0.4);
    run_backward(&mut g, t);
    let analytic = grad_f(&g, a);
    assert!((numeric - analytic).abs() < 1e-6, "{} !~= {}", numeric, analytic);
}

#[test]
fn accumulation_over_shared_subexpressions() {
    // d = a*b; e = a*c; f = d+e: the gradient at a sums both paths
    let mut g = Graph::new();
    let a = leaf_f(&mut g, 2.0);
    let b = leaf_f(&mut g, 3.0);
    let c = leaf_f(&mut g, 4.0);
    let d = mulv(&mut g, a, b);
    let e = mulv(&mut g, a, c);
    let f = addv(&mut g, d, e);
    run_backward(&mut g, f);
    assert_approx(grad_f(&g, a), val_f(&g, b) + val_f(&g, c));
}

#[test]
fn detached_scalar_left_add_blocks_gradient() {
    // `k + node` severs gradient flow into the node ...
    let mut g = Graph::new();
    let a = leaf_f(&mut g, 2.0);
    let r = scalar_add(&mut g, 10.0, a);
    let s = leaf_f(&mut g, 3.0);
    let root = mulv(&mut g, r, s);
    run_backward(&mut g, root);
    assert_eq!(grad_f(&g, a), 0.0);

    // ... while `node + k` propagates into the node
    let mut g2 = Graph::new();
    let a2 = leaf_f(&mut g2, 2.0);
    let r2 = add_scalar(&mut g2, a2, 10.0);
    let s2 = leaf_f(&mut g2, 3.0);
    let root2 = mulv(&mut g2, r2, s2);
    run_backward(&mut g2, root2);
    assert_approx(grad_f(&g2, a2), 3.0);
}

#[test]
fn topological_order_respects_inputs() {
    // a build order from the leaves toward the root: every node appears
    // strictly after all of its inputs, and the root comes last
    let mut g = Graph::new();
    let v1 = leaf_f(&mut g, 5.0);
    let v2 = leaf_f(&mut g, 1.0);
    let v3 = addv(&mut g, v1, v2);
    let x = leaf_f(&mut g, 2.0);
    let y = leaf_f(&mut g, 3.0);
    let v4 = mulv(&mut g, v3, x);
    let v5 = mulv(&mut g, v3, y);
    let v6 = mulv(&mut g, v4, v5);

    let order = g.topological_sort(v6);
    assert_eq!(order[order.len() - 1], v6);
    for p in 0..order.len() {
        for child in g.children(order[p]) {
            let q = order.iter().position(|&n| n == child).unwrap();
            assert!(q < p, "input {} not before node {}", child, order[p]);
        }
    }
}

#[test]
fn backward_on_single_leaf_seeds_one() {
    let mut g = Graph::new();
    let a = leaf_f(&mut g, 7.5);
    run_backward(&mut g, a);
    assert_eq!(grad_f(&g, a), 1.0);
    assert!(g.visited(a));
}

#[test]
fn division_by_zero_value_yields_infinity() {
    let mut g = Graph::new();
    let a = leaf_f(&mut g, 1.0);
    let z = leaf_f(&mut g, 0.0);
    let q = divv(&mut g, a, z);
    assert!(val_f(&g, q).is_infinite());
}

#[test]
fn arity_check_detects_malformed_nodes() {
    let mut g = Graph::new();
    let a = leaf_f(&mut g, 1.0);
    assert!(g.rules_arity_consistent());
    g.from(2.0f64.to_bits(), vec![a], Op::Add);
    assert!(!g.rules_arity_consistent());
}

#[test]
fn leaves_builds_one_leaf_per_value() {
    let mut g = Graph::new();
    let values = [1.0f64, -2.0, 0.5];
    let bits: Vec<u64> = values.iter().map(|v| v.to_bits()).collect();
    let ids = g.leaves(&bits);
    assert_eq!(ids.len(), 3);
    for (k, id) in ids.iter().enumerate() {
        assert_eq!(val_f(&g, *id), values[k]);
        assert_eq!(grad_f(&g, *id), 0.0);
        assert!(matches!(g.op(*id), Op::Leaf));
    }
}

#[test]
fn ids_follow_creation_order() {
    let mut g = Graph::new();
    let a = leaf_f(&mut g, 1.0);
    let b = leaf_f(&mut g, 2.0);
    let c = addv(&mut g, a, b);
    assert_eq!(g.id(a), 0);
    assert_eq!(g.id(b), 1);
    assert_eq!(g.id(c), 2);
    assert_eq!(g.children(c), vec![a, b]);
}

#[test]
fn gradients_only_accumulate_along_steps() {
    // drive the step machine by hand: a*b with gradients read off each step
    let mut g = Graph::new();
    let a = leaf_f(&mut g, 2.0);
    let b = leaf_f(&mut g, 3.0);
    let p = mulv(&mut g, a, b);
    assert!(g.rules_arity_consistent());
    let mut pass = g.backward_start(p);
    let mut steps = 0;
    while let Some(s) = pass.current(&g) {
        assert_eq!(s.node, p);
        assert!(matches!(s.op, Op::Mul));
        let new_grad = rule(s);
        pass.accumulate(&mut g, new_grad);
        steps += 1;
    }
    assert!(pass.finished());
    assert_eq!(steps, 2);
    assert_eq!(grad_f(&g, p), 1.0);
    assert_approx(grad_f(&g, a), 3.0);
    assert_approx(grad_f(&g, b), 2.0);
}

#[test]
fn pow_backward_recovers_exponent() {
    // the rule recovers the exponent from the forward values: for 5^2 the
    // recovered exponent is 2, so the gradient at the base is 2*5 = 10
    let mut g = Graph::new();
    let a = leaf_f(&mut g, 5.0);
    let b = powv(&mut g, a, 2.0);
    run_backward(&mut g, b);
    assert_approx(grad_f(&g, a), 10.0);
}

#[test]
fn exp_backward_matches_forward_value() {
    let mut g = Graph::new();
    let a = leaf_f(&mut g, 1.0);
    let b = expv(&mut g, a);
    run_backward(&mut g, b);
    assert_approx(grad_f(&g, a), val_f(&g, b));
}

#[test]
fn steps_carry_the_right_payloads() {
    // a division node: the engine must hand the rule the dividend, the
    // divisor, the node's own value and its accumulated gradient
    let mut g = Graph::new();
    let a = leaf_f(&mut g, 6.0);
    let b = leaf_f(&mut g, 3.0);
    let q = divv(&mut g, a, b);
    assert!(g.rules_arity_consistent());
    let mut pass = g.backward_start(q);

    let s0 = pass.current(&g).unwrap();
    assert_eq!(s0.node, q);
    assert_eq!(s0.target, a);
    assert_eq!(s0.side, 0);
    assert!(matches!(s0.op, Op::Div));
    assert_eq!(f64::from_bits(s0.lhs_value), 6.0);
    assert_eq!(f64::from_bits(s0.rhs_value), 3.0);
    assert_eq!(f64::from_bits(s0.out_value), 2.0);
    assert_eq!(f64::from_bits(s0.out_gradient), 1.0);
    assert_eq!(f64::from_bits(s0.target_gradient), 0.0);
    pass.accumulate(&mut g, rule(s0));

    let s1 = pass.current(&g).unwrap();
    assert_eq!(s1.node, q);
    assert_eq!(s1.target, b);
    assert_eq!(s1.side, 1);
    pass.accumulate(&mut g, rule(s1));

    assert!(pass.current(&g).is_none());
    assert_approx(grad_f(&g, a), 1.0 / 3.0);
    assert_approx(grad_f(&g, b), -6.0 / 9.0);
}

#[test]
fn backward_marks_the_reachable_nodes() {
    let mut g = Graph::new();
    let a = leaf_f(&mut g, 1.0);
    let b = leaf_f(&mut g, 2.0);
    let c = addv(&mut g, a, b);
    let other = leaf_f(&mut g, 9.0);
    run_backward(&mut g, c);
    assert!(g.visited(a));
    assert!(g.visited(b));
    assert!(g.visited(c));
    assert!(!g.visited(other));
    assert_eq!(grad_f(&g, other), 0.0);
}

#[test]
fn neg_backward_flips_gradient() {
    let mut g = Graph::new();
    let a = leaf_f(&mut g, 3.0);
    let r = negv(&mut g, a);
    assert_eq!(val_f(&g, r), -3.0);
    assert!(matches!(g.op(r), Op::Neg));
    run_backward(&mut g, r);
    assert_approx(grad_f(&g, a), -1.0);
}
