use micrograd_rs::rat::Rat;
use micrograd_rs::value::{Graph, Value};

#[test]
fn leaf_holds_data_and_zero_gradient() {
    let mut g = Graph::new();
    let v = Rat::new(5, 4);
    let x = Value::from(&mut g, v);
    assert_eq!(x.get_data(&g), v);
    assert!(x.get_gradient(&g).eq_rat(&Rat::zero()));
}

#[test]
fn add_mul_sub_compute_forward_data() {
    let mut g = Graph::new();
    let a = Value::from(&mut g, Rat::new(1, 2));
    let b = Value::from(&mut g, Rat::new(1, 3));
    let sum = a.add(&mut g, &b);
    assert!(sum.get_data(&g).eq_rat(&Rat::new(5, 6)));
    let product = a.mul(&mut g, &b);
    assert!(product.get_data(&g).eq_rat(&Rat::new(1, 6)));
    let difference = a.sub(&mut g, &b);
    assert!(difference.get_data(&g).eq_rat(&Rat::new(1, 6)));
    let negated = a.neg(&mut g);
    assert!(negated.get_data(&g).eq_rat(&Rat::new(-1, 2)));
}

#[test]
fn backprop_seeds_root_gradient_with_one() {
    let mut g = Graph::new();
    let a = Value::from(&mut g, Rat::new(7, 3));
    let b = Value::from(&mut g, Rat::new(2, 1));
    let y = a.mul(&mut g, &b);
    y.backprop(&mut g);
    assert!(y.get_gradient(&g).eq_rat(&Rat::one()));
}

#[test]
fn additive_rule_gives_each_operand_gradient_one() {
    let mut g = Graph::new();
    let a = Value::from(&mut g, Rat::new(4, 1));
    let b = Value::from(&mut g, Rat::new(9, 7));
    let y = a.add(&mut g, &b);
    y.backprop(&mut g);
    assert!(a.get_gradient(&g).eq_rat(&Rat::one()));
    assert!(b.get_gradient(&g).eq_rat(&Rat::one()));
}

#[test]
fn multiplicative_rule_swaps_operand_data() {
    let mut g = Graph::new();
    let a = Value::from(&mut g, Rat::from_int(2));
    let b = Value::from(&mut g, Rat::from_int(3));
    let y = a.mul(&mut g, &b);
    y.backprop(&mut g);
    assert!(a.get_gradient(&g).eq_rat(&Rat::from_int(3)));
    assert!(b.get_gradient(&g).eq_rat(&Rat::from_int(2)));
}

#[test]
fn power_rule_scales_by_exponent() {
    let mut g = Graph::new();
    let a = Value::from(&mut g, Rat::from_int(5));
    let p = Value::from(&mut g, Rat::from_int(2));
    let y = a.pow(&mut g, &p);
    assert!(y.get_data(&g).eq_rat(&Rat::from_int(25)));
    y.backprop(&mut g);
    assert!(a.get_gradient(&g).eq_rat(&Rat::from_int(10)));
    assert!(p.get_gradient(&g).eq_rat(&Rat::zero()));
}

#[test]
fn power_edge_cases() {
    let mut g = Graph::new();
    let a = Value::from(&mut g, Rat::new(3, 2));
    let zero = Value::from(&mut g, Rat::from_int(0));
    let one = Value::from(&mut g, Rat::from_int(1));
    let y0 = a.pow(&mut g, &zero);
    assert!(y0.get_data(&g).eq_rat(&Rat::one()));
    y0.backprop(&mut g);
    assert!(a.get_gradient(&g).eq_rat(&Rat::zero()));
    let y1 = a.pow(&mut g, &one);
    assert!(y1.get_data(&g).eq_rat(&Rat::new(3, 2)));
    y1.backprop(&mut g);
    assert!(a.get_gradient(&g).eq_rat(&Rat::one()));
}

#[test]
fn subtraction_sends_minus_one_to_subtrahend() {
    let mut g = Graph::new();
    let a = Value::from(&mut g, Rat::from_int(10));
    let b = Value::from(&mut g, Rat::from_int(4));
    let y = a.sub(&mut g, &b);
    assert!(y.get_data(&g).eq_rat(&Rat::from_int(6)));
    y.backprop(&mut g);
    assert!(a.get_gradient(&g).eq_rat(&Rat::one()));
    assert!(b.get_gradient(&g).eq_rat(&Rat::from_int(-1)));
}

#[test]
fn diamond_graph_sums_both_paths() {
    let mut g = Graph::new();
    let a = Value::from(&mut g, Rat::from_int(2));
    let b = Value::from(&mut g, Rat::from_int(5));
    let c = Value::from(&mut g, Rat::from_int(11));
    let d = a.add(&mut g, &b);
    let e = a.add(&mut g, &c);
    let f = d.mul(&mut g, &e);
    f.backprop(&mut g);
    // d.data == 7, e.data == 13: a collects e.data + d.data
    assert!(a.get_gradient(&g).eq_rat(&Rat::from_int(20)));
    assert!(b.get_gradient(&g).eq_rat(&Rat::from_int(13)));
    assert!(c.get_gradient(&g).eq_rat(&Rat::from_int(7)));
}

#[test]
fn shared_operand_in_one_product_gets_both_contributions() {
    let mut g = Graph::new();
    let a = Value::from(&mut g, Rat::from_int(3));
    let y = a.mul(&mut g, &a);
    assert!(y.get_data(&g).eq_rat(&Rat::from_int(9)));
    y.backprop(&mut g);
    // d(a*a)/da == 2a
    assert!(a.get_gradient(&g).eq_rat(&Rat::from_int(6)));
}

#[test]
fn worked_example_matches_expected_values() {
    let mut g = Graph::new();
    let x = Value::from(&mut g, Rat::new(5, 10)).set_label(&mut g, "x");
    let w = Value::from(&mut g, Rat::new(314, 100)).set_label(&mut g, "w");
    let b = Value::from(&mut g, Rat::new(-2, 1)).set_label(&mut g, "b");
    let xw = x.mul(&mut g, &w);
    let y = xw.add(&mut g, &b).set_label(&mut g, "y");
    assert!(x.get_gradient(&g).eq_rat(&Rat::zero()));
    assert!(w.get_gradient(&g).eq_rat(&Rat::zero()));
    assert!(b.get_gradient(&g).eq_rat(&Rat::zero()));
    assert!(y.get_gradient(&g).eq_rat(&Rat::zero()));
    assert!(y.get_data(&g).eq_rat(&Rat::new(-43, 100)));
    y.backprop(&mut g);
    assert!(y.get_gradient(&g).eq_rat(&Rat::one()));
    assert!(b.get_gradient(&g).eq_rat(&Rat::one()));
    assert!(w.get_gradient(&g).eq_rat(&Rat::new(5, 10)));
    assert!(x.get_gradient(&g).eq_rat(&Rat::new(314, 100)));
}

#[test]
fn backprop_accumulates_across_passes() {
    let mut g = Graph::new();
    let a = Value::from(&mut g, Rat::from_int(4));
    let b = Value::from(&mut g, Rat::from_int(6));
    let y = a.add(&mut g, &b);
    y.backprop(&mut g);
    y.backprop(&mut g);
    // direct predecessors of the root double; the root is re-seeded to one
    assert!(a.get_gradient(&g).eq_rat(&Rat::from_int(2)));
    assert!(b.get_gradient(&g).eq_rat(&Rat::from_int(2)));
    assert!(y.get_gradient(&g).eq_rat(&Rat::one()));
}

#[test]
fn second_pass_without_reset_compounds_deeper_gradients() {
    let mut g = Graph::new();
    let x = Value::from(&mut g, Rat::new(1, 2));
    let w = Value::from(&mut g, Rat::new(314, 100));
    let b = Value::from(&mut g, Rat::new(-2, 1));
    let xw = x.mul(&mut g, &w);
    let y = xw.add(&mut g, &b);
    y.backprop(&mut g);
    y.backprop(&mut g);
    // the product node's gradient reaches two before it fires again, so the
    // leaves behind it collect three single-pass contributions in total
    assert!(x.get_gradient(&g).eq_rat(&Rat::new(3 * 314, 100)));
    assert!(w.get_gradient(&g).eq_rat(&Rat::new(3, 2)));
    assert!(b.get_gradient(&g).eq_rat(&Rat::from_int(2)));
}

#[test]
fn zero_grad_restores_single_pass_results() {
    let mut g = Graph::new();
    let x = Value::from(&mut g, Rat::new(1, 2));
    let w = Value::from(&mut g, Rat::new(314, 100));
    let b = Value::from(&mut g, Rat::new(-2, 1));
    let xw = x.mul(&mut g, &w);
    let y = xw.add(&mut g, &b);
    y.backprop(&mut g);
    y.zero_grad(&mut g);
    assert!(x.get_gradient(&g).eq_rat(&Rat::zero()));
    assert!(y.get_gradient(&g).eq_rat(&Rat::zero()));
    y.backprop(&mut g);
    assert!(x.get_gradient(&g).eq_rat(&Rat::new(314, 100)));
    assert!(w.get_gradient(&g).eq_rat(&Rat::new(1, 2)));
    assert!(b.get_gradient(&g).eq_rat(&Rat::one()));
    assert!(y.get_gradient(&g).eq_rat(&Rat::one()));
}

#[test]
fn labels_are_settable_and_readable() {
    let mut g = Graph::new();
    let x = Value::from(&mut g, Rat::one());
    assert!(x.get_label(&g).is_none());
    let x = x.set_label(&mut g, "input");
    assert_eq!(x.get_label(&g).unwrap(), "input");
    let x = x.set_label(&mut g, "renamed");
    assert_eq!(x.get_label(&g).unwrap(), "renamed");
}

#[test]
fn handles_compare_by_identity_not_by_data() {
    let mut g = Graph::new();
    let a = Value::from(&mut g, Rat::from_int(1));
    let b = Value::from(&mut g, Rat::from_int(1));
    assert_ne!(a, b);
    assert_eq!(a, a.clone());
    assert_eq!(g.len(), 2);
}
