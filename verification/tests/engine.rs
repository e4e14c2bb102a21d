use autograd::Tape;

fn bits(x: f64) -> u64 {
    x.to_bits()
}

fn val(x: u64) -> f64 {
    f64::from_bits(x)
}

#[test]
fn add_gradient_rule() {
    let mut t = Tape::new();
    let a = t.leaf(bits(1.5));
    let b = t.leaf(bits(2.5));
    let c = t.add(a, b);
    assert_eq!(t.value(c), bits(4.0));
    t.backward(c, bits(0.5));
    assert_eq!(t.gradient(a), bits(0.5));
    assert_eq!(t.gradient(b), bits(0.5));
    assert_eq!(t.gradient(c), bits(0.5));
}

#[test]
fn mul_gradient_rule() {
    let mut t = Tape::new();
    let a = t.leaf(bits(1.5));
    let b = t.leaf(bits(-2.0));
    let c = t.mul(a, b);
    assert_eq!(t.value(c), bits(-3.0));
    t.backward(c, bits(2.0));
    assert_eq!(t.gradient(a), bits(2.0 * -2.0));
    assert_eq!(t.gradient(b), bits(2.0 * 1.5));
}

#[test]
fn tanh_gradient_rule() {
    let mut t = Tape::new();
    let a = t.leaf(bits(0.5));
    let tv: f64 = 0.5f64.tanh();
    let c = t.tanh(a, bits(tv));
    assert_eq!(t.value(c), bits(tv));
    t.backward(c, bits(2.0));
    assert_eq!(t.gradient(a), bits(2.0 * (1.0 - tv * tv)));
    assert_eq!(t.gradient(c), bits(2.0));
}

#[test]
fn self_reference_accumulation() {
    let mut t = Tape::new();
    let a = t.leaf(bits(3.0));
    let b = t.add(a, a);
    assert_eq!(t.value(b), bits(6.0));
    t.backward(b, bits(1.0));
    assert_eq!(t.gradient(a), bits(2.0));
    assert_eq!(t.gradient(b), bits(1.0));
}

#[test]
fn leaf_termination() {
    let mut t = Tape::new();
    let x = t.leaf(bits(1.0));
    let y = t.leaf(bits(2.0));
    t.backward(y, bits(0.75));
    assert_eq!(t.gradient(y), bits(0.75));
    assert_eq!(t.gradient(x), bits(0.0));
    assert_eq!(t.value(x), bits(1.0));
    assert_eq!(t.value(y), bits(2.0));
}

#[test]
fn gradients_start_at_zero() {
    let mut t = Tape::new();
    let a = t.leaf(bits(-7.25));
    let b = t.leaf(bits(0.5));
    let c = t.mul(a, b);
    let d = t.add(c, a);
    assert_eq!(t.len(), 4);
    for id in [a, b, c, d] {
        assert_eq!(t.gradient(id), bits(0.0));
    }
}

#[test]
fn end_to_end_loss_graph() {
    let mut t = Tape::new();
    let a = t.leaf(bits(2.0));
    let b = t.leaf(bits(-3.0));
    let c = t.leaf(bits(10.0));
    let e = t.mul(a, b);
    let d = t.add(e, c);
    let f = t.leaf(bits(-2.0));
    let loss = t.mul(d, f);
    assert_eq!(t.value(e), bits(-6.0));
    assert_eq!(t.value(d), bits(4.0));
    assert_eq!(t.value(loss), bits(-8.0));
    t.backward(loss, bits(1.0));
    assert_eq!(t.gradient(a), bits(6.0));
    assert_eq!(t.gradient(b), bits(-4.0));
    assert_eq!(t.gradient(c), bits(-2.0));
    assert_eq!(t.gradient(d), bits(-2.0));
    assert_eq!(t.gradient(e), bits(-2.0));
    assert_eq!(t.gradient(f), bits(4.0));
    assert_eq!(t.gradient(loss), bits(1.0));
}

#[test]
fn end_to_end_diamond() {
    let mut t = Tape::new();
    let a = t.leaf(bits(-2.0));
    let b = t.leaf(bits(3.0));
    let d = t.mul(a, b);
    let e = t.add(a, b);
    let f = t.mul(d, e);
    assert_eq!(t.value(d), bits(-6.0));
    assert_eq!(t.value(e), bits(1.0));
    assert_eq!(t.value(f), bits(-6.0));
    t.backward(f, bits(1.0));
    assert_eq!(t.gradient(a), bits(-3.0));
    assert_eq!(t.gradient(b), bits(-8.0));
    assert_eq!(t.gradient(d), bits(1.0));
    assert_eq!(t.gradient(e), bits(-6.0));
    assert_eq!(t.gradient(f), bits(1.0));
}

#[test]
fn seed_linearity_scenario() {
    // On this graph every contribution is exact in binary64, so scaling the
    // seed by three scales every accumulated gradient by three.
    let build = |seed: f64| -> (Tape, [usize; 5]) {
        let mut t = Tape::new();
        let a = t.leaf(bits(-2.0));
        let b = t.leaf(bits(3.0));
        let d = t.mul(a, b);
        let e = t.add(a, b);
        let f = t.mul(d, e);
        t.backward(f, bits(seed));
        (t, [a, b, d, e, f])
    };
    let (t1, ids1) = build(1.0);
    let (t3, ids3) = build(3.0);
    for k in 0..5 {
        let g1 = val(t1.gradient(ids1[k]));
        let g3 = val(t3.gradient(ids3[k]));
        assert_eq!(g3.to_bits(), (3.0 * g1).to_bits());
    }
}

#[test]
fn neuron_with_tanh() {
    // A single neuron: two weighted inputs, a bias, a tanh squash.
    let mut t = Tape::new();
    let x1 = t.leaf(bits(2.0));
    let x2 = t.leaf(bits(0.0));
    let w1 = t.leaf(bits(-3.0));
    let w2 = t.leaf(bits(1.0));
    let bias = t.leaf(bits(6.881373));
    let x1w1 = t.mul(x1, w1);
    let x2w2 = t.mul(x2, w2);
    let s = t.add(x1w1, x2w2);
    let n = t.add(s, bias);
    let nv = val(t.value(n));
    let o = t.tanh(n, bits(nv.tanh()));
    t.backward(o, bits(1.0));
    // The same chain rule evaluated directly on binary64 values.
    let tv = nv.tanh();
    let gn = 1.0 * (1.0 - tv * tv);
    assert_eq!(t.gradient(o), bits(1.0));
    assert_eq!(t.gradient(n), bits(gn));
    assert_eq!(t.gradient(bias), bits(gn));
    assert_eq!(t.gradient(s), bits(gn));
    assert_eq!(t.gradient(x1w1), bits(gn));
    assert_eq!(t.gradient(x2w2), bits(gn));
    assert_eq!(t.gradient(x1), bits(gn * -3.0));
    assert_eq!(t.gradient(w1), bits(gn * 2.0));
    assert_eq!(t.gradient(x2), bits(gn * 1.0));
    assert_eq!(t.gradient(w2), bits(gn * 0.0));
}

#[test]
fn shared_subgraph_revisited_per_path() {
    // d = (a + a) * a revisits the leaf once per path: twice through the
    // sum's two edges and once through the product's right edge.
    let mut t = Tape::new();
    let a = t.leaf(bits(2.0));
    let s = t.add(a, a);
    let d = t.mul(s, a);
    assert_eq!(t.value(d), bits(8.0));
    t.backward(d, bits(1.0));
    // ds/da along the product: s.grad = a = 2, each edge of the sum hands
    // it on, so 2 + 2; the product's right edge adds s = 4.
    assert_eq!(t.gradient(a), bits(8.0));
    assert_eq!(t.gradient(s), bits(2.0));
    assert_eq!(t.gradient(d), bits(1.0));
}

#[test]
fn nan_and_infinity_propagate() {
    let mut t = Tape::new();
    let big = t.leaf(bits(f64::MAX));
    let two = t.leaf(bits(2.0));
    let inf = t.mul(big, two);
    assert_eq!(t.value(inf), bits(f64::INFINITY));
    let zero = t.leaf(bits(0.0));
    let nan = t.mul(inf, zero);
    assert!(val(t.value(nan)).is_nan());
    t.backward(nan, bits(1.0));
    // d(nan)/d(inf) = zero's value, so the infinity node's gradient is 0;
    // the big leaf then receives 0 * 2 = 0.
    assert_eq!(t.gradient(inf), bits(0.0));
    assert_eq!(t.gradient(zero), bits(f64::INFINITY));
    assert_eq!(t.gradient(big), bits(0.0));
}
