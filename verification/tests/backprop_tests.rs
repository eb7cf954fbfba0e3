use makegrad::graph::{Factor, Graph, Op};

fn add(g: &mut Graph<f64>, a: usize, b: usize) -> usize {
    let d = g.data(a) + g.data(b);
    g.from_prev(d, vec![a, b], Op::Add)
}

fn mul(g: &mut Graph<f64>, a: usize, b: usize) -> usize {
    let d = g.data(a) * g.data(b);
    g.from_prev(d, vec![a, b], Op::Mul)
}

fn tanh(g: &mut Graph<f64>, a: usize) -> usize {
    let d = g.data(a).tanh();
    g.from_prev(d, vec![a], Op::Tanh)
}

fn pow(g: &mut Graph<f64>, a: usize, n: i32) -> usize {
    let d = g.data(a).powi(n);
    g.from_prev(d, vec![a], Op::Pow(n))
}

fn backward(g: &mut Graph<f64>, root: usize) {
    g.set_grad(root, 1.0);
    for id in g.backward_order(root) {
        let grad = g.grad(id);
        for term in g.local_grad_terms(id) {
            let factor = match term.factor {
                Factor::One => 1.0,
                Factor::DataOf(o) => g.data(o),
                Factor::OneMinusOutputSquared => 1.0 - g.data(id).powi(2),
                Factor::Output => g.data(id),
                Factor::PowerRule(n) => n as f64 * g.data(term.target).powi(n - 1),
            };
            let updated = g.grad(term.target) + grad * factor;
            g.set_grad(term.target, updated);
        }
    }
}

fn close(x: f64, y: f64) -> bool {
    (x - y).abs() < 1e-9
}

#[test]
fn product_plus_operand() {
    // d = a * b + a, so dd/da = b + 1 and dd/db = a.
    let mut g = Graph::new(0.0);
    let a = g.value(3.5);
    let b = g.value(-2.0);
    let c = mul(&mut g, a, b);
    let d = add(&mut g, c, a);
    assert!(close(g.data(d), -3.5));
    backward(&mut g, d);
    assert!(close(g.grad(d), 1.0));
    assert!(close(g.grad(c), 1.0));
    assert!(close(g.grad(a), -1.0));
    assert!(close(g.grad(b), 3.5));
}

#[test]
fn scaled_sum_and_product() {
    // d = 5 * (a + b): dd/da = dd/db = 5; e = 5 * (a * b): de/da = 5b, de/db = 5a.
    let mut g = Graph::new(0.0);
    let a = g.value(2.0);
    let b = g.value(-3.0);
    let five = g.value(5.0);
    let c = add(&mut g, a, b);
    let d = mul(&mut g, five, c);
    backward(&mut g, d);
    assert!(close(g.grad(c), 5.0));
    assert!(close(g.grad(a), 5.0));
    assert!(close(g.grad(b), 5.0));

    let mut h = Graph::new(0.0);
    let a = h.value(2.0);
    let b = h.value(-3.0);
    let five = h.value(5.0);
    let c = mul(&mut h, a, b);
    let e = mul(&mut h, five, c);
    backward(&mut h, e);
    assert!(close(h.grad(a), 5.0 * -3.0));
    assert!(close(h.grad(b), 5.0 * 2.0));
}

#[test]
fn sum_then_product_accumulates() {
    // a = 3, b = -4, c = a + b, d = a * c.
    let mut g = Graph::new(0.0);
    let a = g.value(3.0);
    let b = g.value(-4.0);
    let c = add(&mut g, a, b);
    let d = mul(&mut g, a, c);
    assert!(close(g.data(d), -3.0));
    backward(&mut g, d);
    assert!(close(g.grad(a), 2.0));
    assert!(close(g.grad(b), 3.0));
    assert!(close(g.grad(c), 3.0));
}

#[test]
fn tanh_and_power() {
    let mut g = Graph::new(0.0);
    let x = g.value(0.3);
    let t = tanh(&mut g, x);
    backward(&mut g, t);
    assert!(close(g.grad(x), 1.0 - 0.3f64.tanh().powi(2)));

    let mut h = Graph::new(0.0);
    let y = h.value(1.5);
    let p = pow(&mut h, y, 3);
    backward(&mut h, p);
    assert!(close(h.grad(y), 3.0 * 1.5f64.powi(2)));
}
