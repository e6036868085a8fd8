use std::cell::Cell;
use std::f32::consts::FRAC_PI_2;

use compgraph::{
    create_input, pow_f32, sin, BinaryOp, Computer, EvalError, Graph, Node, Operation, Setter,
    UnaryOp,
};

fn apply(op: Operation<f32>) -> f32 {
    match op {
        Operation::Unary(UnaryOp::Sin, x) => x.sin(),
        Operation::Binary(BinaryOp::Add, x, y) => x + y,
        Operation::Binary(BinaryOp::Mul, x, y) => x * y,
        Operation::Binary(BinaryOp::Pow, x, y) => x.powf(y),
    }
}

fn round(x: f32, precision: u32) -> f32 {
    let m = 10i32.pow(precision) as f32;
    (x * m).round() / m
}

fn value(g: &mut Graph<f32>, n: Node) -> f32 {
    n.compute(g, &apply).unwrap()
}

#[test]
fn simple() {
    let mut g = Graph::new();
    let x1 = create_input(&mut g, "x1");
    x1.set(&mut g, 2.0);
    assert_eq!(value(&mut g, x1), 2.0);

    // the same node used as both operands
    let graph = compgraph::add(&mut g, x1, x1);
    x1.set(&mut g, 5.0);
    let result = value(&mut g, graph);
    let result = round(result, 5);
    assert_eq!(result, 10.0);
}

#[test]
fn fib() {
    let mut g = Graph::new();
    let x1 = create_input(&mut g, "x1");
    let x2 = create_input(&mut g, "x2");

    x1.set(&mut g, 1.0);
    x2.set(&mut g, 1.0);

    let mut a1 = x1;
    let mut a2 = x1;

    for _ in 0..6 {
        let tmp = a2;
        a2 = compgraph::add(&mut g, a1, a2);
        a1 = tmp;
    }

    let result = value(&mut g, a2);
    let result = round(result, 5);
    assert_eq!(result, 21.0);

    x1.set(&mut g, -1.0);
    x2.set(&mut g, -1.0);

    let result = value(&mut g, a2);
    let result = round(result, 5);
    assert_eq!(result, -21.0);
}

#[test]
fn pow_mul() {
    // z = (x ^ 6) * (x ^ 3) * x = x ^ 10
    let mut g = Graph::new();
    let x = create_input(&mut g, "x");
    x.set(&mut g, 2.0);

    let pow6 = pow_f32(&mut g, x, 6.0);
    let pow3 = pow_f32(&mut g, x, 3.0);
    let m = compgraph::mul(&mut g, pow6, pow3);
    let graph1 = compgraph::mul(&mut g, m, x);
    let graph2 = pow_f32(&mut g, x, 10.0);

    let result1 = value(&mut g, graph1);
    let result1 = round(result1, 5);
    let result2 = value(&mut g, graph2);
    let result2 = round(result2, 5);

    assert_eq!(result1, 1024.0);
    assert_eq!(result1, result2);
}

#[test]
fn sin_pow() {
    let mut g = Graph::new();
    let x = create_input(&mut g, "x");
    let s = sin(&mut g, x);
    let graph = pow_f32(&mut g, s, 2.0);
    x.set(&mut g, FRAC_PI_2);
    let result = value(&mut g, graph);
    let result = round(result, 5);
    assert_eq!(result, 1.0);
}

#[test]
fn cycle_ref() {
    let mut g = Graph::new();
    let x = create_input(&mut g, "x");
    x.set(&mut g, 0.0);
    let a = compgraph::add(&mut g, x, x);
    let b = compgraph::add(&mut g, x, x);
    let graph = compgraph::mul(&mut g, a, b);
    x.set(&mut g, 1.0);
    let result = value(&mut g, graph);
    let _result = round(result, 5);

    // the handle on x and the four operand slots that hold it
    assert_eq!(g.strong_count(x), 5);

    g.release(a);
    g.release(b);
    g.release(graph);
    g.release(x);

    // every node fully reclaimed
    assert_eq!(g.strong_count(x), 0);
    assert!(!g.is_alive(x));
    assert!(!g.is_alive(a));
    assert!(!g.is_alive(graph));
}

#[test]
fn unset_parameter_fails() {
    let mut g: Graph<f32> = Graph::new();
    let x = create_input(&mut g, "x");
    assert_eq!(x.compute(&mut g, &apply), Err(EvalError::UnsetParameter(x)));
}

#[test]
fn unset_parameter_below_fails() {
    let mut g = Graph::new();
    let x = create_input(&mut g, "x");
    let y = create_input(&mut g, "y");
    x.set(&mut g, 3.0);
    let s = compgraph::add(&mut g, x, y);
    let top = compgraph::mul(&mut g, s, x);
    assert_eq!(top.compute(&mut g, &apply), Err(EvalError::UnsetParameter(y)));
    y.set(&mut g, 4.0);
    assert_eq!(value(&mut g, top), 21.0);
}

#[test]
fn second_compute_is_cached() {
    let mut g = Graph::new();
    let x = create_input(&mut g, "x");
    let y = create_input(&mut g, "y");
    let s = compgraph::add(&mut g, x, y);
    let top = compgraph::mul(&mut g, s, s);
    x.set(&mut g, 1.5);
    y.set(&mut g, 2.5);
    let calls = Cell::new(0u32);
    let counting = |op: Operation<f32>| {
        calls.set(calls.get() + 1);
        apply(op)
    };
    let first = top.compute(&mut g, &counting).unwrap();
    assert_eq!(first, 16.0);
    // add and mul each applied once: the shared operand has one cache slot
    assert_eq!(calls.get(), 2);
    let second = top.compute(&mut g, &counting).unwrap();
    assert_eq!(second.to_bits(), first.to_bits());
    assert_eq!(calls.get(), 2);
}

#[test]
fn set_invalidates_only_dependents() {
    let mut g = Graph::new();
    let x = create_input(&mut g, "x");
    let y = create_input(&mut g, "y");
    let sx = sin(&mut g, x);
    let py = pow_f32(&mut g, y, 2.0);
    let top = compgraph::add(&mut g, sx, py);
    x.set(&mut g, 0.0);
    y.set(&mut g, 3.0);
    assert_eq!(value(&mut g, top), 9.0);

    y.set(&mut g, 4.0);
    let calls = Cell::new(0u32);
    let counting = |op: Operation<f32>| {
        calls.set(calls.get() + 1);
        apply(op)
    };
    assert_eq!(top.compute(&mut g, &counting).unwrap(), 16.0);
    // the sine node kept its cache; the power and the sum were recomputed
    assert_eq!(calls.get(), 2);
}

#[test]
fn set_on_operation_does_nothing() {
    let mut g = Graph::new();
    let x = create_input(&mut g, "x");
    let m = compgraph::mul(&mut g, x, x);
    x.set(&mut g, 3.0);
    assert_eq!(value(&mut g, m), 9.0);
    m.set(&mut g, 100.0);
    assert_eq!(value(&mut g, m), 9.0);
    assert_eq!(value(&mut g, x), 3.0);
}

#[test]
fn operators_give_exact_values() {
    let mut g = Graph::new();
    let x = create_input(&mut g, "x");
    let y = create_input(&mut g, "y");
    let s = compgraph::add(&mut g, x, y);
    let m = compgraph::mul(&mut g, x, y);
    let p = pow_f32(&mut g, x, 3.0);
    let z = sin(&mut g, y);
    x.set(&mut g, 2.0);
    y.set(&mut g, 0.0);
    assert_eq!(value(&mut g, s), 2.0);
    assert_eq!(value(&mut g, m), 0.0);
    assert_eq!(value(&mut g, p), 8.0);
    assert_eq!(value(&mut g, z), 0.0);
}

#[test]
fn release_keeps_shared_operands() {
    let mut g = Graph::new();
    let x = create_input(&mut g, "x");
    let a = compgraph::add(&mut g, x, x);
    let b = sin(&mut g, x);
    assert_eq!(g.strong_count(x), 4);
    g.release(a);
    assert!(!g.is_alive(a));
    assert!(g.is_alive(x));
    assert_eq!(g.strong_count(x), 2);

    // the reclaimed node is skipped when x changes
    x.set(&mut g, 0.0);
    assert_eq!(value(&mut g, b), 0.0);

    g.release(x);
    assert!(g.is_alive(x));
    assert_eq!(g.strong_count(x), 1);
    g.release(b);
    assert!(!g.is_alive(b));
    assert!(!g.is_alive(x));
}

#[test]
fn share_adds_an_owner() {
    let mut g: Graph<f32> = Graph::new();
    let x = create_input(&mut g, "x");
    let x2 = g.share(x);
    assert_eq!(x2, x);
    assert_eq!(g.strong_count(x), 2);
    g.release(x);
    assert!(g.is_alive(x2));
    g.release(x2);
    assert!(!g.is_alive(x));
}

#[test]
fn labels_name_the_nodes() {
    let mut g: Graph<f32> = Graph::new();
    let x = create_input(&mut g, "speed");
    let s = sin(&mut g, x);
    let p = pow_f32(&mut g, s, 2.0);
    let a = compgraph::add(&mut g, x, p);
    let m = compgraph::mul(&mut g, a, a);
    assert_eq!(g.label(x), "speed");
    assert_eq!(g.label(s), "sin");
    assert_eq!(g.label(p), "pow");
    assert_eq!(g.label(a), "add");
    assert_eq!(g.label(m), "mul");
}
