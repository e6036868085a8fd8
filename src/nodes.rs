//! Building nodes, setting parameters and evaluating.
use vstd::prelude::*;

use crate::graph::{appended, compute_post, set_post, Graph};
use crate::model::{BinaryOp, EvalError, Kind, Node, Operation, UnaryOp};

verus! {

impl View for Node {
    type V = usize;

    open spec fn view(&self) -> usize {
        self.0
    }
}

/// A new parameter, with no value yet.
pub fn create_input<S: Copy>(g: &mut Graph<S>, name: &str) -> (n: Node)
    requires
        old(g).wf(),
        old(g).len() < usize::MAX,
    ensures
        final(g).wf(),
        appended(*old(g), *final(g), Kind::Parameter, name@, n),
{
    g.add_node(name, Kind::Parameter)
}

/// A new node computing `a + b`.
pub fn add<S: Copy>(g: &mut Graph<S>, a: Node, b: Node) -> (n: Node)
    requires
        old(g).wf(),
        old(g).len() < usize::MAX,
        old(g).valid(a),
        old(g).valid(b),
    ensures
        final(g).wf(),
        appended(*old(g), *final(g), Kind::Binary(BinaryOp::Add, a.0, b.0), "add"@, n),
{
    g.add_node("add", Kind::Binary(BinaryOp::Add, a.0, b.0))
}

/// A new node computing `a * b`.
pub fn mul<S: Copy>(g: &mut Graph<S>, a: Node, b: Node) -> (n: Node)
    requires
        old(g).wf(),
        old(g).len() < usize::MAX,
        old(g).valid(a),
        old(g).valid(b),
    ensures
        final(g).wf(),
        appended(*old(g), *final(g), Kind::Binary(BinaryOp::Mul, a.0, b.0), "mul"@, n),
{
    g.add_node("mul", Kind::Binary(BinaryOp::Mul, a.0, b.0))
}

/// A new node computing `a` raised to the fixed exponent `exponent`.
pub fn pow_f32<S: Copy>(g: &mut Graph<S>, a: Node, exponent: S) -> (n: Node)
    requires
        old(g).wf(),
        old(g).len() < usize::MAX,
        old(g).valid(a),
    ensures
        final(g).wf(),
        appended(*old(g), *final(g), Kind::WithConstant(BinaryOp::Pow, a.0, exponent), "pow"@, n),
{
    g.add_node("pow", Kind::WithConstant(BinaryOp::Pow, a.0, exponent))
}

/// A new node computing the sine of `a`.
pub fn sin<S: Copy>(g: &mut Graph<S>, a: Node) -> (n: Node)
    requires
        old(g).wf(),
        old(g).len() < usize::MAX,
        old(g).valid(a),
    ensures
        final(g).wf(),
        appended(*old(g), *final(g), Kind::Unary(UnaryOp::Sin, a.0), "sin"@, n),
{
    g.add_node("sin", Kind::Unary(UnaryOp::Sin, a.0))
}

/// Setting the value of a parameter through a handle on it.
pub trait Setter<S: Copy>: View<V = usize> {
    /// On a parameter: invalidates every node that depends on it, then stores
    /// `value`. On any other node: does nothing, and signals nothing.
    fn set(&self, g: &mut Graph<S>, value: S)
        requires
            old(g).wf(),
            old(g).valid(Node(self@)),
        ensures
            final(g).wf(),
            set_post(*old(g), Node(self@), value, *final(g)),
    ;
}

impl<S: Copy> Setter<S> for Node {
    fn set(&self, g: &mut Graph<S>, value: S) {
        g.set_value(self.0, value)
    }
}

/// Evaluating a node through a handle on it.
pub trait Computer<S: Copy>: View<V = usize> {
    /// The node's value, from its cache or computed on demand, with `apply`
    /// giving the result of each operator.
    fn compute<F: Fn(Operation<S>) -> S>(&self, g: &mut Graph<S>, apply: &F) -> (r: Result<S, EvalError>)
        requires
            old(g).wf(),
            old(g).valid(Node(self@)),
            forall|op: Operation<S>| apply.requires((op,)),
        ensures
            final(g).wf(),
            compute_post(*old(g), Node(self@), *apply, r, *final(g)),
    ;
}

impl<S: Copy> Computer<S> for Node {
    fn compute<F: Fn(Operation<S>) -> S>(&self, g: &mut Graph<S>, apply: &F) -> (r: Result<S, EvalError>) {
        g.compute_node(self.0, apply)
    }
}

} // verus!
