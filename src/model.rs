//! The data model of a computation graph: node kinds, operand edges, and
//! what it means for a node to reach another, with lemmas about them.
use vstd::prelude::*;

verus! {

/// A handle on a node of a graph, by its index in the arena. Copies of a
/// handle refer to the same node. Each handle that a node factory or
/// `Graph::share` gives out is one owning reference, given back with
/// `Graph::release`.
#[derive(Clone, Copy, PartialEq, Eq, Debug)]
pub struct Node(pub usize);

/// Operations with one operand.
#[derive(Clone, Copy, PartialEq, Eq, Debug)]
pub enum UnaryOp {
    Sin,
}

/// Operations with two operands.
#[derive(Clone, Copy, PartialEq, Eq, Debug)]
pub enum BinaryOp {
    Add,
    Mul,
    Pow,
}

/// What a node computes, with the indices of its operands.
#[derive(Clone, Copy, PartialEq, Eq, Debug)]
pub enum Kind<V> {
    /// A leaf whose value is supplied by `set`.
    Parameter,
    /// `op(operand)`.
    Unary(UnaryOp, usize),
    /// `op(left, right)`.
    Binary(BinaryOp, usize, usize),
    /// `op(operand, constant)`, the constant fixed when the node is built.
    WithConstant(BinaryOp, usize, V),
}

/// One application of an operator to values, as handed to the interpreter
/// that a caller passes to `compute`.
#[derive(Clone, Copy, PartialEq, Eq, Debug)]
pub enum Operation<V> {
    Unary(UnaryOp, V),
    Binary(BinaryOp, V, V),
}

/// The single way in which evaluation fails.
#[derive(Clone, Copy, PartialEq, Eq, Debug)]
pub enum EvalError {
    /// Evaluation reached this parameter before any value was set on it.
    UnsetParameter(Node),
}

/// The operands of a node of the given kind, in order.
pub open spec fn operands_of<V>(k: Kind<V>) -> Seq<int> {
    match k {
        Kind::Parameter => seq![],
        Kind::Unary(_, a) => seq![a as int],
        Kind::Binary(_, a, b) => seq![a as int, b as int],
        Kind::WithConstant(_, a, _) => seq![a as int],
    }
}

/// How many of the operand slots of a node of the given kind hold node `i`.
pub open spec fn uses_of<V>(k: Kind<V>, i: int) -> nat {
    match k {
        Kind::Parameter => 0,
        Kind::Unary(_, a) => if a == i { 1 } else { 0 },
        Kind::Binary(_, a, b) => (if a == i { 1nat } else { 0nat }) + (if b == i { 1nat } else { 0nat }),
        Kind::WithConstant(_, a, _) => if a == i { 1 } else { 0 },
    }
}

/// Node `i` reaches node `j` along operand edges (every node reaches itself).
pub open spec fn depends_on<V>(kinds: Seq<Kind<V>>, i: int, j: int) -> bool
    decreases i,
{
    if i < 0 || i >= kinds.len() {
        false
    } else if i == j {
        true
    } else {
        match kinds[i] {
            Kind::Parameter => false,
            Kind::Unary(_, a) => a < i && depends_on(kinds, a as int, j),
            Kind::Binary(_, a, b) => (a < i && depends_on(kinds, a as int, j)) || (b < i
                && depends_on(kinds, b as int, j)),
            Kind::WithConstant(_, a, _) => a < i && depends_on(kinds, a as int, j),
        }
    }
}

/// Every parameter that node `i` reaches holds a value.
pub open spec fn inputs_set<V>(kinds: Seq<Kind<V>>, caches: Seq<Option<V>>, i: int) -> bool {
    forall|p: int|
        #[trigger] depends_on(kinds, i, p) && kinds[p] is Parameter ==> caches[p] is Some
}

/// The operator application that computes node `i` from its operands' caches.
pub open spec fn operation_at<V>(kinds: Seq<Kind<V>>, caches: Seq<Option<V>>, i: int) -> Operation<V> {
    match kinds[i] {
        Kind::Unary(op, a) => Operation::Unary(op, caches[a as int]->Some_0),
        Kind::Binary(op, a, b) => Operation::Binary(op, caches[a as int]->Some_0, caches[b as int]->Some_0),
        Kind::WithConstant(op, a, c) => Operation::Binary(op, caches[a as int]->Some_0, c),
        Kind::Parameter => arbitrary(),
    }
}

/// Node `k` holds a value that `apply` gives for its operator on its
/// operands' cached values.
pub open spec fn computed_by<V, F: Fn(Operation<V>) -> V>(
    kinds: Seq<Kind<V>>,
    caches: Seq<Option<V>>,
    k: int,
    apply: F,
) -> bool {
    &&& !(kinds[k] is Parameter)
    &&& caches[k] is Some
    &&& apply.ensures((operation_at(kinds, caches, k),), caches[k]->Some_0)
}

/// Going from `before` to `after`, only empty caches below node `i` were
/// filled, each with a value that `apply` computed.
pub open spec fn fills_only<V, F: Fn(Operation<V>) -> V>(
    kinds: Seq<Kind<V>>,
    before: Seq<Option<V>>,
    after: Seq<Option<V>>,
    i: int,
    apply: F,
) -> bool {
    &&& after.len() == before.len()
    &&& forall|k: int|
        0 <= k < before.len() && #[trigger] after[k] != before[k] ==> {
            &&& before[k] is None
            &&& depends_on(kinds, i, k)
            &&& computed_by(kinds, after, k, apply)
        }
}

/// Node `k` reaches one of the nodes in `ds`.
pub open spec fn reaches_any<V>(kinds: Seq<Kind<V>>, k: int, ds: Seq<int>) -> bool {
    exists|s: int| 0 <= s < ds.len() && #[trigger] depends_on(kinds, k, ds[s])
}

/// How many of the nodes in `ds` are alive, counting repeats.
pub open spec fn live_count(ds: Seq<int>, alive: Seq<bool>) -> nat
    decreases ds.len(),
{
    if ds.len() == 0 {
        0
    } else {
        live_count(ds.drop_last(), alive) + if alive[ds.last()] { 1nat } else { 0nat }
    }
}

/// Operands come before the nodes that use them, and the dependent lists are
/// exactly the inverse of the operand edges.
pub open spec fn links_ok<V>(kinds: Seq<Kind<V>>, deps: Seq<Seq<int>>) -> bool {
    &&& deps.len() == kinds.len()
    &&& forall|i: int, t: int|
        0 <= i < kinds.len() && 0 <= t < operands_of(kinds[i]).len() ==> 0
            <= #[trigger] operands_of(kinds[i])[t] < i && deps[operands_of(kinds[i])[t]].contains(i)
    &&& forall|i: int, t: int|
        0 <= i < kinds.len() && 0 <= t < deps[i].len() ==> i < #[trigger] deps[i][t] < kinds.len()
            && operands_of(kinds[deps[i][t] as int]).contains(i)
}

/// A cached node is alive and its operands are cached; alive nodes keep their
/// operands alive; dead nodes hold no cache.
pub open spec fn caches_ok<V>(kinds: Seq<Kind<V>>, caches: Seq<Option<V>>, alive: Seq<bool>) -> bool {
    &&& caches.len() == kinds.len()
    &&& alive.len() == kinds.len()
    &&& forall|i: int| 0 <= i < kinds.len() && (#[trigger] caches[i]) is Some ==> alive[i]
    &&& forall|i: int, t: int|
        0 <= i < kinds.len() && 0 <= t < operands_of(kinds[i]).len() ==> (caches[i] is Some
            ==> caches[#[trigger] operands_of(kinds[i])[t]] is Some) && (alive[i] ==> alive[operands_of(kinds[i])[t]])
}

/// A node is alive exactly while something owns it: a handle held outside the
/// graph, or a live node that uses it as an operand.
pub open spec fn owners_ok(deps: Seq<Seq<int>>, alive: Seq<bool>, handles: Seq<nat>) -> bool {
    &&& alive.len() == deps.len()
    &&& handles.len() == deps.len()
    &&& forall|i: int|
        0 <= i < deps.len() ==> (#[trigger] alive[i] <==> (handles[i] > 0 || exists|t: int|
            0 <= t < deps[i].len() && alive[#[trigger] deps[i][t] as int]))
}

/// A node reaches only nodes at or below its own index.
pub proof fn lemma_depends_range<V>(kinds: Seq<Kind<V>>, i: int, j: int)
    requires
        depends_on(kinds, i, j),
    ensures
        0 <= j <= i < kinds.len(),
    decreases i,
{
    if i != j {
        match kinds[i] {
            Kind::Parameter => {},
            Kind::Unary(_, a) => lemma_depends_range(kinds, a as int, j),
            Kind::Binary(_, a, b) => {
                if a < i && depends_on(kinds, a as int, j) {
                    lemma_depends_range(kinds, a as int, j);
                } else {
                    lemma_depends_range(kinds, b as int, j);
                }
            },
            Kind::WithConstant(_, a, _) => lemma_depends_range(kinds, a as int, j),
        }
    }
}

/// A node reaches each of its operands.
pub proof fn lemma_operand_edge<V>(kinds: Seq<Kind<V>>, k: int, t: int)
    requires
        0 <= k < kinds.len(),
        0 <= t < operands_of(kinds[k]).len(),
        0 <= operands_of(kinds[k])[t] < k,
    ensures
        depends_on(kinds, k, operands_of(kinds[k])[t]),
{
    let o = operands_of(kinds[k])[t];
    assert(depends_on(kinds, o, o));
}

/// Reaching is transitive.
pub proof fn lemma_depends_trans<V>(kinds: Seq<Kind<V>>, k: int, m: int, j: int)
    requires
        depends_on(kinds, k, m),
        depends_on(kinds, m, j),
    ensures
        depends_on(kinds, k, j),
    decreases k,
{
    if k != m {
        lemma_depends_range(kinds, m, j);
        match kinds[k] {
            Kind::Parameter => {},
            Kind::Unary(_, a) => lemma_depends_trans(kinds, a as int, m, j),
            Kind::Binary(_, a, b) => {
                if a < k && depends_on(kinds, a as int, m) {
                    lemma_depends_trans(kinds, a as int, m, j);
                } else {
                    lemma_depends_trans(kinds, b as int, m, j);
                }
            },
            Kind::WithConstant(_, a, _) => lemma_depends_trans(kinds, a as int, m, j),
        }
    }
}

/// A path from `k` down to another node `j` ends with an edge into `j`: some
/// node `d` that `k` reaches has `j` among its operands.
pub proof fn lemma_last_edge<V>(kinds: Seq<Kind<V>>, k: int, j: int) -> (d: int)
    requires
        depends_on(kinds, k, j),
        k != j,
    ensures
        depends_on(kinds, k, d),
        0 <= d < kinds.len(),
        operands_of(kinds[d]).contains(j),
    decreases k,
{
    let o = match kinds[k] {
        Kind::Parameter => k,
        Kind::Unary(_, a) => a as int,
        Kind::Binary(_, a, b) => if a < k && depends_on(kinds, a as int, j) { a as int } else { b as int },
        Kind::WithConstant(_, a, _) => a as int,
    };
    assert(depends_on(kinds, o, j));
    lemma_depends_range(kinds, o, j);
    assert(depends_on(kinds, o, o));
    assert(operands_of(kinds[k]).contains(o)) by {
        match kinds[k] {
            Kind::Binary(_, a, b) => {
                if o == a {
                    assert(operands_of(kinds[k])[0] == o);
                } else {
                    assert(operands_of(kinds[k])[1] == o);
                }
            },
            _ => {
                assert(operands_of(kinds[k])[0] == o);
            },
        }
    }
    assert(depends_on(kinds, k, k));
    if o == j {
        k
    } else {
        let d = lemma_last_edge(kinds, o, j);
        assert(depends_on(kinds, k, o));
        lemma_depends_trans(kinds, k, o, d);
        d
    }
}

/// Below a live node every node is alive.
pub proof fn lemma_alive_cone<V>(kinds: Seq<Kind<V>>, caches: Seq<Option<V>>, alive: Seq<bool>, k: int, j: int)
    requires
        caches_ok(kinds, caches, alive),
        alive[k],
        depends_on(kinds, k, j),
    ensures
        alive[j],
    decreases k,
{
    if k != j {
        match kinds[k] {
            Kind::Parameter => {},
            Kind::Unary(_, a) => {
                assert(operands_of(kinds[k])[0] == a);
                lemma_alive_cone(kinds, caches, alive, a as int, j);
            },
            Kind::Binary(_, a, b) => {
                assert(operands_of(kinds[k])[0] == a);
                assert(operands_of(kinds[k])[1] == b);
                if a < k && depends_on(kinds, a as int, j) {
                    lemma_alive_cone(kinds, caches, alive, a as int, j);
                } else {
                    lemma_alive_cone(kinds, caches, alive, b as int, j);
                }
            },
            Kind::WithConstant(_, a, _) => {
                assert(operands_of(kinds[k])[0] == a);
                lemma_alive_cone(kinds, caches, alive, a as int, j);
            },
        }
    }
}

/// Below a cached node every node is cached.
pub proof fn lemma_cached_cone<V>(kinds: Seq<Kind<V>>, caches: Seq<Option<V>>, alive: Seq<bool>, i: int)
    requires
        caches_ok(kinds, caches, alive),
        0 <= i < kinds.len(),
        caches[i] is Some,
    ensures
        forall|k: int| #[trigger] depends_on(kinds, i, k) ==> caches[k] is Some,
    decreases i,
{
    assert forall|k: int| #[trigger] depends_on(kinds, i, k) implies caches[k] is Some by {
        if k != i {
            match kinds[i] {
                Kind::Parameter => {},
                Kind::Unary(_, a) => {
                    assert(operands_of(kinds[i])[0] == a);
                    assert(depends_on(kinds, a as int, k));
                    lemma_cached_cone(kinds, caches, alive, a as int);
                },
                Kind::Binary(_, a, b) => {
                    assert(operands_of(kinds[i])[0] == a);
                    assert(operands_of(kinds[i])[1] == b);
                    if a < i && depends_on(kinds, a as int, k) {
                        lemma_cached_cone(kinds, caches, alive, a as int);
                    } else {
                        assert(depends_on(kinds, b as int, k));
                        lemma_cached_cone(kinds, caches, alive, b as int);
                    }
                },
                Kind::WithConstant(_, a, _) => {
                    assert(operands_of(kinds[i])[0] == a);
                    assert(depends_on(kinds, a as int, k));
                    lemma_cached_cone(kinds, caches, alive, a as int);
                },
            }
        }
    }
}

/// A computed value stays computed while the caches it was computed from stay.
pub proof fn lemma_computed_stable<V, F: Fn(Operation<V>) -> V>(
    kinds: Seq<Kind<V>>,
    c1: Seq<Option<V>>,
    c2: Seq<Option<V>>,
    alive: Seq<bool>,
    deps: Seq<Seq<int>>,
    k: int,
    apply: F,
)
    requires
        caches_ok(kinds, c1, alive),
        links_ok(kinds, deps),
        0 <= k < kinds.len(),
        c2.len() == c1.len(),
        computed_by(kinds, c1, k, apply),
        forall|j: int| 0 <= j < c1.len() && c1[j] is Some ==> #[trigger] c2[j] == c1[j],
    ensures
        computed_by(kinds, c2, k, apply),
{
    match kinds[k] {
        Kind::Parameter => {},
        Kind::Unary(_, a) => {
            assert(operands_of(kinds[k])[0] == a);
            assert(c2[a as int] == c1[a as int]);
        },
        Kind::Binary(_, a, b) => {
            assert(operands_of(kinds[k])[0] == a);
            assert(operands_of(kinds[k])[1] == b);
            assert(c2[a as int] == c1[a as int]);
            assert(c2[b as int] == c1[b as int]);
        },
        Kind::WithConstant(_, a, _) => {
            assert(operands_of(kinds[k])[0] == a);
            assert(c2[a as int] == c1[a as int]);
        },
    }
    assert(operation_at(kinds, c2, k) == operation_at(kinds, c1, k));
}

/// Two rounds of filling below operands of node `i` fill only below `i`.
pub proof fn lemma_fills_compose<V, F: Fn(Operation<V>) -> V>(
    kinds: Seq<Kind<V>>,
    c0: Seq<Option<V>>,
    c1: Seq<Option<V>>,
    c2: Seq<Option<V>>,
    alive: Seq<bool>,
    deps: Seq<Seq<int>>,
    i: int,
    a: int,
    b: int,
    apply: F,
)
    requires
        caches_ok(kinds, c1, alive),
        links_ok(kinds, deps),
        c0.len() == kinds.len(),
        fills_only(kinds, c0, c1, a, apply),
        fills_only(kinds, c1, c2, b, apply),
        forall|k: int| depends_on(kinds, a, k) ==> #[trigger] depends_on(kinds, i, k),
        forall|k: int| depends_on(kinds, b, k) ==> #[trigger] depends_on(kinds, i, k),
    ensures
        fills_only(kinds, c0, c2, i, apply),
{
    assert forall|k: int| 0 <= k < c0.len() && #[trigger] c2[k] != c0[k] implies {
        &&& c0[k] is None
        &&& depends_on(kinds, i, k)
        &&& computed_by(kinds, c2, k, apply)
    } by {
        if c1[k] != c0[k] {
            assert(depends_on(kinds, a, k));
            if c2[k] == c1[k] {
                assert forall|j: int| 0 <= j < c1.len() && c1[j] is Some implies #[trigger] c2[j] == c1[j] by {
                    if c2[j] != c1[j] {
                    }
                }
                lemma_computed_stable(kinds, c1, c2, alive, deps, k, apply);
            }
        } else {
            assert(depends_on(kinds, b, k));
        }
    }
}

} // verus!
