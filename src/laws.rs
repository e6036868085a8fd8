//! Properties that relate several operations on a graph.
use vstd::prelude::*;

use crate::graph::{compute_post, release_post, set_post, Graph};
use crate::model::{
    computed_by, depends_on, inputs_set, lemma_depends_range, lemma_operand_edge, live_count,
    operands_of, BinaryOp, EvalError, Kind, Node, Operation,
};

verus! {

/// Computing a node twice with no `set` in between gives the same result,
/// and the second computation changes nothing: it is answered from the cache.
pub proof fn lemma_compute_twice<S: Copy, F: Fn(Operation<S>) -> S>(
    g0: Graph<S>,
    g1: Graph<S>,
    g2: Graph<S>,
    n: Node,
    apply: F,
    r1: Result<S, EvalError>,
    r2: Result<S, EvalError>,
)
    requires
        g0.wf(),
        g0.valid(n),
        compute_post(g0, n, apply, r1, g1),
        compute_post(g1, n, apply, r2, g2),
    ensures
        r1 is Ok ==> r2 == r1 && g2.caches() == g1.caches(),
        r1 is Err ==> r2 is Err,
{
    if r1 is Err {
        let EvalError::UnsetParameter(p) = r1->Err_0;
        let i = p.0 as int;
        lemma_depends_range(g0.kinds(), n.0 as int, i);
        if g1.caches()[i] != g0.caches()[i] {
            assert(computed_by(g0.kinds(), g1.caches(), i, apply));
        }
        assert(depends_on(g1.kinds(), n.0 as int, i));
        assert(!inputs_set(g1.kinds(), g1.caches(), n.0 as int));
    }
}

/// After `set(p, v)` on a parameter `p`, computing any node `n` that reaches
/// `p` finds `v` at `p`, and on success every node between `n` and `p` holds a
/// value freshly computed by `apply` from its operands, whatever it held before
/// the `set`.
pub proof fn lemma_set_then_compute<S: Copy, F: Fn(Operation<S>) -> S>(
    g0: Graph<S>,
    g1: Graph<S>,
    g2: Graph<S>,
    p: Node,
    v: S,
    n: Node,
    apply: F,
    r: Result<S, EvalError>,
)
    requires
        g0.wf(),
        g0.valid(p),
        g0.valid(n),
        g0.kinds()[p.0 as int] is Parameter,
        depends_on(g0.kinds(), n.0 as int, p.0 as int),
        set_post(g0, p, v, g1),
        compute_post(g1, n, apply, r, g2),
    ensures
        g1.caches()[n.0 as int] is None || n == p,
        g2.caches()[p.0 as int] == Some(v),
        r is Ok ==> forall|k: int|
            depends_on(g0.kinds(), n.0 as int, k) && #[trigger] depends_on(g0.kinds(), k, p.0 as int)
                && k != p.0 ==> g1.caches()[k] is None && computed_by(g0.kinds(), g2.caches(), k, apply),
{
    let i = p.0 as int;
    assert(g1.caches()[i] == Some(v));
    assert(g1.caches()[n.0 as int] == if n.0 == p.0 {
        Some(v)
    } else {
        None::<S>
    });
    if g2.caches()[i] != g1.caches()[i] {
    }
    if r is Ok {
        assert forall|k: int|
            depends_on(g0.kinds(), n.0 as int, k) && #[trigger] depends_on(g0.kinds(), k, i) && k
                != p.0 implies g1.caches()[k] is None && computed_by(g0.kinds(), g2.caches(), k, apply) by {
            lemma_depends_range(g0.kinds(), k, i);
            assert(g1.caches()[k] is None);
            assert(g2.caches()[k] is Some);
            assert(g2.caches()[k] != g1.caches()[k]);
        }
    }
}

/// A node that uses the same node `x` in both operand slots reads one cached
/// value for both: once computed, its value is what `apply` gives on the value
/// of `x` taken twice.
pub proof fn lemma_shared_operand<S: Copy, F: Fn(Operation<S>) -> S>(
    g0: Graph<S>,
    g1: Graph<S>,
    n: Node,
    x: Node,
    op: BinaryOp,
    apply: F,
    r: Result<S, EvalError>,
)
    requires
        g0.wf(),
        g0.valid(n),
        g0.kinds()[n.0 as int] == Kind::<S>::Binary(op, x.0, x.0),
        g0.caches()[n.0 as int] is None,
        compute_post(g0, n, apply, r, g1),
        r is Ok,
    ensures
        g1.caches()[x.0 as int] is Some,
        apply.ensures(
            (Operation::Binary(op, g1.caches()[x.0 as int]->Some_0, g1.caches()[x.0 as int]->Some_0),),
            r->Ok_0,
        ),
{
    let i = n.0 as int;
    assert(operands_of(g0.kinds()[i])[0] == x.0);
    lemma_operand_edge(g0.kinds(), i, 0);
    assert(g1.caches()[i] != g0.caches()[i]);
    assert(computed_by(g0.kinds(), g1.caches(), i, apply));
}

/// A node is alive exactly while it has an owning reference: a handle, or a
/// live node that uses it as an operand. So once every owning reference is
/// gone the node is reclaimed.
pub proof fn lemma_alive_iff_owned<S: Copy>(g: Graph<S>, n: Node)
    requires
        g.wf(),
        n.0 < g.len(),
    ensures
        g.alive()[n.0 as int] <==> g.handles()[n.0 as int] + live_count(g.dependents()[n.0 as int], g.alive()) > 0,
{
    lemma_live_count_positive(g.dependents()[n.0 as int], g.alive());
}

/// `live_count` is positive exactly when some entry is alive.
pub proof fn lemma_live_count_positive(ds: Seq<int>, alive: Seq<bool>)
    ensures
        live_count(ds, alive) > 0 <==> exists|t: int| 0 <= t < ds.len() && alive[#[trigger] ds[t]],
    decreases ds.len(),
{
    if ds.len() > 0 {
        lemma_live_count_positive(ds.drop_last(), alive);
        if exists|t: int| 0 <= t < ds.len() && alive[#[trigger] ds[t]] {
            let t = choose|t: int| 0 <= t < ds.len() && alive[#[trigger] ds[t]];
            if t < ds.len() - 1 {
                assert(ds.drop_last()[t] == ds[t]);
            }
        }
        if exists|t: int| 0 <= t < ds.drop_last().len() && alive[#[trigger] ds.drop_last()[t]] {
            let t = choose|t: int| 0 <= t < ds.drop_last().len() && alive[#[trigger] ds.drop_last()[t]];
            assert(ds[t] == ds.drop_last()[t]);
        }
    }
}

/// A reclaimed node stays out of the way: a later `set` on any parameter
/// leaves it dead and without a cached value, though the parameter may still
/// list it as a dependent.
pub proof fn lemma_release_then_set<S: Copy>(
    g0: Graph<S>,
    g1: Graph<S>,
    g2: Graph<S>,
    n: Node,
    p: Node,
    v: S,
)
    requires
        g0.wf(),
        g0.valid(n),
        g0.handles()[n.0 as int] == 1,
        live_count(g0.dependents()[n.0 as int], g0.alive()) == 0,
        release_post(g0, n, g1),
        g1.wf(),
        g1.valid(p),
        set_post(g1, p, v, g2),
    ensures
        !g1.alive()[n.0 as int],
        !g2.alive()[n.0 as int],
        g2.caches()[n.0 as int] is None,
{
    let i = n.0 as int;
    lemma_live_count_positive(g0.dependents()[i], g0.alive());
    assert forall|t: int| 0 <= t < g1.dependents()[i].len() implies !g1.alive()[#[trigger] g1.dependents()[i][t]] by {
        let d = g1.dependents()[i][t];
        assert(g0.dependents()[i][t] == d);
        assert(d < g0.len());
    }
    assert(g1.handles()[i] == 0);
    assert(!g1.alive()[i]);
    assert(g1.caches()[i] is None);
    if p.0 as int != i {
        if g0.kinds()[p.0 as int] is Parameter {
            assert(g2.caches()[i] == if depends_on(g1.kinds(), i, p.0 as int) {
                None::<S>
            } else {
                g1.caches()[i]
            });
        }
    }
}

} // verus!
