//! The arena that holds a graph's nodes, with demand-driven evaluation,
//! invalidation, and reclamation of nodes that nothing owns.
use vstd::prelude::*;

use crate::model::{
    caches_ok, computed_by, depends_on, fills_only, inputs_set, lemma_alive_cone, lemma_cached_cone,
    lemma_computed_stable, lemma_depends_range, lemma_depends_trans, lemma_fills_compose,
    lemma_last_edge, lemma_operand_edge, links_ok, live_count, operands_of, operation_at,
    owners_ok, reaches_any, uses_of, EvalError, Kind, Node, Operation,
};

verus! {

/// An arena of nodes. Nodes refer to each other by index: operand edges own
/// (they keep a node alive), dependent edges only observe.
pub struct Graph<V> {
    kinds: Vec<Kind<V>>,
    dependents: Vec<Vec<usize>>,
    caches: Vec<Option<V>>,
    labels: Vec<String>,
    alive: Vec<bool>,
    handles: Vec<usize>,
}

impl<V: Copy> Graph<V> {
    /// What each node computes, by index.
    pub closed spec fn kinds(&self) -> Seq<Kind<V>> {
        self.kinds@
    }

    /// For each node, the nodes that were built with it as an operand, once
    /// per operand slot, in the order they were built.
    pub closed spec fn dependents(&self) -> Seq<Seq<int>> {
        self.dependents@.map_values(|d: Vec<usize>| d@.map_values(|x: usize| x as int))
    }

    /// Each node's memoized value, if any.
    pub closed spec fn caches(&self) -> Seq<Option<V>> {
        self.caches@
    }

    /// Each node's diagnostic name.
    pub closed spec fn labels(&self) -> Seq<Seq<char>> {
        self.labels@.map_values(|s: String| s@)
    }

    /// Whether each node is still owned; a dead node has been reclaimed.
    pub closed spec fn alive(&self) -> Seq<bool> {
        self.alive@
    }

    /// How many handles outside the graph own each node.
    pub closed spec fn handles(&self) -> Seq<nat> {
        self.handles@.map_values(|h: usize| h as nat)
    }

    /// The number of nodes ever built, live or dead.
    pub open spec fn len(&self) -> nat {
        self.kinds().len()
    }

    /// Every per-node column has one entry per node.
    pub closed spec fn columns_agree(&self) -> bool {
        &&& self.dependents@.len() == self.kinds@.len()
        &&& self.caches@.len() == self.kinds@.len()
        &&& self.labels@.len() == self.kinds@.len()
        &&& self.alive@.len() == self.kinds@.len()
        &&& self.handles@.len() == self.kinds@.len()
    }

    /// The graph's invariant.
    pub open spec fn wf(&self) -> bool {
        &&& self.columns_agree()
        &&& links_ok(self.kinds(), self.dependents())
        &&& caches_ok(self.kinds(), self.caches(), self.alive())
        &&& owners_ok(self.dependents(), self.alive(), self.handles())
    }

    /// Everything but the caches is the same in both graphs.
    pub open spec fn same_links(&self, other: &Self) -> bool {
        &&& self.kinds() == other.kinds()
        &&& self.dependents() == other.dependents()
        &&& self.labels() == other.labels()
        &&& self.alive() == other.alive()
        &&& self.handles() == other.handles()
    }

    /// `id` names a live node of this graph.
    pub open spec fn valid(&self, id: Node) -> bool {
        id.0 < self.len() && self.alive()[id.0 as int]
    }

    /// An empty graph.
    pub fn new() -> (g: Self)
        ensures
            g.wf(),
            g.len() == 0,
    {
        Graph {
            kinds: Vec::new(),
            dependents: Vec::new(),
            caches: Vec::new(),
            labels: Vec::new(),
            alive: Vec::new(),
            handles: Vec::new(),
        }
    }

    /// Demand-driven evaluation of node `i`: a cached value is returned as it
    /// is; otherwise the operands are evaluated, left first, and the result is
    /// cached.
    pub(crate) fn compute_node<F: Fn(Operation<V>) -> V>(&mut self, i: usize, apply: &F) -> (r: Result<V, EvalError>)
        requires
            old(self).wf(),
            old(self).valid(Node(i)),
            forall|op: Operation<V>| apply.requires((op,)),
        ensures
            final(self).wf(),
            compute_post(*old(self), Node(i), *apply, r, *final(self)),
        decreases i,
    {
        if let Some(v) = self.caches[i] {
            proof {
                lemma_cached_cone(self.kinds(), self.caches(), self.alive(), i as int);
            }
            return Ok(v);
        }
        let ghost pre = *self;
        let value = match self.kinds[i] {
            Kind::Parameter => {
                assert(depends_on(pre.kinds(), i as int, i as int));
                return Err(EvalError::UnsetParameter(Node(i)));
            },
            Kind::Unary(op, a) => {
                assert(operands_of(pre.kinds()[i as int])[0] == a);
                let x = match self.compute_node(a, apply) {
                    Ok(x) => x,
                    Err(e) => {
                        proof {
                            let EvalError::UnsetParameter(p) = e;
                            assert(depends_on(pre.kinds(), i as int, p.0 as int));
                            lemma_fills_compose(pre.kinds(), pre.caches(), self.caches(), self.caches(),
                                self.alive(), self.dependents(), i as int, a as int, a as int, *apply);
                        }
                        return Err(e);
                    },
                };
                proof {
                    self.lemma_after_operands(pre, *self, *self, i as int, a as int, a as int, *apply);
                }
                apply(Operation::Unary(op, x))
            },
            Kind::Binary(op, a, b) => {
                assert(operands_of(pre.kinds()[i as int])[0] == a);
                assert(operands_of(pre.kinds()[i as int])[1] == b);
                let x = match self.compute_node(a, apply) {
                    Ok(x) => x,
                    Err(e) => {
                        proof {
                            let EvalError::UnsetParameter(p) = e;
                            assert(depends_on(pre.kinds(), i as int, p.0 as int));
                            lemma_fills_compose(pre.kinds(), pre.caches(), self.caches(), self.caches(),
                                self.alive(), self.dependents(), i as int, a as int, a as int, *apply);
                        }
                        return Err(e);
                    },
                };
                let ghost mid = *self;
                let y = match self.compute_node(b, apply) {
                    Ok(y) => y,
                    Err(e) => {
                        proof {
                            let EvalError::UnsetParameter(p) = e;
                            assert(depends_on(pre.kinds(), i as int, p.0 as int));
                            lemma_depends_range(pre.kinds(), b as int, p.0 as int);
                            assert(mid.caches()[p.0 as int] == pre.caches()[p.0 as int]);
                            lemma_fills_compose(pre.kinds(), pre.caches(), mid.caches(), self.caches(),
                                mid.alive(), mid.dependents(), i as int, a as int, b as int, *apply);
                        }
                        return Err(e);
                    },
                };
                proof {
                    self.lemma_after_operands(pre, mid, *self, i as int, a as int, b as int, *apply);
                }
                apply(Operation::Binary(op, x, y))
            },
            Kind::WithConstant(op, a, c) => {
                assert(operands_of(pre.kinds()[i as int])[0] == a);
                let x = match self.compute_node(a, apply) {
                    Ok(x) => x,
                    Err(e) => {
                        proof {
                            let EvalError::UnsetParameter(p) = e;
                            assert(depends_on(pre.kinds(), i as int, p.0 as int));
                            lemma_fills_compose(pre.kinds(), pre.caches(), self.caches(), self.caches(),
                                self.alive(), self.dependents(), i as int, a as int, a as int, *apply);
                        }
                        return Err(e);
                    },
                };
                proof {
                    self.lemma_after_operands(pre, *self, *self, i as int, a as int, a as int, *apply);
                }
                apply(Operation::Binary(op, x, c))
            },
        };
        let ghost filled = self.caches();
        self.caches.set(i, Some(value));
        proof {
            let kinds = self.kinds();
            let c = self.caches();
            assert(operation_at(kinds, c, i as int) == operation_at(kinds, filled, i as int));
            assert forall|j: int| 0 <= j < filled.len() && filled[j] is Some implies #[trigger] c[j]
                == filled[j] by {}
            assert forall|k: int| 0 <= k < pre.len() && #[trigger] c[k] != pre.caches()[k] implies {
                &&& pre.caches()[k] is None
                &&& depends_on(kinds, i as int, k)
                &&& computed_by(kinds, c, k, *apply)
            } by {
                if k != i {
                    assert(filled[k] != pre.caches()[k]);
                    lemma_computed_stable(kinds, filled, c, self.alive(), self.dependents(), k, *apply);
                }
            }
            assert forall|k: int| #[trigger] depends_on(kinds, i as int, k) implies c[k] is Some by {
                lemma_depends_range(kinds, i as int, k);
                if k != i {
                    assert(filled[k] is Some);
                }
            }
            assert forall|k: int| 0 <= k < kinds.len() && #[trigger] c[k] is Some implies self.alive()[k] by {
                if k != i {
                    assert(filled[k] is Some);
                }
            }
            assert forall|k: int, t: int|
                0 <= k < kinds.len() && 0 <= t < operands_of(kinds[k]).len() implies (c[k] is Some
                ==> c[#[trigger] operands_of(kinds[k])[t]] is Some) && (self.alive()[k]
                ==> self.alive()[operands_of(kinds[k])[t]]) by {
                let o = operands_of(kinds[k])[t];
                if k != i && c[k] is Some {
                    assert(filled[k] is Some);
                    assert(filled[o] is Some);
                }
            }
        }
        Ok(value)
    }

    /// Clears the cache of node `i` and of every live node that reaches it,
    /// walking the dependent edges. A node whose cache is already empty has
    /// only empty caches above it, so the walk stops there.
    fn invalidate(&mut self, i: usize)
        requires
            old(self).wf(),
            i < old(self).len(),
        ensures
            final(self).wf(),
            final(self).same_links(old(self)),
            forall|k: int|
                0 <= k < old(self).len() ==> #[trigger] final(self).caches()[k] == if depends_on(
                    old(self).kinds(),
                    k,
                    i as int,
                ) {
                    None
                } else {
                    old(self).caches()[k]
                },
        decreases self.kinds@.len() - i,
    {
        let ghost pre = *self;
        let ghost kinds = pre.kinds();
        if self.caches[i].is_none() {
            proof {
                assert forall|k: int| 0 <= k < pre.len() && depends_on(kinds, k, i as int) implies #[trigger] pre.caches()[k] is None by {
                    if pre.caches()[k] is Some {
                        lemma_cached_cone(kinds, pre.caches(), pre.alive(), k);
                    }
                }
            }
            return;
        }
        let n = self.dependents[i].len();
        let ghost ds = pre.dependents()[i as int];
        let mut t: usize = 0;
        while t < n
            invariant
                self.wf(),
                self.same_links(&pre),
                pre.wf(),
                i < pre.len(),
                n == ds.len(),
                ds == pre.dependents()[i as int],
                kinds == pre.kinds(),
                pre == *old(self),
                0 <= t <= n,
                forall|k: int|
                    0 <= k < pre.len() ==> #[trigger] self.caches()[k] == if reaches_any(kinds, k, ds.take(t as int)) {
                        None
                    } else {
                        pre.caches()[k]
                    },
            decreases n - t,
        {
            let d = self.dependents[i][t];
            assert(ds[t as int] == d as int);
            let ghost before = *self;
            assert(i < d < self.len());
            assert(self.kinds@.len() - d < pre.kinds@.len() - i);
            if self.alive[d] {
                self.invalidate(d);
            }
            proof {
                assert forall|k: int| 0 <= k < pre.len() implies #[trigger] self.caches()[k] == if reaches_any(kinds, k, ds.take(t + 1)) {
                    None
                } else {
                    pre.caches()[k]
                } by {
                    let r0 = reaches_any(kinds, k, ds.take(t as int));
                    if depends_on(kinds, k, d as int) {
                        assert(ds.take(t + 1)[t as int] == d as int);
                        if !before.alive()[d as int] {
                            if pre.alive()[k] {
                                lemma_alive_cone(kinds, pre.caches(), pre.alive(), k, d as int);
                            }
                            assert(pre.caches()[k] is None);
                        }
                    } else if r0 {
                        let s = choose|s: int| 0 <= s < t && #[trigger] depends_on(kinds, k, ds.take(t as int)[s] as int);
                        assert(ds.take(t + 1)[s] == ds.take(t as int)[s]);
                    } else {
                        if reaches_any(kinds, k, ds.take(t + 1)) {
                            let s = choose|s: int| 0 <= s < t + 1 && #[trigger] depends_on(kinds, k, ds.take(t + 1)[s] as int);
                            assert(ds.take(t + 1)[s] == ds.take(t as int)[s]);
                        }
                    }
                }
            }
            t = t + 1;
        }
        self.caches.set(i, None);
        proof {
            assert(ds.take(n as int) == ds);
            assert forall|k: int| 0 <= k < pre.len() implies #[trigger] self.caches()[k] == if depends_on(kinds, k, i as int) {
                None
            } else {
                pre.caches()[k]
            } by {
                if k != i {
                    if depends_on(kinds, k, i as int) {
                        let d = lemma_last_edge(kinds, k, i as int);
                        let o = choose|o: int| 0 <= o < operands_of(kinds[d]).len() && operands_of(kinds[d])[o] == i;
                        assert(operands_of(kinds[d])[o] == i);
                        assert(pre.dependents()[operands_of(kinds[d])[o]].contains(d));
                        assert(ds.contains(d));
                        let s = choose|s: int| 0 <= s < ds.len() && ds[s] == d;
                        assert(depends_on(kinds, k, ds[s]));
                    } else if reaches_any(kinds, k, ds) {
                        let s = choose|s: int| 0 <= s < ds.len() && #[trigger] depends_on(kinds, k, ds[s]);
                        assert(ds[s] > i);
                        let t2 = choose|t2: int| 0 <= t2 < operands_of(kinds[ds[s]]).len() && operands_of(kinds[ds[s]])[t2] == i;
                        assert(operands_of(kinds[ds[s]])[t2] == i);
                        lemma_operand_edge(kinds, ds[s], t2);
                        lemma_depends_trans(kinds, k, ds[s], i as int);
                    }
                }
            }
            let c = self.caches();
            assert forall|k: int| 0 <= k < kinds.len() && #[trigger] c[k] is Some implies self.alive()[k] by {
                assert(pre.caches()[k] is Some);
            }
            assert forall|k: int, t2: int|
                0 <= k < kinds.len() && 0 <= t2 < operands_of(kinds[k]).len() implies (c[k] is Some
                ==> c[#[trigger] operands_of(kinds[k])[t2]] is Some) && (self.alive()[k]
                ==> self.alive()[operands_of(kinds[k])[t2]]) by {
                let o = operands_of(kinds[k])[t2];
                if c[k] is Some {
                    assert(!depends_on(kinds, k, i as int));
                    if depends_on(kinds, o, i as int) {
                        assert(depends_on(kinds, k, o)) by {
                            assert(0 <= o < k);
                        }
                        lemma_depends_trans(kinds, k, o, i as int);
                    }
                    assert(pre.caches()[o] is Some);
                }
            }
        }
    }

    /// What holds once the operands `a` and `b` of node `i` have been
    /// evaluated, from `pre` through `mid` to `post`.
    proof fn lemma_after_operands<F: Fn(Operation<V>) -> V>(
        self,
        pre: Self,
        mid: Self,
        post: Self,
        i: int,
        a: int,
        b: int,
        apply: F,
    )
        requires
            pre.wf(),
            mid.wf(),
            post.wf(),
            mid.same_links(&pre),
            post.same_links(&mid),
            0 <= i < pre.len(),
            pre.caches()[i] is None,
            !(pre.kinds()[i] is Parameter),
            0 <= a < i,
            0 <= b < i,
            forall|k: int| depends_on(pre.kinds(), i, k) <==> (k == i || depends_on(pre.kinds(), a, k) || depends_on(pre.kinds(), b, k)),
            inputs_set(pre.kinds(), pre.caches(), a),
            inputs_set(mid.kinds(), mid.caches(), b),
            forall|k: int| #[trigger] depends_on(pre.kinds(), a, k) ==> mid.caches()[k] is Some,
            forall|k: int| #[trigger] depends_on(mid.kinds(), b, k) ==> post.caches()[k] is Some,
            fills_only(pre.kinds(), pre.caches(), mid.caches(), a, apply),
            fills_only(mid.kinds(), mid.caches(), post.caches(), b, apply),
        ensures
            inputs_set(pre.kinds(), pre.caches(), i),
            fills_only(pre.kinds(), pre.caches(), post.caches(), i, apply),
            post.caches()[i] is None,
            forall|k: int| #[trigger] depends_on(pre.kinds(), i, k) && k != i ==> post.caches()[k] is Some,
    {
        let kinds = pre.kinds();
        lemma_fills_compose(kinds, pre.caches(), mid.caches(), post.caches(), mid.alive(), mid.dependents(), i, a, b, apply);
        assert forall|p: int| #[trigger] depends_on(kinds, i, p) && kinds[p] is Parameter implies pre.caches()[p] is Some by {
            if p != i && !depends_on(kinds, a, p) {
                lemma_depends_range(kinds, b, p);
                assert(mid.caches()[p] is Some);
                if mid.caches()[p] != pre.caches()[p] {
                }
            }
        }
        assert forall|k: int| #[trigger] depends_on(kinds, i, k) && k != i implies post.caches()[k] is Some by {
            if depends_on(kinds, a, k) {
                lemma_depends_range(kinds, a, k);
                assert(mid.caches()[k] is Some);
                if post.caches()[k] != mid.caches()[k] {
                }
            }
        }
        if mid.caches()[i] != pre.caches()[i] {
            lemma_depends_range(kinds, a, i);
        }
        if post.caches()[i] != mid.caches()[i] {
            lemma_depends_range(kinds, b, i);
        }
    }

    /// The diagnostic name that node `n` was built with.
    pub fn label(&self, n: Node) -> (r: &str)
        requires
            self.wf(),
            n.0 < self.len(),
        ensures
            r@ == self.labels()[n.0 as int],
    {
        self.labels[n.0].as_str()
    }

    /// Whether `n` names a live node of this graph.
    pub fn is_alive(&self, n: Node) -> (r: bool)
        requires
            self.wf(),
        ensures
            r == self.valid(n),
    {
        n.0 < self.alive.len() && self.alive[n.0]
    }

    /// Takes one more owning handle on `n`: the copy that is returned.
    pub fn share(&mut self, n: Node) -> (r: Node)
        requires
            old(self).wf(),
            old(self).valid(n),
            old(self).handles()[n.0 as int] < usize::MAX,
        ensures
            final(self).wf(),
            r == n,
            final(self).kinds() == old(self).kinds(),
            final(self).dependents() == old(self).dependents(),
            final(self).labels() == old(self).labels(),
            final(self).alive() == old(self).alive(),
            final(self).caches() == old(self).caches(),
            final(self).handles() == old(self).handles().update(n.0 as int, old(self).handles()[n.0 as int] + 1),
    {
        let h = self.handles[n.0];
        self.handles.set(n.0, h + 1);
        proof {
            assert(self.handles() =~= old(self).handles().update(n.0 as int, old(self).handles()[n.0 as int] + 1));
            assert forall|i: int| 0 <= i < self.dependents().len() implies (#[trigger] self.alive()[i] <==> (self.handles()[i] > 0 || exists|t: int|
                0 <= t < self.dependents()[i].len() && self.alive()[#[trigger] self.dependents()[i][t]])) by {
                assert(old(self).alive()[i] == self.alive()[i]);
            }
        }
        n
    }

    /// How many owning references `n` has: the handles held on it, and one
    /// for each operand slot of a live node that it fills.
    pub fn strong_count(&self, n: Node) -> (r: usize)
        requires
            self.wf(),
            n.0 < self.len(),
            self.handles()[n.0 as int] + self.dependents()[n.0 as int].len() <= usize::MAX,
        ensures
            r == self.handles()[n.0 as int] + live_count(self.dependents()[n.0 as int], self.alive()),
    {
        let ds = &self.dependents[n.0];
        let ghost dv = self.dependents()[n.0 as int];
        let mut count: usize = 0;
        let mut t: usize = 0;
        while t < ds.len()
            invariant
                self.wf(),
                n.0 < self.len(),
                dv == self.dependents()[n.0 as int],
                dv.len() == ds.len(),
                forall|u: int| 0 <= u < ds.len() ==> dv[u] == ds@[u] as int,
                0 <= t <= ds.len(),
                count == live_count(dv.take(t as int), self.alive()),
                count <= t,
            decreases ds.len() - t,
        {
            let d = ds[t];
            assert(dv.take(t + 1).drop_last() == dv.take(t as int));
            assert(dv[t as int] == d as int);
            assert(self.dependents()[n.0 as int][t as int] < self.len());
            if self.alive[d] {
                count = count + 1;
            }
            t = t + 1;
        }
        assert(dv.take(ds.len() as int) == dv);
        self.handles[n.0] + count
    }

    /// Whether some live node uses node `i` as an operand.
    fn has_live_dependent(&self, i: usize) -> (r: bool)
        requires
            self.columns_agree(),
            links_ok(self.kinds(), self.dependents()),
            i < self.len(),
        ensures
            r == exists|t: int|
                0 <= t < self.dependents()[i as int].len() && self.alive()[#[trigger] self.dependents()[i as int][t]],
    {
        let ds = &self.dependents[i];
        let ghost dv = self.dependents()[i as int];
        let mut t: usize = 0;
        while t < ds.len()
            invariant
                self.columns_agree(),
                links_ok(self.kinds(), self.dependents()),
                i < self.len(),
                dv == self.dependents()[i as int],
                dv.len() == ds.len(),
                forall|u: int| 0 <= u < ds.len() ==> dv[u] == ds@[u] as int,
                0 <= t <= ds.len(),
                forall|u: int| 0 <= u < t ==> !self.alive()[#[trigger] dv[u]],
            decreases ds.len() - t,
        {
            let d = ds[t];
            assert(dv[t as int] == d as int);
            assert(dv[t as int] < self.len());
            if self.alive[d] {
                return true;
            }
            t = t + 1;
        }
        false
    }

    /// Gives back one owning handle on `n`. Every node that is left with no
    /// handle and no live dependent is reclaimed: it is marked dead and its
    /// cache is dropped, which in turn may leave its operands unowned.
    pub fn release(&mut self, n: Node)
        requires
            old(self).wf(),
            old(self).valid(n),
            old(self).handles()[n.0 as int] > 0,
        ensures
            final(self).wf(),
            release_post(*old(self), n, *final(self)),
    {
        let ghost pre = *self;
        let i = n.0;
        let h = self.handles[i];
        self.handles.set(i, h - 1);
        proof {
            assert(self.handles() =~= pre.handles().update(i as int, (pre.handles()[i as int] - 1) as nat));
        }
        let mut t: usize = self.kinds.len();
        while t > 0
            invariant
                pre.wf(),
                pre == *old(self),
                i < pre.len(),
                pre.alive()[i as int],
                0 <= t <= pre.len(),
                self.columns_agree(),
                self.kinds() == pre.kinds(),
                self.dependents() == pre.dependents(),
                self.labels() == pre.labels(),
                self.handles() == pre.handles().update(i as int, (pre.handles()[i as int] - 1) as nat),
                caches_ok(self.kinds(), self.caches(), self.alive()),
                forall|k: int| 0 <= k < t ==> #[trigger] self.alive()[k] == pre.alive()[k],
                forall|k: int|
                    0 <= k < pre.len() && #[trigger] self.alive()[k] ==> pre.alive()[k] && self.caches()[k]
                        == pre.caches()[k],
                forall|k: int|
                    t <= k < pre.len() ==> (#[trigger] self.alive()[k] <==> (self.handles()[k] > 0 || exists|u: int|
                        0 <= u < self.dependents()[k].len() && self.alive()[#[trigger] self.dependents()[k][u]])),
            decreases t,
        {
            t = t - 1;
            let ghost before = *self;
            if self.alive[t] && self.handles[t] == 0 && !self.has_live_dependent(t) {
                self.alive.set(t, false);
                self.caches.set(t, None);
            }
            proof {
                let kinds = self.kinds();
                let deps = self.dependents();
                assert forall|k: int|
                    t <= k < pre.len() implies (#[trigger] self.alive()[k] <==> (self.handles()[k] > 0 || exists|u: int|
                    0 <= u < deps[k].len() && self.alive()[#[trigger] deps[k][u]])) by {
                    assert forall|u: int| 0 <= u < deps[k].len() implies self.alive()[#[trigger] deps[k][u]] == before.alive()[deps[k][u]] by {
                        assert(deps[k][u] > k);
                    }
                    if k > t {
                        assert(before.alive()[k] == self.alive()[k]);
                    } else if !before.alive()[k] {
                        assert(!pre.alive()[k]);
                        assert(pre.alive()[i as int]);
                        assert(self.handles()[k] == pre.handles()[k]);
                        if exists|u: int| 0 <= u < deps[k].len() && self.alive()[#[trigger] deps[k][u]] {
                            let u = choose|u: int| 0 <= u < deps[k].len() && self.alive()[#[trigger] deps[k][u]];
                            assert(deps[k][u] < pre.len());
                            assert(pre.alive()[deps[k][u]]);
                        }
                    }
                }
                assert forall|k: int| 0 <= k < kinds.len() && (#[trigger] self.caches()[k]) is Some implies self.alive()[k] by {
                    if k != t {
                        assert(before.caches()[k] is Some);
                    }
                }
                assert forall|k: int, u: int|
                    0 <= k < kinds.len() && 0 <= u < operands_of(kinds[k]).len() implies (self.caches()[k] is Some
                    ==> self.caches()[#[trigger] operands_of(kinds[k])[u]] is Some) && (self.alive()[k]
                    ==> self.alive()[operands_of(kinds[k])[u]]) by {
                    let o = operands_of(kinds[k])[u];
                    if o == t && !self.alive()[t as int] && before.alive()[t as int] {
                        assert(deps[o].contains(k));
                        let w = choose|w: int| 0 <= w < deps[o].len() && deps[o][w] == k;
                        assert(!before.alive()[deps[o][w]]);
                        assert(before.caches()[k] is Some ==> before.alive()[k]);
                    }
                    if k == t && before.caches()[k] is Some {
                        assert(before.caches()[o] is Some);
                    }
                }
            }
        }
    }

    /// Sets the value of parameter `i` after invalidating everything that
    /// depends on it; on any other kind of node this does nothing.
    pub(crate) fn set_value(&mut self, i: usize, value: V)
        requires
            old(self).wf(),
            old(self).valid(Node(i)),
        ensures
            final(self).wf(),
            set_post(*old(self), Node(i), value, *final(self)),
    {
        if let Kind::Parameter = self.kinds[i] {
            self.invalidate(i);
            proof {
                assert(depends_on(self.kinds(), i as int, i as int));
            }
            self.caches.set(i, Some(value));
            proof {
                let c = self.caches();
                assert forall|k: int| 0 <= k < self.len() && #[trigger] c[k] is Some implies self.alive()[k] by {
                    if k != i {
                    }
                }
                assert forall|k: int, t: int|
                    0 <= k < self.len() && 0 <= t < operands_of(self.kinds()[k]).len() implies (c[k] is Some
                    ==> c[#[trigger] operands_of(self.kinds()[k])[t]] is Some) && (self.alive()[k]
                    ==> self.alive()[operands_of(self.kinds()[k])[t]]) by {
                    let o = operands_of(self.kinds()[k])[t];
                    if k != i && c[k] is Some && o == i {
                        lemma_operand_edge(self.kinds(), k, t);
                    }
                }
            }
        }
    }

    /// Appends a node and registers it as a dependent of each of its operands.
    #[verifier::rlimit(30)]
    pub(crate) fn add_node(&mut self, label: &str, kind: Kind<V>) -> (id: Node)
        requires
            old(self).wf(),
            old(self).len() < usize::MAX,
            forall|t: int|
                0 <= t < operands_of(kind).len() ==> old(self).valid(
                    Node(#[trigger] operands_of(kind)[t] as usize),
                ),
        ensures
            final(self).wf(),
            appended(*old(self), *final(self), kind, label@, id),
    {
        let id = self.kinds.len();
        self.kinds.push(kind);
        self.dependents.push(Vec::new());
        self.caches.push(None);
        self.labels.push(label.to_string());
        self.alive.push(true);
        self.handles.push(1);
        match kind {
            Kind::Parameter => {},
            Kind::Unary(_, a) => {
                assert(operands_of(kind)[0] == a);
                self.dependents[a].push(id);
            },
            Kind::Binary(_, a, b) => {
                assert(operands_of(kind)[0] == a);
                assert(operands_of(kind)[1] == b);
                self.dependents[a].push(id);
                self.dependents[b].push(id);
            },
            Kind::WithConstant(_, a, _) => {
                assert(operands_of(kind)[0] == a);
                self.dependents[a].push(id);
            },
        }
        proof {
            let k = self.kinds();
            let d = self.dependents();
            let pre = old(self).dependents();
            assert(self.kinds() == old(self).kinds().push(kind));
            assert(self.caches() == old(self).caches().push(None));
            assert(self.labels() =~= old(self).labels().push(label@));
            assert(self.alive() == old(self).alive().push(true));
            assert(self.handles() =~= old(self).handles().push(1));
            assert(d[id as int] =~= Seq::<int>::empty());
            assert forall|i: int| 0 <= i < old(self).len() implies #[trigger] d[i] == pre[i] + Seq::new(
                uses_of(kind, i),
                |_t: int| id as int,
            ) by {
                assert(d[i] =~= pre[i] + Seq::new(uses_of(kind, i), |_t: int| id as int));
            }
            assert forall|i: int, t: int|
                0 <= i < k.len() && 0 <= t < operands_of(k[i]).len() implies 0
                <= #[trigger] operands_of(k[i])[t] < i && d[operands_of(k[i])[t]].contains(
                i,
            ) by {
                let o = operands_of(k[i])[t];
                if i == id {
                    assert(uses_of(kind, o) > 0);
                    assert(d[o][pre[o].len() as int] == id);
                } else {
                    let u = choose|u: int| 0 <= u < pre[o].len() && pre[o][u] == i;
                    assert(d[o][u] == i);
                }
            }
            assert forall|i: int, t: int|
                0 <= i < k.len() && 0 <= t < d[i].len() implies i < #[trigger] d[i][t] < k.len()
                && operands_of(k[d[i][t] as int]).contains(i) by {
                if i < id && t >= pre[i].len() {
                    assert(d[i][t] == id);
                    assert(uses_of(kind, i) > 0);
                    if operands_of(kind)[0] == i {
                    } else {
                        assert(operands_of(kind)[1] == i);
                    }
                } else if i < id {
                    assert(d[i][t] == pre[i][t]);
                }
            }
            assert forall|i: int| 0 <= i < k.len() implies #[trigger] self.alive()[i] <==> (
            self.handles()[i] > 0 || exists|t: int|
                0 <= t < d[i].len() && self.alive()[#[trigger] d[i][t] as int]) by {
                if i < id {
                    if old(self).handles()[i] == 0 && old(self).alive()[i] {
                        let t = choose|t: int|
                            0 <= t < pre[i].len() && old(self).alive()[#[trigger] pre[i][t] as int];
                        assert(d[i][t] == pre[i][t]);
                    }
                    if exists|t: int| 0 <= t < d[i].len() && self.alive()[#[trigger] d[i][t] as int] {
                        let t = choose|t: int| 0 <= t < d[i].len() && self.alive()[#[trigger] d[i][t] as int];
                        if t < pre[i].len() {
                            assert(d[i][t] == pre[i][t]);
                        } else {
                            assert(d[i][t] == id);
                            assert(uses_of(kind, i) > 0);
                        }
                    }
                }
            }
        }
        Node(id)
    }
}

/// What `set(n, value)` does: on a parameter, `n` holds `value` and every
/// other node that reaches `n` loses its cached value; other caches, and the
/// whole graph when `n` is not a parameter, stay as they were.
pub open spec fn set_post<V: Copy>(before: Graph<V>, n: Node, value: V, after: Graph<V>) -> bool {
    &&& after.same_links(&before)
    &&& after.caches().len() == before.caches().len()
    &&& if before.kinds()[n.0 as int] is Parameter {
        forall|k: int|
            0 <= k < before.len() ==> #[trigger] after.caches()[k] == if k == n.0 {
                Some(value)
            } else if depends_on(before.kinds(), k, n.0 as int) {
                None
            } else {
                before.caches()[k]
            }
    } else {
        after.caches() == before.caches()
    }
}

/// What `compute(n)` does, with `apply` giving the operators' results. It
/// succeeds exactly when every parameter below `n` holds a value, and then
/// returns the value cached at `n`, every node below `n` being cached. A
/// cached value is returned with nothing changed. A failure names a parameter
/// below `n` that holds no value. Either way the only caches that change are
/// empty caches below `n`, each filled by one application of `apply`.
pub open spec fn compute_post<V: Copy, F: Fn(Operation<V>) -> V>(
    before: Graph<V>,
    n: Node,
    apply: F,
    r: Result<V, EvalError>,
    after: Graph<V>,
) -> bool {
    let i = n.0 as int;
    &&& after.same_links(&before)
    &&& (r is Ok <==> inputs_set(before.kinds(), before.caches(), i))
    &&& (r matches Ok(v) ==> after.caches()[i] == Some(v))
    &&& (r matches Ok(_) ==> forall|k: int|
        #[trigger] depends_on(before.kinds(), i, k) ==> after.caches()[k] is Some)
    &&& (before.caches()[i] matches Some(v) ==> r == Ok::<V, EvalError>(v) && after.caches()
        == before.caches())
    &&& (r matches Err(EvalError::UnsetParameter(p)) ==> {
        &&& depends_on(before.kinds(), i, p.0 as int)
        &&& before.kinds()[p.0 as int] is Parameter
        &&& before.caches()[p.0 as int] is None
    })
    &&& fills_only(before.kinds(), before.caches(), after.caches(), i, apply)
}

/// `after` is `before` with node `n` appended: of the given kind and label,
/// alive, with one handle, no cache and no dependents, and registered as a
/// dependent once for each operand slot that it fills.
pub open spec fn appended<V: Copy>(before: Graph<V>, after: Graph<V>, kind: Kind<V>, label: Seq<char>, n: Node) -> bool {
    &&& n.0 == before.len()
    &&& after.kinds() == before.kinds().push(kind)
    &&& after.caches() == before.caches().push(None)
    &&& after.labels() == before.labels().push(label)
    &&& after.alive() == before.alive().push(true)
    &&& after.handles() == before.handles().push(1)
    &&& after.dependents().len() == before.len() + 1
    &&& after.dependents()[n.0 as int] == Seq::<int>::empty()
    &&& forall|i: int|
        0 <= i < before.len() ==> #[trigger] after.dependents()[i] == before.dependents()[i]
            + Seq::new(uses_of(kind, i), |_t: int| n.0 as int)
}

/// What `release(n)` does: `n` has one handle less; nodes only die, never
/// come back, and the caches of live nodes stay. Which nodes die is fixed by
/// the graph's invariant: exactly those left with no handle and no live
/// dependent.
pub open spec fn release_post<V: Copy>(before: Graph<V>, n: Node, after: Graph<V>) -> bool {
    &&& after.kinds() == before.kinds()
    &&& after.dependents() == before.dependents()
    &&& after.labels() == before.labels()
    &&& after.handles() == before.handles().update(n.0 as int, (before.handles()[n.0 as int] - 1) as nat)
    &&& forall|k: int|
        0 <= k < before.len() && #[trigger] after.alive()[k] ==> before.alive()[k] && after.caches()[k]
            == before.caches()[k]
}

} // verus!
