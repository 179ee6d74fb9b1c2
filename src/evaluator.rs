//! The evaluator: recomputes the absent slots that a requested value rests
//! on, in an order that petgraph computes, and memoizes them.
use vstd::prelude::*;
use crate::modifier::ModifierValue;
use crate::topo::{is_topological_order, topological_order};
use crate::store::{
    is_upstream_chain, upstream_of,
    Attribute, AttributeGraph, AttributeNode, ModifierNode, Node, agree_on, attribute_formula,
    consistent_at, is_derived, lemma_formula_agree, node_at, node_wf, pending, preds, refs,
    resolved, same_but_slot,
};

verus! {

/// Why an evaluation could not complete.
#[derive(Clone, Copy, Debug, PartialEq, Eq, Structural)]
pub enum EvalError {
    /// The attributes to recompute depend on one another in a cycle.
    Cycle,
}

impl AttributeGraph {
    /// Computes the absent slot of `w` from slots that are all present.
    pub(crate) fn fill(&mut self, w: usize)
        requires
            old(self).wf(),
            w < old(self).nodes@.len(),
            pending(old(self).nodes@, w),
            forall|k: int|
                0 <= k < preds(old(self).nodes@[w as int]).len() ==> !pending(
                    old(self).nodes@,
                    #[trigger] preds(old(self).nodes@[w as int])[k],
                ),
        ensures
            final(self).wf(),
            old(self).filled_from(final(self)),
            !pending(final(self).nodes@, w),
            forall|i: usize| i != w ==> #[trigger] node_at(final(self).nodes@, i) == node_at(
                old(self).nodes@,
                i,
            ),
    {
        let ghost n0 = self.nodes@;
        let mut av: i64 = 0;
        let mut mv = ModifierValue { ratio: 0, delta: 0 };
        match &self.nodes[w] {
            Node::Attribute(a) => {
                av = self.attribute_value_of(a);
            },
            Node::Modifier(m) => {
                match &m.dynamic {
                    Some(d) => {
                        mv = crate::modifier::calculate_dynamic_modifier_value(
                            d,
                            self.get_value(d.source),
                        );
                    },
                    None => {},
                }
            },
            Node::Vacant => {},
        }
        let mut taken = Node::Vacant;
        std::mem::swap(&mut self.nodes[w], &mut taken);
        let filled = match taken {
            Node::Attribute(a) => Node::Attribute(
                AttributeNode { kind: a.kind, value: Some(av), modifiers: a.modifiers },
            ),
            Node::Modifier(m) => Node::Modifier(
                ModifierNode { target: m.target, value: Some(mv), dynamic: m.dynamic },
            ),
            Node::Vacant => Node::Vacant,
        };
        self.nodes.set(w, filled);
        proof {
            let n1 = self.nodes@;
            assert(n1 == n0.update(w as int, filled));
            assert forall|i: usize| i != w implies #[trigger] node_at(n1, i) == node_at(n0, i) by {}
            let pw = preds(n0[w as int]);
            assert(preds(n1[w as int]) == pw);
            assert(agree_on(n0, n1, pw)) by {
                assert forall|k: int| 0 <= k < pw.len() implies node_at(n0, #[trigger] pw[k])
                    == node_at(n1, pw[k]) by {
                    assert(!pending(n0, pw[k]));
                    assert(pw[k] != w);
                }
            }
            lemma_formula_agree(n0, n1, n0[w as int]);
            assert forall|y: usize| #[trigger] consistent_at(n1, y) by {
                assert(consistent_at(n0, y));
                if y == w {
                    lemma_formula_agree(n0, n1, n1[w as int]);
                } else if is_derived(node_at(n0, y)) && !pending(n0, y) {
                    let py = preds(node_at(n0, y));
                    assert(agree_on(n0, n1, py)) by {
                        assert forall|k: int| 0 <= k < py.len() implies node_at(
                            n0,
                            #[trigger] py[k],
                        ) == node_at(n1, py[k]) by {
                            assert(!pending(n0, py[k]));
                        }
                    }
                    lemma_formula_agree(n0, n1, node_at(n0, y));
                }
            }
            assert forall|x: int| 0 <= x < n1.len() implies #[trigger] node_wf(n1, x) by {
                assert(node_wf(n0, x));
                assert(same_but_slot(n0[x], n1[x]));
                match n1[x] {
                    Node::Attribute(a) => {
                        assert forall|k: int| 0 <= k < a.modifiers@.len() implies {
                            let m = #[trigger] a.modifiers@[k];
                            m < n1.len() && n1[m as int] is Modifier
                                && n1[m as int]->Modifier_0.target == x
                        } by {
                            let m = a.modifiers@[k];
                            assert(n0[x]->Attribute_0.modifiers@[k] == m);
                            assert(same_but_slot(n0[m as int], n1[m as int]));
                        }
                    },
                    _ => {},
                }
            }
            assert forall|x: usize, p: usize| x < n1.len() && p < n1.len() implies
                #[trigger] self.index.count(x as int, p) == refs(n1[x as int], p) by {
                assert(refs(n1[x as int], p) == refs(n0[x as int], p));
            }
        }
    }
}

/// Some edge of `edges` leads from the working-set entry holding `p` to the
/// entry `w`.
pub open spec fn covered(work: Seq<usize>, edges: Seq<(usize, usize)>, w: int, p: usize) -> bool {
    exists|e: int|
        0 <= e < edges.len() && #[trigger] edges[e].1 == w && edges[e].0 < work.len() && work[edges[e].0 as int] == p
}

/// Every absent slot that the entries of `work` before `upto` read from is
/// itself an entry, linked to the reader by an edge.
pub open spec fn closed_upto(
    g: Seq<Node>,
    work: Seq<usize>,
    edges: Seq<(usize, usize)>,
    upto: int,
) -> bool {
    forall|w: int, k: int|
        0 <= w < upto && 0 <= k < preds(g[work[w] as int]).len() && pending(
            g,
            #[trigger] preds(g[work[w] as int])[k],
        ) ==> covered(work, edges, w, preds(g[work[w] as int])[k])
}

/// A working set: distinct ids of absent slots, with edges between entries.
pub open spec fn working_set(g: Seq<Node>, work: Seq<usize>, edges: Seq<(usize, usize)>) -> bool {
    &&& work.no_duplicates()
    &&& forall|w: int| 0 <= w < work.len() ==> #[trigger] work[w] < g.len() && pending(g, work[w])
    &&& forall|e: int|
        0 <= e < edges.len() ==> (#[trigger] edges[e]).0 < work.len() && edges[e].1 < work.len()
}

pub(crate) proof fn lemma_closed_grow(
    g: Seq<Node>,
    work: Seq<usize>,
    edges: Seq<(usize, usize)>,
    work2: Seq<usize>,
    edges2: Seq<(usize, usize)>,
    upto: int,
)
    requires
        closed_upto(g, work, edges, upto),
        upto <= work.len(),
        work.len() <= work2.len(),
        edges.len() <= edges2.len(),
        forall|j: int| 0 <= j < work.len() ==> work2[j] == work[j],
        forall|e: int| 0 <= e < edges.len() ==> edges2[e] == edges[e],
    ensures
        closed_upto(g, work2, edges2, upto),
{
    assert forall|w: int, k: int|
        0 <= w < upto && 0 <= k < preds(g[work2[w] as int]).len() && pending(
            g,
            #[trigger] preds(g[work2[w] as int])[k],
        ) implies covered(work2, edges2, w, preds(g[work2[w] as int])[k]) by {
        assert(work2[w] == work[w]);
        let p = preds(g[work[w] as int])[k];
        assert(covered(work, edges, w, p));
        let e = choose|e: int|
            0 <= e < edges.len() && #[trigger] edges[e].1 == w && edges[e].0 < work.len()
                && work[edges[e].0 as int] == p;
        assert(edges2[e] == edges[e]);
    }
}

impl AttributeGraph {
    /// What a fetch of `x` that turned `self` into `after` and returned `r`
    /// guarantees: only absent slots were filled, and only those in the
    /// absent upstream of `x`; a present slot of `x` is returned as it is,
    /// with no change; on success the slot of `x` is present and returned,
    /// and the whole absent upstream of `x` is filled; it admits a ranking,
    /// that is, it holds no cycle. An error comes exactly when it holds one,
    /// and then nothing changed.
    pub open spec fn fetched(
        &self,
        after: &AttributeGraph,
        x: usize,
        r: Result<Option<i64>, EvalError>,
    ) -> bool {
        &&& self.filled_from(after)
        &&& (!pending(self.nodes@, x) ==> *after == *self && r == Ok::<Option<i64>, EvalError>(
            resolved(self.nodes@, x),
        ))
        &&& match r {
            Ok(v) => v == resolved(after.nodes@, x) && !pending(after.nodes@, x),
            Err(_) => *after == *self,
        }
        &&& (r is Err ==> cyclic_upstream(self.nodes@, x))
        &&& (r is Ok && pending(self.nodes@, x) ==> exists|s: Set<usize>, rank: spec_fn(usize) -> nat|
            #![trigger upstream_closed(self.nodes@, s, x), ranked_on(self.nodes@, s, rank)]
            upstream_closed(self.nodes@, s, x) && ranked_on(self.nodes@, s, rank) && forall|v: usize|
                #[trigger] s.contains(v) ==> !pending(after.nodes@, v) && rank(v) < self.nodes@.len())
        &&& forall|i: usize|
            pending(self.nodes@, i) && !pending(after.nodes@, i) ==> #[trigger] upstream_of(
                self.nodes@,
                x,
                i,
            )
        &&& forall|i: usize, s: Set<usize>|
            #![trigger upstream_closed(self.nodes@, s, x), pending(after.nodes@, i)]
            pending(self.nodes@, i) && !pending(after.nodes@, i) && upstream_closed(
                self.nodes@,
                s,
                x,
            ) ==> s.contains(i)
        &&& ((forall|k: int|
            0 <= k < preds(node_at(self.nodes@, x)).len() ==> !pending(
                self.nodes@,
                #[trigger] preds(node_at(self.nodes@, x))[k],
            )) ==> r is Ok)
    }

    /// Returns the current value of attribute `x`, recomputing the absent
    /// slots it rests on and memoizing them. A present slot is returned as
    /// it is, and nothing changes. `Ok(None)`: `x` is no attribute (or a
    /// modifier, whose pair is then derived). Every absent slot that `x`
    /// rests on is computed and stored, and no other. `Err(Cycle)` comes
    /// exactly when those absent slots read one another in a cycle, and then
    /// nothing changes.
    pub fn fetch_value(&mut self, x: usize) -> (r: Result<Option<i64>, EvalError>)
        requires
            old(self).wf(),
        ensures
            final(self).wf(),
            old(self).fetched(final(self), x, r),
    {
        if !self.is_pending(x) {
            return Ok(self.get_value(x));
        }
        let xs = self.preds_vec(x);
        let mut ready = true;
        let mut k: usize = 0;
        while k < xs.len()
            invariant
                k <= xs@.len(),
                ready == forall|k2: int| 0 <= k2 < k ==> !pending(self.nodes@, #[trigger] xs@[k2]),
            decreases xs.len() - k,
        {
            if self.is_pending(xs[k]) {
                ready = false;
            }
            k = k + 1;
        }
        if ready {
            let ghost g0 = self.nodes@;
            self.fill(x);
            proof {
                let s0 = set![x];
                let rank0 = |v: usize| 0nat;
                assert(upstream_closed(g0, s0, x));
                assert(ranked_on(g0, s0, rank0));
                assert(is_upstream_chain(g0, seq![x], x, x));
                assert forall|i: usize| pending(g0, i) && !pending(self.nodes@, i) implies #[trigger] upstream_of(
                    g0,
                    x,
                    i,
                ) by {
                    if i != x {
                        assert(node_at(self.nodes@, i) == node_at(g0, i));
                    }
                }
                assert forall|i: usize, s: Set<usize>|
                    #![trigger upstream_closed(g0, s, x), pending(self.nodes@, i)]
                    pending(g0, i) && !pending(self.nodes@, i) && upstream_closed(g0, s, x)
                        implies s.contains(i) by {
                    if i != x {
                        assert(node_at(self.nodes@, i) == node_at(g0, i));
                    }
                }
            }
            return Ok(self.get_value(x));
        }
        let ghost g = self.nodes@;
        let mut work: Vec<usize> = Vec::new();
        work.push(x);
        proof {
            assert(is_upstream_chain(g, seq![x], x, x));
            assert(upstream_of(g, x, work@[0]));
        }
        let mut edges: Vec<(usize, usize)> = Vec::new();
        let mut i: usize = 0;
        while i < work.len()
            invariant
                *self == *old(self),
                self.nodes@ == g,
                self.wf(),
                1 <= work@.len() <= g.len(),
                forall|w: int| 0 <= w < work@.len() ==> #[trigger] upstream_of(g, x, work@[w]),
                work@[0] == x,
                i <= work@.len(),
                working_set(g, work@, edges@),
                edges_read(g, work@, edges@),
                closed_upto(g, work@, edges@, i as int),
                xs@ == preds(node_at(g, x)),
                !forall|k2: int| 0 <= k2 < xs@.len() ==> !pending(g, #[trigger] xs@[k2]),
                forall|s: Set<usize>| #[trigger]
                    upstream_closed(g, s, x) ==> forall|w: int|
                        0 <= w < work@.len() ==> s.contains(#[trigger] work@[w]),
            decreases g.len() - i,
        {
            let w = work[i];
            let ps = self.preds_vec(w);
            let mut k: usize = 0;
            while k < ps.len()
                invariant
                    *self == *old(self),
                    self.nodes@ == g,
                    self.wf(),
                    1 <= work@.len() <= g.len(),
                    forall|w: int| 0 <= w < work@.len() ==> #[trigger] upstream_of(g, x, work@[w]),
                    work@[0] == x,
                    i < work@.len(),
                    work@[i as int] == w,
                    ps@ == preds(g[w as int]),
                    k <= ps@.len(),
                        working_set(g, work@, edges@),
                    edges_read(g, work@, edges@),
                    closed_upto(g, work@, edges@, i as int),
                    xs@ == preds(node_at(g, x)),
                    !forall|k2: int| 0 <= k2 < xs@.len() ==> !pending(g, #[trigger] xs@[k2]),
                    forall|s: Set<usize>| #[trigger]
                        upstream_closed(g, s, x) ==> forall|w: int|
                            0 <= w < work@.len() ==> s.contains(#[trigger] work@[w]),
                    forall|k2: int|
                        0 <= k2 < k && pending(g, #[trigger] ps@[k2]) ==> covered(
                            work@,
                            edges@,
                            i as int,
                            ps@[k2],
                        ),
                decreases ps.len() - k,
            {
                let p = ps[k];
                if self.is_pending(p) {
                    let ghost work0 = work@;
                    let ghost edges0 = edges@;
                    let j: usize = match crate::dependency::find_index(&work, p) {
                        Some(j) => j,
                        None => {
                            work.push(p);
                            proof {
                                lemma_distinct_below(work@, g.len());
                            }
                            work.len() - 1
                        },
                    };
                    edges.push((j, i));
                    proof {
                        assert(upstream_of(g, x, work0[i as int]));
                        let pth = choose|pth: Seq<usize>| #[trigger] is_upstream_chain(g, pth, x, work0[i as int]);
                        let pth2 = pth.push(p);
                        assert(node_at(g, w) == g[w as int]);
                        assert(ps@[k as int] == p);
                        assert(is_upstream_chain(g, pth2, x, p)) by {
                            assert forall|k3: int| 0 <= k3 < pth2.len() - 1 implies preds(
                                node_at(g, #[trigger] pth2[k3]),
                            ).contains(pth2[k3 + 1]) by {
                                if k3 < pth.len() - 1 {
                                    assert(pth2[k3] == pth[k3]);
                                    assert(pth2[k3 + 1] == pth[k3 + 1]);
                                    assert(preds(node_at(g, pth[k3])).contains(pth[k3 + 1]));
                                } else {
                                    assert(pth2[k3] == w);
                                    assert(preds(node_at(g, w))[k as int] == p);
                                }
                            }
                        }
                        assert forall|w2: int| 0 <= w2 < work@.len() implies #[trigger] upstream_of(
                            g,
                            x,
                            work@[w2],
                        ) by {
                            if w2 < work0.len() {
                                assert(work@[w2] == work0[w2]);
                            } else {
                                assert(work@[w2] == p);
                            }
                        }
                        assert forall|s: Set<usize>| #[trigger]
                            upstream_closed(g, s, x) implies forall|w: int|
                                0 <= w < work@.len() ==> s.contains(#[trigger] work@[w]) by {
                            assert(s.contains(work0[i as int]));
                            assert(node_at(g, w) == g[w as int]);
                            assert(preds(node_at(g, w))[k as int] == p);
                            assert(s.contains(p));
                            assert forall|w2: int| 0 <= w2 < work@.len() implies s.contains(
                                #[trigger] work@[w2],
                            ) by {
                                if w2 < work0.len() {
                                    assert(work@[w2] == work0[w2]);
                                }
                            }
                        }
                        assert(work@[j as int] == p);
                        assert(edges@[edges@.len() - 1] == (j, i));
                        lemma_closed_grow(g, work0, edges0, work@, edges@, i as int);
                        assert forall|k2: int|
                            0 <= k2 <= k && pending(g, #[trigger] ps@[k2]) implies covered(
                            work@,
                            edges@,
                            i as int,
                            ps@[k2],
                        ) by {
                            if k2 < k {
                                assert(covered(work0, edges0, i as int, ps@[k2]));
                                let e = choose|e: int|
                                    0 <= e < edges0.len() && #[trigger] edges0[e].1 == i
                                        && edges0[e].0 < work0.len() && work0[edges0[e].0 as int]
                                        == ps@[k2];
                                assert(edges@[e] == edges0[e]);
                            } else {
                                assert(edges@[edges@.len() - 1].1 == i);
                            }
                        }
                        assert(work@.no_duplicates());
                        assert forall|e: int| 0 <= e < edges@.len() implies preds(
                            g[work@[(#[trigger] edges@[e]).1 as int] as int],
                        ).contains(work@[edges@[e].0 as int]) by {
                            if e < edges0.len() {
                                assert(edges@[e] == edges0[e]);
                                assert(preds(g[work0[edges0[e].1 as int] as int]).contains(
                                    work0[edges0[e].0 as int],
                                ));
                            } else {
                                assert(ps@[k as int] == p);
                            }
                        }
                    }
                }
                k = k + 1;
            }
            proof {
                assert forall|w2: int, k2: int|
                    0 <= w2 < i + 1 && 0 <= k2 < preds(g[work@[w2] as int]).len() && pending(
                        g,
                        #[trigger] preds(g[work@[w2] as int])[k2],
                    ) implies covered(work@, edges@, w2, preds(g[work@[w2] as int])[k2]) by {
                    if w2 == i {
                        assert(ps@[k2] == preds(g[work@[w2] as int])[k2]);
                    }
                }
            }
            i = i + 1;
        }
        let order = match topological_order(work.len(), &edges) {
            Some(order) => order,
            None => {
                proof {
                    lemma_unordered_is_unranked(g, work@, edges@);
                    assert forall|s: Set<usize>, rank: spec_fn(usize) -> nat|
                        #![trigger upstream_closed(g, s, x), ranked_on(g, s, rank)]
                        upstream_closed(g, s, x) implies !ranked_on(g, s, rank) by {
                        if ranked_on(g, s, rank) {
                            assert forall|e: int| 0 <= e < edges@.len() implies rank(
                                work@[(#[trigger] edges@[e]).0 as int],
                            ) < rank(work@[edges@[e].1 as int]) by {
                                let y = work@[edges@[e].1 as int];
                                let p = work@[edges@[e].0 as int];
                                assert(s.contains(y));
                                assert(preds(g[y as int]).contains(p));
                                let k = choose|k: int|
                                    0 <= k < preds(g[y as int]).len() && preds(g[y as int])[k] == p;
                                assert(node_at(g, y) == g[y as int]);
                                assert(pending(g, p));
                                assert(preds(node_at(g, y))[k] == p);
                            }
                            assert(edge_ranked(work@, edges@, rank));
                        }
                    }
                    assert(cyclic_upstream(g, x));
                }
                return Err(EvalError::Cycle);
            },
        };
        let mut k: usize = 0;
        while k < order.len()
            invariant
                self.wf(),
                old(self).nodes@ == g,
                old(self).filled_from(self),
                is_topological_order(work@.len() as nat, edges@, order@),
                working_set(g, work@, edges@),
                closed_upto(g, work@, edges@, work@.len() as int),
                work@[0] == x,
                k <= order@.len(),
                forall|q: int|
                    0 <= q < order@.len() ==> (pending(self.nodes@, #[trigger] work@[order@[q] as int])
                        <==> q >= k),
                forall|s: Set<usize>| #[trigger]
                    upstream_closed(g, s, x) ==> forall|w: int|
                        0 <= w < work@.len() ==> s.contains(#[trigger] work@[w]),
                forall|i: usize|
                    pending(g, i) && !pending(self.nodes@, i) ==> #[trigger] work@.contains(i),
                forall|w: int| 0 <= w < work@.len() ==> #[trigger] upstream_of(g, x, work@[w]),
            decreases order.len() - k,
        {
            let w = work[order[k]];
            let ghost n0 = self.nodes@;
            proof {
                let pw = preds(n0[w as int]);
                assert(same_but_slot(g[w as int], n0[w as int]));
                assert(pw == preds(g[w as int]));
                assert forall|k2: int| 0 <= k2 < pw.len() implies !pending(n0, #[trigger] pw[k2]) by {
                    let p = pw[k2];
                    if pending(n0, p) {
                        if !pending(g, p) {
                            assert(node_at(n0, p) == node_at(g, p));
                        }
                        let wi = order@[k as int] as int;
                        assert(covered(work@, edges@, wi, preds(g[work@[wi] as int])[k2]));
                        let e = choose|e: int|
                            0 <= e < edges@.len() && #[trigger] edges@[e].1 == wi && edges@[e].0
                                < work@.len() && work@[edges@[e].0 as int] == p;
                        let j = edges@[e].0;
                        assert(order@.contains(j));
                        let q = choose|q: int| 0 <= q < order@.len() && order@[q] == j;
                        assert(q < k);
                        assert(!pending(n0, work@[order@[q] as int]));
                    }
                }
            }
            self.fill(w);
            proof {
                assert forall|q: int|
                    0 <= q < order@.len() implies (pending(
                    self.nodes@,
                    #[trigger] work@[order@[q] as int],
                ) <==> q >= k + 1) by {
                    if q != k {
                        assert(order@[q] != order@[k as int]);
                        assert(work@[order@[q] as int] != w);
                    }
                }
                assert forall|i: usize|
                    pending(g, i) && !pending(self.nodes@, i) implies #[trigger] work@.contains(i) by {
                    if i != w {
                        assert(node_at(self.nodes@, i) == node_at(n0, i));
                    } else {
                        assert(work@[order@[k as int] as int] == w);
                    }
                }
            }
            k = k + 1;
        }
        proof {
            assert(order@.contains(0usize));
            let q = choose|q: int| 0 <= q < order@.len() && order@[q] == 0usize;
            assert(!pending(self.nodes@, work@[order@[q] as int]));
            let ws = work@;
            let os = order@;
            let s0 = ws.to_set();
            let rank0 = |v: usize| os.index_of(ws.index_of(v) as usize) as nat;
            assert forall|w: int| 0 <= w < ws.len() implies #[trigger] ws.index_of(ws[w]) == w by {
                let c = ws.index_of(ws[w]);
                assert(ws.contains(ws[w]));
            }
            assert forall|j: int| 0 <= j < ws.len() implies os[#[trigger] os.index_of(j as usize)] == j
                && 0 <= os.index_of(j as usize) < os.len() by {
                assert(os.contains(j as usize));
            }
            assert forall|v: usize| #[trigger] s0.contains(v) implies !pending(self.nodes@, v)
                && rank0(v) < g.len() by {
                assert(ws.contains(v));
                let w = choose|w: int| 0 <= w < ws.len() && ws[w] == v;
                let qv = os.index_of(w as usize);
                assert(os[qv] == w);
                assert(ws.index_of(v) == w);
            }
            assert(upstream_closed(g, s0, x)) by {
                assert(ws[0] == x);
                assert forall|y: usize| #[trigger] s0.contains(y) implies pending(g, y) && forall|k2: int|
                    0 <= k2 < preds(node_at(g, y)).len() && pending(
                        g,
                        #[trigger] preds(node_at(g, y))[k2],
                    ) ==> s0.contains(preds(node_at(g, y))[k2]) by {
                    assert(ws.contains(y));
                    let w = choose|w: int| 0 <= w < ws.len() && ws[w] == y;
                    assert(node_at(g, y) == g[y as int]);
                    assert forall|k2: int|
                        0 <= k2 < preds(node_at(g, y)).len() && pending(
                            g,
                            #[trigger] preds(node_at(g, y))[k2],
                        ) implies s0.contains(preds(node_at(g, y))[k2]) by {
                        let p = preds(g[ws[w] as int])[k2];
                        assert(covered(ws, edges@, w, p));
                        let e = choose|e: int|
                            0 <= e < edges@.len() && #[trigger] edges@[e].1 == w && edges@[e].0
                                < ws.len() && ws[edges@[e].0 as int] == p;
                        assert(ws.contains(p));
                    }
                }
            }
            assert(ranked_on(g, s0, rank0)) by {
                assert forall|y: usize, k2: int|
                    s0.contains(y) && 0 <= k2 < preds(node_at(g, y)).len() && pending(
                        g,
                        #[trigger] preds(node_at(g, y))[k2],
                    ) implies rank0(preds(node_at(g, y))[k2]) < rank0(y) by {
                    assert(ws.contains(y));
                    let w = choose|w: int| 0 <= w < ws.len() && ws[w] == y;
                    assert(node_at(g, y) == g[y as int]);
                    let p = preds(g[ws[w] as int])[k2];
                    assert(covered(ws, edges@, w, p));
                    let e = choose|e: int|
                        0 <= e < edges@.len() && #[trigger] edges@[e].1 == w && edges@[e].0 < ws.len()
                            && ws[edges@[e].0 as int] == p;
                    let j = edges@[e].0 as int;
                    assert(ws.index_of(p) == j);
                    assert(ws.index_of(y) == w);
                    let qj = os.index_of(j as usize);
                    let qw = os.index_of(w as usize);
                    assert(os[qj] == edges@[e].0);
                    assert(os[qw] == edges@[e].1);
                    assert(qj < qw);
                }
            }
            assert forall|i: usize| pending(g, i) && !pending(self.nodes@, i) implies #[trigger] upstream_of(
                g,
                x,
                i,
            ) by {
                assert(ws.contains(i));
                let w = choose|w: int| 0 <= w < ws.len() && ws[w] == i;
                assert(upstream_of(g, x, ws[w]));
            }
            assert forall|i: usize, s: Set<usize>|
                #![trigger upstream_closed(g, s, x), pending(self.nodes@, i)]
                pending(g, i) && !pending(self.nodes@, i) && upstream_closed(g, s, x) implies s.contains(
                i,
            ) by {
                assert(ws.contains(i));
                let w = choose|w: int| 0 <= w < ws.len() && ws[w] == i;
            }
        }
        Ok(self.get_value(x))
    }
}

pub(crate) proof fn lemma_filled_trans(a: AttributeGraph, b: AttributeGraph, c: AttributeGraph)
    requires
        a.filled_from(&b),
        b.filled_from(&c),
    ensures
        a.filled_from(&c),
{
    assert forall|i: int| 0 <= i < a.nodes@.len() implies same_but_slot(
        #[trigger] a.nodes@[i],
        c.nodes@[i],
    ) by {
        assert(same_but_slot(a.nodes@[i], b.nodes@[i]));
        assert(same_but_slot(b.nodes@[i], c.nodes@[i]));
    }
    assert forall|i: usize| !pending(a.nodes@, i) implies #[trigger] node_at(c.nodes@, i) == node_at(
        a.nodes@,
        i,
    ) by {
        assert(node_at(b.nodes@, i) == node_at(a.nodes@, i));
    }
}

/// Fetching twice with no edit in between returns the same value, and the
/// second fetch changes nothing: it is answered from the memoized slot.
pub proof fn lemma_fetch_idempotent(
    g0: AttributeGraph,
    g1: AttributeGraph,
    g2: AttributeGraph,
    x: usize,
    r1: Result<Option<i64>, EvalError>,
    r2: Result<Option<i64>, EvalError>,
)
    requires
        g0.wf(),
        g0.fetched(&g1, x, r1),
        r1 is Ok,
        g1.fetched(&g2, x, r2),
    ensures
        r2 == r1,
        g2 == g1,
{
}

/// No stale value is ever returned: every edit leaves a well-formed graph,
/// and a fetch from a well-formed graph that returns the value of a derived
/// attribute returns its formula over the present values of what it reads.
pub proof fn lemma_fetch_is_fresh(
    g0: AttributeGraph,
    g1: AttributeGraph,
    x: usize,
    r: Result<Option<i64>, EvalError>,
)
    requires
        g0.wf(),
        g1.wf(),
        g0.fetched(&g1, x, r),
        r matches Ok(Some(_)),
        is_derived(node_at(g1.nodes@, x)),
    ensures
        node_at(g1.nodes@, x) matches Node::Attribute(a) && r == Ok::<Option<i64>, EvalError>(
            Some(attribute_formula(g1.nodes@, a)),
        ),
        forall|k: int|
            0 <= k < preds(node_at(g1.nodes@, x)).len() ==> !pending(
                g1.nodes@,
                #[trigger] preds(node_at(g1.nodes@, x))[k],
            ),
{
    assert(consistent_at(g1.nodes@, x));
}

/// `s` holds `x` and only absent slots, and with each of them every absent
/// slot that it reads from: `s` holds the absent upstream of `x`.
pub open spec fn upstream_closed(nodes: Seq<Node>, s: Set<usize>, x: usize) -> bool {
    &&& s.contains(x)
    &&& forall|y: usize| #[trigger]
        s.contains(y) ==> pending(nodes, y) && forall|k: int|
            0 <= k < preds(node_at(nodes, y)).len() && pending(
                nodes,
                #[trigger] preds(node_at(nodes, y))[k],
            ) ==> s.contains(preds(node_at(nodes, y))[k])
}

/// `rank` orders `s`: each node of `s` ranks above every absent slot it
/// reads from. Such a ranking exists exactly when no cycle runs through `s`.
pub open spec fn ranked_on(nodes: Seq<Node>, s: Set<usize>, rank: spec_fn(usize) -> nat) -> bool {
    forall|y: usize, k: int|
        s.contains(y) && 0 <= k < preds(node_at(nodes, y)).len() && pending(
            nodes,
            #[trigger] preds(node_at(nodes, y))[k],
        ) ==> rank(preds(node_at(nodes, y))[k]) < rank(y)
}

/// No ranking orders any set holding the absent upstream of `x`: a cycle
/// runs through the absent slots that `x` rests on.
pub open spec fn cyclic_upstream(nodes: Seq<Node>, x: usize) -> bool {
    forall|s: Set<usize>, rank: spec_fn(usize) -> nat|
        #![trigger upstream_closed(nodes, s, x), ranked_on(nodes, s, rank)]
        upstream_closed(nodes, s, x) ==> !ranked_on(nodes, s, rank)
}

/// Each edge leads from an entry ranked below the entry it leads to.
pub open spec fn edge_ranked(
    work: Seq<usize>,
    edges: Seq<(usize, usize)>,
    rank: spec_fn(usize) -> nat,
) -> bool {
    forall|e: int|
        0 <= e < edges.len() ==> rank(work[(#[trigger] edges[e]).0 as int]) < rank(
            work[edges[e].1 as int],
        )
}

/// Each edge leads from an entry to an entry that reads it.
pub open spec fn edges_read(g: Seq<Node>, work: Seq<usize>, edges: Seq<(usize, usize)>) -> bool {
    forall|e: int|
        0 <= e < edges.len() ==> preds(g[work[(#[trigger] edges[e]).1 as int] as int]).contains(
            work[edges[e].0 as int],
        )
}

/// A working set that admits no topological order has no ranking either.
pub(crate) proof fn lemma_unordered_is_unranked(g: Seq<Node>, work: Seq<usize>, edges: Seq<(usize, usize)>)
    requires
        working_set(g, work, edges),
        edges_read(g, work, edges),
        work.len() <= usize::MAX,
        forall|order: Seq<usize>| !is_topological_order(work.len() as nat, edges, order),
    ensures
        forall|rank: spec_fn(usize) -> nat| !edge_ranked(work, edges, rank),
{
    broadcast use vstd::seq_lib::group_to_multiset_ensures;

    assert forall|rank: spec_fn(usize) -> nat| !edge_ranked(work, edges, rank) by {
        if edge_ranked(work, edges, rank) {
            let n = work.len();
            let key = |a: usize| rank(work[a as int]);
            let leq = |a: usize, b: usize| key(a) < key(b) || (key(a) == key(b) && a <= b);
            assert(vstd::relations::total_ordering(leq));
            let s = Seq::new(n, |i: int| i as usize);
            assert(s.no_duplicates());
            s.lemma_sort_by_ensures(leq);
            let o = s.sort_by(leq);
            s.lemma_multiset_has_no_duplicates();
            assert(o.to_multiset().len() == s.to_multiset().len());
            assert forall|v: usize| #[trigger] o.contains(v) <==> v < n by {
                assert(s.to_multiset().count(v) == o.to_multiset().count(v));
                assert(s.contains(v) <==> o.contains(v));
                if v < n {
                    assert(s[v as int] == v);
                }
            }
            assert(o.no_duplicates()) by {
                assert forall|v: usize| #[trigger] o.to_multiset().count(v) <= 1 by {
                    assert(s.to_multiset().count(v) <= 1);
                }
                o.lemma_multiset_has_no_duplicates_conv();
            }
            assert forall|i: int| 0 <= i < o.len() implies #[trigger] o[i] < n by {
                assert(o.contains(o[i]));
            }
            assert forall|e: int, i: int, j: int|
                #![trigger edges[e], o[i], o[j]]
                0 <= e < edges.len() && 0 <= i < o.len() && 0 <= j < o.len() && o[i] == edges[e].0
                    && o[j] == edges[e].1 implies i < j by {
                assert(key(edges[e].0) < key(edges[e].1));
                if j <= i {
                    if j < i {
                        assert(leq(o[j], o[i]));
                    }
                }
            }
            assert(is_topological_order(n as nat, edges, o));
        }
    }
}

/// Distinct ids below `n` number at most `n`.
proof fn lemma_distinct_below(s: Seq<usize>, n: nat)
    requires
        s.no_duplicates(),
        forall|i: int| 0 <= i < s.len() ==> #[trigger] s[i] < n,
    ensures
        s.len() <= n,
{
    let si = s.map_values(|v: usize| v as int);
    assert(si.no_duplicates()) by {
        assert forall|a: int, b: int| 0 <= a < b < si.len() implies si[a] != si[b] by {
            assert(s[a] != s[b]);
        }
    }
    si.unique_seq_to_set();
    vstd::set_lib::lemma_int_range(0, n as int);
    assert(si.to_set().subset_of(vstd::set_lib::set_int_range(0, n as int))) by {
        assert forall|v: int| si.to_set().contains(v) implies vstd::set_lib::set_int_range(
            0,
            n as int,
        ).contains(v) by {
            assert(si.contains(v));
            let k = choose|k: int| 0 <= k < si.len() && si[k] == v;
            assert(s[k] < n);
        }
    }
    vstd::set_lib::lemma_len_subset(si.to_set(), vstd::set_lib::set_int_range(0, n as int));
}

/// A cycle through the absent upstream of `m` survives a successful fetch:
/// the fetch fills only an acyclic part of the graph.
pub(crate) proof fn lemma_cycle_survives_fetch(
    g0: AttributeGraph,
    g1: AttributeGraph,
    y: usize,
    r: Result<Option<i64>, EvalError>,
    m: usize,
)
    requires
        g0.fetched(&g1, y, r),
        r is Ok,
        cyclic_upstream(g0.nodes@, m),
    ensures
        cyclic_upstream(g1.nodes@, m),
{
    let n0 = g0.nodes@;
    let n1 = g1.nodes@;
    if pending(n0, y) {
        let (sy, ry) = choose|s: Set<usize>, rank: spec_fn(usize) -> nat|
            #![trigger upstream_closed(n0, s, y), ranked_on(n0, s, rank)]
            upstream_closed(n0, s, y) && ranked_on(n0, s, rank) && forall|v: usize|
                #[trigger] s.contains(v) ==> !pending(n1, v) && rank(v) < n0.len();
        assert forall|s2: Set<usize>, r2: spec_fn(usize) -> nat|
            #![trigger upstream_closed(n1, s2, m), ranked_on(n1, s2, r2)]
            upstream_closed(n1, s2, m) implies !ranked_on(n1, s2, r2) by {
            if ranked_on(n1, s2, r2) {
                let big = n0.len();
                let ss = s2.union(sy);
                let rr = |v: usize| if sy.contains(v) { ry(v) } else { big + r2(v) };
                assert forall|v: usize| #[trigger] ss.contains(v) implies preds(node_at(n0, v)) == preds(
                    node_at(n1, v),
                ) && (s2.contains(v) ==> pending(n0, v)) by {
                    if v < n0.len() {
                        assert(same_but_slot(n0[v as int], n1[v as int]));
                    }
                    if s2.contains(v) && !pending(n0, v) {
                        assert(node_at(n1, v) == node_at(n0, v));
                    }
                }
                assert(upstream_closed(n0, ss, m)) by {
                    assert forall|v: usize| #[trigger] ss.contains(v) implies pending(n0, v) && forall|k: int|
                        0 <= k < preds(node_at(n0, v)).len() && pending(
                            n0,
                            #[trigger] preds(node_at(n0, v))[k],
                        ) ==> ss.contains(preds(node_at(n0, v))[k]) by {
                        assert forall|k: int|
                            0 <= k < preds(node_at(n0, v)).len() && pending(
                                n0,
                                #[trigger] preds(node_at(n0, v))[k],
                            ) implies ss.contains(preds(node_at(n0, v))[k]) by {
                            let p = preds(node_at(n0, v))[k];
                            if !sy.contains(v) {
                                assert(preds(node_at(n1, v))[k] == p);
                                if !pending(n1, p) {
                                    assert(sy.contains(p));
                                }
                            }
                        }
                    }
                }
                assert(ranked_on(n0, ss, rr)) by {
                    assert forall|v: usize, k: int|
                        ss.contains(v) && 0 <= k < preds(node_at(n0, v)).len() && pending(
                            n0,
                            #[trigger] preds(node_at(n0, v))[k],
                        ) implies rr(preds(node_at(n0, v))[k]) < rr(v) by {
                        let p = preds(node_at(n0, v))[k];
                        if sy.contains(v) {
                            assert(sy.contains(p));
                        } else {
                            assert(preds(node_at(n1, v))[k] == p);
                            if sy.contains(p) {
                                assert(ry(p) < big);
                            } else {
                                assert(pending(n1, p));
                                assert(r2(p) < r2(v));
                            }
                        }
                    }
                }
            }
        }
    }
}

} // verus!
