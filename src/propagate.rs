//! The invalidation cascade: empties the slots that rest on a changed one,
//! following the dependency index, and re-derives dynamic modifiers.
use vstd::prelude::*;
use crate::store::{
    lemma_upstream_same_shape, upstream_of,
    is_dynamic, rederived,
    changes_rest_on, ranked_rests, lemma_ref_in_preds, lemma_same_reads, reads, rests_on,
    is_computed, Attribute, AttributeGraph, AttributeNode, ModifierNode, Node, agree_on,
    consistent_at, copy_into, is_derived, lemma_formula_agree, node_at, node_wf, pending, preds,
    ref_list, refs, same_but_slot, same_shape,
};
use crate::evaluator::{cyclic_upstream, lemma_cycle_survives_fetch, lemma_filled_trans};

verus! {

/// The number of derived nodes with a present slot.
pub open spec fn computed_count(s: Seq<Node>) -> nat
    decreases s.len(),
{
    if s.len() == 0 {
        0
    } else {
        computed_count(s.drop_last()) + if is_computed(s.last()) {
            1nat
        } else {
            0nat
        }
    }
}

pub(crate) proof fn lemma_computed_count_update(s: Seq<Node>, i: int, v: Node)
    requires
        0 <= i < s.len(),
    ensures
        computed_count(s.update(i, v)) as int == computed_count(s) as int - (if is_computed(s[i]) {
            1int
        } else {
            0int
        }) + (if is_computed(v) {
            1int
        } else {
            0int
        }),
    decreases s.len(),
{
    if i == s.len() - 1 {
        assert(s.update(i, v).drop_last() == s.drop_last());
    } else {
        lemma_computed_count_update(s.drop_last(), i, v);
        assert(s.update(i, v).drop_last() == s.drop_last().update(i, v));
    }
}

/// `n` with its slot emptied.
pub open spec fn cleared(n: Node) -> Node {
    match n {
        Node::Attribute(a) => Node::Attribute(
            AttributeNode { kind: a.kind, value: None, modifiers: a.modifiers },
        ),
        Node::Modifier(m) => Node::Modifier(
            ModifierNode { target: m.target, value: None, dynamic: m.dynamic },
        ),
        Node::Vacant => Node::Vacant,
    }
}

impl AttributeGraph {
    /// `after` is `self` with some slots emptied and nothing else changed.
    pub open spec fn cleared_from(&self, after: &AttributeGraph) -> bool {
        &&& after.index == self.index
        &&& after.nodes@.len() == self.nodes@.len()
        &&& forall|i: int| 0 <= i < self.nodes@.len() ==> same_but_slot(
            #[trigger] self.nodes@[i],
            after.nodes@[i],
        ) && (after.nodes@[i] == self.nodes@[i] || pending(after.nodes@, i as usize))
    }

    /// A node that reads `x` is reached from `x` by the cascade: it is a
    /// dependent of `x` in the index, or the target of modifier `x`.
    pub(crate) proof fn lemma_reader_is_linked(&self, y: usize, x: usize, k: int)
        requires
            self.structure_wf(),
            y < self.nodes@.len(),
            x < self.nodes@.len(),
            0 <= k < preds(self.nodes@[y as int]).len(),
            preds(self.nodes@[y as int])[k] == x,
        ensures
            self.index.dependents@[x as int]@.contains(y) || (self.nodes@[x as int] is Modifier
                && self.nodes@[x as int]->Modifier_0.target == y),
    {
        broadcast use vstd::seq_lib::group_to_multiset_ensures;

        let n = self.nodes@[y as int];
        assert(node_wf(self.nodes@, y as int));
        assert(self.index.count(y as int, x) == refs(n, x));
        assert(self.index.count(y as int, x) > 0 <==> self.index.is_dependent(x as int, y));
        let mut via_ref = false;
        match n {
            Node::Attribute(a) => {
                match a.kind {
                    Attribute::Plain(_) => {
                        assert(a.modifiers@[k] == x);
                    },
                    Attribute::BasedOn(p) => {
                        if k == 0 {
                            assert(ref_list(n)[0] == x);
                            via_ref = true;
                        } else {
                            assert(a.modifiers@[k - 1] == x);
                        }
                    },
                    Attribute::Merged(ps) => {
                        assert(ref_list(n)[k] == x);
                        via_ref = true;
                    },
                    Attribute::Fixed => {},
                }
            },
            Node::Modifier(m) => {
                assert(ref_list(n)[k] == x);
                via_ref = true;
            },
            Node::Vacant => {},
        }
        if via_ref {
            assert(ref_list(n).contains(x));
            assert(refs(n, x) > 0);
        }
    }

    pub(crate) fn is_computed_node(&self, x: usize) -> (r: bool)
        requires
            x < self.nodes@.len(),
        ensures
            r == is_computed(self.nodes@[x as int]),
    {
        match &self.nodes[x] {
            Node::Attribute(a) => !matches!(a.kind, Attribute::Fixed) && a.value.is_some(),
            Node::Modifier(m) => m.dynamic.is_some() && m.value.is_some(),
            Node::Vacant => false,
        }
    }

    /// Empties the slot of derived node `x`.
    pub(crate) fn clear(&mut self, x: usize)
        requires
            old(self).structure_wf(),
            x < old(self).nodes@.len(),
            is_derived(old(self).nodes@[x as int]),
        ensures
            final(self).structure_wf(),
            final(self).index == old(self).index,
            final(self).nodes@ == old(self).nodes@.update(x as int, cleared(old(self).nodes@[x as int])),
    {
        let ghost n0 = self.nodes@;
        let mut taken = Node::Vacant;
        std::mem::swap(&mut self.nodes[x], &mut taken);
        let emptied = match taken {
            Node::Attribute(a) => Node::Attribute(
                AttributeNode { kind: a.kind, value: None, modifiers: a.modifiers },
            ),
            Node::Modifier(m) => Node::Modifier(
                ModifierNode { target: m.target, value: None, dynamic: m.dynamic },
            ),
            Node::Vacant => Node::Vacant,
        };
        self.nodes.set(x, emptied);
        proof {
            let n1 = self.nodes@;
            assert(n1 == n0.update(x as int, cleared(n0[x as int])));
            assert forall|i: int| 0 <= i < n1.len() implies #[trigger] node_wf(n1, i) by {
                assert(node_wf(n0, i));
            }
            assert forall|a: usize, p: usize| a < n1.len() && p < n1.len() implies
                #[trigger] self.index.count(a as int, p) == refs(n1[a as int], p) by {
                assert(refs(n1[a as int], p) == refs(n0[a as int], p));
            }
            assert forall|a: int, k: int|
                0 <= a < n1.len() && 0 <= k < preds(n1[a]).len() implies #[trigger] preds(n1[a])[k]
                    < n1.len() by {
                assert(preds(n1[a]) == preds(n0[a]));
            }
        }
    }

    /// Empties, from the nodes of `start` on, every present derived slot
    /// that rests on an emptied one. Returns the dynamic modifiers emptied.
    pub(crate) fn invalidate(&mut self, start: Vec<usize>) -> (stale: Vec<usize>)
        requires
            old(self).structure_wf(),
            forall|y: usize| !consistent_at(old(self).nodes@, y) ==> start@.contains(y),
        ensures
            final(self).wf(),
            old(self).cleared_from(final(self)),
            changes_rest_on(old(self).nodes@, final(self).nodes@, start@.to_set()),
            forall|i: usize|
                node_at(final(self).nodes@, i) != node_at(old(self).nodes@, i) && is_dynamic(
                    #[trigger] node_at(old(self).nodes@, i),
                ) ==> stale@.contains(i),
            forall|j: int| 0 <= j < stale@.len() ==> is_dynamic(node_at(old(self).nodes@, #[trigger] stale@[j]))
                && !pending(old(self).nodes@, stale@[j]),
    {
        let ghost roots = start@.to_set();
        let ghost mut emptied = Set::<usize>::empty();
        let ghost mut erank: spec_fn(usize) -> nat = |v: usize| 0nat;
        let ghost mut ecount: nat = 0;
        let mut work = start;
        let mut stale: Vec<usize> = Vec::new();
        while work.len() > 0
            invariant
                self.structure_wf(),
                old(self).cleared_from(self),
                forall|y: usize| !consistent_at(self.nodes@, y) ==> work@.contains(y),
                roots == start@.to_set(),
                forall|i: usize|
                    node_at(self.nodes@, i) != node_at(old(self).nodes@, i) && is_dynamic(
                        #[trigger] node_at(old(self).nodes@, i),
                    ) ==> stale@.contains(i),
                ranked_rests(old(self).nodes@, emptied, roots, erank, ecount),
                forall|j: int| 0 <= j < stale@.len() ==> is_dynamic(node_at(old(self).nodes@, #[trigger] stale@[j]))
                    && !pending(old(self).nodes@, stale@[j]),
                forall|v: usize| #[trigger] emptied.contains(v) ==> pending(self.nodes@, v),
                forall|i: usize|
                    i < old(self).nodes@.len() && node_at(self.nodes@, i) != node_at(
                        old(self).nodes@,
                        i,
                    ) ==> #[trigger] emptied.contains(i),
                forall|q: int|
                    0 <= q < work@.len() ==> roots.contains(#[trigger] work@[q]) || exists|z: usize|
                        #[trigger] emptied.contains(z) && reads(node_at(old(self).nodes@, work@[q]), z),
            decreases computed_count(self.nodes@), work@.len(),
        {
            let ghost w0 = work@;
            let x = match work.pop() {
                Some(x) => x,
                None => 0,
            };
            assert(w0 == work@.push(x));
            if x < self.nodes.len() && self.is_computed_node(x) {
                let ghost n0 = self.nodes@;
                self.clear(x);
                proof {
                    lemma_computed_count_update(n0, x as int, cleared(n0[x as int]));
                }
                let dynamic_mod = match &self.nodes[x] {
                    Node::Modifier(m) => m.dynamic.is_some(),
                    _ => false,
                };
                let ghost stale0 = stale@;
                if dynamic_mod {
                    stale.push(x);
                }
                proof {
                    assert forall|j: int| 0 <= j < stale@.len() implies is_dynamic(
                        node_at(old(self).nodes@, #[trigger] stale@[j]),
                    ) && !pending(old(self).nodes@, stale@[j]) by {
                        if j < stale0.len() {
                            assert(stale@[j] == stale0[j]);
                        } else {
                            assert(same_but_slot(old(self).nodes@[x as int], n0[x as int]));
                            assert(node_at(n0, x) == node_at(old(self).nodes@, x));
                        }
                    }
                    assert forall|i: usize|
                        node_at(self.nodes@, i) != node_at(old(self).nodes@, i) && is_dynamic(
                            #[trigger] node_at(old(self).nodes@, i),
                        ) implies stale@.contains(i) by {
                        if i != x {
                            assert(node_at(self.nodes@, i) == node_at(n0, i));
                            assert(stale0.contains(i));
                            let q = choose|q: int| 0 <= q < stale0.len() && stale0[q] == i;
                            assert(stale@[q] == i);
                        } else {
                            assert(same_but_slot(old(self).nodes@[x as int], self.nodes@[x as int]));
                            assert(stale@[stale@.len() - 1] == x);
                        }
                    }
                }
                let ghost w1 = work@;
                copy_into(&mut work, self.index.dependents_of(x));
                match &self.nodes[x] {
                    Node::Modifier(m) => work.push(m.target),
                    _ => {},
                }
                proof {
                    let n1 = self.nodes@;
                    let ghost c0 = emptied;
                    let on = old(self).nodes@;
                    assert(roots.contains(w0[w0.len() - 1]) || exists|z: usize|
                        #[trigger] c0.contains(z) && reads(node_at(on, w0[w0.len() - 1]), z));
                    let ghost k0 = erank;
                    let ghost e0 = ecount;
                    assert(!c0.contains(x)) by {
                        if c0.contains(x) {
                            assert(pending(n0, x));
                        }
                    }
                    emptied = emptied.insert(x);
                    erank = |v: usize| if v == x { e0 } else { k0(v) };
                    ecount = e0 + 1;
                    assert forall|y: usize| #[trigger] emptied.contains(y) implies erank(y) < ecount && (
                    roots.contains(y) || exists|z: usize|
                        #[trigger] emptied.contains(z) && reads(node_at(on, y), z) && erank(z) < erank(y)) by {
                        if y != x {
                            assert(c0.contains(y));
                            if !roots.contains(y) {
                                let z = choose|z: usize|
                                    #[trigger] c0.contains(z) && reads(node_at(on, y), z) && k0(z) < k0(y);
                                assert(emptied.contains(z));
                            }
                        } else if !roots.contains(y) {
                            let z = choose|z: usize| #[trigger] c0.contains(z) && reads(node_at(on, x), z);
                            assert(emptied.contains(z));
                            assert(k0(z) < e0);
                        }
                    }
                    assert forall|v: usize| #[trigger] emptied.contains(v) implies pending(self.nodes@, v) by {
                        if v != x {
                            assert(node_at(n1, v) == node_at(n0, v));
                        }
                    }
                    assert forall|i: usize|
                        i < on.len() && node_at(n1, i) != node_at(on, i) implies #[trigger] emptied.contains(i) by {
                        if i != x {
                            assert(node_at(n1, i) == node_at(n0, i));
                        }
                    }
                    assert forall|q: int|
                        0 <= q < work@.len() implies roots.contains(#[trigger] work@[q]) || exists|z: usize|
                            #[trigger] emptied.contains(z) && reads(node_at(on, work@[q]), z) by {
                        let d = work@[q];
                        if q < w1.len() {
                            assert(w0[q] == d);
                            if !roots.contains(d) {
                                let z = choose|z: usize| #[trigger] c0.contains(z) && reads(node_at(on, d), z);
                                assert(emptied.contains(z));
                            }
                        } else {
                            assert(emptied.contains(x));
                            if q < w1.len() + self.index.dependents@[x as int]@.len() {
                                assert(self.index.dependents@[x as int]@[q - w1.len()] == d);
                                assert(self.index.is_dependent(x as int, d));
                                assert(d < n1.len());
                                assert(self.index.count(d as int, x) > 0);
                                lemma_ref_in_preds(n1[d as int], x);
                                assert(same_but_slot(on[d as int], n1[d as int]));
                                lemma_same_reads(on[d as int], n1[d as int], x);
                            } else {
                                assert(node_wf(n1, x as int));
                                let t = n1[x as int]->Modifier_0.target;
                                assert(d == t);
                                assert(reads(n1[t as int], x));
                                assert(same_but_slot(on[t as int], n1[t as int]));
                                lemma_same_reads(on[t as int], n1[t as int], x);
                            }
                        }
                    }
                    assert forall|y: usize| !consistent_at(n1, y) implies work@.contains(y) by {
                        assert(node_at(n1, y) == node_at(n0, y) || y == x);
                        if y != x {
                            if !consistent_at(n0, y) {
                                assert(w0.contains(y));
                                let q = choose|q: int| 0 <= q < w0.len() && w0[q] == y;
                                assert(w1[q] == y);
                                assert(work@[q] == y);
                            } else {
                                let py = preds(node_at(n0, y));
                                if py.contains(x) {
                                    let k = choose|k: int| 0 <= k < py.len() && py[k] == x;
                                    self.lemma_reader_is_linked(y, x, k);
                                    assert(n0[x as int] is Modifier ==> n1[x as int] is Modifier
                                        && n1[x as int]->Modifier_0.target
                                        == n0[x as int]->Modifier_0.target);
                                    if self.index.dependents@[x as int]@.contains(y) {
                                        let q = choose|q: int|
                                            0 <= q < self.index.dependents@[x as int]@.len()
                                                && self.index.dependents@[x as int]@[q] == y;
                                        assert(work@[w1.len() + q] == y);
                                    } else {
                                        assert(work@[work@.len() - 1] == y);
                                    }
                                } else {
                                    assert(agree_on(n0, n1, py)) by {
                                        assert forall|k: int| 0 <= k < py.len() implies node_at(
                                            n0,
                                            #[trigger] py[k],
                                        ) == node_at(n1, py[k]) by {
                                            assert(py[k] != x);
                                        }
                                    }
                                    lemma_formula_agree(n0, n1, node_at(n0, y));
                                }
                            }
                        }
                    }
                }
            } else {
                proof {
                    assert forall|q: int|
                        0 <= q < work@.len() implies roots.contains(#[trigger] work@[q]) || exists|z: usize|
                            #[trigger] emptied.contains(z) && reads(node_at(old(self).nodes@, work@[q]), z) by {
                        assert(w0[q] == work@[q]);
                    }
                    assert forall|y: usize| !consistent_at(self.nodes@, y) implies work@.contains(
                        y,
                    ) by {
                        assert(w0.contains(y));
                        let q = choose|q: int| 0 <= q < w0.len() && w0[q] == y;
                        assert(q < work@.len());
                        assert(work@[q] == y);
                    }
                }
            }
        }
        assert forall|y: usize| #[trigger] consistent_at(self.nodes@, y) by {
            if !consistent_at(self.nodes@, y) {
                assert(work@.contains(y));
            }
        }
        assert forall|i: usize|
            i < old(self).nodes@.len() && !pending(old(self).nodes@, i) && node_at(self.nodes@, i)
                != node_at(old(self).nodes@, i) implies #[trigger] emptied.contains(i) by {}
        assert(ranked_rests(old(self).nodes@, emptied, roots, erank, ecount));
        assert(rests_on(old(self).nodes@, emptied, roots));
        stale
    }
}

impl AttributeGraph {
    /// Re-derives the pairs of the dynamic modifiers in `stale`; a pair stays
    /// absent only where its absent upstream holds a cycle.
    pub(crate) fn refresh(&mut self, stale: &Vec<usize>)
        requires
            old(self).wf(),
        ensures
            final(self).wf(),
            old(self).filled_from(final(self)),
            forall|j: int|
                0 <= j < stale@.len() && pending(final(self).nodes@, #[trigger] stale@[j])
                    ==> cyclic_upstream(final(self).nodes@, stale@[j]),
            forall|v: usize|
                pending(old(self).nodes@, v) && !pending(final(self).nodes@, v) ==> exists|j: int|
                    0 <= j < stale@.len() && #[trigger] upstream_of(final(self).nodes@, stale@[j], v),
    {
        let mut i: usize = 0;
        while i < stale.len()
            invariant
                self.wf(),
                old(self).filled_from(self),
                i <= stale@.len(),
                forall|j: int|
                    0 <= j < i && pending(self.nodes@, #[trigger] stale@[j]) ==> cyclic_upstream(
                        self.nodes@,
                        stale@[j],
                    ),
                forall|v: usize|
                    pending(old(self).nodes@, v) && !pending(self.nodes@, v) ==> exists|j: int|
                        0 <= j < i && #[trigger] upstream_of(self.nodes@, stale@[j], v),
            decreases stale.len() - i,
        {
            let ghost before = *self;
            let r = self.fetch_value(stale[i]);
            proof {
                lemma_filled_trans(*old(self), before, *self);
                assert forall|j: int|
                    0 <= j < i + 1 && pending(self.nodes@, #[trigger] stale@[j]) implies cyclic_upstream(
                        self.nodes@,
                        stale@[j],
                    ) by {
                    if j < i && r is Ok {
                        if !pending(before.nodes@, stale@[j]) {
                            assert(node_at(self.nodes@, stale@[j]) == node_at(before.nodes@, stale@[j]));
                        }
                        lemma_cycle_survives_fetch(before, *self, stale@[i as int], r, stale@[j]);
                    }
                }
                assert forall|v: usize|
                    pending(old(self).nodes@, v) && !pending(self.nodes@, v) implies exists|j: int|
                        0 <= j < i + 1 && #[trigger] upstream_of(self.nodes@, stale@[j], v) by {
                    assert forall|q: int| 0 <= q < before.nodes@.len() implies same_but_slot(
                        #[trigger] before.nodes@[q],
                        self.nodes@[q],
                    ) by {}
                    if pending(before.nodes@, v) {
                        lemma_upstream_same_shape(before.nodes@, self.nodes@, stale@[i as int], v);
                        assert(upstream_of(self.nodes@, stale@[i as int], v));
                    } else {
                        let j = choose|j: int|
                            0 <= j < i && #[trigger] upstream_of(before.nodes@, stale@[j], v);
                        lemma_upstream_same_shape(before.nodes@, self.nodes@, stale@[j], v);
                    }
                }
            }
            i = i + 1;
        }
    }

    /// Empties every slot that rests on the nodes of `start` and re-derives
    /// the dynamic modifiers among them.
    pub(crate) fn propagate(&mut self, start: Vec<usize>)
        requires
            old(self).structure_wf(),
            forall|y: usize| !consistent_at(old(self).nodes@, y) ==> start@.contains(y),
        ensures
            final(self).wf(),
            same_shape(old(self), final(self)),
            forall|i: usize|
                !pending(old(self).nodes@, i) && !is_derived(node_at(old(self).nodes@, i))
                    ==> #[trigger] node_at(final(self).nodes@, i) == node_at(old(self).nodes@, i),
            changes_rest_on(old(self).nodes@, final(self).nodes@, start@.to_set()),
            rederived(old(self).nodes@, final(self).nodes@),
            forall|i: usize|
                !pending(old(self).nodes@, i) && #[trigger] node_at(final(self).nodes@, i) != node_at(
                    old(self).nodes@,
                    i,
                ) ==> pending(final(self).nodes@, i) || exists|m: usize|
                    is_dynamic(node_at(old(self).nodes@, m)) && !pending(old(self).nodes@, m)
                        && #[trigger] upstream_of(final(self).nodes@, m, i),
    {
        let ghost roots = start@.to_set();
        let stale = self.invalidate(start);
        let ghost mid = *self;
        self.refresh(&stale);
        proof {
            assert forall|i: usize|
                !pending(old(self).nodes@, i) && !is_derived(node_at(old(self).nodes@, i))
                    implies #[trigger] node_at(self.nodes@, i) == node_at(old(self).nodes@, i) by {
                if i < old(self).nodes@.len() {
                    assert(same_but_slot(old(self).nodes@[i as int], mid.nodes@[i as int]));
                    assert(node_wf(mid.nodes@, i as int));
                    assert(node_at(mid.nodes@, i) == node_at(old(self).nodes@, i));
                }
            }
            let on = old(self).nodes@;
            let c = choose|c: Set<usize>|
                #[trigger] rests_on(on, c, roots) && forall|i: usize|
                    i < on.len() && !pending(on, i) && node_at(mid.nodes@, i) != node_at(on, i)
                        ==> #[trigger] c.contains(i);
            assert forall|i: usize|
                i < on.len() && !pending(on, i) && node_at(self.nodes@, i) != node_at(on, i)
                    implies #[trigger] c.contains(i) by {
                if node_at(mid.nodes@, i) == node_at(on, i) {
                    assert(!pending(mid.nodes@, i));
                }
            }
            assert(rests_on(on, c, roots));
            assert forall|m: usize|
                #[trigger] pending(self.nodes@, m) && !pending(on, m) && is_dynamic(node_at(on, m))
                    implies cyclic_upstream(self.nodes@, m) by {
                if node_at(mid.nodes@, m) == node_at(on, m) {
                    assert(!pending(mid.nodes@, m));
                }
                assert(stale@.contains(m));
                let j = choose|j: int| 0 <= j < stale@.len() && stale@[j] == m;
            }
            assert forall|i: usize|
                !pending(on, i) && #[trigger] node_at(self.nodes@, i) != node_at(on, i) implies pending(
                self.nodes@,
                i,
            ) || exists|m: usize|
                is_dynamic(node_at(on, m)) && !pending(on, m) && #[trigger] upstream_of(
                    self.nodes@,
                    m,
                    i,
                ) by {
                if node_at(mid.nodes@, i) == node_at(on, i) {
                    assert(!pending(mid.nodes@, i));
                }
                if i < on.len() {
                    assert(same_but_slot(on[i as int], mid.nodes@[i as int]));
                }
                if !pending(self.nodes@, i) {
                    assert(pending(mid.nodes@, i));
                    let j = choose|j: int|
                        0 <= j < stale@.len() && #[trigger] upstream_of(self.nodes@, stale@[j], i);
                    assert(is_dynamic(node_at(on, stale@[j])));
                }
            }
        }
    }
}

} // verus!
