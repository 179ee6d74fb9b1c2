//! Edits: creating attributes and modifiers, changing kinds, values and
//! pairs, and destroying modifiers and attributes, each followed by the
//! cascade.
use vstd::prelude::*;
use crate::evaluator::{cyclic_upstream, lemma_cycle_survives_fetch};
use crate::modifier::{derived_value, DynamicModifier, ModifierValue};
use crate::store::{
    left_absent, lemma_upstream_same_shape, upstream_of,
    ranked_rests,
    fixed_kept,
    lemma_rests_chain,
    is_dynamic, rederived,
    changes_rest_on, lemma_rests_transfer, reads, rests_on,
    is_derived, keeps_authored, is_computed, pending, Attribute, AttributeGraph, AttributeNode,
    ModifierNode, Node,
    consistent_at, copy_into, is_attribute, kind_refs, lemma_frame_push, lemma_frame_update,
    lemma_refs_below, lemma_same_shape_trans, node_at, node_wf, preds, ref_list, refs, resolved,
    same_but_slot, same_shape,
};

verus! {

pub(crate) fn kind_ref_vec(kind: &Attribute) -> (r: Vec<usize>)
    ensures
        r@ == kind_refs(*kind),
{
    let mut r: Vec<usize> = Vec::new();
    match kind {
        Attribute::BasedOn(p) => r.push(*p),
        Attribute::Merged(ps) => copy_into(&mut r, ps),
        _ => {},
    }
    r
}

pub(crate) fn all_below(v: &Vec<usize>, n: usize) -> (r: bool)
    ensures
        r == forall|k: int| 0 <= k < v@.len() ==> #[trigger] v@[k] < n,
{
    let mut i: usize = 0;
    while i < v.len()
        invariant
            i <= v@.len(),
            forall|k: int| 0 <= k < i ==> #[trigger] v@[k] < n,
        decreases v.len() - i,
    {
        if v[i] >= n {
            return false;
        }
        i = i + 1;
    }
    true
}

/// An attribute of kind `kind` with initial value `value` may be added to a
/// graph of `len` nodes: what it refers to exists, a `Merged` one lists each
/// parent once, and a `Fixed` one comes with its value.
pub open spec fn valid_attribute(kind: Attribute, value: Option<i64>, len: nat) -> bool {
    &&& forall|k: int| 0 <= k < kind_refs(kind).len() ==> #[trigger] kind_refs(kind)[k] < len
    &&& kind_refs(kind).no_duplicates()
    &&& (kind is Fixed ==> value is Some)
}

pub(crate) fn distinct(v: &Vec<usize>) -> (r: bool)
    ensures
        r == v@.no_duplicates(),
{
    let mut i: usize = 0;
    while i < v.len()
        invariant
            i <= v@.len(),
            forall|a: int, b: int| 0 <= a < b < v@.len() && a < i ==> v@[a] != v@[b],
        decreases v.len() - i,
    {
        let mut j: usize = i + 1;
        while j < v.len()
            invariant
                i < v@.len(),
                i + 1 <= j <= v@.len(),
                forall|a: int, b: int| 0 <= a < b < v@.len() && a < i ==> v@[a] != v@[b],
                forall|b: int| i < b < j ==> v@[i as int] != v@[b],
            decreases v.len() - j,
        {
            if v[i] == v[j] {
                return false;
            }
            j = j + 1;
        }
        i = i + 1;
    }
    true
}

impl AttributeGraph {
    /// Adds an attribute node. Refused (`None`) when `kind` refers to a node
    /// that does not exist or to one parent twice, or a `Fixed` kind comes
    /// without a value.
    /// Otherwise returns the new id; its slot is absent unless `Fixed`.
    pub fn spawn_attribute(&mut self, kind: Attribute, value: Option<i64>) -> (r: Option<usize>)
        requires
            old(self).wf(),
            old(self).nodes@.len() < usize::MAX,
        ensures
            final(self).wf(),
            r is Some <==> valid_attribute(kind, value, old(self).nodes@.len()),
            r is None ==> *final(self) == *old(self),
            r is Some ==> {
                &&& r->0 == old(self).nodes@.len()
                &&& final(self).nodes@.len() == old(self).nodes@.len() + 1
                &&& final(self).nodes@.take(old(self).nodes@.len() as int) == old(self).nodes@
                &&& final(self).nodes@[r->0 as int] matches Node::Attribute(a) && a.kind == kind
                    && a.modifiers@.len() == 0 && a.value == if kind is Fixed { value } else { None }
            },
    {
        let edges = kind_ref_vec(&kind);
        let fixed = match &kind {
            Attribute::Fixed => true,
            _ => false,
        };
        if !all_below(&edges, self.nodes.len()) || !distinct(&edges) || (fixed && value.is_none()) {
            return None;
        }
        let id = self.nodes.len();
        let ghost n0 = self.nodes@;
        let node = Node::Attribute(
            AttributeNode { kind, value: if fixed { value } else { None }, modifiers: Vec::new() },
        );
        self.nodes.push(node);
        self.index.push_node();
        self.index.increase_all(id, &edges);
        proof {
            let n1 = self.nodes@;
            assert(n1 == n0.push(node));
            assert(n1.take(n0.len() as int) == n0);
            assert(ref_list(node) == edges@);
            assert(preds(node) == edges@);
            assert forall|x: int| 0 <= x < n1.len() implies #[trigger] node_wf(n1, x) by {
                if x < n0.len() {
                    assert(n1[x] == n0[x]);
                    assert(node_wf(n0, x));
                }
            }
            assert forall|x: int, k: int|
                0 <= x < n1.len() && 0 <= k < preds(n1[x]).len() implies #[trigger] preds(n1[x])[k]
                    < n1.len() by {
                if x < n0.len() {
                    assert(n1[x] == n0[x]);
                }
            }
            assert forall|x: usize, p: usize| x < n1.len() && p < n1.len() implies
                #[trigger] self.index.count(x as int, p) == refs(n1[x as int], p) by {
                if x < n0.len() {
                    assert(n1[x as int] == n0[x as int]);
                    if p < n0.len() {
                        assert(old(self).index.count(x as int, p) == refs(n0[x as int], p));
                    } else {
                        lemma_refs_below(n0[x as int], n0.len(), p);
                    }
                }
            }
            assert forall|y: usize| #[trigger] consistent_at(n1, y) by {
                if y < n0.len() {
                    assert(consistent_at(n0, y));
                    assert(n0[y as int] == old(self).nodes@[y as int]);
                    lemma_frame_push(n0, node, y);
                }
            }
        }
        Some(id)
    }

    /// Sets the value of `Fixed` attribute `x` and empties every slot that
    /// rests on it; dynamic modifiers among them are re-derived at once, which
    /// memoizes their own upstream. Returns whether `x` is a `Fixed`
    /// attribute; when it is not, nothing changes.
    pub fn set_value(&mut self, x: usize, v: i64) -> (r: bool)
        requires
            old(self).wf(),
        ensures
            final(self).wf(),
            r ==> left_absent(old(self).nodes@, final(self).nodes@, x, x, Set::empty()),
            rederived(old(self).nodes@, final(self).nodes@),
            r ==> changes_rest_on(old(self).nodes@, final(self).nodes@, set![x, x]),
            keeps_authored(old(self).nodes@, final(self).nodes@, x, x),
            r == (node_at(old(self).nodes@, x) matches Node::Attribute(a) && a.kind is Fixed),
            !r ==> *final(self) == *old(self),
            r ==> same_shape(old(self), final(self)) && resolved(final(self).nodes@, x) == Some(v),
    {
        let is_fixed = x < self.nodes.len() && match &self.nodes[x] {
            Node::Attribute(a) => match a.kind {
                Attribute::Fixed => true,
                _ => false,
            },
            _ => false,
        };
        if !is_fixed {
            return false;
        }
        let ghost g0 = *self;
        let ghost n0 = self.nodes@;
        let mut taken = Node::Vacant;
        std::mem::swap(&mut self.nodes[x], &mut taken);
        let node = match taken {
            Node::Attribute(a) => Node::Attribute(
                AttributeNode { kind: a.kind, value: Some(v), modifiers: a.modifiers },
            ),
            other => other,
        };
        self.nodes.set(x, node);
        let mut start: Vec<usize> = Vec::new();
        copy_into(&mut start, self.index.dependents_of(x));
        proof {
            let n1 = self.nodes@;
            assert(n1 == n0.update(x as int, node));
            assert(same_shape(&g0, self));
            assert forall|y: usize| !consistent_at(n1, y) implies start@.contains(y) by {
                assert(consistent_at(n0, y));
                if y != x {
                    if is_computed(node_at(n0, y)) && preds(node_at(n0, y)).contains(x) {
                        let k = choose|k: int|
                            0 <= k < preds(node_at(n0, y)).len() && preds(node_at(n0, y))[k] == x;
                        g0.lemma_reader_is_linked(y, x, k);
                        assert(self.index.dependents@[x as int]@.contains(y));
                    } else {
                        lemma_frame_update(n0, n1, x, y);
                    }
                }
            }
            assert forall|i: int| 0 <= i < n1.len() implies #[trigger] node_wf(n1, i) by {
                assert(same_but_slot(n0[i], n1[i]));
                assert(node_wf(n0, i));
            }
            assert forall|a: int, k: int|
                0 <= a < n1.len() && 0 <= k < preds(n1[a]).len() implies #[trigger] preds(n1[a])[k]
                    < n1.len() by {
                assert(preds(n1[a]) == preds(n0[a]));
            }
            assert forall|a: usize, p: usize| a < n1.len() && p < n1.len() implies
                #[trigger] self.index.count(a as int, p) == refs(n1[a as int], p) by {
                assert(refs(n1[a as int], p) == refs(n0[a as int], p));
            }
        }
        let ghost g1 = *self;
        let ghost st = start@;
        self.propagate(start);
        proof {
            assert forall|i: usize|
                i != x && i != x && i < n0.len() && !pending(n0, i) && #[trigger] node_at(self.nodes@, i)
                    != node_at(n0, i) implies pending(self.nodes@, i) || exists|mm: usize|
                (Set::<usize>::empty().contains(mm) || (is_dynamic(node_at(n0, mm)) && !pending(n0, mm)))
                    && #[trigger] upstream_of(self.nodes@, mm, i) by {
                assert(node_at(g1.nodes@, i) == node_at(n0, i));
                if !pending(self.nodes@, i) {
                    let mm = choose|mm: usize|
                        is_dynamic(node_at(g1.nodes@, mm)) && !pending(g1.nodes@, mm)
                            && #[trigger] upstream_of(self.nodes@, mm, i);
                    assert(node_at(g1.nodes@, mm) == node_at(n0, mm));
                }
            }
        }
        proof {
            assert forall|mm: usize|
                #[trigger] pending(self.nodes@, mm) && !pending(n0, mm) && is_dynamic(node_at(n0, mm))
                    implies cyclic_upstream(self.nodes@, mm) by {
                if node_at(g1.nodes@, mm) != node_at(n0, mm) {
                    assert(same_but_slot(g1.nodes@[mm as int], self.nodes@[mm as int]));
                }
            }
        }
        proof {
            let n_mid = g1.nodes@;
            let roots = set![x, x];
            assert forall|y: usize| !roots.contains(y) implies #[trigger] node_at(n_mid, y) == node_at(
                n0,
                y,
            ) by {}
            assert forall|y: usize| #[trigger] st.to_set().contains(y) implies roots.contains(y)
                || exists|z: usize| #[trigger] roots.contains(z) && reads(node_at(n0, y), z) by {
                assert(st.contains(y));
                let q = choose|q: int| 0 <= q < st.len() && st[q] == y;
                if q < g1.index.dependents@[x as int]@.len() {
                    assert(g1.index.dependents@[x as int]@[q] == y);
                    g1.lemma_dependent_reads(x, y);
                    assert(roots.contains(x));
                }
                if !roots.contains(y) {
                    assert(node_at(n_mid, y) == node_at(n0, y));
                }
            }
            lemma_rests_transfer(n0, n_mid, self.nodes@, st.to_set(), roots);
        }
        proof {
            assert forall|i: usize|
                i != x && i != x && i < n0.len() && !is_derived(#[trigger] node_at(n0, i))
                    implies node_at(self.nodes@, i) == node_at(n0, i) by {
                assert(node_at(g1.nodes@, i) == node_at(n0, i));
                assert(node_wf(g1.nodes@, i as int));
            }
        }
        proof {
            lemma_same_shape_trans(g0, g1, *self);
            assert(node_at(self.nodes@, x) == node_at(g1.nodes@, x));
        }
        true
    }
}

impl AttributeGraph {
    /// The nodes that read `x`, followed by `x` itself.
    pub(crate) fn readers_and_self(&self, x: usize) -> (r: Vec<usize>)
        requires
            self.index.wf(),
            x < self.index.len(),
        ensures
            r@ == self.index.dependents@[x as int]@.push(x),
    {
        let mut r: Vec<usize> = Vec::new();
        copy_into(&mut r, self.index.dependents_of(x));
        r.push(x);
        r
    }

    /// Adds a modifier node targeting `target`, then brings the graph up to
    /// date.
    pub(crate) fn attach(
        &mut self,
        target: usize,
        value: Option<ModifierValue>,
        dynamic: Option<DynamicModifier>,
    ) -> (r: Option<usize>)
        requires
            old(self).wf(),
            old(self).nodes@.len() + 1 < usize::MAX,
            dynamic is None ==> value is Some,
            dynamic is Some ==> value is None,
        ensures
            final(self).wf(),
            r is Some ==> left_absent(old(self).nodes@, final(self).nodes@, target, r->0, Set::empty()),
            fixed_kept(old(self).nodes@, final(self).nodes@, target),
            rederived(old(self).nodes@, final(self).nodes@),
            r is Some ==> changes_rest_on(old(self).nodes@, final(self).nodes@, set![target, r->0]),
            keeps_authored(old(self).nodes@, final(self).nodes@, target, target),
            r is Some <==> (is_attribute(old(self).nodes@, target) && (dynamic is Some
                ==> dynamic->0.source < old(self).nodes@.len())),
            r is None ==> *final(self) == *old(self),
            r is Some ==> attached(old(self), final(self), r->0, target, dynamic)
                && (dynamic is None ==> final(self).nodes@[r->0 as int]->Modifier_0.value == value),
    {
        if !(target < self.nodes.len() && match &self.nodes[target] {
            Node::Attribute(_) => true,
            _ => false,
        }) {
            return None;
        }
        let mut edges: Vec<usize> = Vec::new();
        match &dynamic {
            Some(d) => {
                if d.source >= self.nodes.len() {
                    return None;
                }
                edges.push(d.source);
            },
            None => {},
        }
        let ghost g0 = *self;
        let ghost n0 = self.nodes@;
        let id = self.nodes.len();
        let node = Node::Modifier(ModifierNode { target, value, dynamic });
        self.nodes.push(node);
        self.index.push_node();
        self.index.increase_all(id, &edges);
        let ghost n1 = self.nodes@;
        let mut taken = Node::Vacant;
        std::mem::swap(&mut self.nodes[target], &mut taken);
        let updated = match taken {
            Node::Attribute(a) => {
                let mut ms = a.modifiers;
                ms.push(id);
                Node::Attribute(AttributeNode { kind: a.kind, value: a.value, modifiers: ms })
            },
            other => other,
        };
        self.nodes.set(target, updated);
        proof {
            let n2 = self.nodes@;
            assert(n1 == n0.push(node));
            assert(n2 == n1.update(target as int, updated));
            assert(ref_list(node) == edges@);
            assert(node_wf(n0, target as int));
            let ot = n0[target as int]->Attribute_0;
            let nt = n2[target as int]->Attribute_0;
            assert(nt.modifiers@ == ot.modifiers@.push(id));
            assert(!ot.modifiers@.contains(id)) by {
                if ot.modifiers@.contains(id) {
                    let k = choose|k: int| 0 <= k < ot.modifiers@.len() && ot.modifiers@[k] == id;
                    assert(ot.modifiers@[k] < n0.len());
                }
            }
            assert forall|x: int| 0 <= x < n2.len() implies #[trigger] node_wf(n2, x) by {
                if x < n0.len() {
                    assert(node_wf(n0, x));
                    match n2[x] {
                        Node::Attribute(a) => {
                            assert forall|k: int| 0 <= k < a.modifiers@.len() implies {
                                let m = #[trigger] a.modifiers@[k];
                                m < n2.len() && n2[m as int] is Modifier
                                    && n2[m as int]->Modifier_0.target == x
                            } by {
                                let m = a.modifiers@[k];
                                if x == target && k == a.modifiers@.len() - 1 {
                                    assert(m == id);
                                } else {
                                    assert(n0[x]->Attribute_0.modifiers@[k] == m);
                                    assert(n0[m as int] is Modifier);
                                    assert(n2[m as int] == n0[m as int]);
                                }
                            }
                        },
                        Node::Modifier(md) => {
                            let t = md.target;
                            assert(n0[x] == n2[x]);
                            assert(n0[t as int]->Attribute_0.modifiers@.contains(x as usize));
                            if t == target {
                                let j = choose|j: int|
                                    0 <= j < ot.modifiers@.len() && ot.modifiers@[j] == x as usize;
                                assert(nt.modifiers@[j] == x as usize);
                            } else {
                                assert(n2[t as int] == n0[t as int]);
                            }
                        },
                        _ => {},
                    }
                } else {
                    assert(x == id);
                    assert(nt.modifiers@[nt.modifiers@.len() - 1] == id);
                }
            }
            assert forall|x: int, k: int|
                0 <= x < n2.len() && 0 <= k < preds(n2[x]).len() implies #[trigger] preds(n2[x])[k]
                    < n2.len() by {
                if x < n0.len() && x != target {
                    assert(n2[x] == n0[x]);
                } else if x == target {
                    let pt = preds(n0[x]);
                    match ot.kind {
                        Attribute::Plain(_) => {
                            if k < ot.modifiers@.len() {
                                assert(preds(n2[x])[k] == pt[k]);
                            } else {
                                assert(preds(n2[x])[k] == id);
                            }
                        },
                        Attribute::BasedOn(p) => {
                            if k == 0 {
                                assert(preds(n2[x])[k] == pt[k]);
                            } else if k - 1 < ot.modifiers@.len() {
                                assert(preds(n2[x])[k] == nt.modifiers@[k - 1]);
                                assert(preds(n2[x])[k] == pt[k]);
                            } else {
                                assert(preds(n2[x])[k] == nt.modifiers@[k - 1]);
                            }
                        },
                        _ => {
                            assert(preds(n2[x]) == pt);
                        },
                    }
                }
            }
            assert forall|x: usize, p: usize| x < n2.len() && p < n2.len() implies
                #[trigger] self.index.count(x as int, p) == refs(n2[x as int], p) by {
                if x < n0.len() {
                    assert(refs(n2[x as int], p) == refs(n0[x as int], p));
                    if p < n0.len() {
                        assert(g0.index.count(x as int, p) == refs(n0[x as int], p));
                    } else {
                        lemma_refs_below(n0[x as int], n0.len(), p);
                    }
                }
            }
            assert(self.structure_wf());
            assert forall|y: usize| !consistent_at(n2, y) implies self.index.dependents@[
                target as int]@.push(target).contains(y) by {
                let st = self.index.dependents@[target as int]@.push(target);
                if y == target {
                    assert(st[st.len() - 1] == target);
                } else if y < n0.len() {
                    assert(consistent_at(n0, y));
                    assert(n0[y as int] == g0.nodes@[y as int]);
                    lemma_frame_push(n0, node, y);
                    assert(node_at(n1, y) == node_at(n0, y));
                    if is_computed(node_at(n1, y)) && preds(node_at(n1, y)).contains(target) {
                        let k = choose|k: int|
                            0 <= k < preds(node_at(n1, y)).len() && preds(node_at(n1, y))[k] == target;
                        assert(node_at(n2, y) == node_at(n1, y));
                        self.lemma_reader_is_linked(y, target, k);
                        let q = choose|q: int|
                            0 <= q < self.index.dependents@[target as int]@.len()
                                && self.index.dependents@[target as int]@[q] == y;
                        assert(st[q] == y);
                    } else {
                        lemma_frame_update(n1, n2, target, y);
                    }
                }
            }
        }
        let start = self.readers_and_self(target);
        let ghost g1 = *self;
        let ghost st = start@;
        self.propagate(start);
        proof {
            assert forall|i: usize|
                i != target && i != id && i < n0.len() && !pending(n0, i) && #[trigger] node_at(self.nodes@, i)
                    != node_at(n0, i) implies pending(self.nodes@, i) || exists|mm: usize|
                (Set::<usize>::empty().contains(mm) || (is_dynamic(node_at(n0, mm)) && !pending(n0, mm)))
                    && #[trigger] upstream_of(self.nodes@, mm, i) by {
                assert(node_at(g1.nodes@, i) == node_at(n0, i));
                if !pending(self.nodes@, i) {
                    let mm = choose|mm: usize|
                        is_dynamic(node_at(g1.nodes@, mm)) && !pending(g1.nodes@, mm)
                            && #[trigger] upstream_of(self.nodes@, mm, i);
                    assert(node_at(g1.nodes@, mm) == node_at(n0, mm));
                }
            }
        }
        proof {
            if target < n0.len() && (node_at(n0, target) matches Node::Attribute(a) && a.kind is Fixed) {
                assert(node_wf(g1.nodes@, target as int));
                assert(node_at(self.nodes@, target) == node_at(g1.nodes@, target));
            }
        }
        proof {
            assert forall|mm: usize|
                #[trigger] pending(self.nodes@, mm) && !pending(n0, mm) && is_dynamic(node_at(n0, mm))
                    implies cyclic_upstream(self.nodes@, mm) by {
                if node_at(g1.nodes@, mm) != node_at(n0, mm) {
                    assert(same_but_slot(g1.nodes@[mm as int], self.nodes@[mm as int]));
                }
            }
        }
        proof {
            let n_mid = g1.nodes@;
            let roots = set![target, id];
            assert forall|y: usize| !roots.contains(y) implies #[trigger] node_at(n_mid, y) == node_at(
                n0,
                y,
            ) by {}
            assert forall|y: usize| #[trigger] st.to_set().contains(y) implies roots.contains(y)
                || exists|z: usize| #[trigger] roots.contains(z) && reads(node_at(n0, y), z) by {
                assert(st.contains(y));
                let q = choose|q: int| 0 <= q < st.len() && st[q] == y;
                if q < g1.index.dependents@[target as int]@.len() {
                    assert(g1.index.dependents@[target as int]@[q] == y);
                    g1.lemma_dependent_reads(target, y);
                    assert(roots.contains(target));
                }
                if !roots.contains(y) {
                    assert(node_at(n_mid, y) == node_at(n0, y));
                }
            }
            lemma_rests_transfer(n0, n_mid, self.nodes@, st.to_set(), roots);
        }
        proof {
            assert forall|i: usize|
                i != target && i != target && i < n0.len() && !is_derived(#[trigger] node_at(n0, i))
                    implies node_at(self.nodes@, i) == node_at(n0, i) by {
                assert(node_at(g1.nodes@, i) == node_at(n0, i));
                assert(node_wf(g1.nodes@, i as int));
            }
        }
        proof {
            let n3 = self.nodes@;
            assert(attached(&g0, &g1, id, target, dynamic));
            assert(same_but_slot(g1.nodes@[id as int], n3[id as int]));
            assert(same_but_slot(g1.nodes@[target as int], n3[target as int]));
            assert forall|i: int| 0 <= i < n0.len() && i != target implies same_but_slot(
                #[trigger] n0[i],
                n3[i],
            ) by {
                assert(same_but_slot(g1.nodes@[i], n3[i]));
                assert(same_but_slot(n0[i], g1.nodes@[i]));
            }
            if dynamic is None {
                assert(node_at(n3, id) == node_at(g1.nodes@, id));
            }
        }
        Some(id)
    }
}

/// `after` is `before` with modifier `id` appended, targeting `target`.
pub open spec fn attached(
    before: &AttributeGraph,
    after: &AttributeGraph,
    id: usize,
    target: usize,
    dynamic: Option<DynamicModifier>,
) -> bool {
    let n0 = before.nodes@;
    let n1 = after.nodes@;
    &&& id == n0.len()
    &&& n1.len() == n0.len() + 1
    &&& n1[id as int] matches Node::Modifier(m) && m.target == target && m.dynamic == dynamic
    &&& n1[target as int] matches Node::Attribute(a) && a.kind == n0[target as int]->Attribute_0.kind
        && a.modifiers@ == n0[target as int]->Attribute_0.modifiers@.push(id)
    &&& forall|i: int| 0 <= i < n0.len() && i != target ==> same_but_slot(#[trigger] n0[i], n1[i])
}

impl AttributeGraph {
    /// Attaches a static modifier `(ratio, delta)` to attribute `target`
    /// and empties every slot that rests on it. `None` when `target` is no
    /// attribute; then nothing changes.
    pub fn add_modifier(&mut self, target: usize, ratio: i64, delta: i64) -> (r: Option<usize>)
        requires
            old(self).wf(),
            old(self).nodes@.len() + 1 < usize::MAX,
        ensures
            final(self).wf(),
            r is Some ==> left_absent(old(self).nodes@, final(self).nodes@, target, r->0, Set::empty()),
            fixed_kept(old(self).nodes@, final(self).nodes@, target),
            rederived(old(self).nodes@, final(self).nodes@),
            r is Some ==> changes_rest_on(old(self).nodes@, final(self).nodes@, set![target, r->0]),
            keeps_authored(old(self).nodes@, final(self).nodes@, target, target),
            r is Some <==> is_attribute(old(self).nodes@, target),
            r is None ==> *final(self) == *old(self),
            r is Some ==> attached(old(self), final(self), r->0, target, None)
                && final(self).nodes@[r->0 as int]->Modifier_0.value == Some(
                ModifierValue { ratio, delta },
            ),
    {
        self.attach(target, Some(ModifierValue { ratio, delta }), None)
    }

    /// Attaches dynamic modifier `m` to attribute `target`, registers it as a
    /// dependent of its source and derives its pair at once. `None` when
    /// `target` is no attribute or the source does not exist; then nothing
    /// changes. The pair stays absent only when deriving it met a cycle.
    pub fn add_dynamic_modifier(&mut self, target: usize, m: DynamicModifier) -> (r: Option<usize>)
        requires
            old(self).wf(),
            old(self).nodes@.len() + 1 < usize::MAX,
        ensures
            final(self).wf(),
            r is Some ==> left_absent(old(self).nodes@, final(self).nodes@, target, r->0, set![r->0]),
            fixed_kept(old(self).nodes@, final(self).nodes@, target),
            rederived(old(self).nodes@, final(self).nodes@),
            r is Some ==> changes_rest_on(old(self).nodes@, final(self).nodes@, set![target, r->0]),
            keeps_authored(old(self).nodes@, final(self).nodes@, target, target),
            r is Some <==> (is_attribute(old(self).nodes@, target) && m.source < old(
                self,
            ).nodes@.len()),
            r is None ==> *final(self) == *old(self),
            r is Some ==> attached(old(self), final(self), r->0, target, Some(m)) && {
                let v = final(self).nodes@[r->0 as int]->Modifier_0.value;
                &&& v is Some ==> v == Some(derived_value(m, resolved(final(self).nodes@, m.source)))
                &&& v is None ==> pending(final(self).nodes@, m.source) && cyclic_upstream(
                    final(self).nodes@,
                    r->0,
                )
            },
    {
        let r = self.attach(target, None, Some(m));
        match r {
            Some(id) => {
                let ghost g1 = *self;
                let fr = self.fetch_value(id);
                proof {
                    assert forall|mm: usize|
                        #[trigger] pending(self.nodes@, mm) && !pending(old(self).nodes@, mm)
                            && is_dynamic(node_at(old(self).nodes@, mm)) implies cyclic_upstream(
                        self.nodes@,
                        mm,
                    ) by {
                        if !pending(g1.nodes@, mm) {
                            assert(node_at(self.nodes@, mm) == node_at(g1.nodes@, mm));
                        }
                        assert(pending(g1.nodes@, mm));
                        if fr is Ok {
                            lemma_cycle_survives_fetch(g1, *self, id, fr, mm);
                        }
                    }
                    let n1 = g1.nodes@;
                    let n2 = self.nodes@;
                    assert(same_but_slot(n1[id as int], n2[id as int]));
                    assert(same_but_slot(n1[target as int], n2[target as int]));
                    assert forall|i: int|
                        0 <= i < old(self).nodes@.len() && i != target implies same_but_slot(
                        #[trigger] old(self).nodes@[i],
                        n2[i],
                    ) by {
                        assert(same_but_slot(old(self).nodes@[i], n1[i]));
                        assert(same_but_slot(n1[i], n2[i]));
                    }
                    assert(consistent_at(n2, id));
                    assert forall|i: usize|
                        i != target && i != id && i < old(self).nodes@.len() && !pending(old(self).nodes@, i)
                            && #[trigger] node_at(n2, i) != node_at(old(self).nodes@, i) implies pending(n2, i)
                        || exists|mm: usize|
                        (set![id].contains(mm) || (is_dynamic(node_at(old(self).nodes@, mm)) && !pending(
                            old(self).nodes@,
                            mm,
                        ))) && #[trigger] upstream_of(n2, mm, i) by {
                        assert forall|q: int| 0 <= q < n1.len() implies same_but_slot(
                            #[trigger] n1[q],
                            n2[q],
                        ) by {}
                        if node_at(n1, i) == node_at(old(self).nodes@, i) {
                            assert(!pending(n1, i));
                        }
                        if !pending(n2, i) {
                            if pending(n1, i) {
                                assert(upstream_of(n1, id, i));
                                lemma_upstream_same_shape(n1, n2, id, i);
                                assert(set![id].contains(id));
                            } else {
                                let mm = choose|mm: usize|
                                    (Set::<usize>::empty().contains(mm) || (is_dynamic(
                                        node_at(old(self).nodes@, mm),
                                    ) && !pending(old(self).nodes@, mm))) && #[trigger] upstream_of(n1, mm, i);
                                lemma_upstream_same_shape(n1, n2, mm, i);
                            }
                        }
                    }
                    if node_at(old(self).nodes@, target) matches Node::Attribute(a) && a.kind is Fixed {
                        assert(node_wf(n1, target as int));
                        assert(node_at(n2, target) == node_at(n1, target));
                    }
                    let on = old(self).nodes@;
                    let roots = set![target, id];
                    let c = choose|c: Set<usize>|
                        #[trigger] rests_on(on, c, roots) && forall|i: usize|
                            i < on.len() && !pending(on, i) && node_at(n1, i) != node_at(on, i)
                                ==> #[trigger] c.contains(i);
                    assert forall|i: usize|
                        i < on.len() && !pending(on, i) && node_at(n2, i) != node_at(on, i)
                            implies #[trigger] c.contains(i) by {
                        if node_at(n1, i) == node_at(on, i) {
                            assert(!pending(n1, i));
                        }
                    }
                    assert(rests_on(on, c, roots));
                    assert forall|i: usize|
                        i != target && i < old(self).nodes@.len() && !is_derived(
                            #[trigger] node_at(old(self).nodes@, i),
                        ) implies node_at(n2, i) == node_at(old(self).nodes@, i) by {
                        assert(node_at(n1, i) == node_at(old(self).nodes@, i));
                        assert(node_wf(n1, i as int));
                    }
                    assert(preds(node_at(n1, id)) == seq![m.source]);
                    if !pending(n1, m.source) {
                        assert(preds(node_at(n1, id))[0] == m.source);
                    }
                }
            },
            None => {},
        }
        r
    }

    /// Replaces the pair of static modifier `m` and empties every slot that
    /// rests on it. Returns whether `m` is a static modifier; when it is not,
    /// nothing changes.
    pub fn update_modifier(&mut self, m: usize, ratio: i64, delta: i64) -> (r: bool)
        requires
            old(self).wf(),
        ensures
            final(self).wf(),
            r ==> left_absent(
                old(self).nodes@,
                final(self).nodes@,
                m,
                old(self).nodes@[m as int]->Modifier_0.target,
                Set::empty(),
            ),
            r ==> fixed_kept(
                old(self).nodes@,
                final(self).nodes@,
                old(self).nodes@[m as int]->Modifier_0.target,
            ),
            rederived(old(self).nodes@, final(self).nodes@),
            r ==> changes_rest_on(
                old(self).nodes@,
                final(self).nodes@,
                set![m, old(self).nodes@[m as int]->Modifier_0.target],
            ),
            keeps_authored(old(self).nodes@, final(self).nodes@, m, m),
            r == (node_at(old(self).nodes@, m) matches Node::Modifier(md) && md.dynamic is None),
            !r ==> *final(self) == *old(self),
            r ==> same_shape(old(self), final(self)) && final(self).nodes@[m as int]->Modifier_0.value
                == Some(ModifierValue { ratio, delta }),
    {
        let is_static = m < self.nodes.len() && match &self.nodes[m] {
            Node::Modifier(md) => md.dynamic.is_none(),
            _ => false,
        };
        if !is_static {
            return false;
        }
        let ghost g0 = *self;
        let ghost n0 = self.nodes@;
        let mut taken = Node::Vacant;
        std::mem::swap(&mut self.nodes[m], &mut taken);
        let (node, target) = match taken {
            Node::Modifier(md) => (
                Node::Modifier(
                    ModifierNode {
                        target: md.target,
                        value: Some(ModifierValue { ratio, delta }),
                        dynamic: md.dynamic,
                    },
                ),
                md.target,
            ),
            other => (other, 0),
        };
        self.nodes.set(m, node);
        let mut start: Vec<usize> = Vec::new();
        copy_into(&mut start, self.index.dependents_of(m));
        start.push(target);
        proof {
            let n1 = self.nodes@;
            assert(n1 == n0.update(m as int, node));
            assert(same_shape(&g0, self));
            assert forall|i: int| 0 <= i < n1.len() implies #[trigger] node_wf(n1, i) by {
                assert(node_wf(n0, i));
                assert(same_but_slot(n0[i], n1[i]));
                match n1[i] {
                    Node::Attribute(a) => {
                        assert forall|k: int| 0 <= k < a.modifiers@.len() implies {
                            let e = #[trigger] a.modifiers@[k];
                            e < n1.len() && n1[e as int] is Modifier
                                && n1[e as int]->Modifier_0.target == i
                        } by {
                            let e = a.modifiers@[k];
                            assert(n0[i]->Attribute_0.modifiers@[k] == e);
                            assert(same_but_slot(n0[e as int], n1[e as int]));
                        }
                    },
                    _ => {},
                }
            }
            assert forall|a: int, k: int|
                0 <= a < n1.len() && 0 <= k < preds(n1[a]).len() implies #[trigger] preds(n1[a])[k]
                    < n1.len() by {
                assert(preds(n1[a]) == preds(n0[a]));
            }
            assert forall|a: usize, p: usize| a < n1.len() && p < n1.len() implies
                #[trigger] self.index.count(a as int, p) == refs(n1[a as int], p) by {
                assert(refs(n1[a as int], p) == refs(n0[a as int], p));
            }
            assert forall|y: usize| !consistent_at(n1, y) implies start@.contains(y) by {
                assert(consistent_at(n0, y));
                if y != m {
                    if is_computed(node_at(n0, y)) && preds(node_at(n0, y)).contains(m) {
                        let k = choose|k: int|
                            0 <= k < preds(node_at(n0, y)).len() && preds(node_at(n0, y))[k] == m;
                        g0.lemma_reader_is_linked(y, m, k);
                        if y == target {
                            assert(start@[start@.len() - 1] == y);
                        } else {
                            let q = choose|q: int|
                                0 <= q < self.index.dependents@[m as int]@.len()
                                    && self.index.dependents@[m as int]@[q] == y;
                            assert(start@[q] == y);
                        }
                    } else {
                        lemma_frame_update(n0, n1, m, y);
                    }
                }
            }
        }
        let ghost g1 = *self;
        let ghost st = start@;
        self.propagate(start);
        proof {
            assert forall|i: usize|
                i != m && i != target && i < n0.len() && !pending(n0, i) && #[trigger] node_at(self.nodes@, i)
                    != node_at(n0, i) implies pending(self.nodes@, i) || exists|mm: usize|
                (Set::<usize>::empty().contains(mm) || (is_dynamic(node_at(n0, mm)) && !pending(n0, mm)))
                    && #[trigger] upstream_of(self.nodes@, mm, i) by {
                assert(node_at(g1.nodes@, i) == node_at(n0, i));
                if !pending(self.nodes@, i) {
                    let mm = choose|mm: usize|
                        is_dynamic(node_at(g1.nodes@, mm)) && !pending(g1.nodes@, mm)
                            && #[trigger] upstream_of(self.nodes@, mm, i);
                    assert(node_at(g1.nodes@, mm) == node_at(n0, mm));
                }
            }
        }
        proof {
            if target < n0.len() && (node_at(n0, target) matches Node::Attribute(a) && a.kind is Fixed) {
                assert(node_wf(g1.nodes@, target as int));
                assert(node_at(self.nodes@, target) == node_at(g1.nodes@, target));
            }
        }
        proof {
            assert forall|mm: usize|
                #[trigger] pending(self.nodes@, mm) && !pending(n0, mm) && is_dynamic(node_at(n0, mm))
                    implies cyclic_upstream(self.nodes@, mm) by {
                if node_at(g1.nodes@, mm) != node_at(n0, mm) {
                    assert(same_but_slot(g1.nodes@[mm as int], self.nodes@[mm as int]));
                }
            }
        }
        proof {
            let n_mid = g1.nodes@;
            let roots = set![m, target];
            assert forall|y: usize| !roots.contains(y) implies #[trigger] node_at(n_mid, y) == node_at(
                n0,
                y,
            ) by {}
            assert forall|y: usize| #[trigger] st.to_set().contains(y) implies roots.contains(y)
                || exists|z: usize| #[trigger] roots.contains(z) && reads(node_at(n0, y), z) by {
                assert(st.contains(y));
                let q = choose|q: int| 0 <= q < st.len() && st[q] == y;
                if q < g1.index.dependents@[m as int]@.len() {
                    assert(g1.index.dependents@[m as int]@[q] == y);
                    g1.lemma_dependent_reads(m, y);
                    assert(roots.contains(m));
                }
                if !roots.contains(y) {
                    assert(node_at(n_mid, y) == node_at(n0, y));
                }
            }
            lemma_rests_transfer(n0, n_mid, self.nodes@, st.to_set(), roots);
        }
        proof {
            assert forall|i: usize|
                i != m && i != m && i < n0.len() && !is_derived(#[trigger] node_at(n0, i))
                    implies node_at(self.nodes@, i) == node_at(n0, i) by {
                assert(node_at(g1.nodes@, i) == node_at(n0, i));
                assert(node_wf(g1.nodes@, i as int));
            }
        }
        proof {
            lemma_same_shape_trans(g0, g1, *self);
            assert(node_at(self.nodes@, m) == node_at(g1.nodes@, m));
        }
        true
    }
}

pub(crate) fn dynamic_edges(d: &Option<DynamicModifier>) -> (r: Vec<usize>)
    ensures
        r@ == match *d {
            Some(x) => seq![x.source],
            None => Seq::<usize>::empty(),
        },
{
    let mut r: Vec<usize> = Vec::new();
    match d {
        Some(x) => r.push(x.source),
        None => {},
    }
    r
}

impl AttributeGraph {
    /// Detaches and destroys modifier `m`: its dependency edge is released,
    /// it leaves its target's modifiers, and every slot that rests on it is
    /// emptied. Returns whether `m` is a modifier; when it is not, nothing
    /// changes.
    pub fn remove_modifier(&mut self, m: usize) -> (r: bool)
        requires
            old(self).wf(),
        ensures
            final(self).wf(),
            r ==> left_absent(
                old(self).nodes@,
                final(self).nodes@,
                m,
                old(self).nodes@[m as int]->Modifier_0.target,
                Set::empty(),
            ),
            r ==> fixed_kept(
                old(self).nodes@,
                final(self).nodes@,
                old(self).nodes@[m as int]->Modifier_0.target,
            ),
            rederived(old(self).nodes@, final(self).nodes@),
            r ==> changes_rest_on(
                old(self).nodes@,
                final(self).nodes@,
                set![m, old(self).nodes@[m as int]->Modifier_0.target],
            ),
            keeps_authored(
                old(self).nodes@,
                final(self).nodes@,
                m,
                old(self).nodes@[m as int]->Modifier_0.target,
            ),
            r == node_at(old(self).nodes@, m) is Modifier,
            !r ==> *final(self) == *old(self),
            r ==> {
                let target = old(self).nodes@[m as int]->Modifier_0.target;
                &&& final(self).nodes@.len() == old(self).nodes@.len()
                &&& final(self).nodes@[m as int] is Vacant
                &&& final(self).nodes@[target as int] matches Node::Attribute(a) && a.kind
                    == old(self).nodes@[target as int]->Attribute_0.kind && a.modifiers@.to_set()
                    == old(self).nodes@[target as int]->Attribute_0.modifiers@.to_set().remove(m)
                    && a.modifiers@.len() + 1 == old(
                    self,
                ).nodes@[target as int]->Attribute_0.modifiers@.len()
                &&& forall|i: int|
                    0 <= i < old(self).nodes@.len() && i != m && i != target ==> same_but_slot(
                        #[trigger] old(self).nodes@[i],
                        final(self).nodes@[i],
                    )
            },
    {
        let is_mod = m < self.nodes.len() && match &self.nodes[m] {
            Node::Modifier(_) => true,
            _ => false,
        };
        if !is_mod {
            return false;
        }
        let ghost g0 = *self;
        let ghost n0 = self.nodes@;
        let (target, edges) = match &self.nodes[m] {
            Node::Modifier(md) => (md.target, dynamic_edges(&md.dynamic)),
            _ => (0, Vec::new()),
        };
        proof {
            assert(node_wf(n0, m as int));
            assert(node_wf(n0, target as int));
        }
        let target_is_attr = match &self.nodes[target] {
            Node::Attribute(_) => true,
            _ => false,
        };
        self.index.release_all(m, &edges);
        let mut taken = Node::Vacant;
        std::mem::swap(&mut self.nodes[m], &mut taken);
        self.nodes.set(m, Node::Vacant);
        let ghost n1 = self.nodes@;
        let mut t = Node::Vacant;
        std::mem::swap(&mut self.nodes[target], &mut t);
        let updated = match t {
            Node::Attribute(a) => {
                let mut ms = a.modifiers;
                match crate::dependency::find_index(&ms, m) {
                    Some(i) => {
                        ms.remove(i);
                    },
                    None => {},
                }
                Node::Attribute(AttributeNode { kind: a.kind, value: a.value, modifiers: ms })
            },
            other => other,
        };
        self.nodes.set(target, updated);
        let mut start: Vec<usize> = Vec::new();
        copy_into(&mut start, self.index.dependents_of(m));
        copy_into(&mut start, self.index.dependents_of(target));
        start.push(target);
        proof {
            let n2 = self.nodes@;
            assert(n1 == n0.update(m as int, Node::Vacant));
            assert(n2 == n1.update(target as int, updated));
            let ot = n0[target as int]->Attribute_0;
            let nt = n2[target as int]->Attribute_0;
            assert(target != m);
            assert(ot.modifiers@.contains(m));
            assert(ot.modifiers@.contains(m) ==> nt.modifiers@ == ot.modifiers@.remove(
                ot.modifiers@.index_of(m),
            )) by {
                if ot.modifiers@.contains(m) {
                    ot.modifiers@.index_of_first_ensures(m);
                }
            }
            // the entries that stay are the old ones but `m`
            assert forall|k: int| 0 <= k < nt.modifiers@.len() implies #[trigger] nt.modifiers@[k]
                != m && ot.modifiers@.contains(nt.modifiers@[k]) by {
                if ot.modifiers@.contains(m) {
                    let i = ot.modifiers@.index_of(m);
                    if k < i {
                        assert(nt.modifiers@[k] == ot.modifiers@[k]);
                    } else {
                        assert(nt.modifiers@[k] == ot.modifiers@[k + 1]);
                    }
                } else {
                    assert(nt.modifiers@[k] == ot.modifiers@[k]);
                }
            }
            assert(nt.modifiers@.no_duplicates()) by {
                if ot.modifiers@.contains(m) {
                    let i = ot.modifiers@.index_of(m);
                    assert forall|a: int, b: int|
                        0 <= a < b < nt.modifiers@.len() implies nt.modifiers@[a]
                        != nt.modifiers@[b] by {
                        let a2 = if a < i { a } else { a + 1 };
                        let b2 = if b < i { b } else { b + 1 };
                        assert(nt.modifiers@[a] == ot.modifiers@[a2]);
                        assert(nt.modifiers@[b] == ot.modifiers@[b2]);
                    }
                }
            }
            assert(nt.modifiers@.to_set() == ot.modifiers@.to_set().remove(m)) by {
                assert forall|e: usize| ot.modifiers@.contains(e) && e != m implies
                    nt.modifiers@.contains(e) by {
                    let j = choose|j: int| 0 <= j < ot.modifiers@.len() && ot.modifiers@[j] == e;
                    if ot.modifiers@.contains(m) {
                        let i = ot.modifiers@.index_of(m);
                        if j < i {
                            assert(nt.modifiers@[j] == e);
                        } else {
                            assert(j != i);
                            assert(nt.modifiers@[j - 1] == e);
                        }
                    } else {
                        assert(nt.modifiers@[j] == e);
                    }
                }
                assert(nt.modifiers@.to_set() =~= ot.modifiers@.to_set().remove(m));
            }
            assert forall|x: int| 0 <= x < n2.len() implies #[trigger] node_wf(n2, x) by {
                assert(node_wf(n0, x));
                if x != m {
                    match n2[x] {
                        Node::Attribute(a) => {
                            assert forall|k: int| 0 <= k < a.modifiers@.len() implies {
                                let e = #[trigger] a.modifiers@[k];
                                e < n2.len() && n2[e as int] is Modifier
                                    && n2[e as int]->Modifier_0.target == x
                            } by {
                                let e = a.modifiers@[k];
                                let ox = n0[x]->Attribute_0;
                                if x == target {
                                    let j = choose|j: int|
                                        0 <= j < ot.modifiers@.len() && ot.modifiers@[j] == e;
                                    assert(ot.modifiers@[j] == e);
                                } else {
                                    assert(ox.modifiers@[k] == e);
                                    assert(e != m);
                                }
                            }
                        },
                        Node::Modifier(md) => {
                            let tt = md.target;
                            assert(n0[x] == n2[x]);
                            assert(n0[tt as int]->Attribute_0.modifiers@.contains(x as usize));
                            if tt == target {
                                assert(ot.modifiers@.to_set().contains(x as usize));
                                assert(nt.modifiers@.to_set().contains(x as usize));
                            } else {
                                assert(tt != m);
                                assert(n2[tt as int] == n0[tt as int]);
                            }
                        },
                        _ => {},
                    }
                }
            }
            assert forall|x: int, k: int|
                0 <= x < n2.len() && 0 <= k < preds(n2[x]).len() implies #[trigger] preds(n2[x])[k]
                    < n2.len() by {
                if x != target && x != m {
                    assert(n2[x] == n0[x]);
                } else if x == target {
                    let e = preds(n2[x])[k];
                    match ot.kind {
                        Attribute::Plain(_) => {
                            assert(nt.modifiers@[k] == e);
                        },
                        Attribute::BasedOn(p) => {
                            if k == 0 {
                                assert(preds(n0[x])[0] == e);
                            } else {
                                assert(nt.modifiers@[k - 1] == e);
                            }
                        },
                        _ => {
                            assert(preds(n2[x]) == preds(n0[x]));
                        },
                    }
                    if ot.modifiers@.contains(e) {
                        let j = choose|j: int| 0 <= j < ot.modifiers@.len() && ot.modifiers@[j] == e;
                        assert(ot.modifiers@[j] < n0.len());
                    }
                }
            }
            assert forall|x: usize, p: usize| x < n2.len() && p < n2.len() implies
                #[trigger] self.index.count(x as int, p) == refs(n2[x as int], p) by {
                if x != m {
                    assert(refs(n2[x as int], p) == refs(n0[x as int], p));
                    assert(g0.index.count(x as int, p) == refs(n0[x as int], p));
                } else {
                    broadcast use vstd::seq_lib::group_to_multiset_ensures;

                    assert(ref_list(n2[x as int]).len() == 0);
                    assert(ref_list(n2[x as int]).to_multiset().len() == 0);
                }
            }
            assert(self.structure_wf());
            assert forall|y: usize| !consistent_at(n2, y) implies start@.contains(y) by {
                assert(consistent_at(n0, y));
                let d_m = self.index.dependents@[m as int]@;
                let d_t = self.index.dependents@[target as int]@;
                assert(start@ == d_m + d_t + seq![target]);
                if y == target {
                    assert(start@[start@.len() - 1] == y);
                } else if y != m {
                    assert(node_at(n2, y) == node_at(n0, y));
                    let py = preds(node_at(n0, y));
                    if is_computed(node_at(n0, y)) && py.contains(m) {
                        let k = choose|k: int| 0 <= k < py.len() && py[k] == m;
                        self.lemma_reader_is_linked(y, m, k);
                        let q = choose|q: int| 0 <= q < d_m.len() && d_m[q] == y;
                        assert(start@[q] == y);
                    } else if is_computed(node_at(n0, y)) && py.contains(target) {
                        let k = choose|k: int| 0 <= k < py.len() && py[k] == target;
                        self.lemma_reader_is_linked(y, target, k);
                        let q = choose|q: int| 0 <= q < d_t.len() && d_t[q] == y;
                        assert(start@[d_m.len() + q] == y);
                    } else {
                        lemma_frame_update(n0, n1, m, y);
                        lemma_frame_update(n1, n2, target, y);
                    }
                }
            }
        }
        let ghost g1 = *self;
        let ghost st = start@;
        self.propagate(start);
        proof {
            assert forall|i: usize|
                i != m && i != target && i < n0.len() && !pending(n0, i) && #[trigger] node_at(self.nodes@, i)
                    != node_at(n0, i) implies pending(self.nodes@, i) || exists|mm: usize|
                (Set::<usize>::empty().contains(mm) || (is_dynamic(node_at(n0, mm)) && !pending(n0, mm)))
                    && #[trigger] upstream_of(self.nodes@, mm, i) by {
                assert(node_at(g1.nodes@, i) == node_at(n0, i));
                if !pending(self.nodes@, i) {
                    let mm = choose|mm: usize|
                        is_dynamic(node_at(g1.nodes@, mm)) && !pending(g1.nodes@, mm)
                            && #[trigger] upstream_of(self.nodes@, mm, i);
                    assert(node_at(g1.nodes@, mm) == node_at(n0, mm));
                }
            }
        }
        proof {
            if target < n0.len() && (node_at(n0, target) matches Node::Attribute(a) && a.kind is Fixed) {
                assert(node_wf(g1.nodes@, target as int));
                assert(node_at(self.nodes@, target) == node_at(g1.nodes@, target));
            }
        }
        proof {
            assert forall|mm: usize|
                #[trigger] pending(self.nodes@, mm) && !pending(n0, mm) && is_dynamic(node_at(n0, mm))
                    implies cyclic_upstream(self.nodes@, mm) by {
                if node_at(g1.nodes@, mm) != node_at(n0, mm) {
                    assert(same_but_slot(g1.nodes@[mm as int], self.nodes@[mm as int]));
                }
            }
        }
        proof {
            let n_mid = g1.nodes@;
            let roots = set![m, target];
            assert forall|y: usize| !roots.contains(y) implies #[trigger] node_at(n_mid, y) == node_at(
                n0,
                y,
            ) by {}
            assert forall|y: usize| #[trigger] st.to_set().contains(y) implies roots.contains(y)
                || exists|z: usize| #[trigger] roots.contains(z) && reads(node_at(n0, y), z) by {
                assert(st.contains(y));
                let q = choose|q: int| 0 <= q < st.len() && st[q] == y;
                if q < g1.index.dependents@[m as int]@.len() {
                    assert(g1.index.dependents@[m as int]@[q] == y);
                    g1.lemma_dependent_reads(m, y);
                    assert(roots.contains(m));
                }
                let lm = g1.index.dependents@[m as int]@.len() as int;
                if lm <= q < lm + g1.index.dependents@[target as int]@.len() {
                    assert(g1.index.dependents@[target as int]@[q - lm] == y);
                    g1.lemma_dependent_reads(target, y);
                    assert(roots.contains(target));
                }
                if !roots.contains(y) {
                    assert(node_at(n_mid, y) == node_at(n0, y));
                }
            }
            lemma_rests_transfer(n0, n_mid, self.nodes@, st.to_set(), roots);
        }
        proof {
            assert forall|i: usize|
                i != m && i != target && i < n0.len() && !is_derived(#[trigger] node_at(n0, i))
                    implies node_at(self.nodes@, i) == node_at(n0, i) by {
                assert(node_at(g1.nodes@, i) == node_at(n0, i));
                assert(node_wf(g1.nodes@, i as int));
            }
        }
        proof {
            let n3 = self.nodes@;
            assert(same_but_slot(g1.nodes@[m as int], n3[m as int]));
            assert(same_but_slot(g1.nodes@[target as int], n3[target as int]));
            assert forall|i: int|
                0 <= i < n0.len() && i != m && i != target implies same_but_slot(
                #[trigger] n0[i],
                n3[i],
            ) by {
                assert(same_but_slot(g1.nodes@[i], n3[i]));
                assert(g1.nodes@[i] == n0[i]);
            }
        }
        true
    }
}

impl AttributeGraph {
    /// Replaces the kind of attribute `x`: the old dependency edges are
    /// released, the new ones registered, the slot of `x` is emptied (or set
    /// to `value` for `Fixed`), and every slot that rests on `x` is brought up
    /// to date. Refused (`false`, nothing changes) when `x` is no attribute
    /// or the new kind could not be spawned.
    pub fn set_attribute(&mut self, x: usize, kind: Attribute, value: Option<i64>) -> (r: bool)
        requires
            old(self).wf(),
        ensures
            final(self).wf(),
            r ==> left_absent(old(self).nodes@, final(self).nodes@, x, x, Set::empty()),
            rederived(old(self).nodes@, final(self).nodes@),
            r ==> changes_rest_on(old(self).nodes@, final(self).nodes@, set![x, x]),
            keeps_authored(old(self).nodes@, final(self).nodes@, x, x),
            r == (is_attribute(old(self).nodes@, x) && valid_attribute(
                kind,
                value,
                old(self).nodes@.len(),
            )),
            !r ==> *final(self) == *old(self),
            r ==> {
                &&& final(self).nodes@.len() == old(self).nodes@.len()
                &&& final(self).nodes@[x as int] matches Node::Attribute(a) && a.kind == kind
                    && a.modifiers == old(self).nodes@[x as int]->Attribute_0.modifiers
                    && (kind is Fixed ==> a.value == value)
                &&& forall|i: int|
                    0 <= i < old(self).nodes@.len() && i != x ==> same_but_slot(
                        #[trigger] old(self).nodes@[i],
                        final(self).nodes@[i],
                    )
            },
    {
        let is_attr = x < self.nodes.len() && match &self.nodes[x] {
            Node::Attribute(_) => true,
            _ => false,
        };
        if !is_attr {
            return false;
        }
        let new_edges = kind_ref_vec(&kind);
        let fixed = match &kind {
            Attribute::Fixed => true,
            _ => false,
        };
        if !all_below(&new_edges, self.nodes.len()) || !distinct(&new_edges) || (fixed && value.is_none()) {
            return false;
        }
        let ghost g0 = *self;
        let ghost n0 = self.nodes@;
        let old_edges = match &self.nodes[x] {
            Node::Attribute(a) => kind_ref_vec(&a.kind),
            _ => Vec::new(),
        };
        self.index.release_all(x, &old_edges);
        let mut taken = Node::Vacant;
        std::mem::swap(&mut self.nodes[x], &mut taken);
        let node = match taken {
            Node::Attribute(a) => Node::Attribute(
                AttributeNode {
                    kind,
                    value: if fixed { value } else { None },
                    modifiers: a.modifiers,
                },
            ),
            other => other,
        };
        self.nodes.set(x, node);
        self.index.increase_all(x, &new_edges);
        let start = self.readers_and_self(x);
        proof {
            let n1 = self.nodes@;
            assert(n1 == n0.update(x as int, node));
            assert(ref_list(node) == new_edges@);
            assert(node_wf(n0, x as int));
            assert forall|i: int| 0 <= i < n1.len() implies #[trigger] node_wf(n1, i) by {
                assert(node_wf(n0, i));
                match n1[i] {
                    Node::Attribute(a) => {
                        assert forall|k: int| 0 <= k < a.modifiers@.len() implies {
                            let e = #[trigger] a.modifiers@[k];
                            e < n1.len() && n1[e as int] is Modifier
                                && n1[e as int]->Modifier_0.target == i
                        } by {
                            let e = a.modifiers@[k];
                            assert(n0[i]->Attribute_0.modifiers@[k] == e);
                            assert(n0[e as int] is Modifier);
                        }
                    },
                    _ => {},
                }
            }
            assert forall|a: int, k: int|
                0 <= a < n1.len() && 0 <= k < preds(n1[a]).len() implies #[trigger] preds(n1[a])[k]
                    < n1.len() by {
                if a != x {
                    assert(n1[a] == n0[a]);
                } else {
                    let e = preds(n1[a])[k];
                    let ms = n0[a]->Attribute_0.modifiers@;
                    match kind {
                        Attribute::Plain(_) => {
                            assert(ms[k] == e);
                        },
                        Attribute::BasedOn(p) => {
                            if k > 0 {
                                assert(ms[k - 1] == e);
                            } else {
                                assert(new_edges@[0] == e);
                            }
                        },
                        Attribute::Merged(ps) => {
                            assert(new_edges@[k] == e);
                        },
                        Attribute::Fixed => {},
                    }
                }
            }
            assert forall|a: usize, p: usize| a < n1.len() && p < n1.len() implies
                #[trigger] self.index.count(a as int, p) == refs(n1[a as int], p) by {
                if a != x {
                    assert(refs(n1[a as int], p) == refs(n0[a as int], p));
                    assert(g0.index.count(a as int, p) == refs(n0[a as int], p));
                }
            }
            assert(self.structure_wf());
            assert forall|y: usize| !consistent_at(n1, y) implies start@.contains(y) by {
                assert(consistent_at(n0, y));
                let d = self.index.dependents@[x as int]@;
                if y == x {
                    assert(start@[start@.len() - 1] == y);
                } else {
                    let py = preds(node_at(n0, y));
                    assert(node_at(n1, y) == node_at(n0, y));
                    if is_computed(node_at(n0, y)) && py.contains(x) {
                        let k = choose|k: int| 0 <= k < py.len() && py[k] == x;
                        self.lemma_reader_is_linked(y, x, k);
                        let q = choose|q: int| 0 <= q < d.len() && d[q] == y;
                        assert(start@[q] == y);
                    } else {
                        lemma_frame_update(n0, n1, x, y);
                    }
                }
            }
        }
        let ghost g1 = *self;
        let ghost st = start@;
        self.propagate(start);
        proof {
            assert forall|i: usize|
                i != x && i != x && i < n0.len() && !pending(n0, i) && #[trigger] node_at(self.nodes@, i)
                    != node_at(n0, i) implies pending(self.nodes@, i) || exists|mm: usize|
                (Set::<usize>::empty().contains(mm) || (is_dynamic(node_at(n0, mm)) && !pending(n0, mm)))
                    && #[trigger] upstream_of(self.nodes@, mm, i) by {
                assert(node_at(g1.nodes@, i) == node_at(n0, i));
                if !pending(self.nodes@, i) {
                    let mm = choose|mm: usize|
                        is_dynamic(node_at(g1.nodes@, mm)) && !pending(g1.nodes@, mm)
                            && #[trigger] upstream_of(self.nodes@, mm, i);
                    assert(node_at(g1.nodes@, mm) == node_at(n0, mm));
                }
            }
        }
        proof {
            assert forall|mm: usize|
                #[trigger] pending(self.nodes@, mm) && !pending(n0, mm) && is_dynamic(node_at(n0, mm))
                    implies cyclic_upstream(self.nodes@, mm) by {
                if node_at(g1.nodes@, mm) != node_at(n0, mm) {
                    assert(same_but_slot(g1.nodes@[mm as int], self.nodes@[mm as int]));
                }
            }
        }
        proof {
            let n_mid = g1.nodes@;
            let roots = set![x, x];
            assert forall|y: usize| !roots.contains(y) implies #[trigger] node_at(n_mid, y) == node_at(
                n0,
                y,
            ) by {}
            assert forall|y: usize| #[trigger] st.to_set().contains(y) implies roots.contains(y)
                || exists|z: usize| #[trigger] roots.contains(z) && reads(node_at(n0, y), z) by {
                assert(st.contains(y));
                let q = choose|q: int| 0 <= q < st.len() && st[q] == y;
                if q < g1.index.dependents@[x as int]@.len() {
                    assert(g1.index.dependents@[x as int]@[q] == y);
                    g1.lemma_dependent_reads(x, y);
                    assert(roots.contains(x));
                }
                if !roots.contains(y) {
                    assert(node_at(n_mid, y) == node_at(n0, y));
                }
            }
            lemma_rests_transfer(n0, n_mid, self.nodes@, st.to_set(), roots);
        }
        proof {
            assert forall|i: usize|
                i != x && i != x && i < n0.len() && !is_derived(#[trigger] node_at(n0, i))
                    implies node_at(self.nodes@, i) == node_at(n0, i) by {
                assert(node_at(g1.nodes@, i) == node_at(n0, i));
                assert(node_wf(g1.nodes@, i as int));
            }
        }
        proof {
            let n3 = self.nodes@;
            assert(same_but_slot(g1.nodes@[x as int], n3[x as int]));
            if fixed {
                assert(node_at(n3, x) == node_at(g1.nodes@, x));
            }
            assert forall|i: int| 0 <= i < n0.len() && i != x implies same_but_slot(
                #[trigger] n0[i],
                n3[i],
            ) by {
                assert(same_but_slot(g1.nodes@[i], n3[i]));
                assert(g1.nodes@[i] == n0[i]);
            }
        }
        true
    }
}

/// Every reference is backed by the index: while node `x` still refers to
/// `p` (through its kind or as a dynamic modifier's source), `x` is among the
/// dependents of `p`, however many other references to `p` were released.
pub proof fn lemma_reference_is_linked(g: AttributeGraph, x: usize, p: usize)
    requires
        g.structure_wf(),
        x < g.nodes@.len(),
        p < g.nodes@.len(),
        ref_list(g.nodes@[x as int]).contains(p),
    ensures
        g.index.count(x as int, p) > 0,
        g.index.is_dependent(p as int, x),
{
    broadcast use vstd::seq_lib::group_to_multiset_ensures;

    assert(g.index.count(x as int, p) == refs(g.nodes@[x as int], p));
    assert(g.index.count(x as int, p) > 0 <==> g.index.is_dependent(p as int, x));
}

impl AttributeGraph {
    /// Destroys attribute `x`, which has no modifiers attached: its
    /// dependency edges are released and every slot that read it is emptied;
    /// those readers then see it as unresolved.
    fn remove_bare_attribute(&mut self, x: usize) -> (r: bool)
        requires
            old(self).wf(),
        ensures
            final(self).wf(),
            rederived(old(self).nodes@, final(self).nodes@),
            r ==> changes_rest_on(old(self).nodes@, final(self).nodes@, set![x, x]),
            keeps_authored(old(self).nodes@, final(self).nodes@, x, x),
            r == (node_at(old(self).nodes@, x) matches Node::Attribute(a) && a.modifiers@.len() == 0),
            !r ==> *final(self) == *old(self),
            r ==> {
                &&& final(self).nodes@.len() == old(self).nodes@.len()
                &&& final(self).nodes@[x as int] is Vacant
                &&& forall|i: int|
                    0 <= i < old(self).nodes@.len() && i != x ==> same_but_slot(
                        #[trigger] old(self).nodes@[i],
                        final(self).nodes@[i],
                    )
            },
    {
        let removable = x < self.nodes.len() && match &self.nodes[x] {
            Node::Attribute(a) => a.modifiers.len() == 0,
            _ => false,
        };
        if !removable {
            return false;
        }
        let ghost g0 = *self;
        let ghost n0 = self.nodes@;
        let edges = match &self.nodes[x] {
            Node::Attribute(a) => kind_ref_vec(&a.kind),
            _ => Vec::new(),
        };
        self.index.release_all(x, &edges);
        self.nodes.set(x, Node::Vacant);
        let mut start: Vec<usize> = Vec::new();
        copy_into(&mut start, self.index.dependents_of(x));
        proof {
            let n1 = self.nodes@;
            assert(n1 == n0.update(x as int, Node::Vacant));
            assert forall|i: int| 0 <= i < n1.len() implies #[trigger] node_wf(n1, i) by {
                assert(node_wf(n0, i));
                if i != x {
                    match n1[i] {
                        Node::Attribute(a) => {
                            assert forall|k: int| 0 <= k < a.modifiers@.len() implies {
                                let e = #[trigger] a.modifiers@[k];
                                e < n1.len() && n1[e as int] is Modifier
                                    && n1[e as int]->Modifier_0.target == i
                            } by {
                                let e = a.modifiers@[k];
                                assert(n0[i]->Attribute_0.modifiers@[k] == e);
                                assert(e != x);
                            }
                        },
                        Node::Modifier(md) => {
                            assert(n0[md.target as int]->Attribute_0.modifiers@.contains(i as usize));
                            assert(md.target != x);
                        },
                        _ => {},
                    }
                }
            }
            assert forall|a: int, k: int|
                0 <= a < n1.len() && 0 <= k < preds(n1[a]).len() implies #[trigger] preds(n1[a])[k]
                    < n1.len() by {
                assert(a != x ==> n1[a] == n0[a]);
            }
            assert forall|a: usize, p: usize| a < n1.len() && p < n1.len() implies
                #[trigger] self.index.count(a as int, p) == refs(n1[a as int], p) by {
                if a != x {
                    assert(g0.index.count(a as int, p) == refs(n0[a as int], p));
                } else {
                    broadcast use vstd::seq_lib::group_to_multiset_ensures;

                    assert(ref_list(n1[a as int]).len() == 0);
                    assert(ref_list(n1[a as int]).to_multiset().len() == 0);
                }
            }
            assert(self.structure_wf());
            assert forall|y: usize| !consistent_at(n1, y) implies start@.contains(y) by {
                assert(consistent_at(n0, y));
                if y != x {
                    let py = preds(node_at(n0, y));
                    assert(node_at(n1, y) == node_at(n0, y));
                    if is_computed(node_at(n0, y)) && py.contains(x) {
                        let k = choose|k: int| 0 <= k < py.len() && py[k] == x;
                        self.lemma_reader_is_linked(y, x, k);
                        let d = self.index.dependents@[x as int]@;
                        let q = choose|q: int| 0 <= q < d.len() && d[q] == y;
                        assert(start@[q] == y);
                    } else {
                        lemma_frame_update(n0, n1, x, y);
                    }
                }
            }
        }
        let ghost g1 = *self;
        let ghost st = start@;
        self.propagate(start);
        proof {
            assert forall|mm: usize|
                #[trigger] pending(self.nodes@, mm) && !pending(n0, mm) && is_dynamic(node_at(n0, mm))
                    implies cyclic_upstream(self.nodes@, mm) by {
                if node_at(g1.nodes@, mm) != node_at(n0, mm) {
                    assert(same_but_slot(g1.nodes@[mm as int], self.nodes@[mm as int]));
                }
            }
        }
        proof {
            let n_mid = g1.nodes@;
            let roots = set![x, x];
            assert forall|y: usize| !roots.contains(y) implies #[trigger] node_at(n_mid, y) == node_at(
                n0,
                y,
            ) by {}
            assert forall|y: usize| #[trigger] st.to_set().contains(y) implies roots.contains(y)
                || exists|z: usize| #[trigger] roots.contains(z) && reads(node_at(n0, y), z) by {
                assert(st.contains(y));
                let q = choose|q: int| 0 <= q < st.len() && st[q] == y;
                if q < g1.index.dependents@[x as int]@.len() {
                    assert(g1.index.dependents@[x as int]@[q] == y);
                    g1.lemma_dependent_reads(x, y);
                    assert(roots.contains(x));
                }
                if !roots.contains(y) {
                    assert(node_at(n_mid, y) == node_at(n0, y));
                }
            }
            lemma_rests_transfer(n0, n_mid, self.nodes@, st.to_set(), roots);
        }
        proof {
            assert forall|i: usize|
                i != x && i != x && i < n0.len() && !is_derived(#[trigger] node_at(n0, i))
                    implies node_at(self.nodes@, i) == node_at(n0, i) by {
                assert(node_at(g1.nodes@, i) == node_at(n0, i));
                assert(node_wf(g1.nodes@, i as int));
            }
        }
        proof {
            let n3 = self.nodes@;
            assert(same_but_slot(g1.nodes@[x as int], n3[x as int]));
            assert forall|i: int| 0 <= i < n0.len() && i != x implies same_but_slot(
                #[trigger] n0[i],
                n3[i],
            ) by {
                assert(same_but_slot(g1.nodes@[i], n3[i]));
                assert(g1.nodes@[i] == n0[i]);
            }
        }
        true
    }
}

/// `m` is a modifier of attribute `x` in `nodes`.
pub open spec fn modifier_of(nodes: Seq<Node>, m: usize, x: usize) -> bool {
    node_at(nodes, m) matches Node::Modifier(md) && md.target == x
}

impl AttributeGraph {
    /// Whether no node but `x` and its own modifiers holds a dependency edge
    /// on `x`.
    fn held_only_by_own(&self, x: usize) -> (r: bool)
        requires
            self.wf(),
            x < self.nodes@.len(),
        ensures
            r == only_own_readers(self.nodes@, x),
    {
        let deps = self.index.dependents_of(x);
        let mut i: usize = 0;
        while i < deps.len()
            invariant
                self.wf(),
                x < self.nodes@.len(),
                deps@ == self.index.dependents@[x as int]@,
                i <= deps@.len(),
                forall|k: int| 0 <= k < i ==> #[trigger] deps@[k] == x || modifier_of(self.nodes@, deps@[k], x),
            decreases deps.len() - i,
        {
            let d = deps[i];
            proof {
                assert(self.index.is_dependent(x as int, d));
            }
            let own = d == x || match &self.nodes[d] {
                Node::Modifier(md) => md.target == x,
                _ => false,
            };
            if !own {
                proof {
                    assert(self.index.count(d as int, x) > 0);
                    assert(refs(self.nodes@[d as int], x) > 0);
                }
                return false;
            }
            i = i + 1;
        }
        proof {
            assert forall|y: usize| y < self.nodes@.len() && #[trigger] refs(self.nodes@[y as int], x) > 0
                implies y == x || modifier_of(self.nodes@, y, x) by {
                assert(self.index.count(y as int, x) > 0);
                assert(self.index.is_dependent(x as int, y));
                let k = choose|k: int| 0 <= k < deps@.len() && deps@[k] == y;
                assert(deps@[k] == x || modifier_of(self.nodes@, deps@[k], x));
            }
        }
        true
    }

    /// Destroys attribute `x` together with the modifiers attached to it,
    /// provided that no other node holds a dependency edge on it: each
    /// modifier is removed as by `remove_modifier`, then the dependency edges
    /// of `x` are released. Afterwards no node counts `x` as a dependency and
    /// `x` has no dependents. Refused (`false`, nothing changes) when `x` is no
    /// attribute or another node still reads it.
    pub fn remove_attribute(&mut self, x: usize) -> (r: bool)
        requires
            old(self).wf(),
        ensures
            final(self).wf(),
            r ==> forall|y: usize| y < final(self).nodes@.len() ==> #[trigger] final(self).index.count(
                y as int,
                x,
            ) == 0,
            r ==> final(self).index.dependents@[x as int]@.len() == 0,
            r ==> changes_rest_on(
                old(self).nodes@,
                final(self).nodes@,
                Set::new(|i: usize| i == x || modifier_of(old(self).nodes@, i, x)),
            ),
            r == (is_attribute(old(self).nodes@, x) && only_own_readers(old(self).nodes@, x)),
            !r ==> *final(self) == *old(self),
            r ==> {
                &&& final(self).nodes@.len() == old(self).nodes@.len()
                &&& final(self).nodes@[x as int] is Vacant
                &&& forall|i: usize| #[trigger]
                    modifier_of(old(self).nodes@, i, x) ==> final(self).nodes@[i as int] is Vacant
                &&& forall|i: int|
                    0 <= i < old(self).nodes@.len() && i != x && !modifier_of(
                        old(self).nodes@,
                        i as usize,
                        x,
                    ) ==> same_but_slot(#[trigger] old(self).nodes@[i], final(self).nodes@[i])
                &&& forall|i: usize|
                    i != x && i < old(self).nodes@.len() && !modifier_of(old(self).nodes@, i, x)
                        && !is_derived(#[trigger] node_at(old(self).nodes@, i)) ==> node_at(
                        final(self).nodes@,
                        i,
                    ) == node_at(old(self).nodes@, i)
            },
    {
        if !(x < self.nodes.len() && match &self.nodes[x] {
            Node::Attribute(_) => true,
            _ => false,
        }) {
            return false;
        }
        if !self.held_only_by_own(x) {
            return false;
        }
        let ghost n0 = self.nodes@;
        let ghost roots = Set::new(|i: usize| i == x || modifier_of(n0, i, x));
        proof {
            assert(ranked_rests(n0, Set::<usize>::empty(), roots, |v: usize| 0nat, 0));
            assert(rests_on(n0, Set::<usize>::empty(), roots));
            assert(changes_rest_on(n0, self.nodes@, roots));
        }
        loop
            invariant
                self.wf(),
                x < self.nodes@.len(),
                self.nodes@.len() == n0.len(),
                self.nodes@[x as int] is Attribute,
                forall|i: usize| #[trigger]
                    modifier_of(n0, i, x) ==> (self.nodes@[i as int] is Vacant || modifier_of(
                        self.nodes@,
                        i,
                        x,
                    )),
                forall|i: int|
                    0 <= i < n0.len() && i != x && !modifier_of(n0, i as usize, x) ==> same_but_slot(
                        #[trigger] n0[i],
                        self.nodes@[i],
                    ),
                forall|i: usize|
                    i != x && i < n0.len() && !modifier_of(n0, i, x) && !is_derived(
                        #[trigger] node_at(n0, i),
                    ) ==> node_at(self.nodes@, i) == node_at(n0, i),
                changes_rest_on(n0, self.nodes@, roots),
                roots == Set::new(|i: usize| i == x || modifier_of(n0, i, x)),
            ensures
                self.nodes@[x as int]->Attribute_0.modifiers@.len() == 0,
            decreases self.nodes@[x as int]->Attribute_0.modifiers@.len(),
        {
            let last = match &self.nodes[x] {
                Node::Attribute(a) => if a.modifiers.len() > 0 {
                    Some(a.modifiers[a.modifiers.len() - 1])
                } else {
                    None
                },
                _ => None,
            };
            match last {
                None => {
                    break;
                },
                Some(m) => {
                    let ghost nb = self.nodes@;
                    proof {
                        assert(node_wf(nb, x as int));
                        let ms = nb[x as int]->Attribute_0.modifiers@;
                        assert(ms[ms.len() - 1] == m);
                    }
                    self.remove_modifier(m);
                    proof {
                        let na = self.nodes@;
                        if !modifier_of(n0, m, x) {
                            assert(same_but_slot(n0[m as int], nb[m as int]));
                        }
                        assert(set![m, x].subset_of(roots));
                        assert forall|y: usize| !roots.contains(y) && y < n0.len() implies same_but_slot(
                            #[trigger] n0[y as int],
                            nb[y as int],
                        ) by {}
                        lemma_rests_chain(n0, nb, na, roots, set![m, x]);
                        assert forall|i: usize| #[trigger] modifier_of(n0, i, x) implies (
                        na[i as int] is Vacant || modifier_of(na, i, x)) by {
                            if i != m {
                                assert(nb[i as int] is Vacant || modifier_of(nb, i, x));
                                assert(same_but_slot(nb[i as int], na[i as int]));
                            }
                        }
                        assert forall|i: int|
                            0 <= i < n0.len() && i != x && !modifier_of(n0, i as usize, x)
                                implies same_but_slot(#[trigger] n0[i], na[i]) by {
                            assert(same_but_slot(n0[i], nb[i]));
                            assert(i != m);
                            assert(same_but_slot(nb[i], na[i]));
                        }
                        assert forall|i: usize|
                            i != x && i < n0.len() && !modifier_of(n0, i, x) && !is_derived(
                                #[trigger] node_at(n0, i),
                            ) implies node_at(na, i) == node_at(n0, i) by {
                            assert(node_at(nb, i) == node_at(n0, i));
                            assert(i != m);
                        }
                    }
                },
            }
        }
        let ghost nb = self.nodes@;
        let removed = self.remove_bare_attribute(x);
        proof {
            assert(removed);
            assert(set![x, x].subset_of(roots));
            assert forall|y: usize| !roots.contains(y) && y < n0.len() implies same_but_slot(
                #[trigger] n0[y as int],
                nb[y as int],
            ) by {}
            lemma_rests_chain(n0, nb, self.nodes@, roots, set![x, x]);
            let na = self.nodes@;
            assert forall|i: usize| #[trigger] modifier_of(n0, i, x) implies na[i as int] is Vacant by {
                if !(nb[i as int] is Vacant) {
                    assert(modifier_of(nb, i, x));
                    assert(node_wf(nb, i as int));
                    assert(nb[x as int]->Attribute_0.modifiers@.contains(i));
                }
                assert(same_but_slot(nb[i as int], na[i as int]));
            }
            assert forall|i: int|
                0 <= i < n0.len() && i != x && !modifier_of(n0, i as usize, x) implies same_but_slot(
                #[trigger] n0[i],
                na[i],
            ) by {
                assert(same_but_slot(n0[i], nb[i]));
                assert(same_but_slot(nb[i], na[i]));
            }
        }
        proof {
            let na = self.nodes@;
            assert forall|y: usize| y < na.len() implies #[trigger] self.index.count(y as int, x) == 0 by {
                broadcast use vstd::seq_lib::group_to_multiset_ensures;

                if y == x || modifier_of(n0, y, x) {
                    assert(na[y as int] is Vacant);
                    assert(ref_list(na[y as int]).len() == 0);
                    assert(ref_list(na[y as int]).to_multiset().len() == 0);
                } else {
                    assert(same_but_slot(n0[y as int], na[y as int]));
                    assert(ref_list(n0[y as int]) == ref_list(na[y as int]));
                    if refs(n0[y as int], x) > 0 {
                        assert(only_own_readers(n0, x));
                    }
                }
            }
            if self.index.dependents@[x as int]@.len() > 0 {
                let y = self.index.dependents@[x as int]@[0];
                assert(self.index.is_dependent(x as int, y));
                assert(self.index.count(y as int, x) > 0);
            }
        }
        true
    }
}

/// No node but `x` and its own modifiers holds a dependency edge on `x`.
pub open spec fn only_own_readers(nodes: Seq<Node>, x: usize) -> bool {
    forall|y: usize| y < nodes.len() && #[trigger] refs(nodes[y as int], x) > 0 ==> y == x
        || modifier_of(nodes, y, x)
}

} // verus!
