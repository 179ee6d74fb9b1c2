//! The attribute store: attribute and modifier nodes in an arena, the
//! formulas that give their values, and the invariants that tie the nodes
//! to the dependency index.
use vstd::prelude::*;
use crate::dependency::DependencyIndex;
use crate::modifier::{
    derived_value, lemma_merge_order_invariant, merged, zero_pair, DynamicModifier, ModifierValue,
};
use crate::num::{clamp, combine};

verus! {

/// How an attribute obtains its base value.
pub enum Attribute {
    /// Supplied from outside; never recomputed.
    Fixed,
    /// A constant base.
    Plain(i64),
    /// The value of another attribute as base.
    BasedOn(usize),
    /// The sum of the values of several attributes, each listed once.
    Merged(Vec<usize>),
}

/// An attribute node: its kind, its memoized value and its modifiers.
pub struct AttributeNode {
    pub kind: Attribute,
    pub value: Option<i64>,
    pub modifiers: Vec<usize>,
}

/// A modifier node: its target, its resolved pair (absent while a dynamic
/// modifier awaits re-derivation) and, for a dynamic one, its rule.
pub struct ModifierNode {
    pub target: usize,
    pub value: Option<ModifierValue>,
    pub dynamic: Option<DynamicModifier>,
}

/// A slot of the arena: an attribute, a modifier, or nothing.
pub enum Node {
    Vacant,
    Attribute(AttributeNode),
    Modifier(ModifierNode),
}

/// The node with id `x`; `Vacant` beyond the arena.
pub open spec fn node_at(nodes: Seq<Node>, x: usize) -> Node {
    if x < nodes.len() {
        nodes[x as int]
    } else {
        Node::Vacant
    }
}

/// The memoized value of attribute `x`; `None` when absent or unresolved.
pub open spec fn resolved(nodes: Seq<Node>, x: usize) -> Option<i64> {
    match node_at(nodes, x) {
        Node::Attribute(a) => a.value,
        _ => None,
    }
}

/// A value, with zero for an unresolved one.
pub open spec fn value_or_zero(v: Option<i64>) -> i64 {
    match v {
        Some(x) => x,
        None => 0,
    }
}

/// Whether node `x` has an absent slot that must be recomputed.
pub open spec fn pending(nodes: Seq<Node>, x: usize) -> bool {
    match node_at(nodes, x) {
        Node::Attribute(a) => a.value is None,
        Node::Modifier(m) => m.value is None,
        Node::Vacant => false,
    }
}

/// The resolved pair of modifier `m`, or the zero pair.
pub open spec fn pair_of(nodes: Seq<Node>, m: usize) -> ModifierValue {
    match node_at(nodes, m) {
        Node::Modifier(md) => match md.value {
            Some(v) => v,
            None => zero_pair(),
        },
        _ => zero_pair(),
    }
}

/// The nodes whose values the value of `n` is computed from.
pub open spec fn preds(n: Node) -> Seq<usize> {
    match n {
        Node::Attribute(a) => match a.kind {
            Attribute::Fixed => Seq::empty(),
            Attribute::Plain(_) => a.modifiers@,
            Attribute::BasedOn(p) => seq![p] + a.modifiers@,
            Attribute::Merged(ps) => ps@,
        },
        Node::Modifier(m) => match m.dynamic {
            Some(d) => seq![d.source],
            None => Seq::empty(),
        },
        Node::Vacant => Seq::empty(),
    }
}

/// The attributes that an attribute of kind `kind` is computed from.
pub open spec fn kind_refs(kind: Attribute) -> Seq<usize> {
    match kind {
        Attribute::BasedOn(q) => seq![q],
        Attribute::Merged(ps) => ps@,
        _ => Seq::empty(),
    }
}

/// The ids that node `n` holds dependency edges on, each once per edge.
pub open spec fn ref_list(n: Node) -> Seq<usize> {
    match n {
        Node::Attribute(a) => kind_refs(a.kind),
        Node::Modifier(m) => match m.dynamic {
            Some(d) => seq![d.source],
            None => Seq::empty(),
        },
        Node::Vacant => Seq::empty(),
    }
}

/// The number of dependency edges that node `n` holds on `p`.
pub open spec fn refs(n: Node, p: usize) -> nat {
    ref_list(n).to_multiset().count(p)
}

/// Whether the value of `n` is computed from other nodes.
pub open spec fn is_derived(n: Node) -> bool {
    match n {
        Node::Attribute(a) => !(a.kind is Fixed),
        Node::Modifier(m) => m.dynamic is Some,
        Node::Vacant => false,
    }
}

/// The resolved pairs of the modifiers `ms`, in order.
pub open spec fn mod_pairs(nodes: Seq<Node>, ms: Seq<usize>) -> Seq<ModifierValue> {
    ms.map_values(|m: usize| pair_of(nodes, m))
}

/// Exact sum of the values of `ps`; an unresolved one adds nothing.
pub open spec fn parents_sum(nodes: Seq<Node>, ps: Seq<usize>) -> int
    decreases ps.len(),
{
    if ps.len() == 0 {
        0
    } else {
        parents_sum(nodes, ps.drop_last()) + value_or_zero(resolved(nodes, ps.last()))
    }
}

/// The value of attribute `a` computed from the current slots.
pub open spec fn attribute_formula(nodes: Seq<Node>, a: AttributeNode) -> i64 {
    let m = merged(mod_pairs(nodes, a.modifiers@));
    match a.kind {
        Attribute::Fixed => value_or_zero(a.value),
        Attribute::Plain(b) => combine(b, m.ratio, m.delta),
        Attribute::BasedOn(p) => combine(value_or_zero(resolved(nodes, p)), m.ratio, m.delta),
        Attribute::Merged(ps) => clamp(parents_sum(nodes, ps@)) as i64,
    }
}

/// The pair of a dynamic modifier computed from the current slots.
pub open spec fn modifier_formula(nodes: Seq<Node>, d: DynamicModifier) -> ModifierValue {
    derived_value(d, resolved(nodes, d.source))
}

/// A present derived slot of node `x` rests on present slots and equals
/// its formula.
pub open spec fn consistent_at(nodes: Seq<Node>, x: usize) -> bool {
    let n = node_at(nodes, x);
    (is_derived(n) && !pending(nodes, x)) ==> {
        &&& forall|k: int| 0 <= k < preds(n).len() ==> !pending(nodes, #[trigger] preds(n)[k])
        &&& match n {
            Node::Attribute(a) => a.value == Some(attribute_formula(nodes, a)),
            Node::Modifier(m) => m.value == Some(modifier_formula(nodes, m.dynamic->0)),
            Node::Vacant => true,
        }
    }
}

/// `n1` and `n2` hold the same nodes at the ids of `s`.
pub open spec fn agree_on(n1: Seq<Node>, n2: Seq<Node>, s: Seq<usize>) -> bool {
    forall|k: int| 0 <= k < s.len() ==> node_at(n1, #[trigger] s[k]) == node_at(n2, s[k])
}

pub(crate) proof fn lemma_parents_sum_agree(n1: Seq<Node>, n2: Seq<Node>, ps: Seq<usize>)
    requires
        agree_on(n1, n2, ps),
    ensures
        parents_sum(n1, ps) == parents_sum(n2, ps),
    decreases ps.len(),
{
    if ps.len() > 0 {
        assert(node_at(n1, ps[ps.len() - 1]) == node_at(n2, ps[ps.len() - 1]));
        assert forall|k: int| 0 <= k < ps.drop_last().len() implies node_at(
            n1,
            #[trigger] ps.drop_last()[k],
        ) == node_at(n2, ps.drop_last()[k]) by {
            assert(ps.drop_last()[k] == ps[k]);
        }
        lemma_parents_sum_agree(n1, n2, ps.drop_last());
    }
}

/// The formula of a node reads only the nodes it is computed from.
pub(crate) proof fn lemma_formula_agree(n1: Seq<Node>, n2: Seq<Node>, n: Node)
    requires
        agree_on(n1, n2, preds(n)),
    ensures
        forall|k: int| 0 <= k < preds(n).len() ==> pending(n1, #[trigger] preds(n)[k])
            == pending(n2, preds(n)[k]),
        n is Attribute ==> attribute_formula(n1, n->Attribute_0) == attribute_formula(
            n2,
            n->Attribute_0,
        ),
        (n is Modifier && n->Modifier_0.dynamic is Some) ==> modifier_formula(
            n1,
            n->Modifier_0.dynamic->0,
        ) == modifier_formula(n2, n->Modifier_0.dynamic->0),
{
    assert forall|k: int| 0 <= k < preds(n).len() implies pending(n1, #[trigger] preds(n)[k])
        == pending(n2, preds(n)[k]) by {
        assert(node_at(n1, preds(n)[k]) == node_at(n2, preds(n)[k]));
    }
    match n {
        Node::Attribute(a) => {
            let ms = a.modifiers@;
            let off: int = match a.kind {
                Attribute::BasedOn(_) => 1,
                _ => 0,
            };
            if !(a.kind is Merged) && !(a.kind is Fixed) {
                assert(mod_pairs(n1, ms) =~= mod_pairs(n2, ms)) by {
                    assert forall|k: int| 0 <= k < ms.len() implies mod_pairs(n1, ms)[k] == mod_pairs(
                        n2,
                        ms,
                    )[k] by {
                        assert(preds(n)[k + off] == ms[k]);
                        assert(node_at(n1, preds(n)[k + off]) == node_at(n2, preds(n)[k + off]));
                    }
                }
            }
            match a.kind {
                Attribute::BasedOn(p) => {
                    assert(preds(n)[0] == p);
                    assert(node_at(n1, preds(n)[0]) == node_at(n2, preds(n)[0]));
                },
                Attribute::Merged(ps) => {
                    lemma_parents_sum_agree(n1, n2, ps@);
                },
                _ => {},
            }
        },
        Node::Modifier(m) => {
            if m.dynamic is Some {
                assert(preds(n)[0] == m.dynamic->0.source);
                assert(node_at(n1, preds(n)[0]) == node_at(n2, preds(n)[0]));
            }
        },
        Node::Vacant => {},
    }
}

/// The invariants of node `x` alone: a `Fixed` attribute and a static
/// modifier hold a value, an attribute lists each of its modifiers once and
/// each of them targets it, and a modifier targets an attribute that lists it.
pub open spec fn node_wf(nodes: Seq<Node>, x: int) -> bool {
    match nodes[x] {
        Node::Attribute(a) => {
            &&& (a.kind is Fixed ==> a.value is Some)
            &&& a.modifiers@.no_duplicates()
            &&& forall|k: int| 0 <= k < a.modifiers@.len() ==> {
                let m = #[trigger] a.modifiers@[k];
                m < nodes.len() && nodes[m as int] is Modifier && nodes[m as int]->Modifier_0.target == x
            }
        },
        Node::Modifier(m) => {
            &&& (m.dynamic is None ==> m.value is Some)
            &&& m.target < nodes.len()
            &&& nodes[m.target as int] is Attribute
            &&& nodes[m.target as int]->Attribute_0.modifiers@.contains(x as usize)
        },
        Node::Vacant => true,
    }
}

/// The graph: the nodes and the dependency index over them.
pub struct AttributeGraph {
    pub nodes: Vec<Node>,
    pub index: DependencyIndex,
}

/// `a` and `b` are the same node but for the memoized slot.
pub open spec fn same_but_slot(a: Node, b: Node) -> bool {
    match (a, b) {
        (Node::Attribute(x), Node::Attribute(y)) => x.kind == y.kind && x.modifiers == y.modifiers,
        (Node::Modifier(x), Node::Modifier(y)) => x.target == y.target && x.dynamic == y.dynamic,
        (Node::Vacant, Node::Vacant) => true,
        _ => false,
    }
}

/// Whether `x` is an attribute node.
pub open spec fn is_attribute(nodes: Seq<Node>, x: usize) -> bool {
    node_at(nodes, x) is Attribute
}

impl AttributeGraph {
    /// The number of node ids handed out.
    pub open spec fn len(&self) -> nat {
        self.nodes@.len()
    }

    /// The structure of the graph: sizes, the invariants of `Fixed`
    /// attributes and static modifiers, and the links that the cascade
    /// follows.
    pub open spec fn structure_wf(&self) -> bool {
        let nodes = self.nodes@;
        &&& self.index.wf()
        &&& self.index.len() == nodes.len()
        &&& forall|x: int| 0 <= x < nodes.len() ==> #[trigger] node_wf(nodes, x)
        &&& forall|x: int, k: int|
            0 <= x < nodes.len() && 0 <= k < preds(nodes[x]).len() ==> #[trigger] preds(nodes[x])[k]
                < nodes.len()
        &&& forall|x: usize, p: usize| x < nodes.len() && p < nodes.len() ==>
            #[trigger] self.index.count(x as int, p) == refs(nodes[x as int], p)
    }

    /// Every present derived slot equals its formula over present slots.
    pub open spec fn consistent(&self) -> bool {
        forall|x: usize| #[trigger] consistent_at(self.nodes@, x)
    }

    pub open spec fn wf(&self) -> bool {
        self.structure_wf() && self.consistent()
    }

    /// `after` is `self` with some absent slots filled and nothing else
    /// changed.
    pub open spec fn filled_from(&self, after: &AttributeGraph) -> bool {
        &&& after.index == self.index
        &&& after.nodes@.len() == self.nodes@.len()
        &&& forall|i: int| 0 <= i < self.nodes@.len() ==> same_but_slot(
            #[trigger] self.nodes@[i],
            after.nodes@[i],
        )
        &&& forall|i: usize| !pending(self.nodes@, i) ==> #[trigger] node_at(after.nodes@, i)
            == node_at(self.nodes@, i)
    }

    /// An empty graph.
    pub fn new() -> (r: AttributeGraph)
        ensures
            r.wf(),
            r.len() == 0,
    {
        AttributeGraph { nodes: Vec::new(), index: DependencyIndex::new() }
    }

    /// Whether node `x` has an absent slot.
    pub fn is_pending(&self, x: usize) -> (r: bool)
        ensures
            r == pending(self.nodes@, x),
    {
        if x < self.nodes.len() {
            match &self.nodes[x] {
                Node::Attribute(a) => a.value.is_none(),
                Node::Modifier(m) => m.value.is_none(),
                Node::Vacant => false,
            }
        } else {
            false
        }
    }

    /// The memoized value of attribute `x`, if present.
    pub fn get_value(&self, x: usize) -> (r: Option<i64>)
        ensures
            r == resolved(self.nodes@, x),
    {
        if x < self.nodes.len() {
            match &self.nodes[x] {
                Node::Attribute(a) => a.value,
                _ => None,
            }
        } else {
            None
        }
    }

    /// The resolved pair of modifier `m`, if present.
    pub fn get_modifier_value(&self, m: usize) -> (r: Option<ModifierValue>)
        ensures
            r == match node_at(self.nodes@, m) {
                Node::Modifier(md) => md.value,
                _ => None,
            },
    {
        if m < self.nodes.len() {
            match &self.nodes[m] {
                Node::Modifier(md) => md.value,
                _ => None,
            }
        } else {
            None
        }
    }

    pub(crate) fn pair_value(&self, m: usize) -> (r: ModifierValue)
        ensures
            r == pair_of(self.nodes@, m),
    {
        match self.get_modifier_value(m) {
            Some(v) => v,
            None => ModifierValue { ratio: 0, delta: 0 },
        }
    }

    pub(crate) fn preds_vec(&self, x: usize) -> (r: Vec<usize>)
        requires
            x < self.nodes@.len(),
        ensures
            r@ == preds(self.nodes@[x as int]),
    {
        let mut r: Vec<usize> = Vec::new();
        match &self.nodes[x] {
            Node::Attribute(a) => {
                match &a.kind {
                    Attribute::Fixed => {},
                    Attribute::Plain(_) => {
                        copy_into(&mut r, &a.modifiers);
                    },
                    Attribute::BasedOn(p) => {
                        r.push(*p);
                        copy_into(&mut r, &a.modifiers);
                    },
                    Attribute::Merged(ps) => {
                        copy_into(&mut r, ps);
                    },
                }
            },
            Node::Modifier(m) => {
                match &m.dynamic {
                    Some(d) => r.push(d.source),
                    None => {},
                }
            },
            Node::Vacant => {},
        }
        r
    }

    pub(crate) fn modifier_pairs(&self, ms: &Vec<usize>) -> (r: Vec<ModifierValue>)
        ensures
            r@ == mod_pairs(self.nodes@, ms@),
    {
        let mut r: Vec<ModifierValue> = Vec::new();
        let mut i: usize = 0;
        while i < ms.len()
            invariant
                i <= ms@.len(),
                r@ == mod_pairs(self.nodes@, ms@.take(i as int)),
            decreases ms.len() - i,
        {
            r.push(self.pair_value(ms[i]));
            i = i + 1;
            assert(mod_pairs(self.nodes@, ms@.take(i as int)) =~= mod_pairs(
                self.nodes@,
                ms@.take(i - 1),
            ).push(pair_of(self.nodes@, ms@[i - 1])));
        }
        assert(ms@.take(i as int) == ms@);
        r
    }

    pub(crate) fn sum_parents(&self, ps: &Vec<usize>) -> (r: i64)
        ensures
            r == clamp(parents_sum(self.nodes@, ps@)),
    {
        let mut acc: i128 = 0;
        let mut i: usize = 0;
        while i < ps.len()
            invariant
                i <= ps@.len(),
                acc == parents_sum(self.nodes@, ps@.take(i as int)),
                -(i as int) * 0x8000_0000_0000_0000 <= acc <= (i as int) * 0x8000_0000_0000_0000,
            decreases ps.len() - i,
        {
            let v = match self.get_value(ps[i]) {
                Some(v) => v,
                None => 0,
            };
            proof {
                assert(ps@.take(i + 1).drop_last() == ps@.take(i as int));
                assert((i + 1) * 0x8000_0000_0000_0000 <= 0x1_0000_0000_0000_0001
                    * 0x8000_0000_0000_0000) by (nonlinear_arith)
                    requires
                        i < 0x1_0000_0000_0000_0000,
                ;
            }
            acc = acc + v as i128;
            i = i + 1;
        }
        assert(ps@.take(i as int) == ps@);
        crate::num::clamp_wide(acc)
    }

    /// The value of attribute `a` from the current slots.
    pub(crate) fn attribute_value_of(&self, a: &AttributeNode) -> (r: i64)
        ensures
            r == attribute_formula(self.nodes@, *a),
    {
        match &a.kind {
            Attribute::Fixed => match a.value {
                Some(v) => v,
                None => 0,
            },
            Attribute::Merged(ps) => self.sum_parents(ps),
            Attribute::Plain(b) => {
                let m = crate::modifier::merge_modifiers(&self.modifier_pairs(&a.modifiers));
                crate::num::num_combine(*b, m.ratio, m.delta)
            },
            Attribute::BasedOn(p) => {
                let base = match self.get_value(*p) {
                    Some(v) => v,
                    None => 0,
                };
                let m = crate::modifier::merge_modifiers(&self.modifier_pairs(&a.modifiers));
                crate::num::num_combine(base, m.ratio, m.delta)
            },
        }
    }
}

pub(crate) fn copy_into(r: &mut Vec<usize>, s: &Vec<usize>)
    ensures
        final(r)@ == old(r)@ + s@,
{
    let mut i: usize = 0;
    while i < s.len()
        invariant
            i <= s@.len(),
            r@ == old(r)@ + s@.take(i as int),
        decreases s.len() - i,
    {
        r.push(s[i]);
        i = i + 1;
        assert(old(r)@ + s@.take(i as int) =~= old(r)@ + s@.take(i - 1) + seq![s@[i - 1]]);
    }
    assert(s@.take(i as int) == s@);
}

/// A node holds no edge on an id beyond those it is computed from.
pub(crate) proof fn lemma_refs_below(n: Node, len: nat, p: usize)
    requires
        forall|k: int| 0 <= k < preds(n).len() ==> #[trigger] preds(n)[k] < len,
        p >= len,
    ensures
        refs(n, p) == 0,
{
    broadcast use vstd::seq_lib::group_to_multiset_ensures;

    if ref_list(n).contains(p) {
        let k = choose|k: int| 0 <= k < ref_list(n).len() && ref_list(n)[k] == p;
        assert(preds(n)[k] == p);
    }
}

/// Changing one node leaves every other node consistent that does not read it.
pub(crate) proof fn lemma_frame_update(n0: Seq<Node>, n1: Seq<Node>, w: usize, y: usize)
    requires
        w < n0.len(),
        n1.len() == n0.len(),
        forall|i: int| 0 <= i < n0.len() && i != w ==> n1[i] == n0[i],
        consistent_at(n0, y),
        y != w,
        !(is_computed(node_at(n0, y)) && preds(node_at(n0, y)).contains(w)),
    ensures
        consistent_at(n1, y),
{
    assert(node_at(n1, y) == node_at(n0, y));
    let py = preds(node_at(n0, y));
    if is_derived(node_at(n0, y)) && !pending(n0, y) {
        assert(is_computed(node_at(n0, y)));
        assert(agree_on(n0, n1, py)) by {
            assert forall|k: int| 0 <= k < py.len() implies node_at(n0, #[trigger] py[k]) == node_at(
                n1,
                py[k],
            ) by {
                assert(py[k] != w);
            }
        }
        lemma_formula_agree(n0, n1, node_at(n0, y));
    }
}

/// Appending a node that nothing reads keeps every old node consistent.
pub(crate) proof fn lemma_frame_push(n0: Seq<Node>, v: Node, y: usize)
    requires
        consistent_at(n0, y),
        y < n0.len(),
        forall|k: int| 0 <= k < preds(n0[y as int]).len() ==> #[trigger] preds(n0[y as int])[k] < n0.len(),
    ensures
        consistent_at(n0.push(v), y),
{
    let n1 = n0.push(v);
    assert(node_at(n1, y) == node_at(n0, y));
    let py = preds(node_at(n0, y));
    assert(agree_on(n0, n1, py)) by {
        assert forall|k: int| 0 <= k < py.len() implies node_at(n0, #[trigger] py[k]) == node_at(
            n1,
            py[k],
        ) by {
            assert(py[k] < n0.len());
        }
    }
    lemma_formula_agree(n0, n1, node_at(n0, y));
}

/// Both graphs hold the same nodes but for their slots, over the same index.
pub open spec fn same_shape(a: &AttributeGraph, b: &AttributeGraph) -> bool {
    &&& a.index == b.index
    &&& a.nodes@.len() == b.nodes@.len()
    &&& forall|i: int| 0 <= i < a.nodes@.len() ==> same_but_slot(#[trigger] a.nodes@[i], b.nodes@[i])
}

pub(crate) proof fn lemma_same_shape_trans(a: AttributeGraph, b: AttributeGraph, c: AttributeGraph)
    requires
        same_shape(&a, &b),
        same_shape(&b, &c),
    ensures
        same_shape(&a, &c),
{
    assert forall|i: int| 0 <= i < a.nodes@.len() implies same_but_slot(
        #[trigger] a.nodes@[i],
        c.nodes@[i],
    ) by {
        assert(same_but_slot(a.nodes@[i], b.nodes@[i]));
        assert(same_but_slot(b.nodes@[i], c.nodes@[i]));
    }
}

/// Whether `n` is derived and holds a present slot.
pub open spec fn is_computed(n: Node) -> bool {
    is_derived(n) && match n {
        Node::Attribute(a) => a.value is Some,
        Node::Modifier(m) => m.value is Some,
        Node::Vacant => false,
    }
}

proof fn lemma_map_multiset(ms1: Seq<usize>, ms2: Seq<usize>, f: spec_fn(usize) -> ModifierValue)
    requires
        ms1.to_multiset() == ms2.to_multiset(),
    ensures
        ms1.map_values(f).to_multiset() == ms2.map_values(f).to_multiset(),
    decreases ms1.len(),
{
    broadcast use vstd::seq_lib::group_to_multiset_ensures;

    if ms1.len() == 0 {
        assert(ms1.to_multiset().len() == 0);
        assert(ms2.len() == 0);
        assert(ms1.map_values(f) =~= ms2.map_values(f));
    } else {
        let x = ms1.last();
        assert(ms1 == ms1.drop_last().push(x));
        assert(ms2.to_multiset().count(x) > 0);
        let j = choose|j: int| 0 <= j < ms2.len() && ms2[j] == x;
        assert(ms2.remove(j).to_multiset() == ms1.drop_last().to_multiset());
        lemma_map_multiset(ms1.drop_last(), ms2.remove(j), f);
        assert(ms1.map_values(f) =~= ms1.drop_last().map_values(f).push(f(x)));
        assert(ms2.remove(j).map_values(f) =~= ms2.map_values(f).remove(j));
        assert(ms2.map_values(f)[j] == f(x));
    }
}

/// The value of an attribute does not depend on the order in which its
/// modifiers were attached: two attributes of one kind whose modifier lists
/// hold the same modifiers have the same formula.
pub proof fn lemma_attach_order_invariant(nodes: Seq<Node>, a1: AttributeNode, a2: AttributeNode)
    requires
        a1.kind == a2.kind,
        a1.value == a2.value,
        a1.modifiers@.to_multiset() == a2.modifiers@.to_multiset(),
    ensures
        merged(mod_pairs(nodes, a1.modifiers@)) == merged(mod_pairs(nodes, a2.modifiers@)),
        attribute_formula(nodes, a1) == attribute_formula(nodes, a2),
{
    let f = |m: usize| pair_of(nodes, m);
    lemma_map_multiset(a1.modifiers@, a2.modifiers@, f);
    lemma_merge_order_invariant(mod_pairs(nodes, a1.modifiers@), mod_pairs(nodes, a2.modifiers@));
}

/// Every node that is not derived, other than `e1` and `e2`, is the same in
/// `after`: a `Fixed` value or a static pair changes only by its own edit.
pub open spec fn keeps_authored(before: Seq<Node>, after: Seq<Node>, e1: usize, e2: usize) -> bool {
    forall|i: usize|
        i != e1 && i != e2 && i < before.len() && !is_derived(#[trigger] node_at(before, i))
            ==> node_at(after, i) == node_at(before, i)
}

/// Node `n` reads node `x`: it is computed from `x`, or lists `x` among its
/// modifiers.
pub open spec fn reads(n: Node, x: usize) -> bool {
    preds(n).contains(x) || (n is Attribute && n->Attribute_0.modifiers@.contains(x))
}

/// Under `rank`, each node of `c` ranks below `bound` and is one of `roots`
/// or reads a node of `c` of lower rank.
pub open spec fn ranked_rests(
    nodes: Seq<Node>,
    c: Set<usize>,
    roots: Set<usize>,
    rank: spec_fn(usize) -> nat,
    bound: nat,
) -> bool {
    forall|y: usize| #[trigger]
        c.contains(y) ==> rank(y) < bound && (roots.contains(y) || exists|z: usize|
            #[trigger] c.contains(z) && reads(node_at(nodes, y), z) && rank(z) < rank(y))
}

/// The nodes of `c` rest on `roots`: following what each reads within `c`,
/// down a ranking, every chain ends at a root.
pub open spec fn rests_on(nodes: Seq<Node>, c: Set<usize>, roots: Set<usize>) -> bool {
    exists|rank: spec_fn(usize) -> nat, bound: nat| #[trigger]
        ranked_rests(nodes, c, roots, rank, bound)
}

/// Every node of `before` that held a present slot and is not the same in
/// `after` rests on `roots`.
pub open spec fn changes_rest_on(before: Seq<Node>, after: Seq<Node>, roots: Set<usize>) -> bool {
    exists|c: Set<usize>|
        #[trigger] rests_on(before, c, roots) && forall|i: usize|
            i < before.len() && !pending(before, i) && node_at(after, i) != node_at(before, i)
                ==> #[trigger] c.contains(i)
}

pub(crate) proof fn lemma_ref_in_preds(n: Node, x: usize)
    requires
        refs(n, x) > 0,
    ensures
        reads(n, x),
{
    broadcast use vstd::seq_lib::group_to_multiset_ensures;

    assert(ref_list(n).contains(x));
    let k = choose|k: int| 0 <= k < ref_list(n).len() && ref_list(n)[k] == x;
    assert(preds(n)[k] == x);
}

pub(crate) proof fn lemma_same_reads(a: Node, b: Node, x: usize)
    requires
        same_but_slot(a, b),
    ensures
        reads(a, x) == reads(b, x),
{
    assert(preds(a) == preds(b));
}

/// Changes that rest on `start`, made after an edit of the nodes `roots`
/// that left every other node as it was, rest on `roots` when each node of
/// `start` is a root or reads one.
pub(crate) proof fn lemma_rests_transfer(
    n_old: Seq<Node>,
    n_mid: Seq<Node>,
    n_fin: Seq<Node>,
    start: Set<usize>,
    roots: Set<usize>,
)
    requires
        changes_rest_on(n_mid, n_fin, start),
        n_old.len() <= n_mid.len(),
        forall|y: usize| !roots.contains(y) ==> #[trigger] node_at(n_mid, y) == node_at(n_old, y),
        forall|y: usize|
            #[trigger] start.contains(y) ==> roots.contains(y) || exists|z: usize|
                #[trigger] roots.contains(z) && reads(node_at(n_old, y), z),
    ensures
        changes_rest_on(n_old, n_fin, roots),
{
    let c = choose|c: Set<usize>|
        #[trigger] rests_on(n_mid, c, start) && forall|i: usize|
            i < n_mid.len() && !pending(n_mid, i) && node_at(n_fin, i) != node_at(n_mid, i)
                ==> #[trigger] c.contains(i);
    let c2 = c.union(roots);
    let (rk, bd) = choose|rank: spec_fn(usize) -> nat, bound: nat| #[trigger]
        ranked_rests(n_mid, c, start, rank, bound);
    let rk2 = |v: usize| if roots.contains(v) { 0nat } else { rk(v) + 1 };
    assert forall|y: usize| #[trigger] c2.contains(y) implies rk2(y) < bd + 1 && (roots.contains(y)
        || exists|z: usize| #[trigger] c2.contains(z) && reads(node_at(n_old, y), z) && rk2(z) < rk2(y)) by {
        if !roots.contains(y) {
            assert(c.contains(y));
            assert(node_at(n_mid, y) == node_at(n_old, y));
            if start.contains(y) {
                let z = choose|z: usize| #[trigger] roots.contains(z) && reads(node_at(n_old, y), z);
                assert(c2.contains(z));
            } else {
                let z = choose|z: usize|
                    #[trigger] c.contains(z) && reads(node_at(n_mid, y), z) && rk(z) < rk(y);
                assert(c2.contains(z));
            }
        }
    }
    assert(ranked_rests(n_old, c2, roots, rk2, bd + 1));
    assert(rests_on(n_old, c2, roots));
    assert forall|i: usize|
        i < n_old.len() && !pending(n_old, i) && node_at(n_fin, i) != node_at(n_old, i)
            implies #[trigger] c2.contains(i) by {
        if !roots.contains(i) {
            assert(node_at(n_mid, i) == node_at(n_old, i));
            assert(c.contains(i));
        }
    }
}

impl AttributeGraph {
    /// A node listed among the dependents of `e` reads `e`.
    pub(crate) proof fn lemma_dependent_reads(&self, e: usize, d: usize)
        requires
            self.structure_wf(),
            e < self.nodes@.len(),
            self.index.dependents@[e as int]@.contains(d),
        ensures
            d < self.nodes@.len(),
            reads(node_at(self.nodes@, d), e),
    {
        assert(self.index.is_dependent(e as int, d));
        assert(self.index.count(d as int, e) > 0);
        lemma_ref_in_preds(self.nodes@[d as int], e);
    }
}

/// `n` is a dynamic modifier.
pub open spec fn is_dynamic(n: Node) -> bool {
    n matches Node::Modifier(m) && m.dynamic is Some
}

/// Each dynamic modifier that held its pair in `before` and holds none in
/// `after` rests on a cycle of absent slots: every other one was re-derived.
pub open spec fn rederived(before: Seq<Node>, after: Seq<Node>) -> bool {
    forall|m: usize|
        #[trigger] pending(after, m) && !pending(before, m) && is_dynamic(node_at(before, m))
            ==> crate::evaluator::cyclic_upstream(after, m)
}

/// Changes resting on `r1`, followed by changes resting on `r2`, rest on
/// `r1` when `r2` lies within `r1` and the first changes kept every other node
/// but for its slot.
pub(crate) proof fn lemma_rests_chain(
    a: Seq<Node>,
    b: Seq<Node>,
    c: Seq<Node>,
    r1: Set<usize>,
    r2: Set<usize>,
)
    requires
        changes_rest_on(a, b, r1),
        changes_rest_on(b, c, r2),
        r2.subset_of(r1),
        a.len() == b.len(),
        forall|y: usize| !r1.contains(y) && y < a.len() ==> same_but_slot(#[trigger] a[y as int], b[y as int]),
    ensures
        changes_rest_on(a, c, r1),
{
    let c1 = choose|s: Set<usize>|
        #[trigger] rests_on(a, s, r1) && forall|i: usize|
            i < a.len() && !pending(a, i) && node_at(b, i) != node_at(a, i) ==> #[trigger] s.contains(i);
    let c2 = choose|s: Set<usize>|
        #[trigger] rests_on(b, s, r2) && forall|i: usize|
            i < b.len() && !pending(b, i) && node_at(c, i) != node_at(b, i) ==> #[trigger] s.contains(i);
    let cc = c1.union(c2).union(r1);
    let (k1, b1) = choose|rank: spec_fn(usize) -> nat, bound: nat| #[trigger]
        ranked_rests(a, c1, r1, rank, bound);
    let (k2, b2) = choose|rank: spec_fn(usize) -> nat, bound: nat| #[trigger]
        ranked_rests(b, c2, r2, rank, bound);
    let kk = |v: usize| if r1.contains(v) {
        0nat
    } else if c1.contains(v) {
        k1(v) + 1
    } else {
        b1 + 1 + k2(v)
    };
    assert forall|y: usize| #[trigger] cc.contains(y) implies kk(y) < b1 + 1 + b2 && (r1.contains(y)
        || exists|z: usize| #[trigger] cc.contains(z) && reads(node_at(a, y), z) && kk(z) < kk(y)) by {
        if !r1.contains(y) {
            if c1.contains(y) {
                let z = choose|z: usize|
                    #[trigger] c1.contains(z) && reads(node_at(a, y), z) && k1(z) < k1(y);
                assert(cc.contains(z));
            } else {
                assert(c2.contains(y));
                assert(!r2.contains(y));
                let z = choose|z: usize|
                    #[trigger] c2.contains(z) && reads(node_at(b, y), z) && k2(z) < k2(y);
                if y < a.len() {
                    assert(same_but_slot(a[y as int], b[y as int]));
                    lemma_same_reads(a[y as int], b[y as int], z);
                }
                if c1.contains(z) && !r1.contains(z) {
                    assert(k1(z) < b1);
                }
                assert(cc.contains(z));
            }
        }
    }
    assert(ranked_rests(a, cc, r1, kk, b1 + 1 + b2));
    assert(rests_on(a, cc, r1));
    assert forall|i: usize|
        i < a.len() && !pending(a, i) && node_at(c, i) != node_at(a, i) implies #[trigger] cc.contains(i) by {
        if node_at(b, i) != node_at(a, i) {
            assert(c1.contains(i));
        } else {
            assert(c2.contains(i));
        }
    }
}

/// If `t` is a `Fixed` attribute in `before`, its value is the same in
/// `after`: only its own external setter changes it.
pub open spec fn fixed_kept(before: Seq<Node>, after: Seq<Node>, t: usize) -> bool {
    (node_at(before, t) matches Node::Attribute(a) && a.kind is Fixed) ==> resolved(after, t)
        == resolved(before, t)
}

/// `p` is a chain from `m` to `i` in which each node reads the next one's
/// value: `i` lies in the upstream of `m`.
pub open spec fn is_upstream_chain(nodes: Seq<Node>, p: Seq<usize>, m: usize, i: usize) -> bool {
    &&& p.len() >= 1
    &&& p[0] == m
    &&& p[p.len() - 1] == i
    &&& forall|k: int| 0 <= k < p.len() - 1 ==> preds(node_at(nodes, #[trigger] p[k])).contains(p[k + 1])
}

/// `i` lies in the upstream of `m`.
pub open spec fn upstream_of(nodes: Seq<Node>, m: usize, i: usize) -> bool {
    exists|p: Seq<usize>| #[trigger] is_upstream_chain(nodes, p, m, i)
}

/// Two node sequences that agree but for slots have the same upstreams.
pub(crate) proof fn lemma_upstream_same_shape(n1: Seq<Node>, n2: Seq<Node>, m: usize, i: usize)
    requires
        upstream_of(n1, m, i),
        n1.len() == n2.len(),
        forall|v: int| 0 <= v < n1.len() ==> same_but_slot(#[trigger] n1[v], n2[v]),
    ensures
        upstream_of(n2, m, i),
{
    let p = choose|p: Seq<usize>| #[trigger] is_upstream_chain(n1, p, m, i);
    assert forall|k: int| 0 <= k < p.len() - 1 implies preds(node_at(n2, #[trigger] p[k])).contains(
        p[k + 1],
    ) by {
        assert(preds(node_at(n1, p[k])).contains(p[k + 1]));
        if p[k] < n1.len() {
            assert(same_but_slot(n1[p[k] as int], n2[p[k] as int]));
        }
    }
    assert(is_upstream_chain(n2, p, m, i));
}

/// A slot that was present in `before`, changed, and is still present in
/// `after` lies in the upstream of a dynamic modifier that was present in
/// `before` (its re-derivation memoized it), or of a node of `extra`.
/// Nodes `e1` and `e2` are exempt.
pub open spec fn left_absent(
    before: Seq<Node>,
    after: Seq<Node>,
    e1: usize,
    e2: usize,
    extra: Set<usize>,
) -> bool {
    forall|i: usize|
        i != e1 && i != e2 && i < before.len() && !pending(before, i) && #[trigger] node_at(after, i)
            != node_at(before, i) ==> pending(after, i) || exists|m: usize|
            (extra.contains(m) || (is_dynamic(node_at(before, m)) && !pending(before, m)))
                && #[trigger] upstream_of(after, m, i)
}

} // verus!
