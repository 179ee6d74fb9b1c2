//! Modifiers: resolved `(ratio, delta)` pairs, their sum, and the rule that
//! derives the pair of a dynamic modifier from the value of its source.
use vstd::prelude::*;
use crate::num::{clamp, num_mul, num_sub, sat_sub, scaled_mul, clamp_wide};

verus! {

/// A resolved modifier pair, both parts in fixed point.
#[derive(Clone, Copy, Debug, PartialEq, Eq, Structural)]
pub struct ModifierValue {
    pub ratio: i64,
    pub delta: i64,
}

/// How a dynamic modifier turns the value of its source into a pair.
#[derive(Clone, Copy, Debug, PartialEq, Eq, Structural)]
pub enum DynamicModifierType {
    Copy,
    Scale,
    ScaleWithoutThreshold,
}

/// A modifier whose pair is derived from the value of another attribute.
#[derive(Clone, Copy, Debug, PartialEq, Eq, Structural)]
pub struct DynamicModifier {
    pub source: usize,
    pub threshold: i64,
    pub ratio: i64,
    pub delta: i64,
    pub modifier_type: DynamicModifierType,
}

/// The pair that changes nothing.
pub open spec fn zero_pair() -> ModifierValue {
    ModifierValue { ratio: 0, delta: 0 }
}

/// The pair of `m` when its source has value `s`, at or above the threshold.
pub open spec fn above_threshold_value(m: DynamicModifier, s: i64) -> ModifierValue {
    match m.modifier_type {
        DynamicModifierType::Copy => ModifierValue { ratio: m.ratio, delta: m.delta },
        DynamicModifierType::Scale => ModifierValue {
            ratio: scaled_mul(m.ratio, s),
            delta: scaled_mul(m.delta, s),
        },
        DynamicModifierType::ScaleWithoutThreshold => {
            let excess = sat_sub(s, m.threshold);
            ModifierValue { ratio: scaled_mul(m.ratio, excess), delta: scaled_mul(m.delta, excess) }
        },
    }
}

/// The pair of `m` when its source has value `source` (`None`: unresolved).
pub open spec fn derived_value(m: DynamicModifier, source: Option<i64>) -> ModifierValue {
    match source {
        None => zero_pair(),
        Some(s) => if s >= m.threshold {
            above_threshold_value(m, s)
        } else {
            zero_pair()
        },
    }
}

/// A source exactly at the threshold counts as reaching it; one below it
/// gives the zero pair.
pub proof fn lemma_threshold_inclusive(m: DynamicModifier, s: i64)
    ensures
        derived_value(m, Some(m.threshold)) == above_threshold_value(m, m.threshold),
        s < m.threshold ==> derived_value(m, Some(s)) == zero_pair(),
{
}

/// Exact sum of the ratios of a sequence of pairs.
pub open spec fn ratio_sum(s: Seq<ModifierValue>) -> int
    decreases s.len(),
{
    if s.len() == 0 {
        0
    } else {
        ratio_sum(s.drop_last()) + s.last().ratio
    }
}

/// Exact sum of the deltas of a sequence of pairs.
pub open spec fn delta_sum(s: Seq<ModifierValue>) -> int
    decreases s.len(),
{
    if s.len() == 0 {
        0
    } else {
        delta_sum(s.drop_last()) + s.last().delta
    }
}

/// The merged pair of a sequence of pairs: each sum, saturated.
pub open spec fn merged(s: Seq<ModifierValue>) -> ModifierValue {
    ModifierValue { ratio: clamp(ratio_sum(s)) as i64, delta: clamp(delta_sum(s)) as i64 }
}

impl ModifierValue {
    /// A pair with the given ratio and delta.
    pub fn new(ratio: i64, delta: i64) -> (r: ModifierValue)
        ensures
            r == (ModifierValue { ratio, delta }),
    {
        ModifierValue { ratio, delta }
    }
}

impl DynamicModifier {
    /// A dynamic modifier reading `source`, of the given type.
    pub fn new(
        source: usize,
        threshold: i64,
        ratio: i64,
        delta: i64,
        modifier_type: DynamicModifierType,
    ) -> (r: DynamicModifier)
        ensures
            r == (DynamicModifier { source, threshold, ratio, delta, modifier_type }),
    {
        DynamicModifier { source, threshold, ratio, delta, modifier_type }
    }

    /// A dynamic modifier that copies `(ratio, delta)` once the source reaches `threshold`.
    pub fn new_copy(source: usize, threshold: i64, ratio: i64, delta: i64) -> (r: DynamicModifier)
        ensures
            r == (DynamicModifier {
                source,
                threshold,
                ratio,
                delta,
                modifier_type: DynamicModifierType::Copy,
            }),
    {
        Self::new(source, threshold, ratio, delta, DynamicModifierType::Copy)
    }

    /// A dynamic modifier that scales `(ratio, delta)` by the source value once it reaches `threshold`.
    pub fn new_scale(source: usize, threshold: i64, ratio: i64, delta: i64) -> (r: DynamicModifier)
        ensures
            r == (DynamicModifier {
                source,
                threshold,
                ratio,
                delta,
                modifier_type: DynamicModifierType::Scale,
            }),
    {
        Self::new(source, threshold, ratio, delta, DynamicModifierType::Scale)
    }

    /// A dynamic modifier that scales `(ratio, delta)` by how far the source exceeds `threshold`.
    pub fn new_scale_without_threshold(
        source: usize,
        threshold: i64,
        ratio: i64,
        delta: i64,
    ) -> (r: DynamicModifier)
        ensures
            r == (DynamicModifier {
                source,
                threshold,
                ratio,
                delta,
                modifier_type: DynamicModifierType::ScaleWithoutThreshold,
            }),
    {
        Self::new(source, threshold, ratio, delta, DynamicModifierType::ScaleWithoutThreshold)
    }
}

/// Derives the pair of `m` from the value of its source; an unresolved
/// source gives the zero pair.
pub fn calculate_dynamic_modifier_value(m: &DynamicModifier, source: Option<i64>) -> (r:
    ModifierValue)
    ensures
        r == derived_value(*m, source),
{
    match source {
        None => ModifierValue { ratio: 0, delta: 0 },
        Some(s) => {
            if s >= m.threshold {
                match m.modifier_type {
                    DynamicModifierType::Copy => ModifierValue { ratio: m.ratio, delta: m.delta },
                    DynamicModifierType::Scale => ModifierValue {
                        ratio: num_mul(m.ratio, s),
                        delta: num_mul(m.delta, s),
                    },
                    DynamicModifierType::ScaleWithoutThreshold => {
                        let excess = num_sub(s, m.threshold);
                        ModifierValue {
                            ratio: num_mul(m.ratio, excess),
                            delta: num_mul(m.delta, excess),
                        }
                    },
                }
            } else {
                ModifierValue { ratio: 0, delta: 0 }
            }
        },
    }
}

/// Sums the pairs of `values`; each sum saturates only at the end.
pub fn merge_modifiers(values: &Vec<ModifierValue>) -> (r: ModifierValue)
    ensures
        r == merged(values@),
{
    let mut ratio: i128 = 0;
    let mut delta: i128 = 0;
    let mut i: usize = 0;
    while i < values.len()
        invariant
            i <= values.len(),
            ratio == ratio_sum(values@.take(i as int)),
            delta == delta_sum(values@.take(i as int)),
            -(i as int) * 0x8000_0000_0000_0000 <= ratio <= (i as int) * 0x8000_0000_0000_0000,
            -(i as int) * 0x8000_0000_0000_0000 <= delta <= (i as int) * 0x8000_0000_0000_0000,
        decreases values.len() - i,
    {
        let v = values[i];
        proof {
            assert(values@.take(i + 1).drop_last() == values@.take(i as int));
            assert(i < 0x1_0000_0000_0000_0000);
            assert((i + 1) * 0x8000_0000_0000_0000 <= 0x1_0000_0000_0000_0001 * 0x8000_0000_0000_0000)
                by (nonlinear_arith)
                requires
                    i < 0x1_0000_0000_0000_0000,
            ;
        }
        ratio = ratio + v.ratio as i128;
        delta = delta + v.delta as i128;
        i = i + 1;
    }
    assert(values@.take(values.len() as int) == values@);
    ModifierValue { ratio: clamp_wide(ratio), delta: clamp_wide(delta) }
}

proof fn lemma_sums_remove(s: Seq<ModifierValue>, i: int)
    requires
        0 <= i < s.len(),
    ensures
        ratio_sum(s) == ratio_sum(s.remove(i)) + s[i].ratio,
        delta_sum(s) == delta_sum(s.remove(i)) + s[i].delta,
    decreases s.len(),
{
    if i == s.len() - 1 {
        assert(s.remove(i) == s.drop_last());
    } else {
        lemma_sums_remove(s.drop_last(), i);
        assert(s.remove(i).drop_last() == s.drop_last().remove(i));
        assert(s.remove(i).last() == s.last());
    }
}

/// Merging does not depend on the order in which the modifiers were
/// attached: two sequences holding the same pairs, each as often, merge to
/// the same pair.
pub proof fn lemma_merge_order_invariant(s1: Seq<ModifierValue>, s2: Seq<ModifierValue>)
    requires
        s1.to_multiset() == s2.to_multiset(),
    ensures
        ratio_sum(s1) == ratio_sum(s2),
        delta_sum(s1) == delta_sum(s2),
        merged(s1) == merged(s2),
    decreases s1.len(),
{
    broadcast use vstd::seq_lib::group_to_multiset_ensures;

    if s1.len() == 0 {
        assert(s1.to_multiset().len() == 0);
        assert(s2.to_multiset().len() == s2.len());
        assert(s2.len() == 0);
    } else {
        let x = s1.last();
        assert(s1 == s1.drop_last().push(x));
        assert(s2.to_multiset().count(x) > 0);
        assert(s2.contains(x));
        let j = choose|j: int| 0 <= j < s2.len() && s2[j] == x;
        assert(s2.remove(j).to_multiset() == s1.drop_last().to_multiset());
        lemma_merge_order_invariant(s1.drop_last(), s2.remove(j));
        lemma_sums_remove(s2, j);
    }
}

} // verus!
