use attribute_graph::dependency::{AttributeDependencies, DependencyIndex};
use attribute_graph::evaluator::EvalError;
use attribute_graph::store::{Attribute, AttributeGraph};
use attribute_graph::modifier::{
    calculate_dynamic_modifier_value, merge_modifiers, DynamicModifier, DynamicModifierType,
    ModifierValue,
};
use attribute_graph::num::{num_add, num_combine, num_mul, SCALE};

fn fx(x: f64) -> i64 {
    (x * SCALE as f64).round() as i64
}

fn fixed(g: &mut AttributeGraph, v: f64) -> usize {
    g.spawn_attribute(Attribute::Fixed, Some(fx(v))).unwrap()
}

fn fetch(g: &mut AttributeGraph, x: usize) -> i64 {
    g.fetch_value(x).unwrap().unwrap()
}

#[test]
fn test_attribute_evaluator() {
    let mut g = AttributeGraph::new();
    let attr_a = fixed(&mut g, 42.0);
    let attr_b = g.spawn_attribute(Attribute::BasedOn(attr_a), None).unwrap();
    let attr_c = g.spawn_attribute(Attribute::Plain(fx(100.0)), None).unwrap();
    g.add_modifier(attr_b, fx(0.5), fx(8.0)).unwrap();
    g.add_modifier(attr_c, fx(0.7), fx(-10.0)).unwrap();
    let attr_d = g.spawn_attribute(Attribute::Merged(vec![attr_b, attr_c]), None).unwrap();

    assert_eq!(fetch(&mut g, attr_d), fx((42.0 * 0.5 + 8.0) + (100.0 * 0.7 - 10.0)));

    assert!(g.set_value(attr_a, fx(84.0)));
    assert_eq!(fetch(&mut g, attr_d), fx((84.0 * 0.5 + 8.0) + (100.0 * 0.7 - 10.0)));
}

#[test]
fn worked_example_keeps_unaffected_cache() {
    let mut g = AttributeGraph::new();
    let a = fixed(&mut g, 42.0);
    let b = g.spawn_attribute(Attribute::BasedOn(a), None).unwrap();
    g.add_modifier(b, fx(0.5), fx(8.0)).unwrap();
    let c = g.spawn_attribute(Attribute::Plain(fx(100.0)), None).unwrap();
    g.add_modifier(c, fx(0.7), fx(-10.0)).unwrap();
    let d = g.spawn_attribute(Attribute::Merged(vec![b, c]), None).unwrap();
    assert_eq!(fetch(&mut g, d), fx(89.0));
    assert_eq!(g.get_value(b), Some(fx(29.0)));
    assert_eq!(g.get_value(c), Some(fx(60.0)));
    assert!(g.set_value(a, fx(84.0)));
    assert_eq!(g.get_value(b), None);
    assert_eq!(g.get_value(d), None);
    assert_eq!(g.get_value(c), Some(fx(60.0)));
    assert_eq!(fetch(&mut g, d), fx(110.0));
    assert_eq!(g.get_value(b), Some(fx(50.0)));
}

#[test]
fn dynamic_modifier_scenario() {
    let mut g = AttributeGraph::new();
    let source = fixed(&mut g, 10.0);
    let target = g.spawn_attribute(Attribute::Plain(fx(1.0)), None).unwrap();
    let m = g
        .add_dynamic_modifier(target, DynamicModifier::new_scale(source, fx(5.0), 0, fx(0.2)))
        .unwrap();
    assert_eq!(g.get_modifier_value(m), Some(ModifierValue::new(0, fx(2.0))));
    assert_eq!(fetch(&mut g, target), fx(2.0));
    assert!(g.set_value(source, fx(4.0)));
    assert_eq!(g.get_modifier_value(m), Some(ModifierValue::new(0, 0)));
    assert_eq!(g.get_value(target), None);
    assert_eq!(fetch(&mut g, target), 0);
}

#[test]
fn dynamic_modifier_follows_derived_source() {
    let mut g = AttributeGraph::new();
    let base = fixed(&mut g, 3.0);
    let source = g.spawn_attribute(Attribute::BasedOn(base), None).unwrap();
    g.add_modifier(source, fx(2.0), 0).unwrap();
    let target = g.spawn_attribute(Attribute::Plain(fx(10.0)), None).unwrap();
    g.add_modifier(target, fx(1.0), 0).unwrap();
    let m = g
        .add_dynamic_modifier(target, DynamicModifier::new_copy(source, fx(5.0), fx(0.5), fx(1.0)))
        .unwrap();
    assert_eq!(g.get_modifier_value(m), Some(ModifierValue::new(fx(0.5), fx(1.0))));
    assert_eq!(fetch(&mut g, target), fx(10.0 * 1.5 + 1.0));
    assert!(g.set_value(base, fx(2.0)));
    assert_eq!(g.get_modifier_value(m), Some(ModifierValue::new(0, 0)));
    assert_eq!(fetch(&mut g, target), fx(10.0));
}

#[test]
fn threshold_boundary_is_inclusive() {
    let copy = DynamicModifier::new_copy(0, fx(5.0), fx(0.3), fx(4.0));
    assert_eq!(
        calculate_dynamic_modifier_value(&copy, Some(fx(5.0))),
        ModifierValue::new(fx(0.3), fx(4.0))
    );
    assert_eq!(calculate_dynamic_modifier_value(&copy, Some(fx(5.0) - 1)), ModifierValue::new(0, 0));
    let scale = DynamicModifier::new_scale(0, fx(5.0), fx(0.1), fx(2.0));
    assert_eq!(
        calculate_dynamic_modifier_value(&scale, Some(fx(5.0))),
        ModifierValue::new(fx(0.5), fx(10.0))
    );
}

#[test]
fn scale_without_threshold_uses_excess() {
    let m = DynamicModifier::new_scale_without_threshold(0, fx(5.0), fx(0.1), fx(2.0));
    assert_eq!(m.modifier_type, DynamicModifierType::ScaleWithoutThreshold);
    assert_eq!(
        calculate_dynamic_modifier_value(&m, Some(fx(8.0))),
        ModifierValue::new(fx(0.3), fx(6.0))
    );
    assert_eq!(calculate_dynamic_modifier_value(&m, Some(fx(5.0))), ModifierValue::new(0, 0));
    assert_eq!(calculate_dynamic_modifier_value(&m, Some(fx(1.0))), ModifierValue::new(0, 0));
}

#[test]
fn unresolved_source_gives_zero_pair() {
    let m = DynamicModifier::new(0, fx(-5.0), fx(1.0), fx(1.0), DynamicModifierType::Copy);
    assert_eq!(calculate_dynamic_modifier_value(&m, None), ModifierValue::new(0, 0));
}

#[test]
fn merge_is_order_independent() {
    let a = ModifierValue::new(fx(0.1), fx(3.0));
    let b = ModifierValue::new(fx(0.25), fx(-1.0));
    let c = ModifierValue::new(fx(-0.05), fx(7.5));
    let one = merge_modifiers(&vec![a, b, c]);
    let two = merge_modifiers(&vec![c, a, b]);
    assert_eq!(one, two);
    assert_eq!(one, ModifierValue::new(fx(0.3), fx(9.5)));
    assert_eq!(merge_modifiers(&vec![]), ModifierValue::new(0, 0));
}

#[test]
fn merge_order_in_graph() {
    let mut g1 = AttributeGraph::new();
    let x1 = g1.spawn_attribute(Attribute::Plain(fx(10.0)), None).unwrap();
    g1.add_modifier(x1, fx(0.5), fx(1.0)).unwrap();
    g1.add_modifier(x1, fx(0.25), fx(2.0)).unwrap();
    let mut g2 = AttributeGraph::new();
    let x2 = g2.spawn_attribute(Attribute::Plain(fx(10.0)), None).unwrap();
    g2.add_modifier(x2, fx(0.25), fx(2.0)).unwrap();
    g2.add_modifier(x2, fx(0.5), fx(1.0)).unwrap();
    assert_eq!(fetch(&mut g1, x1), fetch(&mut g2, x2));
    assert_eq!(fetch(&mut g1, x1), fx(10.5));
}

#[test]
fn fetch_twice_is_a_memo_hit() {
    let mut g = AttributeGraph::new();
    let a = fixed(&mut g, 7.0);
    let b = g.spawn_attribute(Attribute::BasedOn(a), None).unwrap();
    g.add_modifier(b, fx(2.0), fx(1.0)).unwrap();
    let first = g.fetch_value(b);
    assert_eq!(g.get_value(b), Some(fx(15.0)));
    let second = g.fetch_value(b);
    assert_eq!(first, second);
    assert_eq!(first, Ok(Some(fx(15.0))));
}

#[test]
fn plain_without_modifiers_is_zero() {
    let mut g = AttributeGraph::new();
    let x = g.spawn_attribute(Attribute::Plain(fx(100.0)), None).unwrap();
    assert_eq!(fetch(&mut g, x), 0);
}

#[test]
fn fixed_without_value_is_refused() {
    let mut g = AttributeGraph::new();
    assert_eq!(g.spawn_attribute(Attribute::Fixed, None), None);
    assert_eq!(g.spawn_attribute(Attribute::BasedOn(3), None), None);
    let a = fixed(&mut g, 1.0);
    assert_eq!(g.spawn_attribute(Attribute::Merged(vec![a, 9]), None), None);
    assert!(!g.set_attribute(a, Attribute::Fixed, None));
}

#[test]
fn set_value_only_on_fixed() {
    let mut g = AttributeGraph::new();
    let p = g.spawn_attribute(Attribute::Plain(fx(1.0)), None).unwrap();
    assert!(!g.set_value(p, fx(5.0)));
    assert!(!g.set_value(17, fx(5.0)));
    assert_eq!(g.fetch_value(17), Ok(None));
}

#[test]
fn modifier_edits_invalidate_target() {
    let mut g = AttributeGraph::new();
    let a = fixed(&mut g, 10.0);
    let b = g.spawn_attribute(Attribute::BasedOn(a), None).unwrap();
    let m1 = g.add_modifier(b, fx(1.0), 0).unwrap();
    let m2 = g.add_modifier(b, fx(0.5), fx(3.0)).unwrap();
    let c = g.spawn_attribute(Attribute::Merged(vec![b, a]), None).unwrap();
    assert_eq!(fetch(&mut g, c), fx(18.0 + 10.0));
    assert!(g.update_modifier(m1, fx(2.0), 0));
    assert_eq!(g.get_value(c), None);
    assert_eq!(fetch(&mut g, c), fx(28.0 + 10.0));
    assert!(g.remove_modifier(m2));
    assert_eq!(fetch(&mut g, c), fx(20.0 + 10.0));
    assert!(!g.remove_modifier(m2));
    assert!(!g.update_modifier(a, 0, 0));
    assert_eq!(g.add_modifier(42, 0, 0), None);
}

#[test]
fn removed_dynamic_modifier_stops_following() {
    let mut g = AttributeGraph::new();
    let s = fixed(&mut g, 6.0);
    let t = g.spawn_attribute(Attribute::Plain(fx(2.0)), None).unwrap();
    g.add_modifier(t, fx(1.0), 0).unwrap();
    let m = g
        .add_dynamic_modifier(t, DynamicModifier::new_scale(s, 0, 0, fx(1.0)))
        .unwrap();
    assert_eq!(fetch(&mut g, t), fx(8.0));
    assert!(g.remove_modifier(m));
    assert_eq!(fetch(&mut g, t), fx(2.0));
    assert!(g.set_value(s, fx(100.0)));
    assert_eq!(g.get_value(t), Some(fx(2.0)));
    assert_eq!(g.add_dynamic_modifier(t, DynamicModifier::new_copy(99, 0, 0, 0)), None);
}

#[test]
fn kind_change_moves_edges() {
    let mut g = AttributeGraph::new();
    let a = fixed(&mut g, 1.0);
    let b = fixed(&mut g, 2.0);
    let c = g.spawn_attribute(Attribute::BasedOn(a), None).unwrap();
    g.add_modifier(c, fx(1.0), 0).unwrap();
    let d = g.spawn_attribute(Attribute::Merged(vec![c]), None).unwrap();
    assert_eq!(fetch(&mut g, d), fx(1.0));
    assert!(g.set_attribute(c, Attribute::BasedOn(b), None));
    assert_eq!(fetch(&mut g, d), fx(2.0));
    assert!(g.set_value(a, fx(50.0)));
    assert_eq!(g.get_value(d), Some(fx(2.0)));
    assert!(g.set_attribute(c, Attribute::Fixed, Some(fx(9.0))));
    assert_eq!(fetch(&mut g, d), fx(9.0));
}

#[test]
fn cycle_is_reported() {
    let mut g = AttributeGraph::new();
    let a = fixed(&mut g, 1.0);
    let b = g.spawn_attribute(Attribute::BasedOn(a), None).unwrap();
    g.add_modifier(b, fx(1.0), 0).unwrap();
    let c = g.spawn_attribute(Attribute::BasedOn(b), None).unwrap();
    g.add_modifier(c, fx(1.0), 0).unwrap();
    assert!(g.set_attribute(b, Attribute::BasedOn(c), None));
    assert_eq!(g.fetch_value(c), Err(EvalError::Cycle));
    assert_eq!(g.get_value(c), None);
}

#[test]
fn removed_parent_contributes_nothing() {
    let mut g = AttributeGraph::new();
    let a = fixed(&mut g, 4.0);
    let x = g.spawn_attribute(Attribute::Plain(0), None).unwrap();
    let m = g.add_modifier(x, 0, fx(5.0)).unwrap();
    let s = g.spawn_attribute(Attribute::Merged(vec![a, m]), None).unwrap();
    assert_eq!(fetch(&mut g, s), fx(4.0));
    assert!(g.remove_modifier(m));
    assert_eq!(fetch(&mut g, s), fx(4.0));
}

#[test]
fn reference_counts_survive_one_release() {
    let deps = AttributeDependencies::new().increase(3).increase(3).increase(5);
    assert_eq!(deps.count(3), 2);
    let deps = deps.release(3);
    assert_eq!(deps.count(3), 1);
    let deps = deps.release(3).release(3);
    assert_eq!(deps.count(3), 0);
    assert_eq!(deps.count(5), 1);

    let mut index = DependencyIndex::new();
    for _ in 0..3 {
        index.push_node();
    }
    index.increase(1, 0);
    index.increase(2, 0);
    index.increase(2, 0);
    index.release(1, 0);
    assert_eq!(index.dependents_of(0), &vec![2]);
    index.release(2, 0);
    assert_eq!(index.dependents_of(0), &vec![2]);
    index.release(2, 0);
    assert!(index.dependents_of(0).is_empty());
    index.release(2, 0);
    assert!(index.dependents_of(0).is_empty());
}

#[test]
fn shared_dependency_in_graph() {
    let mut g = AttributeGraph::new();
    let a = fixed(&mut g, 3.0);
    let b = g.spawn_attribute(Attribute::Merged(vec![a]), None).unwrap();
    let c = g.spawn_attribute(Attribute::Plain(fx(1.0)), None).unwrap();
    let m = g.add_dynamic_modifier(c, DynamicModifier::new_copy(a, 0, 0, fx(1.0))).unwrap();
    assert!(g.set_attribute(b, Attribute::Plain(0), None));
    assert_eq!(fetch(&mut g, c), fx(1.0));
    assert!(g.set_value(a, fx(-1.0)));
    assert_eq!(g.get_modifier_value(m), Some(ModifierValue::new(0, 0)));
    assert_eq!(fetch(&mut g, c), 0);
}

#[test]
fn fixed_point_arithmetic() {
    assert_eq!(num_mul(fx(1.5), fx(2.0)), fx(3.0));
    assert_eq!(num_mul(fx(-1.5), fx(0.5)), fx(-0.75));
    assert_eq!(num_mul(-3, fx(0.5)), -1);
    assert_eq!(num_add(i64::MAX, 1), i64::MAX);
    assert_eq!(num_add(i64::MIN, -1), i64::MIN);
    assert_eq!(num_mul(i64::MAX, fx(2.0)), i64::MAX);
    assert_eq!(num_combine(fx(42.0), fx(0.5), fx(8.0)), fx(29.0));
}

#[test]
fn merged_parent_listed_twice_is_refused() {
    let mut g = AttributeGraph::new();
    let a = fixed(&mut g, 1.0);
    assert_eq!(g.spawn_attribute(Attribute::Merged(vec![a, a]), None), None);
    let m = g.spawn_attribute(Attribute::Merged(vec![a]), None).unwrap();
    assert!(!g.set_attribute(m, Attribute::Merged(vec![a, a]), None));
    assert_eq!(fetch(&mut g, m), fx(1.0));
}

#[test]
fn long_chain_sees_upstream_change() {
    let mut g = AttributeGraph::new();
    let a = fixed(&mut g, 1.0);
    let mut prev = a;
    let mut chain = Vec::new();
    for _ in 0..6 {
        let n = g.spawn_attribute(Attribute::BasedOn(prev), None).unwrap();
        g.add_modifier(n, fx(2.0), fx(1.0)).unwrap();
        chain.push(n);
        prev = n;
    }
    let side = g.spawn_attribute(Attribute::Plain(fx(5.0)), None).unwrap();
    g.add_modifier(side, fx(1.0), 0).unwrap();
    let top = g.spawn_attribute(Attribute::Merged(vec![prev, side]), None).unwrap();
    assert_eq!(fetch(&mut g, top), fx(127.0 + 5.0));
    assert!(g.set_value(a, fx(2.0)));
    for n in &chain {
        assert_eq!(g.get_value(*n), None);
    }
    assert_eq!(g.get_value(side), Some(fx(5.0)));
    assert_eq!(fetch(&mut g, top), fx(191.0 + 5.0));
    assert_eq!(fetch(&mut g, chain[0]), fx(5.0));
}

#[test]
fn removed_attribute_requires_no_readers() {
    let mut g = AttributeGraph::new();
    let a = fixed(&mut g, 4.0);
    let b = fixed(&mut g, 6.0);
    let sum = g.spawn_attribute(Attribute::Merged(vec![a, b]), None).unwrap();
    let t = g.spawn_attribute(Attribute::Plain(fx(1.0)), None).unwrap();
    let own = g.add_modifier(t, fx(1.0), 0).unwrap();
    let m = g.add_dynamic_modifier(t, DynamicModifier::new_copy(a, 0, 0, fx(3.0))).unwrap();
    assert_eq!(fetch(&mut g, sum), fx(10.0));
    assert_eq!(fetch(&mut g, t), fx(4.0));
    assert!(!g.remove_attribute(a));
    assert_eq!(g.get_value(a), Some(fx(4.0)));
    assert!(g.set_attribute(sum, Attribute::Merged(vec![b]), None));
    assert!(!g.remove_attribute(a));
    assert!(g.remove_modifier(m));
    assert!(g.remove_attribute(a));
    assert_eq!(g.fetch_value(a), Ok(None));
    assert!(g.index.dependents_of(a).is_empty());
    assert_eq!(fetch(&mut g, sum), fx(6.0));
    assert_eq!(fetch(&mut g, t), fx(1.0));
    assert!(!g.remove_attribute(a));
    assert!(!g.remove_attribute(own));
    assert!(g.remove_attribute(t));
    assert_eq!(g.get_modifier_value(own), None);
    assert!(g.remove_attribute(sum));
    assert_eq!(g.fetch_value(sum), Ok(None));
}

#[test]
fn dynamic_modifier_on_cyclic_source_stays_absent() {
    let mut g = AttributeGraph::new();
    let a = fixed(&mut g, 1.0);
    let b = g.spawn_attribute(Attribute::BasedOn(a), None).unwrap();
    let c = g.spawn_attribute(Attribute::BasedOn(b), None).unwrap();
    assert!(g.set_attribute(b, Attribute::BasedOn(c), None));
    let t = g.spawn_attribute(Attribute::Plain(fx(1.0)), None).unwrap();
    let m = g.add_dynamic_modifier(t, DynamicModifier::new_copy(b, 0, 0, fx(1.0))).unwrap();
    assert_eq!(g.get_modifier_value(m), None);
    assert_eq!(g.fetch_value(t), Err(EvalError::Cycle));
    assert!(g.set_attribute(b, Attribute::Fixed, Some(fx(2.0))));
    assert_eq!(fetch(&mut g, t), fx(1.0));
    assert_eq!(g.get_modifier_value(m), Some(ModifierValue::new(0, fx(1.0))));
}

#[test]
fn modifier_on_fixed_target_keeps_its_value() {
    let mut g = AttributeGraph::new();
    let a = fixed(&mut g, 5.0);
    let b = g.spawn_attribute(Attribute::BasedOn(a), None).unwrap();
    g.add_modifier(b, fx(1.0), 0).unwrap();
    assert_eq!(fetch(&mut g, b), fx(5.0));
    let m = g.add_modifier(a, fx(3.0), fx(1.0)).unwrap();
    assert_eq!(g.get_value(a), Some(fx(5.0)));
    assert!(g.update_modifier(m, 0, 0));
    assert_eq!(g.get_value(a), Some(fx(5.0)));
    assert!(g.remove_modifier(m));
    assert_eq!(g.get_value(a), Some(fx(5.0)));
    assert_eq!(fetch(&mut g, b), fx(5.0));
}
