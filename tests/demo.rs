use attribute_graph::store::{Attribute, AttributeGraph};
use attribute_graph::modifier::DynamicModifier;
use attribute_graph::num::SCALE;

fn fx(x: f64) -> i64 {
    (x * SCALE as f64).round() as i64
}

fn spawn_attributes(g: &mut AttributeGraph, names: &mut Vec<(usize, String)>, name: &str) -> [usize; 5] {
    let base = g.spawn_attribute(Attribute::Plain(0), None).unwrap();
    names.push((base, format!("{} Base", name)));
    let delta = g.spawn_attribute(Attribute::BasedOn(base), None).unwrap();
    names.push((delta, format!("{} Delta", name)));
    let extra = g.spawn_attribute(Attribute::BasedOn(base), None).unwrap();
    names.push((extra, format!("{} Extra", name)));
    let safe = g.spawn_attribute(Attribute::Merged(vec![base, delta]), None).unwrap();
    names.push((safe, format!("{} Safe", name)));
    let final_ = g.spawn_attribute(Attribute::Merged(vec![safe, extra]), None).unwrap();
    names.push((final_, format!("{} Final", name)));
    [base, delta, extra, safe, final_]
}

fn print_attributes(g: &mut AttributeGraph, names: &Vec<(usize, String)>) {
    for (entity, name) in names {
        let value = g.fetch_value(*entity).unwrap().unwrap();
        println!("Entity {:?} ({}): {}", entity, name, value as f64 / SCALE as f64);
    }
}

#[test]
fn a() {
    let mut g = AttributeGraph::new();
    let mut names: Vec<(usize, String)> = Vec::new();

    let robin = spawn_attributes(&mut g, &mut names, "Robin");
    let danheng = spawn_attributes(&mut g, &mut names, "DanHeng");
    let phainon = spawn_attributes(&mut g, &mut names, "Phainon");

    print_attributes(&mut g, &names);

    // robin base modifier
    g.add_modifier(robin[0], 0, fx(640.0 + 635.0)).unwrap();
    // robin delta modifier
    g.add_modifier(
        robin[1],
        fx(0.12 + 0.432 * 2.0 + 0.116 + 0.112 + 0.12 + 0.12 + 0.28),
        fx(352.0 + 19.0),
    )
    .unwrap();

    // danheng base modifier
    g.add_modifier(danheng[0], 0, fx(582.0 + 476.0)).unwrap();
    // danheng delta modifier
    g.add_modifier(
        danheng[1],
        fx(0.432 * 2.0 + 0.159 + 0.086 + 0.077 + 0.125 + 0.28),
        fx(352.0 + 16.0 + 19.0 + 61.0 + 35.0),
    )
    .unwrap();

    // phainon base modifier
    g.add_modifier(phainon[0], 0, fx(582.0 + 687.0 + 1.0)).unwrap();
    // phainon delta modifier
    g.add_modifier(phainon[1], fx(0.432 * 2.0), fx(352.0 + 21.0)).unwrap();
    let phainon_talent_modifier = g.add_modifier(phainon[1], fx(0.5), 0).unwrap();
    g.add_modifier(phainon[1], fx(0.12), 0).unwrap();

    g.add_dynamic_modifier(phainon[2], DynamicModifier::new_scale(danheng[3], 0, 0, fx(0.15)))
        .unwrap();

    println!("initial modifiers added");
    print_attributes(&mut g, &names);

    let robin_lightcone_modifier = g.add_modifier(robin[1], fx(0.48), 0).unwrap();

    let robin_ultimate_modifiers = [
        g.add_dynamic_modifier(robin[2], DynamicModifier::new_scale(robin[3], 0, 0, fx(0.228)))
            .unwrap(),
        g.add_modifier(robin[2], 0, fx(200.0)).unwrap(),
        g.add_dynamic_modifier(danheng[2], DynamicModifier::new_scale(robin[3], 0, 0, fx(0.228)))
            .unwrap(),
        g.add_modifier(danheng[2], 0, fx(200.0)).unwrap(),
        g.add_dynamic_modifier(phainon[2], DynamicModifier::new_scale(robin[3], 0, 0, fx(0.228)))
            .unwrap(),
        g.add_modifier(phainon[2], 0, fx(200.0)).unwrap(),
    ];
    println!("robin ultimate modifiers added");
    print_attributes(&mut g, &names);

    let phainon_suit_modifier = g.add_modifier(phainon[1], fx(0.48), 0).unwrap();
    let phainon_ultimate_modifier = g.add_modifier(phainon[1], fx(0.8), 0).unwrap();

    println!("phainon ultimate modifiers added");
    print_attributes(&mut g, &names);

    g.remove_modifier(phainon_ultimate_modifier);
    println!("phainon ultimate modifier removed");
    print_attributes(&mut g, &names);

    g.update_modifier(phainon_talent_modifier, fx(0.5 * 2.0), 0);
    println!("phainon talent modifier updated");
    print_attributes(&mut g, &names);

    for entity in robin_ultimate_modifiers {
        g.remove_modifier(entity);
    }
    println!("robin ultimate modifiers removed");
    print_attributes(&mut g, &names);

    g.remove_modifier(robin_lightcone_modifier);
    println!("robin lightcone modifier removed");
    print_attributes(&mut g, &names);

    g.remove_modifier(phainon_suit_modifier);
    println!("phainon suit modifier removed");
    print_attributes(&mut g, &names);
}
