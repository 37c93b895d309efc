use std::collections::{HashMap, HashSet};

use eve_sde_mcp::chain::production_chain;
use eve_sde_mcp::manufacturing::{
    classify_origin, me_mode, ActivityRecipe, BlueprintActivities, ChainParams, IndustryData, MeMode, Origin,
};
use eve_sde_mcp::router::build_type;
use eve_sde_mcp::store::{Activity, BlueprintRef};

/// `(type, name, group, metaGroup)` rows, `(group, category)` rows, and
/// `(blueprint, activity, products, materials, skills)` rows.
type TypeRow<'a> = (u64, &'a str, u64, Option<u64>);
type BlueprintRow<'a> = (u64, Activity, &'a [(u64, u64)], &'a [(u64, u64)], &'a [(u64, u64)]);

fn pairs(s: &[(u64, u64)]) -> Vec<(Option<u64>, Option<u64>)> {
    s.iter().map(|&(a, b)| (Some(a), Some(b))).collect()
}

fn industry(types: &[TypeRow], groups: &[(u64, u64)], blueprints: &[BlueprintRow]) -> IndustryData {
    let mut d = IndustryData {
        product_to_blueprint: HashMap::new(),
        blueprints: HashMap::new(),
        type_group: HashMap::new(),
        group_category: HashMap::new(),
        type_meta_group: HashMap::new(),
        type_names: HashMap::new(),
    };
    for &(t, name, g, meta) in types {
        d.type_group.insert(t, g);
        d.type_names.insert(t, name.to_string());
        if let Some(m) = meta {
            d.type_meta_group.insert(t, m);
        }
    }
    for &(g, c) in groups {
        d.group_category.insert(g, c);
    }
    for &(bp, activity, products, materials, skills) in blueprints {
        let recipe = ActivityRecipe { products: pairs(products), materials: pairs(materials), skills: pairs(skills) };
        let acts = match activity {
            Activity::Manufacturing => BlueprintActivities { manufacturing: Some(recipe), reaction: None },
            Activity::Reaction => BlueprintActivities { manufacturing: None, reaction: Some(recipe) },
        };
        d.blueprints.insert(bp, acts);
        for &(p, _) in products {
            d.product_to_blueprint.insert(p, BlueprintRef { blueprint_id: bp, activity });
        }
    }
    d
}

#[test]
fn manufacturing_classify_origin_covers_every_variant() {
    let d = industry(
        &[
            (100, "Widget", 7, Some(1)),
            (200, "Polymer", 429, None),
            (34, "Tritanium", 18, None),
            (16633, "Hydrogen Isotopes", 427, None),
            (2393, "Bacteria", 1032, None),
            (99, "Mystery", 555, None),
        ],
        &[(7, 6), (429, 24), (18, 4), (427, 4), (1032, 43), (555, 9)],
        &[
            (1100, Activity::Manufacturing, &[(100, 1)], &[], &[]),
            (1200, Activity::Reaction, &[(200, 1)], &[], &[]),
        ],
    );
    assert_eq!(classify_origin(&d, 100), Origin::Manufactured);
    assert_eq!(classify_origin(&d, 200), Origin::ReactionOutput);
    assert_eq!(classify_origin(&d, 34), Origin::Mineral);
    assert_eq!(classify_origin(&d, 16633), Origin::MoonMaterial);
    assert_eq!(classify_origin(&d, 2393), Origin::PiOutput);
    assert_eq!(classify_origin(&d, 99), Origin::RawOther);
}

#[test]
fn tests_classify_origin_covers_every_variant() {
    let d = industry(
        &[
            (100, "Widget", 7, Some(1)),
            (200, "Polymer", 429, None),
            (34, "Tritanium", 18, None),
            (16633, "Hydrogen Isotopes", 427, None),
            (2393, "Bacteria", 1032, None),
            (99, "Mystery", 555, None),
        ],
        &[(7, 6), (429, 24), (18, 4), (427, 4), (1032, 43), (555, 9)],
        &[
            (1100, Activity::Manufacturing, &[(100, 1)], &[], &[]),
            (1200, Activity::Reaction, &[(200, 1)], &[], &[]),
        ],
    );
    assert_eq!(classify_origin(&d, 100), Origin::Manufactured);
    assert_eq!(classify_origin(&d, 200), Origin::ReactionOutput);
    assert_eq!(classify_origin(&d, 34), Origin::Mineral);
    assert_eq!(classify_origin(&d, 16633), Origin::MoonMaterial);
    assert_eq!(classify_origin(&d, 2393), Origin::PiOutput);
    assert_eq!(classify_origin(&d, 99), Origin::RawOther);
}

#[test]
fn manufacturing_me_mode_maps_meta_groups() {
    let d = industry(
        &[(1, "T1", 7, Some(1)), (2, "Faction", 7, Some(4)), (3, "T2", 7, Some(2))],
        &[(7, 6)],
        &[
            (11, Activity::Manufacturing, &[(1, 1)], &[], &[]),
            (12, Activity::Manufacturing, &[(2, 1)], &[], &[]),
            (13, Activity::Manufacturing, &[(3, 1)], &[], &[]),
        ],
    );
    assert_eq!(me_mode(&d, 1), Some(MeMode::Researchable));
    assert_eq!(me_mode(&d, 2), Some(MeMode::FixedZero));
    assert_eq!(me_mode(&d, 3), Some(MeMode::Invented));
    assert_eq!(me_mode(&d, 34), None);
}

#[test]
fn tests_me_mode_maps_meta_groups() {
    let d = industry(
        &[(1, "T1", 7, Some(1)), (2, "Faction", 7, Some(4)), (3, "T2", 7, Some(2))],
        &[(7, 6)],
        &[
            (11, Activity::Manufacturing, &[(1, 1)], &[], &[]),
            (12, Activity::Manufacturing, &[(2, 1)], &[], &[]),
            (13, Activity::Manufacturing, &[(3, 1)], &[], &[]),
        ],
    );
    assert_eq!(me_mode(&d, 1), Some(MeMode::Researchable));
    assert_eq!(me_mode(&d, 2), Some(MeMode::FixedZero));
    assert_eq!(me_mode(&d, 3), Some(MeMode::Invented));
    assert_eq!(me_mode(&d, 34), None);
}

#[test]
fn manufacturing_invented_target_is_not_buildable() {
    let d = industry(
        &[(3, "T2 Module", 7, Some(2))],
        &[(7, 7)],
        &[(13, Activity::Manufacturing, &[(3, 1)], &[], &[])],
    );
    let result = build_type(&d, 3).ok().unwrap();
    assert!(!result.buildable);
    assert!(result.reason.unwrap().contains("invention"));
}

#[test]
fn tests_invented_target_is_not_buildable() {
    let d = industry(
        &[(3, "T2 Module", 7, Some(2))],
        &[(7, 7)],
        &[(13, Activity::Manufacturing, &[(3, 1)], &[], &[])],
    );
    let result = build_type(&d, 3).ok().unwrap();
    assert!(!result.buildable);
    assert!(result.reason.unwrap().contains("invention"));
}

/// A manufactured widget (10/run) consumes 5 minerals and 3 of a reaction
/// output per run; the reaction (200/run) consumes 100 of a moon material.
fn small_chain() -> IndustryData {
    industry(
        &[
            (100, "Widget", 7, Some(1)),
            (200, "Polymer", 429, None),
            (34, "Tritanium", 18, None),
            (16633, "Moon Goo", 427, None),
            (3380, "Industry", 150, None),
            (45746, "Reactions", 150, None),
        ],
        &[(7, 6), (429, 24), (18, 4), (427, 4), (150, 16)],
        &[
            (1100, Activity::Manufacturing, &[(100, 10)], &[(34, 5), (200, 3)], &[(3380, 2)]),
            (1200, Activity::Reaction, &[(200, 200)], &[(16633, 100)], &[(45746, 3)]),
        ],
    )
}

#[test]
fn manufacturing_build_type_collects_origins_gates_and_skills() {
    let d = small_chain();
    let bt = build_type(&d, 100).ok().unwrap();
    assert!(bt.buildable);
    assert_eq!(bt.me_mode, Some(MeMode::Researchable));
    assert_eq!(bt.decomposable_origins, vec![Origin::Manufactured, Origin::ReactionOutput]);
    let reaction_gate = bt.gates.iter().find(|g| g.build_origin == "reaction-output").unwrap();
    assert_eq!(reaction_gate.inputs[0].type_id, 200);
    let ids: Vec<u64> = bt.required_skills.iter().map(|s| s.skill_id).collect();
    assert!(ids.contains(&3380) && ids.contains(&45746));
}

#[test]
fn tests_build_type_collects_origins_gates_and_skills() {
    let d = small_chain();
    let bt = build_type(&d, 100).ok().unwrap();
    assert!(bt.buildable);
    assert_eq!(bt.me_mode, Some(MeMode::Researchable));
    assert_eq!(bt.decomposable_origins, vec![Origin::Manufactured, Origin::ReactionOutput]);
    let reaction_gate = bt.gates.iter().find(|g| g.build_origin == "reaction-output").unwrap();
    assert_eq!(reaction_gate.inputs[0].type_id, 200);
    let ids: Vec<u64> = bt.required_skills.iter().map(|s| s.skill_id).collect();
    assert!(ids.contains(&3380) && ids.contains(&45746));
}

fn params(build_origins: Vec<Origin>, buy: &[u64]) -> ChainParams {
    ChainParams {
        target_id: 100,
        runs: 1,
        build_origins,
        buy_type_ids: buy.iter().copied().collect::<HashSet<u64>>(),
        me_default: 0,
        me_overrides: HashMap::new(),
    }
}

#[test]
fn manufacturing_production_chain_rounds_runs_and_applies_me() {
    let d = small_chain();
    let chain = production_chain(&d, &params(vec![Origin::Manufactured, Origin::ReactionOutput], &[])).ok().unwrap();

    let widget = chain.jobs.iter().find(|j| j.type_id == 100).unwrap();
    assert_eq!(widget.runs, 1);
    let polymer = chain.jobs.iter().find(|j| j.type_id == 200).unwrap();
    assert_eq!(polymer.runs, 1);
    assert_eq!(polymer.leftover, 197);
    assert_eq!(polymer.activity, "reaction");

    let minerals = chain.shopping_list.iter().find(|g| g.origin == Origin::Mineral).unwrap();
    assert_eq!(minerals.items[0].type_id, 34);
    assert_eq!(minerals.items[0].quantity, 5);
    let moon = chain.shopping_list.iter().find(|g| g.origin == Origin::MoonMaterial).unwrap();
    assert_eq!(moon.items[0].quantity, 100);
}

#[test]
fn tests_production_chain_rounds_runs_and_applies_me() {
    let d = small_chain();
    let chain = production_chain(&d, &params(vec![Origin::Manufactured, Origin::ReactionOutput], &[])).ok().unwrap();

    let widget = chain.jobs.iter().find(|j| j.type_id == 100).unwrap();
    assert_eq!(widget.runs, 1);
    let polymer = chain.jobs.iter().find(|j| j.type_id == 200).unwrap();
    assert_eq!(polymer.runs, 1);
    assert_eq!(polymer.leftover, 197);
    assert_eq!(polymer.activity, "reaction");

    let minerals = chain.shopping_list.iter().find(|g| g.origin == Origin::Mineral).unwrap();
    assert_eq!(minerals.items[0].type_id, 34);
    assert_eq!(minerals.items[0].quantity, 5);
    let moon = chain.shopping_list.iter().find(|g| g.origin == Origin::MoonMaterial).unwrap();
    assert_eq!(moon.items[0].quantity, 100);
}

#[test]
fn manufacturing_production_chain_buys_when_origin_not_built() {
    let d = small_chain();
    let chain = production_chain(&d, &params(vec![Origin::Manufactured], &[])).ok().unwrap();
    assert!(chain.jobs.iter().all(|j| j.type_id != 200));
    let reaction_buy = chain.shopping_list.iter().find(|g| g.origin == Origin::ReactionOutput).unwrap();
    assert_eq!(reaction_buy.items[0].type_id, 200);
    assert_eq!(reaction_buy.items[0].quantity, 3);
}

#[test]
fn tests_production_chain_buys_when_origin_not_built() {
    let d = small_chain();
    let chain = production_chain(&d, &params(vec![Origin::Manufactured], &[])).ok().unwrap();
    assert!(chain.jobs.iter().all(|j| j.type_id != 200));
    let reaction_buy = chain.shopping_list.iter().find(|g| g.origin == Origin::ReactionOutput).unwrap();
    assert_eq!(reaction_buy.items[0].type_id, 200);
    assert_eq!(reaction_buy.items[0].quantity, 3);
}

#[test]
fn manufacturing_production_chain_force_buys_override() {
    let d = small_chain();
    let chain = production_chain(&d, &params(vec![Origin::Manufactured, Origin::ReactionOutput], &[200])).ok().unwrap();
    assert!(chain.jobs.iter().all(|j| j.type_id != 200));
    assert!(chain.shopping_list.iter().any(|g| g.items.iter().any(|i| i.type_id == 200)));
}

#[test]
fn tests_production_chain_force_buys_override() {
    let d = small_chain();
    let chain = production_chain(&d, &params(vec![Origin::Manufactured, Origin::ReactionOutput], &[200])).ok().unwrap();
    assert!(chain.jobs.iter().all(|j| j.type_id != 200));
    assert!(chain.shopping_list.iter().any(|g| g.items.iter().any(|i| i.type_id == 200)));
}

#[test]
fn production_chain_conserves_demand_over_many_runs() {
    // 25 widgets' worth of runs: 25 runs consume 125 Tritanium and 75 Polymer;
    // one reaction run (200) covers the Polymer with 125 left over.
    let d = small_chain();
    let mut p = params(vec![Origin::Manufactured, Origin::ReactionOutput], &[]);
    p.runs = 25;
    let chain = production_chain(&d, &p).ok().unwrap();
    let polymer = chain.jobs.iter().find(|j| j.type_id == 200).unwrap();
    assert_eq!(polymer.demand, 75);
    assert_eq!(polymer.runs, 1);
    assert_eq!(polymer.leftover, 125);
    assert!(polymer.leftover < polymer.output_per_run);
    let minerals = chain.shopping_list.iter().find(|g| g.origin == Origin::Mineral).unwrap();
    assert_eq!(minerals.items[0].quantity, 125);
}

#[test]
fn production_chain_refuses_a_target_without_a_blueprint() {
    let d = small_chain();
    let mut p = params(vec![Origin::Manufactured], &[]);
    p.target_id = 34;
    assert!(production_chain(&d, &p).is_err());
}

#[test]
fn production_chain_reports_a_type_that_requires_itself() {
    // The widget needs a gadget, and the gadget needs the widget back.
    let d = industry(
        &[(100, "Widget", 7, Some(1)), (300, "Gadget", 7, Some(1))],
        &[(7, 6)],
        &[
            (1100, Activity::Manufacturing, &[(100, 1)], &[(300, 2)], &[]),
            (1300, Activity::Manufacturing, &[(300, 1)], &[(100, 1)], &[]),
        ],
    );
    let p = params(vec![Origin::Manufactured], &[]);
    match production_chain(&d, &p) {
        Err(e) => assert_eq!(e.message(), "production cycle detected at type 100"),
        Ok(_) => panic!("a cycle resolved"),
    }
}

#[test]
fn production_chain_orders_a_shared_intermediate_after_every_consumer() {
    // The widget needs a gadget and a part; the gadget needs the part too.
    let d = industry(
        &[(100, "Widget", 7, Some(1)), (300, "Gadget", 7, Some(1)), (400, "Part", 7, Some(1)), (34, "Tritanium", 18, None)],
        &[(7, 6), (18, 4)],
        &[
            (1100, Activity::Manufacturing, &[(100, 1)], &[(300, 2), (400, 1)], &[]),
            (1300, Activity::Manufacturing, &[(300, 1)], &[(400, 3)], &[]),
            (1400, Activity::Manufacturing, &[(400, 1)], &[(34, 10)], &[]),
        ],
    );
    let chain = production_chain(&d, &params(vec![Origin::Manufactured], &[])).ok().unwrap();
    let ids: Vec<u64> = chain.jobs.iter().map(|j| j.type_id).collect();
    assert_eq!(ids, vec![100, 300, 400]);
    let part = chain.jobs.iter().find(|j| j.type_id == 400).unwrap();
    assert_eq!(part.demand, 7);
    assert_eq!(part.runs, 7);
    let minerals = chain.shopping_list.iter().find(|g| g.origin == Origin::Mineral).unwrap();
    assert_eq!(minerals.items[0].quantity, 70);
}
