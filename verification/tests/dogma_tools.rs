use std::collections::{HashMap, HashSet};

use eve_sde_mcp::dogma::{
    attribute_modifiers, check_attribute_predicate, stored_bits, PredicateError,
    levers_for_type, modifier_direction, modifiers_for_attribute, modifiers_for_type, required_skills,
    resolve_attribute_projection, AttributeOp, DirectionError, EffectEntry, ModifierDirection, ModifierRef,
    RequiredSkill,
};
use eve_sde_mcp::manufacturing::IndustryData;
use eve_sde_mcp::search::{insert_text, search_dogma, DogmaText, TextField};

fn modifier(effect_id: u64, modified: u64) -> ModifierRef {
    ModifierRef {
        effect_id,
        modifying_attribute_id: 6049,
        modified_attribute_id: modified,
        operation: 6,
        func: None,
        domain: None,
        skill_type_id: Some(3386),
    }
}

#[test]
fn levers_for_type_enumerates_all_attrs_with_skill_sources_first() {
    let mut d = IndustryData {
        product_to_blueprint: HashMap::new(),
        blueprints: HashMap::new(),
        type_group: HashMap::from([(3386, 600), (90727, 600)]),
        group_category: HashMap::from([(600, 16)]),
        type_meta_group: HashMap::new(),
        type_names: HashMap::new(),
    };
    d.type_names.insert(3386, "Mining".to_string());
    d.type_names.insert(90727, "Mining Precision".to_string());
    let attribute_modifiers = HashMap::from([(77u64, vec![modifier(501, 77)]), (5967u64, vec![modifier(500, 5967)])]);
    let effect_to_types = HashMap::from([(500u64, vec![90727u64]), (501u64, vec![3386u64])]);
    let required: HashSet<u64> = HashSet::from([3386]);
    let attrs = vec![182u64, 77, 5967];
    let levers = levers_for_type(&d, &attribute_modifiers, &effect_to_types, &required, &attrs);
    assert_eq!(levers.len(), 3, "every module attribute must appear");

    let crit = levers.iter().find(|l| attrs[l.attribute] == 5967).expect("crit attr present");
    assert_eq!(crit.modifier_count, 1);
    assert_eq!(crit.sources[0], (90727, true));
    let yield_attr = levers.iter().find(|l| attrs[l.attribute] == 77).unwrap();
    assert_eq!(yield_attr.sources[0], (3386, true));
}

#[test]
fn levers_drop_modifiers_gated_on_skills_the_module_does_not_need() {
    let d = IndustryData {
        product_to_blueprint: HashMap::new(),
        blueprints: HashMap::new(),
        type_group: HashMap::new(),
        group_category: HashMap::new(),
        type_meta_group: HashMap::new(),
        type_names: HashMap::new(),
    };
    let attribute_modifiers = HashMap::from([(77u64, vec![modifier(501, 77)])]);
    let effect_to_types = HashMap::from([(501u64, vec![3386u64])]);
    let levers = levers_for_type(&d, &attribute_modifiers, &effect_to_types, &HashSet::from([3300]), &vec![77]);
    assert_eq!(levers[0].modifier_count, 0);
    assert!(levers[0].sources.is_empty());
}

#[test]
fn modifiers_for_attribute_lists_each_owner_once() {
    let mods = vec![modifier(391, 77), modifier(392, 77)];
    let e2t = HashMap::from([(391u64, vec![3386u64, 3410u64])]);
    let rows = modifiers_for_attribute(&mods, &e2t);
    let shape: Vec<(usize, Option<u64>)> = rows.iter().map(|r| (r.modifier, r.source)).collect();
    assert_eq!(shape, vec![(0, Some(3386)), (0, Some(3410)), (1, None)]);
}

#[test]
fn modifiers_for_type_pairs_each_entry_with_its_magnitude_row() {
    let entry = |a: Option<u64>, b: Option<u64>, op: Option<i64>| EffectEntry { modified: a, modifying: b, operation: op };
    let effects = vec![
        (Some(391u64), Some(vec![entry(Some(77), Some(434), Some(6)), entry(None, Some(50), Some(2))])),
        (None, Some(vec![entry(Some(1), Some(2), None)])),
        (Some(11u64), None),
    ];
    // The Type records attribute 434 twice; the later row gives the magnitude.
    let magnitudes = vec![434u64, 9, 434];
    let rows = modifiers_for_type(&effects, &magnitudes);
    assert_eq!(rows.len(), 1);
    assert_eq!(rows[0].effect_id, 391);
    assert_eq!(rows[0].modified_attribute_id, 77);
    assert_eq!(rows[0].modifying_attribute_id, 434);
    assert_eq!(rows[0].operation, Some(6));
    assert_eq!(rows[0].magnitude, Some(2));
}

#[test]
fn sde_get_modifiers_requires_exactly_one_arg() {
    assert_eq!(modifier_direction(Some(1), None, None, None), Ok(ModifierDirection::ByType(1)));
    assert_eq!(modifier_direction(None, Some(77), None, Some(false)), Ok(ModifierDirection::ByAttribute(77)));
    assert_eq!(modifier_direction(None, None, Some(391), None), Ok(ModifierDirection::ByEffect(391)));
    assert_eq!(modifier_direction(Some(1), Some(77), None, None), Err(DirectionError::NotExactlyOne));
    assert_eq!(modifier_direction(None, None, None, None), Err(DirectionError::NotExactlyOne));
    assert_eq!(modifier_direction(Some(1), None, None, Some(true)), Ok(ModifierDirection::Levers(1)));
    assert_eq!(modifier_direction(None, Some(77), None, Some(true)), Err(DirectionError::LeversNeedType));
    assert_eq!(DirectionError::NotExactlyOne.message(), "Provide exactly one of type_id, attribute_id, or effect_id");
}

#[test]
fn required_skills_pair_each_slot_with_its_level() {
    let rows = vec![(Some(182u64), Some(3386u64)), (Some(277), Some(5)), (Some(183), Some(3410)), (Some(77), Some(200)), (None, Some(1))];
    let req = required_skills(&rows);
    assert_eq!(req.len(), 5);
    assert_eq!(req[0], Some(RequiredSkill { skill_id: 3386, level: 5 }));
    assert_eq!(req[1], None);
    assert_eq!(req[2], Some(RequiredSkill { skill_id: 3410, level: 0 }));
    assert_eq!(req[3], None);
    assert_eq!(req[4], None);
}

#[test]
fn attribute_projection_rejects_an_undeclared_attribute() {
    let declared: HashSet<u64> = HashSet::from([64, 1971]);
    assert_eq!(resolve_attribute_projection(&declared, None), Ok(None));
    assert_eq!(resolve_attribute_projection(&declared, Some(&vec![])), Ok(None));
    assert_eq!(resolve_attribute_projection(&declared, Some(&vec![1971, 64])), Ok(Some(vec![1971, 64])));
    assert_eq!(resolve_attribute_projection(&declared, Some(&vec![64, 99999, 5])), Err(99999));
}

#[test]
fn attribute_op_parses_the_predicate_vocabulary() {
    assert_eq!(AttributeOp::parse(None), Ok(AttributeOp::Exists));
    assert_eq!(AttributeOp::parse(Some("not_default")), Ok(AttributeOp::NotDefault));
    assert_eq!(AttributeOp::parse(Some("gte")).map(|o| o.as_str()), Ok("gte"));
    assert!(AttributeOp::parse(Some("between")).is_err());
    assert!(AttributeOp::Lt.needs_value());
    assert!(!AttributeOp::Exists.needs_value());
}

fn text(id: u64, name: Option<&str>, display: Option<&str>, description: Option<&str>) -> DogmaText {
    DogmaText {
        id,
        name: name.map(|s| s.to_string()),
        display_name: display.map(|s| s.to_string()),
        description: description.map(|s| s.to_string()),
    }
}

fn attribute_corpus() -> Vec<DogmaText> {
    let mut corpus = Vec::new();
    insert_text(&mut corpus, text(1971, Some("jumpFatigueMultiplier"), Some("Jump Fatigue Multiplier"), Some("Multiplier for jump fatigue distance")));
    insert_text(&mut corpus, text(9, Some("hp"), Some("Structure Hitpoints"), Some("The maximum hitpoints of an object.")));
    insert_text(&mut corpus, text(275, Some("skillTimeConstant"), Some("Training time multiplier"), Some("Multiplier on training time")));
    insert_text(&mut corpus, text(64, Some("damageMultiplier"), Some("Damage Modifier"), None));
    insert_text(&mut corpus, text(277, Some("requiredSkill1Level"), None, Some("Required skill level for skill 1")));
    corpus
}

#[test]
fn search_dogma_finds_an_attribute_by_a_phrase_only_its_display_name_carries() {
    let attrs = attribute_corpus();
    let r = search_dogma(&attrs, &vec![], &HashMap::new(), "structure hitpoints", None).ok().unwrap();
    assert_eq!(r.attributes.len(), 1);
    assert_eq!(attrs[r.attributes[0].record].id, 9);
    assert_eq!(r.attributes[0].fields, vec![TextField::DisplayName]);
}

#[test]
fn search_dogma_puts_name_matches_ahead_of_text_only_matches() {
    let attrs = attribute_corpus();
    let r = search_dogma(&attrs, &vec![], &HashMap::new(), "  MULTIPLIER ", None).ok().unwrap();
    let ids: Vec<u64> = r.attributes.iter().map(|h| attrs[h.record].id).collect();
    assert_eq!(ids, vec![64, 1971, 275]);
    assert_eq!(r.attributes_matched, 3);
    assert!(!r.truncated);
    let fields: Vec<&str> = r.attributes[1].fields.iter().map(|f| f.as_str()).collect();
    assert_eq!(fields, vec!["name", "display_name", "description"]);
}

#[test]
fn search_dogma_caps_each_list_and_counts_types() {
    let attrs = attribute_corpus();
    let effects = vec![text(11, Some("loPower"), None, None), text(12, Some("hiPower"), None, None)];
    let types = HashMap::from([(64u64, vec![(2456u64, 0u32), (1202, 0)])]);
    let r = search_dogma(&attrs, &effects, &types, "o", Some(1)).ok().unwrap();
    assert_eq!(r.attributes.len(), 1);
    assert_eq!(r.effects.len(), 1);
    assert!(r.truncated);
    assert_eq!(r.effects_matched, 2);
    assert_eq!(r.explicit_type_counts.len(), 1);
    let r = search_dogma(&attrs, &effects, &types, "damage", None).ok().unwrap();
    assert_eq!(r.explicit_type_counts, vec![2]);
}

#[test]
fn search_dogma_refuses_a_blank_query() {
    let attrs = attribute_corpus();
    match search_dogma(&attrs, &vec![], &HashMap::new(), "   ", None) {
        Err(e) => assert!(e.contains("non-empty query")),
        Ok(_) => panic!("a blank query must be refused"),
    }
}

#[test]
fn attribute_op_refusal_lists_the_eight_operators() {
    assert_eq!(
        AttributeOp::parse(Some("neq")).unwrap_err(),
        "unknown attribute op 'neq' (expected exists, eq, ne, gt, gte, lt, lte or not_default)"
    );
}

#[test]
fn attribute_predicate_checks_op_value_and_declaration_in_turn() {
    let msg = |r: Result<AttributeOp, PredicateError>| r.err().map(|e| e.message());
    assert_eq!(check_attribute_predicate(None, false, 1971, true, false).ok(), Some(AttributeOp::Exists));
    assert_eq!(check_attribute_predicate(Some("gt"), true, 1971, false, true).ok(), Some(AttributeOp::Gt));
    assert_eq!(
        msg(check_attribute_predicate(Some("between"), true, 1971, true, true)).unwrap(),
        "unknown attribute op 'between' (expected exists, eq, ne, gt, gte, lt, lte or not_default)"
    );
    assert_eq!(msg(check_attribute_predicate(Some("gt"), false, 1971, true, true)).unwrap(), "attribute op 'gt' requires a value");
    assert_eq!(
        msg(check_attribute_predicate(Some("exists"), false, 424242, false, false)).unwrap(),
        "attribute 424242 not found in dogmaAttributes"
    );
    assert_eq!(
        msg(check_attribute_predicate(None, false, 5_000_000_000, true, true)).unwrap(),
        "attribute 5000000000 not found in dogmaAttributes"
    );
}

#[test]
fn attribute_modifiers_refuses_an_undeclared_attribute() {
    let e2t: HashMap<u64, Vec<u64>> = HashMap::new();
    assert_eq!(attribute_modifiers(false, &vec![], &e2t, 999, 0).err(), Some(999));
}

#[test]
fn attribute_modifiers_points_at_the_selector_when_nothing_modifies() {
    let e2t: HashMap<u64, Vec<u64>> = HashMap::new();
    let a = attribute_modifiers(true, &vec![], &e2t, 77, 3).ok().unwrap();
    assert!(a.rows.is_empty());
    assert_eq!(a.explicit_type_count, Some(3));
    let g = a.guidance.unwrap();
    assert!(g.contains("sde_find_types") && g.contains(" 3 Types"));
}

#[test]
fn attribute_modifiers_stays_quiet_when_it_has_an_answer() {
    let mods = vec![modifier(391, 77)];
    let e2t = HashMap::from([(391u64, vec![3386u64])]);
    let a = attribute_modifiers(true, &mods, &e2t, 77, 3).ok().unwrap();
    assert_eq!(a.rows.len(), 1);
    assert_eq!(a.explicit_type_count, None);
    assert!(a.guidance.is_none());
}

#[test]
fn levers_count_every_distinct_source_and_flag_only_past_twelve() {
    let d = IndustryData {
        product_to_blueprint: HashMap::new(),
        blueprints: HashMap::new(),
        type_group: HashMap::new(),
        group_category: HashMap::new(),
        type_meta_group: HashMap::new(),
        type_names: HashMap::new(),
    };
    let mut m = modifier(501, 77);
    m.skill_type_id = None;
    let attribute_modifiers = HashMap::from([(77u64, vec![m])]);
    let twelve: Vec<u64> = (1..=12).collect();
    let e2t = HashMap::from([(501u64, twelve)]);
    let levers = levers_for_type(&d, &attribute_modifiers, &e2t, &HashSet::new(), &vec![77]);
    assert_eq!(levers[0].source_count, 12);
    assert!(!levers[0].truncated);
    let thirteen: Vec<u64> = (1..=13).chain([5, 7]).collect();
    let e2t = HashMap::from([(501u64, thirteen)]);
    let levers = levers_for_type(&d, &attribute_modifiers, &e2t, &HashSet::new(), &vec![77]);
    assert_eq!(levers[0].source_count, 13);
    assert_eq!(levers[0].sources.len(), 12);
    assert!(levers[0].truncated);
}

#[test]
fn stored_bits_reads_the_row_of_a_type() {
    let rows = vec![(10u64, 1u32), (20, 2), (30, 3)];
    assert_eq!(stored_bits(&rows, 20), Some(2));
    assert_eq!(stored_bits(&rows, 25), None);
}
