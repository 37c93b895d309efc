use std::collections::{HashMap, HashSet};

use eve_sde_mcp::dogma::ModifierRef;
use eve_sde_mcp::ingest::{
    index_activity, index_blueprints, BlueprintLine, record_effect_modifiers, record_stargate, record_type_dogma, trim_line, RawModifier, SdeIndex,
};
use eve_sde_mcp::names::{resolve_name, resolve_names, search_by_name};
use eve_sde_mcp::params::ResolveTypesParam;
use eve_sde_mcp::scan::extract_name_en;
use eve_sde_mcp::store::{Activity, BlueprintRef};

/// Each line of `content` with the byte offset it starts at.
fn lines_with_offsets(content: &str) -> Vec<(u64, &str)> {
    let mut out = Vec::new();
    let mut offset = 0u64;
    for raw in content.split_inclusive('\n') {
        out.push((offset, raw));
        offset += raw.len() as u64;
    }
    out
}

/// The generic pass: every keyed line indexed by offset and English name.
fn scan_index(content: &str) -> SdeIndex {
    let mut idx = SdeIndex::new();
    for (offset, raw) in lines_with_offsets(content) {
        let trimmed = trim_line(raw.as_bytes());
        if trimmed.is_empty() {
            continue;
        }
        idx.index_line(trimmed, offset);
    }
    idx
}

fn product_list(acts: &serde_json::Value, activity: &str) -> Option<Vec<u64>> {
    let products = acts.get(activity)?.get("products")?.as_array()?;
    Some(products.iter().filter_map(|p| p.get("typeID").and_then(|t| t.as_u64())).collect())
}

fn scan_blueprints(content: &str) -> (SdeIndex, HashMap<u64, BlueprintRef>) {
    let mut idx = SdeIndex::new();
    let mut map = HashMap::new();
    for (offset, raw) in lines_with_offsets(content) {
        let trimmed = raw.trim();
        if trimmed.is_empty() {
            continue;
        }
        let Ok(v) = serde_json::from_str::<serde_json::Value>(trimmed) else { continue };
        let Some(key) = v.get("_key").and_then(|k| k.as_u64()) else { continue };
        idx.record_offset(key, offset);
        if let Some(acts) = v.get("activities") {
            let m = product_list(acts, "manufacturing");
            index_activity(&mut map, m.as_ref(), key, Activity::Manufacturing);
            let r = product_list(acts, "reaction");
            index_activity(&mut map, r.as_ref(), key, Activity::Reaction);
        }
    }
    (idx, map)
}

#[test]
fn extract_name_en_finds_english_name() {
    let line = br#"{"_key":34,"name":{"en":"Tritanium","de":"Tritanium"}}"#;
    assert_eq!(extract_name_en(line).as_deref(), Some("Tritanium"));
}

#[test]
fn extract_name_en_returns_none_when_name_is_string_not_object() {
    let line = br#"{"_key":1,"name":"plain string"}"#;
    assert_eq!(extract_name_en(line), None);
}

#[test]
fn extract_name_en_handles_escape_sequences() {
    let line = br#"{"_key":1,"name":{"en":"Ship\\Type"}}"#;
    assert_eq!(extract_name_en(line).as_deref(), Some("Ship\\Type"));
}

#[test]
fn scan_index_builds_id_and_name_indexes() {
    let fixture = r#"{"_key":34,"name":{"en":"Tritanium"}}
{"_key":35,"name":{"en":"Pyerite"}}
"#;
    let idx = scan_index(fixture);
    assert_eq!(idx.id_index.len(), 2);
    assert!(idx.id_index.contains_key(&34));
    assert!(idx.id_index.contains_key(&35));
    assert!(resolve_name(&idx.names, &HashSet::new(), "tritanium").is_some());
    assert!(resolve_name(&idx.names, &HashSet::new(), "pyerite").is_some());
}

#[test]
fn scan_index_offset_points_to_line_start() {
    let fixture = "{\"_key\":34,\"name\":{\"en\":\"Tritanium\"}}\n{\"_key\":35,\"name\":{\"en\":\"Pyerite\"}}\n";
    let idx = scan_index(fixture);
    let off34 = idx.offset_of(34).unwrap();
    let off35 = idx.offset_of(35).unwrap();
    assert_eq!(off34, 0);
    assert!(off35 > off34);
    assert!(fixture.as_bytes()[off34 as usize..].starts_with(b"{\"_key\":34"));
    assert!(fixture.as_bytes()[off35 as usize..].starts_with(b"{\"_key\":35"));
}

#[test]
fn scan_blueprints_builds_product_to_blueprint_map() {
    let fixture = r#"{"_key":683,"activities":{"manufacturing":{"products":[{"typeID":582,"quantity":1}],"time":6000}}}
{"_key":684,"activities":{"copying":{"time":3600}}}
"#;
    let (idx, p2b) = scan_blueprints(fixture);
    assert!(idx.id_index.contains_key(&683));
    assert!(idx.id_index.contains_key(&684));
    let r = p2b.get(&582).unwrap();
    assert_eq!(r.blueprint_id, 683);
    assert_eq!(r.activity, Activity::Manufacturing);
    assert!(!p2b.contains_key(&684));
}

#[test]
fn scan_blueprints_tags_reaction_products() {
    let fixture = r#"{"_key":57493,"activities":{"reaction":{"products":[{"typeID":57457,"quantity":200}],"time":3600}}}
"#;
    let (_idx, p2b) = scan_blueprints(fixture);
    let r = p2b.get(&57457).unwrap();
    assert_eq!(r.blueprint_id, 57493);
    assert_eq!(r.activity, Activity::Reaction);
}

#[test]
fn scan_blueprints_keeps_lowest_blueprint_id_per_product() {
    let fixture = r#"{"_key":900,"activities":{"manufacturing":{"products":[{"typeID":582,"quantity":1}]}}}
{"_key":800,"activities":{"manufacturing":{"products":[{"typeID":582,"quantity":1}]}}}
"#;
    let (_idx, p2b) = scan_blueprints(fixture);
    assert_eq!(p2b.get(&582).unwrap().blueprint_id, 800);
}

fn raw_modifier(m: &serde_json::Value) -> RawModifier {
    RawModifier {
        modified: m.get("modifiedAttributeID").and_then(|x| x.as_u64()),
        modifying: m.get("modifyingAttributeID").and_then(|x| x.as_u64()),
        operation: m.get("operation").and_then(|x| x.as_i64()),
        func: m.get("func").and_then(|x| x.as_str()).map(|s| s.to_string()),
        domain: m.get("domain").and_then(|x| x.as_str()).map(|s| s.to_string()),
        skill_type_id: m.get("skillTypeID").and_then(|x| x.as_u64()),
    }
}

#[test]
fn scan_dogma_effects_builds_reverse_modifier_map() {
    let fixture = r#"{"_key":391,"name":{"en":"miningBonus"},"modifierInfo":[{"domain":"shipID","func":"LocationRequiredSkillModifier","modifiedAttributeID":77,"modifyingAttributeID":434,"operation":6,"skillTypeID":3386}]}
{"_key":11,"name":{"en":"loPower"},"modifierInfo":[{"func":"ItemModifier","modifyingAttributeID":50,"operation":2}]}
"#;
    let mut idx = SdeIndex::new();
    let mut mods: HashMap<u64, Vec<ModifierRef>> = HashMap::new();
    for (offset, raw) in lines_with_offsets(fixture) {
        let v: serde_json::Value = serde_json::from_str(raw.trim()).unwrap();
        let key = v["_key"].as_u64().unwrap();
        idx.record_offset(key, offset);
        let list: Vec<RawModifier> = v["modifierInfo"].as_array().unwrap().iter().map(raw_modifier).collect();
        record_effect_modifiers(&mut mods, key, list);
    }
    assert!(idx.id_index.contains_key(&391));
    assert!(idx.id_index.contains_key(&11), "effect with no usable modifier still indexed by id");
    let to_mining = mods.get(&77).expect("attribute 77 has modifiers");
    assert_eq!(to_mining.len(), 1);
    let m = &to_mining[0];
    assert_eq!(m.effect_id, 391);
    assert_eq!(m.modifying_attribute_id, 434);
    assert_eq!(m.skill_type_id, Some(3386));
    assert_eq!(m.operation, 6);
    assert!(mods.values().flatten().all(|m| m.effect_id != 11));
}

#[test]
fn scan_type_dogma_builds_effect_to_types_reverse_map() {
    let fixture = r#"{"_key":3386,"dogmaAttributes":[{"attributeID":434,"value":5.0}],"dogmaEffects":[{"effectID":391,"isDefault":false}]}
{"_key":3410,"dogmaAttributes":[{"attributeID":434,"value":5.0}],"dogmaEffects":[{"effectID":391,"isDefault":false}]}
{"_key":34,"dogmaAttributes":[],"dogmaEffects":[]}
"#;
    let mut idx = SdeIndex::new();
    let mut e2t: HashMap<u64, Vec<u64>> = HashMap::new();
    let mut attribute_types: HashMap<u64, Vec<(u64, u32)>> = HashMap::new();
    for (offset, raw) in lines_with_offsets(fixture) {
        let v: serde_json::Value = serde_json::from_str(raw.trim()).unwrap();
        let key = v["_key"].as_u64().unwrap();
        idx.record_offset(key, offset);
        let effects: Vec<u64> = v["dogmaEffects"].as_array().unwrap().iter()
            .map(|e| e["effectID"].as_u64().unwrap()).collect();
        let attrs: Vec<(u64, Option<u32>)> = v["dogmaAttributes"].as_array().unwrap().iter()
            .map(|a| (a["attributeID"].as_u64().unwrap(), a["value"].as_f64().map(|x| (x as f32).to_bits())))
            .collect();
        record_type_dogma(&mut e2t, &mut attribute_types, key, &effects, &attrs);
    }
    assert!(idx.id_index.contains_key(&3386));
    assert!(idx.id_index.contains_key(&3410));
    assert!(idx.id_index.contains_key(&34), "type with no effects still indexed by id");
    let owners = e2t.get(&391).expect("effect 391 has owning types");
    assert_eq!(owners.len(), 2);
    assert!(owners.contains(&3386), "Mining owns effect 391");
    assert!(owners.contains(&3410), "Astrogeology owns effect 391");
    // Both Types record attribute 434, ascending by Type, with the value kept.
    let rows = attribute_types.get(&434).unwrap();
    assert_eq!(rows.iter().map(|r| r.0).collect::<Vec<_>>(), vec![3386, 3410]);
    assert_eq!(f32::from_bits(rows[0].1), 5.0);
}

#[test]
fn scan_stargates_builds_bidirectional_graph() {
    let fixture = r#"{"_key":50000056,"solarSystemID":30000001,"destination":{"stargateID":50000055,"solarSystemID":30000002}}
{"_key":50000055,"solarSystemID":30000002,"destination":{"stargateID":50000056,"solarSystemID":30000001}}
"#;
    let mut graph: HashMap<u64, Vec<u64>> = HashMap::new();
    for (_offset, raw) in lines_with_offsets(fixture) {
        let v: serde_json::Value = serde_json::from_str(raw.trim()).unwrap();
        let src = v["solarSystemID"].as_u64().unwrap();
        let dst = v["destination"]["solarSystemID"].as_u64().unwrap();
        record_stargate(&mut graph, src, dst);
    }
    let neighbors_1 = graph.get(&30000001).unwrap();
    let neighbors_2 = graph.get(&30000002).unwrap();
    assert!(neighbors_1.contains(&30000002));
    assert_eq!(neighbors_1.len(), 1, "no duplicate edges");
    assert!(neighbors_2.contains(&30000001));
    assert_eq!(neighbors_2.len(), 1, "no duplicate edges");
}

fn ids(hits: &[eve_sde_mcp::names::NameHit]) -> Vec<u64> {
    hits.iter().map(|h| h.id).collect()
}

#[test]
fn search_by_name_finds_partial_match() {
    let idx = scan_index("{\"_key\":34,\"name\":{\"en\":\"Tritanium\"}}\n{\"_key\":35,\"name\":{\"en\":\"Pyerite\"}}\n");
    let results = search_by_name(&idx.names, "trit", 10, |_| true);
    assert_eq!(results.len(), 1);
    assert_eq!(results[0].id, 34);
}

#[test]
fn search_by_name_respects_limit() {
    let idx = scan_index("{\"_key\":1,\"name\":{\"en\":\"Alpha\"}}\n{\"_key\":2,\"name\":{\"en\":\"Alpha Two\"}}\n{\"_key\":3,\"name\":{\"en\":\"Alpha Three\"}}\n");
    let results = search_by_name(&idx.names, "alpha", 2, |_| true);
    assert_eq!(results.len(), 2);
}

#[test]
fn search_by_name_prefers_the_exact_name_over_a_lower_id_containing_one() {
    let idx = scan_index("{\"_key\":30000031,\"name\":{\"en\":\"Mohas\"}}\n{\"_key\":30000042,\"name\":{\"en\":\"Moh\"}}\n");
    let one = search_by_name(&idx.names, "Moh", 1, |_| true);
    assert_eq!(one[0].id, 30000042, "the system actually named Moh");
    let all = search_by_name(&idx.names, "moh", 10, |_| true);
    assert_eq!(ids(&all), vec![30000042, 30000031]);
}

#[test]
fn search_by_name_ranks_by_name_not_by_id_magnitude() {
    let idx = scan_index("{\"_key\":1,\"name\":{\"en\":\"Jan\"}}\n{\"_key\":2,\"name\":{\"en\":\"Janus\"}}\n");
    let one = search_by_name(&idx.names, "Jan", 1, |_| true);
    assert_eq!(one[0].id, 1);
}

#[test]
fn search_by_name_keeps_every_record_sharing_the_exact_name() {
    let idx = scan_index("{\"_key\":5,\"name\":{\"en\":\"Alpha Two\"}}\n{\"_key\":7,\"name\":{\"en\":\"Alpha\"}}\n{\"_key\":9,\"name\":{\"en\":\"Alpha\"}}\n");
    let all = search_by_name(&idx.names, "alpha", 10, |_| true);
    assert_eq!(ids(&all), vec![7, 9, 5]);
}

#[test]
fn search_by_name_filters_before_the_cut() {
    // The predicate sees the whole match set: with only odd IDs admitted, a
    // limit of two still returns two rows.
    let idx = scan_index("{\"_key\":1,\"name\":{\"en\":\"Alpha\"}}\n{\"_key\":2,\"name\":{\"en\":\"Alpha Two\"}}\n{\"_key\":3,\"name\":{\"en\":\"Alpha Three\"}}\n{\"_key\":5,\"name\":{\"en\":\"Alpha Five\"}}\n");
    let results = search_by_name(&idx.names, "ALPHA", 2, |id| id % 2 == 1);
    assert_eq!(ids(&results), vec![1, 3]);
}

#[test]
fn resolve_name_prefers_the_lowest_published_id() {
    let idx = scan_index("{\"_key\":3591,\"name\":{\"en\":\"Angel Control Tower\"}}\n{\"_key\":27539,\"name\":{\"en\":\"Angel Control Tower\"}}\n");
    let published: HashSet<u64> = HashSet::from([27539]);
    assert_eq!(resolve_name(&idx.names, &published, "angel control tower"), Some(27539));
    assert_eq!(resolve_name(&idx.names, &HashSet::new(), "Angel Control Tower"), Some(3591));
    assert_eq!(resolve_name(&idx.names, &published, "Angel"), None);
}

#[test]
fn blueprint_index_prefers_manufacturing_on_a_tie_and_the_lowest_id_overall() {
    let mut map: HashMap<u64, BlueprintRef> = HashMap::new();
    index_activity(&mut map, Some(&vec![700]), 50, Activity::Manufacturing);
    index_activity(&mut map, Some(&vec![700]), 50, Activity::Reaction);
    assert_eq!(map[&700], BlueprintRef { blueprint_id: 50, activity: Activity::Manufacturing });
    index_activity(&mut map, Some(&vec![700, 701]), 40, Activity::Reaction);
    assert_eq!(map[&700], BlueprintRef { blueprint_id: 40, activity: Activity::Reaction });
    assert!(!map.contains_key(&701));
    index_activity(&mut map, Some(&vec![]), 10, Activity::Manufacturing);
    index_activity(&mut map, None, 10, Activity::Manufacturing);
    assert_eq!(map.len(), 1);
}

#[test]
fn index_blueprints_keeps_the_lowest_blueprint_per_product_over_the_file() {
    let line = |key: u64, m: Option<Vec<u64>>, r: Option<Vec<u64>>| BlueprintLine { key, manufacturing: m, reaction: r };
    let lines = vec![
        line(683, Some(vec![582]), None),
        line(57493, None, Some(vec![57457])),
        line(900, None, None),
        line(700, Some(vec![582]), None),
        line(50, Some(vec![11]), Some(vec![11])),
        line(40, None, Some(vec![57457])),
    ];
    let map = index_blueprints(&lines);
    assert_eq!(map[&582], BlueprintRef { blueprint_id: 683, activity: Activity::Manufacturing });
    assert_eq!(map[&57457], BlueprintRef { blueprint_id: 40, activity: Activity::Reaction });
    assert_eq!(map[&11], BlueprintRef { blueprint_id: 50, activity: Activity::Manufacturing });
    assert_eq!(map.len(), 3);
}

#[test]
fn resolve_names_refuses_an_empty_request_and_resolves_each_name() {
    let idx = scan_index("{\"_key\":3591,\"name\":{\"en\":\"Angel Control Tower\"}}\n{\"_key\":27539,\"name\":{\"en\":\"Angel Control Tower\"}}\n{\"_key\":10248,\"name\":{\"en\":\"Ghost\"}}\n{\"_key\":10252,\"name\":{\"en\":\"Ghost\"}}\n");
    let published: HashSet<u64> = HashSet::from([27539]);
    let none = ResolveTypesParam { type_ids: None, names: None };
    assert_eq!(resolve_names(&idx.names, &published, &none), Err("Provide type_ids and/or names".to_string()));
    let ids_only = ResolveTypesParam { type_ids: Some(vec![34]), names: None };
    assert_eq!(resolve_names(&idx.names, &published, &ids_only), Ok(vec![]));
    let p = ResolveTypesParam {
        type_ids: None,
        names: Some(vec!["Angel Control Tower".to_string(), "ghost".to_string(), "Nothing".to_string()]),
    };
    assert_eq!(resolve_names(&idx.names, &published, &p), Ok(vec![Some(27539), Some(10248), None]));
}
