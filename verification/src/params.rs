//! The arguments of the server's tools, as plain values. Each struct is what one
//! tool call carries; optional fields are absent when the caller left them out.

use vstd::prelude::*;
use std::collections::HashMap;

verus! {

/// A blueprint, by its Type ID.
pub struct BlueprintTypeIdParam {
    pub blueprint_type_id: u64,
}

/// A product, by its Type ID.
pub struct ProductTypeIdParam {
    pub product_type_id: u64,
}

/// A DogmaAttribute, by ID.
pub struct AttributeIdParam {
    pub attribute_id: u64,
}

/// A DogmaEffect, by ID.
pub struct EffectIdParam {
    pub effect_id: u64,
}

/// What to look up modifiers for: a Type, a target attribute or an effect, with
/// the levers view for a Type and name resolution.
pub struct ModifierQueryParam {
    pub type_id: Option<u64>,
    pub attribute_id: Option<u64>,
    pub effect_id: Option<u64>,
    pub levers: Option<bool>,
    pub resolve_names: Option<bool>,
}

/// A substring to look for across the dogma corpus, with a per-list limit.
pub struct SearchDogmaParam {
    pub query: String,
    pub limit: Option<u64>,
}

/// The Type to route a build decision tree for.
pub struct BuildTypeParam {
    pub product_type_id: u64,
}

/// The player's decisions for a production chain.
pub struct ProductionChainParam {
    pub product_type_id: u64,
    pub runs: Option<u64>,
    pub build_origins: Option<Vec<String>>,
    pub buy_type_ids: Option<Vec<u64>>,
    pub me: Option<i64>,
    pub me_overrides: Option<HashMap<u64, i64>>,
}

/// A solar system, by ID or name.
pub struct SolarSystemParam {
    pub system_id: Option<u64>,
    pub name: Option<String>,
}

/// A name search with an optional limit.
pub struct SearchParam {
    pub query: String,
    pub limit: Option<u64>,
}

/// A region, by ID or name.
pub struct RegionParam {
    pub region_id: Option<u64>,
    pub name: Option<String>,
}

/// A constellation, by ID.
pub struct ConstellationIdParam {
    pub constellation_id: u64,
}

/// An NPC station, by ID.
pub struct StationIdParam {
    pub station_id: u64,
}

/// The two ends of a route.
pub struct RouteParam {
    pub from_system_id: u64,
    pub to_system_id: u64,
}

/// A market group, by ID.
pub struct MarketGroupIdParam {
    pub market_group_id: u64,
}

/// A faction, by ID.
pub struct FactionIdParam {
    pub faction_id: u64,
}

/// An NPC corporation, by ID.
pub struct CorporationIdParam {
    pub corporation_id: u64,
}

/// One item to plan skills for, with the level wanted when it is a skill.
pub struct SkillPlanTarget {
    pub type_id: u64,
    pub level_override: Option<u8>,
}

/// The items to plan skills for, each separately.
pub struct SkillPlanParam {
    pub targets: Vec<SkillPlanTarget>,
}

/// A skill rank, given directly or by the skill's Type ID.
pub struct SkillSpParam {
    pub rank: Option<u64>,
    pub type_id: Option<u64>,
}

/// A Type, by ID.
pub struct TypeIdParam {
    pub type_id: u64,
}

/// A Type name search, optionally scoped to Groups and Categories.
pub struct SearchTypesParam {
    pub query: String,
    pub limit: Option<u64>,
    pub published_only: Option<bool>,
    pub group_ids: Option<Vec<u64>>,
    pub category_ids: Option<Vec<u64>>,
}

/// A Group, by ID.
pub struct GroupIdParam {
    pub group_id: u64,
}

/// A Category, by ID.
pub struct CategoryIdParam {
    pub category_id: u64,
}

/// A SKIN, by ID.
pub struct SkinIdParam {
    pub skin_id: u64,
}

/// A Type's dogma, with name resolution.
pub struct TypeDogmaParam {
    pub type_id: u64,
    pub resolve_names: Option<bool>,
}

/// Several Types at once.
pub struct TypeIdsParam {
    pub type_ids: Vec<u64>,
}

/// Several Types' dogma at once, optionally cut to some attributes.
pub struct TypesDogmaParam {
    pub type_ids: Vec<u64>,
    pub attribute_ids: Option<Vec<u64>>,
    pub resolve_names: Option<bool>,
}

/// Type IDs to name and names to resolve.
pub struct ResolveTypesParam {
    pub type_ids: Option<Vec<u64>>,
    pub names: Option<Vec<String>>,
}

} // verus!
