//! Manufacturing planning: how a Type comes into existence (its Origin), the
//! classify-only build router over the whole production tree, and the quantity
//! engine that resolves a ProductionChain from the player's buy-vs-build
//! decisions (material efficiency, whole-batch run rounding, shared
//! intermediates counted once).

use vstd::prelude::*;
use std::collections::{HashMap, HashSet};
use crate::store::{Activity, BlueprintRef, activity_name};
use crate::text::{decimal, push_decimal, push_str};
use crate::names::str_eq;

verus! {

broadcast use vstd::std_specs::hash::group_hash_axioms;

/// Group of the Mineral Types.
pub const GROUP_MINERAL: u64 = 18;
/// Group of the Moon Material Types.
pub const GROUP_MOON_MATERIAL: u64 = 427;
/// Category of the Planetary Commodities.
pub const CATEGORY_PI: u64 = 43;
/// Deepest build tree the planners walk before giving up.
pub const MAX_DEPTH: usize = 32;

/// How a Type comes into existence, resolved blueprint-first: a product with a
/// blueprint is `Manufactured` or `ReactionOutput`, anything else is a leaf
/// classified by its Group or Category.
#[derive(Clone, Copy, Debug, PartialEq, Eq, Structural)]
pub enum Origin {
    Manufactured,
    ReactionOutput,
    Mineral,
    MoonMaterial,
    PiOutput,
    RawOther,
}

/// The kebab-case key of an Origin (also the `build_origins` vocabulary).
pub open spec fn origin_key(o: Origin) -> Seq<char> {
    match o {
        Origin::Manufactured => "manufactured"@,
        Origin::ReactionOutput => "reaction-output"@,
        Origin::Mineral => "mineral"@,
        Origin::MoonMaterial => "moon-material"@,
        Origin::PiOutput => "pi-output"@,
        Origin::RawOther => "raw-other"@,
    }
}

/// The shopping-list section label of an Origin.
pub open spec fn origin_label(o: Origin) -> Seq<char> {
    match o {
        Origin::Manufactured => "Manufactured (bought)"@,
        Origin::ReactionOutput => "Reaction outputs (bought)"@,
        Origin::Mineral => "Minerals"@,
        Origin::MoonMaterial => "Moon Materials"@,
        Origin::PiOutput => "Planetary (PI)"@,
        Origin::RawOther => "Other (buy/loot)"@,
    }
}

/// The rank of an Origin in the order results are grouped by (declaration order).
pub open spec fn origin_rank(o: Origin) -> int {
    match o {
        Origin::Manufactured => 0,
        Origin::ReactionOutput => 1,
        Origin::Mineral => 2,
        Origin::MoonMaterial => 3,
        Origin::PiOutput => 4,
        Origin::RawOther => 5,
    }
}

impl Origin {
    /// The kebab-case key, e.g. `reaction-output`.
    pub fn key(self) -> (s: &'static str)
        ensures
            s@ == origin_key(self),
    {
        match self {
            Origin::Manufactured => "manufactured",
            Origin::ReactionOutput => "reaction-output",
            Origin::Mineral => "mineral",
            Origin::MoonMaterial => "moon-material",
            Origin::PiOutput => "pi-output",
            Origin::RawOther => "raw-other",
        }
    }

    /// Parses a key back into its Origin; `None` for anything else. Every Origin
    /// parses, though only the two decomposable ones are meaningful toggles.
    pub fn from_key(s: &str) -> (r: Option<Origin>)
        ensures
            match r {
                Some(o) => origin_key(o) == s@,
                None => forall|o: Origin| origin_key(o) != s@,
            },
    {
        let all = [Origin::Manufactured, Origin::ReactionOutput, Origin::Mineral, Origin::MoonMaterial, Origin::PiOutput, Origin::RawOther];
        let mut i: usize = 0;
        while i < 6
            invariant
                0 <= i <= 6,
                all@ == seq![Origin::Manufactured, Origin::ReactionOutput, Origin::Mineral, Origin::MoonMaterial, Origin::PiOutput, Origin::RawOther],
                forall|j: int| 0 <= j < i ==> origin_key(#[trigger] all@[j]) != s@,
            decreases 6 - i,
        {
            let o = all[i];
            if str_eq(o.key(), s) {
                return Some(o);
            }
            i = i + 1;
        }
        proof {
            assert forall|o: Origin| origin_key(o) != s@ by {
                match o {
                    Origin::Manufactured => assert(origin_key(all@[0]) != s@),
                    Origin::ReactionOutput => assert(origin_key(all@[1]) != s@),
                    Origin::Mineral => assert(origin_key(all@[2]) != s@),
                    Origin::MoonMaterial => assert(origin_key(all@[3]) != s@),
                    Origin::PiOutput => assert(origin_key(all@[4]) != s@),
                    Origin::RawOther => assert(origin_key(all@[5]) != s@),
                }
            }
        }
        None
    }

    /// The human-readable shopping-list section label.
    pub fn label(self) -> (s: &'static str)
        ensures
            s@ == origin_label(self),
    {
        match self {
            Origin::Manufactured => "Manufactured (bought)",
            Origin::ReactionOutput => "Reaction outputs (bought)",
            Origin::Mineral => "Minerals",
            Origin::MoonMaterial => "Moon Materials",
            Origin::PiOutput => "Planetary (PI)",
            Origin::RawOther => "Other (buy/loot)",
        }
    }
}

/// The material-efficiency regime of a manufactured product.
#[derive(Clone, Copy, Debug, PartialEq, Eq, Structural)]
pub enum MeMode {
    /// Tech I: ME researchable 0-10.
    Researchable,
    /// Faction, storyline, officer, deadspace: BPC-only, ME locked at 0.
    FixedZero,
    /// Tech II/III: ME set at invention (out of scope).
    Invented,
}

/// The ME regime a product's MetaGroup implies: none or 1 researchable, 2 and
/// 14 invented, 3 to 6 fixed at zero, any other researchable.
pub open spec fn spec_me_mode_of_meta(meta_group_id: Option<u64>) -> MeMode {
    match meta_group_id {
        None => MeMode::Researchable,
        Some(m) => if m == 2 || m == 14 {
            MeMode::Invented
        } else if 3 <= m <= 6 {
            MeMode::FixedZero
        } else {
            MeMode::Researchable
        },
    }
}

impl MeMode {
    /// The ME regime of a product with the given MetaGroup.
    pub fn from_meta_group(meta_group_id: Option<u64>) -> (r: MeMode)
        ensures
            r == spec_me_mode_of_meta(meta_group_id),
    {
        match meta_group_id {
            None => MeMode::Researchable,
            Some(m) => if m == 2 || m == 14 {
                MeMode::Invented
            } else if 3 <= m && m <= 6 {
                MeMode::FixedZero
            } else {
                MeMode::Researchable
            },
        }
    }
}

/// One blueprint activity as the SDE records it. Each entry keeps the
/// `typeID` and the `quantity` (or, for skills, `level`) it carries, either of
/// which a record may lack.
pub struct ActivityRecipe {
    pub products: Vec<(Option<u64>, Option<u64>)>,
    pub materials: Vec<(Option<u64>, Option<u64>)>,
    pub skills: Vec<(Option<u64>, Option<u64>)>,
}

/// A blueprint's two product-yielding activities.
pub struct BlueprintActivities {
    pub manufacturing: Option<ActivityRecipe>,
    pub reaction: Option<ActivityRecipe>,
}

/// What the planners read from the SDE: the product-to-blueprint map, the
/// blueprints' recipes, the Type taxonomy and MetaGroups, and Type names already
/// cut to the server's language.
pub struct IndustryData {
    pub product_to_blueprint: HashMap<u64, BlueprintRef>,
    pub blueprints: HashMap<u64, BlueprintActivities>,
    pub type_group: HashMap<u64, u64>,
    pub group_category: HashMap<u64, u64>,
    pub type_meta_group: HashMap<u64, u64>,
    pub type_names: HashMap<u64, String>,
}

/// A Type's Group.
pub open spec fn spec_group_of(d: &IndustryData, t: u64) -> Option<u64> {
    if d.type_group@.contains_key(t) { Some(d.type_group@[t]) } else { None }
}

/// A Type's Category, through its Group.
pub open spec fn spec_category_of(d: &IndustryData, t: u64) -> Option<u64> {
    match spec_group_of(d, t) {
        Some(g) => if d.group_category@.contains_key(g) { Some(d.group_category@[g]) } else { None },
        None => None,
    }
}

/// A Type's Origin: its blueprint activity when it has one, else Mineral (group
/// 18), Moon Material (group 427), Planetary (category 43) or other.
pub open spec fn spec_classify_origin(d: &IndustryData, t: u64) -> Origin {
    if d.product_to_blueprint@.contains_key(t) {
        match d.product_to_blueprint@[t].activity {
            Activity::Manufacturing => Origin::Manufactured,
            Activity::Reaction => Origin::ReactionOutput,
        }
    } else if spec_group_of(d, t) == Some(GROUP_MINERAL) {
        Origin::Mineral
    } else if spec_group_of(d, t) == Some(GROUP_MOON_MATERIAL) {
        Origin::MoonMaterial
    } else if spec_category_of(d, t) == Some(CATEGORY_PI) {
        Origin::PiOutput
    } else {
        Origin::RawOther
    }
}

/// The ME regime of a manufactured Type; nothing for any other Origin.
pub open spec fn spec_me_mode(d: &IndustryData, t: u64) -> Option<MeMode> {
    if spec_classify_origin(d, t) != Origin::Manufactured {
        None
    } else {
        Some(spec_me_mode_of_meta(if d.type_meta_group@.contains_key(t) { Some(d.type_meta_group@[t]) } else { None }))
    }
}

/// Worth building further: a reaction output, or a manufactured Type that does
/// not need invention.
pub open spec fn spec_decomposable(d: &IndustryData, t: u64) -> bool {
    match spec_classify_origin(d, t) {
        Origin::ReactionOutput => true,
        Origin::Manufactured => spec_me_mode(d, t) != Some(MeMode::Invented),
        _ => false,
    }
}

fn group_of(d: &IndustryData, t: u64) -> (r: Option<u64>)
    ensures
        r == spec_group_of(d, t),
{
    match d.type_group.get(&t) {
        Some(g) => Some(*g),
        None => None,
    }
}

fn category_of(d: &IndustryData, t: u64) -> (r: Option<u64>)
    ensures
        r == spec_category_of(d, t),
{
    match group_of(d, t) {
        Some(g) => match d.group_category.get(&g) {
            Some(c) => Some(*c),
            None => None,
        },
        None => None,
    }
}

/// Classifies how `t` is produced, blueprint-first.
pub fn classify_origin(d: &IndustryData, t: u64) -> (o: Origin)
    ensures
        o == spec_classify_origin(d, t),
{
    match d.product_to_blueprint.get(&t) {
        Some(r) => match r.activity {
            Activity::Manufacturing => Origin::Manufactured,
            Activity::Reaction => Origin::ReactionOutput,
        },
        None => {
            let g = group_of(d, t);
            if g == Some(GROUP_MINERAL) {
                Origin::Mineral
            } else if g == Some(GROUP_MOON_MATERIAL) {
                Origin::MoonMaterial
            } else if category_of(d, t) == Some(CATEGORY_PI) {
                Origin::PiOutput
            } else {
                Origin::RawOther
            }
        },
    }
}

/// The ME regime of a manufactured product, or `None` if it is not manufactured.
pub fn me_mode(d: &IndustryData, t: u64) -> (r: Option<MeMode>)
    ensures
        r == spec_me_mode(d, t),
{
    if classify_origin(d, t) != Origin::Manufactured {
        return None;
    }
    let meta = match d.type_meta_group.get(&t) {
        Some(m) => Some(*m),
        None => None,
    };
    Some(MeMode::from_meta_group(meta))
}

/// Whether `t` is worth building further rather than buying.
pub fn is_decomposable(d: &IndustryData, t: u64) -> (r: bool)
    ensures
        r == spec_decomposable(d, t),
{
    match classify_origin(d, t) {
        Origin::ReactionOutput => true,
        Origin::Manufactured => me_mode(d, t) != Some(MeMode::Invented),
        _ => false,
    }
}

/// A Type's name in the server's language.
pub open spec fn spec_name_of_type(d: &IndustryData, t: u64) -> Option<Seq<char>> {
    if d.type_names@.contains_key(t) { Some(d.type_names@[t]@) } else { None }
}

/// The view of an optional name.
pub open spec fn name_view(n: Option<String>) -> Option<Seq<char>> {
    match n {
        Some(s) => Some(s@),
        None => None,
    }
}

/// Looks up a Type's name.
pub fn name_of_type(d: &IndustryData, t: u64) -> (r: Option<String>)
    ensures
        name_view(r) == spec_name_of_type(d, t),
{
    match d.type_names.get(&t) {
        Some(n) => Some(n.clone()),
        None => None,
    }
}


// ── Blueprint formula ────────────────────────────────────────────────────────

/// The producing blueprint's recipe for one product, flattened for the planners.
pub struct Formula {
    pub activity: Activity,
    /// Units of the product yielded per run (at least one).
    pub output_per_run: u64,
    /// `(material_type_id, quantity_per_run)`, one per complete material entry.
    pub materials: Vec<(u64, u64)>,
    /// `(skill_type_id, level)` required to run the job.
    pub skills: Vec<(u64, u8)>,
}

/// The entries that carry both a type ID and a quantity, in order.
pub open spec fn complete_pairs(s: Seq<(Option<u64>, Option<u64>)>) -> Seq<(u64, u64)>
    decreases s.len(),
{
    if s.len() == 0 {
        Seq::empty()
    } else {
        let r = complete_pairs(s.drop_last());
        match s.last() {
            (Some(a), Some(b)) => r.push((a, b)),
            _ => r,
        }
    }
}

/// The skill entries that carry both a type ID and a level, the level cut to a
/// `u8` as an `as` cast does.
pub open spec fn skill_pairs(s: Seq<(Option<u64>, Option<u64>)>) -> Seq<(u64, u8)>
    decreases s.len(),
{
    if s.len() == 0 {
        Seq::empty()
    } else {
        let r = skill_pairs(s.drop_last());
        match s.last() {
            (Some(a), Some(b)) => r.push((a, b as u8)),
            _ => r,
        }
    }
}

/// The index of the first product entry naming `t`.
pub open spec fn first_product_index(products: Seq<(Option<u64>, Option<u64>)>, t: u64) -> Option<int> {
    if exists|i: int| 0 <= i < products.len() && products[i].0 == Some(t) {
        Some(choose|i: int| 0 <= i < products.len() && products[i].0 == Some(t) && forall|j: int| 0 <= j < i ==> products[j].0 != Some(t))
    } else {
        None
    }
}

/// Units per run: the quantity of the product entry naming `t` (else of the
/// first entry), 1 when there is none, and never below 1.
pub open spec fn spec_output_per_run(products: Seq<(Option<u64>, Option<u64>)>, t: u64) -> u64 {
    let q: Option<u64> = match first_product_index(products, t) {
        Some(i) => products[i].1,
        None => if products.len() > 0 { products[0].1 } else { None },
    };
    match q {
        Some(v) => if v == 0 { 1 } else { v },
        None => 1,
    }
}

/// The recipe of the activity that produces `t`, when its blueprint is known.
pub open spec fn spec_recipe(d: &IndustryData, t: u64) -> Option<ActivityRecipe> {
    if !d.product_to_blueprint@.contains_key(t) {
        None
    } else {
        let r = d.product_to_blueprint@[t];
        if !d.blueprints@.contains_key(r.blueprint_id) {
            None
        } else {
            match r.activity {
                Activity::Manufacturing => d.blueprints@[r.blueprint_id].manufacturing,
                Activity::Reaction => d.blueprints@[r.blueprint_id].reaction,
            }
        }
    }
}

/// `t` has a producing recipe.
pub open spec fn spec_has_formula(d: &IndustryData, t: u64) -> bool {
    spec_recipe(d, t).is_some()
}

/// The materials per run of `t`'s recipe.
pub open spec fn spec_materials(d: &IndustryData, t: u64) -> Seq<(u64, u64)> {
    complete_pairs(spec_recipe(d, t).unwrap().materials@)
}

/// The activity that produces `t`.
pub open spec fn spec_activity(d: &IndustryData, t: u64) -> Activity {
    d.product_to_blueprint@[t].activity
}

/// `f` is the flattened recipe of `t`.
pub open spec fn formula_matches(f: &Formula, d: &IndustryData, t: u64) -> bool {
    &&& spec_has_formula(d, t)
    &&& f.activity == spec_activity(d, t)
    &&& f.output_per_run == spec_output_per_run(spec_recipe(d, t).unwrap().products@, t)
    &&& f.materials@ == spec_materials(d, t)
    &&& f.skills@ == skill_pairs(spec_recipe(d, t).unwrap().skills@)
}

fn collect_complete(s: &Vec<(Option<u64>, Option<u64>)>) -> (r: Vec<(u64, u64)>)
    ensures
        r@ == complete_pairs(s@),
{
    let mut out: Vec<(u64, u64)> = Vec::new();
    let mut i: usize = 0;
    while i < s.len()
        invariant
            0 <= i <= s.len(),
            out@ == complete_pairs(s@.take(i as int)),
        decreases s.len() - i,
    {
        assert(s@.take(i + 1).drop_last() =~= s@.take(i as int));
        match s[i] {
            (Some(a), Some(b)) => out.push((a, b)),
            _ => {},
        }
        i = i + 1;
    }
    assert(s@.take(s.len() as int) =~= s@);
    out
}

fn collect_skills(s: &Vec<(Option<u64>, Option<u64>)>) -> (r: Vec<(u64, u8)>)
    ensures
        r@ == skill_pairs(s@),
{
    let mut out: Vec<(u64, u8)> = Vec::new();
    let mut i: usize = 0;
    while i < s.len()
        invariant
            0 <= i <= s.len(),
            out@ == skill_pairs(s@.take(i as int)),
        decreases s.len() - i,
    {
        assert(s@.take(i + 1).drop_last() =~= s@.take(i as int));
        match s[i] {
            (Some(a), Some(b)) => out.push((a, b as u8)),
            _ => {},
        }
        i = i + 1;
    }
    assert(s@.take(s.len() as int) =~= s@);
    out
}

fn names_type(p: &(Option<u64>, Option<u64>), t: u64) -> (b: bool)
    ensures
        b == (p.0 == Some(t)),
{
    match p.0 {
        Some(x) => x == t,
        None => false,
    }
}

fn output_per_run(products: &Vec<(Option<u64>, Option<u64>)>, t: u64) -> (r: u64)
    ensures
        r == spec_output_per_run(products@, t),
        r >= 1,
{
    let mut i: usize = 0;
    while i < products.len() && !names_type(&products[i], t)
        invariant
            0 <= i <= products.len(),
            forall|j: int| 0 <= j < i ==> products@[j].0 != Some(t),
        decreases products.len() - i,
    {
        i = i + 1;
    }
    let q: Option<u64> = if i < products.len() {
        proof {
            assert(products@[i as int].0 == Some(t));
            let c = choose|k: int| 0 <= k < products@.len() && products@[k].0 == Some(t) && forall|j: int| 0 <= j < k ==> products@[j].0 != Some(t);
            assert(0 <= c < products@.len() && products@[c].0 == Some(t) && forall|j: int| 0 <= j < c ==> products@[j].0 != Some(t));
            if c < i { assert(products@[c].0 != Some(t)); }
            if c > i { assert(products@[i as int].0 != Some(t)); }
            assert(first_product_index(products@, t) == Some(i as int));
        }
        products[i].1
    } else if products.len() > 0 {
        products[0].1
    } else {
        None
    };
    match q {
        Some(v) => if v == 0 { 1 } else { v },
        None => 1,
    }
}

/// The recipe that produces `t`, flattened; `None` when `t` has no blueprint,
/// the blueprint is unknown, or it lacks the activity.
pub fn formula_for(d: &IndustryData, t: u64) -> (r: Option<Formula>)
    ensures
        match r {
            Some(f) => formula_matches(&f, d, t),
            None => !spec_has_formula(d, t),
        },
{
    let bp_ref = match d.product_to_blueprint.get(&t) {
        Some(r) => *r,
        None => return None,
    };
    let bp = match d.blueprints.get(&bp_ref.blueprint_id) {
        Some(b) => b,
        None => return None,
    };
    let recipe = match bp_ref.activity {
        Activity::Manufacturing => match &bp.manufacturing {
            Some(r) => r,
            None => return None,
        },
        Activity::Reaction => match &bp.reaction {
            Some(r) => r,
            None => return None,
        },
    };
    Some(Formula {
        activity: bp_ref.activity,
        output_per_run: output_per_run(&recipe.products, t),
        materials: collect_complete(&recipe.materials),
        skills: collect_skills(&recipe.skills),
    })
}

// ── Arithmetic ───────────────────────────────────────────────────────────────

/// `numerator / denominator` rounded up; a zero denominator gives the numerator.
pub open spec fn spec_ceil_div(numerator: int, denominator: int) -> int {
    if denominator == 0 { numerator } else { (numerator + denominator - 1) / denominator }
}

/// Whole batches: `numerator / denominator` rounded up (the numerator itself
/// when the denominator is zero).
pub fn ceil_div(numerator: u64, denominator: u64) -> (r: u64)
    ensures
        r == spec_ceil_div(numerator as int, denominator as int),
{
    if denominator == 0 {
        return numerator;
    }
    let q = numerator / denominator;
    if numerator % denominator != 0 {
        assert(q < u64::MAX) by (nonlinear_arith)
            requires
                denominator > 0,
                q == numerator / denominator,
                numerator % denominator != 0,
                numerator <= u64::MAX,
        ;
    }
    let r = if numerator % denominator == 0 { q } else { q + 1 };
    proof {
        let n = numerator as int;
        let dd = denominator as int;
        let qq = q as int;
        let rr = r as int;
        assert(rr == (n + dd - 1) / dd) by (nonlinear_arith)
            requires
                dd > 0,
                n >= 0,
                qq == n / dd,
                rr == (if n % dd == 0 { qq } else { qq + 1 }),
        ;
    }
    r
}

/// An ME percentage clamped to 0..=100.
pub open spec fn clamp_me(me: i64) -> i64 {
    if me < 0 { 0 } else if me > 100 { 100 } else { me }
}

/// Material for a manufacturing job: ME (clamped to 0..=100) cuts the per-run
/// cost, rounded up over the whole job, but a job always consumes at least one
/// unit per run.
pub open spec fn spec_material_with_me(base_per_run: int, runs: int, me: i64) -> int {
    let reduced = spec_ceil_div(base_per_run * runs * (100 - clamp_me(me)), 100);
    if reduced >= runs { reduced } else { runs }
}

/// Material consumed by `runs` runs of a manufacturing job at `me` percent, or
/// `None` when the count does not fit in a `u64`.
pub fn material_with_me(base_per_run: u64, runs: u64, me: i64) -> (r: Option<u64>)
    ensures
        match r {
            Some(q) => q == spec_material_with_me(base_per_run as int, runs as int, me),
            None => spec_material_with_me(base_per_run as int, runs as int, me) > u64::MAX,
        },
{
    let me_c: i64 = if me < 0 { 0 } else if me > 100 { 100 } else { me };
    let keep: u64 = (100 - me_c) as u64;
    let ghost b = base_per_run as int;
    let ghost n = runs as int;
    let ghost k = keep as int;
    assert(k == 100 - clamp_me(me));
    if keep == 0 {
        assert(b * n * k == 0) by (nonlinear_arith) requires k == 0;
        return Some(runs);
    }
    proof {
        assert(b * n <= 0xffff_ffff_ffff_ffff_ffff_ffff_ffff_ffff) by (nonlinear_arith)
            requires 0 <= b <= 0xffff_ffff_ffff_ffff, 0 <= n <= 0xffff_ffff_ffff_ffff;
        assert(b * n >= 0) by (nonlinear_arith) requires b >= 0, n >= 0;
    }
    let total: u128 = (base_per_run as u128) * (runs as u128);
    if total > 100 * (u64::MAX as u128) {
        proof {
            let t = total as int;
            assert(t == b * n);
            assert(b * n * k >= b * n) by (nonlinear_arith) requires b * n >= 0, k >= 1;
            assert(spec_ceil_div(b * n * k, 100) >= t / 100) by (nonlinear_arith)
                requires b * n * k >= t, t == b * n, t >= 0;
        }
        return None;
    }
    proof {
        assert((total as int) * k <= 100 * 0xffff_ffff_ffff_ffff * 100) by (nonlinear_arith)
            requires 0 <= total as int <= 100 * 0xffff_ffff_ffff_ffff, 0 <= k <= 100;
    }
    let scaled: u128 = total * (keep as u128);
    let reduced: u128 = (scaled + 99) / 100;
    proof {
        assert(scaled as int == b * n * k);
        assert(reduced as int == spec_ceil_div(b * n * k, 100));
    }
    let out: u128 = if reduced >= runs as u128 { reduced } else { runs as u128 };
    if out > (u64::MAX as u128) {
        return None;
    }
    Some(out as u64)
}


// ── Engine: production_chain ─────────────────────────────────────────────────

/// The player's decisions the quantity engine runs on.
pub struct ChainParams {
    pub target_id: u64,
    /// Runs of the target; zero is read as one.
    pub runs: u64,
    /// Decomposable Origins to build; the others are bought as leaves.
    pub build_origins: Vec<Origin>,
    /// Types bought even when their Origin is built.
    pub buy_type_ids: HashSet<u64>,
    /// ME (%) for every manufacturing job without an override.
    pub me_default: i64,
    /// Per-Type ME (%) overrides.
    pub me_overrides: HashMap<u64, i64>,
}

/// The ME applied to a manufacturing job for `t`: its override or the default,
/// clamped to 0..=100.
pub open spec fn spec_me_for(p: &ChainParams, t: u64) -> i64 {
    clamp_me(if p.me_overrides@.contains_key(t) { p.me_overrides@[t] } else { p.me_default })
}

/// Whether `t` is built rather than bought: never when force-bought (unless it
/// is the target) or not decomposable; always for the target; otherwise when
/// its Origin is toggled on.
pub open spec fn spec_builds(d: &IndustryData, p: &ChainParams, t: u64) -> bool {
    if p.buy_type_ids@.contains(t) && t != p.target_id {
        false
    } else if !spec_decomposable(d, t) {
        false
    } else if t == p.target_id {
        true
    } else {
        p.build_origins@.contains(spec_classify_origin(d, t))
    }
}

/// Tech II and Tech III (MetaGroups 2 and 14) are the invention regime, Faction,
/// Storyline, Officer and Deadspace (3 to 6) are locked at ME 0, and Tech I,
/// no MetaGroup or any other is researchable.
pub proof fn lemma_me_regimes(m: Option<u64>)
    ensures
        (spec_me_mode_of_meta(m) == MeMode::Invented) <==> (m == Some(2u64) || m == Some(14u64)),
        (spec_me_mode_of_meta(m) == MeMode::FixedZero) <==> (m matches Some(v) && 3 <= v <= 6),
        (spec_me_mode_of_meta(m) == MeMode::Researchable) <==> (m is None || (m matches Some(v) && v != 2 && v != 14 && !(3 <= v <= 6))),
{
}

/// A manufactured Type is worth building exactly when its MetaGroup is not an
/// invention one (Tech II, 2, or Tech III, 14); a reaction output always is,
/// and nothing else ever is.
pub proof fn lemma_invention_boundary(d: &IndustryData, t: u64)
    ensures
        spec_classify_origin(d, t) == Origin::Manufactured ==> (spec_decomposable(d, t)
            <==> !(d.type_meta_group@.contains_key(t) && (d.type_meta_group@[t] == 2 || d.type_meta_group@[t] == 14))),
        spec_classify_origin(d, t) == Origin::ReactionOutput ==> spec_decomposable(d, t),
        spec_classify_origin(d, t) != Origin::Manufactured && spec_classify_origin(d, t) != Origin::ReactionOutput
            ==> !spec_decomposable(d, t),
{
}

/// Only manufactured Types and reaction outputs are ever built: a mineral, a
/// moon material, a PI output or any other raw Type is always a leaf, and a
/// Type on the plan's buy list is bought whatever its Origin, the target aside.
pub proof fn lemma_raw_boundary(d: &IndustryData, p: &ChainParams, t: u64)
    ensures
        spec_builds(d, p, t) ==> spec_classify_origin(d, t) == Origin::Manufactured
            || spec_classify_origin(d, t) == Origin::ReactionOutput,
        p.buy_type_ids@.contains(t) && t != p.target_id ==> !spec_builds(d, p, t),
{
}

impl ChainParams {
    /// The ME for a manufacturing job on `t`, clamped to 0..=100.
    pub fn me_for(&self, t: u64) -> (r: i64)
        ensures
            r == spec_me_for(self, t),
    {
        let me = match self.me_overrides.get(&t) {
            Some(m) => *m,
            None => self.me_default,
        };
        if me < 0 { 0 } else if me > 100 { 100 } else { me }
    }

    /// Whether `t` is built (vs bought) on this plan.
    pub fn builds(&self, d: &IndustryData, t: u64) -> (r: bool)
        ensures
            r == spec_builds(d, self, t),
    {
        let is_target = t == self.target_id;
        if self.buy_type_ids.contains(&t) && !is_target {
            return false;
        }
        if !is_decomposable(d, t) {
            return false;
        }
        if is_target {
            return true;
        }
        let o = classify_origin(d, t);
        let mut i: usize = 0;
        while i < self.build_origins.len()
            invariant
                0 <= i <= self.build_origins.len(),
                forall|j: int| 0 <= j < i ==> self.build_origins@[j] != o,
                o == spec_classify_origin(d, t),
                !self.buy_type_ids@.contains(t),
                spec_decomposable(d, t),
                t != self.target_id,
            decreases self.build_origins.len() - i,
        {
            if self.build_origins[i] == o {
                assert(self.build_origins@[i as int] == o);
                assert(self.build_origins@.contains(o));
                assert(o == spec_classify_origin(d, t));
                return true;
            }
            i = i + 1;
        }
        false
    }
}

/// Why a plan could not be produced.
#[derive(Debug, Clone, Copy, PartialEq, Eq)]
pub enum PlanError {
    /// The target has no manufacturing or reaction blueprint it can be built by.
    NotBuildable,
    /// A Type requires itself, through this Type.
    ProductionCycle(u64),
    /// The build tree is deeper than [`MAX_DEPTH`].
    DepthExceeded,
    /// The built nodes cannot be ordered parents-first.
    CycleAmongBuilt,
    /// A quantity does not fit in a `u64`.
    QuantityOverflow,
}

/// `x` is a built node of `f`.
pub open spec fn has_key(f: Seq<(u64, Formula)>, x: u64) -> bool {
    exists|i: int| 0 <= i < f.len() && #[trigger] f[i].0 == x
}

/// `y`'s recipe lists `x` among its materials.
pub open spec fn mat_of(d: &IndustryData, y: u64, x: u64) -> bool {
    exists|k: int| 0 <= k < spec_materials(d, y).len() && #[trigger] spec_materials(d, y)[k].0 == x
}

/// `t` is built on this plan and has a recipe to build it by.
pub open spec fn built(d: &IndustryData, p: &ChainParams, t: u64) -> bool {
    spec_builds(d, p, t) && spec_has_formula(d, t)
}

/// `c` descends from the target one material at a time, every Type but the
/// last one built.
pub open spec fn is_walk(d: &IndustryData, p: &ChainParams, c: Seq<u64>) -> bool {
    &&& c.len() >= 1
    &&& c[0] == p.target_id
    &&& forall|i: int| 0 <= i < c.len() - 1 ==> built(d, p, #[trigger] c[i]) && mat_of(d, c[i], c[i + 1])
}

/// `x` turns up somewhere in the target's build tree.
pub open spec fn reachable(d: &IndustryData, p: &ChainParams, x: u64) -> bool {
    exists|c: Seq<u64>| #[trigger] is_walk(d, p, c) && c.last() == x
}

/// `x` requires itself: a chain of built Types, each a material of the one
/// before, leads from `x` back to `x`.
#[verifier::opaque]
pub open spec fn on_cycle(d: &IndustryData, p: &ChainParams, x: u64) -> bool {
    exists|c: Seq<u64>| #[trigger] c.len() >= 2 && c[0] == x && c.last() == x
        && forall|i: int| 0 <= i < c.len() - 1 ==> built(d, p, #[trigger] c[i]) && mat_of(d, c[i], c[i + 1])
}

/// The build tree has a branch more than [`MAX_DEPTH`] materials deep.
#[verifier::opaque]
pub open spec fn too_deep(d: &IndustryData, p: &ChainParams) -> bool {
    exists|c: Seq<u64>| #[trigger] is_walk(d, p, c) && c.len() > MAX_DEPTH + 1
}

proof fn lemma_walk_extend(d: &IndustryData, p: &ChainParams, w: Seq<u64>, m: u64)
    requires
        is_walk(d, p, w),
        built(d, p, w.last()),
        mat_of(d, w.last(), m),
    ensures
        is_walk(d, p, w.push(m)),
{
    let c = w.push(m);
    assert forall|i: int| 0 <= i < c.len() - 1 implies built(d, p, #[trigger] c[i]) && mat_of(d, c[i], c[i + 1]) by {
        if i < w.len() - 1 {
            assert(c[i] == w[i] && c[i + 1] == w[i + 1]);
        } else {
            assert(c[i] == w.last() && c[i + 1] == m);
        }
    }
}

proof fn lemma_walk_cycle(d: &IndustryData, p: &ChainParams, w: Seq<u64>, j: int)
    requires
        is_walk(d, p, w),
        0 <= j < w.len() - 1,
        w[j] == w.last(),
    ensures
        on_cycle(d, p, w.last()),
{
    let c = w.subrange(j, w.len() as int);
    assert(c[0] == w.last() && c.last() == w.last());
    assert forall|i: int| 0 <= i < c.len() - 1 implies built(d, p, #[trigger] c[i]) && mat_of(d, c[i], c[i + 1]) by {
        assert(c[i] == w[j + i] && c[i + 1] == w[j + i + 1]);
    }
    assert(c.len() >= 2 && c[0] == w.last() && c.last() == w.last()
        && forall|i: int| 0 <= i < c.len() - 1 ==> built(d, p, #[trigger] c[i]) && mat_of(d, c[i], c[i + 1]));
    reveal(on_cycle);
}

/// Everything discovery recorded lies in the target's build tree.
pub open spec fn all_reachable(d: &IndustryData, p: &ChainParams, f: Seq<(u64, Formula)>, leaves: Seq<u64>) -> bool {
    &&& forall|i: int| 0 <= i < f.len() ==> reachable(d, p, #[trigger] f[i].0)
    &&& forall|i: int| 0 <= i < leaves.len() ==> reachable(d, p, #[trigger] leaves[i])
}

/// A material of a reachable built Type is reachable.
pub proof fn lemma_reach_material(d: &IndustryData, p: &ChainParams, y: u64, x: u64)
    requires
        reachable(d, p, y),
        built(d, p, y),
        mat_of(d, y, x),
    ensures
        reachable(d, p, x),
{
    let c = choose|c: Seq<u64>| #[trigger] is_walk(d, p, c) && c.last() == y;
    let c2 = c.push(x);
    assert forall|i: int| 0 <= i < c2.len() - 1 implies built(d, p, #[trigger] c2[i]) && mat_of(d, c2[i], c2[i + 1]) by {
        if i < c.len() - 1 {
            assert(c2[i] == c[i] && c2[i + 1] == c[i + 1]);
        } else {
            assert(c2[i] == y && c2[i + 1] == x);
        }
    }
    assert(is_walk(d, p, c2) && c2.last() == x);
}

/// What discovery keeps true of its built nodes and leaves.
pub open spec fn discovery_inv(d: &IndustryData, p: &ChainParams, f: Seq<(u64, Formula)>, leaves: Seq<u64>, path: Seq<u64>) -> bool {
    &&& forall|i: int| 0 <= i < f.len() ==> #[trigger] formula_matches(&f[i].1, d, f[i].0) && spec_builds(d, p, f[i].0)
    &&& forall|i: int, j: int| 0 <= i < j < f.len() ==> #[trigger] f[i].0 != #[trigger] f[j].0
    &&& forall|i: int, j: int| 0 <= i < j < leaves.len() ==> #[trigger] leaves[i] != #[trigger] leaves[j]
    &&& forall|i: int| 0 <= i < leaves.len() ==> !has_key(f, #[trigger] leaves[i])
    &&& forall|i: int| 0 <= i < leaves.len() ==> !spec_builds(d, p, #[trigger] leaves[i]) || !spec_has_formula(d, leaves[i])
    &&& forall|i: int| 0 <= i < path.len() ==> has_key(f, #[trigger] path[i])
    &&& forall|i: int, k: int| 0 <= i < f.len() && !path.contains(f[i].0) && 0 <= k < f[i].1.materials@.len() ==>
            (has_key(f, #[trigger] f[i].1.materials@[k].0) && !path.contains(f[i].1.materials@[k].0))
                || leaves.contains(f[i].1.materials@[k].0)
}

/// Every cycle among the built nodes of `f` passes through a Type still on
/// `path`: the nodes discovery has finished hold no cycle.
#[verifier::opaque]
pub open spec fn finished_acyclic(f: Seq<(u64, Formula)>, path: Seq<u64>) -> bool {
    forall|c: Seq<int>| #[trigger] is_fcycle(f, c) ==> exists|i: int| 0 <= i < c.len() && path.contains(f[#[trigger] c[i]].0)
}

proof fn lemma_contains_push(path: Seq<u64>, t: u64, x: u64)
    ensures
        path.push(t).contains(x) <==> (path.contains(x) || x == t),
{
    if path.contains(x) {
        let j = choose|j: int| 0 <= j < path.len() && path[j] == x;
        assert(path.push(t)[j] == x);
    }
    if x == t {
        assert(path.push(t)[path.len() as int] == t);
    }
    if path.push(t).contains(x) {
        let j = choose|j: int| 0 <= j < path.push(t).len() && path.push(t)[j] == x;
        if j < path.len() {
            assert(path[j] == x);
        }
    }
}

/// A Type pushed fresh onto the path closes no cycle among finished nodes.
proof fn lemma_acyclic_push(f0: Seq<(u64, Formula)>, fm: Formula, path: Seq<u64>, t: u64)
    requires
        finished_acyclic(f0, path),
        !has_key(f0, t),
    ensures
        finished_acyclic(f0.push((t, fm)), path.push(t)),
{
    reveal(finished_acyclic);
    let fs = f0.push((t, fm));
    assert forall|c: Seq<int>| #[trigger] is_fcycle(fs, c) implies exists|i: int| 0 <= i < c.len() && path.push(t).contains(fs[#[trigger] c[i]].0) by {
        if !(exists|i: int| 0 <= i < c.len() && path.push(t).contains(fs[#[trigger] c[i]].0)) {
            assert forall|i: int| 0 <= i < c.len() implies #[trigger] c[i] < f0.len() by {
                if c[i] == f0.len() {
                    assert(fs[c[i]].0 == t);
                    lemma_contains_push(path, t, t);
                }
            }
            assert forall|i: int| 0 <= i < c.len() - 1 implies consumes(f0, #[trigger] c[i], f0[c[i + 1]].0) by {
                assert(c[i] < f0.len() && c[i + 1] < f0.len());
                assert(fs[c[i]] == f0[c[i]] && fs[c[i + 1]] == f0[c[i + 1]]);
                assert(consumes(fs, c[i], fs[c[i + 1]].0));
            }
            assert(is_fcycle(f0, c));
            let i = choose|i: int| 0 <= i < c.len() && path.contains(f0[#[trigger] c[i]].0);
            assert(fs[c[i]] == f0[c[i]]);
            lemma_contains_push(path, t, fs[c[i]].0);
        }
    }
}

/// Once every material of `t` is finished, `t` finishes without closing a cycle.
proof fn lemma_acyclic_pop(d: &IndustryData, p: &ChainParams, fs: Seq<(u64, Formula)>, leaves: Seq<u64>, path: Seq<u64>, it: int, t: u64)
    requires
        discovery_inv(d, p, fs, leaves, path.push(t)),
        finished_acyclic(fs, path.push(t)),
        0 <= it < fs.len(),
        fs[it].0 == t,
        forall|k: int| 0 <= k < fs[it].1.materials@.len() ==>
            (has_key(fs, #[trigger] fs[it].1.materials@[k].0) && !path.push(t).contains(fs[it].1.materials@[k].0))
                || leaves.contains(fs[it].1.materials@[k].0),
    ensures
        finished_acyclic(fs, path),
{
    reveal(finished_acyclic);
    assert(!leaves.contains(t)) by {
        if leaves.contains(t) {
            let q = choose|q: int| 0 <= q < leaves.len() && leaves[q] == t;
            assert(!has_key(fs, leaves[q]));
        }
    }
    lemma_contains_push(path, t, t);
    assert forall|c: Seq<int>| #[trigger] is_fcycle(fs, c) implies exists|i: int| 0 <= i < c.len() && path.contains(fs[#[trigger] c[i]].0) by {
        if !(exists|i: int| 0 <= i < c.len() && path.contains(fs[#[trigger] c[i]].0)) {
            let i0 = choose|i: int| 0 <= i < c.len() && path.push(t).contains(fs[#[trigger] c[i]].0);
            lemma_contains_push(path, t, fs[c[i0]].0);
            assert(fs[c[i0]].0 == t);
            assert(c[i0] == it) by {
                if c[i0] != it {
                    if c[i0] < it { assert(fs[c[i0]].0 != fs[it].0); } else { assert(fs[it].0 != fs[c[i0]].0); }
                }
            }
            let j: int = if i0 >= 1 { i0 - 1 } else { c.len() - 2 };
            assert(c[j + 1] == it);
            assert(consumes(fs, c[j], fs[c[j + 1]].0));
            let k = choose|k: int| 0 <= k < fs[c[j]].1.materials@.len() && #[trigger] fs[c[j]].1.materials@[k].0 == t;
            if c[j] == it {
                assert(fs[it].1.materials@[k].0 == t);
            } else {
                assert(fs[c[j]].0 != t) by {
                    if c[j] < it { assert(fs[c[j]].0 != fs[it].0); } else { assert(fs[it].0 != fs[c[j]].0); }
                }
                lemma_contains_push(path, t, fs[c[j]].0);
                assert(!path.contains(fs[c[j]].0));
                assert(fs[c[j]].1.materials@[k].0 == t);
            }
        }
    }
}

fn contains_u64(v: &Vec<u64>, x: u64) -> (r: bool)
    ensures
        r == v@.contains(x),
{
    let mut i: usize = 0;
    while i < v.len()
        invariant
            0 <= i <= v.len(),
            forall|j: int| 0 <= j < i ==> v@[j] != x,
        decreases v.len() - i,
    {
        if v[i] == x {
            return true;
        }
        i = i + 1;
    }
    false
}

fn has_key_exec(f: &Vec<(u64, Formula)>, x: u64) -> (r: bool)
    ensures
        r == has_key(f@, x),
{
    let mut i: usize = 0;
    while i < f.len()
        invariant
            0 <= i <= f.len(),
            forall|j: int| 0 <= j < i ==> f@[j].0 != x,
        decreases f.len() - i,
    {
        if f[i].0 == x {
            return true;
        }
        i = i + 1;
    }
    false
}

fn copy_pairs(v: &Vec<(u64, u64)>) -> (r: Vec<(u64, u64)>)
    ensures
        r@ == v@,
{
    let mut out: Vec<(u64, u64)> = Vec::new();
    let mut i: usize = 0;
    while i < v.len()
        invariant
            0 <= i <= v.len(),
            out@ == v@.take(i as int),
        decreases v.len() - i,
    {
        out.push(v[i]);
        assert(v@.take(i + 1) =~= v@.take(i as int).push(v@[i as int]));
        i = i + 1;
    }
    assert(v@.take(v.len() as int) =~= v@);
    out
}

/// Walks the build tree from `t`, recording a formula for every built node and
/// every node that stops at a buy as a leaf.
pub(crate) fn discover(d: &IndustryData, p: &ChainParams, t: u64, is_target: bool, path: &mut Vec<u64>, formulas: &mut Vec<(u64, Formula)>, leaves: &mut Vec<u64>) -> (r: Result<(), PlanError>)
    requires
        discovery_inv(d, p, old(formulas)@, old(leaves)@, old(path)@),
        is_target == (old(path)@.len() == 0),
        is_target ==> t == p.target_id,
        old(path)@.len() > 0 ==> old(path)@[0] == p.target_id,
        old(path)@.len() <= MAX_DEPTH + 1,
        reachable(d, p, t),
        is_walk(d, p, old(path)@.push(t)),
        all_reachable(d, p, old(formulas)@, old(leaves)@),
        finished_acyclic(old(formulas)@, old(path)@),
    ensures
        r.is_ok() ==> final(path)@ == old(path)@,
        r.is_ok() ==> !old(path)@.contains(t),
        r.is_ok() ==> finished_acyclic(final(formulas)@, old(path)@),
        old(formulas)@.len() <= final(formulas)@.len(),
        forall|i: int| 0 <= i < old(formulas)@.len() ==> #[trigger] final(formulas)@[i] == old(formulas)@[i],
        forall|i: int| 0 <= i < old(leaves)@.len() ==> final(leaves)@.contains(#[trigger] old(leaves)@[i]),
        r.is_ok() ==> discovery_inv(d, p, final(formulas)@, final(leaves)@, old(path)@),
        r.is_ok() ==> has_key(final(formulas)@, t) || final(leaves)@.contains(t),
        r.is_ok() ==> all_reachable(d, p, final(formulas)@, final(leaves)@),
        r matches Err(e) ==> (e is ProductionCycle || e is DepthExceeded),
        r matches Err(PlanError::ProductionCycle(x)) ==> on_cycle(d, p, x) && reachable(d, p, x),
        r matches Err(PlanError::DepthExceeded) ==> too_deep(d, p),
    decreases MAX_DEPTH + 1 - old(path)@.len(),
{
    if contains_u64(path, t) {
        proof {
            let w = old(path)@.push(t);
            let j = choose|j: int| 0 <= j < path@.len() && path@[j] == t;
            assert(w[j] == t && w.last() == t);
            lemma_walk_cycle(d, p, w, j);
        }
        return Err(PlanError::ProductionCycle(t));
    }
    if path.len() > MAX_DEPTH {
        proof {
            let w = old(path)@.push(t);
            assert(is_walk(d, p, w) && w.len() > MAX_DEPTH + 1);
            reveal(too_deep);
        }
        return Err(PlanError::DepthExceeded);
    }
    if has_key_exec(formulas, t) || contains_u64(leaves, t) {
        return Ok(());
    }
    proof {
        if !is_target {
            assert(path@[0] == p.target_id);
            if t == p.target_id { assert(path@.contains(t)); }
        }
    }
    if p.builds(d, t) {
        let f = match formula_for(d, t) {
            Some(f) => f,
            None => {
                leaves.push(t);
                proof {
                    let fs = formulas@;
                    let ls = leaves@;
                    assert forall|i: int| 0 <= i < ls.len() implies !has_key(fs, #[trigger] ls[i]) by {
                        if i < ls.len() - 1 { assert(ls[i] == old(leaves)@[i]); }
                    }
                    assert forall|i: int| 0 <= i < ls.len() implies !spec_builds(d, p, #[trigger] ls[i]) || !spec_has_formula(d, ls[i]) by {
                        if i < ls.len() - 1 { assert(ls[i] == old(leaves)@[i]); }
                    }
                    assert forall|i: int, k: int| 0 <= i < fs.len() && !path@.contains(fs[i].0) && 0 <= k < fs[i].1.materials@.len() implies
                        (has_key(fs, #[trigger] fs[i].1.materials@[k].0) && !path@.contains(fs[i].1.materials@[k].0))
                            || ls.contains(fs[i].1.materials@[k].0) by {
                        if old(leaves)@.contains(fs[i].1.materials@[k].0) {
                            let j = choose|j: int| 0 <= j < old(leaves)@.len() && old(leaves)@[j] == fs[i].1.materials@[k].0;
                            assert(ls[j] == old(leaves)@[j]);
                        }
                    }
                    assert(ls[ls.len() - 1] == t);
                    assert forall|i: int| 0 <= i < old(leaves)@.len() implies ls.contains(#[trigger] old(leaves)@[i]) by {
                        assert(ls[i] == old(leaves)@[i]);
                    }
                }
                return Ok(());
            },
        };
        let materials = copy_pairs(&f.materials);
        let ghost f0 = formulas@;
        formulas.push((t, f));
        path.push(t);
        proof {
            let fs = formulas@;
            assert(fs[fs.len() - 1].0 == t);
            assert forall|i: int| 0 <= i < fs.len() implies #[trigger] formula_matches(&fs[i].1, d, fs[i].0) && spec_builds(d, p, fs[i].0) by {
                if i < f0.len() { assert(fs[i] == f0[i]); }
            }
            assert forall|i: int, j: int| 0 <= i < j < fs.len() implies #[trigger] fs[i].0 != #[trigger] fs[j].0 by {
                if j < f0.len() { assert(fs[i] == f0[i] && fs[j] == f0[j]); } else { assert(fs[i] == f0[i]); assert(!has_key(f0, t)); }
            }
            assert forall|x: u64| has_key(f0, x) implies has_key(fs, x) by {
                let i = choose|i: int| 0 <= i < f0.len() && #[trigger] f0[i].0 == x;
                assert(fs[i] == f0[i]);
            }
            assert forall|i: int| 0 <= i < leaves@.len() implies !has_key(fs, #[trigger] leaves@[i]) by {
                if has_key(fs, leaves@[i]) {
                    let j = choose|j: int| 0 <= j < fs.len() && #[trigger] fs[j].0 == leaves@[i];
                    if j < f0.len() { assert(fs[j] == f0[j]); }
                }
            }
            assert forall|i: int| 0 <= i < path@.len() implies has_key(fs, #[trigger] path@[i]) by {
                if i < path@.len() - 1 {
                    assert(has_key(f0, old(path)@[i]));
                } else {
                    assert(fs[fs.len() - 1].0 == t);
                }
            }
            assert forall|i: int, k: int| 0 <= i < fs.len() && !path@.contains(fs[i].0) && 0 <= k < fs[i].1.materials@.len() implies
                (has_key(fs, #[trigger] fs[i].1.materials@[k].0) && !path@.contains(fs[i].1.materials@[k].0))
                    || leaves@.contains(fs[i].1.materials@[k].0) by {
                if i < f0.len() {
                    assert(fs[i] == f0[i]);
                    lemma_contains_push(old(path)@, t, f0[i].0);
                    let m = f0[i].1.materials@[k].0;
                    lemma_contains_push(old(path)@, t, m);
                    if has_key(f0, m) {
                        assert(m != t);
                    }
                } else {
                    assert(path@[path@.len() - 1] == t);
                }
            }
            lemma_acyclic_push(f0, f, old(path)@, t);
        }
        let mut k: usize = 0;
        while k < materials.len()
            invariant
                discovery_inv(d, p, formulas@, leaves@, path@),
                path@ == old(path)@.push(t),
                path@.len() > 0,
                path@[0] == p.target_id,
                path@.len() <= MAX_DEPTH + 1,
                0 <= k <= materials.len(),
                has_key(formulas@, t),
                formulas@.len() >= f0.len() + 1,
                formulas@[f0.len() as int].0 == t,
                materials@ == formulas@[f0.len() as int].1.materials@,
                f0 == old(formulas)@,
                forall|i: int| 0 <= i < f0.len() ==> #[trigger] formulas@[i] == f0[i],
                forall|i: int| 0 <= i < old(leaves)@.len() ==> leaves@.contains(#[trigger] old(leaves)@[i]),
                forall|j: int| 0 <= j < k ==> (has_key(formulas@, #[trigger] materials@[j].0) && !path@.contains(materials@[j].0))
                    || leaves@.contains(materials@[j].0),
                finished_acyclic(formulas@, path@),
                reachable(d, p, t),
                built(d, p, t),
                materials@ == spec_materials(d, t),
                all_reachable(d, p, formulas@, leaves@),
                is_walk(d, p, path@),
                path@.last() == t,
            decreases materials.len() - k,
        {
            let ghost fb = formulas@;
            let ghost lb = leaves@;
            let (m, _) = materials[k];
            proof {
                assert(spec_materials(d, t)[k as int].0 == m);
                lemma_reach_material(d, p, t, m);
                lemma_walk_extend(d, p, path@, m);
            }
            match discover(d, p, m, false, path, formulas, leaves) {
                Err(e) => {
                    proof {
                        assert forall|i: int| 0 <= i < f0.len() implies #[trigger] formulas@[i] == f0[i] by {
                            assert(fb[i] == f0[i]);
                        }
                        assert forall|i: int| 0 <= i < old(leaves)@.len() implies leaves@.contains(#[trigger] old(leaves)@[i]) by {
                            assert(lb.contains(old(leaves)@[i]));
                            let q = choose|q: int| 0 <= q < lb.len() && lb[q] == old(leaves)@[i];
                            assert(leaves@.contains(lb[q]));
                        }
                    }
                    return Err(e);
                },
                Ok(()) => {},
            }
            proof {
                assert forall|j: int| 0 <= j <= k implies (has_key(formulas@, #[trigger] materials@[j].0) && !path@.contains(materials@[j].0))
                    || leaves@.contains(materials@[j].0) by {
                    if j < k {
                        if has_key(fb, materials@[j].0) {
                            let q = choose|q: int| 0 <= q < fb.len() && #[trigger] fb[q].0 == materials@[j].0;
                            assert(formulas@[q] == fb[q]);
                        } else {
                            let q = choose|q: int| 0 <= q < lb.len() && lb[q] == materials@[j].0;
                            assert(leaves@.contains(lb[q]));
                        }
                    }
                }
                assert forall|i: int| 0 <= i < old(leaves)@.len() implies leaves@.contains(#[trigger] old(leaves)@[i]) by {
                    assert(lb.contains(old(leaves)@[i]));
                    let q = choose|q: int| 0 <= q < lb.len() && lb[q] == old(leaves)@[i];
                    assert(leaves@.contains(lb[q]));
                }
                assert forall|i: int| 0 <= i < f0.len() implies #[trigger] formulas@[i] == f0[i] by {
                    assert(fb[i] == f0[i]);
                }
                assert(formulas@[f0.len() as int] == fb[f0.len() as int]);
                assert(has_key(formulas@, t));
            }
            k = k + 1;
        }
        proof {
            let fs = formulas@;
            assert forall|k2: int| 0 <= k2 < fs[f0.len() as int].1.materials@.len() implies
                (has_key(fs, #[trigger] fs[f0.len() as int].1.materials@[k2].0) && !old(path)@.push(t).contains(fs[f0.len() as int].1.materials@[k2].0))
                    || leaves@.contains(fs[f0.len() as int].1.materials@[k2].0) by {
                assert(materials@[k2] == fs[f0.len() as int].1.materials@[k2]);
            }
            lemma_acyclic_pop(d, p, fs, leaves@, old(path)@, f0.len() as int, t);
        }
        path.pop();
        proof {
            assert(path@ =~= old(path)@);
            let fs = formulas@;
            assert forall|i: int, k2: int| 0 <= i < fs.len() && !path@.contains(fs[i].0) && 0 <= k2 < fs[i].1.materials@.len() implies
                (has_key(fs, #[trigger] fs[i].1.materials@[k2].0) && !path@.contains(fs[i].1.materials@[k2].0))
                    || leaves@.contains(fs[i].1.materials@[k2].0) by {
                lemma_contains_push(old(path)@, t, fs[i].1.materials@[k2].0);
                if fs[i].0 == t {
                    assert(i == f0.len()) by {
                        if i != f0.len() { assert(fs[i].0 != fs[f0.len() as int].0); }
                    }
                    assert(materials@[k2] == fs[i].1.materials@[k2]);
                } else {
                    assert(!old(path)@.push(t).contains(fs[i].0)) by {
                        if old(path)@.push(t).contains(fs[i].0) {
                            let j = choose|j: int| 0 <= j < old(path)@.push(t).len() && old(path)@.push(t)[j] == fs[i].0;
                            if j < old(path)@.len() { assert(old(path)@[j] == old(path)@.push(t)[j]); }
                        }
                    }
                }
            }
            assert forall|i: int| 0 <= i < path@.len() implies has_key(fs, #[trigger] path@[i]) by {
                assert(old(path)@.push(t)[i] == path@[i]);
            }
        }
        Ok(())
    } else {
        leaves.push(t);
        proof {
            let fs = formulas@;
            let ls = leaves@;
            assert forall|i: int| 0 <= i < ls.len() implies !has_key(fs, #[trigger] ls[i]) by {
                if i < ls.len() - 1 { assert(ls[i] == old(leaves)@[i]); }
            }
            assert forall|i: int| 0 <= i < ls.len() implies !spec_builds(d, p, #[trigger] ls[i]) || !spec_has_formula(d, ls[i]) by {
                if i < ls.len() - 1 { assert(ls[i] == old(leaves)@[i]); }
            }
            assert forall|i: int, k: int| 0 <= i < fs.len() && !path@.contains(fs[i].0) && 0 <= k < fs[i].1.materials@.len() implies
                (has_key(fs, #[trigger] fs[i].1.materials@[k].0) && !path@.contains(fs[i].1.materials@[k].0))
                    || ls.contains(fs[i].1.materials@[k].0) by {
                if old(leaves)@.contains(fs[i].1.materials@[k].0) {
                    let j = choose|j: int| 0 <= j < old(leaves)@.len() && old(leaves)@[j] == fs[i].1.materials@[k].0;
                    assert(ls[j] == old(leaves)@[j]);
                }
            }
            assert(ls[ls.len() - 1] == t);
            assert forall|i: int| 0 <= i < old(leaves)@.len() implies ls.contains(#[trigger] old(leaves)@[i]) by {
                assert(ls[i] == old(leaves)@[i]);
            }
        }
        Ok(())
    }
}


/// Built node `u` of `f` consumes `x` as a material.
pub open spec fn consumes(f: Seq<(u64, Formula)>, u: int, x: u64) -> bool {
    exists|k: int| 0 <= k < f[u].1.materials@.len() && #[trigger] f[u].1.materials@[k].0 == x
}

/// Built node `j` is ready once `taken` are ordered: no other node still to be
/// ordered consumes it.
pub open spec fn ready(f: Seq<(u64, Formula)>, taken: Seq<usize>, j: int) -> bool {
    forall|u: int| 0 <= u < f.len() && !taken.contains(u as usize) ==> !#[trigger] consumes(f, u, f[j].0)
}

/// `order` lists every built node exactly once, parents before the materials
/// they consume, choosing the lowest Type ID among the ready nodes at each step.
pub open spec fn is_topo_order(f: Seq<(u64, Formula)>, order: Seq<usize>) -> bool {
    &&& order.len() == f.len()
    &&& forall|a: int| 0 <= a < order.len() ==> #[trigger] order[a] < f.len()
    &&& forall|a: int, b: int| 0 <= a < b < order.len() ==> #[trigger] order[a] != #[trigger] order[b]
    &&& forall|a: int, b: int| 0 <= a <= b < order.len() ==> !consumes(f, #[trigger] order[b] as int, f[#[trigger] order[a] as int].0)
    &&& forall|a: int, j: int| 0 <= a < order.len() && 0 <= j < f.len() && !order.take(a).contains(j as usize) && ready(f, order.take(a), j)
            ==> f[#[trigger] order[a] as int].0 <= #[trigger] f[j].0
}

/// The indices below `m`.
pub open spec fn index_range(m: nat) -> Set<usize> {
    Set::new(|j: usize| j < m)
}

proof fn lemma_index_range(m: nat)
    requires
        m <= usize::MAX + 1,
    ensures
        index_range(m).finite(),
        index_range(m).len() == m,
    decreases m,
{
    if m == 0 {
        assert(index_range(m) =~= Set::empty());
    } else {
        lemma_index_range((m - 1) as nat);
        assert(index_range((m - 1) as nat).insert((m - 1) as usize) =~= index_range(m));
    }
}

/// `n` distinct indices below `n` are all of them.
proof fn lemma_indices_cover(s: Seq<usize>, n: nat)
    requires
        s.len() == n,
        n <= usize::MAX + 1,
        forall|a: int| 0 <= a < s.len() ==> #[trigger] s[a] < n,
        forall|a: int, b: int| 0 <= a < b < s.len() ==> #[trigger] s[a] != #[trigger] s[b],
    ensures
        forall|j: usize| j < n ==> s.contains(j),
{
    broadcast use vstd::seq_lib::group_seq_properties;
    broadcast use vstd::set_lib::group_set_properties;
    assert(s.no_duplicates()) by {
        assert forall|a: int, b: int| 0 <= a < s.len() && 0 <= b < s.len() && a != b implies s[a] != s[b] by {
            if a < b { assert(s[a] != s[b]); } else { assert(s[b] != s[a]); }
        }
    }
    s.unique_seq_to_set();
    lemma_index_range(n);
    assert(s.to_set().subset_of(index_range(n))) by {
        assert forall|j: usize| s.to_set().contains(j) implies index_range(n).contains(j) by {
            let a = choose|a: int| 0 <= a < s.len() && s[a] == j;
            assert(s[a] < n);
        }
    }
    vstd::set_lib::lemma_subset_equality(s.to_set(), index_range(n));
    assert forall|j: usize| j < n implies s.contains(j) by {
        assert(index_range(n).contains(j));
        assert(s.to_set().contains(j));
    }
}

/// `c` runs through built nodes of `f`, each consuming the next, and ends
/// where it began.
pub open spec fn is_fcycle(f: Seq<(u64, Formula)>, c: Seq<int>) -> bool {
    &&& c.len() >= 2
    &&& c[0] == c.last()
    &&& forall|i: int| 0 <= i < c.len() ==> 0 <= #[trigger] c[i] < f.len()
    &&& forall|i: int| 0 <= i < c.len() - 1 ==> consumes(f, #[trigger] c[i], f[c[i + 1]].0)
}

/// From `q`, `k` steps up through unordered consumers.
spec fn climb(f: Seq<(u64, Formula)>, taken: Seq<usize>, q: int, k: nat) -> int
    decreases k,
{
    if k == 0 {
        q
    } else {
        let below = climb(f, taken, q, (k - 1) as nat);
        choose|u: int| 0 <= u < f.len() && !taken.contains(u as usize) && #[trigger] consumes(f, u, f[below].0)
    }
}

proof fn lemma_climb(f: Seq<(u64, Formula)>, taken: Seq<usize>, q: int, k: nat)
    requires
        0 <= q < f.len(),
        !taken.contains(q as usize),
        f.len() <= usize::MAX,
        forall|j: int| 0 <= j < f.len() && !taken.contains(j as usize) ==> !ready(f, taken, j),
    ensures
        0 <= climb(f, taken, q, k) < f.len(),
        !taken.contains(climb(f, taken, q, k) as usize),
        k > 0 ==> consumes(f, climb(f, taken, q, k), f[climb(f, taken, q, (k - 1) as nat)].0),
    decreases k,
{
    if k > 0 {
        lemma_climb(f, taken, q, (k - 1) as nat);
        let below = climb(f, taken, q, (k - 1) as nat);
        assert(!ready(f, taken, below));
        assert(exists|u: int| 0 <= u < f.len() && !taken.contains(u as usize) && #[trigger] consumes(f, u, f[below].0));
    }
}

/// `n + 1` indices below `n` repeat one.
proof fn lemma_repeat(s: Seq<usize>, n: nat)
    requires
        s.len() == n + 1,
        n <= usize::MAX,
        forall|a: int| 0 <= a < s.len() ==> #[trigger] s[a] < n,
    ensures
        exists|a: int, b: int| 0 <= a < b < s.len() && #[trigger] s[a] == #[trigger] s[b],
{
    if !(exists|a: int, b: int| 0 <= a < b < s.len() && #[trigger] s[a] == #[trigger] s[b]) {
        let t = s.take(n as int);
        assert forall|a: int| 0 <= a < t.len() implies #[trigger] t[a] < n by {
            assert(t[a] == s[a]);
        }
        assert forall|a: int, b: int| 0 <= a < b < t.len() implies #[trigger] t[a] != #[trigger] t[b] by {
            assert(t[a] == s[a] && t[b] == s[b]);
        }
        lemma_indices_cover(t, n);
        assert(s[n as int] < n);
        assert(t.contains(s[n as int]));
        let a = choose|a: int| 0 <= a < t.len() && t[a] == s[n as int];
        assert(s[a] == s[n as int]);
    }
}

/// Fewer than `n` distinct indices below `n` miss one.
proof fn lemma_index_missing(order: Seq<usize>, n: nat) -> (q: int)
    requires
        order.len() < n,
        n <= usize::MAX,
        forall|a: int| 0 <= a < order.len() ==> #[trigger] order[a] < n,
        forall|a: int, b: int| 0 <= a < b < order.len() ==> #[trigger] order[a] != #[trigger] order[b],
    ensures
        0 <= q < n,
        !order.contains(q as usize),
{
    broadcast use vstd::seq_lib::group_seq_properties;
    broadcast use vstd::set_lib::group_set_properties;
    if exists|j: usize| (j as int) < n && !#[trigger] order.contains(j) {
        (choose|j: usize| (j as int) < n && !#[trigger] order.contains(j)) as int
    } else {
        assert(order.no_duplicates()) by {
            assert forall|a: int, b: int| 0 <= a < order.len() && 0 <= b < order.len() && a != b implies order[a] != order[b] by {
                if a < b { assert(order[a] != order[b]); } else { assert(order[b] != order[a]); }
            }
        }
        order.unique_seq_to_set();
        lemma_index_range(n);
        assert(index_range(n).subset_of(order.to_set())) by {
            assert forall|j: usize| index_range(n).contains(j) implies order.to_set().contains(j) by {
                assert(!((j as int) < n && !order.contains(j)));
            }
        }
        vstd::set_lib::lemma_len_subset(index_range(n), order.to_set());
        0
    }
}

/// When no unordered built node is ready, the built nodes hold a cycle.
#[verifier::spinoff_prover]
proof fn lemma_stuck_cycle(f: Seq<(u64, Formula)>, order: Seq<usize>)
    requires
        order.len() < f.len(),
        f.len() <= usize::MAX,
        forall|a: int| 0 <= a < order.len() ==> #[trigger] order[a] < f.len(),
        forall|a: int, b: int| 0 <= a < b < order.len() ==> #[trigger] order[a] != #[trigger] order[b],
        forall|j: int| 0 <= j < f.len() && !order.contains(j as usize) ==> !ready(f, order, j),
    ensures
        exists|c: Seq<int>| #[trigger] is_fcycle(f, c),
{
    let n = f.len();
    let q0 = lemma_index_missing(order, n);
    assert forall|k: nat| #![trigger climb(f, order, q0, k)] true implies {
        &&& 0 <= climb(f, order, q0, k) < n
        &&& !order.contains(climb(f, order, q0, k) as usize)
        &&& k > 0 ==> consumes(f, climb(f, order, q0, k), f[climb(f, order, q0, (k - 1) as nat)].0)
    } by {
        lemma_climb(f, order, q0, k);
    }
    let s = Seq::new((n + 1) as nat, |k: int| climb(f, order, q0, k as nat) as usize);
    assert forall|a: int| 0 <= a < s.len() implies #[trigger] s[a] < n by {
        assert(0 <= climb(f, order, q0, a as nat) < n);
    }
    lemma_repeat(s, n);
    let (a, b) = choose|a: int, b: int| 0 <= a < b < s.len() && #[trigger] s[a] == #[trigger] s[b];
    assert(climb(f, order, q0, a as nat) == climb(f, order, q0, b as nat)) by {
        assert(0 <= climb(f, order, q0, a as nat) < n);
        assert(0 <= climb(f, order, q0, b as nat) < n);
    }
    let c = Seq::new((b - a + 1) as nat, |i: int| climb(f, order, q0, (b - i) as nat));
    assert forall|i: int| 0 <= i < c.len() implies 0 <= #[trigger] c[i] < f.len() by {
        assert(0 <= climb(f, order, q0, (b - i) as nat) < n);
    }
    assert forall|i: int| 0 <= i < c.len() - 1 implies consumes(f, #[trigger] c[i], f[c[i + 1]].0) by {
        let k = (b - i) as nat;
        assert(k > 0);
        assert(consumes(f, climb(f, order, q0, k), f[climb(f, order, q0, (k - 1) as nat)].0));
        assert(c[i + 1] == climb(f, order, q0, (b - (i + 1)) as nat));
        assert((b - (i + 1)) as nat == (k - 1) as nat);
    }
    assert(c[0] == c.last());
    assert(is_fcycle(f, c));
}

fn consumes_exec(f: &Vec<(u64, Formula)>, u: usize, x: u64) -> (r: bool)
    requires
        u < f.len(),
    ensures
        r == consumes(f@, u as int, x),
{
    let mats = &f[u].1.materials;
    let mut k: usize = 0;
    while k < mats.len()
        invariant
            0 <= k <= mats.len(),
            mats@ == f@[u as int].1.materials@,
            forall|j: int| 0 <= j < k ==> mats@[j].0 != x,
        decreases mats.len() - k,
    {
        if mats[k].0 == x {
            assert(f@[u as int].1.materials@[k as int].0 == x);
            return true;
        }
        k = k + 1;
    }
    false
}

/// Parents-before-materials order over the built nodes, lowest Type ID first
/// among the ready ones, so a shared intermediate's demand is complete before
/// its runs are rounded. `Err` when the built nodes contain a cycle.
pub fn topo_built(f: &Vec<(u64, Formula)>) -> (r: Result<Vec<usize>, PlanError>)
    ensures
        match r {
            Ok(order) => is_topo_order(f@, order@) && forall|j: usize| j < f@.len() ==> order@.contains(j),
            Err(e) => e == PlanError::CycleAmongBuilt && exists|c: Seq<int>| #[trigger] is_fcycle(f@, c),
        },
{
    let n = f.len();
    let mut taken: Vec<bool> = Vec::new();
    let mut i: usize = 0;
    while i < n
        invariant
            0 <= i <= n,
            taken@.len() == i,
            forall|j: int| 0 <= j < i ==> !taken@[j],
        decreases n - i,
    {
        taken.push(false);
        i = i + 1;
    }
    let mut order: Vec<usize> = Vec::new();
    while order.len() < n
        invariant
            n == f@.len(),
            taken@.len() == n,
            order@.len() <= n,
            forall|j: int| 0 <= j < n ==> (taken@[j] <==> order@.contains(j as usize)),
            forall|a: int| 0 <= a < order@.len() ==> #[trigger] order@[a] < n,
            forall|a: int, b: int| 0 <= a < b < order@.len() ==> #[trigger] order@[a] != #[trigger] order@[b],
            forall|a: int, u: int| 0 <= a < order@.len() && 0 <= u < n && !order@.contains(u as usize) ==> !#[trigger] consumes(f@, u, f@[order@[a] as int].0),
            forall|a: int, b: int| 0 <= a <= b < order@.len() ==> !consumes(f@, #[trigger] order@[b] as int, f@[#[trigger] order@[a] as int].0),
            forall|a: int, j: int| 0 <= a < order@.len() && 0 <= j < n && !order@.take(a).contains(j as usize) && ready(f@, order@.take(a), j)
                ==> f@[#[trigger] order@[a] as int].0 <= #[trigger] f@[j].0,
        decreases n - order@.len(),
    {
        // Find the ready node with the lowest Type ID.
        let mut best: Option<usize> = None;
        let mut j: usize = 0;
        while j < n
            invariant
                n == f@.len(),
                taken@.len() == n,
                0 <= j <= n,
                forall|q: int| 0 <= q < n ==> (taken@[q] <==> order@.contains(q as usize)),
                match best {
                    Some(b) => b < j && !taken@[b as int] && ready(f@, order@, b as int)
                        && forall|q: int| 0 <= q < j && !taken@[q] && ready(f@, order@, q) ==> f@[b as int].0 <= f@[q].0,
                    None => forall|q: int| 0 <= q < j ==> taken@[q] || !ready(f@, order@, q),
                },
            decreases n - j,
        {
            if !taken[j] {
                // ready(j): no untaken node consumes it.
                let x = f[j].0;
                let mut u: usize = 0;
                let mut is_ready = true;
                while u < n
                    invariant
                        n == f@.len(),
                        taken@.len() == n,
                        0 <= u <= n,
                        j < n,
                        x == f@[j as int].0,
                        forall|q: int| 0 <= q < n ==> (taken@[q] <==> order@.contains(q as usize)),
                        is_ready == (forall|v: int| 0 <= v < u && !taken@[v] ==> !#[trigger] consumes(f@, v, x)),
                    decreases n - u,
                {
                    if !taken[u] && consumes_exec(f, u, x) {
                        is_ready = false;
                    }
                    u = u + 1;
                }
                proof {
                    assert(is_ready == ready(f@, order@, j as int)) by {
                        if is_ready {
                            assert forall|v: int| 0 <= v < f@.len() && !order@.contains(v as usize) implies !#[trigger] consumes(f@, v, f@[j as int].0) by {
                                assert(!taken@[v]);
                            }
                        } else {
                            let v = choose|v: int| 0 <= v < u && !taken@[v] && #[trigger] consumes(f@, v, x);
                            assert(!order@.contains(v as usize));
                        }
                    }
                }
                if is_ready {
                    let better = match best {
                        None => true,
                        Some(b) => f[j].0 < f[b].0,
                    };
                    if better {
                        best = Some(j);
                    }
                }
            }
            j = j + 1;
        }
        let b = match best {
            None => {
                proof {
                    assert forall|q: int| 0 <= q < f@.len() && !order@.contains(q as usize) implies !ready(f@, order@, q) by {
                        assert(!taken@[q]);
                    }
                    lemma_stuck_cycle(f@, order@);
                }
                return Err(PlanError::CycleAmongBuilt);
            },
            Some(b) => b,
        };
        let ghost old_order = order@;
        taken.set(b, true);
        order.push(b);
        proof {
            assert(order@.take(old_order.len() as int) =~= old_order);
            assert forall|q: int| 0 <= q < n implies (taken@[q] <==> order@.contains(q as usize)) by {
                if q == b as int {
                    assert(order@[old_order.len() as int] == b);
                } else {
                    if order@.contains(q as usize) {
                        let a = choose|a: int| 0 <= a < order@.len() && order@[a] == q as usize;
                        if a < old_order.len() { assert(old_order[a] == q as usize); }
                    }
                    if old_order.contains(q as usize) {
                        let a = choose|a: int| 0 <= a < old_order.len() && old_order[a] == q as usize;
                        assert(order@[a] == q as usize);
                    }
                }
            }
            assert forall|a: int, bb: int| 0 <= a < bb < order@.len() implies #[trigger] order@[a] != #[trigger] order@[bb] by {
                if bb == old_order.len() {
                    assert(old_order.contains(order@[a]));
                    assert(taken@[order@[a] as int] || order@[a] != b);
                }
            }
            assert forall|a: int, u: int| 0 <= a < order@.len() && 0 <= u < n && !order@.contains(u as usize) implies !#[trigger] consumes(f@, u, f@[order@[a] as int].0) by {
                assert(!old_order.contains(u as usize)) by {
                    if old_order.contains(u as usize) {
                        let w = choose|w: int| 0 <= w < old_order.len() && old_order[w] == u as usize;
                        assert(order@[w] == u as usize);
                    }
                }
                if a < old_order.len() {
                    assert(order@[a] == old_order[a]);
                } else {
                    assert(order@[a] == b);
                }
            }
            assert forall|a: int, bb: int| 0 <= a <= bb < order@.len() implies !consumes(f@, #[trigger] order@[bb] as int, f@[#[trigger] order@[a] as int].0) by {
                if bb < old_order.len() {
                    assert(order@[a] == old_order[a] && order@[bb] == old_order[bb]);
                } else if a < old_order.len() {
                    assert(order@[a] == old_order[a]);
                    assert(!old_order.contains(b));
                } else {
                    assert(!old_order.contains(b));
                }
            }
            assert forall|a: int, j2: int| 0 <= a < order@.len() && 0 <= j2 < n && !order@.take(a).contains(j2 as usize) && ready(f@, order@.take(a), j2)
                implies f@[#[trigger] order@[a] as int].0 <= #[trigger] f@[j2].0 by {
                if a < old_order.len() {
                    assert(order@.take(a) =~= old_order.take(a));
                    assert(order@[a] == old_order[a]);
                } else {
                    assert(order@.take(a) =~= old_order);
                    assert(!taken@[j2] || j2 == b as int) by {
                        if j2 != b as int && old_order.contains(j2 as usize) {}
                    }
                }
            }
        }
    }
    proof {
        assert forall|a: int, j: int| 0 <= a < order@.len() && 0 <= j < f@.len() && !order@.take(a).contains(j as usize) && ready(f@, order@.take(a), j)
            implies f@[#[trigger] order@[a] as int].0 <= #[trigger] f@[j].0 by {}
        lemma_indices_cover(order@, n as nat);
    }
    Ok(order)
}


/// The message a refused plan answers with.
pub open spec fn plan_error_text(e: PlanError) -> Seq<char> {
    match e {
        PlanError::NotBuildable => "target has no manufacturing or reaction blueprint"@,
        PlanError::ProductionCycle(t) => "production cycle detected at type "@ + decimal(t as nat),
        PlanError::DepthExceeded => "production tree depth exceeds "@ + decimal(MAX_DEPTH as nat),
        PlanError::CycleAmongBuilt => "production cycle detected among built nodes"@,
        PlanError::QuantityOverflow => "a quantity in the production chain exceeds the range of a u64"@,
    }
}

impl PlanError {
    /// The message a caller sees.
    pub fn message(self) -> (s: String)
        ensures
            s@ == plan_error_text(self),
    {
        let mut s = String::new();
        match self {
            PlanError::NotBuildable => push_str(&mut s, "target has no manufacturing or reaction blueprint"),
            PlanError::ProductionCycle(t) => {
                push_str(&mut s, "production cycle detected at type ");
                push_decimal(&mut s, t);
            },
            PlanError::DepthExceeded => {
                push_str(&mut s, "production tree depth exceeds ");
                push_decimal(&mut s, MAX_DEPTH as u64);
            },
            PlanError::CycleAmongBuilt => push_str(&mut s, "production cycle detected among built nodes"),
            PlanError::QuantityOverflow => push_str(&mut s, "a quantity in the production chain exceeds the range of a u64"),
        }
        s
    }
}

} // verus!
