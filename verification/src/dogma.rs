//! Dogma: the operators of modifiers, the selector operators of the attribute
//! predicate, who modifies an attribute (one row per owning Type), the levers
//! view of a module, and the attribute projection a caller may ask for.

use vstd::prelude::*;
use std::collections::{HashMap, HashSet};
use crate::manufacturing::{IndustryData, spec_category_of};
use crate::names::str_eq;
use crate::text::{decimal, push_decimal, push_str};

verus! {

broadcast use vstd::std_specs::hash::group_hash_axioms;

/// The name of a dogma modifier `operation` code, as EVE's dogma Operator enum
/// reads it.
pub open spec fn operation_text(op: i64) -> Seq<char> {
    if op == -1 {
        "preAssignment (set, applied first)"@
    } else if op == 0 {
        "preMul (multiply)"@
    } else if op == 1 {
        "preDiv (divide)"@
    } else if op == 2 {
        "modAdd (additive, flat)"@
    } else if op == 3 {
        "modSub (subtractive, flat)"@
    } else if op == 4 {
        "postMul (multiply)"@
    } else if op == 5 {
        "postDiv (divide)"@
    } else if op == 6 {
        "postPercent (+magnitude% per stacking source)"@
    } else if op == 7 {
        "postAssignment (set, applied last)"@
    } else {
        "unknown"@
    }
}

/// Human-readable name for a dogma modifier `operation` code: the magnitude
/// alone is ambiguous (op 6 with 5.0 is +5% per stacking source, not +5 flat).
pub fn operation_label(op: i64) -> (s: &'static str)
    ensures
        s@ == operation_text(op),
{
    if op == -1 {
        "preAssignment (set, applied first)"
    } else if op == 0 {
        "preMul (multiply)"
    } else if op == 1 {
        "preDiv (divide)"
    } else if op == 2 {
        "modAdd (additive, flat)"
    } else if op == 3 {
        "modSub (subtractive, flat)"
    } else if op == 4 {
        "postMul (multiply)"
    } else if op == 5 {
        "postDiv (divide)"
    } else if op == 6 {
        "postPercent (+magnitude% per stacking source)"
    } else if op == 7 {
        "postAssignment (set, applied last)"
    } else {
        "unknown"
    }
}

/// How an attribute predicate narrows the Types holding an ExplicitValue.
#[derive(Clone, Copy, Debug, PartialEq, Eq, Structural)]
pub enum AttributeOp {
    Exists,
    Eq,
    Ne,
    Gt,
    Gte,
    Lt,
    Lte,
    NotDefault,
}

/// The wire name of an operator.
pub open spec fn op_name(op: AttributeOp) -> Seq<char> {
    match op {
        AttributeOp::Exists => "exists"@,
        AttributeOp::Eq => "eq"@,
        AttributeOp::Ne => "ne"@,
        AttributeOp::Gt => "gt"@,
        AttributeOp::Gte => "gte"@,
        AttributeOp::Lt => "lt"@,
        AttributeOp::Lte => "lte"@,
        AttributeOp::NotDefault => "not_default"@,
    }
}

/// The operator a name denotes, if any.
pub open spec fn op_of_name(s: Seq<char>) -> Option<AttributeOp> {
    if s == "exists"@ {
        Some(AttributeOp::Exists)
    } else if s == "eq"@ {
        Some(AttributeOp::Eq)
    } else if s == "ne"@ {
        Some(AttributeOp::Ne)
    } else if s == "gt"@ {
        Some(AttributeOp::Gt)
    } else if s == "gte"@ {
        Some(AttributeOp::Gte)
    } else if s == "lt"@ {
        Some(AttributeOp::Lt)
    } else if s == "lte"@ {
        Some(AttributeOp::Lte)
    } else if s == "not_default"@ {
        Some(AttributeOp::NotDefault)
    } else {
        None
    }
}

/// The refusal of an operator name that is none of the eight.
pub open spec fn unknown_op_text(s: Seq<char>) -> Seq<char> {
    "unknown attribute op '"@ + s + "' (expected exists, eq, ne, gt, gte, lt, lte or not_default)"@
}

impl AttributeOp {
    /// Reads an operator name; absent means `exists`. `Err` carries the refusal
    /// of a name that is none of them, listing the eight.
    pub fn parse(op: Option<&str>) -> (r: Result<AttributeOp, String>)
        ensures
            match op {
                None => r == Ok::<AttributeOp, String>(AttributeOp::Exists),
                Some(s) => match op_of_name(s@) {
                    Some(o) => r == Ok::<AttributeOp, String>(o),
                    None => r matches Err(e) && e@ == unknown_op_text(s@),
                },
            },
    {
        match op {
            None => Ok(AttributeOp::Exists),
            Some(s) => {
                if str_eq(s, "exists") {
                    Ok(AttributeOp::Exists)
                } else if str_eq(s, "eq") {
                    Ok(AttributeOp::Eq)
                } else if str_eq(s, "ne") {
                    Ok(AttributeOp::Ne)
                } else if str_eq(s, "gt") {
                    Ok(AttributeOp::Gt)
                } else if str_eq(s, "gte") {
                    Ok(AttributeOp::Gte)
                } else if str_eq(s, "lt") {
                    Ok(AttributeOp::Lt)
                } else if str_eq(s, "lte") {
                    Ok(AttributeOp::Lte)
                } else if str_eq(s, "not_default") {
                    Ok(AttributeOp::NotDefault)
                } else {
                    let mut e = String::new();
                    push_str(&mut e, "unknown attribute op '");
                    push_str(&mut e, s);
                    push_str(&mut e, "' (expected exists, eq, ne, gt, gte, lt, lte or not_default)");
                    Err(e)
                }
            },
        }
    }

    /// The wire name.
    pub fn as_str(self) -> (s: &'static str)
        ensures
            s@ == op_name(self),
    {
        match self {
            AttributeOp::Exists => "exists",
            AttributeOp::Eq => "eq",
            AttributeOp::Ne => "ne",
            AttributeOp::Gt => "gt",
            AttributeOp::Gte => "gte",
            AttributeOp::Lt => "lt",
            AttributeOp::Lte => "lte",
            AttributeOp::NotDefault => "not_default",
        }
    }

    /// The operator compares against a caller-supplied value.
    pub fn needs_value(self) -> (b: bool)
        ensures
            b == !(self == AttributeOp::Exists || self == AttributeOp::NotDefault),
    {
        !(self == AttributeOp::Exists || self == AttributeOp::NotDefault)
    }
}


/// Why an attribute predicate of the Type selector is refused.
pub enum PredicateError {
    /// The operator is none of the eight; the refusal's text.
    UnknownOp(String),
    /// A comparison operator came without a value.
    MissingValue(AttributeOp),
    /// The attribute has neither a default nor recorded rows, or no `u32` holds it.
    Undeclared(u64),
}

/// The message a refused predicate answers with.
pub open spec fn predicate_error_text(e: PredicateError) -> Seq<char> {
    match e {
        PredicateError::UnknownOp(m) => m@,
        PredicateError::MissingValue(o) => "attribute op '"@ + op_name(o) + "' requires a value"@,
        PredicateError::Undeclared(id) => "attribute "@ + decimal(id as nat) + " not found in dogmaAttributes"@,
    }
}

impl PredicateError {
    /// The message a caller sees.
    pub fn message(self) -> (s: String)
        ensures
            s@ == predicate_error_text(self),
    {
        match self {
            PredicateError::UnknownOp(m) => m,
            PredicateError::MissingValue(o) => {
                let mut s = String::new();
                push_str(&mut s, "attribute op '");
                push_str(&mut s, o.as_str());
                push_str(&mut s, "' requires a value");
                s
            },
            PredicateError::Undeclared(id) => {
                let mut s = String::new();
                push_str(&mut s, "attribute ");
                push_decimal(&mut s, id);
                push_str(&mut s, " not found in dogmaAttributes");
                s
            },
        }
    }
}

/// The operator a predicate names: absent reads as `exists`.
pub open spec fn op_asked(op: Option<Seq<char>>) -> Option<AttributeOp> {
    match op {
        None => Some(AttributeOp::Exists),
        Some(s) => op_of_name(s),
    }
}

/// Checks an attribute predicate `{id, op?, value?}` in the order the selector
/// does: the operator must be one of the eight, a comparison needs a value, and
/// the attribute must fit a `u32` and have a default or recorded rows.
pub fn check_attribute_predicate(op: Option<&str>, has_value: bool, id: u64, has_default: bool, has_rows: bool)
    -> (r: Result<AttributeOp, PredicateError>)
    ensures
        match op_asked(match op { Some(s) => Some(s@), None => None }) {
            None => r matches Err(PredicateError::UnknownOp(m)) && m@ == unknown_op_text(op->0@),
            Some(o) => if !(o == AttributeOp::Exists || o == AttributeOp::NotDefault) && !has_value {
                r == Err::<AttributeOp, PredicateError>(PredicateError::MissingValue(o))
            } else if id > u32::MAX || (!has_default && !has_rows) {
                r == Err::<AttributeOp, PredicateError>(PredicateError::Undeclared(id))
            } else {
                r == Ok::<AttributeOp, PredicateError>(o)
            },
        },
{
    let o = match AttributeOp::parse(op) {
        Ok(o) => o,
        Err(m) => return Err(PredicateError::UnknownOp(m)),
    };
    if o.needs_value() && !has_value {
        return Err(PredicateError::MissingValue(o));
    }
    if id > 4294967295u64 || (!has_default && !has_rows) {
        return Err(PredicateError::Undeclared(id));
    }
    Ok(o)
}

// ── Who modifies an attribute ────────────────────────────────────────────────

/// Most owning Types listed per modifier; a few generic effects are owned by
/// hundreds.
pub const MAX_OWNERS: usize = 25;

/// One entry of a dogma effect's `modifierInfo`, with the effect it came from.
pub struct ModifierRef {
    pub effect_id: u64,
    pub modifying_attribute_id: u64,
    pub modified_attribute_id: u64,
    pub operation: i64,
    pub func: Option<String>,
    pub domain: Option<String>,
    pub skill_type_id: Option<u64>,
}

/// One row of "who modifies this attribute": modifier `modifier` as owned by
/// `source` (none for an effect no Type owns), with the owner count when it is
/// over the cap.
#[derive(Clone, Copy, Debug, PartialEq, Eq, Structural)]
pub struct ModifierRow {
    pub modifier: usize,
    pub source: Option<u64>,
    pub owner_count: Option<usize>,
}

/// The Types owning effect `e`.
pub open spec fn owners_of(e2t: Map<u64, Vec<u64>>, e: u64) -> Seq<u64> {
    if e2t.contains_key(e) { e2t[e]@ } else { Seq::empty() }
}

/// The rows of modifier `i`, which belongs to effect `e`: one per owner up to
/// the cap, or one without a source.
pub open spec fn rows_of_modifier(e2t: Map<u64, Vec<u64>>, i: int, e: u64) -> Seq<ModifierRow> {
    let owners = owners_of(e2t, e);
    if owners.len() == 0 {
        seq![ModifierRow { modifier: i as usize, source: None, owner_count: None }]
    } else {
        let oc: Option<usize> = if owners.len() > MAX_OWNERS { Some(owners.len() as usize) } else { None };
        Seq::new(if owners.len() > MAX_OWNERS { MAX_OWNERS as nat } else { owners.len() },
            |k: int| ModifierRow { modifier: i as usize, source: Some(owners[k]), owner_count: oc })
    }
}

/// The rows of the first `n` modifiers of `effects`.
pub open spec fn modifier_rows(e2t: Map<u64, Vec<u64>>, effects: Seq<u64>, n: nat) -> Seq<ModifierRow>
    decreases n,
{
    if n == 0 { Seq::empty() } else { modifier_rows(e2t, effects, (n - 1) as nat) + rows_of_modifier(e2t, n - 1, effects[n - 1]) }
}

/// The effect of each modifier.
pub open spec fn effects_of(mods: Seq<ModifierRef>) -> Seq<u64> {
    mods.map_values(|m: ModifierRef| m.effect_id)
}

/// The rows naming who modifies an attribute, for the modifiers `mods` that
/// target it: each modifier once per owning Type (at most `MAX_OWNERS`, with the
/// true count when cut), or once without a source when no Type owns its effect.
pub fn modifiers_for_attribute(mods: &Vec<ModifierRef>, effect_to_types: &HashMap<u64, Vec<u64>>) -> (r: Vec<ModifierRow>)
    ensures
        r@ == modifier_rows(effect_to_types@, effects_of(mods@), mods@.len()),
{
    let mut rows: Vec<ModifierRow> = Vec::new();
    let mut i: usize = 0;
    while i < mods.len()
        invariant
            0 <= i <= mods@.len(),
            rows@ == modifier_rows(effect_to_types@, effects_of(mods@), i as nat),
        decreases mods@.len() - i,
    {
        let e = mods[i].effect_id;
        let ghost before = rows@;
        let ghost owners = owners_of(effect_to_types@, e);
        match effect_to_types.get(&e) {
            Some(types) if types.len() > 0 => {
                let n = types.len();
                let oc: Option<usize> = if n > MAX_OWNERS { Some(n) } else { None };
                let take = if n > MAX_OWNERS { MAX_OWNERS } else { n };
                let mut k: usize = 0;
                while k < take
                    invariant
                        0 <= k <= take,
                        take <= types@.len(),
                        types@ == owners,
                        rows@ == before + rows_of_modifier(effect_to_types@, i as int, e).take(k as int),
                        rows_of_modifier(effect_to_types@, i as int, e).len() == take,
                        forall|q: int| 0 <= q < take ==> #[trigger] rows_of_modifier(effect_to_types@, i as int, e)[q]
                            == (ModifierRow { modifier: i, source: Some(types@[q]), owner_count: oc }),
                    decreases take - k,
                {
                    rows.push(ModifierRow { modifier: i, source: Some(types[k]), owner_count: oc });
                    proof {
                        assert(rows_of_modifier(effect_to_types@, i as int, e).take(k + 1)
                            =~= rows_of_modifier(effect_to_types@, i as int, e).take(k as int).push(ModifierRow { modifier: i, source: Some(types@[k as int]), owner_count: oc }));
                    }
                    k = k + 1;
                }
                proof {
                    assert(rows_of_modifier(effect_to_types@, i as int, e).take(take as int) =~= rows_of_modifier(effect_to_types@, i as int, e));
                }
            },
            _ => {
                rows.push(ModifierRow { modifier: i, source: None, owner_count: None });
                proof {
                    assert(rows_of_modifier(effect_to_types@, i as int, e) =~= seq![ModifierRow { modifier: i, source: None, owner_count: None }]);
                }
            },
        }
        proof {
            assert(effects_of(mods@)[i as int] == e);
            assert(rows@ =~= modifier_rows(effect_to_types@, effects_of(mods@), (i + 1) as nat));
        }
        i = i + 1;
    }
    rows
}

/// What an empty "who modifies" answer says: nothing modifies the attribute,
/// yet `count` Types carry it, and where to list them.
pub open spec fn unmodified_text(attr: u64, count: int) -> Seq<char> {
    "Nothing in the SDE modifies attribute "@ + decimal(attr as nat)
        + ", which is not the same as the SDE having no data for it: "@ + decimal(count as nat)
        + " Types record an ExplicitValue for it. MODIFIES and HAS are disjoint questions over disjoint data. To list the Types that carry it, call sde_find_types with attribute {\"id\": "@
        + decimal(attr as nat) + "}."@
}

/// The guidance for an attribute nothing modifies, which `count` Types carry.
pub fn unmodified_guidance(attr: u64, count: usize) -> (s: String)
    ensures
        s@ == unmodified_text(attr, count as int),
{
    let mut s = String::new();
    push_str(&mut s, "Nothing in the SDE modifies attribute ");
    push_decimal(&mut s, attr);
    push_str(&mut s, ", which is not the same as the SDE having no data for it: ");
    push_decimal(&mut s, count as u64);
    push_str(&mut s, " Types record an ExplicitValue for it. MODIFIES and HAS are disjoint questions over disjoint data. To list the Types that carry it, call sde_find_types with attribute {\"id\": ");
    push_decimal(&mut s, attr);
    push_str(&mut s, "}.");
    s
}

/// What a "who modifies this attribute" lookup answers: the modifier rows and,
/// when there are none, how many Types record the attribute and what to do.
pub struct ModifiersAnswer {
    pub rows: Vec<ModifierRow>,
    pub explicit_type_count: Option<usize>,
    pub guidance: Option<String>,
}

/// Who modifies attribute `attr`, whose modifiers are `mods` and which
/// `explicit_count` Types record an ExplicitValue for. An undeclared attribute
/// is refused with its ID; a declared one nothing modifies answers no rows,
/// the count and the guidance pointing at the Type selector.
pub fn attribute_modifiers(declared: bool, mods: &Vec<ModifierRef>, effect_to_types: &HashMap<u64, Vec<u64>>, attr: u64,
    explicit_count: usize) -> (r: Result<ModifiersAnswer, u64>)
    ensures
        r is Err <==> !declared,
        r matches Err(x) ==> x == attr,
        r matches Ok(a) ==> {
            &&& a.rows@ == modifier_rows(effect_to_types@, effects_of(mods@), mods@.len())
            &&& (a.guidance is Some <==> a.rows@.len() == 0)
            &&& (a.explicit_type_count is Some <==> a.rows@.len() == 0)
            &&& a.rows@.len() == 0 ==> a.explicit_type_count == Some(explicit_count)
                && (a.guidance matches Some(g) && g@ == unmodified_text(attr, explicit_count as int))
        },
{
    if !declared {
        return Err(attr);
    }
    let rows = modifiers_for_attribute(mods, effect_to_types);
    if rows.len() == 0 {
        let g = unmodified_guidance(attr, explicit_count);
        Ok(ModifiersAnswer { rows, explicit_type_count: Some(explicit_count), guidance: Some(g) })
    } else {
        Ok(ModifiersAnswer { rows, explicit_type_count: None, guidance: None })
    }
}

// ── Attribute projection ─────────────────────────────────────────────────────

/// The stored value bits an attribute's rows give Type `type_id`: its first
/// row's, or none when no row is for it.
pub fn stored_bits(rows: &Vec<(u64, u32)>, type_id: u64) -> (r: Option<u32>)
    ensures
        match r {
            Some(b) => exists|i: int| 0 <= i < rows@.len() && #[trigger] rows@[i] == (type_id, b)
                && forall|j: int| 0 <= j < i ==> (#[trigger] rows@[j]).0 != type_id,
            None => forall|i: int| 0 <= i < rows@.len() ==> (#[trigger] rows@[i]).0 != type_id,
        },
{
    let mut i: usize = 0;
    while i < rows.len()
        invariant
            0 <= i <= rows@.len(),
            forall|j: int| 0 <= j < i ==> (#[trigger] rows@[j]).0 != type_id,
        decreases rows@.len() - i,
    {
        if rows[i].0 == type_id {
            assert(rows@[i as int] == (type_id, rows@[i as int].1));
            return Some(rows[i].1);
        }
        i = i + 1;
    }
    None
}

/// The first of `ids` that is not a declared attribute a `u32` can hold.
pub open spec fn first_undeclared(declared: Set<u64>, ids: Seq<u64>) -> Option<int> {
    if exists|i: int| 0 <= i < ids.len() && !(#[trigger] declared.contains(ids[i]) && ids[i] <= u32::MAX) {
        Some(choose|i: int| 0 <= i < ids.len() && !(#[trigger] declared.contains(ids[i]) && ids[i] <= u32::MAX)
            && forall|j: int| 0 <= j < i ==> #[trigger] declared.contains(ids[j]) && ids[j] <= u32::MAX)
    } else {
        None
    }
}

/// The attributes a caller asked to project, or `None` when it named none (an
/// empty list counts as none). `Err` names the first ID the SDE declares nowhere.
pub fn resolve_attribute_projection(declared: &HashSet<u64>, ids: Option<&Vec<u64>>) -> (r: Result<Option<Vec<u64>>, u64>)
    ensures
        match ids {
            None => r == Ok::<Option<Vec<u64>>, u64>(None),
            Some(v) => if v@.len() == 0 {
                r == Ok::<Option<Vec<u64>>, u64>(None)
            } else {
                match first_undeclared(declared@, v@) {
                    None => r matches Ok(Some(w)) && w@ == v@,
                    Some(i) => r == Err::<Option<Vec<u64>>, u64>(v@[i]),
                }
            },
        },
{
    let v = match ids {
        None => return Ok(None),
        Some(v) => v,
    };
    if v.len() == 0 {
        return Ok(None);
    }
    let mut out: Vec<u64> = Vec::new();
    let mut i: usize = 0;
    while i < v.len()
        invariant
            0 <= i <= v@.len(),
            ids == Some(v),
            out@ == v@.take(i as int),
            forall|j: int| 0 <= j < i ==> #[trigger] declared@.contains(v@[j]) && v@[j] <= u32::MAX,
        decreases v@.len() - i,
    {
        let id = v[i];
        if !(declared.contains(&id) && id <= 0xffff_ffff) {
            proof {
                assert(first_undeclared(declared@, v@) is Some);
                let c = first_undeclared(declared@, v@)->0;
                assert(0 <= c < v@.len() && !(declared@.contains(v@[c]) && v@[c] <= u32::MAX));
                if c < i { assert(declared@.contains(v@[c]) && v@[c] <= u32::MAX); }
                if c > i {
                    assert(declared@.contains(v@[i as int]) && v@[i as int] <= u32::MAX);
                }
                assert(c == i);
            }
            return Err(id);
        }
        assert(declared@.contains(v@[i as int]) && v@[i as int] <= u32::MAX);
        out.push(id);
        proof {
            assert(v@.take(i + 1) =~= v@.take(i as int).push(id));
            assert forall|j: int| 0 <= j < i + 1 implies #[trigger] declared@.contains(v@[j]) && v@[j] <= u32::MAX by {
                if j < i {
                    assert(declared@.contains(v@[j]));
                }
            }
        }
        i = i + 1;
    }
    proof {
        assert(v@.take(v@.len() as int) =~= v@);
        assert(!exists|j: int| 0 <= j < v@.len() && !(#[trigger] declared@.contains(v@[j]) && v@[j] <= u32::MAX));
    }
    Ok(Some(out))
}


// ── Levers of a module ───────────────────────────────────────────────────────

/// Most modifying sources listed per attribute.
pub const MAX_SOURCES: usize = 12;

/// The Category of skills.
pub const CATEGORY_SKILL: u64 = 16;

/// `x` is a skill: its Group is in the Skill Category.
pub open spec fn is_skill_type(d: &IndustryData, x: u64) -> bool {
    spec_category_of(d, x) == Some(CATEGORY_SKILL)
}

fn skill_type(d: &IndustryData, x: u64) -> (b: bool)
    ensures
        b == is_skill_type(d, x),
{
    match d.type_group.get(&x) {
        Some(g) => match d.group_category.get(g) {
            Some(c) => *c == CATEGORY_SKILL,
            None => false,
        },
        None => false,
    }
}

/// Modifier `m` applies to a module requiring the skills `req`: it names no
/// required skill, or one of them.
pub open spec fn applies(m: ModifierRef, req: Set<u64>) -> bool {
    match m.skill_type_id {
        None => true,
        Some(s) => req.contains(s),
    }
}

/// How many modifier rows the first `n` of `mods` contribute: one per owner of
/// an applicable modifier's effect, or one when no Type owns it.
pub open spec fn lever_count(e2t: Map<u64, Vec<u64>>, mods: Seq<ModifierRef>, req: Set<u64>, n: nat) -> int
    decreases n,
{
    if n == 0 {
        0
    } else {
        lever_count(e2t, mods, req, (n - 1) as nat) + if applies(mods[n - 1], req) {
            if owners_of(e2t, mods[n - 1].effect_id).len() > 0 { owners_of(e2t, mods[n - 1].effect_id).len() as int } else { 1 }
        } else {
            0
        }
    }
}

/// `x` owns the effect of an applicable modifier among `mods`.
pub open spec fn is_source(e2t: Map<u64, Vec<u64>>, mods: Seq<ModifierRef>, req: Set<u64>, x: u64) -> bool {
    exists|i: int| 0 <= i < mods.len() && applies(#[trigger] mods[i], req) && owners_of(e2t, mods[i].effect_id).contains(x)
}

/// The distinct Types that own an applicable modifier's effect.
pub open spec fn source_set(e2t: Map<u64, Vec<u64>>, mods: Seq<ModifierRef>, req: Set<u64>) -> Set<u64> {
    Set::new(|x: u64| is_source(e2t, mods, req, x))
}

/// Sources are listed skills first, then by Type ID.
pub open spec fn source_before(d: &IndustryData, x: u64, y: u64) -> bool {
    (is_skill_type(d, x) && !is_skill_type(d, y)) || (is_skill_type(d, x) == is_skill_type(d, y) && x < y)
}

fn source_before_exec(d: &IndustryData, x: u64, y: u64) -> (b: bool)
    ensures
        b == source_before(d, x, y),
{
    let sx = skill_type(d, x);
    let sy = skill_type(d, y);
    (sx && !sy) || (sx == sy && x < y)
}

fn insert_source(d: &IndustryData, v: &mut Vec<u64>, x: u64)
    requires
        forall|a: int, b: int| 0 <= a < b < old(v)@.len() ==> source_before(d, #[trigger] old(v)@[a], #[trigger] old(v)@[b]),
        !old(v)@.contains(x),
    ensures
        forall|a: int, b: int| 0 <= a < b < final(v)@.len() ==> source_before(d, #[trigger] final(v)@[a], #[trigger] final(v)@[b]),
        forall|y: u64| #[trigger] final(v)@.contains(y) <==> (old(v)@.contains(y) || y == x),
        final(v)@.len() == old(v)@.len() + 1,
{
    let mut pos: usize = 0;
    while pos < v.len() && source_before_exec(d, v[pos], x)
        invariant
            0 <= pos <= v.len(),
            v@ == old(v)@,
            forall|a: int| 0 <= a < pos ==> source_before(d, #[trigger] v@[a], x),
        decreases v.len() - pos,
    {
        pos = pos + 1;
    }
    let ghost before = v@;
    v.insert(pos, x);
    proof {
        let p = pos as int;
        if p < before.len() {
            assert(!source_before(d, before[p], x));
            assert(before[p] != x);
        }
        assert forall|a: int, b: int| 0 <= a < b < v@.len() implies source_before(d, #[trigger] v@[a], #[trigger] v@[b]) by {
            if b < p {
                assert(v@[a] == before[a] && v@[b] == before[b]);
            } else if b == p {
                assert(v@[a] == before[a]);
            } else if a < p {
                assert(v@[a] == before[a] && v@[b] == before[b - 1]);
                if b - 1 > p { assert(source_before(d, before[p], before[b - 1])); }
            } else if a == p {
                assert(v@[b] == before[b - 1]);
                if b - 1 > p { assert(source_before(d, before[p], before[b - 1])); }
            } else {
                assert(v@[a] == before[a - 1] && v@[b] == before[b - 1]);
            }
        }
        assert forall|y: u64| #[trigger] v@.contains(y) <==> (before.contains(y) || y == x) by {
            if v@.contains(y) {
                let a = choose|a: int| 0 <= a < v@.len() && v@[a] == y;
                if a < p { assert(before[a] == y); } else if a > p { assert(before[a - 1] == y); }
            }
            if before.contains(y) {
                let a = choose|a: int| 0 <= a < before.len() && before[a] == y;
                if a < p { assert(v@[a] == y); } else { assert(v@[a + 1] == y); }
            }
            if y == x { assert(v@[p] == x); }
        }
    }
}

/// The levers of one attribute of a module.
pub struct Lever {
    /// Index of the attribute in the module's list.
    pub attribute: usize,
    /// Modifier rows that hit it (one per owner), capped at `usize::MAX`.
    pub modifier_count: usize,
    /// Distinct Types that modify it.
    pub source_count: usize,
    /// The first `MAX_SOURCES` of them, skills first, each flagged as a skill.
    pub sources: Vec<(u64, bool)>,
    /// More sources than listed.
    pub truncated: bool,
}

/// The modifiers of attribute `a`.
pub open spec fn mods_of(am: Map<u64, Vec<ModifierRef>>, a: u64) -> Seq<ModifierRef> {
    if am.contains_key(a) { am[a]@ } else { Seq::empty() }
}

/// `l` describes attribute `a` of a module requiring `req`.
pub open spec fn lever_ok(d: &IndustryData, am: Map<u64, Vec<ModifierRef>>, e2t: Map<u64, Vec<u64>>, req: Set<u64>, a: u64, l: Lever) -> bool {
    let mods = mods_of(am, a);
    let count = lever_count(e2t, mods, req, mods.len());
    &&& l.modifier_count == (if count > usize::MAX { usize::MAX as int } else { count })
    &&& l.source_count == source_set(e2t, mods, req).len()
    &&& forall|i: int, j: int| 0 <= i < j < l.sources@.len() ==> source_before(d, #[trigger] l.sources@[i].0, #[trigger] l.sources@[j].0)
    &&& forall|i: int| 0 <= i < l.sources@.len() ==> is_source(e2t, mods, req, (#[trigger] l.sources@[i]).0)
        && l.sources@[i].1 == is_skill_type(d, l.sources@[i].0)
    &&& l.sources@.len() == (if l.source_count > MAX_SOURCES { MAX_SOURCES as int } else { l.source_count as int })
    &&& l.truncated == (l.source_count > MAX_SOURCES)
    &&& forall|x: u64| is_source(e2t, mods, req, x) && !(exists|i: int| 0 <= i < l.sources@.len() && #[trigger] l.sources@[i].0 == x)
        ==> l.truncated && forall|i: int| 0 <= i < l.sources@.len() ==> source_before(d, #[trigger] l.sources@[i].0, x)
}

/// The levers of one attribute.
fn lever_for(d: &IndustryData, attribute_modifiers: &HashMap<u64, Vec<ModifierRef>>, effect_to_types: &HashMap<u64, Vec<u64>>,
    req: &HashSet<u64>, ai: usize, a: u64) -> (l: Lever)
    ensures
        l.attribute == ai,
        lever_ok(d, attribute_modifiers@, effect_to_types@, req@, a, l),
{
    let empty: Vec<ModifierRef> = Vec::new();
    let mods: &Vec<ModifierRef> = match attribute_modifiers.get(&a) {
        Some(m) => m,
        None => &empty,
    };
    assert(mods@ == mods_of(attribute_modifiers@, a));
    let mut all: Vec<u64> = Vec::new();
    let mut count: usize = 0;
    let mut i: usize = 0;
    while i < mods.len()
        invariant
            0 <= i <= mods@.len(),
            count == (if lever_count(effect_to_types@, mods@, req@, i as nat) > usize::MAX { usize::MAX as int } else { lever_count(effect_to_types@, mods@, req@, i as nat) }),
            lever_count(effect_to_types@, mods@, req@, i as nat) >= 0,
            forall|p: int, q: int| 0 <= p < q < all@.len() ==> source_before(d, #[trigger] all@[p], #[trigger] all@[q]),
            forall|x: u64| #[trigger] all@.contains(x) <==> is_source(effect_to_types@, mods@.take(i as int), req@, x),
        decreases mods@.len() - i,
    {
        let m = &mods[i];
        let ap = match m.skill_type_id {
            None => true,
            Some(s) => req.contains(&s),
        };
        let ghost all0 = all@;
        let ghost mt = mods@.take(i as int);
        let ghost mt1 = mods@.take(i + 1);
        assert(mt1.drop_last() =~= mt);
        if ap {
            match effect_to_types.get(&m.effect_id) {
                Some(owners) if owners.len() > 0 => {
                    count = count.saturating_add(owners.len());
                    let mut k: usize = 0;
                    while k < owners.len()
                        invariant
                            0 <= k <= owners@.len(),
                            owners@ == owners_of(effect_to_types@, mods@[i as int].effect_id),
                            forall|p: int, q: int| 0 <= p < q < all@.len() ==> source_before(d, #[trigger] all@[p], #[trigger] all@[q]),
                            forall|x: u64| #[trigger] all@.contains(x) <==> (all0.contains(x) || owners@.take(k as int).contains(x)),
                        decreases owners@.len() - k,
                    {
                        let x = owners[k];
                        let ghost a1 = all@;
                        if !vec_contains(&all, x) {
                            insert_source(d, &mut all, x);
                        }
                        proof {
                            assert(owners@.take(k + 1) =~= owners@.take(k as int).push(x));
                            assert forall|y: u64| #[trigger] all@.contains(y) <==> (all0.contains(y) || owners@.take(k + 1).contains(y)) by {
                                let t0 = owners@.take(k as int);
                                let t1 = owners@.take(k + 1);
                                if t1.contains(y) && y != x {
                                    let q = choose|q: int| 0 <= q < t1.len() && #[trigger] t1[q] == y;
                                    assert(t0[q] == y);
                                }
                                if t0.contains(y) {
                                    let q = choose|q: int| 0 <= q < t0.len() && #[trigger] t0[q] == y;
                                    assert(t1[q] == y);
                                }
                                if y == x { assert(owners@.take(k + 1)[k as int] == x); }
                            }
                        }
                        k = k + 1;
                    }
                    proof {
                        assert(owners@.take(owners@.len() as int) =~= owners@);
                    }
                },
                _ => {
                    count = count.saturating_add(1);
                },
            }
        }
        proof {
            assert forall|x: u64| #[trigger] all@.contains(x) <==> is_source(effect_to_types@, mt1, req@, x) by {
                if is_source(effect_to_types@, mt1, req@, x) {
                    let q = choose|q: int| 0 <= q < mt1.len() && applies(#[trigger] mt1[q], req@) && owners_of(effect_to_types@, mt1[q].effect_id).contains(x);
                    if q < i { assert(mt[q] == mt1[q]); assert(is_source(effect_to_types@, mt, req@, x)); }
                }
                if is_source(effect_to_types@, mt, req@, x) {
                    let q = choose|q: int| 0 <= q < mt.len() && applies(#[trigger] mt[q], req@) && owners_of(effect_to_types@, mt[q].effect_id).contains(x);
                    assert(mt1[q] == mt[q]);
                }
                if all@.contains(x) && !all0.contains(x) {
                    assert(mt1[i as int] == mods@[i as int]);
                }
            }
        }
        i = i + 1;
    }
    proof {
        assert(mods@.take(mods@.len() as int) =~= mods@);
    }
    let n = all.len();
    let take = if n > MAX_SOURCES { MAX_SOURCES } else { n };
    let mut sources: Vec<(u64, bool)> = Vec::new();
    let mut k: usize = 0;
    while k < take
        invariant
            0 <= k <= take,
            take <= all@.len(),
            sources@.len() == k,
            forall|j: int| 0 <= j < k ==> (#[trigger] sources@[j]).0 == all@[j] && sources@[j].1 == is_skill_type(d, all@[j]),
        decreases take - k,
    {
        let x = all[k];
        sources.push((x, skill_type(d, x)));
        k = k + 1;
    }
    proof {
        let l_sources = sources@;
        assert forall|x: u64| is_source(effect_to_types@, mods@, req@, x) && !(exists|j: int| 0 <= j < l_sources.len() && #[trigger] l_sources[j].0 == x)
            implies n > MAX_SOURCES && forall|j: int| 0 <= j < l_sources.len() ==> source_before(d, #[trigger] l_sources[j].0, x) by {
            assert(all@.contains(x));
            let q = choose|q: int| 0 <= q < all@.len() && all@[q] == x;
            if q < take {
                assert(l_sources[q].0 == x);
            }
            assert forall|j: int| 0 <= j < l_sources.len() implies source_before(d, #[trigger] l_sources[j].0, x) by {
                assert(l_sources[j].0 == all@[j]);
            }
        }
        assert forall|j: int| 0 <= j < l_sources.len() implies is_source(effect_to_types@, mods@, req@, (#[trigger] l_sources[j]).0) by {
            assert(all@.contains(all@[j]));
        }
        lemma_sorted_sources_count(d, all@, source_set(effect_to_types@, mods@, req@));
    }
    Lever { attribute: ai, modifier_count: count, source_count: n, sources, truncated: n > MAX_SOURCES }
}

/// A list strictly ordered by `source_before` that holds exactly the members of
/// `s` has as many entries as `s`.
proof fn lemma_sorted_sources_count(d: &IndustryData, v: Seq<u64>, s: Set<u64>)
    requires
        forall|p: int, q: int| 0 <= p < q < v.len() ==> source_before(d, #[trigger] v[p], #[trigger] v[q]),
        forall|x: u64| #[trigger] v.contains(x) <==> s.contains(x),
    ensures
        s.len() == v.len(),
{
    broadcast use vstd::seq_lib::group_seq_properties;
    assert(v.no_duplicates()) by {
        assert forall|p: int, q: int| 0 <= p < v.len() && 0 <= q < v.len() && p != q implies v[p] != v[q] by {
            if p < q { assert(source_before(d, v[p], v[q])); } else { assert(source_before(d, v[q], v[p])); }
        }
    }
    v.unique_seq_to_set();
    assert(v.to_set() =~= s);
}

fn vec_contains(v: &Vec<u64>, x: u64) -> (r: bool)
    ensures
        r == v@.contains(x),
{
    let mut i: usize = 0;
    while i < v.len()
        invariant
            0 <= i <= v@.len(),
            forall|j: int| 0 <= j < i ==> v@[j] != x,
        decreases v@.len() - i,
    {
        if v[i] == x {
            return true;
        }
        i = i + 1;
    }
    false
}


/// `a` is listed before `b`: more modifiers first, then the module's own order.
pub open spec fn lever_before(a: &Lever, b: &Lever) -> bool {
    a.modifier_count > b.modifier_count || (a.modifier_count == b.modifier_count && a.attribute < b.attribute)
}

/// Some lever is for attribute index `x`.
pub open spec fn has_lever(ls: Seq<Lever>, x: int) -> bool {
    exists|k: int| 0 <= k < ls.len() && #[trigger] ls[k].attribute == x
}

/// The levers view of a module that records the attributes `attrs` and
/// requires the skills `req`: for every attribute, what modifies it (counting
/// only modifiers that apply to this module), most-modified first, ties in the
/// module's order.
pub fn levers_for_type(d: &IndustryData, attribute_modifiers: &HashMap<u64, Vec<ModifierRef>>, effect_to_types: &HashMap<u64, Vec<u64>>,
    req: &HashSet<u64>, attrs: &Vec<u64>) -> (r: Vec<Lever>)
    ensures
        r@.len() == attrs@.len(),
        forall|k: int| 0 <= k < r@.len() ==> (#[trigger] r@[k]).attribute < attrs@.len()
            && lever_ok(d, attribute_modifiers@, effect_to_types@, req@, attrs@[r@[k].attribute as int], r@[k]),
        forall|k: int, j: int| 0 <= k < j < r@.len() ==> lever_before(&#[trigger] r@[k], &#[trigger] r@[j]),
        forall|x: int| 0 <= x < attrs@.len() ==> #[trigger] has_lever(r@, x),
{
    let mut out: Vec<Lever> = Vec::new();
    let mut ai: usize = 0;
    while ai < attrs.len()
        invariant
            0 <= ai <= attrs@.len(),
            out@.len() == ai,
            forall|k: int| 0 <= k < out@.len() ==> (#[trigger] out@[k]).attribute < ai
                && lever_ok(d, attribute_modifiers@, effect_to_types@, req@, attrs@[out@[k].attribute as int], out@[k]),
            forall|k: int, j: int| 0 <= k < j < out@.len() ==> lever_before(&#[trigger] out@[k], &#[trigger] out@[j]),
            forall|x: int| 0 <= x < ai ==> #[trigger] has_lever(out@, x),
        decreases attrs@.len() - ai,
    {
        let l = lever_for(d, attribute_modifiers, effect_to_types, req, ai, attrs[ai]);
        let mut pos: usize = 0;
        while pos < out.len() && out[pos].modifier_count >= l.modifier_count
            invariant
                0 <= pos <= out@.len(),
                forall|k: int| 0 <= k < pos ==> (#[trigger] out@[k]).modifier_count >= l.modifier_count,
            decreases out@.len() - pos,
        {
            pos = pos + 1;
        }
        let ghost before = out@;
        let ghost lg = l;
        assert(forall|x: int| 0 <= x < ai ==> #[trigger] has_lever(before, x));
        out.insert(pos, l);
        proof {
            let p = pos as int;
            assert(out@[p] == lg);
            assert forall|k: int| 0 <= k < out@.len() implies (#[trigger] out@[k]).attribute < ai + 1
                && lever_ok(d, attribute_modifiers@, effect_to_types@, req@, attrs@[out@[k].attribute as int], out@[k]) by {
                if k < p { assert(out@[k] == before[k]); } else if k > p { assert(out@[k] == before[k - 1]); }
            }
            assert forall|k: int, j: int| 0 <= k < j < out@.len() implies lever_before(&#[trigger] out@[k], &#[trigger] out@[j]) by {
                if j < p {
                    assert(out@[k] == before[k] && out@[j] == before[j]);
                } else if j == p {
                    assert(out@[k] == before[k]);
                } else if k < p {
                    assert(out@[k] == before[k] && out@[j] == before[j - 1]);
                } else if k == p {
                    assert(out@[j] == before[j - 1]);
                    assert(before[p].modifier_count < lg.modifier_count);
                    if j - 1 > p { assert(lever_before(&before[p], &before[j - 1])); }
                } else {
                    assert(out@[k] == before[k - 1] && out@[j] == before[j - 1]);
                }
            }
            assert forall|x: int| 0 <= x < ai + 1 implies #[trigger] has_lever(out@, x) by {
                if x < ai {
                    assert(has_lever(before, x));
                    let k = choose|k: int| 0 <= k < before.len() && #[trigger] before[k].attribute == x;
                    if k < p { assert(out@[k] == before[k]); } else { assert(out@[k + 1] == before[k]); }
                } else {
                    assert(out@[p].attribute == x);
                }
            }
        }
        ai = ai + 1;
    }
    out
}


// ── What a Type modifies ─────────────────────────────────────────────────────

/// One `modifierInfo` entry of an effect a Type carries, as far as its
/// outgoing modifiers need it.
#[derive(Clone, Copy, Debug, PartialEq, Eq, Structural)]
pub struct EffectEntry {
    pub modified: Option<u64>,
    pub modifying: Option<u64>,
    pub operation: Option<i64>,
}

/// One outgoing modifier of a Type: the effect, the attribute it modifies, the
/// attribute whose value on this Type is the magnitude, the operation, and
/// which of the Type's own attribute rows gives the magnitude (none when the
/// Type records no value for the modifying attribute).
#[derive(Clone, Copy, Debug, PartialEq, Eq, Structural)]
pub struct TypeModifier {
    pub effect_id: u64,
    pub modified_attribute_id: u64,
    pub modifying_attribute_id: u64,
    pub operation: Option<i64>,
    pub magnitude: Option<usize>,
}

/// The last index at which `ids` holds `x`: the row a lookup keyed by
/// attribute, filled in order, ends up holding.
pub open spec fn last_index(ids: Seq<u64>, x: u64) -> Option<usize>
    decreases ids.len(),
{
    if ids.len() == 0 {
        None
    } else if ids.last() == x {
        Some((ids.len() - 1) as usize)
    } else {
        last_index(ids.drop_last(), x)
    }
}

/// The rows of the first `n` entries of effect `eid`: each entry naming both
/// attributes, in order.
pub open spec fn effect_rows(eid: u64, entries: Seq<EffectEntry>, mags: Seq<u64>, n: nat) -> Seq<TypeModifier>
    decreases n,
{
    if n == 0 {
        Seq::empty()
    } else {
        let prev = effect_rows(eid, entries, mags, (n - 1) as nat);
        let m = entries[n - 1];
        match (m.modified, m.modifying) {
            (Some(a), Some(b)) => prev.push(TypeModifier {
                effect_id: eid,
                modified_attribute_id: a,
                modifying_attribute_id: b,
                operation: m.operation,
                magnitude: last_index(mags, b),
            }),
            _ => prev,
        }
    }
}

/// The rows of the first `n` of a Type's effects. An effect without an integer
/// ID, or whose record could not be had or lists no `modifierInfo`, adds none.
pub open spec fn type_rows(effects: Seq<(Option<u64>, Option<Vec<EffectEntry>>)>, mags: Seq<u64>, n: nat) -> Seq<TypeModifier>
    decreases n,
{
    if n == 0 {
        Seq::empty()
    } else {
        let prev = type_rows(effects, mags, (n - 1) as nat);
        match effects[n - 1] {
            (Some(eid), Some(list)) => prev + effect_rows(eid, list@, mags, list@.len()),
            _ => prev,
        }
    }
}

fn last_index_exec(ids: &Vec<u64>, x: u64) -> (r: Option<usize>)
    ensures
        r == last_index(ids@, x),
{
    let mut i: usize = ids.len();
    assert(ids@.take(i as int) =~= ids@);
    while i > 0
        invariant
            0 <= i <= ids@.len(),
            last_index(ids@, x) == last_index(ids@.take(i as int), x),
        decreases i,
    {
        let ghost t = ids@.take(i as int);
        assert(t.drop_last() =~= ids@.take(i - 1));
        if ids[i - 1] == x {
            return Some(i - 1);
        }
        i = i - 1;
    }
    None
}

/// A Type's outgoing modifiers: for each of its effects, in order, each
/// `modifierInfo` entry naming both attributes, with the Type's own value of
/// the modifying attribute as the magnitude. `effects` pairs each of the
/// Type's `dogmaEffects` entries with its effect's `modifierInfo`, when the
/// entry has an integer ID and the effect's record lists one; `magnitude_ids`
/// are the attribute IDs of the Type's `dogmaAttributes` rows that carry a
/// value, in order.
pub fn modifiers_for_type(effects: &Vec<(Option<u64>, Option<Vec<EffectEntry>>)>, magnitude_ids: &Vec<u64>) -> (r: Vec<TypeModifier>)
    ensures
        r@ == type_rows(effects@, magnitude_ids@, effects@.len()),
{
    let mut out: Vec<TypeModifier> = Vec::new();
    let mut i: usize = 0;
    while i < effects.len()
        invariant
            0 <= i <= effects@.len(),
            out@ == type_rows(effects@, magnitude_ids@, i as nat),
        decreases effects@.len() - i,
    {
        match &effects[i] {
            (Some(eid), Some(list)) => {
                let ghost base = out@;
                let mut k: usize = 0;
                while k < list.len()
                    invariant
                        0 <= k <= list@.len(),
                        out@ == base + effect_rows(*eid, list@, magnitude_ids@, k as nat),
                    decreases list@.len() - k,
                {
                    let m = list[k];
                    match (m.modified, m.modifying) {
                        (Some(a), Some(b)) => {
                            let magnitude = last_index_exec(magnitude_ids, b);
                            out.push(TypeModifier {
                                effect_id: *eid,
                                modified_attribute_id: a,
                                modifying_attribute_id: b,
                                operation: m.operation,
                                magnitude,
                            });
                        },
                        _ => {},
                    }
                    k = k + 1;
                }
            },
            _ => {},
        }
        i = i + 1;
    }
    out
}


// ── Which modifier question a call asks ──────────────────────────────────────

/// The question a modifier lookup answers.
#[derive(Clone, Copy, Debug, PartialEq, Eq, Structural)]
pub enum ModifierDirection {
    /// Every attribute of a Type and what modifies it.
    Levers(u64),
    /// What a Type modifies.
    ByType(u64),
    /// What modifies an attribute.
    ByAttribute(u64),
    /// The modifiers an effect defines.
    ByEffect(u64),
}

/// Why a modifier lookup was refused.
#[derive(Clone, Copy, Debug, PartialEq, Eq, Structural)]
pub enum DirectionError {
    /// `levers` was asked for without a Type alone.
    LeversNeedType,
    /// Not exactly one of the three IDs was given.
    NotExactlyOne,
}

impl DirectionError {
    /// The message a caller sees.
    pub fn message(self) -> (s: &'static str)
        ensures
            s@ == direction_message(self),
    {
        match self {
            DirectionError::LeversNeedType => "levers:true requires type_id (and not attribute_id/effect_id)",
            DirectionError::NotExactlyOne => "Provide exactly one of type_id, attribute_id, or effect_id",
        }
    }
}

/// The message of a refused modifier lookup.
pub open spec fn direction_message(e: DirectionError) -> Seq<char> {
    match e {
        DirectionError::LeversNeedType => "levers:true requires type_id (and not attribute_id/effect_id)"@,
        DirectionError::NotExactlyOne => "Provide exactly one of type_id, attribute_id, or effect_id"@,
    }
}

/// Decides which modifier question a call asks: `levers: true` wants a Type
/// alone; otherwise exactly one of a Type, an attribute or an effect.
pub fn modifier_direction(type_id: Option<u64>, attribute_id: Option<u64>, effect_id: Option<u64>, levers: Option<bool>)
    -> (r: Result<ModifierDirection, DirectionError>)
    ensures
        levers == Some(true) ==> r == match (type_id, attribute_id, effect_id) {
            (Some(t), None, None) => Ok::<ModifierDirection, DirectionError>(ModifierDirection::Levers(t)),
            _ => Err(DirectionError::LeversNeedType),
        },
        levers != Some(true) ==> r == match (type_id, attribute_id, effect_id) {
            (Some(t), None, None) => Ok::<ModifierDirection, DirectionError>(ModifierDirection::ByType(t)),
            (None, Some(a), None) => Ok(ModifierDirection::ByAttribute(a)),
            (None, None, Some(e)) => Ok(ModifierDirection::ByEffect(e)),
            _ => Err(DirectionError::NotExactlyOne),
        },
{
    if levers == Some(true) {
        return match (type_id, attribute_id, effect_id) {
            (Some(t), None, None) => Ok(ModifierDirection::Levers(t)),
            _ => Err(DirectionError::LeversNeedType),
        };
    }
    match (type_id, attribute_id, effect_id) {
        (Some(t), None, None) => Ok(ModifierDirection::ByType(t)),
        (None, Some(a), None) => Ok(ModifierDirection::ByAttribute(a)),
        (None, None, Some(e)) => Ok(ModifierDirection::ByEffect(e)),
        _ => Err(DirectionError::NotExactlyOne),
    }
}


// ── Skill prerequisites in a dogma record ────────────────────────────────────

/// A skill prerequisite a dogma record states: the skill, and the level asked.
#[derive(Clone, Copy, Debug, PartialEq, Eq, Structural)]
pub struct RequiredSkill {
    pub skill_id: u64,
    pub level: u64,
}

/// The attribute holding the level for prerequisite slot `a` (182, 183, 184
/// pair with 277, 278, 279).
pub open spec fn level_slot(a: u64) -> Option<u64> {
    if a == 182 { Some(277) } else if a == 183 { Some(278) } else if a == 184 { Some(279) } else { None }
}

/// The value of the last of the first `n` rows that gives attribute `la` a
/// value.
pub open spec fn last_value(rows: Seq<(Option<u64>, Option<u64>)>, la: u64, n: nat) -> Option<u64>
    decreases n,
{
    if n == 0 {
        None
    } else {
        let r = rows[n - 1];
        if r.0 == Some(la) && r.1 is Some { r.1 } else { last_value(rows, la, (n - 1) as nat) }
    }
}

/// The prerequisite row `r` states among `rows`: a slot attribute with a value
/// names the skill, at the level its paired attribute gives (0 when none does).
pub open spec fn required_skill_of(rows: Seq<(Option<u64>, Option<u64>)>, r: (Option<u64>, Option<u64>)) -> Option<RequiredSkill> {
    match (r.0, r.1) {
        (Some(a), Some(v)) => match level_slot(a) {
            Some(la) => Some(RequiredSkill {
                skill_id: v,
                level: match last_value(rows, la, rows.len()) { Some(l) => l, None => 0 },
            }),
            None => None,
        },
        _ => None,
    }
}

fn last_value_exec(rows: &Vec<(Option<u64>, Option<u64>)>, la: u64) -> (r: Option<u64>)
    ensures
        r == last_value(rows@, la, rows@.len()),
{
    let mut i: usize = rows.len();
    while i > 0
        invariant
            0 <= i <= rows@.len(),
            last_value(rows@, la, rows@.len()) == last_value(rows@, la, i as nat),
        decreases i,
    {
        let r = rows[i - 1];
        if r.0 == Some(la) && r.1.is_some() {
            return r.1;
        }
        i = i - 1;
    }
    None
}

/// The skill prerequisite each dogma attribute row states, in order. A row is
/// its attribute ID and, when it has a value, the value as an integer; rows
/// 182, 183 and 184 name a skill, whose level rows 277, 278 and 279 give
/// (the last such row wins; 0 when there is none).
pub fn required_skills(rows: &Vec<(Option<u64>, Option<u64>)>) -> (r: Vec<Option<RequiredSkill>>)
    ensures
        r@.len() == rows@.len(),
        forall|k: int| 0 <= k < rows@.len() ==> #[trigger] r@[k] == required_skill_of(rows@, rows@[k]),
{
    let mut out: Vec<Option<RequiredSkill>> = Vec::new();
    let mut k: usize = 0;
    while k < rows.len()
        invariant
            0 <= k <= rows@.len(),
            out@.len() == k,
            forall|j: int| 0 <= j < k ==> #[trigger] out@[j] == required_skill_of(rows@, rows@[j]),
        decreases rows@.len() - k,
    {
        let row = rows[k];
        let req = match (row.0, row.1) {
            (Some(a), Some(v)) => {
                let la: Option<u64> = if a == 182 { Some(277) } else if a == 183 { Some(278) } else if a == 184 { Some(279) } else { None };
                match la {
                    Some(la) => {
                        let level = match last_value_exec(rows, la) { Some(l) => l, None => 0 };
                        Some(RequiredSkill { skill_id: v, level })
                    },
                    None => None,
                }
            },
            _ => None,
        };
        out.push(req);
        k = k + 1;
    }
    out
}

} // verus!
