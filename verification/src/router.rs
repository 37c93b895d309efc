//! The classify-only build router: for a target, what is buildable, which
//! decomposable Origins its build tree holds, the buy-vs-build decision gates
//! per Origin, the skills the blueprint jobs need, and the leaves that stop at a
//! buy because they are out of scope. No quantities: those are the chain's.

use vstd::prelude::*;
use std::collections::{HashMap, HashSet};
use crate::manufacturing::{
    finished_acyclic, on_cycle, too_deep, MAX_DEPTH,
    ChainParams, Formula, IndustryData, MeMode, Origin, PlanError, all_reachable, built, classify_origin,
    discover, discovery_inv, formula_matches, has_key, is_walk, me_mode, name_of_type, name_view,
    origin_key, origin_rank, reachable, skill_pairs, spec_builds, spec_classify_origin,
    spec_decomposable, spec_has_formula, spec_me_mode, spec_name_of_type, spec_recipe,
    is_decomposable,
};
use crate::chain::{
    FlaggedLeaf, SkillReq, chain_skills, discovered, flag_leaves, flag_reason, flagged_has,
    cand_has, ids_increasing, insert_id, is_bought, lemma_leaves_exact, lemma_recorded,
    lemma_mentions_concat, req_pairs, skill_reqs,
};
use crate::skills_merge::{max_level, mentions, merge_skills, skills_sorted, lemma_max_level_concat};

verus! {

broadcast use vstd::std_specs::hash::group_hash_axioms;

/// One Type under a buy-vs-build toggle: building the toggle's Origin builds it.
pub struct GateInput {
    pub type_id: u64,
    pub name: Option<String>,
    pub origin: Origin,
    pub me_mode: Option<MeMode>,
    pub required_skills: Vec<SkillReq>,
}

/// One buy-vs-build toggle: building `build_origin` builds every input.
pub struct DecisionGate {
    pub build_origin: &'static str,
    pub inputs: Vec<GateInput>,
}

/// What the router reports for a target.
pub struct BuildType {
    pub type_id: u64,
    pub name: Option<String>,
    pub buildable: bool,
    pub reason: Option<&'static str>,
    pub me_mode: Option<MeMode>,
    /// The decomposable Origins present anywhere in the build tree.
    pub decomposable_origins: Vec<Origin>,
    /// Per-Origin decision gates.
    pub gates: Vec<DecisionGate>,
    /// The blueprint-job skills of the whole tree, each at its highest level.
    pub required_skills: Vec<SkillReq>,
    /// The leaves that cannot be built within scope.
    pub flagged_leaves: Vec<FlaggedLeaf>,
}

/// `p` is the router's view of the tree under `target`: build everything
/// decomposable, buy nothing by force.
pub open spec fn router_plan(p: &ChainParams, target: u64) -> bool {
    &&& p.target_id == target
    &&& p.build_origins@ == seq![Origin::Manufactured, Origin::ReactionOutput]
    &&& p.buy_type_ids@ == Set::<u64>::empty()
}

/// Why an undecomposable target cannot be routed.
pub open spec fn unbuildable_reason(d: &IndustryData, t: u64) -> Seq<char> {
    if spec_classify_origin(d, t) == Origin::Manufactured {
        "target requires invention (out of scope); buy it or its components"@
    } else {
        "target has no manufacturing or reaction blueprint \u{2014} it is a raw item"@
    }
}

/// The skills a recipe lists for `x`.
pub open spec fn recipe_skills(d: &IndustryData, x: u64) -> Seq<(u64, u8)> {
    skill_pairs(spec_recipe(d, x).unwrap().skills@)
}

/// Some built Type of the tree has Origin `o`.
pub open spec fn origin_present(d: &IndustryData, p: &ChainParams, o: Origin) -> bool {
    exists|x: u64| #[trigger] reachable(d, p, x) && built(d, p, x) && spec_classify_origin(d, x) == o
}

/// `g` gates Origin `o` and lists `inputs` in Type ID order, each described.
pub open spec fn gate_ok(d: &IndustryData, p: &ChainParams, g: &DecisionGate) -> bool {
    &&& g.inputs@.len() > 0
    &&& g.build_origin@ == origin_key(g.inputs@[0].origin)
    &&& forall|a: int, b: int| 0 <= a < b < g.inputs@.len() ==> #[trigger] g.inputs@[a].type_id < #[trigger] g.inputs@[b].type_id
    &&& forall|a: int| 0 <= a < g.inputs@.len() ==> {
        let x = (#[trigger] g.inputs@[a]).type_id;
        &&& reachable(d, p, x) && built(d, p, x) && x != p.target_id
        &&& g.inputs@[a].origin == g.inputs@[0].origin
        &&& g.inputs@[a].origin == spec_classify_origin(d, x)
        &&& name_view(g.inputs@[a].name) == spec_name_of_type(d, x)
        &&& g.inputs@[a].me_mode == spec_me_mode(d, x)
        &&& req_pairs(g.inputs@[a].required_skills@) == recipe_skills(d, x)
        &&& forall|k: int| 0 <= k < g.inputs@[a].required_skills@.len() ==>
            name_view(#[trigger] g.inputs@[a].required_skills@[k].skill_name) == spec_name_of_type(d, g.inputs@[a].required_skills@[k].skill_id)
    }
}

/// Some gate lists Type `x`.
pub open spec fn gated(gates: Seq<DecisionGate>, x: u64) -> bool {
    exists|g: int, a: int| 0 <= g < gates.len() && 0 <= a < gates[g].inputs@.len() && #[trigger] gates[g].inputs@[a].type_id == x
}

/// `b` is what the router reports for a decomposable target on the plan `p`.
pub open spec fn routed(d: &IndustryData, p: &ChainParams, b: &BuildType) -> bool {
    &&& b.type_id == p.target_id
    &&& name_view(b.name) == spec_name_of_type(d, p.target_id)
    &&& b.buildable
    &&& b.reason is None
    &&& b.me_mode == spec_me_mode(d, p.target_id)
    &&& forall|a: int, c: int| 0 <= a < c < b.decomposable_origins@.len()
            ==> origin_rank(#[trigger] b.decomposable_origins@[a]) < origin_rank(#[trigger] b.decomposable_origins@[c])
    &&& forall|o: Origin| #[trigger] b.decomposable_origins@.contains(o) <==> origin_present(d, p, o)
    &&& forall|g1: int, g2: int| 0 <= g1 < g2 < b.gates@.len()
            ==> origin_rank(#[trigger] b.gates@[g1].inputs@[0].origin) < origin_rank(#[trigger] b.gates@[g2].inputs@[0].origin)
    &&& forall|g: int| 0 <= g < b.gates@.len() ==> gate_ok(d, p, #[trigger] &b.gates@[g])
    &&& forall|x: u64| reachable(d, p, x) && built(d, p, x) && x != p.target_id ==> #[trigger] gated(b.gates@, x)
    &&& skills_sorted(req_pairs(b.required_skills@))
    &&& forall|id: u64| #[trigger] mentions(req_pairs(b.required_skills@), id)
            <==> exists|x: u64| reachable(d, p, x) && built(d, p, x) && #[trigger] mentions(recipe_skills(d, x), id)
    &&& forall|id: u64, x: u64| reachable(d, p, x) && built(d, p, x)
            ==> #[trigger] max_level(req_pairs(b.required_skills@), id) >= #[trigger] max_level(recipe_skills(d, x), id)
    &&& forall|id: u64| #[trigger] mentions(req_pairs(b.required_skills@), id)
            ==> exists|x: u64| reachable(d, p, x) && built(d, p, x) && max_level(req_pairs(b.required_skills@), id) == #[trigger] max_level(recipe_skills(d, x), id)
    &&& forall|k: int| 0 <= k < b.required_skills@.len()
            ==> name_view(#[trigger] b.required_skills@[k].skill_name) == spec_name_of_type(d, b.required_skills@[k].skill_id)
    &&& forall|a: int, c: int| 0 <= a < c < b.flagged_leaves@.len()
            ==> #[trigger] b.flagged_leaves@[a].type_id < #[trigger] b.flagged_leaves@[c].type_id
    &&& forall|a: int| 0 <= a < b.flagged_leaves@.len() ==> {
        let l = #[trigger] b.flagged_leaves@[a];
        &&& is_bought(d, p, l.type_id)
        &&& flag_reason(d, l.type_id) == Some(l.reason@)
        &&& l.origin == spec_classify_origin(d, l.type_id)
        &&& name_view(l.name) == spec_name_of_type(d, l.type_id)
    }
    &&& forall|x: u64| is_bought(d, p, x) && #[trigger] flag_reason(d, x) is Some ==> flagged_has(b.flagged_leaves@, x)
}


// ── Lemmas ───────────────────────────────────────────────────────────────────

/// Two router plans for one target see the same tree.
proof fn lemma_router_equiv(d: &IndustryData, p1: &ChainParams, p2: &ChainParams, target: u64)
    requires
        router_plan(p1, target),
        router_plan(p2, target),
    ensures
        forall|x: u64| #[trigger] built(d, p1, x) == built(d, p2, x),
        forall|x: u64| #[trigger] reachable(d, p1, x) == reachable(d, p2, x),
        forall|x: u64| #[trigger] is_bought(d, p1, x) == is_bought(d, p2, x),
        forall|x: u64| #[trigger] on_cycle(d, p1, x) == on_cycle(d, p2, x),
        too_deep(d, p1) == too_deep(d, p2),
{
    assert forall|x: u64| #[trigger] built(d, p1, x) == built(d, p2, x) by {
        assert(p1.build_origins@.contains(spec_classify_origin(d, x)) == p2.build_origins@.contains(spec_classify_origin(d, x)));
    }
    assert forall|c: Seq<u64>| #[trigger] is_walk(d, p1, c) == is_walk(d, p2, c) by {
        if is_walk(d, p1, c) {
            assert forall|i: int| 0 <= i < c.len() - 1 implies built(d, p2, #[trigger] c[i]) && crate::manufacturing::mat_of(d, c[i], c[i + 1]) by {
                assert(built(d, p1, c[i]));
            }
        }
        if is_walk(d, p2, c) {
            assert forall|i: int| 0 <= i < c.len() - 1 implies built(d, p1, #[trigger] c[i]) && crate::manufacturing::mat_of(d, c[i], c[i + 1]) by {
                assert(built(d, p2, c[i]));
            }
        }
    }
    assert forall|x: u64| #[trigger] reachable(d, p1, x) == reachable(d, p2, x) by {
        if reachable(d, p1, x) {
            let c = choose|c: Seq<u64>| #[trigger] is_walk(d, p1, c) && c.last() == x;
            assert(is_walk(d, p2, c));
        }
        if reachable(d, p2, x) {
            let c = choose|c: Seq<u64>| #[trigger] is_walk(d, p2, c) && c.last() == x;
            assert(is_walk(d, p1, c));
        }
    }
    reveal(on_cycle);
    reveal(too_deep);
    assert forall|x: u64| #[trigger] on_cycle(d, p1, x) == on_cycle(d, p2, x) by {
        if on_cycle(d, p1, x) {
            let c = choose|c: Seq<u64>| #[trigger] c.len() >= 2 && c[0] == x && c.last() == x
                && forall|i: int| 0 <= i < c.len() - 1 ==> built(d, p1, #[trigger] c[i]) && crate::manufacturing::mat_of(d, c[i], c[i + 1]);
            assert forall|i: int| 0 <= i < c.len() - 1 implies built(d, p2, #[trigger] c[i]) && crate::manufacturing::mat_of(d, c[i], c[i + 1]) by {
                assert(built(d, p1, c[i]));
            }
        }
        if on_cycle(d, p2, x) {
            let c = choose|c: Seq<u64>| #[trigger] c.len() >= 2 && c[0] == x && c.last() == x
                && forall|i: int| 0 <= i < c.len() - 1 ==> built(d, p2, #[trigger] c[i]) && crate::manufacturing::mat_of(d, c[i], c[i + 1]);
            assert forall|i: int| 0 <= i < c.len() - 1 implies built(d, p1, #[trigger] c[i]) && crate::manufacturing::mat_of(d, c[i], c[i + 1]) by {
                assert(built(d, p2, c[i]));
            }
        }
    }
    if too_deep(d, p1) {
        let c = choose|c: Seq<u64>| #[trigger] is_walk(d, p1, c) && c.len() > MAX_DEPTH + 1;
        assert(is_walk(d, p2, c));
    }
    if too_deep(d, p2) {
        let c = choose|c: Seq<u64>| #[trigger] is_walk(d, p2, c) && c.len() > MAX_DEPTH + 1;
        assert(is_walk(d, p1, c));
    }
}

/// The built nodes discovery recorded are exactly the built Types of the tree.
proof fn lemma_keys_exact(d: &IndustryData, p: &ChainParams, f: Seq<(u64, Formula)>, leaves: Seq<u64>)
    requires
        discovered(d, p, f, leaves),
    ensures
        forall|x: u64| #[trigger] has_key(f, x) <==> (reachable(d, p, x) && built(d, p, x)),
{
    assert(discovery_inv(d, p, f, leaves, Seq::empty()));
    assert forall|x: u64| #[trigger] has_key(f, x) <==> (reachable(d, p, x) && built(d, p, x)) by {
        if has_key(f, x) {
            let j = choose|j: int| 0 <= j < f.len() && #[trigger] f[j].0 == x;
            assert(formula_matches(&f[j].1, d, f[j].0));
            assert(spec_builds(d, p, f[j].0));
            assert(reachable(d, p, f[j].0));
        }
        if reachable(d, p, x) && built(d, p, x) {
            lemma_recorded(d, p, f, leaves, x);
            if leaves.contains(x) {
                let q = choose|q: int| 0 <= q < leaves.len() && leaves[q] == x;
                assert(!spec_builds(d, p, leaves[q]) || !spec_has_formula(d, leaves[q]));
            }
        }
    }
}

/// What the skill lists of `ks` ask for, taken together.
proof fn lemma_chain_skills_members(d: &IndustryData, ks: Seq<u64>, id: u64)
    ensures
        forall|i: int| 0 <= i < ks.len() ==> max_level(chain_skills(d, ks), id) >= max_level(#[trigger] recipe_skills(d, ks[i]), id),
        mentions(chain_skills(d, ks), id) <==> exists|i: int| 0 <= i < ks.len() && mentions(#[trigger] recipe_skills(d, ks[i]), id),
        mentions(chain_skills(d, ks), id) ==> exists|i: int| 0 <= i < ks.len()
            && max_level(chain_skills(d, ks), id) == max_level(#[trigger] recipe_skills(d, ks[i]), id),
    decreases ks.len(),
{
    if ks.len() > 0 {
        let k0 = ks.drop_last();
        let last = recipe_skills(d, ks.last());
        lemma_chain_skills_members(d, k0, id);
        lemma_max_level_concat(chain_skills(d, k0), last, id);
        lemma_mentions_concat(chain_skills(d, k0), last, id);
        assert forall|i: int| 0 <= i < ks.len() implies max_level(chain_skills(d, ks), id) >= max_level(#[trigger] recipe_skills(d, ks[i]), id) by {
            if i < ks.len() - 1 { assert(ks[i] == k0[i]); }
        }
        if mentions(chain_skills(d, ks), id) {
            if mentions(last, id) {
                assert(recipe_skills(d, ks[ks.len() - 1]) == last);
            } else {
                let i = choose|i: int| 0 <= i < k0.len() && mentions(#[trigger] recipe_skills(d, k0[i]), id);
                assert(ks[i] == k0[i]);
            }
            if max_level(chain_skills(d, k0), id) >= max_level(last, id) {
                if mentions(chain_skills(d, k0), id) {
                    let i = choose|i: int| 0 <= i < k0.len() && max_level(chain_skills(d, k0), id) == max_level(#[trigger] recipe_skills(d, k0[i]), id);
                    assert(ks[i] == k0[i]);
                } else {
                    crate::skills_merge::lemma_max_level_absent(chain_skills(d, k0), id);
                    assert(recipe_skills(d, ks[ks.len() - 1]) == last);
                }
            } else {
                assert(recipe_skills(d, ks[ks.len() - 1]) == last);
            }
        }
        if exists|i: int| 0 <= i < ks.len() && mentions(#[trigger] recipe_skills(d, ks[i]), id) {
            let i = choose|i: int| 0 <= i < ks.len() && mentions(#[trigger] recipe_skills(d, ks[i]), id);
            if i < ks.len() - 1 {
                assert(ks[i] == k0[i]);
                assert(mentions(chain_skills(d, k0), id));
            }
        }
    } else {
        assert(!mentions(chain_skills(d, ks), id));
    }
}


// ── Building the report ──────────────────────────────────────────────────────

proof fn lemma_rank_injective(a: Origin, b: Origin)
    ensures
        origin_rank(a) == origin_rank(b) ==> a == b,
{
    match a {
        Origin::Manufactured => match b { _ => {} },
        Origin::ReactionOutput => match b { _ => {} },
        Origin::Mineral => match b { _ => {} },
        Origin::MoonMaterial => match b { _ => {} },
        Origin::PiOutput => match b { _ => {} },
        Origin::RawOther => match b { _ => {} },
    }
}

/// The Origin of some built node of `f` is `o`.
pub open spec fn has_origin(d: &IndustryData, f: Seq<(u64, Formula)>, o: Origin) -> bool {
    exists|i: int| 0 <= i < f.len() && spec_classify_origin(d, #[trigger] f[i].0) == o
}

fn origin_in(d: &IndustryData, f: &Vec<(u64, Formula)>, o: Origin) -> (r: bool)
    ensures
        r == has_origin(d, f@, o),
{
    let mut i: usize = 0;
    while i < f.len()
        invariant
            0 <= i <= f@.len(),
            forall|j: int| 0 <= j < i ==> spec_classify_origin(d, #[trigger] f@[j].0) != o,
        decreases f@.len() - i,
    {
        if classify_origin(d, f[i].0) == o {
            return true;
        }
        i = i + 1;
    }
    false
}

/// The Origins of the built nodes of `f`, in declaration order.
fn present_origins(d: &IndustryData, f: &Vec<(u64, Formula)>) -> (r: Vec<Origin>)
    ensures
        forall|a: int, c: int| 0 <= a < c < r@.len() ==> origin_rank(#[trigger] r@[a]) < origin_rank(#[trigger] r@[c]),
        forall|o: Origin| #[trigger] r@.contains(o) <==> has_origin(d, f@, o),
{
    let all = [Origin::Manufactured, Origin::ReactionOutput, Origin::Mineral, Origin::MoonMaterial, Origin::PiOutput, Origin::RawOther];
    let mut out: Vec<Origin> = Vec::new();
    let mut i: usize = 0;
    while i < 6
        invariant
            0 <= i <= 6,
            all@ == seq![Origin::Manufactured, Origin::ReactionOutput, Origin::Mineral, Origin::MoonMaterial, Origin::PiOutput, Origin::RawOther],
            forall|a: int| 0 <= a < out@.len() ==> origin_rank(#[trigger] out@[a]) < i,
            forall|a: int, c: int| 0 <= a < c < out@.len() ==> origin_rank(#[trigger] out@[a]) < origin_rank(#[trigger] out@[c]),
            forall|o: Origin| #[trigger] out@.contains(o) <==> (has_origin(d, f@, o) && origin_rank(o) < i),
        decreases 6 - i,
    {
        let o = all[i];
        assert(origin_rank(o) == i);
        let ghost before = out@;
        if origin_in(d, f, o) {
            out.push(o);
            proof {
                assert forall|o2: Origin| #[trigger] out@.contains(o2) <==> (has_origin(d, f@, o2) && origin_rank(o2) < i + 1) by {
                    if out@.contains(o2) && o2 != o {
                        let a = choose|a: int| 0 <= a < out@.len() && out@[a] == o2;
                        assert(a < before.len());
                        assert(before[a] == o2);
                        assert(before.contains(o2));
                    }
                    lemma_rank_injective(o2, o);
                    if has_origin(d, f@, o2) && origin_rank(o2) < i + 1 && o2 != o {
                        assert(origin_rank(o2) != i);
                        assert(before.contains(o2));
                        let a = choose|a: int| 0 <= a < before.len() && before[a] == o2;
                        assert(out@[a] == o2);
                    }
                    if o2 == o { assert(out@[before.len() as int] == o); }
                }
            }
        } else {
            proof {
                assert forall|o2: Origin| #[trigger] out@.contains(o2) <==> (has_origin(d, f@, o2) && origin_rank(o2) < i + 1) by {
                    lemma_rank_injective(o2, o);
                }
            }
        }
        i = i + 1;
    }
    proof {
        assert forall|o: Origin| #[trigger] out@.contains(o) <==> has_origin(d, f@, o) by {
            assert(origin_rank(o) < 6);
        }
    }
    out
}

/// The built nodes of `f` other than `target` with Origin `o`, by Type ID.
fn gate_ids(d: &IndustryData, f: &Vec<(u64, Formula)>, o: Origin, target: u64) -> (r: Vec<u64>)
    requires
        forall|i: int, j: int| 0 <= i < j < f@.len() ==> #[trigger] f@[i].0 != #[trigger] f@[j].0,
    ensures
        ids_increasing(r@),
        forall|a: int| 0 <= a < r@.len() ==> has_key(f@, #[trigger] r@[a]) && spec_classify_origin(d, r@[a]) == o && r@[a] != target,
        forall|i: int| 0 <= i < f@.len() && spec_classify_origin(d, f@[i].0) == o && f@[i].0 != target ==> r@.contains(#[trigger] f@[i].0),
{
    let mut out: Vec<u64> = Vec::new();
    let mut i: usize = 0;
    while i < f.len()
        invariant
            0 <= i <= f@.len(),
            forall|a: int, b: int| 0 <= a < b < f@.len() ==> #[trigger] f@[a].0 != #[trigger] f@[b].0,
            ids_increasing(out@),
            forall|a: int| 0 <= a < out@.len() ==> (exists|j: int| 0 <= j < i && #[trigger] f@[j].0 == out@[a]) && spec_classify_origin(d, out@[a]) == o && out@[a] != target,
            forall|j: int| 0 <= j < i && spec_classify_origin(d, f@[j].0) == o && f@[j].0 != target ==> out@.contains(#[trigger] f@[j].0),
        decreases f@.len() - i,
    {
        let x = f[i].0;
        let ghost before = out@;
        if classify_origin(d, x) == o && x != target {
            proof {
                if out@.contains(x) {
                    let a = choose|a: int| 0 <= a < out@.len() && out@[a] == x;
                    let j = choose|j: int| 0 <= j < i && #[trigger] f@[j].0 == out@[a];
                    assert(f@[j].0 == f@[i as int].0);
                }
            }
            insert_id(&mut out, x);
            proof {
                let pos = choose|pos: int| 0 <= pos <= before.len() && out@ == before.insert(pos, x);
                assert forall|a: int| 0 <= a < out@.len() implies (exists|j: int| 0 <= j < i + 1 && #[trigger] f@[j].0 == out@[a]) && spec_classify_origin(d, out@[a]) == o && out@[a] != target by {
                    if a < pos {
                        assert(out@[a] == before[a]);
                        let j = choose|j: int| 0 <= j < i && #[trigger] f@[j].0 == before[a];
                    } else if a == pos {
                        assert(f@[i as int].0 == out@[a]);
                    } else {
                        assert(out@[a] == before[a - 1]);
                        let j = choose|j: int| 0 <= j < i && #[trigger] f@[j].0 == before[a - 1];
                    }
                }
                assert forall|j: int| 0 <= j < i + 1 && spec_classify_origin(d, f@[j].0) == o && f@[j].0 != target implies out@.contains(#[trigger] f@[j].0) by {
                    if j < i {
                        let q = choose|q: int| 0 <= q < before.len() && before[q] == f@[j].0;
                        if q < pos { assert(out@[q] == before[q]); } else { assert(out@[q + 1] == before[q]); }
                    } else {
                        assert(out@[pos] == x);
                    }
                }
            }
        } else {
            proof {
                assert forall|a: int| 0 <= a < out@.len() implies (exists|j: int| 0 <= j < i + 1 && #[trigger] f@[j].0 == out@[a]) && spec_classify_origin(d, out@[a]) == o && out@[a] != target by {
                    let j = choose|j: int| 0 <= j < i && #[trigger] f@[j].0 == out@[a];
                }
            }
        }
        i = i + 1;
    }
    proof {
        assert forall|a: int| 0 <= a < out@.len() implies has_key(f@, #[trigger] out@[a]) by {
            let j = choose|j: int| 0 <= j < f@.len() && #[trigger] f@[j].0 == out@[a];
        }
    }
    out
}

fn find_formula(f: &Vec<(u64, Formula)>, x: u64) -> (i: usize)
    requires
        has_key(f@, x),
    ensures
        i < f@.len(),
        f@[i as int].0 == x,
{
    let mut i: usize = 0;
    while i < f.len()
        invariant
            0 <= i <= f@.len(),
            has_key(f@, x),
            forall|j: int| 0 <= j < i ==> #[trigger] f@[j].0 != x,
        decreases f@.len() - i,
    {
        if f[i].0 == x {
            return i;
        }
        i = i + 1;
    }
    proof {
        let j = choose|j: int| 0 <= j < f@.len() && #[trigger] f@[j].0 == x;
        assert(f@[j].0 != x);
    }
    0
}

/// Describes each of the Types `ids` from its recipe, for a toggle's list.
fn gate_inputs(d: &IndustryData, f: &Vec<(u64, Formula)>, ids: &Vec<u64>) -> (r: Vec<GateInput>)
    requires
        forall|i: int| 0 <= i < f@.len() ==> #[trigger] formula_matches(&f@[i].1, d, f@[i].0),
        forall|a: int| 0 <= a < ids@.len() ==> has_key(f@, #[trigger] ids@[a]),
    ensures
        r@.len() == ids@.len(),
        forall|a: int| 0 <= a < r@.len() ==> {
            let x = ids@[a];
            &&& (#[trigger] r@[a]).type_id == x
            &&& r@[a].origin == spec_classify_origin(d, x)
            &&& name_view(r@[a].name) == spec_name_of_type(d, x)
            &&& r@[a].me_mode == spec_me_mode(d, x)
            &&& req_pairs(r@[a].required_skills@) == recipe_skills(d, x)
            &&& forall|k: int| 0 <= k < r@[a].required_skills@.len() ==>
                name_view(#[trigger] r@[a].required_skills@[k].skill_name) == spec_name_of_type(d, r@[a].required_skills@[k].skill_id)
        },
{
    let mut out: Vec<GateInput> = Vec::new();
    let mut a: usize = 0;
    while a < ids.len()
        invariant
            0 <= a <= ids@.len(),
            forall|i: int| 0 <= i < f@.len() ==> #[trigger] formula_matches(&f@[i].1, d, f@[i].0),
            forall|c: int| 0 <= c < ids@.len() ==> has_key(f@, #[trigger] ids@[c]),
            out@.len() == a,
            forall|c: int| 0 <= c < a ==> {
                let x = ids@[c];
                &&& (#[trigger] out@[c]).type_id == x
                &&& out@[c].origin == spec_classify_origin(d, x)
                &&& name_view(out@[c].name) == spec_name_of_type(d, x)
                &&& out@[c].me_mode == spec_me_mode(d, x)
                &&& req_pairs(out@[c].required_skills@) == recipe_skills(d, x)
                &&& forall|k: int| 0 <= k < out@[c].required_skills@.len() ==>
                    name_view(#[trigger] out@[c].required_skills@[k].skill_name) == spec_name_of_type(d, out@[c].required_skills@[k].skill_id)
            },
        decreases ids@.len() - a,
    {
        let x = ids[a];
        let i = find_formula(f, x);
        assert(formula_matches(&f@[i as int].1, d, f@[i as int].0));
        let skills = skill_reqs(d, &f[i].1.skills);
        out.push(GateInput {
            type_id: x,
            name: name_of_type(d, x),
            origin: classify_origin(d, x),
            me_mode: me_mode(d, x),
            required_skills: skills,
        });
        a = a + 1;
    }
    out
}


/// The Type IDs of the built nodes of `f`, in order.
pub open spec fn keys_of(f: Seq<(u64, Formula)>) -> Seq<u64> {
    f.map_values(|e: (u64, Formula)| e.0)
}

/// `g` gates Origin `o` over some built nodes of `f`, by Type ID.
pub open spec fn gate_from(d: &IndustryData, f: Seq<(u64, Formula)>, target: u64, g: &DecisionGate) -> bool {
    &&& g.inputs@.len() > 0
    &&& g.build_origin@ == origin_key(g.inputs@[0].origin)
    &&& forall|a: int, b: int| 0 <= a < b < g.inputs@.len() ==> #[trigger] g.inputs@[a].type_id < #[trigger] g.inputs@[b].type_id
    &&& forall|a: int| 0 <= a < g.inputs@.len() ==> {
        let x = (#[trigger] g.inputs@[a]).type_id;
        &&& has_key(f, x) && x != target
        &&& g.inputs@[a].origin == g.inputs@[0].origin
        &&& g.inputs@[a].origin == spec_classify_origin(d, x)
        &&& name_view(g.inputs@[a].name) == spec_name_of_type(d, x)
        &&& g.inputs@[a].me_mode == spec_me_mode(d, x)
        &&& req_pairs(g.inputs@[a].required_skills@) == recipe_skills(d, x)
        &&& forall|k: int| 0 <= k < g.inputs@[a].required_skills@.len() ==>
            name_view(#[trigger] g.inputs@[a].required_skills@[k].skill_name) == spec_name_of_type(d, g.inputs@[a].required_skills@[k].skill_id)
    }
}

/// One gate per Origin among the built nodes of `f` other than `target`, in
/// declaration order.
fn router_gates(d: &IndustryData, f: &Vec<(u64, Formula)>, target: u64) -> (r: Vec<DecisionGate>)
    requires
        forall|i: int| 0 <= i < f@.len() ==> #[trigger] formula_matches(&f@[i].1, d, f@[i].0),
        forall|i: int, j: int| 0 <= i < j < f@.len() ==> #[trigger] f@[i].0 != #[trigger] f@[j].0,
    ensures
        forall|g1: int, g2: int| 0 <= g1 < g2 < r@.len()
            ==> origin_rank(#[trigger] r@[g1].inputs@[0].origin) < origin_rank(#[trigger] r@[g2].inputs@[0].origin),
        forall|g: int| 0 <= g < r@.len() ==> gate_from(d, f@, target, #[trigger] &r@[g]),
        forall|x: u64| has_key(f@, x) && x != target ==> #[trigger] gated(r@, x),
{
    let all = [Origin::Manufactured, Origin::ReactionOutput, Origin::Mineral, Origin::MoonMaterial, Origin::PiOutput, Origin::RawOther];
    let mut gates: Vec<DecisionGate> = Vec::new();
    let mut i: usize = 0;
    while i < 6
        invariant
            0 <= i <= 6,
            all@ == seq![Origin::Manufactured, Origin::ReactionOutput, Origin::Mineral, Origin::MoonMaterial, Origin::PiOutput, Origin::RawOther],
            forall|q: int| 0 <= q < f@.len() ==> #[trigger] formula_matches(&f@[q].1, d, f@[q].0),
            forall|q: int, j: int| 0 <= q < j < f@.len() ==> #[trigger] f@[q].0 != #[trigger] f@[j].0,
            forall|g: int| 0 <= g < gates@.len() ==> origin_rank((#[trigger] gates@[g]).inputs@[0].origin) < i,
            forall|g1: int, g2: int| 0 <= g1 < g2 < gates@.len()
                ==> origin_rank(#[trigger] gates@[g1].inputs@[0].origin) < origin_rank(#[trigger] gates@[g2].inputs@[0].origin),
            forall|g: int| 0 <= g < gates@.len() ==> gate_from(d, f@, target, #[trigger] &gates@[g]),
            forall|x: u64| has_key(f@, x) && x != target && origin_rank(spec_classify_origin(d, x)) < i ==> #[trigger] gated(gates@, x),
        decreases 6 - i,
    {
        let o = all[i];
        assert(origin_rank(o) == i);
        let ids = gate_ids(d, f, o, target);
        let ghost before = gates@;
        if ids.len() > 0 {
            let inputs = gate_inputs(d, f, &ids);
            assert(inputs@[0].origin == o);
            gates.push(DecisionGate { build_origin: o.key(), inputs });
            proof {
                let gl = gates@.len() - 1;
                assert forall|g: int| 0 <= g < gates@.len() implies gate_from(d, f@, target, #[trigger] &gates@[g]) by {
                    if g < gl {
                        assert(gates@[g] == before[g]);
                    } else {
                        let gt = gates@[g];
                        assert forall|a: int, b: int| 0 <= a < b < gt.inputs@.len() implies #[trigger] gt.inputs@[a].type_id < #[trigger] gt.inputs@[b].type_id by {
                            assert(gt.inputs@[a].type_id == ids@[a] && gt.inputs@[b].type_id == ids@[b]);
                        }
                    }
                }
                assert forall|g: int| 0 <= g < gates@.len() implies origin_rank((#[trigger] gates@[g]).inputs@[0].origin) < i + 1 by {
                    if g < gl { assert(gates@[g] == before[g]); }
                }
                assert forall|x: u64| has_key(f@, x) && x != target && origin_rank(spec_classify_origin(d, x)) < i + 1 implies #[trigger] gated(gates@, x) by {
                    lemma_rank_injective(spec_classify_origin(d, x), o);
                    if origin_rank(spec_classify_origin(d, x)) < i {
                        assert(gated(before, x));
                        let (g, a) = choose|g: int, a: int| 0 <= g < before.len() && 0 <= a < before[g].inputs@.len() && #[trigger] before[g].inputs@[a].type_id == x;
                        assert(gates@[g] == before[g]);
                        assert(gates@[g].inputs@[a].type_id == x);
                    } else {
                        let j = choose|j: int| 0 <= j < f@.len() && #[trigger] f@[j].0 == x;
                        assert(ids@.contains(f@[j].0));
                        let a = choose|a: int| 0 <= a < ids@.len() && ids@[a] == x;
                        assert(gates@[gl].inputs@[a].type_id == x);
                    }
                }
            }
        } else {
            proof {
                assert forall|x: u64| has_key(f@, x) && x != target && origin_rank(spec_classify_origin(d, x)) < i + 1 implies #[trigger] gated(gates@, x) by {
                    lemma_rank_injective(spec_classify_origin(d, x), o);
                    if origin_rank(spec_classify_origin(d, x)) == i {
                        let j = choose|j: int| 0 <= j < f@.len() && #[trigger] f@[j].0 == x;
                        assert(ids@.contains(f@[j].0));
                    }
                }
            }
        }
        i = i + 1;
    }
    proof {
        assert forall|x: u64| has_key(f@, x) && x != target implies #[trigger] gated(gates@, x) by {
            assert(origin_rank(spec_classify_origin(d, x)) < 6);
        }
    }
    gates
}

/// The skills of every built node of `f`, merged.
fn router_skills(f: &Vec<(u64, Formula)>, Ghost(d): Ghost<&IndustryData>) -> (r: Vec<(u64, u8)>)
    requires
        forall|i: int| 0 <= i < f@.len() ==> #[trigger] formula_matches(&f@[i].1, d, f@[i].0),
    ensures
        skills_sorted(r@),
        forall|id: u64| #[trigger] mentions(r@, id) == mentions(chain_skills(d, keys_of(f@)), id),
        forall|id: u64| #[trigger] max_level(r@, id) == max_level(chain_skills(d, keys_of(f@)), id),
{
    let mut skills: Vec<(u64, u8)> = Vec::new();
    let mut i: usize = 0;
    while i < f.len()
        invariant
            0 <= i <= f@.len(),
            forall|q: int| 0 <= q < f@.len() ==> #[trigger] formula_matches(&f@[q].1, d, f@[q].0),
            skills_sorted(skills@),
            forall|id: u64| #[trigger] mentions(skills@, id) == mentions(chain_skills(d, keys_of(f@).take(i as int)), id),
            forall|id: u64| #[trigger] max_level(skills@, id) == max_level(chain_skills(d, keys_of(f@).take(i as int)), id),
        decreases f@.len() - i,
    {
        assert(formula_matches(&f@[i as int].1, d, f@[i as int].0));
        let sl = f[i].1.skills.as_slice();
        let ghost before = skills@;
        merge_skills(&mut skills, sl);
        proof {
            let ks = keys_of(f@);
            assert(ks.take(i + 1).drop_last() =~= ks.take(i as int));
            assert(ks.take(i + 1).last() == f@[i as int].0);
            assert(sl@ == recipe_skills(d, f@[i as int].0));
            assert forall|id: u64| #[trigger] mentions(skills@, id) == mentions(chain_skills(d, ks.take(i + 1)), id) by {
                lemma_mentions_concat(chain_skills(d, ks.take(i as int)), recipe_skills(d, f@[i as int].0), id);
            }
            assert forall|id: u64| #[trigger] max_level(skills@, id) == max_level(chain_skills(d, ks.take(i + 1)), id) by {
                lemma_max_level_concat(chain_skills(d, ks.take(i as int)), recipe_skills(d, f@[i as int].0), id);
            }
        }
        i = i + 1;
    }
    proof {
        assert(keys_of(f@).take(f@.len() as int) =~= keys_of(f@));
    }
    skills
}


/// The pieces `build_type` assembles make up the routed report.
proof fn lemma_routed(d: &IndustryData, rp: &ChainParams, f: Seq<(u64, Formula)>, leaves: Seq<u64>, cands: Seq<(u64, u64)>, b: &BuildType, sk: Seq<(u64, u8)>)
    requires
        forall|i: int| 0 <= i < f.len() ==> #[trigger] formula_matches(&f[i].1, d, f[i].0),
        forall|x: u64| #[trigger] has_key(f, x) <==> (reachable(d, rp, x) && built(d, rp, x)),
        forall|x: u64| #[trigger] leaves.contains(x) <==> is_bought(d, rp, x),
        b.type_id == rp.target_id,
        name_view(b.name) == spec_name_of_type(d, rp.target_id),
        b.buildable,
        b.reason is None,
        b.me_mode == spec_me_mode(d, rp.target_id),
        forall|a: int, c: int| 0 <= a < c < b.decomposable_origins@.len()
            ==> origin_rank(#[trigger] b.decomposable_origins@[a]) < origin_rank(#[trigger] b.decomposable_origins@[c]),
        forall|o: Origin| #[trigger] b.decomposable_origins@.contains(o) <==> has_origin(d, f, o),
        forall|g1: int, g2: int| 0 <= g1 < g2 < b.gates@.len()
            ==> origin_rank(#[trigger] b.gates@[g1].inputs@[0].origin) < origin_rank(#[trigger] b.gates@[g2].inputs@[0].origin),
        forall|g: int| 0 <= g < b.gates@.len() ==> gate_from(d, f, rp.target_id, #[trigger] &b.gates@[g]),
        forall|x: u64| has_key(f, x) && x != rp.target_id ==> #[trigger] gated(b.gates@, x),
        skills_sorted(sk),
        forall|id: u64| #[trigger] mentions(sk, id) == mentions(chain_skills(d, keys_of(f)), id),
        forall|id: u64| #[trigger] max_level(sk, id) == max_level(chain_skills(d, keys_of(f)), id),
        req_pairs(b.required_skills@) == sk,
        forall|k: int| 0 <= k < b.required_skills@.len() ==> name_view(#[trigger] b.required_skills@[k].skill_name) == spec_name_of_type(d, b.required_skills@[k].skill_id),
        cands.len() == leaves.len(),
        forall|j: int| 0 <= j < cands.len() ==> #[trigger] cands[j] == (leaves[j], 0u64),
        forall|a: int, c: int| 0 <= a < c < b.flagged_leaves@.len() ==> #[trigger] b.flagged_leaves@[a].type_id < #[trigger] b.flagged_leaves@[c].type_id,
        forall|a: int| 0 <= a < b.flagged_leaves@.len() ==> cand_has(cands, (#[trigger] b.flagged_leaves@[a]).type_id)
            && flag_reason(d, b.flagged_leaves@[a].type_id) == Some(b.flagged_leaves@[a].reason@)
            && b.flagged_leaves@[a].origin == spec_classify_origin(d, b.flagged_leaves@[a].type_id)
            && name_view(b.flagged_leaves@[a].name) == spec_name_of_type(d, b.flagged_leaves@[a].type_id),
        forall|j: int| 0 <= j < cands.len() && flag_reason(d, cands[j].0) is Some ==> flagged_has(b.flagged_leaves@, (#[trigger] cands[j]).0),
    ensures
        routed(d, rp, b),
{
    let ks = keys_of(f);
    assert forall|x: u64| #[trigger] has_key(f, x) <==> ks.contains(x) by {
        if has_key(f, x) {
            let j = choose|j: int| 0 <= j < f.len() && #[trigger] f[j].0 == x;
            assert(ks[j] == x);
        }
        if ks.contains(x) {
            let j = choose|j: int| 0 <= j < ks.len() && ks[j] == x;
            assert(f[j].0 == x);
        }
    }
    assert forall|o: Origin| #[trigger] b.decomposable_origins@.contains(o) <==> origin_present(d, rp, o) by {
        if has_origin(d, f, o) {
            let i = choose|i: int| 0 <= i < f.len() && spec_classify_origin(d, #[trigger] f[i].0) == o;
            assert(has_key(f, f[i].0));
            assert(reachable(d, rp, f[i].0));
        }
        if origin_present(d, rp, o) {
            let x = choose|x: u64| #[trigger] reachable(d, rp, x) && built(d, rp, x) && spec_classify_origin(d, x) == o;
            assert(has_key(f, x));
            let i = choose|i: int| 0 <= i < f.len() && #[trigger] f[i].0 == x;
            assert(spec_classify_origin(d, f[i].0) == o);
        }
    }
    assert forall|g: int| 0 <= g < b.gates@.len() implies gate_ok(d, rp, #[trigger] &b.gates@[g]) by {
        assert(gate_from(d, f, rp.target_id, &b.gates@[g]));
        let gt = b.gates@[g];
        assert forall|a: int| 0 <= a < gt.inputs@.len() implies reachable(d, rp, (#[trigger] gt.inputs@[a]).type_id) && built(d, rp, gt.inputs@[a].type_id) by {
            assert(has_key(f, gt.inputs@[a].type_id));
        }
    }
    assert forall|x: u64| reachable(d, rp, x) && built(d, rp, x) && x != rp.target_id implies #[trigger] gated(b.gates@, x) by {
        assert(has_key(f, x));
    }
    assert forall|id: u64| #[trigger] mentions(req_pairs(b.required_skills@), id)
        <==> exists|x: u64| reachable(d, rp, x) && built(d, rp, x) && #[trigger] mentions(recipe_skills(d, x), id) by {
        lemma_chain_skills_members(d, ks, id);
        if mentions(sk, id) {
            let i = choose|i: int| 0 <= i < ks.len() && mentions(#[trigger] recipe_skills(d, ks[i]), id);
            assert(ks.contains(ks[i]));
            assert(has_key(f, ks[i]));
        }
        if exists|x: u64| reachable(d, rp, x) && built(d, rp, x) && #[trigger] mentions(recipe_skills(d, x), id) {
            let x = choose|x: u64| reachable(d, rp, x) && built(d, rp, x) && #[trigger] mentions(recipe_skills(d, x), id);
            assert(has_key(f, x));
            assert(ks.contains(x));
            let i = choose|i: int| 0 <= i < ks.len() && ks[i] == x;
            assert(mentions(recipe_skills(d, ks[i]), id));
        }
    }
    assert forall|id: u64, x: u64| reachable(d, rp, x) && built(d, rp, x)
        implies #[trigger] max_level(req_pairs(b.required_skills@), id) >= #[trigger] max_level(recipe_skills(d, x), id) by {
        lemma_chain_skills_members(d, ks, id);
        assert(has_key(f, x));
        assert(ks.contains(x));
        let i = choose|i: int| 0 <= i < ks.len() && ks[i] == x;
        assert(max_level(chain_skills(d, ks), id) >= max_level(recipe_skills(d, ks[i]), id));
    }
    assert forall|id: u64| #[trigger] mentions(req_pairs(b.required_skills@), id)
        implies exists|x: u64| reachable(d, rp, x) && built(d, rp, x) && max_level(req_pairs(b.required_skills@), id) == #[trigger] max_level(recipe_skills(d, x), id) by {
        lemma_chain_skills_members(d, ks, id);
        let i = choose|i: int| 0 <= i < ks.len() && max_level(chain_skills(d, ks), id) == max_level(#[trigger] recipe_skills(d, ks[i]), id);
        assert(ks.contains(ks[i]));
        assert(has_key(f, ks[i]));
    }
    assert forall|x: u64| #[trigger] cand_has(cands, x) <==> leaves.contains(x) by {
        if cand_has(cands, x) {
            let j = choose|j: int| 0 <= j < cands.len() && #[trigger] cands[j].0 == x;
            assert(leaves[j] == x);
        }
        if leaves.contains(x) {
            let j = choose|j: int| 0 <= j < leaves.len() && leaves[j] == x;
            assert(cands[j].0 == x);
        }
    }
    assert forall|a: int| 0 <= a < b.flagged_leaves@.len() implies is_bought(d, rp, (#[trigger] b.flagged_leaves@[a]).type_id) by {
        assert(cand_has(cands, b.flagged_leaves@[a].type_id));
    }
    assert forall|x: u64| is_bought(d, rp, x) && #[trigger] flag_reason(d, x) is Some implies flagged_has(b.flagged_leaves@, x) by {
        assert(leaves.contains(x));
        let j = choose|j: int| 0 <= j < leaves.len() && leaves[j] == x;
        assert(cands[j].0 == x);
        assert(flagged_has(b.flagged_leaves@, cands[j].0));
    }
}

/// A report routed through one router plan is routed through any other.
proof fn lemma_routed_transfer(d: &IndustryData, p: &ChainParams, rp: &ChainParams, target: u64, b: &BuildType)
    requires
        router_plan(p, target),
        router_plan(rp, target),
        routed(d, rp, b),
        forall|x: u64| #[trigger] built(d, p, x) == built(d, rp, x),
        forall|x: u64| #[trigger] reachable(d, p, x) == reachable(d, rp, x),
        forall|x: u64| #[trigger] is_bought(d, p, x) == is_bought(d, rp, x),
    ensures
        routed(d, p, b),
{
    assert forall|o: Origin| #[trigger] b.decomposable_origins@.contains(o) <==> origin_present(d, p, o) by {
        if origin_present(d, p, o) {
            let x = choose|x: u64| #[trigger] reachable(d, p, x) && built(d, p, x) && spec_classify_origin(d, x) == o;
            assert(reachable(d, rp, x) && built(d, rp, x));
        }
        if origin_present(d, rp, o) {
            let x = choose|x: u64| #[trigger] reachable(d, rp, x) && built(d, rp, x) && spec_classify_origin(d, x) == o;
            assert(reachable(d, p, x) && built(d, p, x));
        }
    }
    assert forall|g: int| 0 <= g < b.gates@.len() implies gate_ok(d, p, #[trigger] &b.gates@[g]) by {
        assert(gate_ok(d, rp, &b.gates@[g]));
        let gt = b.gates@[g];
        assert forall|a: int| 0 <= a < gt.inputs@.len() implies reachable(d, p, (#[trigger] gt.inputs@[a]).type_id) && built(d, p, gt.inputs@[a].type_id) by {
            assert(reachable(d, rp, gt.inputs@[a].type_id));
        }
    }
    assert forall|x: u64| reachable(d, p, x) && built(d, p, x) && x != p.target_id implies #[trigger] gated(b.gates@, x) by {
        assert(reachable(d, rp, x) && built(d, rp, x));
    }
    assert forall|id: u64| #[trigger] mentions(req_pairs(b.required_skills@), id)
        <==> exists|x: u64| reachable(d, p, x) && built(d, p, x) && #[trigger] mentions(recipe_skills(d, x), id) by {
        if exists|x: u64| reachable(d, p, x) && built(d, p, x) && #[trigger] mentions(recipe_skills(d, x), id) {
            let x = choose|x: u64| reachable(d, p, x) && built(d, p, x) && #[trigger] mentions(recipe_skills(d, x), id);
            assert(reachable(d, rp, x) && built(d, rp, x));
        }
        if mentions(req_pairs(b.required_skills@), id) {
            let x = choose|x: u64| reachable(d, rp, x) && built(d, rp, x) && #[trigger] mentions(recipe_skills(d, x), id);
            assert(reachable(d, p, x) && built(d, p, x));
        }
    }
    assert forall|id: u64, x: u64| reachable(d, p, x) && built(d, p, x)
        implies #[trigger] max_level(req_pairs(b.required_skills@), id) >= #[trigger] max_level(recipe_skills(d, x), id) by {
        assert(reachable(d, rp, x) && built(d, rp, x));
    }
    assert forall|id: u64| #[trigger] mentions(req_pairs(b.required_skills@), id)
        implies exists|x: u64| reachable(d, p, x) && built(d, p, x) && max_level(req_pairs(b.required_skills@), id) == #[trigger] max_level(recipe_skills(d, x), id) by {
        let x = choose|x: u64| reachable(d, rp, x) && built(d, rp, x) && max_level(req_pairs(b.required_skills@), id) == #[trigger] max_level(recipe_skills(d, x), id);
        assert(reachable(d, p, x) && built(d, p, x));
    }
    assert forall|a: int| 0 <= a < b.flagged_leaves@.len() implies is_bought(d, p, (#[trigger] b.flagged_leaves@[a]).type_id) by {
        assert(is_bought(d, rp, b.flagged_leaves@[a].type_id));
    }
    assert forall|x: u64| is_bought(d, p, x) && #[trigger] flag_reason(d, x) is Some implies flagged_has(b.flagged_leaves@, x) by {
        assert(is_bought(d, rp, x));
    }
}

/// Routes the build of `target`: for an undecomposable target, why it cannot
/// be built; otherwise the decomposable Origins, decision gates, skills and
/// out-of-scope leaves of its whole tree, read through any plan that builds
/// everything decomposable. A cycle or an over-deep tree stops the walk.
pub fn build_type(d: &IndustryData, target: u64) -> (r: Result<BuildType, PlanError>)
    ensures
        !spec_decomposable(d, target) ==> (r matches Ok(b) && {
            &&& b.type_id == target
            &&& name_view(b.name) == spec_name_of_type(d, target)
            &&& !b.buildable
            &&& b.reason matches Some(s) && s@ == unbuildable_reason(d, target)
            &&& b.me_mode is None
            &&& b.decomposable_origins@.len() == 0
            &&& b.gates@.len() == 0
            &&& b.required_skills@.len() == 0
            &&& b.flagged_leaves@.len() == 0
        }),
        spec_decomposable(d, target) ==> match r {
            Ok(b) => forall|p: ChainParams| router_plan(&p, target) ==> #[trigger] routed(d, &p, &b),
            Err(PlanError::ProductionCycle(x)) => forall|p: ChainParams| router_plan(&p, target)
                ==> #[trigger] on_cycle(d, &p, x) && reachable(d, &p, x),
            Err(PlanError::DepthExceeded) => forall|p: ChainParams| router_plan(&p, target) ==> #[trigger] too_deep(d, &p),
            Err(_) => false,
        },
{
    let name = name_of_type(d, target);
    if !is_decomposable(d, target) {
        let reason = if classify_origin(d, target) == Origin::Manufactured {
            "target requires invention (out of scope); buy it or its components"
        } else {
            "target has no manufacturing or reaction blueprint \u{2014} it is a raw item"
        };
        return Ok(BuildType {
            type_id: target,
            name,
            buildable: false,
            reason: Some(reason),
            me_mode: None,
            decomposable_origins: Vec::new(),
            gates: Vec::new(),
            required_skills: Vec::new(),
            flagged_leaves: Vec::new(),
        });
    }
    let rp = ChainParams {
        target_id: target,
        runs: 1,
        build_origins: vec![Origin::Manufactured, Origin::ReactionOutput],
        buy_type_ids: HashSet::new(),
        me_default: 0,
        me_overrides: HashMap::new(),
    };
    assert(router_plan(&rp, target));
    let mut formulas: Vec<(u64, Formula)> = Vec::new();
    let mut leaves: Vec<u64> = Vec::new();
    let mut path: Vec<u64> = Vec::new();
    proof {
        let c = seq![target];
        assert(is_walk(d, &rp, c) && c.last() == target);
        assert(Seq::<u64>::empty().push(target) =~= c);
        reveal(finished_acyclic);
    }
    match discover(d, &rp, target, true, &mut path, &mut formulas, &mut leaves) {
        Ok(()) => {},
        Err(e) => {
            proof {
                assert forall|p: ChainParams| router_plan(&p, target) implies {
                    &&& (e matches PlanError::ProductionCycle(x) ==> on_cycle(d, &p, x) && reachable(d, &p, x))
                    &&& (e is DepthExceeded ==> too_deep(d, &p))
                } by {
                    lemma_router_equiv(d, &p, &rp, target);
                }
            }
            return Err(e);
        },
    }
    proof {
        lemma_keys_exact(d, &rp, formulas@, leaves@);
        lemma_leaves_exact(d, &rp, formulas@, leaves@);
    }
    let decomposable_origins = present_origins(d, &formulas);
    let gates = router_gates(d, &formulas, target);
    let skills = router_skills(&formulas, Ghost(d));
    let required_skills = skill_reqs(d, &skills);
    let mut cands: Vec<(u64, u64)> = Vec::new();
    let mut q: usize = 0;
    while q < leaves.len()
        invariant
            0 <= q <= leaves@.len(),
            cands@.len() == q,
            forall|j: int| 0 <= j < q ==> #[trigger] cands@[j] == (leaves@[j], 0u64),
        decreases leaves@.len() - q,
    {
        cands.push((leaves[q], 0));
        q = q + 1;
    }
    proof {
        assert forall|a: int, b: int| 0 <= a < b < cands@.len() implies #[trigger] cands@[a].0 != #[trigger] cands@[b].0 by {
            assert(cands@[a].0 == leaves@[a] && cands@[b].0 == leaves@[b]);
        }
    }
    let flagged_leaves = flag_leaves(d, &cands);
    let b = BuildType {
        type_id: target,
        name,
        buildable: true,
        reason: None,
        me_mode: me_mode(d, target),
        decomposable_origins,
        gates,
        required_skills,
        flagged_leaves,
    };
    proof {
        lemma_routed(d, &rp, formulas@, leaves@, cands@, &b, skills@);
        assert forall|p: ChainParams| router_plan(&p, target) implies #[trigger] routed(d, &p, &b) by {
            lemma_router_equiv(d, &p, &rp, target);
            lemma_routed_transfer(d, &p, &rp, target, &b);
        }
    }
    Ok(b)
}

/// A manufactured Type whose MetaGroup is Tech II (2) or Tech III (14) needs
/// invention: the router reports it unbuildable, giving the invention reason.
pub proof fn lemma_invented_target_unbuildable(d: &IndustryData, t: u64)
    requires
        spec_classify_origin(d, t) == Origin::Manufactured,
        d.type_meta_group@.contains_key(t),
        d.type_meta_group@[t] == 2 || d.type_meta_group@[t] == 14,
    ensures
        !spec_decomposable(d, t),
        unbuildable_reason(d, t) == "target requires invention (out of scope); buy it or its components"@,
{
    crate::manufacturing::lemma_invention_boundary(d, t);
}

} // verus!
