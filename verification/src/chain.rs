//! The quantity engine: from the player's buy-vs-build decisions to a resolved
//! production chain. Every built Type becomes one job whose runs cover, in
//! whole batches, everything the target and the other jobs demand of it; every
//! Type bought lands once in a shopping list grouped by Origin.

use vstd::prelude::*;
use std::collections::{HashMap, HashSet};
use crate::params::ProductionChainParam;
use crate::store::{Activity, activity_name};
use crate::manufacturing::{
    ChainParams, Formula, origin_key, IndustryData, MeMode, Origin, PlanError, built, ceil_div, discover,
    discovery_inv, formula_for, formula_matches, has_key, is_decomposable, is_topo_order,
    is_walk, mat_of, material_with_me, name_of_type, name_view, origin_label, origin_rank,
    reachable, all_reachable, lemma_reach_material, consumes, ready, skill_pairs, spec_activity,
    spec_builds, spec_ceil_div, spec_classify_origin, spec_decomposable, spec_has_formula,
    spec_material_with_me, spec_materials, spec_me_for, spec_me_mode, spec_name_of_type,
    spec_output_per_run, spec_recipe, topo_built, classify_origin, me_mode, MAX_DEPTH, on_cycle, too_deep,
    finished_acyclic, is_fcycle,
};
use crate::skills_merge::{mentions, max_level, skills_sorted, merge_skills};

verus! {

broadcast use vstd::std_specs::hash::group_hash_axioms;

// ── Quantities ───────────────────────────────────────────────────────────────

/// Units one run of `t` yields; 1 for a Type with no recipe.
pub open spec fn spec_opr(d: &IndustryData, t: u64) -> int {
    if spec_has_formula(d, t) {
        spec_output_per_run(spec_recipe(d, t).unwrap().products@, t) as int
    } else {
        1
    }
}

/// Runs of the target asked for; zero is read as one.
pub open spec fn runs_asked(p: &ChainParams) -> int {
    if p.runs == 0 { 1 } else { p.runs as int }
}

/// What the player asks for directly: the target's runs in product units.
pub open spec fn initial_demand(d: &IndustryData, p: &ChainParams, x: u64) -> int {
    if x == p.target_id { runs_asked(p) * spec_opr(d, p.target_id) } else { 0 }
}

/// What `runs` runs of `t` consume through one material entry of `base` units
/// per run: reactions ignore ME, manufacturing applies it.
pub open spec fn material_qty(d: &IndustryData, p: &ChainParams, t: u64, base: int, runs: int) -> int {
    match spec_activity(d, t) {
        Activity::Reaction => base * runs,
        Activity::Manufacturing => spec_material_with_me(base, runs, spec_me_for(p, t)),
    }
}

/// What `runs` runs of `t` consume of `x` through the entries `mats`.
pub open spec fn entries_consume(d: &IndustryData, p: &ChainParams, t: u64, mats: Seq<(u64, u64)>, runs: int, x: u64) -> int
    decreases mats.len(),
{
    if mats.len() == 0 {
        0
    } else {
        entries_consume(d, p, t, mats.drop_last(), runs, x) + if mats.last().0 == x {
            material_qty(d, p, t, mats.last().1 as int, runs)
        } else {
            0
        }
    }
}

/// What a job of `runs` runs of `t` consumes of `x`.
pub open spec fn job_consumes(d: &IndustryData, p: &ChainParams, t: u64, runs: int, x: u64) -> int {
    entries_consume(d, p, t, spec_materials(d, t), runs, x)
}

/// What the first `rs.len()` jobs of `ts`, the `j`-th run `rs[j]` times,
/// consume of `x`.
pub open spec fn jobs_consume(d: &IndustryData, p: &ChainParams, ts: Seq<u64>, rs: Seq<int>, x: u64) -> int
    decreases rs.len(),
{
    if rs.len() == 0 {
        0
    } else {
        jobs_consume(d, p, ts, rs.drop_last(), x) + job_consumes(d, p, ts[rs.len() - 1], rs.last(), x)
    }
}

/// Everything asked of `x`: the target's own demand plus what the jobs consume.
pub open spec fn total_demand(d: &IndustryData, p: &ChainParams, ts: Seq<u64>, rs: Seq<int>, x: u64) -> int {
    initial_demand(d, p, x) + jobs_consume(d, p, ts, rs, x)
}

/// The runs of the first `n` jobs of `ts`: each covers, in whole batches, what
/// the target and the jobs before it demand of its Type.
pub open spec fn plan_runs(d: &IndustryData, p: &ChainParams, ts: Seq<u64>, n: nat) -> Seq<int>
    decreases n,
{
    if n == 0 {
        Seq::empty()
    } else {
        let rs = plan_runs(d, p, ts, (n - 1) as nat);
        rs.push(spec_ceil_div(total_demand(d, p, ts, rs, ts[n - 1]), spec_opr(d, ts[n - 1])))
    }
}

/// `x` is bought: in the target's tree but not built.
pub open spec fn is_bought(d: &IndustryData, p: &ChainParams, x: u64) -> bool {
    reachable(d, p, x) && !built(d, p, x)
}

/// No job consumes its own Type or the Type of a job before it.
pub open spec fn parents_first(d: &IndustryData, ts: Seq<u64>) -> bool {
    forall|a: int, b: int| 0 <= a <= b < ts.len() ==> !mat_of(d, #[trigger] ts[b], #[trigger] ts[a])
}

/// `ts` lists every built Type of the target's tree once, parents before the
/// materials they consume, taking the lowest Type ID among the remaining jobs
/// that no remaining job consumes.
#[verifier::opaque]
pub open spec fn is_plan_order(d: &IndustryData, p: &ChainParams, ts: Seq<u64>) -> bool {
    &&& forall|a: int, b: int| 0 <= a < b < ts.len() ==> #[trigger] ts[a] != #[trigger] ts[b]
    &&& forall|x: u64| ts.contains(x) <==> (reachable(d, p, x) && built(d, p, x))
    &&& parents_first(d, ts)
    &&& forall|a: int, j: int| 0 <= a <= j < ts.len() && (forall|c: int| a <= c < ts.len() ==> !mat_of(d, #[trigger] ts[c], ts[j]))
            ==> #[trigger] ts[a] <= #[trigger] ts[j]
}

/// Some quantity of the plan `ts` does not fit in a `u64`: the demand on a Type
/// of the tree, or a job's total output.
#[verifier::opaque]
pub open spec fn plan_overflows(d: &IndustryData, p: &ChainParams, ts: Seq<u64>) -> bool {
    let rs = plan_runs(d, p, ts, ts.len());
    ||| exists|x: u64| reachable(d, p, x) && #[trigger] total_demand(d, p, ts, rs, x) > u64::MAX
    ||| exists|i: int| 0 <= i < ts.len() && #[trigger] rs[i] * spec_opr(d, ts[i]) > u64::MAX
}

// ── Lemmas on quantities ─────────────────────────────────────────────────────

proof fn lemma_material_qty_nonneg(d: &IndustryData, p: &ChainParams, t: u64, base: int, runs: int)
    requires
        base >= 0,
        runs >= 0,
    ensures
        material_qty(d, p, t, base, runs) >= 0,
{
    assert(base * runs >= 0) by (nonlinear_arith) requires base >= 0, runs >= 0;
}

proof fn lemma_entries_nonneg_mono(d: &IndustryData, p: &ChainParams, t: u64, mats: Seq<(u64, u64)>, k: int, runs: int, x: u64)
    requires
        0 <= k <= mats.len(),
        runs >= 0,
    ensures
        entries_consume(d, p, t, mats.take(k), runs, x) >= 0,
        entries_consume(d, p, t, mats.take(k), runs, x) <= entries_consume(d, p, t, mats, runs, x),
    decreases mats.len(),
{
    if mats.len() == 0 {
        assert(mats.take(k) =~= mats);
    } else if k == mats.len() {
        assert(mats.take(k) =~= mats);
        lemma_entries_nonneg_mono(d, p, t, mats.drop_last(), k - 1, runs, x);
        assert(mats.drop_last().take(k - 1) =~= mats.drop_last());
        lemma_material_qty_nonneg(d, p, t, mats.last().1 as int, runs);
    } else {
        lemma_entries_nonneg_mono(d, p, t, mats.drop_last(), k, runs, x);
        assert(mats.drop_last().take(k) =~= mats.take(k));
        lemma_entries_nonneg_mono(d, p, t, mats.drop_last(), mats.len() - 1, runs, x);
        assert(mats.drop_last().take(mats.len() - 1) =~= mats.drop_last());
        lemma_material_qty_nonneg(d, p, t, mats.last().1 as int, runs);
    }
}

/// A job consumes nothing of a Type its recipe does not list.
proof fn lemma_entries_absent(d: &IndustryData, p: &ChainParams, t: u64, mats: Seq<(u64, u64)>, runs: int, x: u64)
    requires
        forall|k: int| 0 <= k < mats.len() ==> #[trigger] mats[k].0 != x,
    ensures
        entries_consume(d, p, t, mats, runs, x) == 0,
    decreases mats.len(),
{
    if mats.len() > 0 {
        assert(mats[mats.len() - 1].0 != x);
        lemma_entries_absent(d, p, t, mats.drop_last(), runs, x);
    }
}

proof fn lemma_plan_runs_len_nonneg(d: &IndustryData, p: &ChainParams, ts: Seq<u64>, n: nat)
    requires
        n <= ts.len(),
    ensures
        plan_runs(d, p, ts, n).len() == n,
        forall|i: int| 0 <= i < n ==> #[trigger] plan_runs(d, p, ts, n)[i] >= 0,
    decreases n,
{
    if n > 0 {
        lemma_plan_runs_len_nonneg(d, p, ts, (n - 1) as nat);
        let rs = plan_runs(d, p, ts, (n - 1) as nat);
        lemma_jobs_nonneg(d, p, ts, rs, ts[n - 1]);
        lemma_opr_pos(d, ts[n - 1]);
        let tot = total_demand(d, p, ts, rs, ts[n - 1]);
        let o = spec_opr(d, ts[n - 1]);
        assert(spec_ceil_div(tot, o) >= 0) by (nonlinear_arith) requires tot >= 0, o >= 1;
    }
}

proof fn lemma_opr_pos(d: &IndustryData, t: u64)
    ensures
        spec_opr(d, t) >= 1,
{
}

proof fn lemma_jobs_nonneg(d: &IndustryData, p: &ChainParams, ts: Seq<u64>, rs: Seq<int>, x: u64)
    requires
        forall|i: int| 0 <= i < rs.len() ==> #[trigger] rs[i] >= 0,
    ensures
        jobs_consume(d, p, ts, rs, x) >= 0,
        initial_demand(d, p, x) >= 0,
    decreases rs.len(),
{
    if rs.len() > 0 {
        lemma_jobs_nonneg(d, p, ts, rs.drop_last(), x);
        let m = spec_materials(d, ts[rs.len() - 1]);
        lemma_entries_nonneg_mono(d, p, ts[rs.len() - 1], m, m.len() as int, rs.last(), x);
        assert(m.take(m.len() as int) =~= m);
    }
    lemma_opr_pos(d, x);
    if x == p.target_id {
        let a = runs_asked(p);
        let o = spec_opr(d, p.target_id);
        assert(a * o >= 0) by (nonlinear_arith) requires a >= 1, o >= 1;
    }
}

/// Later runs do not change earlier ones.
proof fn lemma_plan_runs_prefix(d: &IndustryData, p: &ChainParams, ts: Seq<u64>, i: nat, n: nat)
    requires
        i <= n <= ts.len(),
    ensures
        plan_runs(d, p, ts, n).take(i as int) == plan_runs(d, p, ts, i),
    decreases n,
{
    lemma_plan_runs_len_nonneg(d, p, ts, n);
    if i == n {
        assert(plan_runs(d, p, ts, n).take(i as int) =~= plan_runs(d, p, ts, n));
    } else {
        lemma_plan_runs_prefix(d, p, ts, i, (n - 1) as nat);
        lemma_plan_runs_len_nonneg(d, p, ts, (n - 1) as nat);
        assert(plan_runs(d, p, ts, n).take(i as int) =~= plan_runs(d, p, ts, (n - 1) as nat).take(i as int));
    }
}

/// Consumption only grows as jobs are added.
proof fn lemma_jobs_mono(d: &IndustryData, p: &ChainParams, ts: Seq<u64>, rs: Seq<int>, i: int, x: u64)
    requires
        0 <= i <= rs.len(),
        forall|j: int| 0 <= j < rs.len() ==> #[trigger] rs[j] >= 0,
    ensures
        jobs_consume(d, p, ts, rs.take(i), x) <= jobs_consume(d, p, ts, rs, x),
    decreases rs.len(),
{
    if i == rs.len() {
        assert(rs.take(i) =~= rs);
    } else {
        lemma_jobs_mono(d, p, ts, rs.drop_last(), i, x);
        assert(rs.drop_last().take(i) =~= rs.take(i));
        let m = spec_materials(d, ts[rs.len() - 1]);
        lemma_entries_nonneg_mono(d, p, ts[rs.len() - 1], m, m.len() as int, rs.last(), x);
        assert(m.take(m.len() as int) =~= m);
    }
}

/// Jobs placed after a Type's own job consume none of it.
proof fn lemma_jobs_after(d: &IndustryData, p: &ChainParams, ts: Seq<u64>, rs: Seq<int>, i: int)
    requires
        parents_first(d, ts),
        0 <= i < ts.len(),
        i <= rs.len() <= ts.len(),
    ensures
        jobs_consume(d, p, ts, rs, ts[i]) == jobs_consume(d, p, ts, rs.take(i), ts[i]),
    decreases rs.len(),
{
    if rs.len() == i {
        assert(rs.take(i) =~= rs);
    } else {
        lemma_jobs_after(d, p, ts, rs.drop_last(), i);
        assert(rs.drop_last().take(i) =~= rs.take(i));
        let b = rs.len() - 1;
        assert(!mat_of(d, ts[b], ts[i]));
        let m = spec_materials(d, ts[b]);
        assert forall|k: int| 0 <= k < m.len() implies #[trigger] m[k].0 != ts[i] by {
            if m[k].0 == ts[i] { assert(mat_of(d, ts[b], ts[i])); }
        }
        lemma_entries_absent(d, p, ts[b], m, rs.last(), ts[i]);
    }
}

/// Each step along `c` moves to a later place of the plan order.
proof fn lemma_cycle_climbs(d: &IndustryData, p: &ChainParams, ts: Seq<u64>, c: Seq<u64>, k: int)
    requires
        parents_first(d, ts),
        1 <= k < c.len(),
        forall|i: int| 0 <= i < c.len() - 1 ==> mat_of(d, #[trigger] c[i], c[i + 1]),
        forall|i: int| 0 <= i < c.len() ==> ts.contains(#[trigger] c[i]),
    ensures
        forall|a: int, b: int| 0 <= a < ts.len() && 0 <= b < ts.len() && ts[a] == c[0] && ts[b] == c[k] ==> a < b,
    decreases k,
{
    assert forall|a: int, b: int| 0 <= a < ts.len() && 0 <= b < ts.len() && ts[a] == c[0] && ts[b] == c[k] implies a < b by {
        assert(ts.contains(c[k - 1]));
        let m = choose|m: int| 0 <= m < ts.len() && ts[m] == c[k - 1];
        // the step from c[k - 1] to c[k] moves later
        assert(mat_of(d, c[k - 1], c[k]));
        if b <= m {
            assert(!mat_of(d, ts[m], ts[b]));
        }
        if k > 1 {
            lemma_cycle_climbs(d, p, ts, c, k - 1);
        } else {
            assert(m == a || ts[m] == ts[a]);
            if a <= b {} else { assert(!mat_of(d, ts[a], ts[b])) by { assert(b <= a); } }
        }
    }
}

/// No Type of an ordered plan requires itself: a plan order exists only where
/// the target's tree holds no production cycle.
pub proof fn lemma_plan_order_acyclic(d: &IndustryData, p: &ChainParams, ts: Seq<u64>, x: u64)
    requires
        is_plan_order(d, p, ts),
        reachable(d, p, x),
    ensures
        !on_cycle(d, p, x),
{
    reveal(is_plan_order);
    reveal(on_cycle);
    if on_cycle(d, p, x) {
        let c = choose|c: Seq<u64>| #[trigger] c.len() >= 2 && c[0] == x && c.last() == x
            && forall|i: int| 0 <= i < c.len() - 1 ==> built(d, p, #[trigger] c[i]) && mat_of(d, c[i], c[i + 1]);
        assert forall|i: int| 0 <= i < c.len() implies reachable(d, p, #[trigger] c[i]) by {
            lemma_cycle_reach(d, p, c, i);
        }
        assert forall|i: int| 0 <= i < c.len() implies ts.contains(#[trigger] c[i]) by {
            if i < c.len() - 1 {
                assert(built(d, p, c[i]));
            } else {
                assert(c[i] == c[0]);
                assert(built(d, p, c[0]));
            }
        }
        assert forall|i: int| 0 <= i < c.len() - 1 implies mat_of(d, #[trigger] c[i], c[i + 1]) by {
            assert(built(d, p, c[i]) && mat_of(d, c[i], c[i + 1]));
        }
        lemma_cycle_climbs(d, p, ts, c, c.len() - 1);
        let a = choose|a: int| 0 <= a < ts.len() && ts[a] == c[0];
        assert(ts[a] == c[c.len() - 1]);
    }
}

/// Every Type on a cycle through a reachable Type is reachable.
proof fn lemma_cycle_reach(d: &IndustryData, p: &ChainParams, c: Seq<u64>, i: int)
    requires
        0 <= i < c.len(),
        reachable(d, p, c[0]),
        forall|j: int| 0 <= j < c.len() - 1 ==> built(d, p, #[trigger] c[j]) && mat_of(d, c[j], c[j + 1]),
    ensures
        reachable(d, p, c[i]),
    decreases i,
{
    if i > 0 {
        lemma_cycle_reach(d, p, c, i - 1);
        assert(built(d, p, c[i - 1]) && mat_of(d, c[i - 1], c[i]));
        lemma_reach_material(d, p, c[i - 1], c[i]);
    }
}

/// The demand a job sees when its turn comes is everything the whole plan asks
/// of its Type: no later job consumes it.
pub proof fn lemma_demand_complete(d: &IndustryData, p: &ChainParams, ts: Seq<u64>, i: int)
    requires
        parents_first(d, ts),
        0 <= i < ts.len(),
    ensures
        total_demand(d, p, ts, plan_runs(d, p, ts, ts.len()), ts[i])
            == total_demand(d, p, ts, plan_runs(d, p, ts, i as nat), ts[i]),
{
    lemma_plan_runs_len_nonneg(d, p, ts, ts.len());
    lemma_jobs_after(d, p, ts, plan_runs(d, p, ts, ts.len()), i);
    lemma_plan_runs_prefix(d, p, ts, i as nat, ts.len());
}


// ── Running the jobs ─────────────────────────────────────────────────────────

/// The demand a map records on `x`; nothing recorded is zero.
pub open spec fn dget(m: Map<u64, u64>, x: u64) -> int {
    if m.contains_key(x) { m[x] as int } else { 0 }
}

/// Everything the first jobs of `ts` ask of skills, in job order.
pub open spec fn chain_skills(d: &IndustryData, ts: Seq<u64>) -> Seq<(u64, u8)>
    decreases ts.len(),
{
    if ts.len() == 0 {
        Seq::empty()
    } else {
        chain_skills(d, ts.drop_last()) + skill_pairs(spec_recipe(d, ts.last()).unwrap().skills@)
    }
}

pub(crate) proof fn lemma_mentions_concat(a: Seq<(u64, u8)>, b: Seq<(u64, u8)>, id: u64)
    ensures
        mentions(a + b, id) == (mentions(a, id) || mentions(b, id)),
{
    if mentions(a + b, id) {
        let i = choose|i: int| 0 <= i < (a + b).len() && #[trigger] (a + b)[i].0 == id;
        if i < a.len() { assert(a[i].0 == id); } else { assert(b[i - a.len()].0 == id); }
    }
    if mentions(a, id) {
        let i = choose|i: int| 0 <= i < a.len() && #[trigger] a[i].0 == id;
        assert((a + b)[i].0 == id);
    }
    if mentions(b, id) {
        let i = choose|i: int| 0 <= i < b.len() && #[trigger] b[i].0 == id;
        assert((a + b)[a.len() + i].0 == id);
    }
}

fn demand_of(demand: &HashMap<u64, u64>, x: u64) -> (r: u64)
    ensures
        r == dget(demand@, x),
{
    match demand.get(&x) {
        Some(v) => *v,
        None => 0,
    }
}

/// Adds to `demand` what `runs` runs of `t` consume; on overflow, names a
/// material entry whose running total no longer fits.
fn consume_materials(d: &IndustryData, p: &ChainParams, t: u64, fm: &Formula, runs: u64, demand: &mut HashMap<u64, u64>) -> (r: Result<(), Ghost<int>>)
    requires
        formula_matches(fm, d, t),
    ensures
        match r {
            Ok(()) => forall|x: u64| #[trigger] dget(final(demand)@, x)
                == dget(old(demand)@, x) + entries_consume(d, p, t, spec_materials(d, t), runs as int, x),
            Err(k) => 0 <= k@ < spec_materials(d, t).len()
                && dget(old(demand)@, spec_materials(d, t)[k@].0)
                    + entries_consume(d, p, t, spec_materials(d, t).take(k@ + 1), runs as int, spec_materials(d, t)[k@].0) > u64::MAX,
        },
{
    let mats = &fm.materials;
    let me = p.me_for(t);
    let is_reaction = match fm.activity {
        Activity::Reaction => true,
        Activity::Manufacturing => false,
    };
    let mut k: usize = 0;
    while k < mats.len()
        invariant
            0 <= k <= mats.len(),
            mats@ == spec_materials(d, t),
            me == spec_me_for(p, t),
            is_reaction == (spec_activity(d, t) == Activity::Reaction),
            forall|x: u64| #[trigger] dget(demand@, x) == dget(old(demand)@, x) + entries_consume(d, p, t, mats@.take(k as int), runs as int, x),
        decreases mats.len() - k,
    {
        let (m, base) = mats[k];
        proof {
            assert(mats@.take(k + 1).drop_last() =~= mats@.take(k as int));
            assert(mats@.take(k + 1).last() == mats@[k as int]);
            lemma_entries_nonneg_mono(d, p, t, mats@, k as int, runs as int, m);
        }
        let ghost prev = entries_consume(d, p, t, mats@.take(k as int), runs as int, m);
        let qty: u64 = if is_reaction {
            match base.checked_mul(runs) {
                Some(q) => q,
                None => {
                    proof {
                        assert(material_qty(d, p, t, base as int, runs as int) == base * runs);
                        assert(dget(old(demand)@, m) >= 0);
                    }
                    return Err(Ghost(k as int));
                },
            }
        } else {
            match material_with_me(base, runs, me) {
                Some(q) => q,
                None => {
                    proof {
                        assert(dget(old(demand)@, m) >= 0);
                    }
                    return Err(Ghost(k as int));
                },
            }
        };
        proof {
            assert(qty == material_qty(d, p, t, base as int, runs as int));
        }
        let cur = demand_of(demand, m);
        let nv = match cur.checked_add(qty) {
            Some(v) => v,
            None => {
                return Err(Ghost(k as int));
            },
        };
        let ghost before = demand@;
        demand.insert(m, nv);
        proof {
            assert forall|x: u64| #[trigger] dget(demand@, x) == dget(old(demand)@, x) + entries_consume(d, p, t, mats@.take(k + 1), runs as int, x) by {
                assert(dget(before, x) == dget(old(demand)@, x) + entries_consume(d, p, t, mats@.take(k as int), runs as int, x));
                if x == m {
                } else {
                    assert(dget(demand@, x) == dget(before, x));
                }
            }
        }
        k = k + 1;
    }
    proof {
        assert(mats@.take(mats.len() as int) =~= mats@);
    }
    Ok(())
}


/// One build job of a resolved chain.
pub struct Job {
    pub type_id: u64,
    pub name: Option<String>,
    /// `manufacturing` or `reaction`.
    pub activity: &'static str,
    pub runs: u64,
    pub output_per_run: u64,
    /// `runs * output_per_run`.
    pub total_output: u64,
    /// Units of the product the chain needs.
    pub demand: u64,
    /// Units made beyond the demand by rounding up to whole runs.
    pub leftover: u64,
    /// The ME applied, for manufacturing jobs.
    pub me_applied: Option<i64>,
}

/// The Type IDs of `jobs`, in order.
pub open spec fn job_types(jobs: Seq<Job>) -> Seq<u64> {
    jobs.map_values(|j: Job| j.type_id)
}

/// The runs of `jobs`, in order.
pub open spec fn job_runs(jobs: Seq<Job>) -> Seq<int> {
    jobs.map_values(|j: Job| j.runs as int)
}

/// `job` is the job of `t`, asked to cover `demand` units.
pub open spec fn job_for(d: &IndustryData, p: &ChainParams, job: Job, t: u64, demand: int) -> bool {
    &&& job.type_id == t
    &&& name_view(job.name) == spec_name_of_type(d, t)
    &&& job.activity@ == activity_name(spec_activity(d, t))
    &&& job.output_per_run == spec_opr(d, t)
    &&& job.demand == demand
    &&& job.runs == spec_ceil_div(demand, job.output_per_run as int)
    &&& job.total_output == job.runs * job.output_per_run
    &&& job.leftover == job.total_output - job.demand
    &&& job.me_applied == (match spec_activity(d, t) {
        Activity::Manufacturing => Some(spec_me_for(p, t)),
        Activity::Reaction => None::<i64>,
    })
}

/// The plan `ts` overflows, or else the demand on every Type is as the plan
/// asks.
proof fn lemma_overflow_material(d: &IndustryData, p: &ChainParams, ts: Seq<u64>, i: int, k: int, v: int)
    requires
        is_plan_order(d, p, ts),
        0 <= i < ts.len(),
        0 <= k < spec_materials(d, ts[i]).len(),
        v > u64::MAX,
        v <= total_demand(d, p, ts, plan_runs(d, p, ts, i as nat), spec_materials(d, ts[i])[k].0)
            + entries_consume(d, p, ts[i], spec_materials(d, ts[i]).take(k + 1), plan_runs(d, p, ts, (i + 1) as nat)[i], spec_materials(d, ts[i])[k].0),
    ensures
        plan_overflows(d, p, ts),
{
    reveal(is_plan_order);
    reveal(plan_overflows);
    let n = ts.len();
    let rs = plan_runs(d, p, ts, n);
    let mats = spec_materials(d, ts[i]);
    let m = mats[k].0;
    assert(ts.contains(ts[i]));
    assert(mat_of(d, ts[i], m));
    lemma_reach_material(d, p, ts[i], m);
    lemma_plan_runs_len_nonneg(d, p, ts, n);
    lemma_plan_runs_len_nonneg(d, p, ts, (i + 1) as nat);
    lemma_plan_runs_prefix(d, p, ts, (i + 1) as nat, n);
    lemma_jobs_mono(d, p, ts, rs, i + 1, m);
    let r1 = plan_runs(d, p, ts, (i + 1) as nat);
    assert(r1.drop_last() =~= plan_runs(d, p, ts, i as nat));
    lemma_entries_nonneg_mono(d, p, ts[i], mats, k + 1, r1[i], m);
    assert(total_demand(d, p, ts, rs, m) > u64::MAX);
}

proof fn lemma_walk_target(d: &IndustryData, p: &ChainParams)
    ensures
        reachable(d, p, p.target_id),
{
    let c = seq![p.target_id];
    assert(is_walk(d, p, c) && c.last() == p.target_id);
}

/// Runs job `i` of the plan `ts`: enough whole runs to cover the demand left
/// on its Type, adding what they consume to `demand` and their skills to
/// `skills`.
fn run_job(d: &IndustryData, p: &ChainParams, ts: &Vec<u64>, i: usize, fm: &Formula, demand: &mut HashMap<u64, u64>, skills: &mut Vec<(u64, u8)>)
    -> (r: Result<Job, PlanError>)
    requires
        i < ts@.len(),
        formula_matches(fm, d, ts@[i as int]),
        is_plan_order(d, p, ts@),
        forall|x: u64| #[trigger] dget(old(demand)@, x) == total_demand(d, p, ts@, plan_runs(d, p, ts@, i as nat), x),
        skills_sorted(old(skills)@),
    ensures
        match r {
            Ok(job) => {
                &&& job_for(d, p, job, ts@[i as int], total_demand(d, p, ts@, plan_runs(d, p, ts@, i as nat), ts@[i as int]))
                &&& forall|x: u64| #[trigger] dget(final(demand)@, x) == total_demand(d, p, ts@, plan_runs(d, p, ts@, (i + 1) as nat), x)
                &&& skills_sorted(final(skills)@)
                &&& forall|id: u64| mentions(final(skills)@, id) == (mentions(old(skills)@, id) || mentions(skill_pairs(spec_recipe(d, ts@[i as int]).unwrap().skills@), id))
                &&& forall|id: u64| max_level(final(skills)@, id) == crate::skills_merge::max_u8(max_level(old(skills)@, id), max_level(skill_pairs(spec_recipe(d, ts@[i as int]).unwrap().skills@), id))
            },
            Err(e) => e == PlanError::QuantityOverflow && plan_overflows(d, p, ts@),
        },
{
    let n = ts.len();
    let t = ts[i];
    let demanded = demand_of(demand, t);
    let job_runs = ceil_div(demanded, fm.output_per_run);
    let ghost rs_i = plan_runs(d, p, ts@, i as nat);
    proof {
        lemma_plan_runs_len_nonneg(d, p, ts@, i as nat);
        lemma_plan_runs_len_nonneg(d, p, ts@, (i + 1) as nat);
        assert(plan_runs(d, p, ts@, (i + 1) as nat) == rs_i.push(job_runs as int));
    }
    let ghost before = demand@;
    match consume_materials(d, p, t, fm, job_runs, demand) {
        Ok(()) => {},
        Err(k) => {
            proof {
                let m = spec_materials(d, t)[k@].0;
                assert(dget(before, m) == total_demand(d, p, ts@, rs_i, m));
                lemma_overflow_material(d, p, ts@, i as int, k@,
                    dget(before, m) + entries_consume(d, p, t, spec_materials(d, t).take(k@ + 1), job_runs as int, m));
            }
            return Err(PlanError::QuantityOverflow);
        },
    }
    let total_output = match job_runs.checked_mul(fm.output_per_run) {
        Some(v) => v,
        None => {
            proof {
                lemma_plan_runs_prefix(d, p, ts@, (i + 1) as nat, n as nat);
                lemma_plan_runs_len_nonneg(d, p, ts@, n as nat);
                let rs = plan_runs(d, p, ts@, n as nat);
                assert(rs.take(i + 1)[i as int] == rs[i as int]);
                assert(rs[i as int] == plan_runs(d, p, ts@, (i + 1) as nat)[i as int]);
                assert(rs[i as int] * spec_opr(d, ts@[i as int]) > u64::MAX);
                reveal(plan_overflows);
            }
            return Err(PlanError::QuantityOverflow);
        },
    };
    proof {
        let o = fm.output_per_run as int;
        let dd = demanded as int;
        let rr = job_runs as int;
        assert(rr * o >= dd) by (nonlinear_arith)
            requires o >= 1, dd >= 0, rr == spec_ceil_div(dd, o);
    }
    let sl = fm.skills.as_slice();
    assert(sl@ == fm.skills@);
    merge_skills(skills, sl);
    let me_applied = match fm.activity {
        Activity::Manufacturing => Some(p.me_for(t)),
        Activity::Reaction => None,
    };
    let job = Job {
        type_id: t,
        name: name_of_type(d, t),
        activity: fm.activity.as_str(),
        runs: job_runs,
        output_per_run: fm.output_per_run,
        total_output,
        demand: demanded,
        leftover: total_output - demanded,
        me_applied,
    };
    proof {
        let rs1 = plan_runs(d, p, ts@, (i + 1) as nat);
        assert(rs1.drop_last() =~= rs_i);
        assert forall|x: u64| #[trigger] dget(demand@, x) == total_demand(d, p, ts@, rs1, x) by {
            assert(dget(before, x) == total_demand(d, p, ts@, rs_i, x));
        }
        assert(demanded == total_demand(d, p, ts@, rs_i, t));
        assert(fm.output_per_run == spec_opr(d, t));
        assert(job.activity@ == activity_name(spec_activity(d, t)));
        assert(job_for(d, p, job, t, total_demand(d, p, ts@, rs_i, t)));
    }
    Ok(job)
}

/// Runs the jobs of the plan `ts` in order, each covering in whole runs what
/// the target and the jobs before it demand, and returns them with the demand
/// left on every Type and the skills they need.
fn run_jobs(d: &IndustryData, p: &ChainParams, f: &Vec<(u64, Formula)>, order: &Vec<usize>, ts: &Vec<u64>)
    -> (r: Result<(Vec<Job>, HashMap<u64, u64>, Vec<(u64, u8)>), PlanError>)
    requires
        ts@.len() == order@.len(),
        forall|i: int| 0 <= i < ts@.len() ==> #[trigger] order@[i] < f@.len() && f@[order@[i] as int].0 == ts@[i]
            && formula_matches(&f@[order@[i] as int].1, d, ts@[i]),
        is_plan_order(d, p, ts@),
    ensures
        match r {
            Ok((jobs, demand, skills)) => {
                &&& jobs@.len() == ts@.len()
                &&& forall|i: int| 0 <= i < ts@.len() ==> job_for(d, p, #[trigger] jobs@[i], ts@[i],
                        total_demand(d, p, ts@, plan_runs(d, p, ts@, i as nat), ts@[i]))
                &&& forall|x: u64| #[trigger] dget(demand@, x) == total_demand(d, p, ts@, plan_runs(d, p, ts@, ts@.len()), x)
                &&& skills_sorted(skills@)
                &&& forall|id: u64| mentions(skills@, id) == mentions(chain_skills(d, ts@), id)
                &&& forall|id: u64| max_level(skills@, id) == max_level(chain_skills(d, ts@), id)
            },
            Err(e) => e == PlanError::QuantityOverflow && plan_overflows(d, p, ts@),
        },
{
    let n = ts.len();
    let target_output: u64 = match formula_for(d, p.target_id) {
        Some(fm) => fm.output_per_run,
        None => 1,
    };
    let runs: u64 = if p.runs == 0 { 1 } else { p.runs };
    let init: u64 = match runs.checked_mul(target_output) {
        Some(v) => v,
        None => {
            proof {
                lemma_walk_target(d, p);
                lemma_plan_runs_len_nonneg(d, p, ts@, n as nat);
                lemma_jobs_nonneg(d, p, ts@, plan_runs(d, p, ts@, n as nat), p.target_id);
                assert(total_demand(d, p, ts@, plan_runs(d, p, ts@, ts@.len()), p.target_id) > u64::MAX);
                reveal(plan_overflows);
            }
            return Err(PlanError::QuantityOverflow);
        },
    };
    let mut demand: HashMap<u64, u64> = HashMap::new();
    demand.insert(p.target_id, init);
    let mut jobs: Vec<Job> = Vec::new();
    let mut skills: Vec<(u64, u8)> = Vec::new();
    proof {
        assert forall|x: u64| #[trigger] dget(demand@, x) == total_demand(d, p, ts@, plan_runs(d, p, ts@, 0), x) by {}
        assert(ts@.take(0) =~= Seq::<u64>::empty());
    }
    let mut i: usize = 0;
    while i < n
        invariant
            0 <= i <= n,
            n == ts@.len(),
            ts@.len() == order@.len(),
            forall|j: int| 0 <= j < ts@.len() ==> #[trigger] order@[j] < f@.len() && f@[order@[j] as int].0 == ts@[j]
                && formula_matches(&f@[order@[j] as int].1, d, ts@[j]),
            is_plan_order(d, p, ts@),
            jobs@.len() == i,
            forall|j: int| 0 <= j < i ==> job_for(d, p, #[trigger] jobs@[j], ts@[j],
                total_demand(d, p, ts@, plan_runs(d, p, ts@, j as nat), ts@[j])),
            forall|x: u64| #[trigger] dget(demand@, x) == total_demand(d, p, ts@, plan_runs(d, p, ts@, i as nat), x),
            skills_sorted(skills@),
            forall|id: u64| mentions(skills@, id) == mentions(chain_skills(d, ts@.take(i as int)), id),
            forall|id: u64| max_level(skills@, id) == max_level(chain_skills(d, ts@.take(i as int)), id),
        decreases n - i,
    {
        let ghost sk0 = skills@;
        assert(formula_matches(&f@[order@[i as int] as int].1, d, ts@[i as int]));
        let job = run_job(d, p, ts, i, &f[order[i]].1, &mut demand, &mut skills)?;
        jobs.push(job);
        proof {
            let t = ts@[i as int];
            assert(ts@.take(i + 1).drop_last() =~= ts@.take(i as int));
            assert(ts@.take(i + 1).last() == t);
            assert forall|id: u64| mentions(skills@, id) == mentions(chain_skills(d, ts@.take(i + 1)), id) by {
                lemma_mentions_concat(chain_skills(d, ts@.take(i as int)), skill_pairs(spec_recipe(d, t).unwrap().skills@), id);
            }
            assert forall|id: u64| max_level(skills@, id) == max_level(chain_skills(d, ts@.take(i + 1)), id) by {
                crate::skills_merge::lemma_max_level_concat(chain_skills(d, ts@.take(i as int)), skill_pairs(spec_recipe(d, t).unwrap().skills@), id);
            }
            assert forall|j: int| 0 <= j < i + 1 implies job_for(d, p, #[trigger] jobs@[j], ts@[j],
                total_demand(d, p, ts@, plan_runs(d, p, ts@, j as nat), ts@[j])) by {
            }
        }
        i = i + 1;
    }
    proof {
        assert(ts@.take(n as int) =~= ts@);
    }
    Ok((jobs, demand, skills))
}


// ── From discovery to the plan order ─────────────────────────────────────────

/// Discovery finished: every recorded Type's materials are recorded too.
pub open spec fn discovered(d: &IndustryData, p: &ChainParams, f: Seq<(u64, Formula)>, leaves: Seq<u64>) -> bool {
    &&& discovery_inv(d, p, f, leaves, Seq::empty())
    &&& all_reachable(d, p, f, leaves)
    &&& has_key(f, p.target_id) || leaves.contains(p.target_id)
}

proof fn lemma_walk_recorded(d: &IndustryData, p: &ChainParams, f: Seq<(u64, Formula)>, leaves: Seq<u64>, c: Seq<u64>)
    requires
        discovered(d, p, f, leaves),
        is_walk(d, p, c),
    ensures
        has_key(f, c.last()) || leaves.contains(c.last()),
    decreases c.len(),
{
    if c.len() > 1 {
        let c2 = c.drop_last();
        assert forall|i: int| 0 <= i < c2.len() - 1 implies built(d, p, #[trigger] c2[i]) && mat_of(d, c2[i], c2[i + 1]) by {
            assert(c2[i] == c[i] && c2[i + 1] == c[i + 1]);
        }
        assert(is_walk(d, p, c2));
        lemma_walk_recorded(d, p, f, leaves, c2);
        let y = c2.last();
        let x = c.last();
        assert(c[c.len() - 2] == y);
        assert(built(d, p, y) && mat_of(d, y, x));
        if leaves.contains(y) {
            let q = choose|q: int| 0 <= q < leaves.len() && leaves[q] == y;
            assert(!spec_builds(d, p, leaves[q]) || !spec_has_formula(d, leaves[q]));
        }
        let j = choose|j: int| 0 <= j < f.len() && #[trigger] f[j].0 == y;
        assert(formula_matches(&f[j].1, d, f[j].0));
        let k = choose|k: int| 0 <= k < spec_materials(d, y).len() && #[trigger] spec_materials(d, y)[k].0 == x;
        assert(f[j].1.materials@[k].0 == x);
        assert(!Seq::<u64>::empty().contains(f[j].0));
    }
}

/// Every Type of the target's tree was recorded, as a built node or a leaf.
pub(crate) proof fn lemma_recorded(d: &IndustryData, p: &ChainParams, f: Seq<(u64, Formula)>, leaves: Seq<u64>, x: u64)
    requires
        discovered(d, p, f, leaves),
        reachable(d, p, x),
    ensures
        has_key(f, x) || leaves.contains(x),
{
    let c = choose|c: Seq<u64>| #[trigger] is_walk(d, p, c) && c.last() == x;
    lemma_walk_recorded(d, p, f, leaves, c);
}

/// The leaves are exactly the bought Types of the tree.
pub(crate) proof fn lemma_leaves_exact(d: &IndustryData, p: &ChainParams, f: Seq<(u64, Formula)>, leaves: Seq<u64>)
    requires
        discovered(d, p, f, leaves),
    ensures
        forall|x: u64| #[trigger] leaves.contains(x) <==> is_bought(d, p, x),
{
    assert forall|x: u64| #[trigger] leaves.contains(x) <==> is_bought(d, p, x) by {
        if leaves.contains(x) {
            let q = choose|q: int| 0 <= q < leaves.len() && leaves[q] == x;
            assert(reachable(d, p, leaves[q]));
            assert(!spec_builds(d, p, leaves[q]) || !spec_has_formula(d, leaves[q]));
        }
        if is_bought(d, p, x) {
            lemma_recorded(d, p, f, leaves, x);
            if has_key(f, x) {
                let j = choose|j: int| 0 <= j < f.len() && #[trigger] f[j].0 == x;
                assert(discovery_inv(d, p, f, leaves, Seq::empty()));
                assert(0 <= j < f.len());
                assert(formula_matches(&f[j].1, d, f[j].0));
                assert(spec_builds(d, p, f[j].0));
            }
        }
    }
}

/// The built nodes in topological order form the plan order.
proof fn lemma_plan_order(d: &IndustryData, p: &ChainParams, f: Seq<(u64, Formula)>, leaves: Seq<u64>, order: Seq<usize>, ts: Seq<u64>)
    requires
        discovered(d, p, f, leaves),
        is_topo_order(f, order),
        forall|j: usize| j < f.len() ==> order.contains(j),
        ts.len() == order.len(),
        forall|i: int| 0 <= i < ts.len() ==> #[trigger] ts[i] == f[order[i] as int].0,
        f.len() <= usize::MAX,
    ensures
        is_plan_order(d, p, ts),
{
    reveal(is_plan_order);
    assert(discovery_inv(d, p, f, leaves, Seq::empty()));
    assert forall|a: int, b: int| 0 <= a < b < ts.len() implies #[trigger] ts[a] != #[trigger] ts[b] by {
        assert(order[a] < f.len() && order[b] < f.len());
        assert(order[a] != order[b]);
        if order[a] < order[b] {
            assert(f[order[a] as int].0 != f[order[b] as int].0);
        } else {
            assert(f[order[b] as int].0 != f[order[a] as int].0);
        }
    }
    assert forall|x: u64| ts.contains(x) <==> (reachable(d, p, x) && built(d, p, x)) by {
        if ts.contains(x) {
            let i = choose|i: int| 0 <= i < ts.len() && ts[i] == x;
            let u = order[i] as int;
            assert(order[i] < f.len());
            assert(0 <= u < f.len());
            assert(formula_matches(&f[u].1, d, f[u].0));
            assert(spec_builds(d, p, f[u].0));
            assert(reachable(d, p, f[u].0));
        }
        if reachable(d, p, x) && built(d, p, x) {
            lemma_recorded(d, p, f, leaves, x);
            if leaves.contains(x) {
                let q = choose|q: int| 0 <= q < leaves.len() && leaves[q] == x;
                assert(!spec_builds(d, p, leaves[q]) || !spec_has_formula(d, leaves[q]));
            }
            let j = choose|j: int| 0 <= j < f.len() && #[trigger] f[j].0 == x;
            assert(order.contains(j as usize));
            let a = choose|a: int| 0 <= a < order.len() && order[a] == j as usize;
            assert(order[a] as int == j);
            assert(ts[a] == f[j].0);
        }
    }
    assert forall|a: int, b: int| 0 <= a <= b < ts.len() implies !mat_of(d, #[trigger] ts[b], #[trigger] ts[a]) by {
        let ub = order[b] as int;
        assert(order[b] < f.len() && order[a] < f.len());
        assert(!consumes(f, ub, f[order[a] as int].0));
        if mat_of(d, ts[b], ts[a]) {
            assert(formula_matches(&f[ub].1, d, f[ub].0));
            let k = choose|k: int| 0 <= k < spec_materials(d, ts[b]).len() && #[trigger] spec_materials(d, ts[b])[k].0 == ts[a];
            assert(f[ub].1.materials@[k].0 == ts[a]);
        }
    }
    assert forall|a: int, j: int| 0 <= a <= j < ts.len() && (forall|c: int| a <= c < ts.len() ==> !mat_of(d, #[trigger] ts[c], ts[j]))
        implies #[trigger] ts[a] <= #[trigger] ts[j] by {
        let jj = order[j] as int;
        assert(order[j] < f.len());
        assert(!order.take(a).contains(jj as usize)) by {
            if order.take(a).contains(jj as usize) {
                let q = choose|q: int| 0 <= q < order.take(a).len() && order.take(a)[q] == jj as usize;
                assert(order[q] == order[j]);
            }
        }
        assert(ready(f, order.take(a), jj)) by {
            assert forall|u: int| 0 <= u < f.len() && !order.take(a).contains(u as usize) implies !#[trigger] consumes(f, u, f[jj].0) by {
                assert(order.contains(u as usize));
                let c = choose|c: int| 0 <= c < order.len() && order[c] == u as usize;
                if c < a {
                    assert(order.take(a)[c] == u as usize);
                }
                assert(!mat_of(d, ts[c], ts[j]));
                if consumes(f, u, f[jj].0) {
                    assert(formula_matches(&f[u].1, d, f[u].0));
                    let k = choose|k: int| 0 <= k < f[u].1.materials@.len() && #[trigger] f[u].1.materials@[k].0 == f[jj].0;
                    assert(spec_materials(d, ts[c])[k].0 == ts[j]);
                }
            }
        }
        assert(f[order[a] as int].0 <= f[jj].0);
    }
}


// ── Shopping list ────────────────────────────────────────────────────────────

/// One Type to buy, with the quantity the chain needs.
pub struct ShopItem {
    pub type_id: u64,
    pub name: Option<String>,
    pub quantity: u64,
}

/// The items bought of one Origin, under its section label.
pub struct ShopGroup {
    pub origin: Origin,
    pub label: &'static str,
    pub items: Vec<ShopItem>,
}

/// `(type_id, quantity)` `a` is listed before `b`: larger quantity first, then
/// lower Type ID.
pub open spec fn pair_before(a: (u64, u64), b: (u64, u64)) -> bool {
    a.1 > b.1 || (a.1 == b.1 && a.0 < b.0)
}

/// `s` is in shopping-list order.
pub open spec fn pairs_sorted(s: Seq<(u64, u64)>) -> bool {
    forall|a: int, b: int| 0 <= a < b < s.len() ==> pair_before(#[trigger] s[a], #[trigger] s[b])
}

/// The `(type_id, quantity)` of each item.
pub open spec fn item_pairs(items: Seq<ShopItem>) -> Seq<(u64, u64)> {
    items.map_values(|it: ShopItem| (it.type_id, it.quantity))
}

fn insert_pair(v: &mut Vec<(u64, u64)>, e: (u64, u64))
    requires
        pairs_sorted(old(v)@),
        forall|a: int| 0 <= a < old(v)@.len() ==> #[trigger] old(v)@[a].0 != e.0,
    ensures
        pairs_sorted(final(v)@),
        exists|pos: int| 0 <= pos <= old(v)@.len() && final(v)@ == old(v)@.insert(pos, e),
{
    let mut pos: usize = 0;
    while pos < v.len() && !(e.1 > v[pos].1 || (e.1 == v[pos].1 && e.0 < v[pos].0))
        invariant
            0 <= pos <= v.len(),
            v@ == old(v)@,
            forall|a: int| 0 <= a < pos ==> !pair_before(e, #[trigger] v@[a]),
        decreases v.len() - pos,
    {
        pos = pos + 1;
    }
    let ghost before = v@;
    v.insert(pos, e);
    proof {
        let p = pos as int;
        assert forall|a: int, b: int| 0 <= a < b < v@.len() implies pair_before(#[trigger] v@[a], #[trigger] v@[b]) by {
            if b < p {
                assert(v@[a] == before[a] && v@[b] == before[b]);
            } else if b == p {
                assert(v@[a] == before[a]);
                assert(!pair_before(e, before[a]));
                assert(before[a].0 != e.0);
            } else if a < p {
                assert(v@[a] == before[a] && v@[b] == before[b - 1]);
            } else if a == p {
                assert(v@[b] == before[b - 1]);
                assert(pair_before(e, before[p]));
                if b - 1 > p { assert(pair_before(before[p], before[b - 1])); }
            } else {
                assert(v@[a] == before[a - 1] && v@[b] == before[b - 1]);
            }
        }
        assert(v@ == before.insert(p, e));
    }
}

/// The entries of `cands` whose Type has Origin `o`, in shopping-list order.
fn origin_pairs(d: &IndustryData, cands: &Vec<(u64, u64)>, o: Origin) -> (r: Vec<(u64, u64)>)
    requires
        forall|a: int, b: int| 0 <= a < b < cands@.len() ==> #[trigger] cands@[a].0 != #[trigger] cands@[b].0,
    ensures
        pairs_sorted(r@),
        forall|a: int| 0 <= a < r@.len() ==> cands@.contains(#[trigger] r@[a]) && spec_classify_origin(d, r@[a].0) == o,
        forall|b: int| 0 <= b < cands@.len() && spec_classify_origin(d, cands@[b].0) == o ==> r@.contains(#[trigger] cands@[b]),
{
    let mut out: Vec<(u64, u64)> = Vec::new();
    let mut b: usize = 0;
    while b < cands.len()
        invariant
            0 <= b <= cands@.len(),
            forall|a1: int, b1: int| 0 <= a1 < b1 < cands@.len() ==> #[trigger] cands@[a1].0 != #[trigger] cands@[b1].0,
            pairs_sorted(out@),
            forall|a: int| 0 <= a < out@.len() ==> cands@.take(b as int).contains(#[trigger] out@[a]) && spec_classify_origin(d, out@[a].0) == o,
            forall|c: int| 0 <= c < b && spec_classify_origin(d, cands@[c].0) == o ==> out@.contains(#[trigger] cands@[c]),
        decreases cands@.len() - b,
    {
        let e = cands[b];
        let ghost before = out@;
        if classify_origin(d, e.0) == o {
            proof {
                assert forall|a: int| 0 <= a < out@.len() implies #[trigger] out@[a].0 != e.0 by {
                    let q = choose|q: int| 0 <= q < cands@.take(b as int).len() && cands@.take(b as int)[q] == out@[a];
                    assert(cands@[q] == out@[a]);
                }
            }
            insert_pair(&mut out, e);
            proof {
                let pos = choose|pos: int| 0 <= pos <= before.len() && out@ == before.insert(pos, e);
                assert forall|a: int| 0 <= a < out@.len() implies cands@.take(b + 1).contains(#[trigger] out@[a]) && spec_classify_origin(d, out@[a].0) == o by {
                    if a < pos {
                        assert(out@[a] == before[a]);
                        let q = choose|q: int| 0 <= q < cands@.take(b as int).len() && cands@.take(b as int)[q] == before[a];
                        assert(cands@.take(b + 1)[q] == before[a]);
                    } else if a == pos {
                        assert(cands@.take(b + 1)[b as int] == e);
                    } else {
                        assert(out@[a] == before[a - 1]);
                        let q = choose|q: int| 0 <= q < cands@.take(b as int).len() && cands@.take(b as int)[q] == before[a - 1];
                        assert(cands@.take(b + 1)[q] == before[a - 1]);
                    }
                }
                assert forall|c: int| 0 <= c < b + 1 && spec_classify_origin(d, cands@[c].0) == o implies out@.contains(#[trigger] cands@[c]) by {
                    if c < b {
                        let q = choose|q: int| 0 <= q < before.len() && before[q] == cands@[c];
                        if q < pos { assert(out@[q] == before[q]); } else { assert(out@[q + 1] == before[q]); }
                    } else {
                        assert(out@[pos] == e);
                    }
                }
            }
        } else {
            proof {
                assert forall|a: int| 0 <= a < out@.len() implies cands@.take(b + 1).contains(#[trigger] out@[a]) && spec_classify_origin(d, out@[a].0) == o by {
                    let q = choose|q: int| 0 <= q < cands@.take(b as int).len() && cands@.take(b as int)[q] == out@[a];
                    assert(cands@.take(b + 1)[q] == out@[a]);
                }
            }
        }
        b = b + 1;
    }
    proof {
        assert(cands@.take(cands@.len() as int) =~= cands@);
    }
    out
}

/// Names each `(type_id, quantity)` entry.
fn to_items(d: &IndustryData, ps: &Vec<(u64, u64)>) -> (r: Vec<ShopItem>)
    ensures
        item_pairs(r@) == ps@,
        forall|a: int| 0 <= a < r@.len() ==> name_view(#[trigger] r@[a].name) == spec_name_of_type(d, r@[a].type_id),
{
    let mut out: Vec<ShopItem> = Vec::new();
    let mut a: usize = 0;
    while a < ps.len()
        invariant
            0 <= a <= ps@.len(),
            out@.len() == a,
            forall|c: int| 0 <= c < a ==> (#[trigger] out@[c]).type_id == ps@[c].0 && out@[c].quantity == ps@[c].1,
            forall|c: int| 0 <= c < a ==> name_view(#[trigger] out@[c].name) == spec_name_of_type(d, out@[c].type_id),
        decreases ps@.len() - a,
    {
        let (t, q) = ps[a];
        out.push(ShopItem { type_id: t, name: name_of_type(d, t), quantity: q });
        a = a + 1;
    }
    proof {
        assert(item_pairs(out@) =~= ps@);
    }
    out
}

/// Some item of `groups` is the entry `e`.
pub open spec fn in_groups(groups: Seq<ShopGroup>, e: (u64, u64)) -> bool {
    exists|g: int, a: int| 0 <= g < groups.len() && 0 <= a < groups[g].items@.len() && #[trigger] item_pairs(groups[g].items@)[a] == e
}

/// The candidates grouped by Origin in declaration order, one group per Origin
/// that has any, each in shopping-list order.
fn group_by_origin(d: &IndustryData, cands: &Vec<(u64, u64)>) -> (r: Vec<ShopGroup>)
    requires
        forall|a: int, b: int| 0 <= a < b < cands@.len() ==> #[trigger] cands@[a].0 != #[trigger] cands@[b].0,
    ensures
        forall|g1: int, g2: int| 0 <= g1 < g2 < r@.len() ==> origin_rank(#[trigger] r@[g1].origin) < origin_rank(#[trigger] r@[g2].origin),
        forall|g: int| 0 <= g < r@.len() ==> (#[trigger] r@[g]).items@.len() > 0 && r@[g].label@ == origin_label(r@[g].origin)
            && pairs_sorted(item_pairs(r@[g].items@)),
        forall|g: int, a: int| 0 <= g < r@.len() && 0 <= a < r@[g].items@.len() ==>
            cands@.contains(#[trigger] item_pairs(r@[g].items@)[a]),
        forall|g: int, a: int| 0 <= g < r@.len() && 0 <= a < r@[g].items@.len() ==>
            spec_classify_origin(d, (#[trigger] r@[g].items@[a]).type_id) == r@[g].origin
            && name_view(r@[g].items@[a].name) == spec_name_of_type(d, r@[g].items@[a].type_id),
        forall|b: int| 0 <= b < cands@.len() ==> in_groups(r@, #[trigger] cands@[b]),
{
    let all = [Origin::Manufactured, Origin::ReactionOutput, Origin::Mineral, Origin::MoonMaterial, Origin::PiOutput, Origin::RawOther];
    let mut groups: Vec<ShopGroup> = Vec::new();
    let mut i: usize = 0;
    while i < 6
        invariant
            0 <= i <= 6,
            all@ == seq![Origin::Manufactured, Origin::ReactionOutput, Origin::Mineral, Origin::MoonMaterial, Origin::PiOutput, Origin::RawOther],
            forall|a1: int, b1: int| 0 <= a1 < b1 < cands@.len() ==> #[trigger] cands@[a1].0 != #[trigger] cands@[b1].0,
            forall|g: int| 0 <= g < groups@.len() ==> origin_rank(#[trigger] groups@[g].origin) < i,
            forall|g1: int, g2: int| 0 <= g1 < g2 < groups@.len() ==> origin_rank(#[trigger] groups@[g1].origin) < origin_rank(#[trigger] groups@[g2].origin),
            forall|g: int| 0 <= g < groups@.len() ==> (#[trigger] groups@[g]).items@.len() > 0 && groups@[g].label@ == origin_label(groups@[g].origin)
                && pairs_sorted(item_pairs(groups@[g].items@)),
            forall|g: int, a: int| 0 <= g < groups@.len() && 0 <= a < groups@[g].items@.len() ==>
                cands@.contains(#[trigger] item_pairs(groups@[g].items@)[a]),
            forall|g: int, a: int| 0 <= g < groups@.len() && 0 <= a < groups@[g].items@.len() ==>
                spec_classify_origin(d, (#[trigger] groups@[g].items@[a]).type_id) == groups@[g].origin
                && name_view(groups@[g].items@[a].name) == spec_name_of_type(d, groups@[g].items@[a].type_id),
            forall|b: int| 0 <= b < cands@.len() && origin_rank(spec_classify_origin(d, cands@[b].0)) < i ==> in_groups(groups@, #[trigger] cands@[b]),
        decreases 6 - i,
    {
        let o = all[i];
        assert(origin_rank(o) == i);
        let ps = origin_pairs(d, cands, o);
        let ghost g0 = groups@;
        if ps.len() > 0 {
            let items = to_items(d, &ps);
            groups.push(ShopGroup { origin: o, label: o.label(), items });
            proof {
                let gl = groups@.len() - 1;
                assert(groups@[gl].origin == o);
                assert forall|g: int| 0 <= g < groups@.len() implies origin_rank(#[trigger] groups@[g].origin) < i + 1 by {
                    if g < gl { assert(groups@[g] == g0[g]); }
                }
                assert forall|g: int, a: int| 0 <= g < groups@.len() && 0 <= a < groups@[g].items@.len() implies
                    cands@.contains(item_pairs(groups@[g].items@)[a]) && spec_classify_origin(d, (#[trigger] groups@[g].items@[a]).type_id) == groups@[g].origin
                    && name_view(groups@[g].items@[a].name) == spec_name_of_type(d, groups@[g].items@[a].type_id) by {
                    if g < gl {
                        assert(groups@[g] == g0[g]);
                        assert(cands@.contains(item_pairs(g0[g].items@)[a]));
                        assert(g0[g].items@[a] == groups@[g].items@[a]);
                    } else {
                        let its = groups@[g].items@;
                        assert(its == items@);
                        assert(item_pairs(its)[a] == (its[a].type_id, its[a].quantity));
                        assert(item_pairs(its)[a] == ps@[a]);
                        assert(cands@.contains(ps@[a]) && spec_classify_origin(d, ps@[a].0) == o);
                        assert(name_view(its[a].name) == spec_name_of_type(d, its[a].type_id));
                    }
                }
                assert forall|b: int| 0 <= b < cands@.len() && origin_rank(spec_classify_origin(d, cands@[b].0)) < i + 1 implies in_groups(groups@, #[trigger] cands@[b]) by {
                    if origin_rank(spec_classify_origin(d, cands@[b].0)) < i {
                        assert(in_groups(g0, cands@[b]));
                        let (g, a) = choose|g: int, a: int| 0 <= g < g0.len() && 0 <= a < g0[g].items@.len() && #[trigger] item_pairs(g0[g].items@)[a] == cands@[b];
                        assert(groups@[g] == g0[g]);
                        assert(item_pairs(groups@[g].items@)[a] == cands@[b]);
                    } else {
                        assert(spec_classify_origin(d, cands@[b].0) == o) by {
                            match spec_classify_origin(d, cands@[b].0) {
                                Origin::Manufactured => assert(o == all@[0]),
                                Origin::ReactionOutput => assert(o == all@[1]),
                                Origin::Mineral => assert(o == all@[2]),
                                Origin::MoonMaterial => assert(o == all@[3]),
                                Origin::PiOutput => assert(o == all@[4]),
                                Origin::RawOther => assert(o == all@[5]),
                            }
                        }
                        assert(ps@.contains(cands@[b]));
                        let a = choose|a: int| 0 <= a < ps@.len() && ps@[a] == cands@[b];
                        assert(item_pairs(groups@[gl].items@)[a] == cands@[b]);
                    }
                }
            }
        } else {
            proof {
                assert forall|b: int| 0 <= b < cands@.len() && origin_rank(spec_classify_origin(d, cands@[b].0)) < i + 1 implies in_groups(groups@, #[trigger] cands@[b]) by {
                    if origin_rank(spec_classify_origin(d, cands@[b].0)) == i {
                        assert(spec_classify_origin(d, cands@[b].0) == o) by {
                            match spec_classify_origin(d, cands@[b].0) {
                                Origin::Manufactured => assert(o == all@[0]),
                                Origin::ReactionOutput => assert(o == all@[1]),
                                Origin::Mineral => assert(o == all@[2]),
                                Origin::MoonMaterial => assert(o == all@[3]),
                                Origin::PiOutput => assert(o == all@[4]),
                                Origin::RawOther => assert(o == all@[5]),
                            }
                        }
                        assert(ps@.contains(cands@[b]));
                    }
                }
            }
        }
        i = i + 1;
    }
    proof {
        assert forall|b: int| 0 <= b < cands@.len() implies in_groups(groups@, #[trigger] cands@[b]) by {
            assert(origin_rank(spec_classify_origin(d, cands@[b].0)) < 6);
        }
    }
    groups
}


// ── Flagged leaves and skills ────────────────────────────────────────────────

/// A bought Type the planners cannot decompose within scope, with the reason.
pub struct FlaggedLeaf {
    pub type_id: u64,
    pub name: Option<String>,
    pub origin: Origin,
    pub reason: &'static str,
}

/// Why a bought Type stops the decomposition, if it is out of scope: an
/// invented manufactured item, or planetary industry.
pub open spec fn flag_reason(d: &IndustryData, x: u64) -> Option<Seq<char>> {
    match spec_classify_origin(d, x) {
        Origin::Manufactured => if spec_me_mode(d, x) == Some(MeMode::Invented) {
            Some("invention required (out of scope)"@)
        } else {
            None
        },
        Origin::PiOutput => Some("planetary industry (out of scope)"@),
        _ => None,
    }
}

fn flag_reason_of(d: &IndustryData, x: u64) -> (r: Option<&'static str>)
    ensures
        match r {
            Some(s) => flag_reason(d, x) == Some(s@),
            None => flag_reason(d, x) is None,
        },
{
    match classify_origin(d, x) {
        Origin::Manufactured => if me_mode(d, x) == Some(MeMode::Invented) {
            Some("invention required (out of scope)")
        } else {
            None
        },
        Origin::PiOutput => Some("planetary industry (out of scope)"),
        _ => None,
    }
}

/// Type IDs strictly increase along `s`.
pub open spec fn ids_increasing(s: Seq<u64>) -> bool {
    forall|a: int, b: int| 0 <= a < b < s.len() ==> #[trigger] s[a] < #[trigger] s[b]
}

pub(crate) fn insert_id(v: &mut Vec<u64>, x: u64)
    requires
        ids_increasing(old(v)@),
        !old(v)@.contains(x),
    ensures
        ids_increasing(final(v)@),
        exists|pos: int| 0 <= pos <= old(v)@.len() && final(v)@ == old(v)@.insert(pos, x),
{
    let mut pos: usize = 0;
    while pos < v.len() && v[pos] < x
        invariant
            0 <= pos <= v.len(),
            v@ == old(v)@,
            forall|a: int| 0 <= a < pos ==> #[trigger] v@[a] < x,
        decreases v.len() - pos,
    {
        pos = pos + 1;
    }
    let ghost before = v@;
    v.insert(pos, x);
    proof {
        let p = pos as int;
        if p < before.len() {
            assert(before[p] != x);
        }
        assert forall|a: int, b: int| 0 <= a < b < v@.len() implies #[trigger] v@[a] < #[trigger] v@[b] by {
            if b < p {
                assert(v@[a] == before[a] && v@[b] == before[b]);
            } else if b == p {
                assert(v@[a] == before[a]);
            } else if a < p {
                assert(v@[a] == before[a] && v@[b] == before[b - 1]);
                assert(before[p] > x);
                if b - 1 > p { assert(before[p] < before[b - 1]); }
            } else if a == p {
                assert(v@[b] == before[b - 1]);
                assert(before[p] > x);
                if b - 1 > p { assert(before[p] < before[b - 1]); }
            } else {
                assert(v@[a] == before[a - 1] && v@[b] == before[b - 1]);
            }
        }
        assert(v@ == before.insert(p, x));
    }
}

/// Some entry of `cands` is for Type `x`.
pub open spec fn cand_has(cands: Seq<(u64, u64)>, x: u64) -> bool {
    exists|b: int| 0 <= b < cands.len() && #[trigger] cands[b].0 == x
}

/// Some flagged leaf is Type `x`.
pub open spec fn flagged_has(fl: Seq<FlaggedLeaf>, x: u64) -> bool {
    exists|a: int| 0 <= a < fl.len() && #[trigger] fl[a].type_id == x
}

/// The candidates that are out of scope, by Type ID.
pub(crate) fn flag_leaves(d: &IndustryData, cands: &Vec<(u64, u64)>) -> (r: Vec<FlaggedLeaf>)
    requires
        forall|a: int, b: int| 0 <= a < b < cands@.len() ==> #[trigger] cands@[a].0 != #[trigger] cands@[b].0,
    ensures
        forall|a: int, b: int| 0 <= a < b < r@.len() ==> #[trigger] r@[a].type_id < #[trigger] r@[b].type_id,
        forall|a: int| 0 <= a < r@.len() ==> cand_has(cands@, (#[trigger] r@[a]).type_id)
            && flag_reason(d, r@[a].type_id) == Some(r@[a].reason@)
            && r@[a].origin == spec_classify_origin(d, r@[a].type_id)
            && name_view(r@[a].name) == spec_name_of_type(d, r@[a].type_id),
        forall|b: int| 0 <= b < cands@.len() && flag_reason(d, cands@[b].0) is Some ==> flagged_has(r@, (#[trigger] cands@[b]).0),
{
    let mut ids: Vec<u64> = Vec::new();
    let mut b: usize = 0;
    while b < cands.len()
        invariant
            0 <= b <= cands@.len(),
            forall|a1: int, b1: int| 0 <= a1 < b1 < cands@.len() ==> #[trigger] cands@[a1].0 != #[trigger] cands@[b1].0,
            ids_increasing(ids@),
            forall|a: int| 0 <= a < ids@.len() ==> cand_has(cands@.take(b as int), #[trigger] ids@[a]) && flag_reason(d, ids@[a]) is Some,
            forall|c: int| 0 <= c < b && flag_reason(d, cands@[c].0) is Some ==> ids@.contains((#[trigger] cands@[c]).0),
        decreases cands@.len() - b,
    {
        let x = cands[b].0;
        let ghost before = ids@;
        if flag_reason_of(d, x).is_some() {
            proof {
                if ids@.contains(x) {
                    let a = choose|a: int| 0 <= a < ids@.len() && ids@[a] == x;
                    let q = choose|q: int| 0 <= q < cands@.take(b as int).len() && #[trigger] cands@.take(b as int)[q].0 == ids@[a];
                    assert(cands@[q].0 == x);
                }
            }
            insert_id(&mut ids, x);
            proof {
                let pos = choose|pos: int| 0 <= pos <= before.len() && ids@ == before.insert(pos, x);
                assert forall|a: int| 0 <= a < ids@.len() implies cand_has(cands@.take(b + 1), #[trigger] ids@[a]) && flag_reason(d, ids@[a]) is Some by {
                    if a < pos {
                        assert(ids@[a] == before[a]);
                        let q = choose|q: int| 0 <= q < cands@.take(b as int).len() && #[trigger] cands@.take(b as int)[q].0 == before[a];
                        assert(cands@.take(b + 1)[q].0 == before[a]);
                    } else if a == pos {
                        assert(cands@.take(b + 1)[b as int].0 == x);
                    } else {
                        assert(ids@[a] == before[a - 1]);
                        let q = choose|q: int| 0 <= q < cands@.take(b as int).len() && #[trigger] cands@.take(b as int)[q].0 == before[a - 1];
                        assert(cands@.take(b + 1)[q].0 == before[a - 1]);
                    }
                }
                assert forall|c: int| 0 <= c < b + 1 && flag_reason(d, cands@[c].0) is Some implies ids@.contains((#[trigger] cands@[c]).0) by {
                    if c < b {
                        let q = choose|q: int| 0 <= q < before.len() && before[q] == cands@[c].0;
                        if q < pos { assert(ids@[q] == before[q]); } else { assert(ids@[q + 1] == before[q]); }
                    } else {
                        assert(ids@[pos] == x);
                    }
                }
            }
        } else {
            proof {
                assert forall|a: int| 0 <= a < ids@.len() implies cand_has(cands@.take(b + 1), #[trigger] ids@[a]) && flag_reason(d, ids@[a]) is Some by {
                    let q = choose|q: int| 0 <= q < cands@.take(b as int).len() && #[trigger] cands@.take(b as int)[q].0 == ids@[a];
                    assert(cands@.take(b + 1)[q].0 == ids@[a]);
                }
            }
        }
        b = b + 1;
    }
    proof {
        assert(cands@.take(cands@.len() as int) =~= cands@);
        assert forall|c: int| 0 <= c < ids@.len() implies cand_has(cands@, #[trigger] ids@[c]) && flag_reason(d, ids@[c]) is Some by {
            assert(cand_has(cands@.take(cands@.len() as int), ids@[c]));
        }
    }
    let mut out: Vec<FlaggedLeaf> = Vec::new();
    let mut a: usize = 0;
    while a < ids.len()
        invariant
            0 <= a <= ids@.len(),
            out@.len() == a,
            ids_increasing(ids@),
            forall|c: int| 0 <= c < ids@.len() ==> cand_has(cands@, #[trigger] ids@[c]) && flag_reason(d, ids@[c]) is Some,
            forall|c: int| 0 <= c < cands@.len() && flag_reason(d, cands@[c].0) is Some ==> ids@.contains((#[trigger] cands@[c]).0),
            forall|c: int| 0 <= c < a ==> (#[trigger] out@[c]).type_id == ids@[c]
                && flag_reason(d, out@[c].type_id) == Some(out@[c].reason@)
                && out@[c].origin == spec_classify_origin(d, out@[c].type_id)
                && name_view(out@[c].name) == spec_name_of_type(d, out@[c].type_id),
        decreases ids@.len() - a,
    {
        let x = ids[a];
        let reason = match flag_reason_of(d, x) {
            Some(r) => r,
            None => {
                assert(flag_reason(d, ids@[a as int]) is Some);
                ""
            },
        };
        out.push(FlaggedLeaf { type_id: x, name: name_of_type(d, x), origin: classify_origin(d, x), reason });
        a = a + 1;
    }
    proof {
        assert forall|a1: int, b1: int| 0 <= a1 < b1 < out@.len() implies #[trigger] out@[a1].type_id < #[trigger] out@[b1].type_id by {
            assert(out@[a1].type_id == ids@[a1] && out@[b1].type_id == ids@[b1]);
        }
        assert forall|a1: int| 0 <= a1 < out@.len() implies cand_has(cands@, (#[trigger] out@[a1]).type_id) by {
            assert(cand_has(cands@, ids@[a1]));
        }
        assert forall|b1: int| 0 <= b1 < cands@.len() && flag_reason(d, cands@[b1].0) is Some implies flagged_has(out@, (#[trigger] cands@[b1]).0) by {
            assert(ids@.contains(cands@[b1].0));
            let q = choose|q: int| 0 <= q < ids@.len() && ids@[q] == cands@[b1].0;
            assert(out@[q].type_id == cands@[b1].0);
        }
    }
    out
}

/// A skill the chain's jobs need, at the highest level any of them asks for.
pub struct SkillReq {
    pub skill_id: u64,
    pub skill_name: Option<String>,
    pub level: u8,
}

/// The `(skill_id, level)` of each requirement.
pub open spec fn req_pairs(s: Seq<SkillReq>) -> Seq<(u64, u8)> {
    s.map_values(|r: SkillReq| (r.skill_id, r.level))
}

/// Names each `(skill_id, level)`.
pub fn skill_reqs(d: &IndustryData, skills: &Vec<(u64, u8)>) -> (r: Vec<SkillReq>)
    ensures
        req_pairs(r@) == skills@,
        forall|k: int| 0 <= k < r@.len() ==> name_view(#[trigger] r@[k].skill_name) == spec_name_of_type(d, r@[k].skill_id),
{
    let mut out: Vec<SkillReq> = Vec::new();
    let mut k: usize = 0;
    while k < skills.len()
        invariant
            0 <= k <= skills@.len(),
            out@.len() == k,
            forall|c: int| 0 <= c < k ==> (#[trigger] out@[c]).skill_id == skills@[c].0 && out@[c].level == skills@[c].1,
            forall|c: int| 0 <= c < k ==> name_view(#[trigger] out@[c].skill_name) == spec_name_of_type(d, out@[c].skill_id),
        decreases skills@.len() - k,
    {
        let (id, level) = skills[k];
        out.push(SkillReq { skill_id: id, skill_name: name_of_type(d, id), level });
        k = k + 1;
    }
    proof {
        assert(req_pairs(out@) =~= skills@);
    }
    out
}


// ── The resolved chain ───────────────────────────────────────────────────────

/// The target as planned.
pub struct ChainTarget {
    pub type_id: u64,
    pub name: Option<String>,
    pub runs: u64,
}

/// A resolved production chain: the build jobs parents-first, the consolidated
/// shopping list, the skills the jobs need and the out-of-scope leaves.
pub struct ProductionChain {
    pub target: ChainTarget,
    pub jobs: Vec<Job>,
    pub shopping_list: Vec<ShopGroup>,
    pub required_skills: Vec<SkillReq>,
    pub flagged_leaves: Vec<FlaggedLeaf>,
}

/// Some shopping-list item is Type `x`.
pub open spec fn listed(groups: Seq<ShopGroup>, x: u64) -> bool {
    exists|g: int, a: int| 0 <= g < groups.len() && 0 <= a < groups[g].items@.len() && #[trigger] groups[g].items@[a].type_id == x
}

/// The shopping list buys every bought Type with a positive demand once, at
/// that demand, grouped by Origin in declaration order, each group ordered by
/// quantity (largest first) and then Type ID.
pub open spec fn shopping_list_ok(d: &IndustryData, p: &ChainParams, ts: Seq<u64>, rs: Seq<int>, groups: Seq<ShopGroup>) -> bool {
    &&& forall|g1: int, g2: int| 0 <= g1 < g2 < groups.len() ==> origin_rank(#[trigger] groups[g1].origin) < origin_rank(#[trigger] groups[g2].origin)
    &&& forall|g: int| 0 <= g < groups.len() ==> (#[trigger] groups[g]).items@.len() > 0 && groups[g].label@ == origin_label(groups[g].origin)
            && pairs_sorted(item_pairs(groups[g].items@))
    &&& forall|g: int, a: int| 0 <= g < groups.len() && 0 <= a < groups[g].items@.len() ==> {
            &&& is_bought(d, p, (#[trigger] groups[g].items@[a]).type_id)
            &&& groups[g].items@[a].quantity == total_demand(d, p, ts, rs, groups[g].items@[a].type_id)
            &&& groups[g].items@[a].quantity > 0
            &&& spec_classify_origin(d, groups[g].items@[a].type_id) == groups[g].origin
            &&& name_view(groups[g].items@[a].name) == spec_name_of_type(d, groups[g].items@[a].type_id)
        }
    &&& forall|x: u64| is_bought(d, p, x) && #[trigger] total_demand(d, p, ts, rs, x) > 0 ==> listed(groups, x)
}

/// The flagged leaves are the out-of-scope bought Types with a positive
/// demand, by Type ID.
pub open spec fn flagged_ok(d: &IndustryData, p: &ChainParams, ts: Seq<u64>, rs: Seq<int>, fl: Seq<FlaggedLeaf>) -> bool {
    &&& forall|a: int, b: int| 0 <= a < b < fl.len() ==> #[trigger] fl[a].type_id < #[trigger] fl[b].type_id
    &&& forall|a: int| 0 <= a < fl.len() ==> {
            &&& is_bought(d, p, (#[trigger] fl[a]).type_id)
            &&& total_demand(d, p, ts, rs, fl[a].type_id) > 0
            &&& flag_reason(d, fl[a].type_id) == Some(fl[a].reason@)
            &&& fl[a].origin == spec_classify_origin(d, fl[a].type_id)
            &&& name_view(fl[a].name) == spec_name_of_type(d, fl[a].type_id)
        }
    &&& forall|x: u64| is_bought(d, p, x) && #[trigger] total_demand(d, p, ts, rs, x) > 0 && flag_reason(d, x) is Some ==> flagged_has(fl, x)
}

/// The requirements name every skill a job of `ts` needs once, at the highest
/// level asked for, by skill ID.
pub open spec fn skills_ok(d: &IndustryData, ts: Seq<u64>, req: Seq<SkillReq>) -> bool {
    &&& skills_sorted(req_pairs(req))
    &&& forall|id: u64| #[trigger] mentions(req_pairs(req), id) == mentions(chain_skills(d, ts), id)
    &&& forall|id: u64| #[trigger] max_level(req_pairs(req), id) == max_level(chain_skills(d, ts), id)
    &&& forall|k: int| 0 <= k < req.len() ==> name_view(#[trigger] req[k].skill_name) == spec_name_of_type(d, req[k].skill_id)
}

/// `c` is the chain the plan resolves to: its jobs run in plan order, each
/// covering in whole runs everything the target and all the jobs ask of its
/// Type, and its shopping list, flagged leaves and skills follow from them.
pub open spec fn chain_ok(d: &IndustryData, p: &ChainParams, c: &ProductionChain) -> bool {
    let ts = job_types(c.jobs@);
    let rs = job_runs(c.jobs@);
    &&& is_plan_order(d, p, ts)
    &&& rs == plan_runs(d, p, ts, ts.len())
    &&& forall|i: int| 0 <= i < ts.len() ==> job_for(d, p, #[trigger] c.jobs@[i], ts[i], total_demand(d, p, ts, rs, ts[i]))
    &&& c.target.type_id == p.target_id
    &&& c.target.runs == runs_asked(p)
    &&& name_view(c.target.name) == spec_name_of_type(d, p.target_id)
    &&& shopping_list_ok(d, p, ts, rs, c.shopping_list@)
    &&& flagged_ok(d, p, ts, rs, c.flagged_leaves@)
    &&& skills_ok(d, ts, c.required_skills@)
}

fn plan_types(f: &Vec<(u64, Formula)>, order: &Vec<usize>) -> (ts: Vec<u64>)
    requires
        forall|a: int| 0 <= a < order@.len() ==> #[trigger] order@[a] < f@.len(),
    ensures
        ts@.len() == order@.len(),
        forall|i: int| 0 <= i < ts@.len() ==> #[trigger] ts@[i] == f@[order@[i] as int].0,
{
    let mut ts: Vec<u64> = Vec::new();
    let mut i: usize = 0;
    while i < order.len()
        invariant
            0 <= i <= order@.len(),
            forall|a: int| 0 <= a < order@.len() ==> #[trigger] order@[a] < f@.len(),
            ts@.len() == i,
            forall|j: int| 0 <= j < i ==> #[trigger] ts@[j] == f@[order@[j] as int].0,
        decreases order@.len() - i,
    {
        ts.push(f[order[i]].0);
        i = i + 1;
    }
    ts
}

/// The bought Types (the leaves) with a positive demand, each with it.
fn bought_demand(leaves: &Vec<u64>, demand: &HashMap<u64, u64>) -> (r: Vec<(u64, u64)>)
    requires
        forall|i: int, j: int| 0 <= i < j < leaves@.len() ==> #[trigger] leaves@[i] != #[trigger] leaves@[j],
    ensures
        forall|a: int, b: int| 0 <= a < b < r@.len() ==> #[trigger] r@[a].0 != #[trigger] r@[b].0,
        forall|b: int| 0 <= b < r@.len() ==> leaves@.contains((#[trigger] r@[b]).0) && r@[b].1 == dget(demand@, r@[b].0) && r@[b].1 > 0,
        forall|x: u64| leaves@.contains(x) && #[trigger] dget(demand@, x) > 0 ==> cand_has(r@, x),
{
    let mut out: Vec<(u64, u64)> = Vec::new();
    let mut q: usize = 0;
    while q < leaves.len()
        invariant
            0 <= q <= leaves@.len(),
            forall|i: int, j: int| 0 <= i < j < leaves@.len() ==> #[trigger] leaves@[i] != #[trigger] leaves@[j],
            forall|a: int, b: int| 0 <= a < b < out@.len() ==> #[trigger] out@[a].0 != #[trigger] out@[b].0,
            forall|b: int| 0 <= b < out@.len() ==> leaves@.take(q as int).contains((#[trigger] out@[b]).0) && out@[b].1 == dget(demand@, out@[b].0) && out@[b].1 > 0,
            forall|j: int| 0 <= j < q && dget(demand@, leaves@[j]) > 0 ==> cand_has(out@, #[trigger] leaves@[j]),
        decreases leaves@.len() - q,
    {
        let l = leaves[q];
        let v = demand_of(demand, l);
        let ghost before = out@;
        if v > 0 {
            proof {
                assert forall|b: int| 0 <= b < before.len() implies #[trigger] before[b].0 != l by {
                    let j = choose|j: int| 0 <= j < leaves@.take(q as int).len() && leaves@.take(q as int)[j] == before[b].0;
                    assert(leaves@[j] == before[b].0);
                }
            }
            out.push((l, v));
            proof {
                assert forall|j: int| 0 <= j < q + 1 && dget(demand@, leaves@[j]) > 0 implies cand_has(out@, #[trigger] leaves@[j]) by {
                    if j < q {
                        let b = choose|b: int| 0 <= b < before.len() && #[trigger] before[b].0 == leaves@[j];
                        assert(out@[b].0 == leaves@[j]);
                    } else {
                        assert(out@[before.len() as int].0 == l);
                    }
                }
            }
        }
        proof {
            assert forall|b: int| 0 <= b < out@.len() implies leaves@.take(q + 1).contains((#[trigger] out@[b]).0) && out@[b].1 == dget(demand@, out@[b].0) && out@[b].1 > 0 by {
                if b < before.len() {
                    assert(out@[b] == before[b]);
                    let j = choose|j: int| 0 <= j < leaves@.take(q as int).len() && leaves@.take(q as int)[j] == before[b].0;
                    assert(leaves@.take(q + 1)[j] == before[b].0);
                } else {
                    assert(leaves@.take(q + 1)[q as int] == l);
                }
            }
        }
        q = q + 1;
    }
    proof {
        assert(leaves@.take(leaves@.len() as int) =~= leaves@);
        assert forall|x: u64| leaves@.contains(x) && #[trigger] dget(demand@, x) > 0 implies cand_has(out@, x) by {
            let j = choose|j: int| 0 <= j < leaves@.len() && leaves@[j] == x;
            assert(cand_has(out@, leaves@[j]));
        }
    }
    out
}


/// The jobs `run_jobs` returns are the resolved jobs of the plan.
proof fn lemma_jobs_resolved(d: &IndustryData, p: &ChainParams, ts: Seq<u64>, jobs: Seq<Job>)
    requires
        is_plan_order(d, p, ts),
        jobs.len() == ts.len(),
        forall|i: int| 0 <= i < ts.len() ==> job_for(d, p, #[trigger] jobs[i], ts[i],
            total_demand(d, p, ts, plan_runs(d, p, ts, i as nat), ts[i])),
    ensures
        job_types(jobs) == ts,
        job_runs(jobs) == plan_runs(d, p, ts, ts.len()),
        forall|i: int| 0 <= i < ts.len() ==> job_for(d, p, #[trigger] jobs[i], ts[i],
            total_demand(d, p, ts, plan_runs(d, p, ts, ts.len()), ts[i])),
{
    reveal(is_plan_order);
    let n = ts.len();
    let rs = plan_runs(d, p, ts, n);
    lemma_plan_runs_len_nonneg(d, p, ts, n);
    assert(job_types(jobs) =~= ts);
    assert forall|i: int| 0 <= i < n implies #[trigger] job_runs(jobs)[i] == rs[i] by {
        lemma_plan_runs_prefix(d, p, ts, (i + 1) as nat, n);
        lemma_plan_runs_len_nonneg(d, p, ts, (i + 1) as nat);
        assert(rs.take(i + 1)[i] == rs[i]);
        assert(plan_runs(d, p, ts, (i + 1) as nat).drop_last() =~= plan_runs(d, p, ts, i as nat));
        assert(jobs[i].output_per_run == spec_opr(d, ts[i]));
    }
    assert(job_runs(jobs) =~= rs);
    assert forall|i: int| 0 <= i < n implies job_for(d, p, #[trigger] jobs[i], ts[i], total_demand(d, p, ts, rs, ts[i])) by {
        lemma_demand_complete(d, p, ts, i);
    }
}

/// The grouped candidates form the plan's shopping list.
proof fn lemma_shopping(d: &IndustryData, p: &ChainParams, ts: Seq<u64>, rs: Seq<int>, leaves: Seq<u64>, demand: Map<u64, u64>,
    cands: Seq<(u64, u64)>, groups: Seq<ShopGroup>)
    requires
        forall|x: u64| #[trigger] leaves.contains(x) <==> is_bought(d, p, x),
        forall|x: u64| #[trigger] dget(demand, x) == total_demand(d, p, ts, rs, x),
        forall|b: int| 0 <= b < cands.len() ==> leaves.contains((#[trigger] cands[b]).0) && cands[b].1 == dget(demand, cands[b].0) && cands[b].1 > 0,
        forall|x: u64| leaves.contains(x) && #[trigger] dget(demand, x) > 0 ==> cand_has(cands, x),
        forall|g1: int, g2: int| 0 <= g1 < g2 < groups.len() ==> origin_rank(#[trigger] groups[g1].origin) < origin_rank(#[trigger] groups[g2].origin),
        forall|g: int| 0 <= g < groups.len() ==> (#[trigger] groups[g]).items@.len() > 0 && groups[g].label@ == origin_label(groups[g].origin)
            && pairs_sorted(item_pairs(groups[g].items@)),
        forall|g: int, a: int| 0 <= g < groups.len() && 0 <= a < groups[g].items@.len() ==>
            cands.contains(#[trigger] item_pairs(groups[g].items@)[a]),
        forall|g: int, a: int| 0 <= g < groups.len() && 0 <= a < groups[g].items@.len() ==>
            spec_classify_origin(d, (#[trigger] groups[g].items@[a]).type_id) == groups[g].origin
            && name_view(groups[g].items@[a].name) == spec_name_of_type(d, groups[g].items@[a].type_id),
        forall|b: int| 0 <= b < cands.len() ==> in_groups(groups, #[trigger] cands[b]),
    ensures
        shopping_list_ok(d, p, ts, rs, groups),
{
    assert forall|g: int, a: int| 0 <= g < groups.len() && 0 <= a < groups[g].items@.len() implies {
        &&& is_bought(d, p, (#[trigger] groups[g].items@[a]).type_id)
        &&& groups[g].items@[a].quantity == total_demand(d, p, ts, rs, groups[g].items@[a].type_id)
        &&& groups[g].items@[a].quantity > 0
        &&& spec_classify_origin(d, groups[g].items@[a].type_id) == groups[g].origin
        &&& name_view(groups[g].items@[a].name) == spec_name_of_type(d, groups[g].items@[a].type_id)
    } by {
        let it = groups[g].items@[a];
        assert(item_pairs(groups[g].items@)[a] == (it.type_id, it.quantity));
        assert(cands.contains(item_pairs(groups[g].items@)[a]));
        let b = choose|b: int| 0 <= b < cands.len() && cands[b] == item_pairs(groups[g].items@)[a];
        assert(leaves.contains(cands[b].0) && cands[b].1 == dget(demand, cands[b].0) && cands[b].1 > 0);
    }
    assert forall|x: u64| is_bought(d, p, x) && #[trigger] total_demand(d, p, ts, rs, x) > 0 implies listed(groups, x) by {
        assert(leaves.contains(x));
        assert(dget(demand, x) > 0);
        assert(cand_has(cands, x));
        let b = choose|b: int| 0 <= b < cands.len() && #[trigger] cands[b].0 == x;
        assert(in_groups(groups, cands[b]));
        let (g, a) = choose|g: int, a: int| 0 <= g < groups.len() && 0 <= a < groups[g].items@.len() && #[trigger] item_pairs(groups[g].items@)[a] == cands[b];
        assert(item_pairs(groups[g].items@)[a] == (groups[g].items@[a].type_id, groups[g].items@[a].quantity));
        assert(groups[g].items@[a].type_id == x);
    }
}

/// The flagged candidates are the plan's flagged leaves.
proof fn lemma_flagged(d: &IndustryData, p: &ChainParams, ts: Seq<u64>, rs: Seq<int>, leaves: Seq<u64>, demand: Map<u64, u64>,
    cands: Seq<(u64, u64)>, fl: Seq<FlaggedLeaf>)
    requires
        forall|x: u64| #[trigger] leaves.contains(x) <==> is_bought(d, p, x),
        forall|x: u64| #[trigger] dget(demand, x) == total_demand(d, p, ts, rs, x),
        forall|b: int| 0 <= b < cands.len() ==> leaves.contains((#[trigger] cands[b]).0) && cands[b].1 == dget(demand, cands[b].0) && cands[b].1 > 0,
        forall|x: u64| leaves.contains(x) && #[trigger] dget(demand, x) > 0 ==> cand_has(cands, x),
        forall|a: int, b: int| 0 <= a < b < fl.len() ==> #[trigger] fl[a].type_id < #[trigger] fl[b].type_id,
        forall|a: int| 0 <= a < fl.len() ==> cand_has(cands, (#[trigger] fl[a]).type_id)
            && flag_reason(d, fl[a].type_id) == Some(fl[a].reason@)
            && fl[a].origin == spec_classify_origin(d, fl[a].type_id)
            && name_view(fl[a].name) == spec_name_of_type(d, fl[a].type_id),
        forall|b: int| 0 <= b < cands.len() && flag_reason(d, cands[b].0) is Some ==> flagged_has(fl, (#[trigger] cands[b]).0),
    ensures
        flagged_ok(d, p, ts, rs, fl),
{
    assert forall|a: int| 0 <= a < fl.len() implies {
        &&& is_bought(d, p, (#[trigger] fl[a]).type_id)
        &&& total_demand(d, p, ts, rs, fl[a].type_id) > 0
        &&& flag_reason(d, fl[a].type_id) == Some(fl[a].reason@)
        &&& fl[a].origin == spec_classify_origin(d, fl[a].type_id)
        &&& name_view(fl[a].name) == spec_name_of_type(d, fl[a].type_id)
    } by {
        assert(cand_has(cands, fl[a].type_id));
        let b = choose|b: int| 0 <= b < cands.len() && #[trigger] cands[b].0 == fl[a].type_id;
        assert(leaves.contains(cands[b].0) && cands[b].1 == dget(demand, cands[b].0) && cands[b].1 > 0);
    }
    assert forall|x: u64| is_bought(d, p, x) && #[trigger] total_demand(d, p, ts, rs, x) > 0 && flag_reason(d, x) is Some implies flagged_has(fl, x) by {
        assert(leaves.contains(x));
        assert(dget(demand, x) > 0);
        assert(cand_has(cands, x));
        let b = choose|b: int| 0 <= b < cands.len() && #[trigger] cands[b].0 == x;
        assert(flagged_has(fl, cands[b].0));
    }
}

/// Resolves the production chain of the plan `p`: one job per built Type of
/// the target's tree, in plan order, each covering in whole runs everything
/// the target and all the jobs ask of it; every bought Type with a demand on
/// one consolidated shopping list; the skills the jobs need; and the bought
/// Types that are out of scope. `NotBuildable` exactly when the target is not
/// decomposable; `QuantityOverflow` when some quantity of the plan does not
/// fit in a `u64`; a cycle or an over-deep tree stops discovery.
#[verifier::spinoff_prover]
#[verifier::rlimit(40)]
pub fn production_chain(d: &IndustryData, p: &ChainParams) -> (r: Result<ProductionChain, PlanError>)
    ensures
        match r {
            Ok(c) => spec_decomposable(d, p.target_id) && chain_ok(d, p, &c),
            Err(PlanError::NotBuildable) => !spec_decomposable(d, p.target_id),
            Err(PlanError::QuantityOverflow) => spec_decomposable(d, p.target_id)
                && exists|ts: Seq<u64>| #[trigger] is_plan_order(d, p, ts) && plan_overflows(d, p, ts),
            Err(PlanError::ProductionCycle(x)) => spec_decomposable(d, p.target_id) && on_cycle(d, p, x) && reachable(d, p, x),
            Err(PlanError::DepthExceeded) => spec_decomposable(d, p.target_id) && too_deep(d, p),
            Err(PlanError::CycleAmongBuilt) => false,
        },
{
    if !is_decomposable(d, p.target_id) {
        return Err(PlanError::NotBuildable);
    }
    let mut formulas: Vec<(u64, Formula)> = Vec::new();
    let mut leaves: Vec<u64> = Vec::new();
    let mut path: Vec<u64> = Vec::new();
    proof {
        lemma_walk_target(d, p);
        let c = Seq::<u64>::empty().push(p.target_id);
        assert(c[0] == p.target_id);
        assert(is_walk(d, p, c));
        reveal(finished_acyclic);
    }
    match discover(d, p, p.target_id, true, &mut path, &mut formulas, &mut leaves) {
        Ok(()) => {},
        Err(e) => {
            return Err(e);
        },
    }
    let order = match topo_built(&formulas) {
        Ok(o) => o,
        Err(e) => {
            proof {
                // Discovery finished every built node, and they hold no cycle.
                reveal(finished_acyclic);
                let c = choose|c: Seq<int>| #[trigger] is_fcycle(formulas@, c);
                assert(exists|i: int| 0 <= i < c.len() && Seq::<u64>::empty().contains(formulas@[#[trigger] c[i]].0));
            }
            return Err(e);
        },
    };
    let ts = plan_types(&formulas, &order);
    proof {
        assert(formulas@.len() == formulas.len());
        lemma_plan_order(d, p, formulas@, leaves@, order@, ts@);
        lemma_leaves_exact(d, p, formulas@, leaves@);
        assert forall|i: int| 0 <= i < ts@.len() implies #[trigger] order@[i] < formulas@.len() && formulas@[order@[i] as int].0 == ts@[i]
            && formula_matches(&formulas@[order@[i] as int].1, d, ts@[i]) by {
            assert(order@[i] < formulas@.len());
            let u = order@[i] as int;
            assert(formula_matches(&formulas@[u].1, d, formulas@[u].0));
        }
    }
    let (jobs, demand, skills) = match run_jobs(d, p, &formulas, &order, &ts) {
        Ok(v) => v,
        Err(e) => {
            return Err(e);
        },
    };
    let ghost n = ts@.len();
    let ghost rs = plan_runs(d, p, ts@, n);
    proof {
        lemma_jobs_resolved(d, p, ts@, jobs@);
    }
    let cands = bought_demand(&leaves, &demand);
    let shopping_list = group_by_origin(d, &cands);
    let flagged_leaves = flag_leaves(d, &cands);
    let required_skills = skill_reqs(d, &skills);
    let runs: u64 = if p.runs == 0 { 1 } else { p.runs };
    let target = ChainTarget { type_id: p.target_id, name: name_of_type(d, p.target_id), runs };
    let chain = ProductionChain { target, jobs, shopping_list, required_skills, flagged_leaves };
    proof {
        assert(job_types(chain.jobs@) == ts@);
        assert(job_runs(chain.jobs@) == rs);
        lemma_shopping(d, p, ts@, rs, leaves@, demand@, cands@, chain.shopping_list@);
        lemma_flagged(d, p, ts@, rs, leaves@, demand@, cands@, chain.flagged_leaves@);
        assert(req_pairs(chain.required_skills@) == skills@);
    }
    Ok(chain)
}


/// The first Type of a plan order is the target: every other Type of the
/// tree is a material of some built Type of it, which comes earlier.
proof fn lemma_plan_starts_at_target(d: &IndustryData, p: &ChainParams, ts: Seq<u64>)
    requires
        is_plan_order(d, p, ts),
        spec_decomposable(d, p.target_id),
        spec_has_formula(d, p.target_id),
    ensures
        ts.len() > 0,
        ts[0] == p.target_id,
{
    reveal(is_plan_order);
    let w0 = seq![p.target_id];
    assert(is_walk(d, p, w0) && w0.last() == p.target_id);
    assert(built(d, p, p.target_id));
    assert(ts.contains(p.target_id));
    let y = ts[0];
    if y != p.target_id {
        assert(ts.contains(y));
        let w = choose|w: Seq<u64>| #[trigger] is_walk(d, p, w) && w.last() == y;
        assert(w.len() >= 2);
        let n = w.len();
        let z = w[n - 2];
        assert(built(d, p, w[n - 2]) && mat_of(d, w[n - 2], w[n - 1]));
        let w2 = w.take(n - 1);
        assert forall|i: int| 0 <= i < w2.len() - 1 implies built(d, p, #[trigger] w2[i]) && mat_of(d, w2[i], w2[i + 1]) by {
            assert(w2[i] == w[i] && w2[i + 1] == w[i + 1]);
            assert(built(d, p, w[i]) && mat_of(d, w[i], w[i + 1]));
        }
        assert(is_walk(d, p, w2) && w2.last() == z);
        assert(ts.contains(z));
        let b = choose|b: int| 0 <= b < ts.len() && ts[b] == z;
        assert(!mat_of(d, ts[b], ts[0]));
    }
}

/// A shopping list names each Type once.
proof fn lemma_shopping_unique(d: &IndustryData, p: &ChainParams, ts: Seq<u64>, rs: Seq<int>, sl: Seq<ShopGroup>)
    requires
        shopping_list_ok(d, p, ts, rs, sl),
    ensures
        forall|g1: int, a1: int, g2: int, a2: int|
            0 <= g1 < sl.len() && 0 <= a1 < sl[g1].items@.len()
            && 0 <= g2 < sl.len() && 0 <= a2 < sl[g2].items@.len() && (g1 != g2 || a1 != a2)
            ==> (#[trigger] sl[g1].items@[a1]).type_id != (#[trigger] sl[g2].items@[a2]).type_id,
{
    assert forall|g1: int, a1: int, g2: int, a2: int|
        0 <= g1 < sl.len() && 0 <= a1 < sl[g1].items@.len()
        && 0 <= g2 < sl.len() && 0 <= a2 < sl[g2].items@.len() && (g1 != g2 || a1 != a2)
        implies (#[trigger] sl[g1].items@[a1]).type_id != (#[trigger] sl[g2].items@[a2]).type_id by {
        let x1 = sl[g1].items@[a1];
        let x2 = sl[g2].items@[a2];
        if x1.type_id == x2.type_id {
            if g1 != g2 {
                assert(spec_classify_origin(d, x1.type_id) == sl[g1].origin);
                assert(spec_classify_origin(d, x2.type_id) == sl[g2].origin);
                if g1 < g2 {
                    assert(origin_rank(sl[g1].origin) < origin_rank(sl[g2].origin));
                } else {
                    assert(origin_rank(sl[g2].origin) < origin_rank(sl[g1].origin));
                }
            } else {
                let ip = item_pairs(sl[g1].items@);
                assert(ip[a1] == (x1.type_id, x1.quantity) && ip[a2] == (x2.type_id, x2.quantity));
                assert(x1.quantity == total_demand(d, p, ts, rs, x1.type_id));
                assert(x2.quantity == total_demand(d, p, ts, rs, x2.type_id));
                if a1 < a2 {
                    assert(pair_before(ip[a1], ip[a2]));
                } else {
                    assert(pair_before(ip[a2], ip[a1]));
                }
            }
        }
    }
}

/// The target's job runs as often as asked: nothing in the plan consumes it.
proof fn lemma_target_runs(d: &IndustryData, p: &ChainParams, ts: Seq<u64>, rs: Seq<int>, job: Job)
    requires
        parents_first(d, ts),
        ts.len() > 0,
        ts[0] == p.target_id,
        rs.len() == ts.len(),
        job_for(d, p, job, ts[0], total_demand(d, p, ts, rs, ts[0])),
    ensures
        job.runs == runs_asked(p),
{
    lemma_jobs_after(d, p, ts, rs, 0);
    assert(rs.take(0) =~= Seq::<int>::empty());
    let o = spec_opr(d, p.target_id);
    let a = runs_asked(p);
    lemma_opr_pos(d, p.target_id);
    assert(total_demand(d, p, ts, rs, ts[0]) == a * o);
    assert(spec_ceil_div(a * o, o) == a) by (nonlinear_arith) requires o >= 1, a >= 1 {
        assert(a * o <= a * o + o - 1 < (a + 1) * o);
    }
}

/// The shape of a resolved chain whose target has a recipe: the target's job
/// comes first and runs as often as asked; every other job's Type is
/// decomposable, of an Origin the plan builds, and not on its buy list; no Type
/// is both built and bought, and the shopping list names each Type once.
#[verifier::spinoff_prover]
pub proof fn lemma_chain_shape(d: &IndustryData, p: &ChainParams, c: &ProductionChain)
    requires
        chain_ok(d, p, c),
        spec_decomposable(d, p.target_id),
        spec_has_formula(d, p.target_id),
    ensures
        c.jobs@.len() > 0,
        c.jobs@[0].type_id == p.target_id,
        c.target.runs == runs_asked(p),
        c.jobs@[0].runs == c.target.runs,
        forall|i: int| 0 < i < c.jobs@.len() ==> {
            let t = (#[trigger] c.jobs@[i]).type_id;
            &&& t != p.target_id
            &&& spec_decomposable(d, t)
            &&& p.build_origins@.contains(spec_classify_origin(d, t))
            &&& !p.buy_type_ids@.contains(t)
        },
        forall|g: int, a: int, i: int| 0 <= g < c.shopping_list@.len() && 0 <= a < c.shopping_list@[g].items@.len() && 0 <= i < c.jobs@.len()
            ==> (#[trigger] c.shopping_list@[g].items@[a]).type_id != (#[trigger] c.jobs@[i]).type_id,
        forall|g1: int, a1: int, g2: int, a2: int|
            0 <= g1 < c.shopping_list@.len() && 0 <= a1 < c.shopping_list@[g1].items@.len()
            && 0 <= g2 < c.shopping_list@.len() && 0 <= a2 < c.shopping_list@[g2].items@.len() && (g1 != g2 || a1 != a2)
            ==> (#[trigger] c.shopping_list@[g1].items@[a1]).type_id != (#[trigger] c.shopping_list@[g2].items@[a2]).type_id,
{
    let ts = job_types(c.jobs@);
    let rs = job_runs(c.jobs@);
    let sl = c.shopping_list@;
    lemma_plan_starts_at_target(d, p, ts);
    reveal(is_plan_order);
    assert(parents_first(d, ts));
    assert forall|i: int| 0 <= i < c.jobs@.len() implies #[trigger] c.jobs@[i].type_id == ts[i] && built(d, p, ts[i]) by {
        assert(ts.contains(ts[i]));
    }
    lemma_target_runs(d, p, ts, rs, c.jobs@[0]);
    assert forall|i: int| 0 < i < c.jobs@.len() implies {
        let t = (#[trigger] c.jobs@[i]).type_id;
        &&& t != p.target_id
        &&& spec_decomposable(d, t)
        &&& p.build_origins@.contains(spec_classify_origin(d, t))
        &&& !p.buy_type_ids@.contains(t)
    } by {
        assert(ts[0] != ts[i]);
        assert(spec_builds(d, p, ts[i]));
    }
    assert forall|g: int, a: int, i: int| 0 <= g < sl.len() && 0 <= a < sl[g].items@.len() && 0 <= i < c.jobs@.len()
        implies (#[trigger] sl[g].items@[a]).type_id != (#[trigger] c.jobs@[i]).type_id by {
        assert(is_bought(d, p, sl[g].items@[a].type_id));
        assert(built(d, p, ts[i]));
    }
    lemma_shopping_unique(d, p, ts, rs, sl);
}

// ── From the tool's arguments ────────────────────────────────────────────────

/// `k` is the key of some Origin.
pub open spec fn is_origin_key(k: Seq<char>) -> bool {
    ||| k == origin_key(Origin::Manufactured)
    ||| k == origin_key(Origin::ReactionOutput)
    ||| k == origin_key(Origin::Mineral)
    ||| k == origin_key(Origin::MoonMaterial)
    ||| k == origin_key(Origin::PiOutput)
    ||| k == origin_key(Origin::RawOther)
}

/// The first of `keys` that names no Origin, if any.
pub open spec fn first_unknown_origin(keys: Seq<String>) -> Option<int> {
    if exists|i: int| 0 <= i < keys.len() && !is_origin_key(#[trigger] keys[i]@) {
        Some(choose|i: int| 0 <= i < keys.len() && !is_origin_key(#[trigger] keys[i]@)
            && forall|j: int| 0 <= j < i ==> is_origin_key(#[trigger] keys[j]@))
    } else {
        None
    }
}

/// The plan a production-chain call asks for: runs default to one, every
/// decomposable Origin is built unless `build_origins` says otherwise, ME
/// defaults to zero. `Err` carries the first `build_origins` entry that names
/// no Origin.
pub fn chain_params(p: ProductionChainParam) -> (r: Result<ChainParams, String>)
    ensures
        match r {
            Ok(c) => {
                &&& c.target_id == p.product_type_id
                &&& c.runs == (match p.runs { Some(n) => n, None => 1 })
                &&& c.me_default == (match p.me { Some(m) => m, None => 0 })
                &&& c.me_overrides@ == (match p.me_overrides { Some(m) => m@, None => Map::empty() })
                &&& forall|x: u64| #[trigger] c.buy_type_ids@.contains(x) == (match p.buy_type_ids { Some(v) => v@.contains(x), None => false })
                &&& match p.build_origins {
                    Some(keys) => first_unknown_origin(keys@) is None
                        && c.build_origins@.len() == keys@.len()
                        && forall|i: int| 0 <= i < keys@.len() ==> origin_key(#[trigger] c.build_origins@[i]) == keys@[i]@,
                    None => c.build_origins@ == seq![Origin::Manufactured, Origin::ReactionOutput],
                }
            },
            Err(k) => match p.build_origins {
                Some(keys) => first_unknown_origin(keys@) matches Some(ix) && k@ == keys@[ix]@,
                None => false,
            },
        },
{
    let ProductionChainParam { product_type_id, runs, build_origins: keys_arg, buy_type_ids, me, me_overrides } = p;
    let build_origins: Vec<Origin> = match keys_arg {
        Some(keys) => {
            let mut out: Vec<Origin> = Vec::new();
            let mut i: usize = 0;
            while i < keys.len()
                invariant
                    0 <= i <= keys@.len(),
                    p.build_origins == Some(keys),
                    out@.len() == i,
                    forall|j: int| 0 <= j < i ==> origin_key(#[trigger] out@[j]) == keys@[j]@,
                decreases keys@.len() - i,
            {
                match Origin::from_key(keys[i].as_str()) {
                    Some(o) => out.push(o),
                    None => {
                        proof {
                            let ks = keys@;
                            assert(origin_key(Origin::Manufactured) != ks[i as int]@);
                            assert(origin_key(Origin::ReactionOutput) != ks[i as int]@);
                            assert(origin_key(Origin::Mineral) != ks[i as int]@);
                            assert(origin_key(Origin::MoonMaterial) != ks[i as int]@);
                            assert(origin_key(Origin::PiOutput) != ks[i as int]@);
                            assert(origin_key(Origin::RawOther) != ks[i as int]@);
                            assert(!is_origin_key(ks[i as int]@));
                            assert forall|j: int| 0 <= j < i implies is_origin_key(#[trigger] ks[j]@) by {
                                assert(origin_key(out@[j]) == ks[j]@);
                                match out@[j] { _ => {} }
                            }
                            assert(first_unknown_origin(ks) is Some);
                            let c = first_unknown_origin(ks)->0;
                            assert(0 <= c < ks.len() && !is_origin_key(ks[c]@) && forall|j: int| 0 <= j < c ==> is_origin_key(#[trigger] ks[j]@));
                            if c < i {
                                assert(is_origin_key(ks[c]@));
                            }
                            if c > i {
                                assert(is_origin_key(ks[i as int]@));
                            }
                            assert(c == i);
                        }
                        let bad = keys[i].clone();
                        assert(bad@ == keys@[i as int]@);
                        assert(first_unknown_origin(keys@) == Some(i as int));

                        return Err(bad);
                    },
                }
                i = i + 1;
            }
            proof {
                let ks = keys@;
                assert forall|c: int| 0 <= c < ks.len() implies is_origin_key(#[trigger] ks[c]@) by {
                    assert(origin_key(out@[c]) == ks[c]@);
                }
            }
            out
        },
        None => vec![Origin::Manufactured, Origin::ReactionOutput],
    };
    let mut buy: HashSet<u64> = HashSet::new();
    match buy_type_ids {
        Some(ids) => {
            let mut i: usize = 0;
            while i < ids.len()
                invariant
                    0 <= i <= ids@.len(),
                    p.buy_type_ids == Some(ids),
                    forall|x: u64| #[trigger] buy@.contains(x) == ids@.take(i as int).contains(x),
                decreases ids@.len() - i,
            {
                buy.insert(ids[i]);
                proof {
                    let s0 = ids@.take(i as int);
                    let s1 = ids@.take(i + 1);
                    assert(s1 =~= s0.push(ids@[i as int]));
                    assert forall|x: u64| #[trigger] buy@.contains(x) == s1.contains(x) by {
                        if x == ids@[i as int] {
                            assert(s1[i as int] == x);
                        } else {
                            if s1.contains(x) {
                                let j = choose|j: int| 0 <= j < s1.len() && s1[j] == x;
                                assert(s0[j] == x);
                            }
                            if s0.contains(x) {
                                let j = choose|j: int| 0 <= j < s0.len() && s0[j] == x;
                                assert(s1[j] == x);
                            }
                        }
                    }
                }
                i = i + 1;
            }
            proof {
                assert(ids@.take(ids@.len() as int) =~= ids@);
            }
        },
        None => {},
    }
    let me_overrides = match me_overrides {
        Some(m) => m,
        None => HashMap::new(),
    };
    Ok(ChainParams {
        target_id: product_type_id,
        runs: match runs { Some(n) => n, None => 1 },
        build_origins,
        buy_type_ids: buy,
        me_default: match me { Some(m) => m, None => 0 },
        me_overrides,
    })
}

} // verus!
