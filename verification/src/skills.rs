//! Character progression: the SkillPoints curve of a skill's rank, and the
//! SkillPlan that orders a set of prerequisites into something trainable.

use vstd::prelude::*;
use std::collections::HashMap;
use crate::params::SkillPlanTarget;
use crate::manufacturing::name_view;
use crate::skills_merge::{max_level, mentions, merge_skills, skills_sorted, lemma_max_level_sorted, lemma_max_level_absent};
use crate::chain::{ids_increasing, insert_id};
use crate::text::{decimal, push_decimal, push_str};

verus! {

/// `32^k`.
pub open spec fn pow32(k: nat) -> int
    decreases k,
{
    if k == 0 { 1 } else { 32 * pow32((k - 1) as nat) }
}

/// `r` is the integer nearest to `n * sqrt(2)`.
pub open spec fn nearest_sqrt2(n: int, r: int) -> bool {
    if n == 0 {
        r == 0
    } else {
        (2 * r - 1) * (2 * r - 1) < 8 * n * n && 8 * n * n < (2 * r + 1) * (2 * r + 1)
    }
}

/// The cumulative skill points to hold a skill of `rank` at `level`, as EVE's
/// curve `rank * 250 * sqrt(32)^(level - 1)` rounded to the nearest integer,
/// capped at `u64::MAX`. An odd level is an exact multiple of a power of 32; an
/// even one is `rank * 1000 * 32^((level - 2) / 2) * sqrt(2)`, rounded.
pub open spec fn sp_curve(rank: int, level: int, r: int) -> bool {
    if level == 0 {
        r == 0
    } else if level % 2 == 1 {
        let v = rank * 250 * pow32(((level - 1) / 2) as nat);
        r == if v > u64::MAX { u64::MAX as int } else { v }
    } else {
        let n = rank * 1000 * pow32(((level - 2) / 2) as nat);
        (r < u64::MAX && nearest_sqrt2(n, r))
            || (r == u64::MAX && (2 * r - 1) * (2 * r - 1) < 8 * n * n)
    }
}

/// The largest `n` with `n * sqrt(2) <= u64::MAX`.
pub const SQRT2_LIMIT: u128 = 13043817825332782211;

proof fn lemma_sqrt2_limit()
    ensures
        2 * (SQRT2_LIMIT as int) * (SQRT2_LIMIT as int) <= (u64::MAX as int) * (u64::MAX as int),
        2 * (SQRT2_LIMIT as int + 1) * (SQRT2_LIMIT as int + 1) > (u64::MAX as int) * (u64::MAX as int),
{
    assert(2 * (13043817825332782211int) * (13043817825332782211int) <= (18446744073709551615int) * (18446744073709551615int));
    assert(2 * (13043817825332782212int) * (13043817825332782212int) > (18446744073709551615int) * (18446744073709551615int));
}

/// The integer square root of `v`.
fn isqrt(v: u128) -> (r: u128)
    requires
        v <= (u64::MAX as int) * (u64::MAX as int),
    ensures
        r <= u64::MAX,
        r * r <= v,
        v < (r + 1) * (r + 1),
{
    let mut lo: u128 = 0;
    let mut hi: u128 = 0x1_0000_0000_0000_0000;
    while hi - lo > 1
        invariant
            lo < hi <= 0x1_0000_0000_0000_0000,
            lo * lo <= v,
            v < hi * hi,
        decreases hi - lo,
    {
        let mid = lo + (hi - lo) / 2;
        assert(mid < 0x1_0000_0000_0000_0000);
        assert(mid * mid < 0x1_0000_0000_0000_0000_0000_0000_0000_0000) by (nonlinear_arith)
            requires mid < 0x1_0000_0000_0000_0000;
        if mid * mid <= v {
            lo = mid;
        } else {
            hi = mid;
        }
    }
    assert(lo + 1 == hi);
    assert(lo <= u64::MAX) by (nonlinear_arith)
        requires lo * lo <= v, v <= (u64::MAX as int) * (u64::MAX as int), lo >= 0;
    lo
}

/// `rank * base * 32^k`, or `None` once it passes `cap`.
fn scaled_pow32(rank: u64, base: u128, k: u64, cap: u128) -> (r: Option<u128>)
    requires
        base <= 1000,
        cap <= u64::MAX,
    ensures
        match r {
            Some(v) => v == rank * base * pow32(k as nat) && v <= cap,
            None => rank * base * pow32(k as nat) > cap,
        },
{
    assert((rank as u128) * base <= 1000 * (u64::MAX as int)) by (nonlinear_arith)
        requires rank <= u64::MAX, base <= 1000, rank >= 0, base >= 0;
    let mut v: u128 = (rank as u128) * base;
    if v > cap {
        proof { lemma_pow32_pos(k as nat); }
        assert(rank * base * pow32(k as nat) >= rank * base) by (nonlinear_arith)
            requires pow32(k as nat) >= 1, rank * base >= 0;
        return None;
    }
    let mut i: u64 = 0;
    while i < k
        invariant
            0 <= i <= k,
            cap <= u64::MAX,
            v == rank * base * pow32(i as nat),
            v <= cap,
        decreases k - i,
    {
        proof {
            assert(pow32((i + 1) as nat) == 32 * pow32(i as nat));
        }
        let next = v * 32;
        assert(rank * base * pow32((i + 1) as nat) == 32 * (rank * base * pow32(i as nat))) by (nonlinear_arith)
            requires pow32((i + 1) as nat) == 32 * pow32(i as nat);
        if next > cap {
            proof {
                lemma_pow32_mono((i + 1) as nat, k as nat);
                assert(rank * base * pow32(k as nat) >= rank * base * pow32((i + 1) as nat)) by (nonlinear_arith)
                    requires pow32(k as nat) >= pow32((i + 1) as nat), rank * base >= 0;
            }
            return None;
        }
        v = next;
        i = i + 1;
    }
    Some(v)
}

proof fn lemma_pow32_pos(k: nat)
    ensures
        pow32(k) >= 1,
    decreases k,
{
    if k > 0 {
        lemma_pow32_pos((k - 1) as nat);
    }
}

proof fn lemma_pow32_mono(a: nat, b: nat)
    requires
        a <= b,
    ensures
        pow32(a) <= pow32(b),
    decreases b,
{
    if a < b {
        lemma_pow32_mono(a, (b - 1) as nat);
        lemma_pow32_pos((b - 1) as nat);
    }
}

/// Cumulative skill points to have a skill of the given rank at `level`:
/// `round(rank * 250 * sqrt(32)^(level - 1))`, capped at `u64::MAX`; 0 at
/// level 0.
pub fn skill_sp(rank: u64, level: u8) -> (r: u64)
    ensures
        sp_curve(rank as int, level as int, r as int),
{
    if level == 0 {
        return 0;
    }
    if level % 2 == 1 {
        let k = ((level - 1) / 2) as u64;
        return match scaled_pow32(rank, 250, k, u64::MAX as u128) {
            Some(v) => v as u64,
            None => u64::MAX,
        };
    }
    let m = ((level - 2) / 2) as u64;
    let n = match scaled_pow32(rank, 1000, m, SQRT2_LIMIT) {
        Some(n) => n,
        None => {
            proof {
                lemma_sqrt2_limit();
                let nn = rank * 1000 * pow32(m as nat);
                let mx = u64::MAX as int;
                assert((2 * mx - 1) * (2 * mx - 1) < 8 * nn * nn) by (nonlinear_arith)
                    requires nn >= SQRT2_LIMIT + 1, 2 * (SQRT2_LIMIT as int + 1) * (SQRT2_LIMIT as int + 1) > mx * mx, mx > 0;
            }
            return u64::MAX;
        },
    };
    if n == 0 {
        return 0;
    }
    proof {
        lemma_sqrt2_limit();
        assert(2 * n * n <= (u64::MAX as int) * (u64::MAX as int)) by (nonlinear_arith)
            requires n <= SQRT2_LIMIT, 2 * (SQRT2_LIMIT as int) * (SQRT2_LIMIT as int) <= (u64::MAX as int) * (u64::MAX as int), n >= 0;
    }
    let two_n2 = 2 * n * n;
    let s = isqrt(two_n2);
    assert(s * s + s < 0x1_0000_0000_0000_0000_0000_0000_0000_0000) by (nonlinear_arith)
        requires s <= u64::MAX;
    let round_down = two_n2 <= s * s + s;
    let ghost nn = n as int;
    let ghost ss = s as int;
    if round_down {
        assert(2 * nn * nn >= 2) by (nonlinear_arith)
            requires nn >= 1;
        proof {
            if ss == 0 {
                assert((ss + 1) * (ss + 1) == 1) by (nonlinear_arith) requires ss == 0;
            }
        }
        assert((2 * ss - 1) * (2 * ss - 1) < 8 * nn * nn && 8 * nn * nn < (2 * ss + 1) * (2 * ss + 1)) by (nonlinear_arith)
            requires ss * ss <= 2 * nn * nn, 2 * nn * nn <= ss * ss + ss, ss >= 1;
        if s == u64::MAX as u128 {
            return u64::MAX;
        }
        s as u64
    } else {
        let ghost r = ss + 1;
        assert((2 * r - 1) * (2 * r - 1) < 8 * nn * nn && 8 * nn * nn < (2 * r + 1) * (2 * r + 1)) by (nonlinear_arith)
            requires 2 * nn * nn < (ss + 1) * (ss + 1), 2 * nn * nn > ss * ss + ss, r == ss + 1, ss >= 0;
        if s >= u64::MAX as u128 {
            assert((2 * (u64::MAX as int) - 1) * (2 * (u64::MAX as int) - 1) < 8 * nn * nn) by (nonlinear_arith)
                requires 2 * nn * nn > ss * ss + ss, ss >= u64::MAX;
            return u64::MAX;
        }
        (s + 1) as u64
    }
}


/// The SP curve never falls from one level to the next.
pub proof fn lemma_sp_curve_monotone(rank: int, level: int, a: int, b: int)
    requires
        0 <= rank,
        0 <= level,
        0 <= a <= u64::MAX,
        0 <= b <= u64::MAX,
        sp_curve(rank, level, a),
        sp_curve(rank, level + 1, b),
    ensures
        a <= b,
{
    let mx = u64::MAX as int;
    if level == 0 {
    } else if level % 2 == 1 {
        let k = ((level - 1) / 2) as nat;
        assert(((level + 1 - 2) / 2) as nat == k);
        lemma_pow32_pos(k);
        let v = rank * 250 * pow32(k);
        let n = rank * 1000 * pow32(k);
        assert(n == 4 * v) by (nonlinear_arith) requires v == rank * 250 * pow32(k), n == rank * 1000 * pow32(k);
        assert(v >= 0) by (nonlinear_arith) requires rank >= 0, pow32(k) >= 1, v == rank * 250 * pow32(k);
        if b < mx {
            if v == 0 {
                assert(n == 0);
            } else {
                assert(b >= v) by (nonlinear_arith)
                    requires (2 * b + 1) * (2 * b + 1) > 8 * n * n, n == 4 * v, v >= 1, b >= 0;
            }
        }
    } else {
        let m = ((level - 2) / 2) as nat;
        assert(((level + 1 - 1) / 2) as nat == m + 1);
        assert(pow32(m + 1) == 32 * pow32(m));
        lemma_pow32_pos(m);
        let n = rank * 1000 * pow32(m);
        let w = rank * 250 * pow32(m + 1);
        assert(w == 8 * n) by (nonlinear_arith) requires n == rank * 1000 * pow32(m), w == rank * 250 * pow32(m + 1), pow32(m + 1) == 32 * pow32(m);
        assert(n >= 0) by (nonlinear_arith) requires rank >= 0, pow32(m) >= 1, n == rank * 1000 * pow32(m);
        if a == mx {
            assert(8 * n > mx) by (nonlinear_arith)
                requires (2 * mx - 1) * (2 * mx - 1) < 8 * n * n, mx > 1, n >= 0;
        } else if n == 0 {
        } else {
            assert(a <= 2 * n) by (nonlinear_arith)
                requires (2 * a - 1) * (2 * a - 1) < 8 * n * n, n >= 1, a >= 0;
        }
    }
}

/// One level of a skill's SP curve.
pub struct SpLevel {
    pub level: u8,
    /// Total SP to have the skill at this level.
    pub sp_to_reach: u64,
    /// SP to train just this level, from the one below.
    pub increment: u64,
}

/// The SP curve of a skill of `rank` over levels 1 to 5: what each level
/// costs in total and on top of the level below.
pub fn sp_breakdown(rank: u64) -> (r: Vec<SpLevel>)
    ensures
        r@.len() == 5,
        forall|i: int| 0 <= i < 5 ==> (#[trigger] r@[i]).level == i + 1 && sp_curve(rank as int, i + 1, r@[i].sp_to_reach as int),
        forall|i: int| 0 <= i < 5 ==> (#[trigger] r@[i]).increment == r@[i].sp_to_reach - (if i == 0 { 0 } else { r@[i - 1].sp_to_reach as int }),
{
    let mut out: Vec<SpLevel> = Vec::new();
    let mut prev: u64 = 0;
    let mut level: u8 = 1;
    while level <= 5
        invariant
            1 <= level <= 6,
            out@.len() == level - 1,
            sp_curve(rank as int, level - 1, prev as int),
            level > 1 ==> prev == out@[level - 2].sp_to_reach,
            forall|i: int| 0 <= i < level - 1 ==> (#[trigger] out@[i]).level == i + 1 && sp_curve(rank as int, i + 1, out@[i].sp_to_reach as int),
            forall|i: int| 0 <= i < level - 1 ==> (#[trigger] out@[i]).increment == out@[i].sp_to_reach - (if i == 0 { 0 } else { out@[i - 1].sp_to_reach as int }),
        decreases 6 - level,
    {
        let sp_to_reach = skill_sp(rank, level);
        proof {
            lemma_sp_curve_monotone(rank as int, level - 1, prev as int, sp_to_reach as int);
        }
        out.push(SpLevel { level, sp_to_reach, increment: sp_to_reach - prev });
        prev = sp_to_reach;
        level = level + 1;
    }
    out
}

/// Summing a curve's increments up to a level gives the SP to reach it.
pub open spec fn increments_upto(levels: Seq<SpLevel>, n: nat) -> int
    decreases n,
{
    if n == 0 { 0 } else { increments_upto(levels, (n - 1) as nat) + levels[n - 1].increment }
}

/// The increments of a curve add up to its cumulative points at every level.
pub proof fn lemma_increments_sum(levels: Seq<SpLevel>, n: nat)
    requires
        n <= levels.len(),
        forall|i: int| 0 <= i < levels.len() ==> (#[trigger] levels[i]).increment == levels[i].sp_to_reach - (if i == 0 { 0 } else { levels[i - 1].sp_to_reach as int }),
    ensures
        n > 0 ==> increments_upto(levels, n) == levels[n - 1].sp_to_reach,
    decreases n,
{
    if n > 0 {
        let l = levels[n - 1];
        assert(l.increment == l.sp_to_reach - (if n - 1 == 0 { 0 } else { levels[n - 2].sp_to_reach as int }));
        if n > 1 {
            lemma_increments_sum(levels, (n - 1) as nat);
        } else {
            assert(increments_upto(levels, 0) == 0);
        }
        assert(increments_upto(levels, n) == increments_upto(levels, (n - 1) as nat) + levels[n - 1].increment);
    }
}


// ── The skill plan ───────────────────────────────────────────────────────────

/// Deepest prerequisite chain the plan follows before giving up.
pub const MAX_SKILL_DEPTH: usize = 12;

/// What the planner reads of the SDE: the rank of every skill (a Type is a skill
/// exactly when it has one), each Type's direct prerequisites as
/// `(skill_id, level)` in slot order, and Type names cut to the server's
/// language.
pub struct SkillData {
    pub ranks: HashMap<u64, u64>,
    pub prereqs: HashMap<u64, Vec<(u64, u8)>>,
    pub names: HashMap<u64, String>,
}

/// `t` is a skill.
pub open spec fn is_skill(sd: &SkillData, t: u64) -> bool {
    sd.ranks@.contains_key(t)
}

/// `t`'s direct prerequisites.
pub open spec fn prereqs_of(sd: &SkillData, t: u64) -> Seq<(u64, u8)> {
    if sd.prereqs@.contains_key(t) { sd.prereqs@[t]@ } else { Seq::empty() }
}

/// The rank used for `t`: its own, or 1 when it has none.
pub open spec fn rank_of(sd: &SkillData, t: u64) -> u64 {
    if is_skill(sd, t) { sd.ranks@[t] } else { 1 }
}

/// `t`'s name.
pub open spec fn skill_name(sd: &SkillData, t: u64) -> Option<Seq<char>> {
    if sd.names@.contains_key(t) { Some(sd.names@[t]@) } else { None }
}

/// A skill in a prerequisite tree, with the level it is needed at there.
pub struct PrereqNode {
    pub skill_id: u64,
    pub skill_name: Option<String>,
    pub required_level: u8,
    pub rank: u64,
    /// The skill has no rank of its own; 1 was assumed.
    pub rank_assumed: bool,
    pub prerequisites: Vec<PrereqNode>,
}

/// The demands a prerequisite tree makes, in preorder: `(skill, level,
/// target)` for the skill `x` needed at `l`, then for each of its
/// prerequisites' trees, `d` levels deep at most.
pub open spec fn tree_demands(sd: &SkillData, x: u64, l: u8, t: u64, d: nat) -> Seq<(u64, u8, u64)>
    decreases d, 0nat, 0nat,
{
    if d == 0 {
        Seq::empty()
    } else {
        seq![(x, l, t)] + children_demands(sd, prereqs_of(sd, x), t, (d - 1) as nat)
    }
}

/// The demands of the trees of `ps`, one after the other.
pub open spec fn children_demands(sd: &SkillData, ps: Seq<(u64, u8)>, t: u64, d: nat) -> Seq<(u64, u8, u64)>
    decreases d, 1nat, ps.len(),
{
    if ps.len() == 0 {
        Seq::empty()
    } else {
        children_demands(sd, ps.drop_last(), t, d) + tree_demands(sd, ps.last().0, ps.last().1, t, d)
    }
}

/// The fault the prerequisite walk meets first, in preorder, from skill `x`
/// reached along `path`: `x` already on the path is a cycle, a path already
/// [`MAX_SKILL_DEPTH`] long is too deep, else the first fault among its
/// prerequisites' walks.
pub open spec fn tree_fault(sd: &SkillData, x: u64, path: Seq<u64>) -> Option<SkillPlanError>
    decreases (MAX_SKILL_DEPTH - path.len()) as nat, 0nat, 0nat,
{
    if path.contains(x) {
        Some(SkillPlanError::Cycle(x))
    } else if path.len() >= MAX_SKILL_DEPTH {
        Some(SkillPlanError::DepthExceeded)
    } else {
        children_fault(sd, prereqs_of(sd, x), path.push(x))
    }
}

/// The first fault among the walks of `ps`, each from `path`.
pub open spec fn children_fault(sd: &SkillData, ps: Seq<(u64, u8)>, path: Seq<u64>) -> Option<SkillPlanError>
    decreases (MAX_SKILL_DEPTH - path.len()) as nat, 1nat, ps.len(),
{
    if ps.len() == 0 {
        None
    } else {
        match children_fault(sd, ps.drop_last(), path) {
            Some(e) => Some(e),
            None => tree_fault(sd, ps.last().0, path),
        }
    }
}

proof fn lemma_children_fault_prefix(sd: &SkillData, ps: Seq<(u64, u8)>, path: Seq<u64>, m: int, n: int)
    requires
        0 <= m <= n <= ps.len(),
        children_fault(sd, ps.take(m), path) is Some,
    ensures
        children_fault(sd, ps.take(n), path) == children_fault(sd, ps.take(m), path),
    decreases n - m,
{
    if n > m {
        lemma_children_fault_prefix(sd, ps, path, m, n - 1);
        assert(ps.take(n).drop_last() =~= ps.take(n - 1));
    }
}

fn name_of(sd: &SkillData, t: u64) -> (r: Option<String>)
    ensures
        name_view(r) == skill_name(sd, t),
{
    match sd.names.get(&t) {
        Some(n) => Some(n.clone()),
        None => None,
    }
}

fn prereqs(sd: &SkillData, t: u64) -> (r: Vec<(u64, u8)>)
    ensures
        r@ == prereqs_of(sd, t),
{
    match sd.prereqs.get(&t) {
        Some(v) => {
            let mut out: Vec<(u64, u8)> = Vec::new();
            let mut i: usize = 0;
            while i < v.len()
                invariant
                    0 <= i <= v@.len(),
                    out@ == v@.take(i as int),
                decreases v@.len() - i,
            {
                out.push(v[i]);
                assert(v@.take(i + 1) =~= v@.take(i as int).push(v@[i as int]));
                i = i + 1;
            }
            assert(v@.take(v@.len() as int) =~= v@);
            out
        },
        None => Vec::new(),
    }
}

fn rank_for(sd: &SkillData, t: u64) -> (r: (u64, bool))
    ensures
        r.0 == rank_of(sd, t),
        r.1 == !is_skill(sd, t),
{
    match sd.ranks.get(&t) {
        Some(r) => (*r, false),
        None => (1, true),
    }
}

/// Why a skill plan could not be made.
#[derive(Debug, Clone, Copy, PartialEq, Eq)]
pub enum SkillPlanError {
    /// A skill requires itself, through this skill.
    Cycle(u64),
    /// A prerequisite chain is deeper than [`MAX_SKILL_DEPTH`].
    DepthExceeded,
    /// The plan's skills cannot be ordered prerequisites-first.
    CycleInPlan,
    /// The total SP does not fit in a `u64`.
    SpOverflow,
}

/// Builds the prerequisite tree of skill `x` needed at `l` for target `t`,
/// logging every demand it makes in preorder.
fn build_node(sd: &SkillData, x: u64, l: u8, t: u64, path: &mut Vec<u64>, log: &mut Vec<(u64, u8, u64)>)
    -> (r: Result<PrereqNode, SkillPlanError>)
    requires
        old(path)@.len() <= MAX_SKILL_DEPTH,
    ensures
        r.is_ok() ==> final(path)@ == old(path)@,
        r.is_ok() ==> final(log)@ == old(log)@ + tree_demands(sd, x, l, t, (MAX_SKILL_DEPTH - old(path)@.len()) as nat),
        r matches Ok(n) ==> n.skill_id == x && n.required_level == l && n.rank == rank_of(sd, x)
            && n.rank_assumed == !is_skill(sd, x) && name_view(n.skill_name) == skill_name(sd, x)
            && n.prerequisites@.len() == prereqs_of(sd, x).len()
            && forall|i: int| 0 <= i < n.prerequisites@.len() ==> (#[trigger] n.prerequisites@[i]).skill_id == prereqs_of(sd, x)[i].0
                && n.prerequisites@[i].required_level == prereqs_of(sd, x)[i].1,
        match tree_fault(sd, x, old(path)@) {
            Some(e) => r == Err::<PrereqNode, SkillPlanError>(e),
            None => r is Ok,
        },
    decreases MAX_SKILL_DEPTH - old(path)@.len(),
{
    let mut i: usize = 0;
    while i < path.len()
        invariant
            0 <= i <= path@.len(),
            forall|j: int| 0 <= j < i ==> path@[j] != x,
        decreases path@.len() - i,
    {
        if path[i] == x {
            assert(old(path)@.contains(x)) by { assert(path@[i as int] == x); }
            return Err(SkillPlanError::Cycle(x));
        }
        i = i + 1;
    }
    assert(!old(path)@.contains(x));
    if path.len() >= MAX_SKILL_DEPTH {
        return Err(SkillPlanError::DepthExceeded);
    }
    let ghost depth = (MAX_SKILL_DEPTH - old(path)@.len()) as nat;
    let ghost log0 = log@;
    log.push((x, l, t));
    let (rank, rank_assumed) = rank_for(sd, x);
    path.push(x);
    let ps = prereqs(sd, x);
    let mut children: Vec<PrereqNode> = Vec::new();
    let mut k: usize = 0;
    while k < ps.len()
        invariant
            0 <= k <= ps@.len(),
            ps@ == prereqs_of(sd, x),
            path@ == old(path)@.push(x),
            path@.len() <= MAX_SKILL_DEPTH,
            depth == MAX_SKILL_DEPTH - old(path)@.len(),
            depth >= 1,
            log@ == log0 + seq![(x, l, t)] + children_demands(sd, ps@.take(k as int), t, (depth - 1) as nat),
            children@.len() == k,
            forall|j: int| 0 <= j < k ==> (#[trigger] children@[j]).skill_id == ps@[j].0 && children@[j].required_level == ps@[j].1,
            !old(path)@.contains(x),
            old(path)@.len() < MAX_SKILL_DEPTH,
            children_fault(sd, ps@.take(k as int), path@) is None,
        decreases ps@.len() - k,
    {
        let (q, lq) = ps[k];
        let ghost lb = log@;
        proof {
            assert(ps@.take(k + 1).drop_last() =~= ps@.take(k as int));
            assert(ps@.take(k + 1).last() == (q, lq));
        }
        let child = match build_node(sd, q, lq, t, path, log) {
            Ok(c) => c,
            Err(e) => {
                proof {
                    assert(children_fault(sd, ps@.take(k + 1), old(path)@.push(x)) == Some(e));
                    lemma_children_fault_prefix(sd, ps@, old(path)@.push(x), k + 1, ps@.len() as int);
                    assert(ps@.take(ps@.len() as int) =~= ps@);
                }
                return Err(e);
            },
        };
        proof {
            assert(ps@.take(k + 1).drop_last() =~= ps@.take(k as int));
            assert(ps@.take(k + 1).last() == (q, lq));
            assert((MAX_SKILL_DEPTH - path@.len()) as nat == (depth - 1) as nat);
            assert(log@ =~= log0 + seq![(x, l, t)] + children_demands(sd, ps@.take(k + 1), t, (depth - 1) as nat));
        }
        children.push(child);
        k = k + 1;
    }
    path.pop();
    proof {
        assert(ps@.take(ps@.len() as int) =~= ps@);
        assert(path@ =~= old(path)@);
        assert(tree_fault(sd, x, old(path)@) == children_fault(sd, ps@, old(path)@.push(x)));
        assert(log@ =~= log0 + tree_demands(sd, x, l, t, depth));
    }
    Ok(PrereqNode {
        skill_id: x,
        skill_name: name_of(sd, x),
        required_level: l,
        rank,
        rank_assumed,
        prerequisites: children,
    })
}


/// `p` lists `q` among its direct prerequisites.
pub open spec fn requires_skill(sd: &SkillData, p: u64, q: u64) -> bool {
    exists|i: int| 0 <= i < prereqs_of(sd, p).len() && #[trigger] prereqs_of(sd, p)[i].0 == q
}

fn requires_exec(sd: &SkillData, p: u64, q: u64) -> (r: bool)
    ensures
        r == requires_skill(sd, p, q),
{
    let ps = prereqs(sd, p);
    let mut i: usize = 0;
    while i < ps.len()
        invariant
            0 <= i <= ps@.len(),
            ps@ == prereqs_of(sd, p),
            forall|j: int| 0 <= j < i ==> ps@[j].0 != q,
        decreases ps@.len() - i,
    {
        if ps[i].0 == q {
            assert(prereqs_of(sd, p)[i as int].0 == q);
            return true;
        }
        i = i + 1;
    }
    false
}

/// `x` requires itself: a chain of direct prerequisites leads from `x` back
/// to `x`.
#[verifier::opaque]
pub open spec fn on_skill_cycle(sd: &SkillData, x: u64) -> bool {
    exists|c: Seq<u64>| #[trigger] c.len() >= 2 && c[0] == x && c.last() == x
        && forall|i: int| 0 <= i < c.len() - 1 ==> requires_skill(sd, #[trigger] c[i], c[i + 1])
}

proof fn lemma_children_fault_none(sd: &SkillData, ps: Seq<(u64, u8)>, path: Seq<u64>, i: int)
    requires
        children_fault(sd, ps, path) is None,
        0 <= i < ps.len(),
    ensures
        tree_fault(sd, ps[i].0, path) is None,
    decreases ps.len(),
{
    if i < ps.len() - 1 {
        lemma_children_fault_none(sd, ps.drop_last(), path, i);
        assert(ps.drop_last()[i] == ps[i]);
    }
}

/// Along any chain of prerequisites from a skill whose walk meets no fault,
/// every skill is new: off the path, and not met before on the chain.
proof fn lemma_walk_fresh(sd: &SkillData, path: Seq<u64>, w: Seq<u64>)
    requires
        w.len() >= 1,
        tree_fault(sd, w[0], path) is None,
        forall|i: int| 0 <= i < w.len() - 1 ==> requires_skill(sd, #[trigger] w[i], w[i + 1]),
    ensures
        !path.contains(w.last()),
        forall|j: int| 0 <= j < w.len() - 1 ==> w[j] != w.last(),
    decreases w.len(),
{
    if w.len() > 1 {
        let x = w[0];
        assert(requires_skill(sd, w[0], w[1]));
        let i = choose|i: int| 0 <= i < prereqs_of(sd, x).len() && #[trigger] prereqs_of(sd, x)[i].0 == w[1];
        lemma_children_fault_none(sd, prereqs_of(sd, x), path.push(x), i);
        let w2 = w.drop_first();
        assert forall|k: int| 0 <= k < w2.len() - 1 implies requires_skill(sd, #[trigger] w2[k], w2[k + 1]) by {
            assert(w2[k] == w[k + 1] && w2[k + 1] == w[k + 2]);
            assert(requires_skill(sd, w[k + 1], w[k + 2]));
        }
        lemma_walk_fresh(sd, path.push(x), w2);
        assert(w2.last() == w.last());
        assert(path.push(x)[path.len() as int] == x);
        assert forall|j: int| 0 <= j < w.len() - 1 implies w[j] != w.last() by {
            if j > 0 {
                assert(w2[j - 1] == w[j]);
            }
        }
        assert(!path.contains(w.last())) by {
            if path.contains(w.last()) {
                let q = choose|q: int| 0 <= q < path.len() && path[q] == w.last();
                assert(path.push(x)[q] == w.last());
            }
        }
    }
}

/// A skill whose walk meets no fault requires itself through no chain.
pub proof fn lemma_fault_free_acyclic(sd: &SkillData, x: u64, path: Seq<u64>)
    requires
        tree_fault(sd, x, path) is None,
    ensures
        !on_skill_cycle(sd, x),
{
    reveal(on_skill_cycle);
    if on_skill_cycle(sd, x) {
        let c = choose|c: Seq<u64>| #[trigger] c.len() >= 2 && c[0] == x && c.last() == x
            && forall|i: int| 0 <= i < c.len() - 1 ==> requires_skill(sd, #[trigger] c[i], c[i + 1]);
        lemma_walk_fresh(sd, path, c);
        assert(c[0] != c.last());
    }
}

proof fn lemma_tree_demands_acyclic(sd: &SkillData, x: u64, l: u8, t: u64, path: Seq<u64>)
    requires
        tree_fault(sd, x, path) is None,
        path.len() <= MAX_SKILL_DEPTH,
    ensures
        forall|i: int| 0 <= i < tree_demands(sd, x, l, t, (MAX_SKILL_DEPTH - path.len()) as nat).len()
            ==> !on_skill_cycle(sd, #[trigger] tree_demands(sd, x, l, t, (MAX_SKILL_DEPTH - path.len()) as nat)[i].0),
    decreases (MAX_SKILL_DEPTH - path.len()) as nat, 0nat, 0nat,
{
    let d = (MAX_SKILL_DEPTH - path.len()) as nat;
    assert(d > 0);
    lemma_fault_free_acyclic(sd, x, path);
    lemma_children_demands_acyclic(sd, prereqs_of(sd, x), t, path.push(x));
    let sq = tree_demands(sd, x, l, t, d);
    let cs = children_demands(sd, prereqs_of(sd, x), t, (d - 1) as nat);
    assert((MAX_SKILL_DEPTH - path.push(x).len()) as nat == (d - 1) as nat);
    assert(sq == seq![(x, l, t)] + cs);
    assert forall|i: int| 0 <= i < sq.len() implies !on_skill_cycle(sd, #[trigger] sq[i].0) by {
        if i > 0 {
            assert(sq[i] == cs[i - 1]);
        }
    }
}

proof fn lemma_children_demands_acyclic(sd: &SkillData, ps: Seq<(u64, u8)>, t: u64, path: Seq<u64>)
    requires
        children_fault(sd, ps, path) is None,
        path.len() <= MAX_SKILL_DEPTH,
    ensures
        forall|i: int| 0 <= i < children_demands(sd, ps, t, (MAX_SKILL_DEPTH - path.len()) as nat).len()
            ==> !on_skill_cycle(sd, #[trigger] children_demands(sd, ps, t, (MAX_SKILL_DEPTH - path.len()) as nat)[i].0),
    decreases (MAX_SKILL_DEPTH - path.len()) as nat, 1nat, ps.len(),
{
    let d = (MAX_SKILL_DEPTH - path.len()) as nat;
    if ps.len() > 0 {
        lemma_children_demands_acyclic(sd, ps.drop_last(), t, path);
        lemma_tree_demands_acyclic(sd, ps.last().0, ps.last().1, t, path);
        let a = children_demands(sd, ps.drop_last(), t, d);
        let b = tree_demands(sd, ps.last().0, ps.last().1, t, d);
        let sq = children_demands(sd, ps, t, d);
        assert(sq == a + b);
        assert forall|i: int| 0 <= i < sq.len() implies !on_skill_cycle(sd, #[trigger] sq[i].0) by {
            if i < a.len() {
                assert(sq[i] == a[i]);
            } else {
                assert(sq[i] == b[i - a.len()]);
            }
        }
    }
}

/// When no walk of the targets' trees meets a fault, no skill they demand
/// requires itself.
pub proof fn lemma_plan_demands_acyclic(sd: &SkillData, targets: Seq<SkillPlanTarget>)
    requires
        plan_fault(sd, targets) is None,
    ensures
        forall|i: int| 0 <= i < plan_demands(sd, targets).len() ==> !on_skill_cycle(sd, #[trigger] plan_demands(sd, targets)[i].0),
    decreases targets.len(),
{
    if targets.len() > 0 {
        lemma_plan_demands_acyclic(sd, targets.drop_last());
        lemma_children_demands_acyclic(sd, roots_of(sd, targets.last()), targets.last().type_id, Seq::empty());
        let a = plan_demands(sd, targets.drop_last());
        let e = Seq::<u64>::empty();
        assert((MAX_SKILL_DEPTH - e.len()) as nat == MAX_SKILL_DEPTH as nat);
        let b = children_demands(sd, roots_of(sd, targets.last()), targets.last().type_id, (MAX_SKILL_DEPTH - e.len()) as nat);
        let sq = plan_demands(sd, targets);
        assert(sq == a + b);
        assert forall|i: int| 0 <= i < sq.len() implies !on_skill_cycle(sd, #[trigger] sq[i].0) by {
            if i < a.len() {
                assert(sq[i] == a[i]);
            } else {
                assert(sq[i] == b[i - a.len()]);
                assert(!on_skill_cycle(sd, b[i - a.len()].0));
            }
        }
    }
}

/// From index `q`, `k` steps down through untaken prerequisites.
spec fn descend(sd: &SkillData, ids: Seq<u64>, taken: Seq<bool>, q: int, k: nat) -> int
    decreases k,
{
    if k == 0 {
        q
    } else {
        let above = descend(sd, ids, taken, q, (k - 1) as nat);
        choose|u: int| 0 <= u < ids.len() && !taken[u] && #[trigger] requires_skill(sd, ids[above], ids[u])
    }
}

proof fn lemma_descend(sd: &SkillData, ids: Seq<u64>, taken: Seq<bool>, q: int, k: nat)
    requires
        taken.len() == ids.len(),
        0 <= q < ids.len(),
        !taken[q],
        forall|v: int| 0 <= v < ids.len() && !taken[v]
            ==> exists|u: int| 0 <= u < ids.len() && !taken[u] && #[trigger] requires_skill(sd, ids[v], ids[u]),
    ensures
        0 <= descend(sd, ids, taken, q, k) < ids.len(),
        !taken[descend(sd, ids, taken, q, k)],
        k > 0 ==> requires_skill(sd, ids[descend(sd, ids, taken, q, (k - 1) as nat)], ids[descend(sd, ids, taken, q, k)]),
    decreases k,
{
    if k > 0 {
        lemma_descend(sd, ids, taken, q, (k - 1) as nat);
    }
}

/// `n + 1` indices below `n` repeat one.
proof fn lemma_int_repeat(s: Seq<int>, n: nat)
    requires
        s.len() == n + 1,
        forall|a: int| 0 <= a < s.len() ==> 0 <= #[trigger] s[a] < n,
    ensures
        exists|a: int, b: int| 0 <= a < b < s.len() && #[trigger] s[a] == #[trigger] s[b],
{
    if !(exists|a: int, b: int| 0 <= a < b < s.len() && #[trigger] s[a] == #[trigger] s[b]) {
        let t = s.take(n as int);
        assert forall|a: int| 0 <= a < t.len() implies 0 <= #[trigger] t[a] < n by {
            assert(t[a] == s[a]);
        }
        assert forall|a: int, b: int| 0 <= a < b < t.len() implies #[trigger] t[a] != #[trigger] t[b] by {
            assert(t[a] == s[a] && t[b] == s[b]);
        }
        assert(0 <= s[n as int] < n);
        lemma_int_indices_cover(t, n, s[n as int]);
        let a = choose|a: int| 0 <= a < t.len() && t[a] == s[n as int];
        assert(s[a] == s[n as int]);
    }
}

/// Some index below `n` is not taken when fewer than `n` distinct ones hold
/// every taken index.
proof fn lemma_untaken(taken: Seq<bool>, pos: Seq<int>) -> (q: int)
    requires
        pos.len() < taken.len(),
        forall|a: int| 0 <= a < pos.len() ==> 0 <= #[trigger] pos[a] < taken.len(),
        forall|a: int, b: int| 0 <= a < b < pos.len() ==> #[trigger] pos[a] != #[trigger] pos[b],
        forall|j: int| 0 <= j < taken.len() && #[trigger] taken[j] ==> pos.contains(j),
    ensures
        0 <= q < taken.len(),
        !taken[q],
{
    broadcast use vstd::seq_lib::group_seq_properties;
    broadcast use vstd::set_lib::group_set_properties;
    let n = taken.len();
    if exists|j: int| 0 <= j < n && !#[trigger] taken[j] {
        choose|j: int| 0 <= j < n && !#[trigger] taken[j]
    } else {
        assert(pos.no_duplicates()) by {
            assert forall|a: int, b: int| 0 <= a < pos.len() && 0 <= b < pos.len() && a != b implies pos[a] != pos[b] by {
                if a < b { assert(pos[a] != pos[b]); } else { assert(pos[b] != pos[a]); }
            }
        }
        pos.unique_seq_to_set();
        vstd::set_lib::lemma_int_range(0, n as int);
        assert(vstd::set_lib::set_int_range(0, n as int).subset_of(pos.to_set())) by {
            assert forall|j: int| vstd::set_lib::set_int_range(0, n as int).contains(j) implies pos.to_set().contains(j) by {
                assert(taken[j]);
            }
        }
        vstd::set_lib::lemma_len_subset(vstd::set_lib::set_int_range(0, n as int), pos.to_set());
        0
    }
}

/// When no untaken skill is ready, the skills hold one that requires itself.
#[verifier::spinoff_prover]
proof fn lemma_skills_stuck(sd: &SkillData, ids: Seq<u64>, taken: Seq<bool>, pos: Seq<int>)
    requires
        taken.len() == ids.len(),
        pos.len() < ids.len(),
        forall|a: int| 0 <= a < pos.len() ==> 0 <= #[trigger] pos[a] < ids.len(),
        forall|a: int, b: int| 0 <= a < b < pos.len() ==> #[trigger] pos[a] != #[trigger] pos[b],
        forall|j: int| 0 <= j < ids.len() && #[trigger] taken[j] ==> pos.contains(j),
        forall|v: int| 0 <= v < ids.len() && !taken[v]
            ==> exists|u: int| 0 <= u < ids.len() && !taken[u] && #[trigger] requires_skill(sd, ids[v], ids[u]),
    ensures
        exists|x: u64| ids.contains(x) && #[trigger] on_skill_cycle(sd, x),
{
    let n = ids.len();
    let q0 = lemma_untaken(taken, pos);
    assert forall|k: nat| #![trigger descend(sd, ids, taken, q0, k)] true implies {
        &&& 0 <= descend(sd, ids, taken, q0, k) < n
        &&& k > 0 ==> requires_skill(sd, ids[descend(sd, ids, taken, q0, (k - 1) as nat)], ids[descend(sd, ids, taken, q0, k)])
    } by {
        lemma_descend(sd, ids, taken, q0, k);
    }
    let s = Seq::new((n + 1) as nat, |k: int| descend(sd, ids, taken, q0, k as nat));
    assert forall|a: int| 0 <= a < s.len() implies 0 <= #[trigger] s[a] < n by {
        assert(0 <= descend(sd, ids, taken, q0, a as nat) < n);
    }
    lemma_int_repeat(s, n);
    let (a, b) = choose|a: int, b: int| 0 <= a < b < s.len() && #[trigger] s[a] == #[trigger] s[b];
    let c = Seq::new((b - a + 1) as nat, |i: int| ids[descend(sd, ids, taken, q0, (a + i) as nat)]);
    assert forall|i: int| 0 <= i < c.len() - 1 implies requires_skill(sd, #[trigger] c[i], c[i + 1]) by {
        let k = (a + i + 1) as nat;
        assert(requires_skill(sd, ids[descend(sd, ids, taken, q0, (k - 1) as nat)], ids[descend(sd, ids, taken, q0, k)]));
        assert((k - 1) as nat == (a + i) as nat);
    }
    assert(s[a] == descend(sd, ids, taken, q0, a as nat));
    assert(s[b] == descend(sd, ids, taken, q0, b as nat));
    assert(c[0] == c.last());
    let x = c[0];
    assert(0 <= s[a] < n);
    assert(ids[s[a]] == x);
    reveal(on_skill_cycle);
    assert(c.len() >= 2 && c[0] == x && c.last() == x
        && forall|i: int| 0 <= i < c.len() - 1 ==> requires_skill(sd, #[trigger] c[i], c[i + 1]));
    assert(on_skill_cycle(sd, x));
    assert(ids.contains(x));
}

/// `order` lists `ids` once each, every skill after the ones it requires,
/// taking the lowest skill ID among the remaining skills that require none of
/// the remaining ones.
pub open spec fn is_skill_order(sd: &SkillData, ids: Seq<u64>, order: Seq<u64>) -> bool {
    &&& order.len() == ids.len()
    &&& forall|a: int, b: int| 0 <= a < b < order.len() ==> #[trigger] order[a] != #[trigger] order[b]
    &&& forall|x: u64| #[trigger] order.contains(x) <==> ids.contains(x)
    &&& forall|a: int, b: int| 0 <= a <= b < order.len() ==> !requires_skill(sd, #[trigger] order[a], #[trigger] order[b])
    &&& forall|a: int, j: int| 0 <= a <= j < order.len() && (forall|c: int| a <= c < order.len() ==> !requires_skill(sd, order[j], #[trigger] order[c]))
            ==> #[trigger] order[a] <= #[trigger] order[j]
}

/// Orders the distinct skills `ids` prerequisites-first, lowest ID first among
/// the ready ones. `Err` when they cannot be ordered.
fn skill_order(sd: &SkillData, ids: &Vec<u64>) -> (r: Result<Vec<u64>, SkillPlanError>)
    requires
        forall|a: int, b: int| 0 <= a < b < ids@.len() ==> #[trigger] ids@[a] != #[trigger] ids@[b],
    ensures
        match r {
            Ok(order) => is_skill_order(sd, ids@, order@),
            Err(e) => e == SkillPlanError::CycleInPlan && exists|x: u64| ids@.contains(x) && #[trigger] on_skill_cycle(sd, x),
        },
{
    let n = ids.len();
    let mut taken: Vec<bool> = Vec::new();
    let mut i: usize = 0;
    while i < n
        invariant
            0 <= i <= n,
            taken@.len() == i,
            forall|j: int| 0 <= j < i ==> !taken@[j],
        decreases n - i,
    {
        taken.push(false);
        i = i + 1;
    }
    let mut order: Vec<u64> = Vec::new();
    let ghost mut pos: Seq<int> = Seq::empty();
    while order.len() < n
        invariant
            n == ids@.len(),
            forall|a: int, b: int| 0 <= a < b < ids@.len() ==> #[trigger] ids@[a] != #[trigger] ids@[b],
            taken@.len() == n,
            order@.len() == pos.len(),
            order@.len() <= n,
            forall|a: int| 0 <= a < pos.len() ==> 0 <= #[trigger] pos[a] < n && order@[a] == ids@[pos[a]] && taken@[pos[a]],
            forall|a: int, b: int| 0 <= a < b < pos.len() ==> #[trigger] pos[a] != #[trigger] pos[b],
            forall|j: int| 0 <= j < n && #[trigger] taken@[j] ==> pos.contains(j),
            forall|a: int, u: int| 0 <= a < pos.len() && 0 <= u < n && !taken@[u] ==> !requires_skill(sd, #[trigger] order@[a], #[trigger] ids@[u]),
            forall|a: int, b: int| 0 <= a <= b < order@.len() ==> !requires_skill(sd, #[trigger] order@[a], #[trigger] order@[b]),
            forall|a: int, j: int| 0 <= a < order@.len() && 0 <= j < n && !pos.take(a).contains(j)
                && (forall|u: int| 0 <= u < n && !pos.take(a).contains(u) ==> !requires_skill(sd, ids@[j], #[trigger] ids@[u]))
                ==> #[trigger] order@[a] <= #[trigger] ids@[j],
        decreases n - order@.len(),
    {
        let mut best: Option<usize> = None;
        let mut j: usize = 0;
        while j < n
            invariant
                n == ids@.len(),
                taken@.len() == n,
                0 <= j <= n,
                match best {
                    Some(b) => b < j && !taken@[b as int]
                        && (forall|u: int| 0 <= u < n && !taken@[u] ==> !requires_skill(sd, ids@[b as int], #[trigger] ids@[u]))
                        && forall|q: int| 0 <= q < j && !taken@[q]
                            && (forall|u: int| 0 <= u < n && !taken@[u] ==> !requires_skill(sd, ids@[q], #[trigger] ids@[u]))
                            ==> ids@[b as int] <= ids@[q],
                    None => forall|q: int| 0 <= q < j && !taken@[q]
                        ==> exists|u: int| 0 <= u < n && !taken@[u] && #[trigger] requires_skill(sd, ids@[q], ids@[u]),
                },
            decreases n - j,
        {
            if !taken[j] {
                let x = ids[j];
                let mut u: usize = 0;
                let mut is_ready = true;
                while u < n
                    invariant
                        n == ids@.len(),
                        taken@.len() == n,
                        0 <= u <= n,
                        j < n,
                        x == ids@[j as int],
                        is_ready == (forall|v: int| 0 <= v < u && !taken@[v] ==> !requires_skill(sd, x, #[trigger] ids@[v])),
                    decreases n - u,
                {
                    if !taken[u] && requires_exec(sd, x, ids[u]) {
                        is_ready = false;
                    }
                    u = u + 1;
                }
                if is_ready {
                    let better = match best {
                        None => true,
                        Some(b) => ids[j] < ids[b],
                    };
                    if better {
                        best = Some(j);
                    }
                } else {
                    proof {
                        let v = choose|v: int| 0 <= v < n && !taken@[v] && requires_skill(sd, x, #[trigger] ids@[v]);
                    }
                }
            }
            j = j + 1;
        }
        let b = match best {
            None => {
                proof {
                    lemma_skills_stuck(sd, ids@, taken@, pos);
                }
                return Err(SkillPlanError::CycleInPlan);
            },
            Some(b) => b,
        };
        let ghost old_order = order@;
        let ghost old_pos = pos;
        let ghost old_taken = taken@;
        taken.set(b, true);
        order.push(ids[b]);
        proof {
            pos = pos.push(b as int);
            assert forall|a: int| 0 <= a < pos.len() implies 0 <= #[trigger] pos[a] < n && order@[a] == ids@[pos[a]] && taken@[pos[a]] by {
                if a < old_pos.len() { assert(pos[a] == old_pos[a]); }
            }
            assert forall|a: int, c: int| 0 <= a < c < pos.len() implies #[trigger] pos[a] != #[trigger] pos[c] by {
                if c == old_pos.len() {
                    assert(old_taken[old_pos[a]]);
                    assert(!old_taken[b as int]);
                }
            }
            assert forall|q: int| 0 <= q < n && #[trigger] taken@[q] implies pos.contains(q) by {
                if q == b as int {
                    assert(pos[old_pos.len() as int] == q);
                } else {
                    assert(old_taken[q]);
                    let a = choose|a: int| 0 <= a < old_pos.len() && old_pos[a] == q;
                    assert(pos[a] == q);
                }
            }
            assert forall|a: int, u: int| 0 <= a < pos.len() && 0 <= u < n && !taken@[u] implies !requires_skill(sd, #[trigger] order@[a], #[trigger] ids@[u]) by {
                assert(!old_taken[u]);
                if a < old_order.len() {
                    assert(order@[a] == old_order[a]);
                }
            }
            assert forall|a: int, c: int| 0 <= a <= c < order@.len() implies !requires_skill(sd, #[trigger] order@[a], #[trigger] order@[c]) by {
                if c < old_order.len() {
                    assert(order@[a] == old_order[a] && order@[c] == old_order[c]);
                } else if a < old_order.len() {
                    assert(order@[a] == old_order[a]);
                    assert(!old_taken[b as int]);
                } else {
                    assert(!old_taken[b as int]);
                }
            }
            assert forall|a: int, q: int| 0 <= a < order@.len() && 0 <= q < n && !pos.take(a).contains(q)
                && (forall|u: int| 0 <= u < n && !pos.take(a).contains(u) ==> !requires_skill(sd, ids@[q], #[trigger] ids@[u]))
                implies #[trigger] order@[a] <= #[trigger] ids@[q] by {
                if a < old_order.len() {
                    assert(pos.take(a) =~= old_pos.take(a));
                    assert(order@[a] == old_order[a]);
                } else {
                    assert(pos.take(a) =~= old_pos);
                    assert forall|u: int| 0 <= u < n && !old_taken[u] implies !requires_skill(sd, ids@[q], #[trigger] ids@[u]) by {
                        if old_pos.contains(u) {
                            let w = choose|w: int| 0 <= w < old_pos.len() && old_pos[w] == u;
                            assert(old_taken[old_pos[w]]);
                        }
                    }
                    assert(!old_taken[q]) by {
                        if old_taken[q] {
                            assert(old_pos.contains(q));
                        }
                    }
                }
            }
        }
    }
    proof {
        // every index was taken: `pos` lists n distinct indices below n
        assert forall|j: int| 0 <= j < n implies pos.contains(j) by {
            lemma_int_indices_cover(pos, n as nat, j);
        }
        assert forall|x: u64| #[trigger] order@.contains(x) <==> ids@.contains(x) by {
            if order@.contains(x) {
                let a = choose|a: int| 0 <= a < order@.len() && order@[a] == x;
                assert(ids@[pos[a]] == x);
            }
            if ids@.contains(x) {
                let j = choose|j: int| 0 <= j < ids@.len() && ids@[j] == x;
                assert(pos.contains(j));
                let a = choose|a: int| 0 <= a < pos.len() && pos[a] == j;
                assert(order@[a] == x);
            }
        }
        assert forall|a: int, c: int| 0 <= a < c < order@.len() implies #[trigger] order@[a] != #[trigger] order@[c] by {
            assert(pos[a] != pos[c]);
        }
        assert forall|a: int, q: int| 0 <= a <= q < order@.len() && (forall|c: int| a <= c < order@.len() ==> !requires_skill(sd, order@[q], #[trigger] order@[c]))
            implies #[trigger] order@[a] <= #[trigger] order@[q] by {
            let jq = pos[q];
            assert(order@[q] == ids@[jq]);
            assert(!pos.take(a).contains(jq)) by {
                if pos.take(a).contains(jq) {
                    let w = choose|w: int| 0 <= w < pos.take(a).len() && pos.take(a)[w] == jq;
                    assert(pos[w] == pos[q]);
                }
            }
            assert forall|u: int| 0 <= u < n && !pos.take(a).contains(u) implies !requires_skill(sd, ids@[jq], #[trigger] ids@[u]) by {
                assert(pos.contains(u));
                let c = choose|c: int| 0 <= c < pos.len() && pos[c] == u;
                if c < a {
                    assert(pos.take(a)[c] == u);
                }
                assert(order@[c] == ids@[u]);
            }
        }
    }
    Ok(order)
}

/// `n` distinct indices below `n` include every index below `n`.
proof fn lemma_int_indices_cover(s: Seq<int>, n: nat, j: int)
    requires
        s.len() == n,
        forall|a: int| 0 <= a < s.len() ==> 0 <= #[trigger] s[a] < n,
        forall|a: int, b: int| 0 <= a < b < s.len() ==> #[trigger] s[a] != #[trigger] s[b],
        0 <= j < n,
    ensures
        s.contains(j),
{
    broadcast use vstd::seq_lib::group_seq_properties;
    broadcast use vstd::set_lib::group_set_properties;
    assert(s.no_duplicates()) by {
        assert forall|a: int, b: int| 0 <= a < s.len() && 0 <= b < s.len() && a != b implies s[a] != s[b] by {
            if a < b { assert(s[a] != s[b]); } else { assert(s[b] != s[a]); }
        }
    }
    s.unique_seq_to_set();
    vstd::set_lib::lemma_int_range(0, n as int);
    assert(s.to_set().subset_of(vstd::set_lib::set_int_range(0, n as int))) by {
        assert forall|x: int| s.to_set().contains(x) implies vstd::set_lib::set_int_range(0, n as int).contains(x) by {
            let a = choose|a: int| 0 <= a < s.len() && s[a] == x;
            assert(0 <= s[a] < n);
        }
    }
    vstd::set_lib::lemma_subset_equality(s.to_set(), vstd::set_lib::set_int_range(0, n as int));
    assert(vstd::set_lib::set_int_range(0, n as int).contains(j));
    assert(s.to_set().contains(j));
}


/// One step of a skill plan.
pub struct PlanStep {
    pub skill_id: u64,
    pub skill_name: Option<String>,
    pub required_level: u8,
    pub rank: u64,
    pub rank_assumed: bool,
    /// SP to have the skill at `required_level`.
    pub sp_for_level: u64,
    /// SP of this step and every step before it.
    pub cumulative_sp: u64,
    /// The skill's SP curve over levels 1 to 5.
    pub sp_by_level: Vec<SpLevel>,
    /// The targets whose trees need the skill, by Type ID.
    pub required_by: Vec<u64>,
}

/// One target with its prerequisite trees.
pub struct TargetTree {
    pub type_id: u64,
    pub name: Option<String>,
    pub tree: Vec<PrereqNode>,
}

/// A merged training plan for several targets.
pub struct SkillPlan {
    pub targets: Vec<TargetTree>,
    pub plan: Vec<PlanStep>,
    pub total_sp: u64,
}

/// The level a skill target is trained to: the override, else 5, within 1 to 5.
pub open spec fn root_level(o: Option<u8>) -> u8 {
    let l: u8 = match o { Some(v) => v, None => 5 };
    if l < 1 { 1 } else if l > 5 { 5 } else { l }
}

/// The trees a target roots: itself when it is a skill, else its direct
/// prerequisites.
pub open spec fn roots_of(sd: &SkillData, tt: SkillPlanTarget) -> Seq<(u64, u8)> {
    if is_skill(sd, tt.type_id) {
        seq![(tt.type_id, root_level(tt.level_override))]
    } else {
        prereqs_of(sd, tt.type_id)
    }
}

/// Every demand the targets' trees make, target by target.
pub open spec fn plan_demands(sd: &SkillData, targets: Seq<SkillPlanTarget>) -> Seq<(u64, u8, u64)>
    decreases targets.len(),
{
    if targets.len() == 0 {
        Seq::empty()
    } else {
        plan_demands(sd, targets.drop_last())
            + children_demands(sd, roots_of(sd, targets.last()), targets.last().type_id, MAX_SKILL_DEPTH as nat)
    }
}

/// `(skill, level)` of each demand.
pub open spec fn demand_pairs(dem: Seq<(u64, u8, u64)>) -> Seq<(u64, u8)> {
    dem.map_values(|e: (u64, u8, u64)| (e.0, e.1))
}

/// Target `t`'s trees need skill `x`.
pub open spec fn demanded_by(dem: Seq<(u64, u8, u64)>, x: u64, t: u64) -> bool {
    exists|i: int| 0 <= i < dem.len() && #[trigger] dem[i].0 == x && dem[i].2 == t
}

/// The SP of the first `n` steps.
pub open spec fn sp_prefix(steps: Seq<PlanStep>, n: nat) -> int
    decreases n,
{
    if n == 0 { 0 } else { sp_prefix(steps, (n - 1) as nat) + steps[n - 1].sp_for_level }
}

/// The skills of the plan, in order.
pub open spec fn step_ids(steps: Seq<PlanStep>) -> Seq<u64> {
    steps.map_values(|s: PlanStep| s.skill_id)
}

/// `step` trains skill `x` as the demands `dem` ask.
pub open spec fn step_ok(sd: &SkillData, dem: Seq<(u64, u8, u64)>, step: PlanStep) -> bool {
    let x = step.skill_id;
    &&& step.required_level == max_level(demand_pairs(dem), x)
    &&& step.rank == rank_of(sd, x)
    &&& step.rank_assumed == !is_skill(sd, x)
    &&& name_view(step.skill_name) == skill_name(sd, x)
    &&& sp_curve(step.rank as int, step.required_level as int, step.sp_for_level as int)
    &&& step.sp_by_level@.len() == 5
    &&& forall|i: int| 0 <= i < 5 ==> (#[trigger] step.sp_by_level@[i]).level == i + 1
        && sp_curve(step.rank as int, i + 1, step.sp_by_level@[i].sp_to_reach as int)
        && step.sp_by_level@[i].increment == step.sp_by_level@[i].sp_to_reach - (if i == 0 { 0 } else { step.sp_by_level@[i - 1].sp_to_reach as int })
    &&& ids_increasing(step.required_by@)
    &&& forall|t: u64| #[trigger] step.required_by@.contains(t) <==> demanded_by(dem, x, t)
}

/// `plan` is the merged plan for `targets`: one tree list per target, then
/// every demanded skill once at the highest level demanded, prerequisites
/// first, with its SP and the running total.
pub open spec fn plan_ok(sd: &SkillData, targets: Seq<SkillPlanTarget>, plan: &SkillPlan) -> bool {
    let dem = plan_demands(sd, targets);
    let steps = plan.plan@;
    let ids = step_ids(steps);
    &&& plan.targets@.len() == targets.len()
    &&& forall|i: int| 0 <= i < targets.len() ==> {
        let tt = #[trigger] plan.targets@[i];
        &&& tt.type_id == targets[i].type_id
        &&& name_view(tt.name) == skill_name(sd, targets[i].type_id)
        &&& tt.tree@.len() == roots_of(sd, targets[i]).len()
        &&& forall|k: int| 0 <= k < tt.tree@.len() ==> (#[trigger] tt.tree@[k]).skill_id == roots_of(sd, targets[i])[k].0
            && tt.tree@[k].required_level == roots_of(sd, targets[i])[k].1
    }
    &&& forall|a: int, b: int| 0 <= a < b < ids.len() ==> #[trigger] ids[a] != #[trigger] ids[b]
    &&& forall|x: u64| #[trigger] ids.contains(x) <==> mentions(demand_pairs(dem), x)
    &&& forall|a: int, b: int| 0 <= a <= b < ids.len() ==> !requires_skill(sd, #[trigger] ids[a], #[trigger] ids[b])
    &&& forall|a: int, j: int| 0 <= a <= j < ids.len() && (forall|c: int| a <= c < ids.len() ==> !requires_skill(sd, ids[j], #[trigger] ids[c]))
            ==> #[trigger] ids[a] <= #[trigger] ids[j]
    &&& forall|a: int| 0 <= a < steps.len() ==> step_ok(sd, dem, #[trigger] steps[a])
    &&& forall|a: int| 0 <= a < steps.len() ==> (#[trigger] steps[a]).cumulative_sp == sp_prefix(steps, (a + 1) as nat)
    &&& plan.total_sp == sp_prefix(steps, steps.len())
}

fn level_in(levels: &Vec<(u64, u8)>, x: u64) -> (r: u8)
    requires
        skills_sorted(levels@),
    ensures
        r == max_level(levels@, x),
{
    let mut i: usize = 0;
    while i < levels.len()
        invariant
            0 <= i <= levels@.len(),
            skills_sorted(levels@),
            forall|j: int| 0 <= j < i ==> levels@[j].0 != x,
        decreases levels@.len() - i,
    {
        if levels[i].0 == x {
            proof { lemma_max_level_sorted(levels@, i as int); }
            return levels[i].1;
        }
        i = i + 1;
    }
    proof {
        assert(!mentions(levels@, x));
        lemma_max_level_absent(levels@, x);
    }
    0
}

fn targets_of(log: &Vec<(u64, u8, u64)>, x: u64) -> (r: Vec<u64>)
    ensures
        ids_increasing(r@),
        forall|t: u64| #[trigger] r@.contains(t) <==> demanded_by(log@, x, t),
{
    let mut out: Vec<u64> = Vec::new();
    let mut i: usize = 0;
    while i < log.len()
        invariant
            0 <= i <= log@.len(),
            ids_increasing(out@),
            forall|t: u64| #[trigger] out@.contains(t) <==> demanded_by(log@.take(i as int), x, t),
        decreases log@.len() - i,
    {
        let (y, _, t) = log[i];
        let ghost before = out@;
        let ghost lt = log@.take(i as int);
        let ghost lt1 = log@.take(i + 1);
        if y == x && !vec_has(&out, t) {
            insert_id(&mut out, t);
            proof {
                let pos = choose|pos: int| 0 <= pos <= before.len() && out@ == before.insert(pos, t);
                assert forall|t2: u64| #[trigger] out@.contains(t2) <==> demanded_by(lt1, x, t2) by {
                    if out@.contains(t2) {
                        let a = choose|a: int| 0 <= a < out@.len() && out@[a] == t2;
                        if a < pos { assert(before[a] == t2); assert(before.contains(t2)); }
                        else if a > pos { assert(before[a - 1] == t2); assert(before.contains(t2)); }
                        else { assert(lt1[i as int].0 == x && lt1[i as int].2 == t2); }
                        if before.contains(t2) {
                            let q = choose|q: int| 0 <= q < lt.len() && #[trigger] lt[q].0 == x && lt[q].2 == t2;
                            assert(lt1[q] == lt[q]);
                        }
                    }
                    if demanded_by(lt1, x, t2) {
                        let q = choose|q: int| 0 <= q < lt1.len() && #[trigger] lt1[q].0 == x && lt1[q].2 == t2;
                        if q < i {
                            assert(lt[q] == lt1[q]);
                            assert(before.contains(t2));
                            let a = choose|a: int| 0 <= a < before.len() && before[a] == t2;
                            if a < pos { assert(out@[a] == t2); } else { assert(out@[a + 1] == t2); }
                        } else {
                            assert(out@[pos] == t);
                        }
                    }
                }
            }
        } else {
            proof {
                assert forall|t2: u64| #[trigger] out@.contains(t2) <==> demanded_by(lt1, x, t2) by {
                    if out@.contains(t2) {
                        let q = choose|q: int| 0 <= q < lt.len() && #[trigger] lt[q].0 == x && lt[q].2 == t2;
                        assert(lt1[q] == lt[q]);
                    }
                    if demanded_by(lt1, x, t2) {
                        let q = choose|q: int| 0 <= q < lt1.len() && #[trigger] lt1[q].0 == x && lt1[q].2 == t2;
                        if q < i {
                            assert(lt[q] == lt1[q]);
                        } else {
                            assert(y == x && t == t2);
                        }
                    }
                }
            }
        }
        i = i + 1;
    }
    proof {
        assert(log@.take(log@.len() as int) =~= log@);
    }
    out
}

fn vec_has(v: &Vec<u64>, x: u64) -> (r: bool)
    ensures
        r == v@.contains(x),
{
    let mut i: usize = 0;
    while i < v.len()
        invariant
            0 <= i <= v@.len(),
            forall|j: int| 0 <= j < i ==> v@[j] != x,
        decreases v@.len() - i,
    {
        if v[i] == x {
            return true;
        }
        i = i + 1;
    }
    false
}


/// The sum of `vs`.
pub open spec fn sum_of(vs: Seq<int>) -> int
    decreases vs.len(),
{
    if vs.len() == 0 { 0 } else { sum_of(vs.drop_last()) + vs.last() }
}

/// The SP of every demanded skill, each at its highest demanded level, adds up
/// past `u64::MAX`.
pub open spec fn sp_overflows(sd: &SkillData, targets: Seq<SkillPlanTarget>) -> bool {
    let dem = demand_pairs(plan_demands(sd, targets));
    exists|ids: Seq<u64>, vs: Seq<int>| {
        &&& ids.len() == vs.len()
        &&& forall|a: int, b: int| 0 <= a < b < ids.len() ==> #[trigger] ids[a] != #[trigger] ids[b]
        &&& forall|x: u64| #[trigger] ids.contains(x) <==> mentions(dem, x)
        &&& forall|a: int| 0 <= a < ids.len() ==> sp_curve(rank_of(sd, #[trigger] ids[a]) as int, max_level(dem, ids[a]) as int, vs[a])
        &&& sum_of(vs) > u64::MAX
    }
}

/// Builds every target's prerequisite trees and logs their demands.
/// The first fault the targets' walks meet, target by target, each target's
/// roots walked from an empty path.
pub open spec fn plan_fault(sd: &SkillData, targets: Seq<SkillPlanTarget>) -> Option<SkillPlanError>
    decreases targets.len(),
{
    if targets.len() == 0 {
        None
    } else {
        match plan_fault(sd, targets.drop_last()) {
            Some(e) => Some(e),
            None => children_fault(sd, roots_of(sd, targets.last()), Seq::empty()),
        }
    }
}

proof fn lemma_plan_fault_prefix(sd: &SkillData, ts: Seq<SkillPlanTarget>, m: int, n: int)
    requires
        0 <= m <= n <= ts.len(),
        plan_fault(sd, ts.take(m)) is Some,
    ensures
        plan_fault(sd, ts.take(n)) == plan_fault(sd, ts.take(m)),
    decreases n - m,
{
    if n > m {
        lemma_plan_fault_prefix(sd, ts, m, n - 1);
        assert(ts.take(n).drop_last() =~= ts.take(n - 1));
    }
}

fn target_trees(sd: &SkillData, targets: &Vec<SkillPlanTarget>, log: &mut Vec<(u64, u8, u64)>)
    -> (r: Result<Vec<TargetTree>, SkillPlanError>)
    requires
        old(log)@.len() == 0,
    ensures
        r matches Ok(trees) ==> {
            &&& final(log)@ == plan_demands(sd, targets@)
            &&& trees@.len() == targets@.len()
            &&& forall|i: int| 0 <= i < targets@.len() ==> {
                let tt = #[trigger] trees@[i];
                &&& tt.type_id == targets@[i].type_id
                &&& name_view(tt.name) == skill_name(sd, targets@[i].type_id)
                &&& tt.tree@.len() == roots_of(sd, targets@[i]).len()
                &&& forall|k: int| 0 <= k < tt.tree@.len() ==> (#[trigger] tt.tree@[k]).skill_id == roots_of(sd, targets@[i])[k].0
                    && tt.tree@[k].required_level == roots_of(sd, targets@[i])[k].1
            }
        },
        match plan_fault(sd, targets@) {
            Some(e) => r == Err::<Vec<TargetTree>, SkillPlanError>(e),
            None => r is Ok,
        },
{
    let mut trees: Vec<TargetTree> = Vec::new();
    let mut i: usize = 0;
    while i < targets.len()
        invariant
            0 <= i <= targets@.len(),
            log@ == plan_demands(sd, targets@.take(i as int)),
            trees@.len() == i,
            forall|j: int| 0 <= j < i ==> {
                let tt = #[trigger] trees@[j];
                &&& tt.type_id == targets@[j].type_id
                &&& name_view(tt.name) == skill_name(sd, targets@[j].type_id)
                &&& tt.tree@.len() == roots_of(sd, targets@[j]).len()
                &&& forall|k: int| 0 <= k < tt.tree@.len() ==> (#[trigger] tt.tree@[k]).skill_id == roots_of(sd, targets@[j])[k].0
                    && tt.tree@[k].required_level == roots_of(sd, targets@[j])[k].1
            },
            plan_fault(sd, targets@.take(i as int)) is None,
        decreases targets@.len() - i,
    {
        let t = targets[i].type_id;
        let roots: Vec<(u64, u8)> = if sd.ranks.contains_key(&t) {
            let l: u8 = match targets[i].level_override { Some(v) => v, None => 5 };
            let l = if l < 1 { 1 } else if l > 5 { 5 } else { l };
            vec![(t, l)]
        } else {
            prereqs(sd, t)
        };
        assert(roots@ == roots_of(sd, targets@[i as int]));
        let ghost log0 = log@;
        let mut path: Vec<u64> = Vec::new();
        let mut nodes: Vec<PrereqNode> = Vec::new();
        let mut k: usize = 0;
        while k < roots.len()
            invariant
                0 <= k <= roots@.len(),
                path@.len() == 0,
                log@ == log0 + children_demands(sd, roots@.take(k as int), t, MAX_SKILL_DEPTH as nat),
                nodes@.len() == k,
                forall|j: int| 0 <= j < k ==> (#[trigger] nodes@[j]).skill_id == roots@[j].0 && nodes@[j].required_level == roots@[j].1,
                roots@ == roots_of(sd, targets@[i as int]),
                i < targets@.len(),
                plan_fault(sd, targets@.take(i as int)) is None,
                children_fault(sd, roots@.take(k as int), Seq::empty()) is None,
            decreases roots@.len() - k,
        {
            let (x, l) = roots[k];
            proof {
                assert(roots@.take(k + 1).drop_last() =~= roots@.take(k as int));
                assert(roots@.take(k + 1).last() == (x, l));
                assert(path@ =~= Seq::<u64>::empty());
            }
            let node = match build_node(sd, x, l, t, &mut path, log) {
                Ok(n) => n,
                Err(e) => {
                    proof {
                        assert(children_fault(sd, roots@.take(k + 1), Seq::empty()) == Some(e));
                        lemma_children_fault_prefix(sd, roots@, Seq::empty(), k + 1, roots@.len() as int);
                        assert(roots@.take(roots@.len() as int) =~= roots@);
                        assert(targets@.take(i + 1).drop_last() =~= targets@.take(i as int));
                        assert(targets@.take(i + 1).last() == targets@[i as int]);
                        assert(plan_fault(sd, targets@.take(i + 1)) == Some(e));
                        lemma_plan_fault_prefix(sd, targets@, i + 1, targets@.len() as int);
                        assert(targets@.take(targets@.len() as int) =~= targets@);
                    }
                    return Err(e);
                },
            };
            proof {
                assert(roots@.take(k + 1).drop_last() =~= roots@.take(k as int));
                assert(roots@.take(k + 1).last() == (x, l));
                assert(log@ =~= log0 + children_demands(sd, roots@.take(k + 1), t, MAX_SKILL_DEPTH as nat));
            }
            nodes.push(node);
            k = k + 1;
        }
        proof {
            assert(roots@.take(roots@.len() as int) =~= roots@);
            assert(targets@.take(i + 1).drop_last() =~= targets@.take(i as int));
            assert(targets@.take(i + 1).last() == targets@[i as int]);
            assert(plan_fault(sd, targets@.take(i + 1)) is None);
        }
        let name = name_of(sd, t);
        trees.push(TargetTree { type_id: t, name, tree: nodes });
        i = i + 1;
    }
    proof {
        assert(targets@.take(targets@.len() as int) =~= targets@);
    }
    Ok(trees)
}

/// A merged, prerequisites-first training plan for `targets`: each target's
/// prerequisite trees, then every skill any tree needs once, at the highest
/// level demanded, with its SP, the running total and the targets that need
/// it. A cycle or an over-deep chain stops the trees; `SpOverflow` when the
/// total does not fit in a `u64`.
pub fn build_skill_plan(sd: &SkillData, targets: &Vec<SkillPlanTarget>) -> (r: Result<SkillPlan, SkillPlanError>)
    ensures
        match plan_fault(sd, targets@) {
            Some(e) => r == Err::<SkillPlan, SkillPlanError>(e),
            None => match r {
                Ok(plan) => plan_ok(sd, targets@, &plan),
                Err(SkillPlanError::SpOverflow) => sp_overflows(sd, targets@),
                Err(_) => false,
            },
        },
{
    let mut log: Vec<(u64, u8, u64)> = Vec::new();
    let trees = match target_trees(sd, targets, &mut log) {
        Ok(t) => t,
        Err(e) => return Err(e),
    };
    let ghost dem = plan_demands(sd, targets@);
    let mut pairs: Vec<(u64, u8)> = Vec::new();
    let mut i: usize = 0;
    while i < log.len()
        invariant
            0 <= i <= log@.len(),
            pairs@ == demand_pairs(log@).take(i as int),
        decreases log@.len() - i,
    {
        pairs.push((log[i].0, log[i].1));
        proof {
            assert(demand_pairs(log@).take(i + 1) =~= demand_pairs(log@).take(i as int).push((log@[i as int].0, log@[i as int].1)));
        }
        i = i + 1;
    }
    proof {
        assert(demand_pairs(log@).take(log@.len() as int) =~= demand_pairs(log@));
    }
    let mut levels: Vec<(u64, u8)> = Vec::new();
    merge_skills(&mut levels, pairs.as_slice());
    proof {
        assert forall|x: u64| #[trigger] max_level(levels@, x) == max_level(demand_pairs(dem), x) by {
            assert(max_level(Seq::<(u64, u8)>::empty(), x) == 0);
        }
        assert forall|x: u64| #[trigger] mentions(levels@, x) == mentions(demand_pairs(dem), x) by {
            if mentions(Seq::<(u64, u8)>::empty(), x) {
                let q = choose|q: int| 0 <= q < Seq::<(u64, u8)>::empty().len() && #[trigger] Seq::<(u64, u8)>::empty()[q].0 == x;
            }
        }
    }
    let mut ids: Vec<u64> = Vec::new();
    let mut j: usize = 0;
    while j < levels.len()
        invariant
            0 <= j <= levels@.len(),
            ids@.len() == j,
            forall|a: int| 0 <= a < j ==> #[trigger] ids@[a] == levels@[a].0,
        decreases levels@.len() - j,
    {
        ids.push(levels[j].0);
        j = j + 1;
    }
    proof {
        assert forall|a: int, b: int| 0 <= a < b < ids@.len() implies #[trigger] ids@[a] != #[trigger] ids@[b] by {
            assert(levels@[a].0 < levels@[b].0);
        }
        assert forall|x: u64| #[trigger] ids@.contains(x) <==> mentions(levels@, x) by {
            if ids@.contains(x) {
                let a = choose|a: int| 0 <= a < ids@.len() && ids@[a] == x;
                assert(levels@[a].0 == x);
            }
            if mentions(levels@, x) {
                let a = choose|a: int| 0 <= a < levels@.len() && #[trigger] levels@[a].0 == x;
                assert(ids@[a] == x);
            }
        }
    }
    let order = match skill_order(sd, &ids) {
        Ok(o) => o,
        Err(e) => {
            proof {
                // Every skill to order is demanded, and no demanded skill
                // requires itself.
                lemma_plan_demands_acyclic(sd, targets@);
                let x = choose|x: u64| ids@.contains(x) && #[trigger] on_skill_cycle(sd, x);
                assert(mentions(demand_pairs(dem), x));
                let q = choose|q: int| 0 <= q < demand_pairs(dem).len() && #[trigger] demand_pairs(dem)[q].0 == x;
                assert(dem[q].0 == x);
            }
            return Err(e);
        },
    };
    let n = order.len();
    let mut sps: Vec<u64> = Vec::new();
    let mut lv: Vec<u8> = Vec::new();
    let mut a: usize = 0;
    while a < n
        invariant
            0 <= a <= n,
            n == order@.len(),
            skills_sorted(levels@),
            forall|x: u64| #[trigger] max_level(levels@, x) == max_level(demand_pairs(dem), x),
            sps@.len() == a,
            lv@.len() == a,
            forall|c: int| 0 <= c < a ==> #[trigger] lv@[c] == max_level(demand_pairs(dem), order@[c])
                && sp_curve(rank_of(sd, order@[c]) as int, lv@[c] as int, sps@[c] as int),
        decreases n - a,
    {
        let x = order[a];
        let level = level_in(&levels, x);
        let (rank, _) = rank_for(sd, x);
        let sp = skill_sp(rank, level);
        sps.push(sp);
        lv.push(level);
        a = a + 1;
    }
    let mut steps: Vec<PlanStep> = Vec::new();
    let mut cumulative: u64 = 0;
    let mut b: usize = 0;
    while b < n
        invariant
            0 <= b <= n,
            n == order@.len(),
            sps@.len() == n,
            lv@.len() == n,
            log@ == dem,
            forall|c: int| 0 <= c < n ==> #[trigger] lv@[c] == max_level(demand_pairs(dem), order@[c])
                && sp_curve(rank_of(sd, order@[c]) as int, lv@[c] as int, sps@[c] as int),
            steps@.len() == b,
            dem == plan_demands(sd, targets@),
            forall|a1: int, c1: int| 0 <= a1 < c1 < order@.len() ==> #[trigger] order@[a1] != #[trigger] order@[c1],
            forall|x: u64| #[trigger] order@.contains(x) <==> mentions(demand_pairs(dem), x),
            cumulative == sp_prefix(steps@, b as nat),
            forall|c: int| 0 <= c < b ==> (#[trigger] steps@[c]).skill_id == order@[c] && steps@[c].sp_for_level == sps@[c]
                && step_ok(sd, dem, steps@[c]) && steps@[c].cumulative_sp == sp_prefix(steps@, (c + 1) as nat),
            cumulative == sum_of(sps@.take(b as int).map_values(|v: u64| v as int)),
            plan_fault(sd, targets@) is None,
        decreases n - b,
    {
        let x = order[b];
        let sp = sps[b];
        let next = match cumulative.checked_add(sp) {
            Some(v) => v,
            None => {
                proof {
                    assert forall|c: int| 0 <= c < order@.len() implies sp_curve(rank_of(sd, #[trigger] order@[c]) as int,
                        max_level(demand_pairs(plan_demands(sd, targets@)), order@[c]) as int, sps@[c] as int) by {
                        assert(lv@[c] == max_level(demand_pairs(dem), order@[c]));
                    }
                    lemma_sum_overflow(sd, targets@, order@, sps@, b as int, cumulative as int);
                }
                return Err(SkillPlanError::SpOverflow);
            },
        };
        let (rank, rank_assumed) = rank_for(sd, x);
        let step = PlanStep {
            skill_id: x,
            skill_name: name_of(sd, x),
            required_level: lv[b],
            rank,
            rank_assumed,
            sp_for_level: sp,
            cumulative_sp: next,
            sp_by_level: sp_breakdown(rank),
            required_by: targets_of(&log, x),
        };
        let ghost s0 = steps@;
        steps.push(step);
        proof {
            assert(steps@.take(b as int) =~= s0);
            assert(sp_prefix(steps@, b as nat) == sp_prefix(s0, b as nat)) by {
                lemma_sp_prefix_stable(s0, steps@, b as nat);
            }
            assert(sps@.take(b + 1).map_values(|v: u64| v as int).drop_last() =~= sps@.take(b as int).map_values(|v: u64| v as int));
            assert forall|c: int| 0 <= c < b + 1 implies (#[trigger] steps@[c]).skill_id == order@[c] && steps@[c].sp_for_level == sps@[c]
                && step_ok(sd, dem, steps@[c]) && steps@[c].cumulative_sp == sp_prefix(steps@, (c + 1) as nat) by {
                if c < b {
                    assert(steps@[c] == s0[c]);
                    lemma_sp_prefix_stable(s0, steps@, (c + 1) as nat);
                }
            }
        }
        cumulative = next;
        b = b + 1;
    }
    let plan = SkillPlan { targets: trees, plan: steps, total_sp: cumulative };
    proof {
        let st = plan.plan@;
        assert(step_ids(st) =~= order@);
    }
    Ok(plan)
}

/// Appending steps leaves the sum of the earlier ones alone.
proof fn lemma_sp_prefix_stable(a: Seq<PlanStep>, b: Seq<PlanStep>, n: nat)
    requires
        n <= a.len(),
        n <= b.len(),
        forall|i: int| 0 <= i < n ==> a[i] == b[i],
    ensures
        sp_prefix(a, n) == sp_prefix(b, n),
    decreases n,
{
    if n > 0 {
        lemma_sp_prefix_stable(a, b, (n - 1) as nat);
    }
}

proof fn lemma_sum_overflow(sd: &SkillData, targets: Seq<SkillPlanTarget>, order: Seq<u64>, sps: Seq<u64>, b: int, cum: int)
    requires
        0 <= b < order.len(),
        sps.len() == order.len(),
        cum == sum_of(sps.take(b).map_values(|v: u64| v as int)),
        cum + sps[b] > u64::MAX,
        forall|c: int| 0 <= c < order.len() ==> sp_curve(rank_of(sd, #[trigger] order[c]) as int,
            max_level(demand_pairs(plan_demands(sd, targets)), order[c]) as int, sps[c] as int),
        forall|a: int, c: int| 0 <= a < c < order.len() ==> #[trigger] order[a] != #[trigger] order[c],
        forall|x: u64| #[trigger] order.contains(x) <==> mentions(demand_pairs(plan_demands(sd, targets)), x),
    ensures
        sp_overflows(sd, targets),
{
    let vs = sps.map_values(|v: u64| v as int);
    lemma_sum_mono(vs, b + 1);
    assert(vs.take(b + 1).drop_last() =~= sps.take(b).map_values(|v: u64| v as int));
    assert(forall|a: int| 0 <= a < order.len() ==> sp_curve(rank_of(sd, #[trigger] order[a]) as int,
        max_level(demand_pairs(plan_demands(sd, targets)), order[a]) as int, vs[a]));
}

proof fn lemma_sum_mono(vs: Seq<int>, k: int)
    requires
        0 <= k <= vs.len(),
        forall|i: int| 0 <= i < vs.len() ==> #[trigger] vs[i] >= 0,
    ensures
        sum_of(vs.take(k)) <= sum_of(vs),
    decreases vs.len(),
{
    if k == vs.len() {
        assert(vs.take(k) =~= vs);
    } else {
        lemma_sum_mono(vs.drop_last(), k);
        assert(vs.drop_last().take(k) =~= vs.take(k));
    }
}


// ── Messages and the SP-curve lookup ─────────────────────────────────────────

/// The message a refused skill plan answers with.
pub open spec fn plan_error_text(e: SkillPlanError) -> Seq<char> {
    match e {
        SkillPlanError::Cycle(x) => "skill prerequisite cycle detected at skill "@ + decimal(x as nat),
        SkillPlanError::DepthExceeded => "skill prerequisite depth exceeds "@ + decimal(MAX_SKILL_DEPTH as nat),
        SkillPlanError::CycleInPlan => "skill prerequisite cycle detected"@,
        SkillPlanError::SpOverflow => "skill plan total SP exceeds the range of a u64"@,
    }
}

impl SkillPlanError {
    /// The message a caller sees.
    pub fn message(self) -> (s: String)
        ensures
            s@ == plan_error_text(self),
    {
        let mut s = String::new();
        match self {
            SkillPlanError::Cycle(x) => {
                push_str(&mut s, "skill prerequisite cycle detected at skill ");
                push_decimal(&mut s, x);
            },
            SkillPlanError::DepthExceeded => {
                push_str(&mut s, "skill prerequisite depth exceeds ");
                push_decimal(&mut s, MAX_SKILL_DEPTH as u64);
            },
            SkillPlanError::CycleInPlan => {
                push_str(&mut s, "skill prerequisite cycle detected");
            },
            SkillPlanError::SpOverflow => {
                push_str(&mut s, "skill plan total SP exceeds the range of a u64");
            },
        }
        s
    }
}

/// Why no SP curve could be given.
#[derive(Clone, Copy, Debug, PartialEq, Eq, Structural)]
pub enum SkillSpError {
    /// Neither a rank nor a Type was given.
    NothingGiven,
    /// The Type named has no rank: it is not a skill.
    NotASkill(u64),
}

/// The rank an SP-curve request stands on: the rank given, else the rank of
/// the skill named.
pub fn skill_sp_rank(sd: &SkillData, rank: Option<u64>, type_id: Option<u64>) -> (r: Result<u64, SkillSpError>)
    ensures
        r == match (rank, type_id) {
            (Some(k), _) => Ok::<u64, SkillSpError>(k),
            (None, Some(t)) => if sd.ranks@.contains_key(t) { Ok(sd.ranks@[t]) } else { Err(SkillSpError::NotASkill(t)) },
            (None, None) => Err(SkillSpError::NothingGiven),
        },
{
    match (rank, type_id) {
        (Some(k), _) => Ok(k),
        (None, Some(t)) => match sd.ranks.get(&t) {
            Some(k) => Ok(*k),
            None => Err(SkillSpError::NotASkill(t)),
        },
        (None, None) => Err(SkillSpError::NothingGiven),
    }
}


// ── Reading a skill's dogma ──────────────────────────────────────────────────

/// A dogma attribute row as the skill planner reads it: the attribute, and
/// its value (when it has one) truncated and rounded to an integer.
#[derive(Clone, Copy, Debug, PartialEq, Eq, Structural)]
pub struct SkillRow {
    pub attribute_id: u64,
    pub truncated: Option<u64>,
    pub rounded: Option<u64>,
}

/// The rank attribute (`skillTimeConstant`).
pub const ATTR_RANK: u64 = 275;

/// The first of the first `n` rows that gives attribute `a` a value.
pub open spec fn first_row(rows: Seq<SkillRow>, a: u64, n: nat) -> Option<SkillRow>
    decreases n,
{
    if n == 0 {
        None
    } else {
        match first_row(rows, a, (n - 1) as nat) {
            Some(r) => Some(r),
            None => {
                let r = rows[n - 1];
                if r.attribute_id == a && r.truncated is Some && r.rounded is Some { Some(r) } else { None }
            },
        }
    }
}

fn first_row_exec(rows: &Vec<SkillRow>, a: u64) -> (r: Option<SkillRow>)
    ensures
        r == first_row(rows@, a, rows@.len()),
        r matches Some(x) ==> x.truncated is Some && x.rounded is Some,
{
    let mut i: usize = 0;
    while i < rows.len()
        invariant
            0 <= i <= rows@.len(),
            first_row(rows@, a, i as nat) is None,
        decreases rows@.len() - i,
    {
        let r = rows[i];
        if r.attribute_id == a && r.truncated.is_some() && r.rounded.is_some() {
            proof { lemma_first_row_stays(rows@, a, (i + 1) as nat, rows@.len()); }
            return Some(r);
        }
        i = i + 1;
    }
    None
}

proof fn lemma_first_row_stays(rows: Seq<SkillRow>, a: u64, m: nat, n: nat)
    requires
        m <= n <= rows.len(),
        first_row(rows, a, m) is Some,
    ensures
        first_row(rows, a, n) == first_row(rows, a, m),
    decreases n - m,
{
    if n > m {
        lemma_first_row_stays(rows, a, m, (n - 1) as nat);
    }
}

/// A skill's rank: the rounded value of its first rank row.
pub open spec fn spec_rank_of_rows(rows: Seq<SkillRow>) -> Option<u64> {
    match first_row(rows, ATTR_RANK, rows.len()) {
        Some(r) => r.rounded,
        None => None,
    }
}

/// The rank a Type's dogma gives it, if any.
pub fn skill_rank_of(rows: &Vec<SkillRow>) -> (r: Option<u64>)
    ensures
        r == spec_rank_of_rows(rows@),
{
    match first_row_exec(rows, ATTR_RANK) {
        Some(row) => row.rounded,
        None => None,
    }
}

/// The level a prerequisite slot asks for: its level row rounded into 1..=5,
/// 1 when there is none.
pub open spec fn slot_level(rows: Seq<SkillRow>, level_attr: u64) -> u8 {
    match first_row(rows, level_attr, rows.len()) {
        Some(r) => {
            let v = r.rounded->0;
            if v < 1 { 1u8 } else if v > 5 { 5u8 } else { v as u8 }
        },
        None => 1u8,
    }
}

/// The prerequisite slot `(skill_attr, level_attr)` adds, if its skill row has
/// a value.
pub open spec fn slot_prereq(rows: Seq<SkillRow>, skill_attr: u64, level_attr: u64) -> Seq<(u64, u8)> {
    match first_row(rows, skill_attr, rows.len()) {
        Some(r) => seq![(r.truncated->0, slot_level(rows, level_attr))],
        None => Seq::empty(),
    }
}

/// A Type's direct skill prerequisites: slots 182/277, 183/278 and 184/279 in
/// that order, each naming its skill by the first value of the slot attribute.
pub open spec fn spec_direct_prereqs(rows: Seq<SkillRow>) -> Seq<(u64, u8)> {
    slot_prereq(rows, 182, 277) + slot_prereq(rows, 183, 278) + slot_prereq(rows, 184, 279)
}

fn push_slot(out: &mut Vec<(u64, u8)>, rows: &Vec<SkillRow>, skill_attr: u64, level_attr: u64)
    ensures
        final(out)@ == old(out)@ + slot_prereq(rows@, skill_attr, level_attr),
{
    match first_row_exec(rows, skill_attr) {
        Some(r) => {
            let level: u8 = match first_row_exec(rows, level_attr) {
                Some(l) => {
                    let v = match l.rounded { Some(v) => v, None => 1 };
                    if v < 1 { 1 } else if v > 5 { 5 } else { v as u8 }
                },
                None => 1,
            };
            let skill = match r.truncated { Some(t) => t, None => 0 };
            let ghost o = out@;
            out.push((skill, level));
            assert(out@ =~= o + slot_prereq(rows@, skill_attr, level_attr));
        },
        None => {
            assert(out@ =~= out@ + slot_prereq(rows@, skill_attr, level_attr));
        },
    }
}

/// The skills a Type's dogma rows require, each at its level.
pub fn direct_prereqs(rows: &Vec<SkillRow>) -> (r: Vec<(u64, u8)>)
    ensures
        r@ == spec_direct_prereqs(rows@),
{
    let mut out: Vec<(u64, u8)> = Vec::new();
    push_slot(&mut out, rows, 182, 277);
    push_slot(&mut out, rows, 183, 278);
    push_slot(&mut out, rows, 184, 279);
    assert(out@ =~= spec_direct_prereqs(rows@));
    out
}

/// Some row gives attribute `a` a value.
pub open spec fn has_value(rows: Seq<SkillRow>, a: u64) -> bool {
    exists|i: int| 0 <= i < rows.len() && #[trigger] rows[i].attribute_id == a && rows[i].truncated is Some && rows[i].rounded is Some
}

proof fn lemma_first_row(rows: Seq<SkillRow>, a: u64, n: nat)
    requires
        n <= rows.len(),
    ensures
        first_row(rows, a, n) is Some <==> exists|i: int| 0 <= i < n && #[trigger] rows[i].attribute_id == a
            && rows[i].truncated is Some && rows[i].rounded is Some,
        first_row(rows, a, n) matches Some(r) ==> exists|i: int| 0 <= i < n && #[trigger] rows[i] == r
            && r.attribute_id == a && r.truncated is Some && r.rounded is Some,
    decreases n,
{
    if n > 0 {
        lemma_first_row(rows, a, (n - 1) as nat);
        if first_row(rows, a, (n - 1) as nat) is None {
            let r = rows[n - 1];
            if r.attribute_id == a && r.truncated is Some && r.rounded is Some {
                assert(rows[n - 1] == r);
            }
        }
    }
}

/// A Type's direct prerequisites hold one `(skill, level)` pair per slot
/// (182, 277), (183, 278), (184, 279) whose skill attribute has a value, in
/// slot order: each pair's skill is a value some row gives that slot's skill
/// attribute, and its level lies in 1 to 5. A Type with all three slots filled
/// has three prerequisites.
pub proof fn lemma_direct_prereq_slots(rows: Seq<SkillRow>)
    ensures
        spec_direct_prereqs(rows).len() == (if has_value(rows, 182) { 1int } else { 0int })
            + (if has_value(rows, 183) { 1int } else { 0int }) + (if has_value(rows, 184) { 1int } else { 0int }),
        forall|k: int| 0 <= k < spec_direct_prereqs(rows).len() ==> 1 <= (#[trigger] spec_direct_prereqs(rows)[k]).1 <= 5,
        has_value(rows, 182) && has_value(rows, 183) && has_value(rows, 184) ==> {
            let p = spec_direct_prereqs(rows);
            &&& p.len() == 3
            &&& exists|i: int| 0 <= i < rows.len() && #[trigger] rows[i].attribute_id == 182 && rows[i].truncated == Some(p[0].0)
            &&& exists|i: int| 0 <= i < rows.len() && #[trigger] rows[i].attribute_id == 183 && rows[i].truncated == Some(p[1].0)
            &&& exists|i: int| 0 <= i < rows.len() && #[trigger] rows[i].attribute_id == 184 && rows[i].truncated == Some(p[2].0)
        },
{
    let n = rows.len();
    lemma_first_row(rows, 182, n);
    lemma_first_row(rows, 183, n);
    lemma_first_row(rows, 184, n);
    lemma_first_row(rows, 277, n);
    lemma_first_row(rows, 278, n);
    lemma_first_row(rows, 279, n);
    let s1 = slot_prereq(rows, 182, 277);
    let s2 = slot_prereq(rows, 183, 278);
    let s3 = slot_prereq(rows, 184, 279);
    let p = spec_direct_prereqs(rows);
    assert(p == s1 + s2 + s3);
    assert(s1.len() == (if has_value(rows, 182) { 1int } else { 0int }));
    assert(s2.len() == (if has_value(rows, 183) { 1int } else { 0int }));
    assert(s3.len() == (if has_value(rows, 184) { 1int } else { 0int }));
    assert forall|k: int| 0 <= k < p.len() implies 1 <= (#[trigger] p[k]).1 <= 5 by {
        if k < s1.len() { assert(p[k] == s1[k]); }
        else if k < s1.len() + s2.len() { assert(p[k] == s2[k - s1.len()]); }
        else { assert(p[k] == s3[k - s1.len() - s2.len()]); }
    }
    if has_value(rows, 182) && has_value(rows, 183) && has_value(rows, 184) {
        assert(p[0] == s1[0]);
        assert(p[1] == s2[0]);
        assert(p[2] == s3[0]);
    }
}

} // verus!
