//! Aggregating the skills a set of jobs demands: one entry per skill, at the
//! highest level any job asks for, ordered by skill ID.

use vstd::prelude::*;

verus! {

/// Some entry of `s` names skill `id`.
pub open spec fn mentions(s: Seq<(u64, u8)>, id: u64) -> bool {
    exists|i: int| 0 <= i < s.len() && #[trigger] s[i].0 == id
}

/// The highest level `s` demands of skill `id`; 0 when it names none.
pub open spec fn max_level(s: Seq<(u64, u8)>, id: u64) -> u8
    decreases s.len(),
{
    if s.len() == 0 {
        0
    } else {
        let rest = max_level(s.drop_last(), id);
        if s.last().0 == id && s.last().1 > rest { s.last().1 } else { rest }
    }
}

/// Skill IDs strictly increase along `s`.
pub open spec fn skills_sorted(s: Seq<(u64, u8)>) -> bool {
    forall|i: int, j: int| 0 <= i < j < s.len() ==> #[trigger] s[i].0 < #[trigger] s[j].0
}

/// The larger of two levels.
pub open spec fn max_u8(a: u8, b: u8) -> u8 {
    if a >= b { a } else { b }
}

/// `max_level` over a concatenation is the larger of the two halves.
pub proof fn lemma_max_level_concat(a: Seq<(u64, u8)>, b: Seq<(u64, u8)>, id: u64)
    ensures
        max_level(a + b, id) == max_u8(max_level(a, id), max_level(b, id)),
    decreases b.len(),
{
    if b.len() == 0 {
        assert(a + b =~= a);
    } else {
        assert((a + b).drop_last() =~= a + b.drop_last());
        lemma_max_level_concat(a, b.drop_last(), id);
    }
}

/// The level of a single entry.
pub proof fn lemma_max_level_single(e: (u64, u8), id: u64)
    ensures
        max_level(seq![e], id) == (if e.0 == id { e.1 } else { 0 }),
{
    assert(seq![e].drop_last() =~= Seq::<(u64, u8)>::empty());
    assert(max_level(Seq::<(u64, u8)>::empty(), id) == 0);
    assert(seq![e].last() == e);
}

/// A list that never names `id` demands level 0 of it.
pub proof fn lemma_max_level_absent(s: Seq<(u64, u8)>, id: u64)
    requires
        !mentions(s, id),
    ensures
        max_level(s, id) == 0,
    decreases s.len(),
{
    if s.len() > 0 {
        assert(!mentions(s.drop_last(), id)) by {
            if mentions(s.drop_last(), id) {
                let i = choose|i: int| 0 <= i < s.drop_last().len() && #[trigger] s.drop_last()[i].0 == id;
                assert(s[i].0 == id);
            }
        }
        assert(s[s.len() - 1].0 != id);
        lemma_max_level_absent(s.drop_last(), id);
    }
}

/// In a sorted list the entry naming `id` carries the level `max_level` reads.
pub proof fn lemma_max_level_sorted(s: Seq<(u64, u8)>, i: int)
    requires
        skills_sorted(s),
        0 <= i < s.len(),
    ensures
        max_level(s, s[i].0) == s[i].1,
{
    let id = s[i].0;
    assert(s =~= s.take(i) + seq![s[i]] + s.skip(i + 1));
    lemma_max_level_concat(s.take(i) + seq![s[i]], s.skip(i + 1), id);
    lemma_max_level_concat(s.take(i), seq![s[i]], id);
    lemma_max_level_single(s[i], id);
    assert(!mentions(s.take(i), id)) by {
        if mentions(s.take(i), id) {
            let j = choose|j: int| 0 <= j < s.take(i).len() && #[trigger] s.take(i)[j].0 == id;
            assert(s[j].0 < s[i].0);
        }
    }
    assert(!mentions(s.skip(i + 1), id)) by {
        if mentions(s.skip(i + 1), id) {
            let j = choose|j: int| 0 <= j < s.skip(i + 1).len() && #[trigger] s.skip(i + 1)[j].0 == id;
            assert(s[i + 1 + j].0 > s[i].0);
        }
    }
    lemma_max_level_absent(s.take(i), id);
    lemma_max_level_absent(s.skip(i + 1), id);
}

/// Folds `skills` into `acc`: every skill named by either ends up named once,
/// at the higher of the two levels, with `acc` kept ordered by skill ID.
pub fn merge_skills(acc: &mut Vec<(u64, u8)>, skills: &[(u64, u8)])
    requires
        skills_sorted(old(acc)@),
    ensures
        skills_sorted(final(acc)@),
        forall|id: u64| #[trigger] mentions(final(acc)@, id) == (mentions(old(acc)@, id) || mentions(skills@, id)),
        forall|id: u64| #[trigger] max_level(final(acc)@, id) == max_u8(max_level(old(acc)@, id), max_level(skills@, id)),
{
    let mut k: usize = 0;
    while k < skills.len()
        invariant
            0 <= k <= skills.len(),
            skills_sorted(acc@),
            forall|id: u64| mentions(acc@, id) == (mentions(old(acc)@, id) || mentions(skills@.take(k as int), id)),
            forall|id: u64| max_level(acc@, id) == max_u8(max_level(old(acc)@, id), max_level(skills@.take(k as int), id)),
        decreases skills.len() - k,
    {
        let (sid, lvl) = skills[k];
        let ghost before = acc@;
        let mut pos: usize = 0;
        while pos < acc.len() && acc[pos].0 < sid
            invariant
                0 <= pos <= acc.len(),
                acc@ == before,
                forall|j: int| 0 <= j < pos ==> acc@[j].0 < sid,
            decreases acc.len() - pos,
        {
            pos = pos + 1;
        }
        proof {
            assert(skills@.take(k + 1) =~= skills@.take(k as int) + seq![skills@[k as int]]);
            assert(skills@.take(k + 1).drop_last() =~= skills@.take(k as int));
        }
        if pos < acc.len() && acc[pos].0 == sid {
            let old_l = acc[pos].1;
            let new_l = if lvl > old_l { lvl } else { old_l };
            acc.set(pos, (sid, new_l));
            proof {
                let p = pos as int;
                assert(before =~= before.take(p) + seq![before[p]] + before.skip(p + 1));
                assert(acc@ =~= before.take(p) + seq![(sid, new_l)] + before.skip(p + 1));
                assert forall|id: u64| max_level(acc@, id) == max_u8(max_level(old(acc)@, id), max_level(skills@.take(k + 1), id)) by {
                    lemma_max_level_concat(before.take(p) + seq![before[p]], before.skip(p + 1), id);
                    lemma_max_level_concat(before.take(p), seq![before[p]], id);
                    lemma_max_level_concat(before.take(p) + seq![(sid, new_l)], before.skip(p + 1), id);
                    lemma_max_level_concat(before.take(p), seq![(sid, new_l)], id);
                    lemma_max_level_single(before[p], id);
                    lemma_max_level_single((sid, new_l), id);
                }
                assert forall|id: u64| mentions(acc@, id) == (mentions(old(acc)@, id) || mentions(skills@.take(k + 1), id)) by {
                    if mentions(acc@, id) {
                        let j = choose|j: int| 0 <= j < acc@.len() && #[trigger] acc@[j].0 == id;
                        if j != p { assert(before[j].0 == id); assert(mentions(before, id)); }
                        else { assert(before[p].0 == id); assert(mentions(before, id)); }
                    }
                    if mentions(before, id) {
                        let j = choose|j: int| 0 <= j < before.len() && #[trigger] before[j].0 == id;
                        assert(acc@[j].0 == id);
                    }
                    if mentions(skills@.take(k + 1), id) {
                        let j = choose|j: int| 0 <= j < skills@.take(k + 1).len() && #[trigger] skills@.take(k + 1)[j].0 == id;
                        if j < k { assert(skills@.take(k as int)[j].0 == id); } else { assert(acc@[p].0 == id); }
                    }
                    if mentions(skills@.take(k as int), id) {
                        let j = choose|j: int| 0 <= j < skills@.take(k as int).len() && #[trigger] skills@.take(k as int)[j].0 == id;
                        assert(skills@.take(k + 1)[j].0 == id);
                    }
                }
                assert forall|i: int, j: int| 0 <= i < j < acc@.len() implies #[trigger] acc@[i].0 < #[trigger] acc@[j].0 by {
                    assert(acc@[i].0 == before[i].0 && acc@[j].0 == before[j].0);
                }
            }
        } else {
            acc.insert(pos, (sid, lvl));
            proof {
                let p = pos as int;
                assert(before =~= before.take(p) + before.skip(p));
                assert(acc@ =~= before.take(p) + seq![(sid, lvl)] + before.skip(p));
                assert forall|id: u64| max_level(acc@, id) == max_u8(max_level(old(acc)@, id), max_level(skills@.take(k + 1), id)) by {
                    lemma_max_level_concat(before.take(p), before.skip(p), id);
                    lemma_max_level_concat(before.take(p) + seq![(sid, lvl)], before.skip(p), id);
                    lemma_max_level_concat(before.take(p), seq![(sid, lvl)], id);
                    lemma_max_level_single((sid, lvl), id);
                }
                assert forall|id: u64| mentions(acc@, id) == (mentions(old(acc)@, id) || mentions(skills@.take(k + 1), id)) by {
                    if mentions(acc@, id) {
                        let j = choose|j: int| 0 <= j < acc@.len() && #[trigger] acc@[j].0 == id;
                        if j < p { assert(before[j].0 == id); assert(mentions(before, id)); }
                        else if j > p { assert(before[j - 1].0 == id); assert(mentions(before, id)); }
                        else { assert(skills@.take(k + 1)[k as int].0 == id); }
                    }
                    if mentions(before, id) {
                        let j = choose|j: int| 0 <= j < before.len() && #[trigger] before[j].0 == id;
                        if j < p { assert(acc@[j].0 == id); } else { assert(acc@[j + 1].0 == id); }
                    }
                    if mentions(skills@.take(k + 1), id) {
                        let j = choose|j: int| 0 <= j < skills@.take(k + 1).len() && #[trigger] skills@.take(k + 1)[j].0 == id;
                        if j < k { assert(skills@.take(k as int)[j].0 == id); } else { assert(acc@[p].0 == id); }
                    }
                    if mentions(skills@.take(k as int), id) {
                        let j = choose|j: int| 0 <= j < skills@.take(k as int).len() && #[trigger] skills@.take(k as int)[j].0 == id;
                        assert(skills@.take(k + 1)[j].0 == id);
                    }
                }
                assert forall|i: int, j: int| 0 <= i < j < acc@.len() implies #[trigger] acc@[i].0 < #[trigger] acc@[j].0 by {
                    if j < p {
                        assert(acc@[i] == before[i] && acc@[j] == before[j]);
                    } else if j == p {
                        assert(acc@[i] == before[i]);
                    } else if i < p {
                        assert(acc@[i] == before[i] && acc@[j] == before[j - 1]);
                        assert(before[j - 1].0 >= sid) by {
                            if p < before.len() { assert(before[p].0 >= sid); if j - 1 > p { assert(before[p].0 < before[j - 1].0); } }
                        }
                    } else if i == p {
                        assert(acc@[j] == before[j - 1]);
                        assert(before[p].0 > sid);
                        if j - 1 > p { assert(before[p].0 < before[j - 1].0); }
                    } else {
                        assert(acc@[i] == before[i - 1] && acc@[j] == before[j - 1]);
                    }
                }
            }
        }
        k = k + 1;
    }
    proof {
        assert(skills@.take(skills@.len() as int) =~= skills@);
    }
}

} // verus!
