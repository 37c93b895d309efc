//! The Type selector: the taxonomy filter of `group_ids` and `category_ids`,
//! the candidate sets a call can stand on, the narrowing predicates (with the
//! count of Types dropped for carrying no MetaGroup), the page cut, and the
//! Group rollup over the whole match set.

use vstd::prelude::*;
use std::collections::{HashMap, HashSet};
use crate::chain::{ids_increasing, insert_id};
use crate::names::{NameIndex, NameHit, search_by_name, searched, hits_of, ranked};

verus! {

broadcast use vstd::std_specs::hash::group_hash_axioms;

/// What the selector reads of the scanned Types: the declared Types, Groups and
/// Categories, each Type's Group and MetaGroup, the Types of each Group
/// (ascending), the Groups of each Category, and the published Types.
pub struct TypeTaxonomy {
    pub declared_types: HashSet<u64>,
    pub declared_groups: HashSet<u64>,
    pub declared_categories: HashSet<u64>,
    pub type_group: HashMap<u64, u64>,
    pub group_types: HashMap<u64, Vec<u64>>,
    pub category_groups: HashMap<u64, Vec<u64>>,
    pub type_meta_group: HashMap<u64, u64>,
    pub published: HashSet<u64>,
}

/// A named taxonomy ID the SDE does not declare.
#[derive(Debug, Clone, Copy, PartialEq, Eq)]
pub enum TaxonomyError {
    GroupNotFound(u64),
    CategoryNotFound(u64),
}

/// `id` is a declared ID in `declared` that a `u32` can hold.
pub open spec fn known(declared: Set<u64>, id: u64) -> bool {
    declared.contains(id) && id <= u32::MAX
}

/// The index of the first of `ids` that is not known.
pub open spec fn first_unknown(declared: Set<u64>, ids: Seq<u64>) -> Option<int> {
    if exists|i: int| 0 <= i < ids.len() && !known(declared, #[trigger] ids[i]) {
        Some(choose|i: int| 0 <= i < ids.len() && !known(declared, #[trigger] ids[i])
            && forall|j: int| 0 <= j < i ==> known(declared, #[trigger] ids[j]))
    } else {
        None
    }
}

/// The Groups of Category `c`.
pub open spec fn groups_of(tx: &TypeTaxonomy, c: u64) -> Seq<u64> {
    if tx.category_groups@.contains_key(c) { tx.category_groups@[c]@ } else { Seq::empty() }
}

/// Group `g` lies under one of `cats`.
pub open spec fn under_categories(tx: &TypeTaxonomy, cats: Seq<u64>, g: u64) -> bool {
    exists|i: int| 0 <= i < cats.len() && groups_of(tx, #[trigger] cats[i]).contains(g)
}

/// The Groups a call is restricted to, as a set: the named Groups, the Groups
/// of the named Categories, or the Groups satisfying both.
pub open spec fn group_filter_has(tx: &TypeTaxonomy, groups: Seq<u64>, cats: Seq<u64>, g: u64) -> bool {
    if groups.len() == 0 {
        under_categories(tx, cats, g)
    } else if cats.len() == 0 {
        groups.contains(g)
    } else {
        groups.contains(g) && under_categories(tx, cats, g)
    }
}

proof fn lemma_insert_contains(s: Seq<u64>, pos: int, x: u64)
    requires
        0 <= pos <= s.len(),
    ensures
        forall|h: u64| #[trigger] s.insert(pos, x).contains(h) <==> (s.contains(h) || h == x),
{
    let t = s.insert(pos, x);
    assert forall|h: u64| #[trigger] t.contains(h) <==> (s.contains(h) || h == x) by {
        if t.contains(h) {
            let a = choose|a: int| 0 <= a < t.len() && t[a] == h;
            if a < pos { assert(s[a] == h); } else if a > pos { assert(s[a - 1] == h); }
        }
        if s.contains(h) {
            let a = choose|a: int| 0 <= a < s.len() && s[a] == h;
            if a < pos { assert(t[a] == h); } else { assert(t[a + 1] == h); }
        }
        if h == x { assert(t[pos] == x); }
    }
}

proof fn lemma_push_contains(s: Seq<u64>, x: u64)
    ensures
        forall|h: u64| #[trigger] s.push(x).contains(h) <==> (s.contains(h) || h == x),
{
    assert(s.push(x) =~= s.insert(s.len() as int, x));
    lemma_insert_contains(s, s.len() as int, x);
}

fn first_unknown_in(declared: &HashSet<u64>, ids: &Vec<u64>) -> (r: Option<usize>)
    ensures
        match r {
            Some(i) => i < ids@.len() && first_unknown(declared@, ids@) == Some(i as int),
            None => first_unknown(declared@, ids@) is None,
        },
{
    let mut i: usize = 0;
    while i < ids.len()
        invariant
            0 <= i <= ids@.len(),
            forall|j: int| 0 <= j < i ==> known(declared@, #[trigger] ids@[j]),
        decreases ids@.len() - i,
    {
        let id = ids[i];
        if !(declared.contains(&id) && id <= 0xffff_ffff) {
            proof {
                assert(!known(declared@, ids@[i as int]));
                let c = first_unknown(declared@, ids@)->0;
                assert(0 <= c < ids@.len() && !known(declared@, ids@[c]));
                if c < i { assert(known(declared@, ids@[c])); }
                if c > i { assert(known(declared@, ids@[i as int])); }
            }
            return Some(i);
        }
        assert(known(declared@, ids@[i as int]));
        i = i + 1;
    }
    proof {
        assert(!exists|j: int| 0 <= j < ids@.len() && !known(declared@, #[trigger] ids@[j]));
    }
    None
}

/// `id` occurs in `v`.
fn contains_id(v: &Vec<u64>, id: u64) -> (r: bool)
    ensures
        r == v@.contains(id),
{
    let mut i: usize = 0;
    while i < v.len()
        invariant
            0 <= i <= v@.len(),
            forall|j: int| 0 <= j < i ==> v@[j] != id,
        decreases v@.len() - i,
    {
        if v[i] == id {
            return true;
        }
        i = i + 1;
    }
    false
}

fn groups_of_exec(tx: &TypeTaxonomy, c: u64) -> (r: Vec<u64>)
    ensures
        r@ == groups_of(tx, c),
{
    match tx.category_groups.get(&c) {
        Some(v) => {
            let mut out: Vec<u64> = Vec::new();
            let mut i: usize = 0;
            while i < v.len()
                invariant
                    0 <= i <= v@.len(),
                    out@ == v@.take(i as int),
                decreases v@.len() - i,
            {
                out.push(v[i]);
                assert(v@.take(i + 1) =~= v@.take(i as int).push(v@[i as int]));
                i = i + 1;
            }
            assert(v@.take(v@.len() as int) =~= v@);
            out
        },
        None => Vec::new(),
    }
}

fn under_categories_exec(tx: &TypeTaxonomy, cats: &Vec<u64>, g: u64) -> (r: bool)
    ensures
        r == under_categories(tx, cats@, g),
{
    let mut i: usize = 0;
    while i < cats.len()
        invariant
            0 <= i <= cats@.len(),
            forall|j: int| 0 <= j < i ==> !groups_of(tx, #[trigger] cats@[j]).contains(g),
        decreases cats@.len() - i,
    {
        let gs = groups_of_exec(tx, cats[i]);
        if contains_id(&gs, g) {
            return true;
        }
        i = i + 1;
    }
    false
}

/// The Groups a call is restricted to, or `None` when it names no Group and
/// no Category. Named Groups and Categories must be declared (the Groups are
/// checked first, each in order); the result lists each Group once, ascending.
pub fn resolve_group_filter(tx: &TypeTaxonomy, groups: &Vec<u64>, categories: &Vec<u64>) -> (r: Result<Option<Vec<u64>>, TaxonomyError>)
    ensures
        groups@.len() == 0 && categories@.len() == 0 ==> r == Ok::<Option<Vec<u64>>, TaxonomyError>(None),
        !(groups@.len() == 0 && categories@.len() == 0) ==> match first_unknown(tx.declared_groups@, groups@) {
            Some(i) => r == Err::<Option<Vec<u64>>, TaxonomyError>(TaxonomyError::GroupNotFound(groups@[i])),
            None => match first_unknown(tx.declared_categories@, categories@) {
                Some(i) => r == Err::<Option<Vec<u64>>, TaxonomyError>(TaxonomyError::CategoryNotFound(categories@[i])),
                None => r matches Ok(Some(v)) && ids_increasing(v@)
                    && forall|g: u64| #[trigger] v@.contains(g) <==> group_filter_has(tx, groups@, categories@, g),
            },
        },
{
    if groups.len() == 0 && categories.len() == 0 {
        return Ok(None);
    }
    match first_unknown_in(&tx.declared_groups, groups) {
        Some(i) => return Err(TaxonomyError::GroupNotFound(groups[i])),
        None => {},
    }
    match first_unknown_in(&tx.declared_categories, categories) {
        Some(i) => return Err(TaxonomyError::CategoryNotFound(categories[i])),
        None => {},
    }
    // The candidate Groups: the named ones, or those of the named Categories.
    let mut pool: Vec<u64> = Vec::new();
    if groups.len() == 0 {
        let mut i: usize = 0;
        while i < categories.len()
            invariant
                0 <= i <= categories@.len(),
                forall|g: u64| #[trigger] pool@.contains(g) <==> under_categories(tx, categories@.take(i as int), g),
            decreases categories@.len() - i,
        {
            let gs = groups_of_exec(tx, categories[i]);
            let mut k: usize = 0;
            let ghost p0 = pool@;
            while k < gs.len()
                invariant
                    0 <= k <= gs@.len(),
                    forall|g: u64| #[trigger] pool@.contains(g) <==> (p0.contains(g) || gs@.take(k as int).contains(g)),
                decreases gs@.len() - k,
            {
                let ghost pb = pool@;
                pool.push(gs[k]);
                proof {
                    let t0 = gs@.take(k as int);
                    let t1 = gs@.take(k + 1);
                    assert(t1 =~= t0.push(gs@[k as int]));
                    lemma_push_contains(pb, gs@[k as int]);
                    lemma_push_contains(t0, gs@[k as int]);
                }
                k = k + 1;
            }
            proof {
                assert(gs@.take(gs@.len() as int) =~= gs@);
                let c0 = categories@.take(i as int);
                let c1 = categories@.take(i + 1);
                assert forall|g: u64| #[trigger] pool@.contains(g) <==> under_categories(tx, c1, g) by {
                    if under_categories(tx, c1, g) {
                        let q = choose|q: int| 0 <= q < c1.len() && groups_of(tx, #[trigger] c1[q]).contains(g);
                        if q < i { assert(c0[q] == c1[q]); assert(under_categories(tx, c0, g)); }
                    }
                    if under_categories(tx, c0, g) {
                        let q = choose|q: int| 0 <= q < c0.len() && groups_of(tx, #[trigger] c0[q]).contains(g);
                        assert(c1[q] == c0[q]);
                    }
                    if gs@.contains(g) {
                        assert(c1[i as int] == categories@[i as int]);
                    }
                }
            }
            i = i + 1;
        }
        proof {
            assert(categories@.take(categories@.len() as int) =~= categories@);
        }
    } else {
        let mut i: usize = 0;
        while i < groups.len()
            invariant
                0 <= i <= groups@.len(),
                pool@ == groups@.take(i as int),
            decreases groups@.len() - i,
        {
            pool.push(groups[i]);
            assert(groups@.take(i + 1) =~= groups@.take(i as int).push(groups@[i as int]));
            i = i + 1;
        }
        assert(groups@.take(groups@.len() as int) =~= groups@);
    }
    // Keep the pool's Groups that every named predicate admits, once each.
    let mut out: Vec<u64> = Vec::new();
    let mut j: usize = 0;
    while j < pool.len()
        invariant
            0 <= j <= pool@.len(),
            ids_increasing(out@),
            groups@.len() > 0 ==> pool@ == groups@,
            groups@.len() == 0 ==> forall|g: u64| #[trigger] pool@.contains(g) <==> under_categories(tx, categories@, g),
            forall|g: u64| #[trigger] out@.contains(g) <==> (pool@.take(j as int).contains(g) && group_filter_has(tx, groups@, categories@, g)),
        decreases pool@.len() - j,
    {
        let g = pool[j];
        let ok = if groups.len() == 0 || categories.len() == 0 {
            true
        } else {
            under_categories_exec(tx, categories, g)
        };
        let ghost o0 = out@;
        let ghost t0 = pool@.take(j as int);
        let ghost t1 = pool@.take(j + 1);
        proof {
            assert(t1 =~= t0.push(g));
            assert(pool@.contains(g));
        }
        if ok && !contains_id(&out, g) {
            insert_id(&mut out, g);
            proof {
                let pos = choose|pos: int| 0 <= pos <= o0.len() && out@ == o0.insert(pos, g);
                lemma_insert_contains(o0, pos, g);
            }
        }
        proof {
            lemma_push_contains(t0, g);
            assert(ok == group_filter_has(tx, groups@, categories@, g)) by {
                if groups@.len() > 0 { assert(groups@.contains(g)); }
            }
            assert forall|h: u64| #[trigger] out@.contains(h) <==> (t1.contains(h) && group_filter_has(tx, groups@, categories@, h)) by {
                assert(t1.contains(h) <==> (t0.contains(h) || h == g));
                assert(o0.contains(h) <==> (t0.contains(h) && group_filter_has(tx, groups@, categories@, h)));
            }
        }
        j = j + 1;
    }
    proof {
        assert(pool@.take(pool@.len() as int) =~= pool@);
        assert forall|g: u64| #[trigger] out@.contains(g) <==> group_filter_has(tx, groups@, categories@, g) by {
            if group_filter_has(tx, groups@, categories@, g) {
                if groups@.len() > 0 { assert(groups@.contains(g)); assert(pool@.contains(g)); }
                else { assert(pool@.contains(g)); }
            }
        }
    }
    Ok(Some(out))
}


// ── Candidates ───────────────────────────────────────────────────────────────

/// The Types of Group `g`.
pub open spec fn types_of(tx: &TypeTaxonomy, g: u64) -> Seq<u64> {
    if tx.group_types@.contains_key(g) { tx.group_types@[g]@ } else { Seq::empty() }
}

/// The candidate set of a call that names Types: those of `ids` a `u32` can
/// hold and the SDE declares, ascending, once each.
pub fn candidates_from_type_ids(tx: &TypeTaxonomy, ids: &Vec<u64>) -> (r: Vec<u64>)
    ensures
        ids_increasing(r@),
        forall|x: u64| #[trigger] r@.contains(x) <==> (ids@.contains(x) && known(tx.declared_types@, x)),
{
    let mut out: Vec<u64> = Vec::new();
    let mut i: usize = 0;
    while i < ids.len()
        invariant
            0 <= i <= ids@.len(),
            ids_increasing(out@),
            forall|x: u64| #[trigger] out@.contains(x) <==> (ids@.take(i as int).contains(x) && known(tx.declared_types@, x)),
        decreases ids@.len() - i,
    {
        let x = ids[i];
        let ghost o0 = out@;
        if x <= 0xffff_ffff && tx.declared_types.contains(&x) && !contains_id(&out, x) {
            insert_id(&mut out, x);
            proof {
                let pos = choose|pos: int| 0 <= pos <= o0.len() && out@ == o0.insert(pos, x);
                lemma_insert_contains(o0, pos, x);
            }
        }
        proof {
            assert(ids@.take(i + 1) =~= ids@.take(i as int).push(x));
            lemma_push_contains(ids@.take(i as int), x);
        }
        i = i + 1;
    }
    proof {
        assert(ids@.take(ids@.len() as int) =~= ids@);
    }
    out
}

/// Some Group of `groups` holds Type `x`.
pub open spec fn in_groups(tx: &TypeTaxonomy, groups: Seq<u64>, x: u64) -> bool {
    exists|i: int| 0 <= i < groups.len() && types_of(tx, #[trigger] groups[i]).contains(x)
}

/// The candidate set of a taxonomy call: the Types of the filter's Groups,
/// ascending, once each.
pub fn candidates_from_groups(tx: &TypeTaxonomy, groups: &Vec<u64>) -> (r: Vec<u64>)
    ensures
        ids_increasing(r@),
        forall|x: u64| #[trigger] r@.contains(x) <==> in_groups(tx, groups@, x),
{
    let mut out: Vec<u64> = Vec::new();
    let mut i: usize = 0;
    while i < groups.len()
        invariant
            0 <= i <= groups@.len(),
            ids_increasing(out@),
            forall|x: u64| #[trigger] out@.contains(x) <==> in_groups(tx, groups@.take(i as int), x),
        decreases groups@.len() - i,
    {
        let g = groups[i];
        let ghost start = out@;
        match tx.group_types.get(&g) {
            Some(ts) => {
                let mut k: usize = 0;
                while k < ts.len()
                    invariant
                        0 <= k <= ts@.len(),
                        ts@ == types_of(tx, g),
                        ids_increasing(out@),
                        forall|x: u64| #[trigger] out@.contains(x) <==> (start.contains(x) || ts@.take(k as int).contains(x)),
                    decreases ts@.len() - k,
                {
                    let x = ts[k];
                    let ghost o0 = out@;
                    if !contains_id(&out, x) {
                        insert_id(&mut out, x);
                        proof {
                            let pos = choose|pos: int| 0 <= pos <= o0.len() && out@ == o0.insert(pos, x);
                            lemma_insert_contains(o0, pos, x);
                        }
                    }
                    proof {
                        assert(ts@.take(k + 1) =~= ts@.take(k as int).push(x));
                        lemma_push_contains(ts@.take(k as int), x);
                    }
                    k = k + 1;
                }
                proof {
                    assert(ts@.take(ts@.len() as int) =~= ts@);
                }
            },
            None => {},
        }
        proof {
            let g0 = groups@.take(i as int);
            let g1 = groups@.take(i + 1);
            assert forall|x: u64| #[trigger] out@.contains(x) <==> in_groups(tx, g1, x) by {
                if in_groups(tx, g1, x) {
                    let q = choose|q: int| 0 <= q < g1.len() && types_of(tx, #[trigger] g1[q]).contains(x);
                    if q < i { assert(g0[q] == g1[q]); assert(in_groups(tx, g0, x)); }
                }
                if in_groups(tx, g0, x) {
                    let q = choose|q: int| 0 <= q < g0.len() && types_of(tx, #[trigger] g0[q]).contains(x);
                    assert(g1[q] == g0[q]);
                }
                if types_of(tx, g).contains(x) { assert(g1[i as int] == g); }
            }
        }
        i = i + 1;
    }
    proof {
        assert(groups@.take(groups@.len() as int) =~= groups@);
    }
    out
}

// ── Narrowing ────────────────────────────────────────────────────────────────

/// The optional ID filters of a call, each a set given as a list.
pub struct TypeFilters {
    pub groups: Option<Vec<u64>>,
    pub type_ids: Option<Vec<u64>>,
    pub name_matches: Option<Vec<u64>>,
    pub published_only: bool,
    pub meta_groups: Option<Vec<u64>>,
}

/// `x` is in the filter, or there is no filter.
pub open spec fn admits(f: Option<Vec<u64>>, x: u64) -> bool {
    match f {
        None => true,
        Some(v) => v@.contains(x),
    }
}

/// `x` passes every predicate but the MetaGroup one.
pub open spec fn passes_first(tx: &TypeTaxonomy, f: &TypeFilters, x: u64) -> bool {
    &&& match f.groups {
        None => true,
        Some(v) => tx.type_group@.contains_key(x) && v@.contains(tx.type_group@[x]),
    }
    &&& admits(f.type_ids, x)
    &&& admits(f.name_matches, x)
    &&& (f.published_only ==> tx.published@.contains(x))
}

/// `x` passes every predicate.
pub open spec fn passes(tx: &TypeTaxonomy, f: &TypeFilters, x: u64) -> bool {
    &&& passes_first(tx, f, x)
    &&& match f.meta_groups {
        None => true,
        Some(v) => tx.type_meta_group@.contains_key(x) && v@.contains(tx.type_meta_group@[x]),
    }
}

/// `x` passes every other predicate but carries no MetaGroup while one is asked
/// for.
pub open spec fn dropped_for_no_meta(tx: &TypeTaxonomy, f: &TypeFilters, x: u64) -> bool {
    f.meta_groups is Some && passes_first(tx, f, x) && !tx.type_meta_group@.contains_key(x)
}

/// The indices of the first `n` candidates that pass.
pub open spec fn kept(tx: &TypeTaxonomy, f: &TypeFilters, cands: Seq<u64>, n: nat) -> Seq<usize>
    decreases n,
{
    if n == 0 {
        Seq::empty()
    } else if passes(tx, f, cands[n - 1]) {
        kept(tx, f, cands, (n - 1) as nat).push((n - 1) as usize)
    } else {
        kept(tx, f, cands, (n - 1) as nat)
    }
}

/// How many of the first `n` candidates were dropped for having no MetaGroup.
pub open spec fn no_meta_count(tx: &TypeTaxonomy, f: &TypeFilters, cands: Seq<u64>, n: nat) -> int
    decreases n,
{
    if n == 0 {
        0
    } else {
        no_meta_count(tx, f, cands, (n - 1) as nat) + if dropped_for_no_meta(tx, f, cands[n - 1]) { 1int } else { 0 }
    }
}

fn admits_exec(f: &Option<Vec<u64>>, x: u64) -> (b: bool)
    ensures
        b == admits(*f, x),
{
    match f {
        None => true,
        Some(v) => contains_id(v, x),
    }
}

/// Applies the narrowing predicates to the candidates, in order: the indices of
/// those that pass, and how many were dropped for carrying no MetaGroup while
/// one was asked for (judged only on candidates every other predicate kept).
pub fn narrow(tx: &TypeTaxonomy, f: &TypeFilters, cands: &Vec<u64>) -> (r: (Vec<usize>, u64))
    ensures
        r.0@ == kept(tx, f, cands@, cands@.len()),
        r.1 == no_meta_count(tx, f, cands@, cands@.len()),
{
    let mut out: Vec<usize> = Vec::new();
    let mut excluded: u64 = 0;
    let mut i: usize = 0;
    while i < cands.len()
        invariant
            0 <= i <= cands@.len(),
            out@ == kept(tx, f, cands@, i as nat),
            excluded == no_meta_count(tx, f, cands@, i as nat),
            excluded <= i,
        decreases cands@.len() - i,
    {
        let x = cands[i];
        let in_group = match &f.groups {
            None => true,
            Some(v) => match tx.type_group.get(&x) {
                Some(g) => contains_id(v, *g),
                None => false,
            },
        };
        let first = in_group && admits_exec(&f.type_ids, x) && admits_exec(&f.name_matches, x)
            && (!f.published_only || tx.published.contains(&x));
        assert(first == passes_first(tx, f, x));
        if first {
            match &f.meta_groups {
                None => {
                    out.push(i);
                },
                Some(v) => match tx.type_meta_group.get(&x) {
                    Some(m) => {
                        if contains_id(v, *m) {
                            out.push(i);
                        }
                    },
                    None => {
                        excluded = excluded + 1;
                    },
                },
            }
        }
        i = i + 1;
    }
    (out, excluded)
}

/// Rows a call returns at most, unless it asks for a limit.
pub const DEFAULT_FIND_TYPES_LIMIT: u64 = 100;
/// The most rows a call can ask for.
pub const MAX_FIND_TYPES_LIMIT: u64 = 1000;

/// The rows returned of `total` matches: the limit asked (100 by default,
/// at most 1000), or all of them when fewer.
pub open spec fn page_len(limit: Option<u64>, total: int) -> int {
    let l: int = match limit { Some(v) => if v > MAX_FIND_TYPES_LIMIT { MAX_FIND_TYPES_LIMIT as int } else { v as int }, None => DEFAULT_FIND_TYPES_LIMIT as int };
    if total < l { total } else { l }
}

/// How many rows of `total` matches a page returns, and whether it is cut.
pub fn page(limit: Option<u64>, total: usize) -> (r: (usize, bool))
    ensures
        r.0 == page_len(limit, total as int),
        r.1 == (total > r.0),
{
    let l: u64 = match limit {
        Some(v) => if v > MAX_FIND_TYPES_LIMIT { MAX_FIND_TYPES_LIMIT } else { v },
        None => DEFAULT_FIND_TYPES_LIMIT,
    };
    let returned: usize = if (total as u64) < l { total } else { l as usize };
    (returned, total > returned)
}

// ── Group rollup ─────────────────────────────────────────────────────────────

/// One Group of a rollup (none for matched Types without a Group), with how
/// many matched Types it holds.
#[derive(Clone, Copy, Debug, PartialEq, Eq, Structural)]
pub struct GroupCount {
    pub group_id: Option<u64>,
    pub count: u64,
}

/// The Group of `x`, if it has one.
pub open spec fn group_opt(tx: &TypeTaxonomy, x: u64) -> Option<u64> {
    if tx.type_group@.contains_key(x) { Some(tx.type_group@[x]) } else { None }
}

/// How many of `matched` have Group `g`.
pub open spec fn group_count(tx: &TypeTaxonomy, matched: Seq<u64>, g: Option<u64>) -> int
    decreases matched.len(),
{
    if matched.len() == 0 {
        0
    } else {
        group_count(tx, matched.drop_last(), g) + if group_opt(tx, matched.last()) == g { 1int } else { 0 }
    }
}

/// `a` sorts before `b` as a Group key: no Group first, then by ID.
pub open spec fn key_before(a: Option<u64>, b: Option<u64>) -> bool {
    match (a, b) {
        (None, Some(_)) => true,
        (Some(x), Some(y)) => x < y,
        _ => false,
    }
}

/// `a` is listed before `b`: bigger Groups first, then by Group key.
pub open spec fn count_before(a: GroupCount, b: GroupCount) -> bool {
    a.count > b.count || (a.count == b.count && key_before(a.group_id, b.group_id))
}

/// Some entry of the rollup is for Group `g`.
pub open spec fn rolled(r: Seq<GroupCount>, g: Option<u64>) -> bool {
    exists|k: int| 0 <= k < r.len() && #[trigger] r[k].group_id == g
}

fn group_opt_exec(tx: &TypeTaxonomy, x: u64) -> (r: Option<u64>)
    ensures
        r == group_opt(tx, x),
{
    match tx.type_group.get(&x) {
        Some(g) => Some(*g),
        None => None,
    }
}

/// Counts the Groups over the whole match set: one entry per Group a matched
/// Type belongs to (and one for those with none), with its count, biggest
/// first and ties by Group key.
pub fn roll_up_groups(tx: &TypeTaxonomy, matched: &Vec<u64>) -> (r: Vec<GroupCount>)
    ensures
        forall|k: int, j: int| 0 <= k < j < r@.len() ==> count_before(#[trigger] r@[k], #[trigger] r@[j]),
        forall|k: int| 0 <= k < r@.len() ==> (#[trigger] r@[k]).count == group_count(tx, matched@, r@[k].group_id) && r@[k].count > 0,
        forall|g: Option<u64>| group_count(tx, matched@, g) > 0 ==> #[trigger] rolled(r@, g),
{
    // First tally by key, in order of first appearance.
    let mut keys: Vec<Option<u64>> = Vec::new();
    let mut counts: Vec<u64> = Vec::new();
    let mut i: usize = 0;
    while i < matched.len()
        invariant
            0 <= i <= matched@.len(),
            keys@.len() == counts@.len(),
            forall|a: int, b: int| 0 <= a < b < keys@.len() ==> #[trigger] keys@[a] != #[trigger] keys@[b],
            forall|a: int| 0 <= a < keys@.len() ==> #[trigger] counts@[a] == group_count(tx, matched@.take(i as int), keys@[a]) && counts@[a] > 0,
            forall|g: Option<u64>| group_count(tx, matched@.take(i as int), g) > 0 ==> #[trigger] keys@.contains(g),
            forall|a: int| 0 <= a < keys@.len() ==> #[trigger] counts@[a] <= i,
        decreases matched@.len() - i,
    {
        let g = group_opt_exec(tx, matched[i]);
        let ghost m0 = matched@.take(i as int);
        let ghost m1 = matched@.take(i + 1);
        proof {
            assert(m1.drop_last() =~= m0);
            assert(m1.last() == matched@[i as int]);
        }
        let mut k: usize = 0;
        while k < keys.len() && keys[k] != g
            invariant
                0 <= k <= keys@.len(),
                forall|a: int| 0 <= a < k ==> keys@[a] != g,
            decreases keys@.len() - k,
        {
            k = k + 1;
        }
        let ghost c0 = counts@;
        let ghost k0 = keys@;
        if k < keys.len() {
            let c = counts[k];
            counts.set(k, c + 1);
        } else {
            keys.push(g);
            counts.push(1);
            proof {
                assert(group_count(tx, m0, g) == 0) by {
                    if group_count(tx, m0, g) > 0 {
                        assert(k0.contains(g));
                        let a = choose|a: int| 0 <= a < k0.len() && k0[a] == g;
                        assert(a < k);
                    }
                    lemma_group_count_nonneg(tx, m0, g);
                }
            }
        }
        proof {
            assert forall|a: int| 0 <= a < keys@.len() implies #[trigger] counts@[a] == group_count(tx, m1, keys@[a]) && counts@[a] > 0 by {
                if a < k0.len() { assert(keys@[a] == k0[a]); }
            }
            assert forall|h: Option<u64>| group_count(tx, m1, h) > 0 implies #[trigger] keys@.contains(h) by {
                if h == g {
                    assert(keys@[k as int] == g);
                } else {
                    assert(group_count(tx, m0, h) > 0);
                    assert(k0.contains(h));
                    let a = choose|a: int| 0 <= a < k0.len() && k0[a] == h;
                    assert(keys@[a] == h);
                }
            }
        }
        i = i + 1;
    }
    proof {
        assert(matched@.take(matched@.len() as int) =~= matched@);
    }
    // Then order the entries.
    let mut out: Vec<GroupCount> = Vec::new();
    let mut j: usize = 0;
    while j < keys.len()
        invariant
            0 <= j <= keys@.len(),
            keys@.len() == counts@.len(),
            forall|a: int, b: int| 0 <= a < b < keys@.len() ==> #[trigger] keys@[a] != #[trigger] keys@[b],
            forall|a: int| 0 <= a < keys@.len() ==> #[trigger] counts@[a] == group_count(tx, matched@, keys@[a]) && counts@[a] > 0,
            forall|k: int, l: int| 0 <= k < l < out@.len() ==> count_before(#[trigger] out@[k], #[trigger] out@[l]),
            forall|k: int| 0 <= k < out@.len() ==> (#[trigger] out@[k]).count == group_count(tx, matched@, out@[k].group_id) && out@[k].count > 0,
            forall|k: int| #![trigger out@[k]] 0 <= k < out@.len() ==> exists|a: int| 0 <= a < j && #[trigger] keys@[a] == out@[k].group_id,
            forall|a: int| 0 <= a < j ==> #[trigger] rolled(out@, keys@[a]),
        decreases keys@.len() - j,
    {
        let e = GroupCount { group_id: keys[j], count: counts[j] };
        let mut pos: usize = 0;
        while pos < out.len() && (out[pos].count > e.count || (out[pos].count == e.count && key_less(out[pos].group_id, e.group_id)))
            invariant
                0 <= pos <= out@.len(),
                forall|k: int| 0 <= k < pos ==> count_before(#[trigger] out@[k], e),
            decreases out@.len() - pos,
        {
            pos = pos + 1;
        }
        let ghost before = out@;
        proof {
            assert forall|k: int| 0 <= k < before.len() implies #[trigger] before[k].group_id != e.group_id by {
                let a = choose|a: int| 0 <= a < j && #[trigger] keys@[a] == before[k].group_id;
                assert(keys@[a] != keys@[j as int]);
            }
            assert(forall|a: int| 0 <= a < j ==> #[trigger] rolled(before, keys@[a]));
        }
        out.insert(pos, e);
        proof {
            let p = pos as int;
            if p < before.len() {
                assert(!count_before(before[p], e));
                assert(before[p].group_id != e.group_id);
            }
            assert forall|k: int, l: int| 0 <= k < l < out@.len() implies count_before(#[trigger] out@[k], #[trigger] out@[l]) by {
                if l < p {
                    assert(out@[k] == before[k] && out@[l] == before[l]);
                } else if l == p {
                    assert(out@[k] == before[k]);
                    assert(before[k].group_id != e.group_id);
                } else if k < p {
                    assert(out@[k] == before[k] && out@[l] == before[l - 1]);
                    if l - 1 > p { assert(count_before(before[p], before[l - 1])); }
                } else if k == p {
                    assert(out@[l] == before[l - 1]);
                    if l - 1 > p { assert(count_before(before[p], before[l - 1])); }
                } else {
                    assert(out@[k] == before[k - 1] && out@[l] == before[l - 1]);
                }
            }
            assert forall|k: int| 0 <= k < out@.len() implies (#[trigger] out@[k]).count == group_count(tx, matched@, out@[k].group_id) && out@[k].count > 0 by {
                if k < p { assert(out@[k] == before[k]); } else if k > p { assert(out@[k] == before[k - 1]); }
            }
            assert forall|k: int| #![trigger out@[k]] 0 <= k < out@.len() implies exists|a: int| 0 <= a < j + 1 && #[trigger] keys@[a] == out@[k].group_id by {
                if k < p {
                    assert(out@[k] == before[k]);
                    let a = choose|a: int| 0 <= a < j && #[trigger] keys@[a] == before[k].group_id;
                } else if k > p {
                    assert(out@[k] == before[k - 1]);
                    let a = choose|a: int| 0 <= a < j && #[trigger] keys@[a] == before[k - 1].group_id;
                } else {
                    assert(keys@[j as int] == out@[k].group_id);
                }
            }
            assert forall|a: int| 0 <= a < j + 1 implies #[trigger] rolled(out@, keys@[a]) by {
                if a < j {
                    assert(rolled(before, keys@[a]));
                    let k = choose|k: int| 0 <= k < before.len() && #[trigger] before[k].group_id == keys@[a];
                    if k < p { assert(out@[k] == before[k]); } else { assert(out@[k + 1] == before[k]); }
                } else {
                    assert(out@[p].group_id == keys@[a]);
                }
            }
        }
        j = j + 1;
    }
    proof {
        assert forall|g: Option<u64>| group_count(tx, matched@, g) > 0 implies #[trigger] rolled(out@, g) by {
            assert(keys@.contains(g));
            let a = choose|a: int| 0 <= a < keys@.len() && keys@[a] == g;
            assert(rolled(out@, keys@[a]));
        }
    }
    out
}

proof fn lemma_group_count_nonneg(tx: &TypeTaxonomy, m: Seq<u64>, g: Option<u64>)
    ensures
        group_count(tx, m, g) >= 0,
    decreases m.len(),
{
    if m.len() > 0 {
        lemma_group_count_nonneg(tx, m.drop_last(), g);
    }
}

fn key_less(a: Option<u64>, b: Option<u64>) -> (r: bool)
    ensures
        r == key_before(a, b),
{
    match (a, b) {
        (None, Some(_)) => true,
        (Some(x), Some(y)) => x < y,
        _ => false,
    }
}


// ── The selector ─────────────────────────────────────────────────────────────

/// The integer predicates of a `sde_find_types` call.
pub struct FindTypesQuery {
    pub type_ids: Option<Vec<u64>>,
    pub group_ids: Option<Vec<u64>>,
    pub category_ids: Option<Vec<u64>>,
    pub meta_group_ids: Option<Vec<u64>>,
    pub published_only: Option<bool>,
    pub limit: Option<u64>,
}

/// Why a selection could not be made.
#[derive(Debug, Clone, Copy, PartialEq, Eq)]
pub enum FindTypesError {
    /// No predicate that can stand alone was given.
    NoPredicate,
    /// A named Group or Category is not declared.
    Taxonomy(TaxonomyError),
}

/// What a selection found: the candidate set it stood on, the indices of the
/// candidates every predicate admitted, the page cut, the MetaGroup exclusion
/// count (when a MetaGroup filter ran) and the Group rollup of all matches.
pub struct Selection {
    pub candidates: Vec<u64>,
    pub matched: Vec<usize>,
    pub total_matched: usize,
    pub returned: usize,
    pub truncated: bool,
    pub excluded_no_meta_group: Option<u64>,
    pub groups: Vec<GroupCount>,
}

/// The IDs of a list a `u32` can hold, or `None` for an absent or empty list.
pub open spec fn u32_filter(v: Option<Vec<u64>>) -> Option<Set<u64>> {
    match v {
        Some(ids) => if ids@.len() == 0 { None } else { Some(Set::new(|x: u64| ids@.contains(x) && x <= u32::MAX)) },
        None => None,
    }
}

/// The filter `f` matches the set `s`.
pub open spec fn filter_is(f: Option<Vec<u64>>, s: Option<Set<u64>>) -> bool {
    match (f, s) {
        (None, None) => true,
        (Some(v), Some(t)) => forall|x: u64| #[trigger] v@.contains(x) <==> t.contains(x),
        _ => false,
    }
}

fn u32_filter_exec(v: &Option<Vec<u64>>) -> (r: Option<Vec<u64>>)
    ensures
        filter_is(r, u32_filter(*v)),
{
    match v {
        None => None,
        Some(ids) => {
            if ids.len() == 0 {
                return None;
            }
            let mut out: Vec<u64> = Vec::new();
            let mut i: usize = 0;
            while i < ids.len()
                invariant
                    0 <= i <= ids@.len(),
                    forall|x: u64| #[trigger] out@.contains(x) <==> (ids@.take(i as int).contains(x) && x <= u32::MAX),
                decreases ids@.len() - i,
            {
                let x = ids[i];
                let ghost o0 = out@;
                if x <= 0xffff_ffff {
                    out.push(x);
                    proof { lemma_push_contains(o0, x); }
                }
                proof {
                    assert(ids@.take(i + 1) =~= ids@.take(i as int).push(x));
                    lemma_push_contains(ids@.take(i as int), x);
                }
                i = i + 1;
            }
            proof {
                assert(ids@.take(ids@.len() as int) =~= ids@);
            }
            Some(out)
        },
    }
}

fn list_or_empty(v: &Option<Vec<u64>>) -> (r: Vec<u64>)
    ensures
        r@ == (match *v { Some(x) => x@, None => Seq::<u64>::empty() }),
{
    match v {
        Some(x) => {
            let mut out: Vec<u64> = Vec::new();
            let mut i: usize = 0;
            while i < x.len()
                invariant
                    0 <= i <= x@.len(),
                    out@ == x@.take(i as int),
                decreases x@.len() - i,
            {
                out.push(x[i]);
                assert(x@.take(i + 1) =~= x@.take(i as int).push(x@[i as int]));
                i = i + 1;
            }
            assert(x@.take(x@.len() as int) =~= x@);
            out
        },
        None => Vec::new(),
    }
}

/// The matched candidates, in order.
pub open spec fn matched_ids(cands: Seq<u64>, idx: Seq<usize>) -> Seq<u64> {
    idx.map_values(|i: usize| cands[i as int])
}

/// A list parameter's IDs, empty when absent.
pub open spec fn list_view(v: Option<Vec<u64>>) -> Seq<u64> {
    match v { Some(x) => x@, None => Seq::<u64>::empty() }
}

/// The taxonomy error a call's Groups and Categories raise, if any: the first
/// undeclared Group, else the first undeclared Category.
pub open spec fn taxonomy_error(tx: &TypeTaxonomy, groups: Seq<u64>, cats: Seq<u64>) -> Option<TaxonomyError> {
    if groups.len() == 0 && cats.len() == 0 {
        None
    } else {
        match first_unknown(tx.declared_groups@, groups) {
            Some(i) => Some(TaxonomyError::GroupNotFound(groups[i])),
            None => match first_unknown(tx.declared_categories@, cats) {
                Some(i) => Some(TaxonomyError::CategoryNotFound(cats[i])),
                None => None,
            },
        }
    }
}

/// The Group filter of a call as a set, or `None` when it names no Group and
/// no Category.
pub open spec fn group_set(tx: &TypeTaxonomy, groups: Seq<u64>, cats: Seq<u64>) -> Option<Set<u64>> {
    if groups.len() == 0 && cats.len() == 0 {
        None
    } else {
        Some(Set::new(|g: u64| group_filter_has(tx, groups, cats, g)))
    }
}

/// Type `x` lies in a Group the filter admits.
pub open spec fn in_filtered_groups(tx: &TypeTaxonomy, groups: Seq<u64>, cats: Seq<u64>, x: u64) -> bool {
    exists|g: u64| group_filter_has(tx, groups, cats, g) && #[trigger] types_of(tx, g).contains(x)
}

/// The call stands on no predicate that can produce a candidate set.
pub open spec fn no_predicate(q: &FindTypesQuery, has_attribute: bool) -> bool {
    !has_attribute && u32_filter(q.type_ids) is None
        && list_view(q.group_ids).len() == 0 && list_view(q.category_ids).len() == 0
}

/// The candidate set a call stands on.
pub open spec fn candidates_ok(tx: &TypeTaxonomy, q: &FindTypesQuery, attribute_rows: Option<&Vec<u64>>, cands: Seq<u64>) -> bool {
    &&& ids_increasing(cands)
    &&& match attribute_rows {
        Some(rows) => forall|x: u64| #[trigger] cands.contains(x) <==> rows@.contains(x),
        None => match u32_filter(q.type_ids) {
            Some(t) => forall|x: u64| #[trigger] cands.contains(x) <==> (t.contains(x) && known(tx.declared_types@, x)),
            None => forall|x: u64| #[trigger] cands.contains(x)
                <==> in_filtered_groups(tx, list_view(q.group_ids), list_view(q.category_ids), x),
        },
    }
}

/// The distinct IDs of `rows`, ascending. Rows that already ascend, as the
/// scan leaves an attribute's rows, come back unchanged.
fn sorted_ids(rows: &Vec<u64>) -> (r: Vec<u64>)
    ensures
        ids_increasing(r@),
        forall|x: u64| #[trigger] r@.contains(x) <==> rows@.contains(x),
{
    let mut out: Vec<u64> = Vec::new();
    let mut i: usize = 0;
    while i < rows.len()
        invariant
            0 <= i <= rows@.len(),
            ids_increasing(out@),
            forall|x: u64| #[trigger] out@.contains(x) <==> rows@.take(i as int).contains(x),
        decreases rows@.len() - i,
    {
        let x = rows[i];
        let ghost before = out@;
        let ghost t0 = rows@.take(i as int);
        let ghost t1 = rows@.take(i + 1);
        proof { assert(t1 =~= t0.push(x)); }
        let n = out.len();
        if n == 0 || out[n - 1] < x {
            out.push(x);
            proof {
                assert forall|a: int, b: int| 0 <= a < b < out@.len() implies #[trigger] out@[a] < #[trigger] out@[b] by {
                    if b == n as int && a < n - 1 {
                        assert(before[a] < before[n - 1]);
                    }
                }
                assert forall|y: u64| #[trigger] out@.contains(y) <==> t1.contains(y) by {
                    if out@.contains(y) && y != x {
                        let a = choose|a: int| 0 <= a < out@.len() && out@[a] == y;
                        assert(before[a] == y);
                        assert(before.contains(y));
                        let q = choose|q: int| 0 <= q < t0.len() && t0[q] == y;
                        assert(t1[q] == y);
                    }
                    if t1.contains(y) {
                        let q = choose|q: int| 0 <= q < t1.len() && t1[q] == y;
                        if q < i {
                            assert(t0[q] == y);
                            assert(before.contains(y));
                            let a = choose|a: int| 0 <= a < before.len() && before[a] == y;
                            assert(out@[a] == y);
                        } else {
                            assert(out@[n as int] == x);
                        }
                    }
                    if y == x { assert(out@[n as int] == x); assert(t1[i as int] == x); }
                }
            }
        } else if !contains_id(&out, x) {
            insert_id(&mut out, x);
            proof {
                let pos = choose|pos: int| 0 <= pos <= before.len() && out@ == before.insert(pos, x);
                assert forall|y: u64| #[trigger] out@.contains(y) <==> t1.contains(y) by {
                    if out@.contains(y) && y != x {
                        let a = choose|a: int| 0 <= a < out@.len() && out@[a] == y;
                        if a < pos { assert(before[a] == y); } else { assert(a != pos); assert(before[a - 1] == y); }
                        assert(before.contains(y));
                        let q = choose|q: int| 0 <= q < t0.len() && t0[q] == y;
                        assert(t1[q] == y);
                    }
                    if t1.contains(y) && y != x {
                        let q = choose|q: int| 0 <= q < t1.len() && t1[q] == y;
                        assert(q < i);
                        assert(t0[q] == y);
                        assert(before.contains(y));
                        let a = choose|a: int| 0 <= a < before.len() && before[a] == y;
                        if a < pos { assert(out@[a] == y); } else { assert(out@[a + 1] == y); }
                    }
                    if y == x { assert(out@[pos] == x); assert(t1[i as int] == x); }
                }
            }
        } else {
            proof {
                assert forall|y: u64| #[trigger] out@.contains(y) <==> t1.contains(y) by {
                    if t1.contains(y) && y != x {
                        let q = choose|q: int| 0 <= q < t1.len() && t1[q] == y;
                        assert(t0[q] == y);
                    }
                    if out@.contains(y) {
                        assert(t0.contains(y));
                        let q = choose|q: int| 0 <= q < t0.len() && t0[q] == y;
                        assert(t1[q] == y);
                    }
                    if y == x { assert(t1[i as int] == x); }
                }
            }
        }
        i = i + 1;
    }
    assert(rows@.take(rows@.len() as int) =~= rows@);
    out
}

/// What a successful selection holds: the candidate set, the candidates every
/// predicate admits with the MetaGroup exclusion count, the page cut, and the
/// Group rollup of all matches.
pub open spec fn selection_ok(tx: &TypeTaxonomy, q: &FindTypesQuery, attribute_rows: Option<&Vec<u64>>, name_matches: Option<Vec<u64>>, sel: Selection) -> bool {
    let published = match q.published_only { Some(b) => b, None => false };
    &&& candidates_ok(tx, q, attribute_rows, sel.candidates@)
    &&& exists|f: TypeFilters| {
        &&& filter_is(f.groups, group_set(tx, list_view(q.group_ids), list_view(q.category_ids)))
        &&& filter_is(f.type_ids, u32_filter(q.type_ids))
        &&& filter_is(f.meta_groups, u32_filter(q.meta_group_ids))
        &&& f.name_matches == name_matches
        &&& f.published_only == published
        &&& #[trigger] kept(tx, &f, sel.candidates@, sel.candidates@.len()) == sel.matched@
        &&& sel.excluded_no_meta_group == (if f.meta_groups is Some {
                Some(no_meta_count(tx, &f, sel.candidates@, sel.candidates@.len()) as u64)
            } else {
                None::<u64>
            })
    }
    &&& ids_increasing(matched_ids(sel.candidates@, sel.matched@))
    &&& sel.total_matched == sel.matched@.len()
    &&& sel.returned == page_len(q.limit, sel.total_matched as int)
    &&& sel.truncated == (sel.total_matched > sel.returned)
    &&& forall|k: int, j: int| 0 <= k < j < sel.groups@.len() ==> count_before(#[trigger] sel.groups@[k], #[trigger] sel.groups@[j])
    &&& forall|k: int| 0 <= k < sel.groups@.len() ==> (#[trigger] sel.groups@[k]).count
            == group_count(tx, matched_ids(sel.candidates@, sel.matched@), sel.groups@[k].group_id) && sel.groups@[k].count > 0
    &&& forall|g: Option<u64>| group_count(tx, matched_ids(sel.candidates@, sel.matched@), g) > 0 ==> #[trigger] rolled(sel.groups@, g)
}

/// Selects Types: validates the taxonomy, stands on the narrowest candidate
/// set a predicate names (the attribute's rows when given, else the named
/// Types, else the Groups), always ascending by Type ID, applies every
/// narrowing predicate to the whole set in that order, cuts the page, and
/// rolls the Groups up over all matches. `name_matches` is
/// the set a name query resolved to, if any.
pub fn select_types(tx: &TypeTaxonomy, q: &FindTypesQuery, attribute_rows: Option<&Vec<u64>>, name_matches: Option<Vec<u64>>)
    -> (r: Result<Selection, FindTypesError>)
    ensures
        match taxonomy_error(tx, list_view(q.group_ids), list_view(q.category_ids)) {
            Some(e) => r == Err::<Selection, FindTypesError>(FindTypesError::Taxonomy(e)),
            None => if no_predicate(q, attribute_rows is Some) {
                r == Err::<Selection, FindTypesError>(FindTypesError::NoPredicate)
            } else {
                r matches Ok(sel) && selection_ok(tx, q, attribute_rows, name_matches, sel)
            },
        },
{
    let gs = list_or_empty(&q.group_ids);
    let cs = list_or_empty(&q.category_ids);
    let group_filter = match resolve_group_filter(tx, &gs, &cs) {
        Ok(g) => g,
        Err(e) => return Err(FindTypesError::Taxonomy(e)),
    };
    let type_filter = u32_filter_exec(&q.type_ids);
    let candidates: Vec<u64> = match attribute_rows {
        Some(rows) => sorted_ids(rows),
        None => match &type_filter {
            Some(t) => {
                let c = candidates_from_type_ids(tx, t);
                proof {
                    assert forall|x: u64| #[trigger] c@.contains(x) <==> (u32_filter(q.type_ids)->0.contains(x) && known(tx.declared_types@, x)) by {
                        assert(t@.contains(x) <==> u32_filter(q.type_ids)->0.contains(x));
                    }
                }
                c
            },
            None => match &group_filter {
                Some(g) => {
                    let c = candidates_from_groups(tx, g);
                    proof {
                        let gl = list_view(q.group_ids);
                        let cl = list_view(q.category_ids);
                        assert forall|x: u64| #[trigger] c@.contains(x) <==> in_filtered_groups(tx, gl, cl, x) by {
                            if in_groups(tx, g@, x) {
                                let i = choose|i: int| 0 <= i < g@.len() && types_of(tx, #[trigger] g@[i]).contains(x);
                                assert(g@.contains(g@[i]));
                            }
                            if in_filtered_groups(tx, gl, cl, x) {
                                let h = choose|h: u64| group_filter_has(tx, gl, cl, h) && #[trigger] types_of(tx, h).contains(x);
                                assert(g@.contains(h));
                                let i = choose|i: int| 0 <= i < g@.len() && g@[i] == h;
                                assert(types_of(tx, g@[i]).contains(x));
                            }
                        }
                    }
                    c
                },
                None => return Err(FindTypesError::NoPredicate),
            },
        },
    };
    let meta_filter = u32_filter_exec(&q.meta_group_ids);
    let published_only = match q.published_only { Some(b) => b, None => false };
    let filters = TypeFilters {
        groups: group_filter,
        type_ids: type_filter,
        name_matches,
        published_only,
        meta_groups: meta_filter,
    };
    let (matched, excluded) = narrow(tx, &filters, &candidates);
    let ncand = candidates.len();
    let total = matched.len();
    let (returned, truncated) = page(q.limit, total);
    let mut ids: Vec<u64> = Vec::new();
    let mut k: usize = 0;
    while k < matched.len()
        invariant
            0 <= k <= matched@.len(),
            matched@ == kept(tx, &filters, candidates@, candidates@.len()),
            ids@ == matched_ids(candidates@, matched@.take(k as int)),
        decreases matched@.len() - k,
    {
        proof { lemma_kept_in_range(tx, &filters, candidates@, candidates@.len()); }
        ids.push(candidates[matched[k]]);
        proof {
            assert(matched_ids(candidates@, matched@.take(k + 1)) =~= matched_ids(candidates@, matched@.take(k as int)).push(candidates@[matched@[k as int] as int]));
        }
        k = k + 1;
    }
    proof {
        assert(matched@.take(matched@.len() as int) =~= matched@);
    }
    let groups = roll_up_groups(tx, &ids);
    let excluded_no_meta_group = if filters.meta_groups.is_some() { Some(excluded) } else { None };
    let sel = Selection {
        candidates,
        matched,
        total_matched: total,
        returned,
        truncated,
        excluded_no_meta_group,
        groups,
    };
    proof {
        assert(candidates@.len() == ncand);
        lemma_kept_in_range(tx, &filters, candidates@, candidates@.len());
        lemma_kept_increasing(tx, &filters, candidates@, candidates@.len());
        let mi = matched_ids(candidates@, matched@);
        assert forall|a: int, b: int| 0 <= a < b < mi.len() implies #[trigger] mi[a] < #[trigger] mi[b] by {
            assert(matched@[a] < matched@[b]);
            assert(matched@[b] < candidates@.len());
        }
        assert(kept(tx, &filters, sel.candidates@, sel.candidates@.len()) == sel.matched@);
        assert(filter_is(filters.groups, group_set(tx, list_view(q.group_ids), list_view(q.category_ids))));
        assert(filter_is(filters.type_ids, u32_filter(q.type_ids)));
        assert(filter_is(filters.meta_groups, u32_filter(q.meta_group_ids)));
    }
    Ok(sel)
}

/// Every kept index is in range and its candidate passes.
proof fn lemma_kept_pass(tx: &TypeTaxonomy, f: &TypeFilters, cands: Seq<u64>, n: nat)
    requires
        n <= cands.len(),
        cands.len() <= usize::MAX,
    ensures
        forall|k: int| 0 <= k < kept(tx, f, cands, n).len() ==> #[trigger] kept(tx, f, cands, n)[k] < n
            && passes(tx, f, cands[kept(tx, f, cands, n)[k] as int]),
    decreases n,
{
    if n > 0 {
        lemma_kept_pass(tx, f, cands, (n - 1) as nat);
        let k0 = kept(tx, f, cands, (n - 1) as nat);
        let k1 = kept(tx, f, cands, n);
        if passes(tx, f, cands[n - 1]) {
            assert(k1 == k0.push((n - 1) as usize));
            assert forall|k: int| 0 <= k < k1.len() implies #[trigger] k1[k] < n && passes(tx, f, cands[k1[k] as int]) by {
                if k < k0.len() { assert(k1[k] == k0[k]); } else { assert(k1[k] == (n - 1) as usize); }
            }
        }
    }
}

/// Every candidate that passes is kept.
proof fn lemma_kept_complete(tx: &TypeTaxonomy, f: &TypeFilters, cands: Seq<u64>, n: nat, i: int)
    requires
        n <= cands.len(),
        cands.len() <= usize::MAX,
        0 <= i < n,
        passes(tx, f, cands[i]),
    ensures
        kept(tx, f, cands, n).contains(i as usize),
    decreases n,
{
    let k0 = kept(tx, f, cands, (n - 1) as nat);
    let k1 = kept(tx, f, cands, n);
    if i == n - 1 {
        assert(k1 == k0.push((n - 1) as usize));
        assert(k1[k0.len() as int] == i as usize);
    } else {
        lemma_kept_complete(tx, f, cands, (n - 1) as nat, i);
        let a = choose|a: int| 0 <= a < k0.len() && k0[a] == i as usize;
        if passes(tx, f, cands[n - 1]) {
            assert(k1 == k0.push((n - 1) as usize));
            assert(k1[a] == i as usize);
        } else {
            assert(k1 == k0);
        }
    }
}

/// A candidate satisfies every predicate of the call.
pub open spec fn satisfies_all(tx: &TypeTaxonomy, q: &FindTypesQuery, name_matches: Option<Vec<u64>>, x: u64) -> bool {
    &&& (list_view(q.group_ids).len() > 0 || list_view(q.category_ids).len() > 0) ==> tx.type_group@.contains_key(x)
        && group_filter_has(tx, list_view(q.group_ids), list_view(q.category_ids), tx.type_group@[x])
    &&& (u32_filter(q.type_ids) matches Some(t) ==> t.contains(x))
    &&& (u32_filter(q.meta_group_ids) matches Some(m) ==> tx.type_meta_group@.contains_key(x) && m.contains(tx.type_meta_group@[x]))
    &&& (q.published_only == Some(true) ==> tx.published@.contains(x))
    &&& (name_matches matches Some(v) ==> v@.contains(x))
}

/// A selection matches exactly the candidates that satisfy every predicate.
pub proof fn lemma_selection_complete(tx: &TypeTaxonomy, q: &FindTypesQuery, attribute_rows: Option<&Vec<u64>>,
    name_matches: Option<Vec<u64>>, sel: Selection)
    requires
        selection_ok(tx, q, attribute_rows, name_matches, sel),
        sel.candidates@.len() <= usize::MAX,
    ensures
        forall|i: int| 0 <= i < sel.candidates@.len() ==>
            (#[trigger] sel.matched@.contains(i as usize) <==> satisfies_all(tx, q, name_matches, sel.candidates@[i])),
{
    let f = choose|f: TypeFilters| {
        &&& filter_is(f.groups, group_set(tx, list_view(q.group_ids), list_view(q.category_ids)))
        &&& filter_is(f.type_ids, u32_filter(q.type_ids))
        &&& filter_is(f.meta_groups, u32_filter(q.meta_group_ids))
        &&& f.name_matches == name_matches
        &&& f.published_only == (match q.published_only { Some(b) => b, None => false })
        &&& #[trigger] kept(tx, &f, sel.candidates@, sel.candidates@.len()) == sel.matched@
        &&& sel.excluded_no_meta_group == (if f.meta_groups is Some {
                Some(no_meta_count(tx, &f, sel.candidates@, sel.candidates@.len()) as u64)
            } else {
                None::<u64>
            })
    };
    let c = sel.candidates@;
    lemma_kept_pass(tx, &f, c, c.len());
    assert forall|i: int| 0 <= i < c.len() implies
        (#[trigger] sel.matched@.contains(i as usize) <==> satisfies_all(tx, q, name_matches, c[i])) by {
        let x = c[i];
        let gl = list_view(q.group_ids);
        let cl = list_view(q.category_ids);
        assert(passes(tx, &f, x) <==> satisfies_all(tx, q, name_matches, x)) by {
            if gl.len() > 0 || cl.len() > 0 { assert(f.groups is Some); } else { assert(f.groups is None); }
            match u32_filter(q.type_ids) { Some(_) => assert(f.type_ids is Some), None => assert(f.type_ids is None) }
            match u32_filter(q.meta_group_ids) { Some(_) => assert(f.meta_groups is Some), None => assert(f.meta_groups is None) }
        }
        if satisfies_all(tx, q, name_matches, x) {
            lemma_kept_complete(tx, &f, c, c.len(), i);
        }
        if sel.matched@.contains(i as usize) {
            let k = choose|k: int| 0 <= k < sel.matched@.len() && sel.matched@[k] == i as usize;
            assert(kept(tx, &f, c, c.len())[k] == i as usize);
        }
    }
}

/// Every Type a selection matches satisfies every predicate the call gives,
/// whatever predicate produced the candidate set: it is among the attribute's
/// rows when one is given, lies in a Group the Group and Category filters admit
/// when either is given, is one of the named Types, carries one of the named
/// MetaGroups, is published when only published Types are asked for, and
/// matches the name query.
pub proof fn lemma_selection_admits(tx: &TypeTaxonomy, q: &FindTypesQuery, attribute_rows: Option<&Vec<u64>>,
    name_matches: Option<Vec<u64>>, sel: Selection)
    requires
        selection_ok(tx, q, attribute_rows, name_matches, sel),
        sel.candidates@.len() <= usize::MAX,
    ensures
        forall|k: int| 0 <= k < sel.matched@.len() ==> {
            let x = sel.candidates@[#[trigger] sel.matched@[k] as int];
            &&& sel.matched@[k] < sel.candidates@.len()
            &&& (attribute_rows matches Some(rows) ==> rows@.contains(x))
            &&& (list_view(q.group_ids).len() > 0 || list_view(q.category_ids).len() > 0) ==> tx.type_group@.contains_key(x)
                && group_filter_has(tx, list_view(q.group_ids), list_view(q.category_ids), tx.type_group@[x])
            &&& (u32_filter(q.type_ids) matches Some(t) ==> t.contains(x))
            &&& (u32_filter(q.meta_group_ids) matches Some(m) ==> tx.type_meta_group@.contains_key(x) && m.contains(tx.type_meta_group@[x]))
            &&& (q.published_only == Some(true) ==> tx.published@.contains(x))
            &&& (name_matches matches Some(v) ==> v@.contains(x))
        },
{
    let f = choose|f: TypeFilters| {
        &&& filter_is(f.groups, group_set(tx, list_view(q.group_ids), list_view(q.category_ids)))
        &&& filter_is(f.type_ids, u32_filter(q.type_ids))
        &&& filter_is(f.meta_groups, u32_filter(q.meta_group_ids))
        &&& f.name_matches == name_matches
        &&& f.published_only == (match q.published_only { Some(b) => b, None => false })
        &&& #[trigger] kept(tx, &f, sel.candidates@, sel.candidates@.len()) == sel.matched@
        &&& sel.excluded_no_meta_group == (if f.meta_groups is Some {
                Some(no_meta_count(tx, &f, sel.candidates@, sel.candidates@.len()) as u64)
            } else {
                None::<u64>
            })
    };
    lemma_kept_pass(tx, &f, sel.candidates@, sel.candidates@.len());
    let gl = list_view(q.group_ids);
    let cl = list_view(q.category_ids);
    assert forall|k: int| 0 <= k < sel.matched@.len() implies {
        let x = sel.candidates@[#[trigger] sel.matched@[k] as int];
        &&& sel.matched@[k] < sel.candidates@.len()
        &&& (attribute_rows matches Some(rows) ==> rows@.contains(x))
        &&& (gl.len() > 0 || cl.len() > 0) ==> tx.type_group@.contains_key(x)
            && group_filter_has(tx, gl, cl, tx.type_group@[x])
        &&& (u32_filter(q.type_ids) matches Some(t) ==> t.contains(x))
        &&& (u32_filter(q.meta_group_ids) matches Some(m) ==> tx.type_meta_group@.contains_key(x) && m.contains(tx.type_meta_group@[x]))
        &&& (q.published_only == Some(true) ==> tx.published@.contains(x))
        &&& (name_matches matches Some(v) ==> v@.contains(x))
    } by {
        let i = sel.matched@[k] as int;
        let x = sel.candidates@[i];
        assert(kept(tx, &f, sel.candidates@, sel.candidates@.len())[k] == sel.matched@[k]);
        assert(passes(tx, &f, x));
        assert(sel.candidates@.contains(x));
        if gl.len() > 0 || cl.len() > 0 {
            assert(f.groups is Some);
        }
    }
}

/// The kept indices ascend.
proof fn lemma_kept_increasing(tx: &TypeTaxonomy, f: &TypeFilters, cands: Seq<u64>, n: nat)
    requires
        n <= cands.len(),
        cands.len() <= usize::MAX,
    ensures
        forall|a: int, b: int| 0 <= a < b < kept(tx, f, cands, n).len() ==> #[trigger] kept(tx, f, cands, n)[a] < #[trigger] kept(tx, f, cands, n)[b],
    decreases n,
{
    if n > 0 {
        lemma_kept_increasing(tx, f, cands, (n - 1) as nat);
        lemma_kept_in_range(tx, f, cands, (n - 1) as nat);
        let k0 = kept(tx, f, cands, (n - 1) as nat);
        if passes(tx, f, cands[n - 1]) {
            let k1 = kept(tx, f, cands, n);
            assert(k1 == k0.push((n - 1) as usize));
            assert forall|a: int, b: int| 0 <= a < b < k1.len() implies #[trigger] k1[a] < #[trigger] k1[b] by {
                assert(k1[a] == k0[a]);
                if b == k0.len() {
                    assert(k1[b] == (n - 1) as usize);
                    assert(k0[a] < n - 1);
                } else {
                    assert(k1[b] == k0[b]);
                    assert(k0[a] < k0[b]);
                }
            }
        }
    }
}

proof fn lemma_kept_in_range(tx: &TypeTaxonomy, f: &TypeFilters, cands: Seq<u64>, n: nat)
    requires
        n <= cands.len(),
    ensures
        forall|k: int| 0 <= k < kept(tx, f, cands, n).len() ==> #[trigger] kept(tx, f, cands, n)[k] < n,
    decreases n,
{
    if n > 0 {
        lemma_kept_in_range(tx, f, cands, (n - 1) as nat);
        let k0 = kept(tx, f, cands, (n - 1) as nat);
        if passes(tx, f, cands[n - 1]) {
            assert(kept(tx, f, cands, n) == k0.push((n - 1) as usize));
            assert forall|k: int| 0 <= k < kept(tx, f, cands, n).len() implies #[trigger] kept(tx, f, cands, n)[k] < n by {
                if k < k0.len() { assert(kept(tx, f, cands, n)[k] == k0[k]); }
            }
        } else {
            assert(kept(tx, f, cands, n) == k0);
        }
    }
}


// ── Name search over Types ───────────────────────────────────────────────────

/// A Type a scoped name search keeps: any Type when neither scope applies;
/// otherwise one a `u32` holds that is published (when asked) and lies in one
/// of the filter's Groups (when there is a filter).
pub open spec fn search_keeps(tx: &TypeTaxonomy, published_only: bool, groups: Option<Set<u64>>, id: u64) -> bool {
    if !published_only && groups is None {
        true
    } else if id > u32::MAX {
        false
    } else {
        &&& (!published_only || tx.published@.contains(id))
        &&& match groups {
            None => true,
            Some(g) => tx.type_group@.contains_key(id) && g.contains(tx.type_group@[id]),
        }
    }
}

/// A filter list as the set it stands for.
pub open spec fn as_set(v: &Option<Vec<u64>>) -> Option<Set<u64>> {
    match *v { Some(x) => Some(x@.to_set()), None => None }
}

/// Whether a scoped name search keeps Type `id`.
pub fn search_types_keep(tx: &TypeTaxonomy, published_only: bool, groups: &Option<Vec<u64>>, id: u64) -> (b: bool)
    ensures
        b == search_keeps(tx, published_only, as_set(groups), id),
{
    if !published_only && groups.is_none() {
        return true;
    }
    if id > 0xffff_ffff {
        return false;
    }
    if published_only && !tx.published.contains(&id) {
        return false;
    }
    match groups {
        None => true,
        Some(v) => match tx.type_group.get(&id) {
            Some(g) => {
                let b = contains_id(v, *g);
                proof {
                    assert(b == v@.contains(*g));
                    assert(v@.contains(*g) == v@.to_set().contains(*g));
                }
                b
            },
            None => false,
        },
    }
}

/// The hits a scoped search keeps, in order.
pub open spec fn kept_by_scope(tx: &TypeTaxonomy, published_only: bool, groups: Option<Set<u64>>, hits: Seq<NameHit>, n: nat) -> Seq<NameHit>
    decreases n,
{
    if n == 0 {
        Seq::empty()
    } else if search_keeps(tx, published_only, groups, hits[n - 1].id) {
        kept_by_scope(tx, published_only, groups, hits, (n - 1) as nat).push(hits[n - 1])
    } else {
        kept_by_scope(tx, published_only, groups, hits, (n - 1) as nat)
    }
}

proof fn lemma_kept_by_scope(tx: &TypeTaxonomy, published_only: bool, groups: Option<Set<u64>>, hits: Seq<NameHit>, flags: Seq<bool>, n: nat)
    requires
        n <= hits.len(),
        n <= flags.len(),
        forall|i: int| 0 <= i < n ==> #[trigger] flags[i] == search_keeps(tx, published_only, groups, hits[i].id),
    ensures
        crate::names::kept_hits(hits, flags, n) == kept_by_scope(tx, published_only, groups, hits, n),
    decreases n,
{
    if n > 0 {
        lemma_kept_by_scope(tx, published_only, groups, hits, flags, (n - 1) as nat);
    }
}

/// Rows a name search returns unless a call asks for another limit.
pub const DEFAULT_SEARCH_TYPES_LIMIT: u64 = 10;

/// The row limit of a name search: the one asked for (as far as a `usize`
/// holds it), else 10.
pub open spec fn search_types_limit(limit: Option<u64>) -> usize {
    match limit {
        Some(v) => if v > usize::MAX { usize::MAX } else { v as usize },
        None => DEFAULT_SEARCH_TYPES_LIMIT as usize,
    }
}

/// Searches Types by name, scoped: the taxonomy filter is resolved first (an
/// undeclared Group or Category is an error), then the Types whose names
/// contain the query, restricted to the published ones and to the filter's
/// Groups as asked, exact names first and then by ID, cut to the limit.
pub fn search_types(tx: &TypeTaxonomy, names: &NameIndex, query: &str, limit: Option<u64>, published_only: Option<bool>,
    group_ids: &Vec<u64>, category_ids: &Vec<u64>) -> (r: Result<Vec<NameHit>, TaxonomyError>)
    ensures
        match taxonomy_error(tx, group_ids@, category_ids@) {
            Some(e) => r == Err::<Vec<NameHit>, TaxonomyError>(e),
            None => r matches Ok(v) && {
                let po = match published_only { Some(b) => b, None => false };
                let kept = kept_by_scope(tx, po, group_set(tx, group_ids@, category_ids@), hits_of(names@, query@), hits_of(names@, query@).len());
                let lim = search_types_limit(limit);
                v@ == ranked(kept).take(if kept.len() < lim { kept.len() as int } else { lim as int })
            },
        },
{
    let lim: usize = match limit {
        Some(v) => if v > usize::MAX as u64 { usize::MAX } else { v as usize },
        None => 10,
    };
    let po = match published_only { Some(b) => b, None => false };
    let groups = match resolve_group_filter(tx, group_ids, category_ids) {
        Ok(g) => g,
        Err(e) => return Err(e),
    };
    let ghost gset = group_set(tx, group_ids@, category_ids@);
    proof {
        if groups is Some {
            let v = groups->0;
            assert(v@.to_set() =~= gset->0) by {
                assert forall|g: u64| #[trigger] v@.to_set().contains(g) <==> gset->0.contains(g) by {
                    assert(v@.to_set().contains(g) == v@.contains(g));
                }
            }
        }
    }
    let keep = |id: u64| -> (b: bool)
        ensures
            b == search_keeps(tx, po, as_set(&groups), id),
    {
        search_types_keep(tx, po, &groups, id)
    };
    let hits = search_by_name(names, query, lim, keep);
    proof {
        let all = hits_of(names@, query@);
        assert(as_set(&groups) == gset);
        let flags = choose|flags: Seq<bool>| #[trigger] searched(names@, query@, lim, keep, flags, hits@);
        assert(searched(names@, query@, lim, keep, flags, hits@));
        assert forall|i: int| 0 <= i < all.len() implies #[trigger] flags[i] == search_keeps(tx, po, gset, all[i].id) by {
            assert(call_ensures(keep, (all[i].id,), flags[i]));
        }
        lemma_kept_by_scope(tx, po, gset, all, flags, all.len());
    }
    Ok(hits)
}

} // verus!
