//! The name index of an SDE file and the searches over it: case-insensitive
//! substring matching, exact names ranked ahead of merely containing ones,
//! ties by ID, the page cut after every filter.

use vstd::prelude::*;
use vstd::relations::{sorted_by, total_ordering};
use vstd::string::StrSliceExecFns;
use std::collections::HashSet;

verus! {

broadcast use {vstd::seq_lib::group_to_multiset_ensures, vstd::multiset::group_multiset_axioms,
    vstd::std_specs::hash::group_hash_axioms};

/// What `str::to_lowercase` makes of `s`: each character's Unicode lowercase
/// mapping, in order.
pub uninterp spec fn lowercase(s: Seq<char>) -> Seq<char>;

/// `str::to_lowercase`. Its result is a function of the text alone; the
/// contract names it and claims nothing further.
#[verifier::external_body]
pub(crate) fn to_lowercase(s: &str) -> (r: String)
    ensures
        r@ == lowercase(s@),
{
    s.to_lowercase()
}

/// `needle` occurs in `hay` starting at character `i`.
pub open spec fn chars_at(hay: Seq<char>, needle: Seq<char>, i: int) -> bool {
    0 <= i && i + needle.len() <= hay.len() && hay.subrange(i, i + needle.len()) == needle
}

/// `needle` occurs somewhere in `hay` (the empty needle occurs everywhere).
pub open spec fn contains_chars(hay: Seq<char>, needle: Seq<char>) -> bool {
    exists|i: int| #[trigger] chars_at(hay, needle, i)
}

fn matches_at(hay: &str, needle: &str, i: usize) -> (b: bool)
    requires
        i + needle@.len() <= hay@.len(),
    ensures
        b == chars_at(hay@, needle@, i as int),
{
    let _h = hay.unicode_len();
    let n = needle.unicode_len();
    let mut k: usize = 0;
    while k < n
        invariant
            n == needle@.len(),
            _h == hay@.len(),
            i + n <= hay@.len(),
            0 <= k <= n,
            forall|j: int| 0 <= j < k ==> hay@[i + j] == needle@[j],
        decreases n - k,
    {
        if hay.get_char(i + k) != needle.get_char(k) {
            assert(hay@.subrange(i as int, i + n)[k as int] != needle@[k as int]);
            return false;
        }
        k = k + 1;
    }
    assert(hay@.subrange(i as int, i + n) =~= needle@);
    true
}

/// Whether `needle` occurs in `hay`, character for character.
pub fn str_contains(hay: &str, needle: &str) -> (b: bool)
    ensures
        b == contains_chars(hay@, needle@),
{
    let h = hay.unicode_len();
    let n = needle.unicode_len();
    if n > h {
        assert forall|i: int| !#[trigger] chars_at(hay@, needle@, i) by {}
        return false;
    }
    if n == 0 {
        assert(hay@.subrange(0, 0) =~= needle@);
        assert(chars_at(hay@, needle@, 0));
        return true;
    }
    let mut i: usize = 0;
    while i <= h - n
        invariant
            h == hay@.len(),
            n == needle@.len(),
            1 <= n <= h,
            0 <= i <= h - n + 1,
            forall|j: int| 0 <= j < i ==> !#[trigger] chars_at(hay@, needle@, j),
        decreases h - i,
    {
        if matches_at(hay, needle, i) {
            return true;
        }
        i = i + 1;
    }
    assert forall|j: int| !#[trigger] chars_at(hay@, needle@, j) by {
        if 0 <= j < i {
        }
    }
    false
}

/// One entry of a name index: a record's lowercased English name and its `_key`.
pub struct NameEntry {
    pub name: String,
    pub id: u64,
}

/// The English names of a file's records, lowercased, in the order indexed.
pub struct NameIndex {
    pub entries: Vec<NameEntry>,
}

impl View for NameIndex {
    type V = Seq<(Seq<char>, u64)>;

    open spec fn view(&self) -> Seq<(Seq<char>, u64)> {
        self.entries@.map_values(|e: NameEntry| (e.name@, e.id))
    }
}

impl NameIndex {
    /// An index with no names.
    pub fn new() -> (r: NameIndex)
        ensures
            r@ == Seq::<(Seq<char>, u64)>::empty(),
    {
        let r = NameIndex { entries: Vec::new() };
        assert(r@ =~= Seq::<(Seq<char>, u64)>::empty());
        r
    }

    /// Records that `id` is named `name`; the name is stored lowercased.
    pub fn insert(&mut self, name: &str, id: u64)
        ensures
            final(self)@ == old(self)@.push((lowercase(name@), id)),
    {
        let lower = to_lowercase(name);
        let ghost before = self@;
        self.entries.push(NameEntry { name: lower, id });
        assert(self@ =~= before.push((lowercase(name@), id)));
    }
}

/// A record whose name contains a query, and whether the name is exactly it.
#[derive(Clone, Copy, Debug, PartialEq, Eq, Structural)]
pub struct NameHit {
    pub id: u64,
    pub exact: bool,
}

/// The hits of the first `n` entries for the lowercased query `q`, in index
/// order.
pub open spec fn hits_upto(entries: Seq<(Seq<char>, u64)>, q: Seq<char>, n: nat) -> Seq<NameHit>
    decreases n,
{
    if n == 0 {
        Seq::empty()
    } else {
        let e = entries[n - 1];
        let rest = hits_upto(entries, q, (n - 1) as nat);
        if contains_chars(e.0, q) { rest.push(NameHit { id: e.1, exact: e.0 == q }) } else { rest }
    }
}

/// The hits of a query: every entry whose name contains the lowercased query.
pub open spec fn hits_of(entries: Seq<(Seq<char>, u64)>, query: Seq<char>) -> Seq<NameHit> {
    hits_upto(entries, lowercase(query), entries.len())
}

impl NameIndex {
    /// Every record whose name contains `query`, case-insensitively, flagged
    /// when the name is exactly the query; in index order.
    pub fn ids_containing(&self, query: &str) -> (r: Vec<NameHit>)
        ensures
            r@ == hits_of(self@, query@),
    {
        let q = to_lowercase(query);
        let mut out: Vec<NameHit> = Vec::new();
        let mut i: usize = 0;
        while i < self.entries.len()
            invariant
                0 <= i <= self.entries@.len(),
                q@ == lowercase(query@),
                out@ == hits_upto(self@, q@, i as nat),
            decreases self.entries@.len() - i,
        {
            let e = &self.entries[i];
            assert(self@[i as int] == (e.name@, e.id));
            if str_contains(e.name.as_str(), q.as_str()) {
                let exact = str_eq(e.name.as_str(), q.as_str());
                out.push(NameHit { id: e.id, exact });
            }
            i = i + 1;
        }
        out
    }
}

/// Whether two strings hold the same characters.
pub fn str_eq(a: &str, b: &str) -> (r: bool)
    ensures
        r == (a@ == b@),
{
    let n = a.unicode_len();
    if n != b.unicode_len() {
        return false;
    }
    let mut k: usize = 0;
    while k < n
        invariant
            n == a@.len(),
            n == b@.len(),
            0 <= k <= n,
            forall|j: int| 0 <= j < k ==> a@[j] == b@[j],
        decreases n - k,
    {
        if a.get_char(k) != b.get_char(k) {
            return false;
        }
        k = k + 1;
    }
    assert(a@ =~= b@);
    true
}

/// `a` ranks no later than `b`: exact names first, then ascending ID.
pub open spec fn hit_leq(a: NameHit, b: NameHit) -> bool {
    (a.exact && !b.exact) || (a.exact == b.exact && a.id <= b.id)
}

/// The ranking order of name hits.
pub open spec fn hit_order() -> spec_fn(NameHit, NameHit) -> bool {
    |a: NameHit, b: NameHit| hit_leq(a, b)
}

/// `hits` put in rank order.
pub open spec fn ranked(hits: Seq<NameHit>) -> Seq<NameHit> {
    hits.sort_by(hit_order())
}

/// The hits whose flag is set, in order.
pub open spec fn kept_hits(hits: Seq<NameHit>, flags: Seq<bool>, n: nat) -> Seq<NameHit>
    decreases n,
{
    if n == 0 {
        Seq::empty()
    } else if flags[n - 1] {
        kept_hits(hits, flags, (n - 1) as nat).push(hits[n - 1])
    } else {
        kept_hits(hits, flags, (n - 1) as nat)
    }
}

proof fn lemma_hit_order_total()
    ensures
        total_ordering(hit_order()),
{
    let o = hit_order();
    assert forall|a: NameHit| #[trigger] o(a, a) by {}
    assert forall|a: NameHit, b: NameHit| #[trigger] o(a, b) && #[trigger] o(b, a) implies a == b by {}
    assert forall|a: NameHit, b: NameHit, c: NameHit| #[trigger] o(a, b) && #[trigger] o(b, c) implies o(a, c) by {}
    assert forall|a: NameHit, b: NameHit| #[trigger] o(a, b) || #[trigger] o(b, a) by {}
}

fn hit_before(a: NameHit, b: NameHit) -> (r: bool)
    ensures
        r == (hit_leq(a, b) && a != b),
{
    (a.exact && !b.exact) || (a.exact == b.exact && a.id < b.id)
}

proof fn lemma_insert_multiset(s: Seq<NameHit>, pos: int, x: NameHit)
    requires
        0 <= pos <= s.len(),
    ensures
        s.insert(pos, x).to_multiset() =~= s.to_multiset().insert(x),
{
    let t = s.insert(pos, x);
    assert(t.remove(pos) =~= s);
    assert(t[pos] == x);
    assert(t.to_multiset().count(x) > 0) by {
        assert(t.contains(x));
    }
}

/// The outcome of a name search: `flags` holds what `keep` answered for each
/// hit, and `r` is the first `limit` of the admitted hits in rank order.
pub open spec fn searched<F: Fn(u64) -> bool>(entries: Seq<(Seq<char>, u64)>, query: Seq<char>, limit: usize, keep: F, flags: Seq<bool>, r: Seq<NameHit>) -> bool {
    let hits = hits_of(entries, query);
    let kept = kept_hits(hits, flags, hits.len());
    &&& flags.len() == hits.len()
    &&& forall|i: int| 0 <= i < hits.len() ==> call_ensures(keep, (hits[i].id,), #[trigger] flags[i])
    &&& r == ranked(kept).take(if kept.len() < limit { kept.len() as int } else { limit as int })
}

/// The records whose name contains `query`, as `(id, exact)` hits: those
/// `keep` admits, exact names first and then the rest, each part ascending by
/// ID, cut to `limit`. `keep` sees the whole match set before the cut.
pub fn search_by_name<F: Fn(u64) -> bool>(index: &NameIndex, query: &str, limit: usize, keep: F) -> (r: Vec<NameHit>)
    requires
        forall|x: u64| call_requires(keep, (x,)),
    ensures
        exists|flags: Seq<bool>| #[trigger] searched(index@, query@, limit, keep, flags, r@),
{
    let hits = index.ids_containing(query);
    let ghost mut flags: Seq<bool> = Seq::empty();
    let mut out: Vec<NameHit> = Vec::new();
    let mut i: usize = 0;
    proof { lemma_hit_order_total(); }
    while i < hits.len()
        invariant
            0 <= i <= hits@.len(),
            hits@ == hits_of(index@, query@),
            forall|x: u64| call_requires(keep, (x,)),
            flags.len() == i,
            forall|k: int| 0 <= k < i ==> call_ensures(keep, (hits@[k].id,), #[trigger] flags[k]),
            sorted_by(out@, hit_order()),
            out@.to_multiset() == kept_hits(hits@, flags, i as nat).to_multiset(),
        decreases hits@.len() - i,
    {
        let h = hits[i];
        let b = keep(h.id);
        let ghost f0 = flags;
        proof { flags = flags.push(b); }
        assert(kept_hits(hits@, f0, i as nat) =~= kept_hits(hits@, flags, i as nat)) by {
            lemma_kept_prefix(hits@, f0, flags, i as nat);
        }
        if b {
            let mut pos: usize = out.len();
            while pos > 0 && hit_before(h, out[pos - 1])
                invariant
                    0 <= pos <= out@.len(),
                    forall|k: int| pos <= k < out@.len() ==> hit_leq(h, #[trigger] out@[k]) && h != out@[k],
                decreases pos,
            {
                pos = pos - 1;
            }
            let ghost before = out@;
            out.insert(pos, h);
            proof {
                lemma_insert_multiset(before, pos as int, h);
                let o = hit_order();
                assert forall|a: int, c: int| 0 <= a < c < out@.len() implies #[trigger] o(out@[a], out@[c]) by {
                    let p = pos as int;
                    if c < p {
                        assert(out@[a] == before[a] && out@[c] == before[c]);
                    } else if c == p {
                        assert(out@[a] == before[a]);
                        assert(hit_leq(before[p - 1], h));
                        if a < p - 1 { assert(o(before[a], before[p - 1])); }
                    } else if a < p {
                        assert(out@[a] == before[a] && out@[c] == before[c - 1]);
                        if a < c - 1 { assert(o(before[a], before[c - 1])); }
                    } else if a == p {
                        assert(out@[c] == before[c - 1]);
                    } else {
                        assert(out@[a] == before[a - 1] && out@[c] == before[c - 1]);
                    }
                }
            }
        }
        i = i + 1;
    }
    let ghost kept = kept_hits(hits@, flags, hits@.len());
    proof {
        lemma_hit_order_total();
        kept.lemma_sort_by_ensures(hit_order());
        vstd::seq_lib::lemma_sorted_unique(out@, ranked(kept), hit_order());
        assert(ranked(kept).to_multiset().len() == kept.to_multiset().len());
        assert(out@.len() == kept.len());
    }
    out.truncate(limit);
    proof {
        assert(out@ =~= ranked(kept).take(if kept.len() < limit { kept.len() as int } else { limit as int }));
        assert(searched(index@, query@, limit, keep, flags, out@));
    }
    out
}

proof fn lemma_kept_prefix(hits: Seq<NameHit>, a: Seq<bool>, b: Seq<bool>, n: nat)
    requires
        n <= a.len(),
        n <= b.len(),
        forall|k: int| 0 <= k < n ==> a[k] == b[k],
    ensures
        kept_hits(hits, a, n) == kept_hits(hits, b, n),
    decreases n,
{
    if n > 0 {
        lemma_kept_prefix(hits, a, b, (n - 1) as nat);
    }
}


/// A character with the Unicode `White_Space` property, which `char::is_whitespace`
/// and `str::trim` go by.
pub open spec fn is_unicode_ws(c: char) -> bool {
    let u = c as u32;
    (9 <= u <= 13) || u == 32 || u == 0x85 || u == 0xA0 || u == 0x1680
        || (0x2000 <= u <= 0x200A) || u == 0x2028 || u == 0x2029 || u == 0x202F
        || u == 0x205F || u == 0x3000
}

/// Where `s` starts once leading whitespace is dropped.
pub open spec fn trim_from(s: Seq<char>, i: int) -> int
    decreases s.len() - i,
{
    if i < s.len() && is_unicode_ws(s[i]) { trim_from(s, i + 1) } else { i }
}

/// Where `s[..j]` ends once trailing whitespace is dropped, not before `lo`.
pub open spec fn trim_to(s: Seq<char>, lo: int, j: int) -> int
    decreases j - lo,
{
    if j > lo && is_unicode_ws(s[j - 1]) { trim_to(s, lo, j - 1) } else { j }
}

/// `str::trim`: `s` without leading and trailing whitespace.
pub open spec fn trimmed(s: Seq<char>) -> Seq<char> {
    let a = trim_from(s, 0);
    s.subrange(a, trim_to(s, a, s.len() as int))
}

fn is_ws_char(c: char) -> (b: bool)
    ensures
        b == is_unicode_ws(c),
{
    let u = c as u32;
    (9 <= u && u <= 13) || u == 32 || u == 0x85 || u == 0xA0 || u == 0x1680
        || (0x2000 <= u && u <= 0x200A) || u == 0x2028 || u == 0x2029 || u == 0x202F
        || u == 0x205F || u == 0x3000
}

/// `s` with leading and trailing Unicode whitespace removed.
pub fn trim(s: &str) -> (r: &str)
    ensures
        r@ == trimmed(s@),
{
    let n = s.unicode_len();
    let mut a: usize = 0;
    while a < n && is_ws_char(s.get_char(a))
        invariant
            n == s@.len(),
            0 <= a <= n,
            trim_from(s@, 0) == trim_from(s@, a as int),
        decreases n - a,
    {
        a = a + 1;
    }
    let mut b: usize = n;
    while b > a && is_ws_char(s.get_char(b - 1))
        invariant
            n == s@.len(),
            a <= b <= n,
            trim_to(s@, a as int, n as int) == trim_to(s@, a as int, b as int),
        decreases b,
    {
        b = b - 1;
    }
    s.substring_char(a, b)
}

/// The IDs a name query resolves to, as a filter: `None` for an absent or
/// blank query, else every record whose name contains the trimmed query,
/// case-insensitively, in index order.
pub fn resolve_query_filter(index: &NameIndex, query: Option<&str>) -> (r: Option<Vec<u64>>)
    ensures
        match query {
            None => r is None,
            Some(q) => if trimmed(q@).len() == 0 {
                r is None
            } else {
                r matches Some(v) && v@ == hits_of(index@, trimmed(q@)).map_values(|h: NameHit| h.id)
            },
        },
{
    let q = match query {
        None => return None,
        Some(q) => trim(q),
    };
    if q.unicode_len() == 0 {
        return None;
    }
    let hits = index.ids_containing(q);
    let mut out: Vec<u64> = Vec::new();
    let mut i: usize = 0;
    while i < hits.len()
        invariant
            0 <= i <= hits@.len(),
            out@ == hits@.take(i as int).map_values(|h: NameHit| h.id),
        decreases hits@.len() - i,
    {
        out.push(hits[i].id);
        assert(hits@.take(i + 1).map_values(|h: NameHit| h.id) =~= hits@.take(i as int).map_values(|h: NameHit| h.id).push(hits@[i as int].id));
        i = i + 1;
    }
    assert(hits@.take(hits@.len() as int) =~= hits@);
    Some(out)
}


// ── Exact-name resolution ────────────────────────────────────────────────────

/// Entry `e` is named exactly `l` and, when `only_published`, is a published
/// Type that a `u32` can hold.
pub open spec fn name_candidate(e: (Seq<char>, u64), l: Seq<char>, published: Set<u64>, only_published: bool) -> bool {
    e.0 == l && (!only_published || (published.contains(e.1) && e.1 <= u32::MAX))
}

/// The lowest ID among the candidates of the first `n` entries.
pub open spec fn min_candidate(entries: Seq<(Seq<char>, u64)>, l: Seq<char>, published: Set<u64>, only_published: bool, n: nat) -> Option<u64>
    decreases n,
{
    if n == 0 {
        None
    } else {
        let prev = min_candidate(entries, l, published, only_published, (n - 1) as nat);
        let e = entries[n - 1];
        if name_candidate(e, l, published, only_published) {
            match prev {
                Some(p) => if e.1 < p { Some(e.1) } else { Some(p) },
                None => Some(e.1),
            }
        } else {
            prev
        }
    }
}

/// The one Type an exact name resolves to: the lowest published ID carrying
/// the name (case-insensitively), else the lowest of all that carry it.
pub open spec fn resolved_name(entries: Seq<(Seq<char>, u64)>, published: Set<u64>, name: Seq<char>) -> Option<u64> {
    let l = lowercase(name);
    match min_candidate(entries, l, published, true, entries.len()) {
        Some(x) => Some(x),
        None => min_candidate(entries, l, published, false, entries.len()),
    }
}

/// The candidate minimum is a candidate, and no candidate is lower; there is
/// none exactly when no entry is a candidate.
pub proof fn lemma_min_candidate(entries: Seq<(Seq<char>, u64)>, l: Seq<char>, published: Set<u64>, only_published: bool, n: nat)
    requires
        n <= entries.len(),
    ensures
        match min_candidate(entries, l, published, only_published, n) {
            Some(x) => (exists|i: int| 0 <= i < n && #[trigger] entries[i] == (l, x) && name_candidate(entries[i], l, published, only_published))
                && forall|i: int| 0 <= i < n && #[trigger] name_candidate(entries[i], l, published, only_published) ==> x <= entries[i].1,
            None => forall|i: int| 0 <= i < n ==> !#[trigger] name_candidate(entries[i], l, published, only_published),
        },
    decreases n,
{
    if n > 0 {
        lemma_min_candidate(entries, l, published, only_published, (n - 1) as nat);
        let e = entries[n - 1];
        if name_candidate(e, l, published, only_published) {
            assert(entries[n - 1] == (l, e.1));
        }
    }
}

/// Resolves an exact name, case-insensitively, to one Type: the lowest
/// published ID carrying it, else the lowest ID carrying it, else none.
pub fn resolve_name(index: &NameIndex, published: &HashSet<u64>, name: &str) -> (r: Option<u64>)
    ensures
        r == resolved_name(index@, published@, name@),
{
    let l = to_lowercase(name);
    let mut best_pub: Option<u64> = None;
    let mut best_any: Option<u64> = None;
    let mut i: usize = 0;
    while i < index.entries.len()
        invariant
            0 <= i <= index.entries@.len(),
            l@ == lowercase(name@),
            best_pub == min_candidate(index@, l@, published@, true, i as nat),
            best_any == min_candidate(index@, l@, published@, false, i as nat),
        decreases index.entries@.len() - i,
    {
        let e = &index.entries[i];
        assert(index@[i as int] == (e.name@, e.id));
        if str_eq(e.name.as_str(), l.as_str()) {
            let id = e.id;
            best_any = match best_any {
                Some(p) => if id < p { Some(id) } else { Some(p) },
                None => Some(id),
            };
            if id <= 0xffff_ffff && published.contains(&id) {
                best_pub = match best_pub {
                    Some(p) => if id < p { Some(id) } else { Some(p) },
                    None => Some(id),
                };
            }
        }
        i = i + 1;
    }
    match best_pub {
        Some(x) => Some(x),
        None => best_any,
    }
}

/// A resolve request that names neither IDs nor names is refused.
pub open spec fn resolve_request_refusal() -> Seq<char> {
    "Provide type_ids and/or names"@
}

/// The name half of a resolve request: refused when the request holds neither
/// `type_ids` nor `names`; otherwise, for each name in order, the Type it
/// resolves to as [`resolve_name`] does.
pub fn resolve_names(index: &NameIndex, published: &HashSet<u64>, p: &crate::params::ResolveTypesParam) -> (r: Result<Vec<Option<u64>>, String>)
    ensures
        r is Err <==> (p.type_ids is None && p.names is None),
        r matches Err(m) ==> m@ == resolve_request_refusal(),
        r matches Ok(v) ==> match p.names {
            Some(ns) => v@.len() == ns@.len()
                && forall|i: int| 0 <= i < ns@.len() ==> #[trigger] v@[i] == resolved_name(index@, published@, ns@[i]@),
            None => v@.len() == 0,
        },
{
    if p.type_ids.is_none() && p.names.is_none() {
        let mut m = String::new();
        crate::text::push_str(&mut m, "Provide type_ids and/or names");
        return Err(m);
    }
    let mut out: Vec<Option<u64>> = Vec::new();
    match &p.names {
        Some(ns) => {
            let mut i: usize = 0;
            while i < ns.len()
                invariant
                    0 <= i <= ns@.len(),
                    out@.len() == i,
                    forall|j: int| 0 <= j < i ==> #[trigger] out@[j] == resolved_name(index@, published@, ns@[j]@),
                decreases ns@.len() - i,
            {
                out.push(resolve_name(index, published, ns[i].as_str()));
                i = i + 1;
            }
        },
        None => {},
    }
    Ok(out)
}

} // verus!
