//! Text search over the dogma corpus: the names, display names and
//! descriptions of every DogmaAttribute and DogmaEffect, matched
//! case-insensitively, name hits ranked first, each list capped on its own.

use vstd::prelude::*;
use vstd::string::StringExecFns;
use std::collections::HashMap;
use crate::names::{lowercase, to_lowercase, str_contains, contains_chars, trim, trimmed};
use crate::ingest::{insert_by, list_at};
use vstd::string::StrSliceExecFns;

verus! {

broadcast use vstd::std_specs::hash::group_hash_axioms;

/// The searchable text of one DogmaAttribute or DogmaEffect, each field
/// present only when the SDE gives it non-empty English text.
pub struct DogmaText {
    pub id: u64,
    pub name: Option<String>,
    pub display_name: Option<String>,
    pub description: Option<String>,
}

/// The key a corpus is ordered by: the record's ID.
pub open spec fn text_key() -> spec_fn(DogmaText) -> u64 {
    |t: DogmaText| t.id
}

/// Files a record into a corpus kept ascending by ID (after any record with
/// the same ID).
pub fn insert_text(corpus: &mut Vec<DogmaText>, t: DogmaText)
    ensures
        final(corpus)@ == insert_by(old(corpus)@, t, text_key()),
{
    let mut i: usize = corpus.len();
    while i > 0 && corpus[i - 1].id > t.id
        invariant
            0 <= i <= corpus@.len(),
            forall|k: int| i <= k < corpus@.len() ==> (#[trigger] corpus@[k]).id > t.id,
        decreases i,
    {
        i = i - 1;
    }
    proof { lemma_insert_text_at(corpus@, t, i as int); }
    corpus.insert(i, t);
}

proof fn lemma_insert_text_at(s: Seq<DogmaText>, x: DogmaText, i: int)
    requires
        0 <= i <= s.len(),
        forall|k: int| i <= k < s.len() ==> (#[trigger] s[k]).id > x.id,
        i > 0 ==> s[i - 1].id <= x.id,
    ensures
        insert_by(s, x, text_key()) == s.insert(i, x),
    decreases s.len(),
{
    if s.len() == i {
        assert(s.push(x) =~= s.insert(i, x));
    } else {
        lemma_insert_text_at(s.drop_last(), x, i);
        assert(s.drop_last().insert(i, x).push(s.last()) =~= s.insert(i, x));
    }
}

/// A text field of a record.
#[derive(Clone, Copy, Debug, PartialEq, Eq, Structural)]
pub enum TextField {
    Name,
    DisplayName,
    Description,
}

impl TextField {
    /// The field's name as a hit reports it.
    pub fn as_str(self) -> (s: &'static str)
        ensures
            s@ == field_name(self),
    {
        match self {
            TextField::Name => "name",
            TextField::DisplayName => "display_name",
            TextField::Description => "description",
        }
    }
}

/// The name a hit reports a field under.
pub open spec fn field_name(f: TextField) -> Seq<char> {
    match f {
        TextField::Name => "name"@,
        TextField::DisplayName => "display_name"@,
        TextField::Description => "description"@,
    }
}

/// Field text `f` contains the lowercased query `q`, case-insensitively.
pub open spec fn field_matches(f: Option<String>, q: Seq<char>) -> bool {
    match f {
        Some(s) => contains_chars(lowercase(s@), q),
        None => false,
    }
}

/// The fields of `t` that contain `q`, in the order name, display name,
/// description.
pub open spec fn fields_of(t: DogmaText, q: Seq<char>) -> Seq<TextField> {
    (if field_matches(t.name, q) { seq![TextField::Name] } else { Seq::empty() })
    + (if field_matches(t.display_name, q) { seq![TextField::DisplayName] } else { Seq::empty() })
    + (if field_matches(t.description, q) { seq![TextField::Description] } else { Seq::empty() })
}

/// Of the first `n` records, the indices of those that match `q`, restricted to
/// name matches (`by_name`) or to text-only matches, in corpus order.
pub open spec fn hits_where(corpus: Seq<DogmaText>, q: Seq<char>, by_name: bool, n: nat) -> Seq<usize>
    decreases n,
{
    if n == 0 {
        Seq::empty()
    } else {
        let prev = hits_where(corpus, q, by_name, (n - 1) as nat);
        let t = corpus[n - 1];
        if fields_of(t, q).len() > 0 && field_matches(t.name, q) == by_name { prev.push((n - 1) as usize) } else { prev }
    }
}

/// The matching records of a corpus, as indices: those matching on their name
/// first, then those matching on other text only, each in corpus order.
pub open spec fn ranked_hits(corpus: Seq<DogmaText>, q: Seq<char>) -> Seq<usize> {
    hits_where(corpus, q, true, corpus.len()) + hits_where(corpus, q, false, corpus.len())
}

/// `t` has a field holding the lowercased query `q`: its name, its display name
/// or its description.
pub open spec fn text_hit(t: DogmaText, q: Seq<char>) -> bool {
    field_matches(t.name, q) || field_matches(t.display_name, q) || field_matches(t.description, q)
}

/// A hit reports each field that holds the query, and only those, in the
/// order name, display name, description, none twice.
pub proof fn lemma_fields_reported(t: DogmaText, q: Seq<char>)
    ensures
        fields_of(t, q).contains(TextField::Name) <==> field_matches(t.name, q),
        fields_of(t, q).contains(TextField::DisplayName) <==> field_matches(t.display_name, q),
        fields_of(t, q).contains(TextField::Description) <==> field_matches(t.description, q),
        fields_of(t, q).len() > 0 <==> text_hit(t, q),
        forall|a: int, b: int| 0 <= a < b < fields_of(t, q).len() ==> field_rank(#[trigger] fields_of(t, q)[a]) < field_rank(#[trigger] fields_of(t, q)[b]),
{
    let f = fields_of(t, q);
    let a = if field_matches(t.name, q) { seq![TextField::Name] } else { Seq::empty() };
    let b = if field_matches(t.display_name, q) { seq![TextField::DisplayName] } else { Seq::empty() };
    let c = if field_matches(t.description, q) { seq![TextField::Description] } else { Seq::empty() };
    assert(f == a + b + c);
    assert forall|x: TextField| f.contains(x) <==> (a.contains(x) || b.contains(x) || c.contains(x)) by {
        if f.contains(x) {
            let i = choose|i: int| 0 <= i < f.len() && f[i] == x;
            if i < a.len() { assert(a[i] == x); } else if i < a.len() + b.len() { assert(b[i - a.len()] == x); } else { assert(c[i - a.len() - b.len()] == x); }
        }
        if a.contains(x) { let i = choose|i: int| 0 <= i < a.len() && a[i] == x; assert(f[i] == x); }
        if b.contains(x) { let i = choose|i: int| 0 <= i < b.len() && b[i] == x; assert(f[a.len() + i] == x); }
        if c.contains(x) { let i = choose|i: int| 0 <= i < c.len() && c[i] == x; assert(f[a.len() + b.len() + i] == x); }
    }
    if field_matches(t.name, q) { assert(a[0] == TextField::Name); }
    if field_matches(t.display_name, q) { assert(b[0] == TextField::DisplayName); }
    if field_matches(t.description, q) { assert(c[0] == TextField::Description); }
    assert forall|i: int, j: int| 0 <= i < j < f.len() implies field_rank(#[trigger] f[i]) < field_rank(#[trigger] f[j]) by {
        let ri = if i < a.len() { 0int } else if i < a.len() + b.len() { 1int } else { 2int };
        let rj = if j < a.len() { 0int } else if j < a.len() + b.len() { 1int } else { 2int };
        if i < a.len() { assert(f[i] == a[i]); } else if i < a.len() + b.len() { assert(f[i] == b[i - a.len()]); } else { assert(f[i] == c[i - a.len() - b.len()]); }
        if j < a.len() { assert(f[j] == a[j]); } else if j < a.len() + b.len() { assert(f[j] == b[j - a.len()]); } else { assert(f[j] == c[j - a.len() - b.len()]); }
    }
}

/// Where a field stands in a hit's list.
pub open spec fn field_rank(f: TextField) -> int {
    match f {
        TextField::Name => 0,
        TextField::DisplayName => 1,
        TextField::Description => 2,
    }
}

proof fn lemma_hits_where(corpus: Seq<DogmaText>, q: Seq<char>, by_name: bool, n: nat)
    requires
        n <= corpus.len(),
        corpus.len() <= usize::MAX,
    ensures
        forall|j: int| 0 <= j < corpus.len() ==> (hits_where(corpus, q, by_name, n).contains(j as usize)
            <==> (j < n && text_hit(corpus[j], q) && field_matches(corpus[j].name, q) == by_name)),
        forall|a: int, b: int| 0 <= a < b < hits_where(corpus, q, by_name, n).len()
            ==> #[trigger] hits_where(corpus, q, by_name, n)[a] < #[trigger] hits_where(corpus, q, by_name, n)[b],
        forall|a: int| 0 <= a < hits_where(corpus, q, by_name, n).len() ==> #[trigger] hits_where(corpus, q, by_name, n)[a] < n,
    decreases n,
{
    if n > 0 {
        lemma_hits_where(corpus, q, by_name, (n - 1) as nat);
        let prev = hits_where(corpus, q, by_name, (n - 1) as nat);
        let cur = hits_where(corpus, q, by_name, n);
        let t = corpus[n - 1];
        assert(fields_of(t, q).len() > 0 <==> text_hit(t, q));
        if fields_of(t, q).len() > 0 && field_matches(t.name, q) == by_name {
            assert(cur == prev.push((n - 1) as usize));
            assert forall|j: int| 0 <= j < corpus.len() implies (cur.contains(j as usize)
                <==> (j < n && text_hit(corpus[j], q) && field_matches(corpus[j].name, q) == by_name)) by {
                if cur.contains(j as usize) {
                    let a = choose|a: int| 0 <= a < cur.len() && cur[a] == j as usize;
                    if a < prev.len() { assert(prev[a] == j as usize); assert(prev.contains(j as usize)); }
                }
                if j < n - 1 && prev.contains(j as usize) {
                    let a = choose|a: int| 0 <= a < prev.len() && prev[a] == j as usize;
                    assert(cur[a] == j as usize);
                }
                if j == n - 1 { assert(cur[prev.len() as int] == j as usize); }
            }
            assert forall|a: int, b: int| 0 <= a < b < cur.len() implies #[trigger] cur[a] < #[trigger] cur[b] by {
                if b < prev.len() { assert(cur[a] == prev[a] && cur[b] == prev[b]); } else { assert(cur[a] == prev[a]); }
            }
            assert forall|a: int| 0 <= a < cur.len() implies #[trigger] cur[a] < n by {
                if a < prev.len() { assert(cur[a] == prev[a]); }
            }
        } else {
            assert forall|j: int| 0 <= j < corpus.len() implies (cur.contains(j as usize)
                <==> (j < n && text_hit(corpus[j], q) && field_matches(corpus[j].name, q) == by_name)) by {
                if j == n - 1 && prev.contains(j as usize) {
                    let a = choose|a: int| 0 <= a < prev.len() && prev[a] == j as usize;
                    assert(prev[a] < n - 1);
                }
            }
        }
    }
}

/// A dogma record is a hit exactly when the query occurs in its name, its
/// display name or its description; records matching on their name come
/// first, then the others, each in corpus order, and none twice.
pub proof fn lemma_ranked_hits(corpus: Seq<DogmaText>, q: Seq<char>)
    requires
        corpus.len() <= usize::MAX,
    ensures
        forall|j: int| 0 <= j < corpus.len() ==> (ranked_hits(corpus, q).contains(j as usize) <==> #[trigger] text_hit(corpus[j], q)),
        forall|a: int, b: int| 0 <= a < b < ranked_hits(corpus, q).len()
            ==> #[trigger] ranked_hits(corpus, q)[a] != #[trigger] ranked_hits(corpus, q)[b],
        forall|a: int, b: int| 0 <= a < b < ranked_hits(corpus, q).len()
            && field_matches(corpus[#[trigger] ranked_hits(corpus, q)[b] as int].name, q)
            ==> field_matches(corpus[#[trigger] ranked_hits(corpus, q)[a] as int].name, q) && ranked_hits(corpus, q)[a] < ranked_hits(corpus, q)[b],
{
    let n = corpus.len();
    lemma_hits_where(corpus, q, true, n);
    lemma_hits_where(corpus, q, false, n);
    let h1 = hits_where(corpus, q, true, n);
    let h2 = hits_where(corpus, q, false, n);
    let r = ranked_hits(corpus, q);
    assert(r == h1 + h2);
    assert forall|j: int| 0 <= j < corpus.len() implies (r.contains(j as usize) <==> #[trigger] text_hit(corpus[j], q)) by {
        if r.contains(j as usize) {
            let a = choose|a: int| 0 <= a < r.len() && r[a] == j as usize;
            if a < h1.len() { assert(h1[a] == j as usize); assert(h1.contains(j as usize)); }
            else { assert(h2[a - h1.len()] == j as usize); assert(h2.contains(j as usize)); }
        }
        if text_hit(corpus[j], q) {
            if field_matches(corpus[j].name, q) {
                assert(h1.contains(j as usize));
                let a = choose|a: int| 0 <= a < h1.len() && h1[a] == j as usize;
                assert(r[a] == j as usize);
            } else {
                assert(h2.contains(j as usize));
                let a = choose|a: int| 0 <= a < h2.len() && h2[a] == j as usize;
                assert(r[h1.len() + a] == j as usize);
            }
        }
    }
    assert forall|a: int| 0 <= a < h1.len() implies field_matches(corpus[#[trigger] h1[a] as int].name, q) by {
        assert(h1.contains(h1[a]));
        assert(h1[a] < n);
    }
    assert forall|a: int| 0 <= a < h2.len() implies !field_matches(corpus[#[trigger] h2[a] as int].name, q) by {
        assert(h2.contains(h2[a]));
        assert(h2[a] < n);
    }
    assert forall|a: int, b: int| 0 <= a < b < r.len() implies #[trigger] r[a] != #[trigger] r[b] by {
        if b < h1.len() {
            assert(r[a] == h1[a] && r[b] == h1[b]);
        } else if a >= h1.len() {
            assert(r[a] == h2[a - h1.len()] && r[b] == h2[b - h1.len()]);
        } else {
            assert(r[a] == h1[a] && r[b] == h2[b - h1.len()]);
        }
    }
    assert forall|a: int, b: int| 0 <= a < b < r.len() && field_matches(corpus[#[trigger] r[b] as int].name, q)
        implies field_matches(corpus[#[trigger] r[a] as int].name, q) && r[a] < r[b] by {
        if b < h1.len() {
            assert(r[a] == h1[a] && r[b] == h1[b]);
        } else {
            assert(r[b] == h2[b - h1.len()]);
        }
    }
}

/// One record matched: its index in the corpus and the fields it matched on.
pub struct TextHit {
    pub record: usize,
    pub fields: Vec<TextField>,
}

fn field_matches_exec(f: &Option<String>, q: &str) -> (b: bool)
    ensures
        b == field_matches(*f, q@),
{
    match f {
        Some(s) => {
            let l = to_lowercase(s.as_str());
            str_contains(l.as_str(), q)
        },
        None => false,
    }
}

fn fields_exec(t: &DogmaText, q: &str) -> (r: Vec<TextField>)
    ensures
        r@ == fields_of(*t, q@),
{
    let mut out: Vec<TextField> = Vec::new();
    let a = field_matches_exec(&t.name, q);
    if a {
        out.push(TextField::Name);
    }
    let b = field_matches_exec(&t.display_name, q);
    if b {
        out.push(TextField::DisplayName);
    }
    let c = field_matches_exec(&t.description, q);
    if c {
        out.push(TextField::Description);
    }
    assert(out@ =~= fields_of(*t, q@));
    out
}

/// The records of `corpus` with a field containing the lowercased query `q`:
/// name matches first, then text-only matches, each in corpus order, with the
/// fields each matched on.
pub fn matching_records(corpus: &Vec<DogmaText>, q: &str) -> (r: Vec<TextHit>)
    ensures
        r@.map_values(|h: TextHit| h.record) == ranked_hits(corpus@, q@),
        forall|k: int| 0 <= k < r@.len() ==> (#[trigger] r@[k]).record < corpus@.len()
            && r@[k].fields@ == fields_of(corpus@[r@[k].record as int], q@),
{
    let mut first: Vec<TextHit> = Vec::new();
    let mut second: Vec<TextHit> = Vec::new();
    let mut i: usize = 0;
    while i < corpus.len()
        invariant
            0 <= i <= corpus@.len(),
            first@.map_values(|h: TextHit| h.record) == hits_where(corpus@, q@, true, i as nat),
            second@.map_values(|h: TextHit| h.record) == hits_where(corpus@, q@, false, i as nat),
            forall|k: int| 0 <= k < first@.len() ==> (#[trigger] first@[k]).record < i
                && first@[k].fields@ == fields_of(corpus@[first@[k].record as int], q@),
            forall|k: int| 0 <= k < second@.len() ==> (#[trigger] second@[k]).record < i
                && second@[k].fields@ == fields_of(corpus@[second@[k].record as int], q@),
        decreases corpus@.len() - i,
    {
        let fields = fields_exec(&corpus[i], q);
        if fields.len() > 0 {
            let by_name = field_matches_exec(&corpus[i].name, q);
            let ghost f0 = first@;
            let ghost s0 = second@;
            if by_name {
                first.push(TextHit { record: i, fields });
                assert(first@.map_values(|h: TextHit| h.record) =~= f0.map_values(|h: TextHit| h.record).push(i));
            } else {
                second.push(TextHit { record: i, fields });
                assert(second@.map_values(|h: TextHit| h.record) =~= s0.map_values(|h: TextHit| h.record).push(i));
            }
        }
        i = i + 1;
    }
    let ghost f1 = first@;
    let ghost s1 = second@;
    first.append(&mut second);
    assert(first@.map_values(|h: TextHit| h.record) =~= f1.map_values(|h: TextHit| h.record) + s1.map_values(|h: TextHit| h.record));
    assert forall|k: int| 0 <= k < first@.len() implies (#[trigger] first@[k]).record < corpus@.len()
        && first@[k].fields@ == fields_of(corpus@[first@[k].record as int], q@) by {
        if k < f1.len() { assert(first@[k] == f1[k]); } else { assert(first@[k] == s1[k - f1.len()]); }
    }
    first
}

/// Hits per list unless a call asks for another limit.
pub const DEFAULT_SEARCH_DOGMA_LIMIT: u64 = 25;
/// The most hits per list a call can ask for.
pub const MAX_SEARCH_DOGMA_LIMIT: u64 = 200;

/// The per-list cap of a call: the limit asked (25 by default), at most 200.
pub open spec fn search_limit(limit: Option<u64>) -> int {
    match limit {
        Some(v) => if v > MAX_SEARCH_DOGMA_LIMIT { MAX_SEARCH_DOGMA_LIMIT as int } else { v as int },
        None => DEFAULT_SEARCH_DOGMA_LIMIT as int,
    }
}

/// The answer to a blank query.
pub open spec fn empty_query_message() -> Seq<char> {
    "sde_search_dogma needs a non-empty query; an empty substring matches every DogmaAttribute and DogmaEffect"@
}

/// A dogma search: the capped hit lists of both halves of the corpus, how many
/// each half matched in all, whether either list was cut, and how many Types
/// record an ExplicitValue for each attribute hit.
pub struct DogmaSearch {
    pub attributes: Vec<TextHit>,
    pub effects: Vec<TextHit>,
    pub attributes_matched: usize,
    pub effects_matched: usize,
    pub truncated: bool,
    pub explicit_type_counts: Vec<usize>,
}

/// `hits` cut to `limit`.
pub open spec fn capped(hits: Seq<usize>, limit: int) -> Seq<usize> {
    if hits.len() <= limit { hits } else { hits.take(limit) }
}

/// Searches the attribute and effect corpora for `query`: trimmed, it must not
/// be blank; each corpus yields its matching records (name matches first, then
/// text-only ones, each in ID order), cut to the call's limit, with the full
/// match counts and whether anything was cut. Each attribute hit carries the
/// number of Types recording an ExplicitValue for it.
pub fn search_dogma(attributes: &Vec<DogmaText>, effects: &Vec<DogmaText>, attribute_types: &HashMap<u64, Vec<(u64, u32)>>,
    query: &str, limit: Option<u64>) -> (r: Result<DogmaSearch, String>)
    ensures
        trimmed(query@).len() == 0 <==> r is Err,
        r matches Err(e) ==> e@ == empty_query_message(),
        r matches Ok(s) ==> {
            let q = lowercase(trimmed(query@));
            let ah = ranked_hits(attributes@, q);
            let eh = ranked_hits(effects@, q);
            &&& s.attributes_matched == ah.len()
            &&& s.effects_matched == eh.len()
            &&& s.attributes@.map_values(|h: TextHit| h.record) == capped(ah, search_limit(limit))
            &&& s.effects@.map_values(|h: TextHit| h.record) == capped(eh, search_limit(limit))
            &&& forall|k: int| 0 <= k < s.attributes@.len() ==> (#[trigger] s.attributes@[k]).record < attributes@.len()
                    && s.attributes@[k].fields@ == fields_of(attributes@[s.attributes@[k].record as int], q)
            &&& forall|k: int| 0 <= k < s.effects@.len() ==> (#[trigger] s.effects@[k]).record < effects@.len()
                    && s.effects@[k].fields@ == fields_of(effects@[s.effects@[k].record as int], q)
            &&& s.truncated == (ah.len() > search_limit(limit) || eh.len() > search_limit(limit))
            &&& s.explicit_type_counts@.len() == s.attributes@.len()
            &&& forall|k: int| 0 <= k < s.explicit_type_counts@.len() ==> #[trigger] s.explicit_type_counts@[k]
                    == list_at(attribute_types@, attributes@[s.attributes@[k].record as int].id).len()
        },
{
    let t = trim(query);
    if t.unicode_len() == 0 {
        let msg = String::from_str("sde_search_dogma needs a non-empty query; an empty substring matches every DogmaAttribute and DogmaEffect");
        return Err(msg);
    }
    let l: u64 = match limit {
        Some(v) => if v > MAX_SEARCH_DOGMA_LIMIT { MAX_SEARCH_DOGMA_LIMIT } else { v },
        None => DEFAULT_SEARCH_DOGMA_LIMIT,
    };
    let lu = l as usize;
    let q = to_lowercase(t);
    let mut a = matching_records(attributes, q.as_str());
    let mut e = matching_records(effects, q.as_str());
    let am = a.len();
    let em = e.len();
    let ghost a0 = a@;
    let ghost e0 = e@;
    proof {
        assert(a0.map_values(|h: TextHit| h.record).len() == a0.len());
        assert(e0.map_values(|h: TextHit| h.record).len() == e0.len());
    }
    a.truncate(lu);
    e.truncate(lu);
    proof {
        let ah = a0.map_values(|h: TextHit| h.record);
        let eh = e0.map_values(|h: TextHit| h.record);
        assert(a@.map_values(|h: TextHit| h.record) =~= capped(ah, search_limit(limit)));
        assert(e@.map_values(|h: TextHit| h.record) =~= capped(eh, search_limit(limit)));
        assert forall|k: int| 0 <= k < a@.len() implies (#[trigger] a@[k]).record < attributes@.len()
            && a@[k].fields@ == fields_of(attributes@[a@[k].record as int], q@) by {
            assert(a@[k] == a0[k]);
        }
        assert forall|k: int| 0 <= k < e@.len() implies (#[trigger] e@[k]).record < effects@.len()
            && e@[k].fields@ == fields_of(effects@[e@[k].record as int], q@) by {
            assert(e@[k] == e0[k]);
        }
    }
    let mut counts: Vec<usize> = Vec::new();
    let mut k: usize = 0;
    while k < a.len()
        invariant
            0 <= k <= a@.len(),
            counts@.len() == k,
            forall|j: int| 0 <= j < a@.len() ==> (#[trigger] a@[j]).record < attributes@.len(),
            forall|j: int| 0 <= j < k ==> #[trigger] counts@[j] == list_at(attribute_types@, attributes@[a@[j].record as int].id).len(),
        decreases a@.len() - k,
    {
        let id = attributes[a[k].record].id;
        let c: usize = match attribute_types.get(&id) {
            Some(rows) => rows.len(),
            None => 0,
        };
        counts.push(c);
        k = k + 1;
    }
    let truncated = am > a.len() || em > e.len();
    Ok(DogmaSearch {
        attributes: a,
        effects: e,
        attributes_matched: am,
        effects_matched: em,
        truncated,
        explicit_type_counts: counts,
    })
}

} // verus!
