//! What one pass over an SDE file builds, line by line: the ID-to-offset index
//! and the name index every file gets, and the derived maps some files carry
//! (the Group taxonomy, the product-to-blueprint map, the dogma reverse maps,
//! the stargate graph). Reading the file is the caller's; each function here
//! takes one line, or the values parsed out of one.

use vstd::prelude::*;
use std::collections::{HashMap, HashSet};
use vstd::utf8::{valid_utf8, decode_utf8};
use crate::text::{is_ascii_ws, skip_ascii_ws, trim_ascii_end_at};
use crate::scan::{trim_start, lemma_trim_start_at, extract_key, key_field, spec_extract_number_field,
    extract_number_field, spec_extract_bool_field, extract_bool_field, spec_name_en_bytes, extract_name_en};
use crate::names::{NameIndex, lowercase};
use crate::types::TypeTaxonomy;
use crate::store::{Activity, BlueprintRef};
use crate::dogma::ModifierRef;

verus! {

broadcast use {vstd::std_specs::hash::group_hash_axioms, vstd::seq_lib::group_to_multiset_ensures,
    vstd::multiset::group_multiset_axioms};

// ── Trimming ─────────────────────────────────────────────────────────────────

/// `s` with trailing ASCII whitespace removed.
pub open spec fn trim_end(s: Seq<u8>) -> Seq<u8>
    decreases s.len(),
{
    if s.len() > 0 && is_ascii_ws(s.last()) { trim_end(s.drop_last()) } else { s }
}

/// `<[u8]>::trim_ascii`: `s` without leading or trailing ASCII whitespace.
pub open spec fn trim_ascii(s: Seq<u8>) -> Seq<u8> {
    trim_end(trim_start(s))
}

proof fn lemma_trim_end_at(t: Seq<u8>, e: int)
    requires
        0 <= e <= t.len(),
        forall|j: int| e <= j < t.len() ==> is_ascii_ws(#[trigger] t[j]),
        e > 0 ==> !is_ascii_ws(t[e - 1]),
    ensures
        trim_end(t) == t.take(e),
    decreases t.len() - e,
{
    if t.len() > e {
        lemma_trim_end_at(t.drop_last(), e);
        assert(t.drop_last().take(e) =~= t.take(e));
    } else {
        assert(t.take(e) =~= t);
    }
}

/// A raw line without its surrounding ASCII whitespace (the line break among it).
pub fn trim_line(line: &[u8]) -> (r: &[u8])
    ensures
        r@ == trim_ascii(line@),
{
    let a = skip_ascii_ws(line, 0);
    proof {
        lemma_trim_start_at(line@, 0, a as int);
        assert(line@.subrange(0, line@.len() as int) =~= line@);
    }
    let e = trim_ascii_end_at(line, a, line.len());
    proof {
        let t = line@.subrange(a as int, line@.len() as int);
        lemma_trim_end_at(t, e - a);
        assert(t.take(e - a) =~= line@.subrange(a as int, e as int));
    }
    vstd::slice::slice_subrange(line, a, e)
}

// ── The ID and name indexes ──────────────────────────────────────────────────

/// A record's English name, when its line carries one that decodes.
pub open spec fn name_en(line: Seq<u8>) -> Option<Seq<char>> {
    match spec_name_en_bytes(line) {
        Some(b) => if valid_utf8(b) { Some(decode_utf8(b)) } else { None },
        None => None,
    }
}

/// A record's `_key`.
pub open spec fn key_of(line: Seq<u8>) -> Option<u64> {
    spec_extract_number_field(line, key_field())
}

/// The indexes of one SDE file: each record's `_key` to the byte offset its
/// line starts at, and the records' English names.
pub struct SdeIndex {
    pub id_index: HashMap<u64, u64>,
    pub names: NameIndex,
}

impl SdeIndex {
    /// An index of no records.
    pub fn new() -> (r: SdeIndex)
        ensures
            r.id_index@ == Map::<u64, u64>::empty(),
            r.names@ == Seq::<(Seq<char>, u64)>::empty(),
    {
        SdeIndex { id_index: HashMap::new(), names: NameIndex::new() }
    }

    /// Indexes one trimmed line that starts at byte `line_start`: a line with a
    /// `_key` maps it to the offset (a later line with the same key wins), and
    /// its English name, if any, is recorded lowercased. Returns the key.
    pub fn index_line(&mut self, line: &[u8], line_start: u64) -> (key: Option<u64>)
        ensures
            key == key_of(line@),
            match key {
                None => final(self).id_index@ == old(self).id_index@ && final(self).names@ == old(self).names@,
                Some(k) => {
                    &&& final(self).id_index@ == old(self).id_index@.insert(k, line_start)
                    &&& final(self).names@ == match name_en(line@) {
                        Some(n) => old(self).names@.push((lowercase(n), k)),
                        None => old(self).names@,
                    }
                },
            },
    {
        let key = extract_key(line);
        match key {
            None => None,
            Some(k) => {
                self.id_index.insert(k, line_start);
                match extract_name_en(line) {
                    Some(name) => self.names.insert(name.as_str(), k),
                    None => {},
                }
                Some(k)
            },
        }
    }

    /// Indexes record `key`, parsed whole from the line at byte `line_start`
    /// (a later line with the same key wins); such files carry no name index.
    pub fn record_offset(&mut self, key: u64, line_start: u64)
        ensures
            final(self).id_index@ == old(self).id_index@.insert(key, line_start),
            final(self).names@ == old(self).names@,
    {
        self.id_index.insert(key, line_start);
    }

    /// The byte offset of record `id`'s line, if the file has one.
    pub fn offset_of(&self, id: u64) -> (r: Option<u64>)
        ensures
            r == (if self.id_index@.contains_key(id) { Some(self.id_index@[id]) } else { None::<u64> }),
    {
        match self.id_index.get(&id) {
            Some(o) => Some(*o),
            None => None,
        }
    }
}

// ── Sorted insertion ─────────────────────────────────────────────────────────

/// `s` with `x` inserted after every element whose key is at most `x`'s that
/// ends it: the place a stable sort by `key` gives a later arrival.
pub open spec fn insert_by<T>(s: Seq<T>, x: T, key: spec_fn(T) -> u64) -> Seq<T>
    decreases s.len(),
{
    if s.len() == 0 || key(s.last()) <= key(x) {
        s.push(x)
    } else {
        insert_by(s.drop_last(), x, key).push(s.last())
    }
}

/// The elements of `s` are in nondecreasing order of `key`.
pub open spec fn sorted_by_key<T>(s: Seq<T>, key: spec_fn(T) -> u64) -> bool {
    forall|i: int, j: int| 0 <= i < j < s.len() ==> key(#[trigger] s[i]) <= key(#[trigger] s[j])
}

proof fn lemma_insert_by_at<T>(s: Seq<T>, x: T, key: spec_fn(T) -> u64, i: int)
    requires
        0 <= i <= s.len(),
        forall|k: int| i <= k < s.len() ==> key(#[trigger] s[k]) > key(x),
        i > 0 ==> key(s[i - 1]) <= key(x),
    ensures
        insert_by(s, x, key) == s.insert(i, x),
    decreases s.len(),
{
    if s.len() == i {
        assert(s.push(x) =~= s.insert(i, x));
    } else {
        lemma_insert_by_at(s.drop_last(), x, key, i);
        assert(s.drop_last().insert(i, x).push(s.last()) =~= s.insert(i, x));
    }
}

/// Sorted insertion keeps a sequence sorted.
pub proof fn lemma_insert_by_sorted<T>(s: Seq<T>, x: T, key: spec_fn(T) -> u64)
    requires
        sorted_by_key(s, key),
    ensures
        sorted_by_key(insert_by(s, x, key), key),
    decreases s.len(),
{
    if s.len() == 0 || key(s.last()) <= key(x) {
        let t = s.push(x);
        assert forall|a: int, b: int| 0 <= a < b < t.len() implies key(#[trigger] t[a]) <= key(#[trigger] t[b]) by {
            if b == s.len() {
                assert(t[a] == s[a]);
                if a < s.len() - 1 { assert(key(s[a]) <= key(s[s.len() - 1])); }
            } else {
                assert(t[a] == s[a] && t[b] == s[b]);
            }
        }
    } else {
        let d = s.drop_last();
        assert(sorted_by_key(d, key)) by {
            assert forall|a: int, b: int| 0 <= a < b < d.len() implies key(#[trigger] d[a]) <= key(#[trigger] d[b]) by {
                assert(d[a] == s[a] && d[b] == s[b]);
            }
        }
        lemma_insert_by_sorted(d, x, key);
        lemma_insert_by_multiset(d, x, key);
        let u = insert_by(d, x, key);
        let t = u.push(s.last());
        assert forall|a: int, b: int| 0 <= a < b < t.len() implies key(#[trigger] t[a]) <= key(#[trigger] t[b]) by {
            if b == u.len() {
                assert(t[a] == u[a]);
                assert(u.contains(u[a]));
                assert(u.to_multiset().count(u[a]) > 0);
                if u[a] != x {
                    assert(d.to_multiset().count(u[a]) > 0);
                    assert(d.contains(u[a]));
                    let j = choose|j: int| 0 <= j < d.len() && d[j] == u[a];
                    assert(s[j] == u[a]);
                    assert(key(s[j]) <= key(s[s.len() - 1]));
                }
            } else {
                assert(t[a] == u[a] && t[b] == u[b]);
            }
        }
    }
}

/// Sorted insertion adds exactly the new element.
pub proof fn lemma_insert_by_multiset<T>(s: Seq<T>, x: T, key: spec_fn(T) -> u64)
    ensures
        insert_by(s, x, key).to_multiset() =~= s.to_multiset().insert(x),
    decreases s.len(),
{
    if !(s.len() == 0 || key(s.last()) <= key(x)) {
        lemma_insert_by_multiset(s.drop_last(), x, key);
        assert(s.drop_last().push(s.last()) =~= s);
    }
}

/// The key of an ID is itself.
pub open spec fn id_key() -> spec_fn(u64) -> u64 {
    |x: u64| x
}

/// The key of a `(type, value)` row is its Type.
pub open spec fn row_key() -> spec_fn((u64, u32)) -> u64 {
    |r: (u64, u32)| r.0
}

fn insert_sorted_id(v: &mut Vec<u64>, x: u64)
    ensures
        final(v)@ == insert_by(old(v)@, x, id_key()),
{
    let mut i: usize = v.len();
    while i > 0 && v[i - 1] > x
        invariant
            0 <= i <= v@.len(),
            forall|k: int| i <= k < v@.len() ==> #[trigger] v@[k] > x,
        decreases i,
    {
        i = i - 1;
    }
    proof { lemma_insert_by_at(v@, x, id_key(), i as int); }
    v.insert(i, x);
}

fn insert_sorted_row(v: &mut Vec<(u64, u32)>, x: (u64, u32))
    ensures
        final(v)@ == insert_by(old(v)@, x, row_key()),
{
    let mut i: usize = v.len();
    while i > 0 && v[i - 1].0 > x.0
        invariant
            0 <= i <= v@.len(),
            forall|k: int| i <= k < v@.len() ==> (#[trigger] v@[k]).0 > x.0,
        decreases i,
    {
        i = i - 1;
    }
    proof { lemma_insert_by_at(v@, x, row_key(), i as int); }
    v.insert(i, x);
}

/// The list `m` holds under `k`, empty when it holds none.
pub open spec fn list_at<T>(m: Map<u64, Vec<T>>, k: u64) -> Seq<T> {
    if m.contains_key(k) { m[k]@ } else { Seq::empty() }
}

fn take_list<T>(m: &mut HashMap<u64, Vec<T>>, k: u64) -> (r: Vec<T>)
    ensures
        r@ == list_at(old(m)@, k),
        final(m)@ == old(m)@.remove(k),
{
    match m.remove(&k) {
        Some(v) => v,
        None => Vec::new(),
    }
}

// ── types.jsonl, groups.jsonl, categories.jsonl ──────────────────────────────

/// The bytes of `"groupID":`.
pub open spec fn group_field() -> Seq<u8> {
    seq![34u8, 103, 114, 111, 117, 112, 73, 68, 34, 58]
}

/// The bytes of `"metaGroupID":`.
pub open spec fn meta_group_field() -> Seq<u8> {
    seq![34u8, 109, 101, 116, 97, 71, 114, 111, 117, 112, 73, 68, 34, 58]
}

/// The bytes of `"published":`.
pub open spec fn published_field() -> Seq<u8> {
    seq![34u8, 112, 117, 98, 108, 105, 115, 104, 101, 100, 34, 58]
}

/// The bytes of `"categoryID":`.
pub open spec fn category_field() -> Seq<u8> {
    seq![34u8, 99, 97, 116, 101, 103, 111, 114, 121, 73, 68, 34, 58]
}

/// A field's number, when a `u32` can hold it.
pub open spec fn u32_field(line: Seq<u8>, field: Seq<u8>) -> Option<u64> {
    match spec_extract_number_field(line, field) {
        Some(v) => if v <= u32::MAX { Some(v) } else { None },
        None => None,
    }
}

/// Records one line of types.jsonl with key `key`: the Type is declared; when
/// both it and its `groupID` fit a `u32` it joins its Group (the Group's list
/// stays ascending), its `metaGroupID` is recorded if it has one that fits, and
/// a literal `"published": true` enrolls it as published.
pub fn record_type(tx: &mut TypeTaxonomy, key: u64, line: &[u8])
    ensures
        final(tx).declared_types@ == old(tx).declared_types@.insert(key),
        final(tx).declared_groups@ == old(tx).declared_groups@,
        final(tx).declared_categories@ == old(tx).declared_categories@,
        final(tx).category_groups@ == old(tx).category_groups@,
        match (if key <= u32::MAX { u32_field(line@, group_field()) } else { None }) {
            None => {
                &&& final(tx).type_group@ == old(tx).type_group@
                &&& final(tx).group_types@ == old(tx).group_types@
                &&& final(tx).type_meta_group@ == old(tx).type_meta_group@
                &&& final(tx).published@ == old(tx).published@
            },
            Some(g) => {
                &&& final(tx).type_group@ == old(tx).type_group@.insert(key, g)
                &&& final(tx).group_types@.dom() == old(tx).group_types@.dom().insert(g)
                &&& forall|h: u64| h != g && #[trigger] old(tx).group_types@.contains_key(h)
                        ==> final(tx).group_types@[h] == old(tx).group_types@[h]
                &&& final(tx).group_types@[g]@ == insert_by(list_at(old(tx).group_types@, g), key, id_key())
                &&& final(tx).type_meta_group@ == match u32_field(line@, meta_group_field()) {
                        Some(m) => old(tx).type_meta_group@.insert(key, m),
                        None => old(tx).type_meta_group@,
                    }
                &&& final(tx).published@ == if spec_extract_bool_field(line@, published_field()) == Some(true) {
                        old(tx).published@.insert(key)
                    } else {
                        old(tx).published@
                    }
            },
        },
{
    tx.declared_types.insert(key);
    if key > 0xffff_ffff {
        return;
    }
    let gf: Vec<u8> = vec![34u8, 103, 114, 111, 117, 112, 73, 68, 34, 58];
    assert(gf@ =~= group_field());
    let g = match extract_number_field(line, gf.as_slice()) {
        Some(g) => if g <= 0xffff_ffff { g } else { return },
        None => return,
    };
    tx.type_group.insert(key, g);
    let mut list = take_list(&mut tx.group_types, g);
    insert_sorted_id(&mut list, key);
    tx.group_types.insert(g, list);
    let mf: Vec<u8> = vec![34u8, 109, 101, 116, 97, 71, 114, 111, 117, 112, 73, 68, 34, 58];
    assert(mf@ =~= meta_group_field());
    match extract_number_field(line, mf.as_slice()) {
        Some(m) => if m <= 0xffff_ffff {
            tx.type_meta_group.insert(key, m);
        },
        None => {},
    }
    let pf: Vec<u8> = vec![34u8, 112, 117, 98, 108, 105, 115, 104, 101, 100, 34, 58];
    assert(pf@ =~= published_field());
    if extract_bool_field(line, pf.as_slice()) == Some(true) {
        tx.published.insert(key);
    }
}

/// Records one line of groups.jsonl with key `key`: the Group is declared, and
/// when both it and its `categoryID` fit a `u32` it joins its Category (the
/// Category's list stays ascending).
pub fn record_group(tx: &mut TypeTaxonomy, key: u64, line: &[u8])
    ensures
        final(tx).declared_groups@ == old(tx).declared_groups@.insert(key),
        final(tx).declared_types@ == old(tx).declared_types@,
        final(tx).declared_categories@ == old(tx).declared_categories@,
        final(tx).type_group@ == old(tx).type_group@,
        final(tx).group_types@ == old(tx).group_types@,
        final(tx).type_meta_group@ == old(tx).type_meta_group@,
        final(tx).published@ == old(tx).published@,
        match (if key <= u32::MAX { u32_field(line@, category_field()) } else { None }) {
            None => final(tx).category_groups@ == old(tx).category_groups@,
            Some(c) => {
                &&& final(tx).category_groups@.dom() == old(tx).category_groups@.dom().insert(c)
                &&& forall|h: u64| h != c && #[trigger] old(tx).category_groups@.contains_key(h)
                        ==> final(tx).category_groups@[h] == old(tx).category_groups@[h]
                &&& final(tx).category_groups@[c]@ == insert_by(list_at(old(tx).category_groups@, c), key, id_key())
            },
        },
{
    tx.declared_groups.insert(key);
    if key > 0xffff_ffff {
        return;
    }
    let cf: Vec<u8> = vec![34u8, 99, 97, 116, 101, 103, 111, 114, 121, 73, 68, 34, 58];
    assert(cf@ =~= category_field());
    let c = match extract_number_field(line, cf.as_slice()) {
        Some(c) => if c <= 0xffff_ffff { c } else { return },
        None => return,
    };
    let mut list = take_list(&mut tx.category_groups, c);
    insert_sorted_id(&mut list, key);
    tx.category_groups.insert(c, list);
}

/// Records one line of categories.jsonl: the Category is declared.
pub fn record_category(tx: &mut TypeTaxonomy, key: u64)
    ensures
        final(tx).declared_categories@ == old(tx).declared_categories@.insert(key),
        final(tx).declared_types@ == old(tx).declared_types@,
        final(tx).declared_groups@ == old(tx).declared_groups@,
        final(tx).type_group@ == old(tx).type_group@,
        final(tx).group_types@ == old(tx).group_types@,
        final(tx).category_groups@ == old(tx).category_groups@,
        final(tx).type_meta_group@ == old(tx).type_meta_group@,
        final(tx).published@ == old(tx).published@,
{
    tx.declared_categories.insert(key);
}

/// A taxonomy with nothing recorded.
pub fn empty_taxonomy() -> (r: TypeTaxonomy)
    ensures
        r.declared_types@ == Set::<u64>::empty(),
        r.declared_groups@ == Set::<u64>::empty(),
        r.declared_categories@ == Set::<u64>::empty(),
        r.type_group@ == Map::<u64, u64>::empty(),
        r.group_types@ == Map::<u64, Vec<u64>>::empty(),
        r.category_groups@ == Map::<u64, Vec<u64>>::empty(),
        r.type_meta_group@ == Map::<u64, u64>::empty(),
        r.published@ == Set::<u64>::empty(),
{
    TypeTaxonomy {
        declared_types: HashSet::new(),
        declared_groups: HashSet::new(),
        declared_categories: HashSet::new(),
        type_group: HashMap::new(),
        group_types: HashMap::new(),
        category_groups: HashMap::new(),
        type_meta_group: HashMap::new(),
        published: HashSet::new(),
    }
}


// ── blueprints.jsonl ─────────────────────────────────────────────────────────

/// What the product-to-blueprint map holds for `p` once blueprint `bp`, whose
/// activity `kind` lists `products`, is indexed: the activity's first product
/// points at the lowest blueprint ID that yields it.
pub open spec fn indexed_activity(m: Map<u64, BlueprintRef>, products: Seq<u64>, bp: u64, kind: Activity) -> Map<u64, BlueprintRef> {
    if products.len() == 0 {
        m
    } else {
        let p = products[0];
        if !m.contains_key(p) || bp < m[p].blueprint_id {
            m.insert(p, BlueprintRef { blueprint_id: bp, activity: kind })
        } else {
            m
        }
    }
}

/// Indexes one activity of blueprint `blueprint_id`: its first product maps to
/// the blueprint, unless a lower blueprint ID already yields that product.
pub fn index_activity(map: &mut HashMap<u64, BlueprintRef>, products: Option<&Vec<u64>>, blueprint_id: u64, kind: Activity)
    ensures
        final(map)@ == match products {
            Some(v) => indexed_activity(old(map)@, v@, blueprint_id, kind),
            None => old(map)@,
        },
{
    let v = match products {
        Some(v) => v,
        None => return,
    };
    if v.len() == 0 {
        return;
    }
    let p = v[0];
    let replace = match map.get(&p) {
        Some(existing) => blueprint_id < existing.blueprint_id,
        None => true,
    };
    if replace {
        map.insert(p, BlueprintRef { blueprint_id, activity: kind });
    }
}

/// A product's entry never moves to a higher blueprint ID.
pub proof fn lemma_indexed_activity_keeps_lowest(m: Map<u64, BlueprintRef>, products: Seq<u64>, bp: u64, kind: Activity, p: u64)
    requires
        m.contains_key(p),
    ensures
        indexed_activity(m, products, bp, kind).contains_key(p),
        indexed_activity(m, products, bp, kind)[p].blueprint_id <= m[p].blueprint_id,
{
}

/// The map once one activity is indexed, as `index_activity` leaves it.
pub open spec fn activity_indexed(m: Map<u64, BlueprintRef>, products: Option<Seq<u64>>, bp: u64, kind: Activity) -> Map<u64, BlueprintRef> {
    match products {
        Some(v) => indexed_activity(m, v, bp, kind),
        None => m,
    }
}

/// The map once blueprint lines `(blueprint, manufacturing products, reaction
/// products)` are indexed in order, manufacturing before reaction on each line.
pub open spec fn lines_indexed(m: Map<u64, BlueprintRef>, lines: Seq<(u64, Option<Seq<u64>>, Option<Seq<u64>>)>) -> Map<u64, BlueprintRef>
    decreases lines.len(),
{
    if lines.len() == 0 {
        m
    } else {
        let l = lines.last();
        activity_indexed(activity_indexed(lines_indexed(m, lines.drop_last()), l.1, l.0, Activity::Manufacturing), l.2, l.0, Activity::Reaction)
    }
}

/// The claim an activity makes: its first product, the blueprint, the kind.
pub open spec fn activity_claim(products: Option<Seq<u64>>, bp: u64, kind: Activity) -> Seq<(u64, u64, Activity)> {
    match products {
        Some(v) => if v.len() > 0 { seq![(v[0], bp, kind)] } else { Seq::empty() },
        None => Seq::empty(),
    }
}

/// Every claim of the lines, in the order they are indexed.
pub open spec fn line_claims(lines: Seq<(u64, Option<Seq<u64>>, Option<Seq<u64>>)>) -> Seq<(u64, u64, Activity)>
    decreases lines.len(),
{
    if lines.len() == 0 {
        Seq::empty()
    } else {
        let l = lines.last();
        line_claims(lines.drop_last()) + activity_claim(l.1, l.0, Activity::Manufacturing) + activity_claim(l.2, l.0, Activity::Reaction)
    }
}

/// Claim `i` wins product `p`: it claims `p` with the lowest blueprint ID, and
/// no earlier claim ties it.
pub open spec fn claim_wins(cs: Seq<(u64, u64, Activity)>, i: int, p: u64) -> bool {
    &&& 0 <= i < cs.len()
    &&& cs[i].0 == p
    &&& forall|j: int| 0 <= j < cs.len() && #[trigger] cs[j].0 == p ==> cs[i].1 <= cs[j].1
    &&& forall|j: int| 0 <= j < i && #[trigger] cs[j].0 == p ==> cs[i].1 < cs[j].1
}

/// One claim applied to the map.
pub open spec fn claim_applied(m: Map<u64, BlueprintRef>, c: (u64, u64, Activity)) -> Map<u64, BlueprintRef> {
    if !m.contains_key(c.0) || c.1 < m[c.0].blueprint_id {
        m.insert(c.0, BlueprintRef { blueprint_id: c.1, activity: c.2 })
    } else {
        m
    }
}

/// Claims applied in order.
pub open spec fn claims_applied(m: Map<u64, BlueprintRef>, cs: Seq<(u64, u64, Activity)>) -> Map<u64, BlueprintRef>
    decreases cs.len(),
{
    if cs.len() == 0 { m } else { claim_applied(claims_applied(m, cs.drop_last()), cs.last()) }
}

proof fn lemma_claims_concat(m: Map<u64, BlueprintRef>, a: Seq<(u64, u64, Activity)>, b: Seq<(u64, u64, Activity)>)
    ensures
        claims_applied(m, a + b) == claims_applied(claims_applied(m, a), b),
    decreases b.len(),
{
    if b.len() > 0 {
        lemma_claims_concat(m, a, b.drop_last());
        assert((a + b).drop_last() =~= a + b.drop_last());
        assert((a + b).last() == b.last());
    }
}

proof fn lemma_activity_claim(m: Map<u64, BlueprintRef>, products: Option<Seq<u64>>, bp: u64, kind: Activity)
    ensures
        activity_indexed(m, products, bp, kind) == claims_applied(m, activity_claim(products, bp, kind)),
{
    match products {
        Some(v) => {
            let c = activity_claim(products, bp, kind);
            if v.len() > 0 {
                assert(c.drop_last() =~= Seq::<(u64, u64, Activity)>::empty());
                assert(claims_applied(m, c.drop_last()) == m);
                assert(c.last() == (v[0], bp, kind));
            } else {
                assert(c.len() == 0);
            }
        },
        None => {},
    }
}

proof fn lemma_lines_claims(m: Map<u64, BlueprintRef>, lines: Seq<(u64, Option<Seq<u64>>, Option<Seq<u64>>)>)
    ensures
        lines_indexed(m, lines) == claims_applied(m, line_claims(lines)),
    decreases lines.len(),
{
    if lines.len() > 0 {
        let l = lines.last();
        lemma_lines_claims(m, lines.drop_last());
        let c0 = line_claims(lines.drop_last());
        let cm = activity_claim(l.1, l.0, Activity::Manufacturing);
        let cr = activity_claim(l.2, l.0, Activity::Reaction);
        lemma_claims_concat(m, c0, cm);
        lemma_claims_concat(m, c0 + cm, cr);
        lemma_activity_claim(claims_applied(m, c0), l.1, l.0, Activity::Manufacturing);
        lemma_activity_claim(claims_applied(m, c0 + cm), l.2, l.0, Activity::Reaction);
    }
}

proof fn lemma_claims_winner(cs: Seq<(u64, u64, Activity)>, p: u64)
    ensures
        claims_applied(Map::empty(), cs).contains_key(p) <==> exists|i: int| 0 <= i < cs.len() && #[trigger] cs[i].0 == p,
        claims_applied(Map::empty(), cs).contains_key(p) ==> exists|i: int| #[trigger] claim_wins(cs, i, p)
            && claims_applied(Map::empty(), cs)[p] == (BlueprintRef { blueprint_id: cs[i].1, activity: cs[i].2 }),
    decreases cs.len(),
{
    if cs.len() > 0 {
        let c0 = cs.drop_last();
        let e = cs.last();
        let n = cs.len() - 1;
        lemma_claims_winner(c0, p);
        let m0 = claims_applied(Map::empty(), c0);
        let m1 = claims_applied(Map::empty(), cs);
        assert(m1 == claim_applied(m0, e));
        assert(cs[n] == e);
        assert forall|j: int| 0 <= j < n implies #[trigger] cs[j] == c0[j] by {}
        if e.0 != p {
            if m1.contains_key(p) {
                let i = choose|i: int| #[trigger] claim_wins(c0, i, p) && m0[p] == (BlueprintRef { blueprint_id: c0[i].1, activity: c0[i].2 });
                assert(cs[i] == c0[i]);
                assert forall|j: int| 0 <= j < cs.len() && #[trigger] cs[j].0 == p implies cs[i].1 <= cs[j].1 by {
                    if j < n { assert(cs[j] == c0[j]); }
                }
                assert forall|j: int| 0 <= j < i && #[trigger] cs[j].0 == p implies cs[i].1 < cs[j].1 by {
                    assert(cs[j] == c0[j]);
                }
                assert(claim_wins(cs, i, p));
            }
            if exists|i: int| 0 <= i < cs.len() && #[trigger] cs[i].0 == p {
                let i = choose|i: int| 0 <= i < cs.len() && #[trigger] cs[i].0 == p;
                assert(i < n);
                assert(c0[i].0 == p);
            }
            if exists|i: int| 0 <= i < c0.len() && #[trigger] c0[i].0 == p {
                let i = choose|i: int| 0 <= i < c0.len() && #[trigger] c0[i].0 == p;
                assert(cs[i].0 == p);
            }
        } else {
            assert(cs[n].0 == p);
            if !m0.contains_key(p) {
                assert(claim_wins(cs, n, p)) by {
                    assert forall|j: int| 0 <= j < cs.len() && #[trigger] cs[j].0 == p implies cs[n].1 <= cs[j].1 by {
                        if j < n { assert(c0[j].0 == p); }
                    }
                    assert forall|j: int| 0 <= j < n && #[trigger] cs[j].0 == p implies cs[n].1 < cs[j].1 by {
                        assert(c0[j].0 == p);
                    }
                }
            } else {
                let i = choose|i: int| #[trigger] claim_wins(c0, i, p) && m0[p] == (BlueprintRef { blueprint_id: c0[i].1, activity: c0[i].2 });
                if e.1 < m0[p].blueprint_id {
                    assert(claim_wins(cs, n, p)) by {
                        assert forall|j: int| 0 <= j < cs.len() && #[trigger] cs[j].0 == p implies cs[n].1 <= cs[j].1 by {
                            if j < n { assert(c0[j].0 == p); assert(c0[i].1 <= c0[j].1); }
                        }
                        assert forall|j: int| 0 <= j < n && #[trigger] cs[j].0 == p implies cs[n].1 < cs[j].1 by {
                            assert(c0[j].0 == p); assert(c0[i].1 <= c0[j].1);
                        }
                    }
                } else {
                    assert(cs[i] == c0[i]);
                    assert(claim_wins(cs, i, p)) by {
                        assert forall|j: int| 0 <= j < cs.len() && #[trigger] cs[j].0 == p implies cs[i].1 <= cs[j].1 by {
                            if j < n { assert(c0[j].0 == p); }
                        }
                        assert forall|j: int| 0 <= j < i && #[trigger] cs[j].0 == p implies cs[i].1 < cs[j].1 by {
                            assert(c0[j].0 == p);
                        }
                    }
                }
            }
        }
    }
}

/// Over a whole blueprint file, the product-to-blueprint map holds exactly the
/// products some activity lists first, each pointing at the claim with the
/// lowest blueprint ID; of equal IDs the one indexed first wins, so on one
/// line manufacturing wins over reaction.
pub proof fn lemma_blueprint_index(lines: Seq<(u64, Option<Seq<u64>>, Option<Seq<u64>>)>, p: u64)
    ensures
        lines_indexed(Map::empty(), lines).contains_key(p)
            <==> exists|i: int| 0 <= i < line_claims(lines).len() && #[trigger] line_claims(lines)[i].0 == p,
        lines_indexed(Map::empty(), lines).contains_key(p) ==> exists|i: int| #[trigger] claim_wins(line_claims(lines), i, p)
            && lines_indexed(Map::empty(), lines)[p]
                == (BlueprintRef { blueprint_id: line_claims(lines)[i].1, activity: line_claims(lines)[i].2 }),
{
    lemma_lines_claims(Map::empty(), lines);
    lemma_claims_winner(line_claims(lines), p);
}

/// What one blueprint line offers the product index: its `_key` and the
/// product lists of its manufacturing and reaction activities, where present.
pub struct BlueprintLine {
    pub key: u64,
    pub manufacturing: Option<Vec<u64>>,
    pub reaction: Option<Vec<u64>>,
}

/// The view of an optional product list.
pub open spec fn products_view(v: Option<Vec<u64>>) -> Option<Seq<u64>> {
    match v {
        Some(x) => Some(x@),
        None => None,
    }
}

/// The lines as `(blueprint, manufacturing products, reaction products)`.
pub open spec fn lines_view(lines: Seq<BlueprintLine>) -> Seq<(u64, Option<Seq<u64>>, Option<Seq<u64>>)> {
    lines.map_values(|l: BlueprintLine| (l.key, products_view(l.manufacturing), products_view(l.reaction)))
}

/// The product-to-blueprint map of a whole blueprint file, its lines in order:
/// every product some activity lists first maps to the claim with the lowest
/// blueprint ID, the first indexed among equals (manufacturing before reaction
/// on one line); no other product is in it.
pub fn index_blueprints(lines: &Vec<BlueprintLine>) -> (m: HashMap<u64, BlueprintRef>)
    ensures
        m@ == lines_indexed(Map::empty(), lines_view(lines@)),
        forall|p: u64| #[trigger] m@.contains_key(p)
            <==> exists|i: int| 0 <= i < line_claims(lines_view(lines@)).len() && #[trigger] line_claims(lines_view(lines@))[i].0 == p,
        forall|p: u64| #[trigger] m@.contains_key(p) ==> exists|i: int| #[trigger] claim_wins(line_claims(lines_view(lines@)), i, p)
            && m@[p] == (BlueprintRef { blueprint_id: line_claims(lines_view(lines@))[i].1, activity: line_claims(lines_view(lines@))[i].2 }),
{
    let mut m: HashMap<u64, BlueprintRef> = HashMap::new();
    let ghost all = lines_view(lines@);
    let mut i: usize = 0;
    while i < lines.len()
        invariant
            0 <= i <= lines@.len(),
            all == lines_view(lines@),
            m@ == lines_indexed(Map::empty(), all.take(i as int)),
        decreases lines@.len() - i,
    {
        let l = &lines[i];
        proof {
            assert(all.take(i + 1).drop_last() =~= all.take(i as int));
            assert(all.take(i + 1).last() == all[i as int]);
            assert(all[i as int] == (l.key, products_view(l.manufacturing), products_view(l.reaction)));
        }
        let mp: Option<&Vec<u64>> = match &l.manufacturing { Some(v) => Some(v), None => None };
        index_activity(&mut m, mp, l.key, Activity::Manufacturing);
        let rp: Option<&Vec<u64>> = match &l.reaction { Some(v) => Some(v), None => None };
        index_activity(&mut m, rp, l.key, Activity::Reaction);
        i = i + 1;
    }
    proof {
        assert(all.take(all.len() as int) =~= all);
        assert forall|p: u64| #[trigger] m@.contains_key(p)
            <==> exists|i: int| 0 <= i < line_claims(all).len() && #[trigger] line_claims(all)[i].0 == p by {
            lemma_blueprint_index(all, p);
        }
        assert forall|p: u64| #[trigger] m@.contains_key(p) implies exists|i: int| #[trigger] claim_wins(line_claims(all), i, p)
            && m@[p] == (BlueprintRef { blueprint_id: line_claims(all)[i].1, activity: line_claims(all)[i].2 }) by {
            lemma_blueprint_index(all, p);
        }
    }
    m
}

// ── typeDogma.jsonl ──────────────────────────────────────────────────────────

/// How often `x` occurs in the first `n` of `s`.
pub open spec fn count_upto(s: Seq<u64>, x: u64, n: nat) -> nat
    decreases n,
{
    if n == 0 { 0 } else { count_upto(s, x, (n - 1) as nat) + if s[n - 1] == x { 1nat } else { 0 } }
}

/// `k` repeated `n` times.
pub open spec fn repeat(k: u64, n: nat) -> Seq<u64> {
    Seq::new(n, |i: int| k)
}

/// The list of attribute `a` after the first `n` attribute rows of Type `t`
/// are filed under their attributes: each row carrying a value goes in at its
/// place by Type.
pub open spec fn rows_filed(list: Seq<(u64, u32)>, t: u64, rows: Seq<(u64, Option<u32>)>, a: u64, n: nat) -> Seq<(u64, u32)>
    decreases n,
{
    if n == 0 {
        list
    } else {
        let prev = rows_filed(list, t, rows, a, (n - 1) as nat);
        let r = rows[n - 1];
        match r.1 {
            Some(v) => if r.0 == a { insert_by(prev, (t, v), row_key()) } else { prev },
            None => prev,
        }
    }
}

/// Some of the first `n` rows names attribute `a` with a value.
pub open spec fn has_row(rows: Seq<(u64, Option<u32>)>, a: u64, n: nat) -> bool {
    exists|i: int| 0 <= i < n && #[trigger] rows[i].0 == a && rows[i].1 is Some
}

/// Records one line of typeDogma.jsonl for Type `key`: the Type is listed as an
/// owner of each of its effects (once per mention), and when the Type fits a
/// `u32`, each attribute row carrying a value is filed under its attribute,
/// the attribute's list kept ascending by Type. A value is the bit pattern of
/// the row's `f32`; a row with no value records nothing.
pub fn record_type_dogma(effect_to_types: &mut HashMap<u64, Vec<u64>>, attribute_types: &mut HashMap<u64, Vec<(u64, u32)>>,
    key: u64, effects: &Vec<u64>, attributes: &Vec<(u64, Option<u32>)>)
    ensures
        forall|e: u64| #[trigger] final(effect_to_types)@.contains_key(e)
            <==> (old(effect_to_types)@.contains_key(e) || effects@.contains(e)),
        forall|e: u64| #[trigger] list_at(final(effect_to_types)@, e)
            == list_at(old(effect_to_types)@, e) + repeat(key, count_upto(effects@, e, effects@.len())),
        key <= u32::MAX ==> forall|a: u64| #[trigger] final(attribute_types)@.contains_key(a)
            <==> (old(attribute_types)@.contains_key(a) || has_row(attributes@, a, attributes@.len())),
        key <= u32::MAX ==> forall|a: u64| #[trigger] list_at(final(attribute_types)@, a)
            == rows_filed(list_at(old(attribute_types)@, a), key, attributes@, a, attributes@.len()),
        key > u32::MAX ==> final(attribute_types)@ == old(attribute_types)@,
{
    let ghost e0 = effect_to_types@;
    let mut i: usize = 0;
    while i < effects.len()
        invariant
            0 <= i <= effects@.len(),
            forall|e: u64| #[trigger] effect_to_types@.contains_key(e)
                <==> (e0.contains_key(e) || effects@.take(i as int).contains(e)),
            forall|e: u64| #[trigger] list_at(effect_to_types@, e) == list_at(e0, e) + repeat(key, count_upto(effects@, e, i as nat)),
        decreases effects@.len() - i,
    {
        let e = effects[i];
        let ghost m0 = effect_to_types@;
        let mut list = take_list(effect_to_types, e);
        list.push(key);
        effect_to_types.insert(e, list);
        proof {
            assert(effects@.take(i + 1) =~= effects@.take(i as int).push(e));
            assert forall|f: u64| #[trigger] effect_to_types@.contains_key(f)
                <==> (e0.contains_key(f) || effects@.take(i + 1).contains(f)) by {
                if effects@.take(i + 1).contains(f) && f != e {
                    let j = choose|j: int| 0 <= j < i + 1 && #[trigger] effects@.take(i + 1)[j] == f;
                    assert(effects@.take(i as int)[j] == f);
                }
                if effects@.take(i as int).contains(f) {
                    let j = choose|j: int| 0 <= j < i && #[trigger] effects@.take(i as int)[j] == f;
                    assert(effects@.take(i + 1)[j] == f);
                }
                if f == e { assert(effects@.take(i + 1)[i as int] == f); }
            }
            assert forall|f: u64| #[trigger] list_at(effect_to_types@, f) == list_at(e0, f) + repeat(key, count_upto(effects@, f, (i + 1) as nat)) by {
                if f == e {
                    assert(list_at(m0, f) == list_at(e0, f) + repeat(key, count_upto(effects@, f, i as nat)));
                    assert(repeat(key, count_upto(effects@, f, (i + 1) as nat)) =~= repeat(key, count_upto(effects@, f, i as nat)).push(key));
                    assert(list_at(effect_to_types@, f) =~= list_at(e0, f) + repeat(key, count_upto(effects@, f, (i + 1) as nat)));
                } else {
                    assert(list_at(effect_to_types@, f) == list_at(m0, f));
                }
            }
        }
        i = i + 1;
    }
    assert(effects@.take(effects@.len() as int) =~= effects@);
    if key > 0xffff_ffff {
        return;
    }
    let ghost a0 = attribute_types@;
    let mut j: usize = 0;
    while j < attributes.len()
        invariant
            key <= u32::MAX,
            0 <= j <= attributes@.len(),
            forall|a: u64| #[trigger] attribute_types@.contains_key(a)
                <==> (a0.contains_key(a) || has_row(attributes@, a, j as nat)),
            forall|a: u64| #[trigger] list_at(attribute_types@, a) == rows_filed(list_at(a0, a), key, attributes@, a, j as nat),
        decreases attributes@.len() - j,
    {
        let (a, value) = attributes[j];
        match value {
            Some(v) => {
                let ghost m0 = attribute_types@;
                let mut list = take_list(attribute_types, a);
                insert_sorted_row(&mut list, (key, v));
                attribute_types.insert(a, list);
                proof {
                    assert forall|b: u64| #[trigger] attribute_types@.contains_key(b)
                        <==> (a0.contains_key(b) || has_row(attributes@, b, (j + 1) as nat)) by {
                        if has_row(attributes@, b, (j + 1) as nat) && b != a {
                            let k = choose|k: int| 0 <= k < j + 1 && #[trigger] attributes@[k].0 == b && attributes@[k].1 is Some;
                            assert(has_row(attributes@, b, j as nat));
                        }
                        if b == a { assert(attributes@[j as int].0 == b); }
                        if has_row(attributes@, b, j as nat) {
                            let k = choose|k: int| 0 <= k < j && #[trigger] attributes@[k].0 == b && attributes@[k].1 is Some;
                            assert(attributes@[k].0 == b);
                        }
                    }
                    assert forall|b: u64| #[trigger] list_at(attribute_types@, b) == rows_filed(list_at(a0, b), key, attributes@, b, (j + 1) as nat) by {
                        if b != a { assert(list_at(attribute_types@, b) == list_at(m0, b)); }
                    }
                }
            },
            None => {
                proof {
                    assert forall|b: u64| #[trigger] attribute_types@.contains_key(b)
                        <==> (a0.contains_key(b) || has_row(attributes@, b, (j + 1) as nat)) by {
                        if has_row(attributes@, b, (j + 1) as nat) {
                            let k = choose|k: int| 0 <= k < j + 1 && #[trigger] attributes@[k].0 == b && attributes@[k].1 is Some;
                            assert(has_row(attributes@, b, j as nat));
                        }
                        if has_row(attributes@, b, j as nat) {
                            let k = choose|k: int| 0 <= k < j && #[trigger] attributes@[k].0 == b && attributes@[k].1 is Some;
                            assert(attributes@[k].0 == b);
                        }
                    }
                    assert forall|b: u64| #[trigger] list_at(attribute_types@, b) == rows_filed(list_at(a0, b), key, attributes@, b, (j + 1) as nat) by {}
                }
            },
        }
        j = j + 1;
    }
}

// ── dogmaEffects.jsonl ───────────────────────────────────────────────────────

/// A `modifierInfo` entry as the SDE writes it; any field may be missing.
pub struct RawModifier {
    pub modified: Option<u64>,
    pub modifying: Option<u64>,
    pub operation: Option<i64>,
    pub func: Option<String>,
    pub domain: Option<String>,
    pub skill_type_id: Option<u64>,
}

/// The reverse-index entry of raw modifier `m` of effect `e`, when it names
/// both the attribute it modifies and the one it modifies by (a missing
/// `operation` reads as 0).
pub open spec fn modifier_ref(e: u64, m: RawModifier) -> Option<ModifierRef> {
    match (m.modified, m.modifying) {
        (Some(a), Some(b)) => Some(ModifierRef {
            effect_id: e,
            modifying_attribute_id: b,
            modified_attribute_id: a,
            operation: match m.operation { Some(o) => o, None => 0 },
            func: m.func,
            domain: m.domain,
            skill_type_id: m.skill_type_id,
        }),
        _ => None,
    }
}

/// The entries the first `n` of `mods` add under attribute `a`, in order.
pub open spec fn refs_for(e: u64, mods: Seq<RawModifier>, a: u64, n: nat) -> Seq<ModifierRef>
    decreases n,
{
    if n == 0 {
        Seq::empty()
    } else {
        let prev = refs_for(e, mods, a, (n - 1) as nat);
        match modifier_ref(e, mods[n - 1]) {
            Some(r) => if r.modified_attribute_id == a { prev.push(r) } else { prev },
            None => prev,
        }
    }
}

/// Raw modifier `m` of effect `e` is indexed under attribute `a`.
pub open spec fn ref_targets(e: u64, m: RawModifier, a: u64) -> bool {
    match modifier_ref(e, m) {
        Some(r) => r.modified_attribute_id == a,
        None => false,
    }
}

/// Some of the first `n` of `mods` targets attribute `a`.
pub open spec fn targets(e: u64, mods: Seq<RawModifier>, a: u64, n: nat) -> bool {
    exists|i: int| 0 <= i < n && #[trigger] ref_targets(e, mods[i], a)
}

/// Records the `modifierInfo` of dogma effect `key`: each entry naming both of
/// its attributes is appended, in order, under the attribute it modifies.
pub fn record_effect_modifiers(attribute_modifiers: &mut HashMap<u64, Vec<ModifierRef>>, key: u64, mods: Vec<RawModifier>)
    ensures
        forall|a: u64| #[trigger] final(attribute_modifiers)@.contains_key(a)
            <==> (old(attribute_modifiers)@.contains_key(a) || targets(key, mods@, a, mods@.len())),
        forall|a: u64| #[trigger] list_at(final(attribute_modifiers)@, a)
            == list_at(old(attribute_modifiers)@, a) + refs_for(key, mods@, a, mods@.len()),
{
    let ghost all = mods@;
    let ghost m0 = attribute_modifiers@;
    let mut rest = mods;
    let total: usize = rest.len();
    let mut i: usize = 0;
    while rest.len() > 0
        invariant
            total == all.len(),
            0 <= i <= all.len(),
            rest@ == all.skip(i as int),
            forall|a: u64| #[trigger] attribute_modifiers@.contains_key(a)
                <==> (m0.contains_key(a) || targets(key, all, a, i as nat)),
            forall|a: u64| #[trigger] list_at(attribute_modifiers@, a) == list_at(m0, a) + refs_for(key, all, a, i as nat),
        decreases rest@.len(),
    {
        let m = rest.remove(0);
        assert(m == all[i as int]);
        proof { assert(rest@ =~= all.skip(i + 1)); }
        let ghost mb = attribute_modifiers@;
        match (m.modified, m.modifying) {
            (Some(a), Some(b)) => {
                let r = ModifierRef {
                    effect_id: key,
                    modifying_attribute_id: b,
                    modified_attribute_id: a,
                    operation: match m.operation { Some(o) => o, None => 0 },
                    func: m.func,
                    domain: m.domain,
                    skill_type_id: m.skill_type_id,
                };
                assert(modifier_ref(key, all[i as int]) == Some(r));
                let mut list = take_list(attribute_modifiers, a);
                list.push(r);
                attribute_modifiers.insert(a, list);
                proof {
                    assert forall|c: u64| #[trigger] attribute_modifiers@.contains_key(c)
                        <==> (m0.contains_key(c) || targets(key, all, c, (i + 1) as nat)) by {
                        if targets(key, all, c, (i + 1) as nat) && c != a {
                            let k = choose|k: int| 0 <= k < i + 1 && #[trigger] ref_targets(key, all[k], c);
                            assert(targets(key, all, c, i as nat));
                        }
                        if targets(key, all, c, i as nat) {
                            let k = choose|k: int| 0 <= k < i && #[trigger] ref_targets(key, all[k], c);
                            assert(ref_targets(key, all[k], c));
                        }
                        if c == a { assert(ref_targets(key, all[i as int], c)); }
                    }
                    assert forall|c: u64| #[trigger] list_at(attribute_modifiers@, c) == list_at(m0, c) + refs_for(key, all, c, (i + 1) as nat) by {
                        if c == a {
                            assert(list_at(attribute_modifiers@, c) =~= list_at(m0, c) + refs_for(key, all, c, (i + 1) as nat));
                        } else {
                            assert(list_at(attribute_modifiers@, c) == list_at(mb, c));
                        }
                    }
                }
            },
            _ => {
                assert(modifier_ref(key, all[i as int]) is None);
                proof {
                    assert forall|c: u64| #[trigger] attribute_modifiers@.contains_key(c)
                        <==> (m0.contains_key(c) || targets(key, all, c, (i + 1) as nat)) by {
                        if targets(key, all, c, (i + 1) as nat) {
                            let k = choose|k: int| 0 <= k < i + 1 && #[trigger] ref_targets(key, all[k], c);
                            assert(targets(key, all, c, i as nat));
                        }
                        if targets(key, all, c, i as nat) {
                            let k = choose|k: int| 0 <= k < i && #[trigger] ref_targets(key, all[k], c);
                            assert(ref_targets(key, all[k], c));
                        }
                    }
                    assert forall|c: u64| #[trigger] list_at(attribute_modifiers@, c) == list_at(m0, c) + refs_for(key, all, c, (i + 1) as nat) by {}
                }
            },
        }
        i = i + 1;
    }
}

// ── mapStargates.jsonl ───────────────────────────────────────────────────────

/// Records one stargate: system `src` gains a jump to `dst`.
pub fn record_stargate(graph: &mut HashMap<u64, Vec<u64>>, src: u64, dst: u64)
    ensures
        final(graph)@.dom() == old(graph)@.dom().insert(src),
        forall|s: u64| s != src && #[trigger] old(graph)@.contains_key(s) ==> final(graph)@[s] == old(graph)@[s],
        final(graph)@[src]@ == list_at(old(graph)@, src).push(dst),
{
    let mut list = take_list(graph, src);
    list.push(dst);
    graph.insert(src, list);
}

} // verus!
