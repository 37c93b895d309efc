//! The downloader's pure rules: reading the SDE build number out of the resolved
//! download URL, and refusing zip entry paths that could escape the extraction
//! directory. Fetching, writing and unpacking are the application's.

use vstd::prelude::*;
use vstd::string::{StringSliceAdditionalSpecFns, StrSliceExecFns};
use crate::text::{find_bytes, occurs_at, first_occurrence, parse_u64, spec_parse_u64, string_push};

verus! {

/// Why no build number could be read from a download URL.
#[derive(Debug, Clone, Copy, PartialEq, Eq)]
pub enum BuildParseError {
    /// The URL does not contain `eve-online-static-data-`.
    PrefixMissing,
    /// No `-` follows the build number.
    NoDashAfterBuild,
    /// The text between the prefix and the `-` is not a `u64`.
    InvalidNumber,
}

/// The bytes of `eve-online-static-data-`, the marker the build number follows.
pub open spec fn build_prefix() -> Seq<u8> {
    seq![101u8, 118, 101, 45, 111, 110, 108, 105, 110, 101, 45, 115, 116, 97, 116, 105, 99, 45, 100, 97, 116, 97, 45]
}

fn build_prefix_bytes() -> (v: Vec<u8>)
    ensures
        v@ == build_prefix(),
{
    let v: Vec<u8> = vec![101u8, 118, 101, 45, 111, 110, 108, 105, 110, 101, 45, 115, 116, 97, 116, 105, 99, 45, 100, 97, 116, 97, 45];
    assert(v@ =~= build_prefix());
    v
}

/// At most one index is a first occurrence, so `find_bytes`' answer is the one
/// `first_occurrence` names.
pub proof fn lemma_first_occurrence(haystack: Seq<u8>, needle: Seq<u8>, r: Option<usize>)
    requires
        match r {
            Some(i) => occurs_at(haystack, needle, i as int) && forall|j: int|
                0 <= j < i ==> !occurs_at(haystack, needle, j),
            None => forall|j: int| !occurs_at(haystack, needle, j),
        },
    ensures
        match r {
            Some(i) => first_occurrence(haystack, needle) == Some(i as int),
            None => first_occurrence(haystack, needle).is_none(),
        },
{
    reveal(first_occurrence);
    if let Some(i) = r {
        assert(occurs_at(haystack, needle, i as int));
        let c = choose|k: int| occurs_at(haystack, needle, k) && forall|j: int| 0 <= j < k ==> !occurs_at(haystack, needle, j);
        assert(occurs_at(haystack, needle, c) && forall|j: int| 0 <= j < c ==> !occurs_at(haystack, needle, j));
        if c < i {
            assert(!occurs_at(haystack, needle, c));
        } else if i < c {
            assert(!occurs_at(haystack, needle, i as int));
        }
    }
}

/// The build number `parse_build` reads from the bytes of a URL: the text after
/// the first `eve-online-static-data-`, up to the next `-`, parsed as a `u64`.
pub open spec fn spec_parse_build(url: Seq<u8>) -> Result<u64, BuildParseError> {
    match first_occurrence(url, build_prefix()) {
        None => Err(BuildParseError::PrefixMissing),
        Some(p) => {
            let rest = url.subrange(p + build_prefix().len(), url.len() as int);
            match first_occurrence(rest, seq![45u8]) {
                None => Err(BuildParseError::NoDashAfterBuild),
                Some(e) => match spec_parse_u64(rest.take(e)) {
                    Some(v) => Ok(v),
                    None => Err(BuildParseError::InvalidNumber),
                },
            }
        },
    }
}

/// Reads the SDE build number out of the download URL CCP's stable link
/// redirects to, e.g. `.../eve-online-static-data-3333874-jsonl.zip` gives
/// `3333874`.
pub fn parse_build(url: &str) -> (r: Result<u64, BuildParseError>)
    ensures
        r == spec_parse_build(url.spec_bytes()),
{
    let bytes = url.as_bytes();
    let prefix = build_prefix_bytes();
    let found = find_bytes(bytes, prefix.as_slice());
    proof { lemma_first_occurrence(bytes@, prefix@, found); }
    let p = match found {
        Some(p) => p,
        None => return Err(BuildParseError::PrefixMissing),
    };
    assert(prefix@.len() == 23);
    assert(occurs_at(bytes@, prefix@, p as int));
    assert(p + prefix@.len() <= bytes@.len());
    assert(p + 23 <= bytes.len());
    let start = p + 23;
    let rest = vstd::slice::slice_subrange(bytes, start, bytes.len());
    let dash: Vec<u8> = vec![45u8];
    assert(dash@ =~= seq![45u8]);
    let found_dash = find_bytes(rest, dash.as_slice());
    proof { lemma_first_occurrence(rest@, dash@, found_dash); }
    let e = match found_dash {
        Some(e) => e,
        None => return Err(BuildParseError::NoDashAfterBuild),
    };
    let digits = vstd::slice::slice_subrange(rest, 0, e);
    assert(digits@ =~= rest@.take(e as int));
    match parse_u64(digits) {
        Some(v) => Ok(v),
        None => Err(BuildParseError::InvalidNumber),
    }
}

/// A zip entry path component that could escape the extraction directory.
#[derive(Debug, Clone, Copy, PartialEq, Eq)]
pub enum ZipPathError {
    /// The path is absolute or names a parent directory (`..`).
    UnsafeComponent,
}

/// The `/`-separated pieces of a path, empty ones included (left to right).
pub open spec fn path_segments(s: Seq<char>) -> Seq<Seq<char>>
    decreases s.len(),
{
    if s.len() == 0 {
        seq![Seq::<char>::empty()]
    } else {
        let r = path_segments(s.drop_last());
        if s.last() == '/' {
            r.push(Seq::<char>::empty())
        } else {
            r.update(r.len() - 1, r.last().push(s.last()))
        }
    }
}

/// A piece `Path::components` drops: an empty one (repeated or trailing `/`) or `.`.
pub open spec fn is_skipped_segment(g: Seq<char>) -> bool {
    g.len() == 0 || g == seq!['.']
}

/// The parent-directory piece `..`.
pub open spec fn is_parent_segment(g: Seq<char>) -> bool {
    g == seq!['.', '.']
}

/// The pieces that become normal path components, in order.
pub open spec fn kept_segments(segs: Seq<Seq<char>>) -> Seq<Seq<char>>
    decreases segs.len(),
{
    if segs.len() == 0 {
        Seq::empty()
    } else {
        let r = kept_segments(segs.drop_last());
        if is_skipped_segment(segs.last()) { r } else { r.push(segs.last()) }
    }
}

/// Components joined back with `/`.
pub open spec fn join_segments(segs: Seq<Seq<char>>) -> Seq<char>
    decreases segs.len(),
{
    if segs.len() == 0 {
        Seq::empty()
    } else if segs.len() == 1 {
        segs[0]
    } else {
        join_segments(segs.drop_last()) + seq!['/'] + segs.last()
    }
}

/// What `sanitize_zip_path` makes of an entry name: refused when it is absolute
/// or has a `..` component, else its normal components rejoined with `/`.
pub open spec fn spec_sanitize_zip_path(raw: Seq<char>) -> Result<Seq<char>, ZipPathError> {
    let segs = path_segments(raw);
    if (raw.len() > 0 && raw[0] == '/') || exists|i: int| 0 <= i < segs.len() && #[trigger] is_parent_segment(segs[i]) {
        Err(ZipPathError::UnsafeComponent)
    } else {
        Ok(join_segments(kept_segments(segs)))
    }
}

proof fn lemma_segments_nonempty(s: Seq<char>)
    ensures
        path_segments(s).len() >= 1,
    decreases s.len(),
{
    if s.len() > 0 {
        lemma_segments_nonempty(s.drop_last());
    }
}

proof fn lemma_segments_step(s: Seq<char>, i: int)
    requires
        0 <= i < s.len(),
    ensures
        path_segments(s.take(i + 1)) == ({
            let r = path_segments(s.take(i));
            if s[i] == '/' {
                r.push(Seq::<char>::empty())
            } else {
                r.update(r.len() - 1, r.last().push(s[i]))
            }
        }),
{
    assert(s.take(i + 1).drop_last() =~= s.take(i));
}

fn seg_is_skipped(g: &Vec<char>) -> (b: bool)
    ensures
        b == is_skipped_segment(g@),
{
    if g.len() == 0 {
        true
    } else if g.len() == 1 && g[0] == '.' {
        assert(g@ =~= seq!['.']);
        true
    } else {
        assert(g@.len() == 1 ==> g@ != seq!['.'] || g@[0] == '.');
        false
    }
}

fn seg_is_parent(g: &Vec<char>) -> (b: bool)
    ensures
        b == is_parent_segment(g@),
{
    if g.len() == 2 && g[0] == '.' && g[1] == '.' {
        assert(g@ =~= seq!['.', '.']);
        true
    } else {
        assert(g@.len() != 2 ==> g@ != seq!['.', '.']);
        false
    }
}

fn push_chars(out: &mut String, g: &Vec<char>)
    ensures
        final(out)@ == old(out)@ + g@,
{
    let mut k: usize = 0;
    while k < g.len()
        invariant
            0 <= k <= g.len(),
            out@ == old(out)@ + g@.take(k as int),
        decreases g.len() - k,
    {
        string_push(out, g[k]);
        assert(g@.take(k + 1) =~= g@.take(k as int).push(g@[k as int]));
        k = k + 1;
    }
    assert(g@.take(g.len() as int) =~= g@);
}

proof fn lemma_join_push(kept: Seq<Seq<char>>, g: Seq<char>)
    ensures
        join_segments(kept.push(g)) == if kept.len() == 0 {
            g
        } else {
            join_segments(kept) + seq!['/'] + g
        },
{
    assert(kept.push(g).drop_last() =~= kept);
}

/// Completed pieces of a prefix are pieces of the whole path, at the same place.
proof fn lemma_segments_prefix(s: Seq<char>, j: int, k: int)
    requires
        0 <= j <= s.len(),
        0 <= k < path_segments(s.take(j)).len() - 1,
    ensures
        k < path_segments(s).len() - 1,
        path_segments(s)[k] == path_segments(s.take(j))[k],
    decreases s.len() - j,
{
    lemma_segments_nonempty(s.take(j));
    if j == s.len() {
        assert(s.take(j) =~= s);
    } else {
        lemma_segments_step(s, j);
        lemma_segments_nonempty(s.take(j + 1));
        lemma_segments_prefix(s, j + 1, k);
    }
}

/// Appends the next kept piece to the joined output.
fn append_piece(out: &mut String, any_kept: bool, g: &Vec<char>, Ghost(kept): Ghost<Seq<Seq<char>>>)
    requires
        old(out)@ == join_segments(kept),
        any_kept == (kept.len() > 0),
    ensures
        final(out)@ == join_segments(kept.push(g@)),
{
    if any_kept {
        string_push(out, '/');
    }
    push_chars(out, g);
    proof { lemma_join_push(kept, g@); }
}

/// The relative path a zip entry may be written to: `..` components and absolute
/// paths are refused, `.` and empty components are dropped, and the remaining
/// components are rejoined with `/` (`./foo/bar.txt` gives `foo/bar.txt`).
pub fn sanitize_zip_path(raw: &str) -> (r: Result<String, ZipPathError>)
    ensures
        match r {
            Ok(s) => spec_sanitize_zip_path(raw@) == Ok::<Seq<char>, ZipPathError>(s@),
            Err(e) => spec_sanitize_zip_path(raw@) == Err::<Seq<char>, ZipPathError>(e),
        },
{
    let n = raw.unicode_len();
    let ghost s = raw@;
    if n > 0 && raw.get_char(0) == '/' {
        return Err(ZipPathError::UnsafeComponent);
    }
    let mut out = String::new();
    let mut any_kept = false;
    let mut current: Vec<char> = Vec::new();
    let ghost mut done: Seq<Seq<char>> = Seq::empty();
    let mut i: usize = 0;
    assert(s.take(0) =~= Seq::<char>::empty());
    assert(out@ =~= join_segments(kept_segments(done)));
    while i < n
        invariant
            0 <= i <= n,
            n == s.len(),
            s == raw@,
            !(s.len() > 0 && s[0] == '/'),
            path_segments(s.take(i as int)) == done.push(current@),
            forall|k: int| 0 <= k < done.len() ==> !is_parent_segment(#[trigger] done[k]),
            out@ == join_segments(kept_segments(done)),
            any_kept == (kept_segments(done).len() > 0),
        decreases n - i,
    {
        let c = raw.get_char(i);
        proof { lemma_segments_step(s, i as int); }
        if c == '/' {
            if seg_is_parent(&current) {
                proof {
                    let segs_i = path_segments(s.take(i + 1));
                    assert(segs_i == done.push(current@).push(Seq::<char>::empty()));
                    assert(segs_i[done.len() as int] == current@);
                    lemma_segments_prefix(s, i + 1, done.len() as int);
                    let segs = path_segments(s);
                    assert(is_parent_segment(segs[done.len() as int]));
                }
                return Err(ZipPathError::UnsafeComponent);
            }
            let ghost nd = done.push(current@);
            proof { assert(nd.drop_last() =~= done); }
            if !seg_is_skipped(&current) {
                append_piece(&mut out, any_kept, &current, Ghost(kept_segments(done)));
                any_kept = true;
            }
            proof {
                done = nd;
                assert(done.push(Seq::<char>::empty()) =~= path_segments(s.take(i + 1)));
            }
            current = Vec::new();
        } else {
            current.push(c);
            proof {
                assert(done.push(current@) =~= path_segments(s.take(i + 1)));
            }
        }
        i = i + 1;
    }
    assert(s.take(n as int) =~= s);
    let ghost segs = path_segments(s);
    proof {
        assert(segs.drop_last() =~= done);
        assert(segs.last() == current@);
    }
    if seg_is_parent(&current) {
        proof { assert(is_parent_segment(segs[done.len() as int])); }
        return Err(ZipPathError::UnsafeComponent);
    }
    if !seg_is_skipped(&current) {
        append_piece(&mut out, any_kept, &current, Ghost(kept_segments(done)));
    }
    proof {
        assert forall|k: int| 0 <= k < segs.len() implies !is_parent_segment(#[trigger] segs[k]) by {
            if k < done.len() {
                assert(segs[k] == done[k]);
            }
        }
    }
    Ok(out)
}


// ── Whether to fetch ─────────────────────────────────────────────────────────

/// A HEAD answer the update check accepts: any success, or 405 from a server
/// that refuses HEAD but still redirected to the build.
pub fn head_status_ok(status: u16) -> (b: bool)
    ensures
        b == ((200 <= status && status < 300) || status == 405),
{
    (200 <= status && status < 300) || status == 405
}

/// Whether the archive must be fetched: always when a redownload is asked for,
/// else unless the recorded build is the one the server now offers.
pub fn needs_download(redownload: bool, recorded_build: Option<u64>, offered_build: u64) -> (b: bool)
    ensures
        b == (redownload || recorded_build != Some(offered_build)),
{
    if redownload {
        return true;
    }
    match recorded_build {
        Some(b) => b != offered_build,
        None => true,
    }
}

} // verus!
