use vstd::prelude::*;
use crate::text::{
    bytes_eq, bytes_lt, ends_with, find, find_exec, has_prefix, has_suffix, lex_lt,
    slice_of, starts_with, to_vec,
};
use crate::config::utf8;
use crate::models::{CommonPrefix, ListObjectsV2Result, ListV2Query, Object};

verus! {

/// A file of a bucket: its path relative to the bucket directory, and its size.
pub open spec fn entry_views(es: Seq<(Vec<u8>, u64)>) -> Seq<(Seq<u8>, u64)> {
    es.map_values(|e: (Vec<u8>, u64)| (e.0@, e.1))
}

/// The suffix that marks a metadata sidecar.
pub open spec fn sidecar_suffix() -> Seq<u8> {
    utf8(".meta.json"@)
}

/// A file that lists as an object: not a sidecar, under the prefix, after the marker.
pub open spec fn is_candidate(key: Seq<u8>, prefix: Seq<u8>, marker: Seq<u8>) -> bool {
    !ends_with(key, sidecar_suffix()) && starts_with(key, prefix) && (marker.len() == 0 || lex_lt(marker, key))
}

/// Where an entry with key `k` goes: before the first entry with a larger key.
pub open spec fn key_pos(cs: Seq<(Seq<u8>, u64)>, k: Seq<u8>) -> int
    decreases cs.len(),
{
    if cs.len() == 0 || lex_lt(k, cs[0].0) {
        0
    } else {
        1 + key_pos(cs.drop_first(), k)
    }
}

/// The candidate entries, in ascending order of key.
pub open spec fn candidates(es: Seq<(Seq<u8>, u64)>, prefix: Seq<u8>, marker: Seq<u8>) -> Seq<(Seq<u8>, u64)>
    decreases es.len(),
{
    if es.len() == 0 {
        Seq::empty()
    } else {
        let cs = candidates(es.drop_last(), prefix, marker);
        let e = es.last();
        if is_candidate(e.0, prefix, marker) {
            cs.insert(key_pos(cs, e.0), e)
        } else {
            cs
        }
    }
}

/// Collection stops once `max` entries have been emitted.
pub open spec fn page_full(n: int, max: int) -> bool {
    n >= max
}

/// The common prefix that a key collapses into, if the delimiter occurs after the prefix.
pub open spec fn collapsed(key: Seq<u8>, prefix: Seq<u8>, delimiter: Option<Seq<u8>>) -> Option<Seq<u8>> {
    match delimiter {
        Some(d) => match find(key.subrange(prefix.len() as int, key.len() as int), d) {
            Some(i) => Some(key.subrange(0, prefix.len() + i + d.len())),
            None => None,
        },
        None => None,
    }
}

/// Contents and common prefixes after walking the candidates in order.
pub open spec fn walk(cs: Seq<(Seq<u8>, u64)>, prefix: Seq<u8>, delimiter: Option<Seq<u8>>, max: int) -> (
    Seq<(Seq<u8>, u64)>,
    Seq<Seq<u8>>,
)
    decreases cs.len(),
{
    if cs.len() == 0 {
        (Seq::empty(), Seq::empty())
    } else {
        let (c, p) = walk(cs.drop_last(), prefix, delimiter, max);
        let e = cs.last();
        if page_full(c.len() as int, max) {
            (c, p)
        } else {
            match collapsed(e.0, prefix, delimiter) {
                Some(cp) => if p.contains(cp) {
                    (c, p)
                } else {
                    (c, p.push(cp))
                },
                None => (c.push(e), p),
            }
        }
    }
}

/// `max-keys`, 1000 where absent, and kept between 0 and 1000.
pub open spec fn effective_max(q: Option<i32>) -> i32 {
    match q {
        Some(m) => if m < 0 { 0 } else if m < 1000 { m } else { 1000 },
        None => 1000,
    }
}

/// The value, or the empty string where there is none.
pub open spec fn or_empty(o: Option<Vec<u8>>) -> Seq<u8> {
    match o {
        Some(v) => v@,
        None => Seq::empty(),
    }
}

/// The key to start after: the continuation token when given, else `start-after`.
pub open spec fn start_marker(q: ListV2Query) -> Seq<u8> {
    if or_empty(q.continuation_token).len() > 0 {
        or_empty(q.continuation_token)
    } else {
        or_empty(q.start_after)
    }
}

/// The query's delimiter as a byte string.
pub open spec fn delimiter_of(q: ListV2Query) -> Option<Seq<u8>> {
    match q.delimiter {
        Some(d) => Some(d@),
        None => None,
    }
}

/// The page a query selects from a bucket's files: (contents, common prefixes).
pub open spec fn page_of(q: ListV2Query, es: Seq<(Seq<u8>, u64)>) -> (Seq<(Seq<u8>, u64)>, Seq<Seq<u8>>) {
    let prefix = or_empty(q.prefix);
    walk(candidates(es, prefix, start_marker(q)), prefix, delimiter_of(q), effective_max(q.max_keys) as int)
}

/// The (key, size) of each listed object.
pub open spec fn content_views(os: Seq<Object>) -> Seq<(Seq<u8>, u64)> {
    os.map_values(|o: Object| (o.key@, o.size))
}

/// The prefix of each common prefix.
pub open spec fn prefix_views(ps: Seq<CommonPrefix>) -> Seq<Seq<u8>> {
    ps.map_values(|p: CommonPrefix| p.prefix@)
}

fn key_pos_exec(cs: &Vec<(Vec<u8>, u64)>, k: &[u8]) -> (r: usize)
    ensures
        r as int == key_pos(entry_views(cs@), k@),
        r <= cs@.len(),
{
    let ghost vs = entry_views(cs@);
    let mut i: usize = 0;
    assert(vs.subrange(0, vs.len() as int) =~= vs);
    while i < cs.len()
        invariant
            i <= cs@.len(),
            vs == entry_views(cs@),
            key_pos(vs, k@) == i + key_pos(vs.subrange(i as int, vs.len() as int), k@),
        decreases cs.len() - i,
    {
        assert(vs.subrange(i as int, vs.len() as int).drop_first() =~= vs.subrange(i + 1, vs.len() as int));
        if bytes_lt(k, cs[i].0.as_slice()) {
            return i;
        }
        i = i + 1;
    }
    i
}

fn is_candidate_exec(key: &[u8], prefix: &[u8], marker: &[u8]) -> (r: bool)
    ensures
        r == is_candidate(key@, prefix@, marker@),
{
    let suffix = ".meta.json".as_bytes_vec();
    !has_suffix(key, suffix.as_slice()) && has_prefix(key, prefix) && (marker.len() == 0 || bytes_lt(marker, key))
}

/// The files that list as objects under `prefix` after `marker`, sorted by key.
pub fn select_candidates(entries: &Vec<(Vec<u8>, u64)>, prefix: &[u8], marker: &[u8]) -> (r: Vec<(Vec<u8>, u64)>)
    ensures
        entry_views(r@) == candidates(entry_views(entries@), prefix@, marker@),
{
    let ghost es = entry_views(entries@);
    let mut cs: Vec<(Vec<u8>, u64)> = Vec::new();
    let mut i: usize = 0;
    assert(es.subrange(0, 0) =~= Seq::<(Seq<u8>, u64)>::empty());
    assert(entry_views(cs@) =~= Seq::<(Seq<u8>, u64)>::empty());
    while i < entries.len()
        invariant
            i <= entries@.len(),
            es == entry_views(entries@),
            entry_views(cs@) == candidates(es.subrange(0, i as int), prefix@, marker@),
        decreases entries.len() - i,
    {
        assert(es.subrange(0, i + 1).drop_last() =~= es.subrange(0, i as int));
        if is_candidate_exec(entries[i].0.as_slice(), prefix, marker) {
            let pos = key_pos_exec(&cs, entries[i].0.as_slice());
            let e = (to_vec(entries[i].0.as_slice()), entries[i].1);
            let ghost before = entry_views(cs@);
            let ghost ev = (e.0@, e.1);
            cs.insert(pos, e);
            assert(entry_views(cs@) =~= before.insert(pos as int, ev));
        }
        i = i + 1;
    }
    assert(es.subrange(0, i as int) =~= es);
    cs
}

fn collapsed_exec(key: &[u8], prefix: &[u8], delimiter: &Option<Vec<u8>>) -> (r: Option<Vec<u8>>)
    requires
        starts_with(key@, prefix@),
    ensures
        match r {
            Some(v) => collapsed(key@, prefix@, match *delimiter { Some(d) => Some(d@), None => None }) == Some(v@),
            None => collapsed(key@, prefix@, match *delimiter { Some(d) => Some(d@), None => None }) is None,
        },
{
    match delimiter {
        Some(d) => {
            let rest = slice_of(key, prefix.len(), key.len());
            match find_exec(rest.as_slice(), d.as_slice()) {
                Some(i) => {
                    assert(crate::text::occurs_at(rest@, d@, i as int));
                    let n = key.len();
                    assert(prefix.len() + i + d.len() <= n);
                    Some(slice_of(key, 0, prefix.len() + i + d.len()))
                },
                None => None,
            }
        },
        None => None,
    }
}

fn contains_prefix(ps: &Vec<CommonPrefix>, x: &[u8]) -> (r: bool)
    ensures
        r == prefix_views(ps@).contains(x@),
{
    let mut i: usize = 0;
    while i < ps.len()
        invariant
            i <= ps@.len(),
            forall|j: int| 0 <= j < i ==> prefix_views(ps@)[j] != x@,
        decreases ps.len() - i,
    {
        if bytes_eq(ps[i].prefix.as_slice(), x) {
            assert(prefix_views(ps@)[i as int] == x@);
            return true;
        }
        i = i + 1;
    }
    false
}

/// Every candidate is a non-sidecar key under the prefix and after the marker.
pub proof fn lemma_candidates_match(es: Seq<(Seq<u8>, u64)>, prefix: Seq<u8>, marker: Seq<u8>)
    ensures
        forall|i: int| 0 <= i < candidates(es, prefix, marker).len()
            ==> #[trigger] is_candidate(candidates(es, prefix, marker)[i].0, prefix, marker),
    decreases es.len(),
{
    if es.len() > 0 {
        lemma_candidates_match(es.drop_last(), prefix, marker);
        let cs = candidates(es.drop_last(), prefix, marker);
        if is_candidate(es.last().0, prefix, marker) {
            assert forall|i: int| 0 <= i < candidates(es, prefix, marker).len()
                implies #[trigger] is_candidate(candidates(es, prefix, marker)[i].0, prefix, marker) by {
                let p = key_pos(cs, es.last().0);
                lemma_key_pos_bound(cs, es.last().0);
                if i < p {
                    assert(candidates(es, prefix, marker)[i] == cs[i]);
                } else if i > p {
                    assert(candidates(es, prefix, marker)[i] == cs[i - 1]);
                }
            }
        }
    }
}

/// The insertion position lies within the sequence.
pub proof fn lemma_key_pos_bound(cs: Seq<(Seq<u8>, u64)>, k: Seq<u8>)
    ensures
        0 <= key_pos(cs, k) <= cs.len(),
    decreases cs.len(),
{
    if cs.len() > 0 {
        lemma_key_pos_bound(cs.drop_first(), k);
    }
}

/// Every emitted entry is one of the candidates.
pub proof fn lemma_walk_from(cs: Seq<(Seq<u8>, u64)>, prefix: Seq<u8>, delimiter: Option<Seq<u8>>, max: int)
    ensures
        forall|i: int| 0 <= i < walk(cs, prefix, delimiter, max).0.len()
            ==> #[trigger] cs.contains(walk(cs, prefix, delimiter, max).0[i]),
    decreases cs.len(),
{
    if cs.len() > 0 {
        lemma_walk_from(cs.drop_last(), prefix, delimiter, max);
        let w = walk(cs, prefix, delimiter, max);
        let w0 = walk(cs.drop_last(), prefix, delimiter, max);
        assert forall|i: int| 0 <= i < w.0.len() implies #[trigger] cs.contains(w.0[i]) by {
            if i < w0.0.len() {
                assert(w.0[i] == w0.0[i]);
                assert(cs.drop_last().contains(w0.0[i]));
                let j = choose|j: int| 0 <= j < cs.drop_last().len() && cs.drop_last()[j] == w0.0[i];
                assert(cs[j] == w.0[i]);
            } else {
                assert(w.0 == w0.0.push(cs.last()));
                assert(cs[cs.len() - 1] == w.0[i]);
            }
        }
    }
}

/// Lists one page of a bucket's objects from the bucket's files (relative path
/// and size). Sidecars are skipped; keys under `prefix` after the start marker
/// are taken in ascending order; with a delimiter after the prefix a key folds
/// into a common prefix; at most `max-keys` entries are emitted.
pub fn list_objects_v2(
    bucket: &[u8],
    q: &ListV2Query,
    entries: &Vec<(Vec<u8>, u64)>,
    now: &[u8],
) -> (r: ListObjectsV2Result)
    ensures
        content_views(r.contents@) == page_of(*q, entry_views(entries@)).0,
        prefix_views(match r.common_prefixes { Some(v) => v@, None => Seq::empty() }) == page_of(*q, entry_views(entries@)).1,
        r.common_prefixes matches Some(v) ==> v@.len() > 0,
        keys_ascending(content_views(r.contents@)),
        r.max_keys == effective_max(q.max_keys),
        r.key_count == r.contents@.len(),
        r.is_truncated == (r.contents@.len() >= effective_max(q.max_keys)),
        match r.next_continuation_token {
            Some(t) => r.is_truncated && r.contents@.len() > 0 && t@ == r.contents@.last().key@,
            None => !(r.is_truncated && r.contents@.len() > 0),
        },
        r.name@ == bucket@,
        r.prefix matches Some(p) && p@ == or_empty(q.prefix),
        match r.delimiter { Some(d) => Some(d@), None => None::<Seq<u8>> } == delimiter_of(*q),
        forall|i: int| 0 <= i < r.contents@.len() ==> (#[trigger] r.contents@[i]).last_modified@ == now@
            && r.contents@[i].etag@.len() == 0 && r.contents@[i].storage_class@ == utf8("STANDARD"@),
{
    let prefix = match &q.prefix {
        Some(p) => to_vec(p.as_slice()),
        None => Vec::new(),
    };
    let max_keys: i32 = match q.max_keys {
        Some(m) => if m < 0 { 0 } else if m < 1000 { m } else { 1000 },
        None => 1000,
    };
    let marker = match &q.continuation_token {
        Some(c) if c.len() > 0 => to_vec(c.as_slice()),
        _ => match &q.start_after {
            Some(s) => to_vec(s.as_slice()),
            None => Vec::new(),
        },
    };
    assert(prefix@ == or_empty(q.prefix));
    assert(marker@ == start_marker(*q));
    let cs = select_candidates(entries, prefix.as_slice(), marker.as_slice());
    let ghost csv = entry_views(cs@);
    let ghost dv = delimiter_of(*q);
    assert(csv.subrange(0, csv.len() as int) =~= csv);
    proof {
        lemma_candidates_match(entry_views(entries@), prefix@, marker@);
        lemma_candidates_ascending(entry_views(entries@), prefix@, marker@);
        lemma_walk_ascending(csv, prefix@, dv, max_keys as int);
    }
    let mut contents: Vec<Object> = Vec::new();
    let mut prefixes: Vec<CommonPrefix> = Vec::new();
    let mut count: usize = 0;
    let mut i: usize = 0;
    assert(csv.subrange(0, 0) =~= Seq::<(Seq<u8>, u64)>::empty());
    assert(content_views(contents@) =~= Seq::<(Seq<u8>, u64)>::empty());
    assert(prefix_views(prefixes@) =~= Seq::<Seq<u8>>::empty());
    while i < cs.len() && (count as i64) < (max_keys as i64)
        invariant
            i <= cs@.len(),
            csv == entry_views(cs@),
            csv.subrange(0, csv.len() as int) == csv,
            forall|j: int| 0 <= j < csv.len() ==> #[trigger] is_candidate(csv[j].0, prefix@, marker@),
            dv == delimiter_of(*q),
            count == contents@.len(),
            count <= 1000,
            0 <= max_keys <= 1000,
            count <= max_keys,
            max_keys == effective_max(q.max_keys),
            (content_views(contents@), prefix_views(prefixes@)) == walk(csv.subrange(0, i as int), prefix@, dv, max_keys as int),
            forall|j: int| 0 <= j < contents@.len() ==> (#[trigger] contents@[j]).last_modified@ == now@
                && contents@[j].etag@.len() == 0 && contents@[j].storage_class@ == utf8("STANDARD"@),
        decreases cs.len() - i,
    {
        assert(csv.subrange(0, i + 1).drop_last() =~= csv.subrange(0, i as int));
        assert(is_candidate(csv[i as int].0, prefix@, marker@));
        let key = cs[i].0.as_slice();
        match collapsed_exec(key, prefix.as_slice(), &q.delimiter) {
            Some(cp) => {
                if !contains_prefix(&prefixes, cp.as_slice()) {
                    let ghost before = prefix_views(prefixes@);
                    let ghost cpv = cp@;
                    prefixes.push(CommonPrefix { prefix: cp });
                    assert(prefix_views(prefixes@) =~= before.push(cpv));
                }
                i = i + 1;
            },
            None => {
                let ghost before = content_views(contents@);
                let standard = "STANDARD".as_bytes_vec();
                assert(standard@ == utf8("STANDARD"@));
                let obj = Object {
                    key: to_vec(key),
                    last_modified: to_vec(now),
                    etag: Vec::new(),
                    size: cs[i].1,
                    storage_class: standard,
                };
                assert(obj.etag@.len() == 0);
                let ghost old_contents = contents@;
                contents.push(obj);
                assert(contents@.last() == obj);
                assert forall|j: int| 0 <= j < contents@.len() implies (#[trigger] contents@[j]).last_modified@ == now@
                    && contents@[j].etag@.len() == 0 && contents@[j].storage_class@ == utf8("STANDARD"@) by {
                    if j < contents@.len() - 1 {
                        assert(contents@[j] == old_contents[j]);
                    } else {
                        assert(contents@[j] == obj);
                    }
                }
                assert(content_views(contents@) =~= before.push(csv[i as int]));
                count = count + 1;
                i = i + 1;
                assert((content_views(contents@), prefix_views(prefixes@)) == walk(csv.subrange(0, i as int), prefix@, dv, max_keys as int));
            },
        }
    }
    proof {
        if i < cs.len() {
            lemma_walk_full_stays(csv, i as int, prefix@, dv, max_keys as int);
        }
    }
    let is_truncated = count as i64 >= max_keys as i64;
    let next = if is_truncated && contents.len() > 0 {
        Some(to_vec(contents[contents.len() - 1].key.as_slice()))
    } else {
        None
    };
    let common = if prefixes.len() == 0 { None } else { Some(prefixes) };
    ListObjectsV2Result {
        name: to_vec(bucket),
        prefix: Some(prefix),
        delimiter: match &q.delimiter {
            Some(d) => Some(to_vec(d.as_slice())),
            None => None,
        },
        key_count: count as i32,
        max_keys,
        is_truncated,
        contents,
        common_prefixes: common,
        next_continuation_token: next,
    }
}

/// Once a page is full, the rest of the candidates change nothing.
pub proof fn lemma_walk_full_stays(cs: Seq<(Seq<u8>, u64)>, i: int, prefix: Seq<u8>, delimiter: Option<Seq<u8>>, max: int)
    requires
        0 <= i <= cs.len(),
        page_full(walk(cs.subrange(0, i), prefix, delimiter, max).0.len() as int, max),
    ensures
        walk(cs, prefix, delimiter, max) == walk(cs.subrange(0, i), prefix, delimiter, max),
    decreases cs.len() - i,
{
    if i < cs.len() {
        assert(cs.subrange(0, i + 1).drop_last() =~= cs.subrange(0, i));
        lemma_walk_full_stays(cs, i + 1, prefix, delimiter, max);
    } else {
        assert(cs.subrange(0, i) =~= cs);
    }
}

/// Pagination resumes strictly after the token: when a listing is resubmitted
/// with a non-empty continuation token, every key on the page sorts after it.
pub proof fn lemma_page_after_token(q: ListV2Query, es: Seq<(Seq<u8>, u64)>)
    requires
        or_empty(q.continuation_token).len() > 0,
    ensures
        forall|i: int| 0 <= i < page_of(q, es).0.len()
            ==> lex_lt(or_empty(q.continuation_token), #[trigger] page_of(q, es).0[i].0),
{
    let prefix = or_empty(q.prefix);
    let marker = start_marker(q);
    let cs = candidates(es, prefix, marker);
    lemma_candidates_match(es, prefix, marker);
    lemma_walk_from(cs, prefix, delimiter_of(q), effective_max(q.max_keys) as int);
    assert forall|i: int| 0 <= i < page_of(q, es).0.len()
        implies lex_lt(or_empty(q.continuation_token), #[trigger] page_of(q, es).0[i].0) by {
        let e = page_of(q, es).0[i];
        assert(cs.contains(e));
        let j = choose|j: int| 0 <= j < cs.len() && cs[j] == e;
        assert(is_candidate(cs[j].0, prefix, marker));
    }
}

/// Entries in ascending order of key.
pub open spec fn keys_ascending(s: Seq<(Seq<u8>, u64)>) -> bool {
    forall|i: int, j: int| 0 <= i < j < s.len() ==> !lex_lt(#[trigger] s[j].0, #[trigger] s[i].0)
}

proof fn lemma_key_pos_props(cs: Seq<(Seq<u8>, u64)>, k: Seq<u8>)
    ensures
        0 <= key_pos(cs, k) <= cs.len(),
        forall|i: int| 0 <= i < key_pos(cs, k) ==> !lex_lt(k, #[trigger] cs[i].0),
        key_pos(cs, k) < cs.len() ==> lex_lt(k, cs[key_pos(cs, k)].0),
    decreases cs.len(),
{
    if cs.len() > 0 && !lex_lt(k, cs[0].0) {
        lemma_key_pos_props(cs.drop_first(), k);
        assert forall|i: int| 0 <= i < key_pos(cs, k) implies !lex_lt(k, #[trigger] cs[i].0) by {
            if i > 0 {
                assert(cs[i] == cs.drop_first()[i - 1]);
            }
        }
    }
}

proof fn lemma_insert_ascending(cs: Seq<(Seq<u8>, u64)>, e: (Seq<u8>, u64))
    requires
        keys_ascending(cs),
    ensures
        keys_ascending(cs.insert(key_pos(cs, e.0), e)),
{
    let k = e.0;
    let p = key_pos(cs, k);
    lemma_key_pos_props(cs, k);
    let n = cs.insert(p, e);
    assert forall|i: int, j: int| 0 <= i < j < n.len() implies !lex_lt(#[trigger] n[j].0, #[trigger] n[i].0) by {
        if j < p {
            assert(n[i] == cs[i] && n[j] == cs[j]);
        } else if j == p {
            assert(n[i] == cs[i]);
        } else if i == p {
            assert(n[j] == cs[j - 1]);
            if lex_lt(cs[j - 1].0, k) {
                crate::text::lemma_lex_transitive(cs[j - 1].0, k, cs[p].0);
                if j - 1 == p {
                    crate::text::lemma_lex_irreflexive(cs[p].0);
                } else {
                    assert(!lex_lt(cs[j - 1].0, cs[p].0));
                }
            }
        } else if i < p {
            assert(n[i] == cs[i] && n[j] == cs[j - 1]);
        } else {
            assert(n[i] == cs[i - 1] && n[j] == cs[j - 1]);
        }
    }
}

/// The candidates come out in ascending order of key.
pub proof fn lemma_candidates_ascending(es: Seq<(Seq<u8>, u64)>, prefix: Seq<u8>, marker: Seq<u8>)
    ensures
        keys_ascending(candidates(es, prefix, marker)),
    decreases es.len(),
{
    if es.len() > 0 {
        lemma_candidates_ascending(es.drop_last(), prefix, marker);
        let cs = candidates(es.drop_last(), prefix, marker);
        if is_candidate(es.last().0, prefix, marker) {
            lemma_insert_ascending(cs, es.last());
        }
    }
}

/// Walking ascending candidates emits ascending contents.
pub proof fn lemma_walk_ascending(cs: Seq<(Seq<u8>, u64)>, prefix: Seq<u8>, delimiter: Option<Seq<u8>>, max: int)
    requires
        keys_ascending(cs),
    ensures
        keys_ascending(walk(cs, prefix, delimiter, max).0),
    decreases cs.len(),
{
    if cs.len() > 0 {
        let init = cs.drop_last();
        assert(keys_ascending(init)) by {
            assert forall|i: int, j: int| 0 <= i < j < init.len() implies !lex_lt(#[trigger] init[j].0, #[trigger] init[i].0) by {
                assert(init[i] == cs[i] && init[j] == cs[j]);
            }
        }
        lemma_walk_ascending(init, prefix, delimiter, max);
        lemma_walk_from(init, prefix, delimiter, max);
        let w0 = walk(init, prefix, delimiter, max);
        let w = walk(cs, prefix, delimiter, max);
        if w.0 != w0.0 {
            assert(w.0 == w0.0.push(cs.last()));
            assert forall|i: int, j: int| 0 <= i < j < w.0.len() implies !lex_lt(#[trigger] w.0[j].0, #[trigger] w.0[i].0) by {
                if j == w.0.len() - 1 {
                    assert(init.contains(w0.0[i]));
                    let m = choose|m: int| 0 <= m < init.len() && init[m] == w0.0[i];
                    assert(cs[m] == w.0[i]);
                    assert(cs[cs.len() - 1] == w.0[j]);
                } else {
                    assert(w.0[i] == w0.0[i] && w.0[j] == w0.0[j]);
                }
            }
        }
    }
}

/// A `ListObjectsV2` request with the `location` parameter is `GetBucketLocation`:
/// it is answered with the configured region alone, and no listing is made.
pub fn location_answer(cfg: &crate::config::GatewayConfig, q: &ListV2Query) -> (r: Option<Vec<u8>>)
    ensures
        r is Some <==> q.location is Some,
        r matches Some(b) ==> b@ == crate::handlers::location_spec(utf8(cfg.region@)),
{
    if q.location.is_some() {
        let region = crate::config::utf8_bytes(&cfg.region);
        Some(crate::handlers::location_constraint(region.as_slice()))
    } else {
        None
    }
}

/// The entries that list as objects, in their given order.
pub open spec fn matching(es: Seq<(Seq<u8>, u64)>, prefix: Seq<u8>, marker: Seq<u8>) -> Seq<(Seq<u8>, u64)>
    decreases es.len(),
{
    if es.len() == 0 {
        Seq::empty()
    } else if is_candidate(es.last().0, prefix, marker) {
        matching(es.drop_last(), prefix, marker).push(es.last())
    } else {
        matching(es.drop_last(), prefix, marker)
    }
}

/// The candidates are a rearrangement of the matching entries: none is lost.
pub proof fn lemma_candidates_complete(es: Seq<(Seq<u8>, u64)>, prefix: Seq<u8>, marker: Seq<u8>)
    ensures
        candidates(es, prefix, marker).to_multiset() == matching(es, prefix, marker).to_multiset(),
        forall|i: int| 0 <= i < es.len() && is_candidate(es[i].0, prefix, marker)
            ==> candidates(es, prefix, marker).contains(#[trigger] es[i]),
    decreases es.len(),
{
    if es.len() == 0 {
        assert(candidates(es, prefix, marker).to_multiset() =~= matching(es, prefix, marker).to_multiset());
    } else {
        let init = es.drop_last();
        lemma_candidates_complete(init, prefix, marker);
        let cs = candidates(init, prefix, marker);
        let e = es.last();
        if is_candidate(e.0, prefix, marker) {
            let p = key_pos(cs, e.0);
            lemma_key_pos_bound(cs, e.0);
            let n = cs.insert(p, e);
            n.to_multiset_ensures();
            matching(init, prefix, marker).to_multiset_ensures();
            assert(n.remove(p) =~= cs);
            assert(n[p] == e);
            assert(n.contains(e));
            assert(n.to_multiset() =~= cs.to_multiset().insert(e));
        }
        let c = candidates(es, prefix, marker);
        c.to_multiset_ensures();
        cs.to_multiset_ensures();
        matching(es, prefix, marker).to_multiset_ensures();
        matching(init, prefix, marker).to_multiset_ensures();
        assert forall|i: int| 0 <= i < es.len() && is_candidate(es[i].0, prefix, marker)
            implies c.contains(#[trigger] es[i]) by {
            if i < es.len() - 1 {
                assert(init[i] == es[i]);
                assert(cs.contains(es[i]));
                assert(cs.to_multiset().count(es[i]) > 0);
                if is_candidate(e.0, prefix, marker) {
                    assert(c.to_multiset().count(es[i]) >= cs.to_multiset().count(es[i]));
                }
            } else {
                let p = key_pos(cs, e.0);
                lemma_key_pos_bound(cs, e.0);
                assert(c[p] == e);
            }
        }
    }
}

/// Without a delimiter, a page is the first `max-keys` candidates in order.
pub proof fn lemma_walk_no_delimiter(cs: Seq<(Seq<u8>, u64)>, prefix: Seq<u8>, max: int)
    requires
        max >= 0,
    ensures
        walk(cs, prefix, None, max).0 == cs.take(if max < cs.len() { max } else { cs.len() as int }),
        walk(cs, prefix, None, max).1 == Seq::<Seq<u8>>::empty(),
    decreases cs.len(),
{
    if cs.len() > 0 {
        let init = cs.drop_last();
        lemma_walk_no_delimiter(init, prefix, max);
        if max < cs.len() {
            assert(init.take(max) =~= cs.take(max));
        } else {
            assert(init.take(init.len() as int) =~= init);
            assert(init.push(cs.last()) =~= cs.take(cs.len() as int));
        }
    } else {
        assert(cs.take(0) =~= Seq::<(Seq<u8>, u64)>::empty());
    }
}

/// Pagination skips nothing. Without a delimiter, a page holds the first
/// `max-keys` candidates, which are ascending by key and include every file
/// under the prefix that sorts after the start marker (the continuation token
/// when one is given), so a resubmission with the last key as token yields the
/// keys right after it, in order.
pub proof fn lemma_page_is_next_keys(q: ListV2Query, es: Seq<(Seq<u8>, u64)>)
    requires
        q.delimiter is None,
    ensures
        ({
            let cs = candidates(es, or_empty(q.prefix), start_marker(q));
            let max = effective_max(q.max_keys) as int;
            &&& page_of(q, es).0 == cs.take(if max < cs.len() { max } else { cs.len() as int })
            &&& keys_ascending(cs)
            &&& forall|i: int| 0 <= i < es.len() && is_candidate(es[i].0, or_empty(q.prefix), start_marker(q))
                ==> cs.contains(#[trigger] es[i])
        }),
{
    let prefix = or_empty(q.prefix);
    let marker = start_marker(q);
    let cs = candidates(es, prefix, marker);
    lemma_walk_no_delimiter(cs, prefix, effective_max(q.max_keys) as int);
    lemma_candidates_ascending(es, prefix, marker);
    lemma_candidates_complete(es, prefix, marker);
}

} // verus!
