//! The persistent file-hash cache. An entry pairs a file's content hash with
//! the modification time and size it was computed at, and may be reused only
//! while both still match the file — a deliberate heuristic: the content
//! itself is never re-read on a hit. Deciding what to reuse and what to
//! recompute is pure; statting, reading and hashing files is the caller's
//! I/O.

use vstd::prelude::*;

verus! {

/// Mathematical view of a cache entry.
pub struct CacheEntryModel {
    pub hash: Seq<char>,
    pub mtime_ms: u64,
    pub size: u64,
}

/// One persisted cache entry: the hex content hash, and the file's
/// modification time (milliseconds since the epoch) and size (bytes) at the
/// time of hashing.
#[derive(Clone, Debug, PartialEq, Eq)]
pub struct HashCacheEntry {
    pub hash: String,
    pub mtime_ms: u64,
    pub size: u64,
}

impl View for HashCacheEntry {
    type V = CacheEntryModel;

    open spec fn view(&self) -> CacheEntryModel {
        CacheEntryModel { hash: self.hash@, mtime_ms: self.mtime_ms, size: self.size }
    }
}

impl DeepView for HashCacheEntry {
    type V = CacheEntryModel;

    open spec fn deep_view(&self) -> CacheEntryModel {
        self.view()
    }
}

/// A file's current modification time (milliseconds since the epoch) and
/// size (bytes), as reported by the filesystem.
#[derive(Clone, Copy, Debug, PartialEq, Eq, Structural)]
pub struct StatInfo {
    pub mtime_ms: u64,
    pub size: u64,
}

impl View for StatInfo {
    type V = StatInfo;

    open spec fn view(&self) -> StatInfo {
        *self
    }
}

impl DeepView for StatInfo {
    type V = StatInfo;

    open spec fn deep_view(&self) -> StatInfo {
        *self
    }
}

/// A cache entry is valid for a file exactly when it holds a hash and both
/// the recorded modification time and the recorded size equal the file's
/// current ones. The file's content does not enter the decision.
pub open spec fn cache_valid_spec(e: CacheEntryModel, mtime_ms: u64, size: u64) -> bool {
    e.hash.len() > 0 && e.mtime_ms == mtime_ms && e.size == size
}

/// Whether a cached hash may be reused for a file with the given current
/// modification time and size.
pub fn cache_entry_valid(e: &HashCacheEntry, mtime_ms: u64, size: u64) -> (r: bool)
    ensures
        r == cache_valid_spec(e@, mtime_ms, size),
{
    !e.hash.as_str().is_empty() && e.mtime_ms == mtime_ms && e.size == size
}

/// First value stored under a key in an association list, if any.
pub open spec fn lookup_assoc<V>(m: Seq<(Seq<char>, V)>, k: Seq<char>) -> Option<V>
    decreases m.len(),
{
    if m.len() == 0 {
        None
    } else if m[0].0 == k {
        Some(m[0].1)
    } else {
        lookup_assoc(m.drop_first(), k)
    }
}

/// A key absent from a prefix is found in the rest.
proof fn lemma_lookup_skip<V>(m: Seq<(Seq<char>, V)>, k: Seq<char>, i: int)
    requires
        0 <= i <= m.len(),
        forall|j: int| 0 <= j < i ==> m[j].0 != k,
    ensures
        lookup_assoc(m, k) == lookup_assoc(m.skip(i), k),
    decreases i,
{
    if i > 0 {
        lemma_lookup_skip(m.drop_first(), k, i - 1);
        assert(m.drop_first().skip(i - 1) =~= m.skip(i));
    } else {
        assert(m.skip(0) =~= m);
    }
}

/// The deep view of a vector, element by element.
pub proof fn lemma_vec_deep_view<T: DeepView>(v: Vec<T>)
    ensures
        v.deep_view().len() == v@.len(),
        forall|k: int| 0 <= k < v@.len() ==> v.deep_view()[k] == v@[k].deep_view(),
{
}

/// Find the first value stored under a key.
pub fn find_assoc<'a, V: DeepView>(cache: &'a Vec<(String, V)>, key: &String) -> (r: Option<&'a V>)
    ensures
        match r {
            Option::None => lookup_assoc(cache.deep_view(), key@) is None,
            Option::Some(e) => lookup_assoc(cache.deep_view(), key@) == Some(e.deep_view()),
        },
{
    proof {
        lemma_vec_deep_view(*cache);
    }
    let n = cache.len();
    for j in 0..n
        invariant
            n == cache@.len(),
            cache.deep_view().len() == n,
            forall|k: int| 0 <= k < n ==> cache.deep_view()[k] == cache@[k].deep_view(),
            forall|k: int| 0 <= k < j ==> cache.deep_view()[k].0 != key@,
    {
        proof {
            assert(cache.deep_view()[j as int].0 == cache@[j as int].0@);
            assert(cache.deep_view()[j as int].1 == cache@[j as int].1.deep_view());
        }
        if cache[j].0 == *key {
            proof {
                lemma_lookup_skip(cache.deep_view(), key@, j as int);
                assert(cache.deep_view().skip(j as int)[0] == cache.deep_view()[j as int]);
                assert(cache.deep_view().skip(j as int).len() > 0);
            }
            return Some(&cache[j].1);
        }
    }
    proof {
        lemma_lookup_skip(cache.deep_view(), key@, n as int);
        assert(cache.deep_view().skip(n as int) =~= Seq::<(Seq<char>, V::V)>::empty());
    }
    None
}

/// A path has a valid cache entry for its current stat values.
pub open spec fn hit_spec(
    cache: Seq<(Seq<char>, CacheEntryModel)>,
    p: Seq<char>,
    st: StatInfo,
) -> bool {
    lookup_assoc(cache, p) matches Some(e) && cache_valid_spec(e, st.mtime_ms, st.size)
}

/// The path-to-hash pairs the cache refresh may reuse: the paths that exist
/// (their stat succeeded) and hold a valid cache entry, each with its cached
/// hash, in input order.
pub open spec fn reused_spec(
    items: Seq<(Seq<char>, Option<StatInfo>)>,
    cache: Seq<(Seq<char>, CacheEntryModel)>,
) -> Seq<(Seq<char>, Seq<char>)>
    decreases items.len(),
{
    if items.len() == 0 {
        seq![]
    } else {
        let prev = reused_spec(items.drop_last(), cache);
        let it = items.last();
        if it.1 is Some && hit_spec(cache, it.0, it.1.unwrap()) {
            prev.push((it.0, lookup_assoc(cache, it.0).unwrap().hash))
        } else {
            prev
        }
    }
}

/// The paths whose hash must be recomputed: those that exist but have no
/// valid cache entry, in input order. Paths whose stat failed are in neither
/// list: a missing file's hash is simply absent downstream.
pub open spec fn to_hash_spec(
    items: Seq<(Seq<char>, Option<StatInfo>)>,
    cache: Seq<(Seq<char>, CacheEntryModel)>,
) -> Seq<Seq<char>>
    decreases items.len(),
{
    if items.len() == 0 {
        seq![]
    } else {
        let prev = to_hash_spec(items.drop_last(), cache);
        let it = items.last();
        if it.1 is Some && !hit_spec(cache, it.0, it.1.unwrap()) {
            prev.push(it.0)
        } else {
            prev
        }
    }
}

/// The outcome of planning a cache refresh: hashes safely reused from the
/// cache, and paths whose hash must be recomputed.
pub struct RefreshPlan {
    pub reused: Vec<(String, String)>,
    pub to_hash: Vec<String>,
}

/// Decide, for every unique path with its current stat (or `None` where the
/// stat failed), whether its cached hash may be reused or the file must be
/// rehashed. Pure: the caller stats the files and hashes the planned ones.
pub fn plan_hash_refresh(
    items: &Vec<(String, Option<StatInfo>)>,
    cache: &Vec<(String, HashCacheEntry)>,
) -> (plan: RefreshPlan)
    ensures
        plan.reused.deep_view() == reused_spec(items.deep_view(), cache.deep_view()),
        plan.to_hash.deep_view() == to_hash_spec(items.deep_view(), cache.deep_view()),
{
    let ghost im = items.deep_view();
    let ghost cm = cache.deep_view();
    proof {
        lemma_vec_deep_view(*items);
    }
    let n = items.len();
    let mut reused: Vec<(String, String)> = Vec::new();
    let mut to_hash: Vec<String> = Vec::new();
    proof {
        assert(im.take(0) =~= Seq::<(Seq<char>, Option<StatInfo>)>::empty());
        lemma_vec_deep_view(reused);
        lemma_vec_deep_view(to_hash);
        assert(reused.deep_view() =~= reused_spec(im.take(0), cm));
        assert(to_hash.deep_view() =~= to_hash_spec(im.take(0), cm));
    }
    for i in 0..n
        invariant
            n == items@.len(),
            im == items.deep_view(),
            cm == cache.deep_view(),
            im.len() == n,
            forall|k: int| 0 <= k < n ==> im[k] == items@[k].deep_view(),
            reused.deep_view() == reused_spec(im.take(i as int), cm),
            to_hash.deep_view() == to_hash_spec(im.take(i as int), cm),
    {
        proof {
            assert(im.take(i + 1).drop_last() =~= im.take(i as int));
            assert(im.take(i + 1).last() == im[i as int]);
        }
        match &items[i].1 {
            Option::Some(st) => {
                let key = &items[i].0;
                let mut hit = false;
                match find_assoc(cache, key) {
                    Option::Some(e) => {
                        if cache_entry_valid(e, st.mtime_ms, st.size) {
                            hit = true;
                            let ghost rd = reused.deep_view();
                            let pair = (key.clone(), e.hash.clone());
                            proof {
                                lemma_vec_deep_view(reused);
                            }
                            reused.push(pair);
                            proof {
                                lemma_vec_deep_view(reused);
                                assert(reused.deep_view() =~= rd.push((key@, e@.hash)));
                            }
                        }
                    },
                    Option::None => {},
                }
                if !hit {
                    let ghost td = to_hash.deep_view();
                    proof {
                        lemma_vec_deep_view(to_hash);
                    }
                    to_hash.push(key.clone());
                    proof {
                        lemma_vec_deep_view(to_hash);
                        assert(to_hash.deep_view() =~= td.push(key@));
                    }
                }
            },
            Option::None => {},
        }
    }
    proof {
        assert(im.take(n as int) =~= im);
    }
    RefreshPlan { reused, to_hash }
}

/// The pairs whose hashing succeeded, in order.
pub open spec fn hashed_ok_spec(hs: Seq<(Seq<char>, Option<Seq<char>>)>) -> Seq<
    (Seq<char>, Seq<char>),
>
    decreases hs.len(),
{
    if hs.len() == 0 {
        seq![]
    } else {
        let prev = hashed_ok_spec(hs.drop_last());
        let it = hs.last();
        if it.1 is Some {
            prev.push((it.0, it.1.unwrap()))
        } else {
            prev
        }
    }
}

/// Combine the reused hashes with the recomputation results (`None` where
/// reading or hashing a file failed: that path stays hash-less, the run goes
/// on) into the final path-to-hash map of the run.
pub fn build_hash_map(reused: &Vec<(String, String)>, hashed: &Vec<(String, Option<String>)>) -> (r:
    Vec<(String, String)>)
    ensures
        r.deep_view() == reused.deep_view() + hashed_ok_spec(hashed.deep_view()),
{
    let ghost rm = reused.deep_view();
    let ghost hm = hashed.deep_view();
    proof {
        lemma_vec_deep_view(*reused);
        lemma_vec_deep_view(*hashed);
    }
    let mut r: Vec<(String, String)> = Vec::new();
    let n = reused.len();
    for i in 0..n
        invariant
            n == reused@.len(),
            rm == reused.deep_view(),
            rm.len() == n,
            forall|k: int| 0 <= k < n ==> rm[k] == reused@[k].deep_view(),
            r.deep_view() == rm.take(i as int),
    {
        let ghost rd = r.deep_view();
        proof {
            lemma_vec_deep_view(r);
        }
        r.push((reused[i].0.clone(), reused[i].1.clone()));
        proof {
            lemma_vec_deep_view(r);
            assert(r.deep_view() =~= rd.push(rm[i as int]));
            assert(rd.push(rm[i as int]) =~= rm.take(i + 1));
        }
    }
    proof {
        assert(rm.take(n as int) =~= rm);
        assert(hm.take(0) =~= Seq::<(Seq<char>, Option<Seq<char>>)>::empty());
        assert(r.deep_view() =~= rm + hashed_ok_spec(hm.take(0)));
    }
    let m = hashed.len();
    for i in 0..m
        invariant
            m == hashed@.len(),
            hm == hashed.deep_view(),
            hm.len() == m,
            forall|k: int| 0 <= k < m ==> hm[k] == hashed@[k].deep_view(),
            r.deep_view() == rm + hashed_ok_spec(hm.take(i as int)),
    {
        proof {
            assert(hm.take(i + 1).drop_last() =~= hm.take(i as int));
            assert(hm.take(i + 1).last() == hm[i as int]);
        }
        match &hashed[i].1 {
            Option::Some(h) => {
                let ghost rd = r.deep_view();
                proof {
                    lemma_vec_deep_view(r);
                }
                r.push((hashed[i].0.clone(), h.clone()));
                proof {
                    lemma_vec_deep_view(r);
                    assert(r.deep_view() =~= rd.push((hm[i as int].0, hm[i as int].1.unwrap())));
                    assert(rd.push((hm[i as int].0, hm[i as int].1.unwrap())) =~= rm
                        + hashed_ok_spec(hm.take(i + 1)));
                }
            },
            Option::None => {},
        }
    }
    proof {
        assert(hm.take(m as int) =~= hm);
    }
    r
}

/// The association list with one key set to a value: replaced in place where
/// the key exists, appended where it does not.
pub open spec fn upsert_one(
    m: Seq<(Seq<char>, CacheEntryModel)>,
    k: Seq<char>,
    v: CacheEntryModel,
) -> Seq<(Seq<char>, CacheEntryModel)>
    decreases m.len(),
{
    if m.len() == 0 {
        seq![(k, v)]
    } else if m[0].0 == k {
        seq![(k, v)] + m.drop_first()
    } else {
        seq![m[0]] + upsert_one(m.drop_first(), k, v)
    }
}

/// All updates applied in order.
pub open spec fn upsert_all(
    m: Seq<(Seq<char>, CacheEntryModel)>,
    updates: Seq<(Seq<char>, CacheEntryModel)>,
) -> Seq<(Seq<char>, CacheEntryModel)>
    decreases updates.len(),
{
    if updates.len() == 0 {
        m
    } else {
        upsert_all(upsert_one(m, updates[0].0, updates[0].1), updates.drop_first())
    }
}

/// Setting a key changes that key's value and nothing else.
pub proof fn lemma_upsert_lookup(
    m: Seq<(Seq<char>, CacheEntryModel)>,
    k: Seq<char>,
    v: CacheEntryModel,
    k2: Seq<char>,
)
    ensures
        lookup_assoc(upsert_one(m, k, v), k2) == (if k2 == k {
            Some(v)
        } else {
            lookup_assoc(m, k2)
        }),
    decreases m.len(),
{
    if m.len() == 0 {
        let u = seq![(k, v)];
        assert(upsert_one(m, k, v) == u);
        if k2 == k {
            assert(lookup_assoc(u, k2) == Some(v));
        } else {
            assert(u.drop_first() =~= Seq::<(Seq<char>, CacheEntryModel)>::empty());
            assert(lookup_assoc(u.drop_first(), k2) is None);
            assert(lookup_assoc(u, k2) is None);
        }
    } else if m[0].0 == k {
        let u = seq![(k, v)] + m.drop_first();
        assert(upsert_one(m, k, v) == u);
        assert(u[0] == (k, v));
        if k2 == k {
            assert(lookup_assoc(u, k2) == Some(v));
        } else {
            assert(u.drop_first() =~= m.drop_first());
            assert(lookup_assoc(u, k2) == lookup_assoc(m.drop_first(), k2));
            assert(lookup_assoc(m, k2) == lookup_assoc(m.drop_first(), k2));
        }
    } else {
        lemma_upsert_lookup(m.drop_first(), k, v, k2);
        let u = seq![m[0]] + upsert_one(m.drop_first(), k, v);
        assert(upsert_one(m, k, v) == u);
        assert(u[0] == m[0]);
        assert(u.drop_first() =~= upsert_one(m.drop_first(), k, v));
        if k2 == m[0].0 {
            assert(lookup_assoc(u, k2) == Some(m[0].1));
            assert(lookup_assoc(m, k2) == Some(m[0].1));
        } else {
            assert(lookup_assoc(u, k2) == lookup_assoc(upsert_one(m.drop_first(), k, v), k2));
            assert(lookup_assoc(m, k2) == lookup_assoc(m.drop_first(), k2));
        }
    }
}

/// Replacing the entry at the first position holding the key is the upsert.
proof fn lemma_upsert_at(
    m: Seq<(Seq<char>, CacheEntryModel)>,
    k: Seq<char>,
    v: CacheEntryModel,
    j: int,
)
    requires
        0 <= j < m.len(),
        forall|l: int| 0 <= l < j ==> m[l].0 != k,
        m[j].0 == k,
    ensures
        upsert_one(m, k, v) == m.update(j, (k, v)),
    decreases j,
{
    if j == 0 {
        assert(seq![(k, v)] + m.drop_first() =~= m.update(0, (k, v)));
    } else {
        lemma_upsert_at(m.drop_first(), k, v, j - 1);
        assert(seq![m[0]] + m.drop_first().update(j - 1, (k, v)) =~= m.update(j, (k, v)));
    }
}

/// Appending is the upsert when the key is absent.
proof fn lemma_upsert_absent(m: Seq<(Seq<char>, CacheEntryModel)>, k: Seq<char>, v: CacheEntryModel)
    requires
        forall|l: int| 0 <= l < m.len() ==> m[l].0 != k,
    ensures
        upsert_one(m, k, v) == m.push((k, v)),
    decreases m.len(),
{
    if m.len() == 0 {
        assert(seq![(k, v)] =~= m.push((k, v)));
    } else {
        lemma_upsert_absent(m.drop_first(), k, v);
        assert(seq![m[0]] + m.drop_first().push((k, v)) =~= m.push((k, v)));
    }
}

/// Write every freshly known hash back into the cache: existing keys are
/// replaced, new keys appended; entries for paths this run did not touch
/// stay.
pub fn update_disk_cache(
    cache: &mut Vec<(String, HashCacheEntry)>,
    updates: &Vec<(String, HashCacheEntry)>,
)
    ensures
        final(cache).deep_view() == upsert_all(old(cache).deep_view(), updates.deep_view()),
{
    let ghost um = updates.deep_view();
    let ghost m0 = cache.deep_view();
    proof {
        lemma_vec_deep_view(*updates);
        assert(um.skip(0) =~= um);
    }
    let n = updates.len();
    for i in 0..n
        invariant
            n == updates@.len(),
            um == updates.deep_view(),
            um.len() == n,
            forall|k: int| 0 <= k < n ==> um[k] == updates@[k].deep_view(),
            upsert_all(m0, um) == upsert_all(cache.deep_view(), um.skip(i as int)),
    {
        let ghost cm = cache.deep_view();
        proof {
            lemma_vec_deep_view(*cache);
            assert(um.skip(i as int)[0] == um[i as int]);
            assert(um.skip(i as int).drop_first() =~= um.skip(i + 1));
        }
        let key = &updates[i].0;
        let val = &updates[i].1;
        let cn = cache.len();
        let mut j: usize = 0;
        let mut found = false;
        while j < cn && !found
            invariant
                cn == cache@.len(),
                cm == cache.deep_view(),
                cm.len() == cn,
                forall|k: int| 0 <= k < cn ==> cm[k] == cache@[k].deep_view(),
                0 <= j <= cn,
                !found ==> forall|l: int| 0 <= l < j ==> cm[l].0 != key@,
                found ==> (j < cn && cm[j as int].0 == key@ && (forall|l: int|
                    0 <= l < j ==> cm[l].0 != key@)),
            decreases cn - j, (if found { 0int } else { 1int }),
        {
            proof {
                assert(cm[j as int].0 == cache@[j as int].0@);
            }
            if cache[j].0 == *key {
                found = true;
            } else {
                j += 1;
            }
        }
        if found {
            proof {
                lemma_upsert_at(cm, key@, val@, j as int);
            }
            let fresh = HashCacheEntry { hash: val.hash.clone(), mtime_ms: val.mtime_ms, size: val.size };
            cache.set(j, (key.clone(), fresh));
            proof {
                lemma_vec_deep_view(*cache);
                assert forall|k: int| 0 <= k < cache@.len() implies cache.deep_view()[k]
                    == cm.update(j as int, (key@, val@))[k] by {
                    assert(cache.deep_view()[k] == cache@[k].deep_view());
                }
                assert(cache.deep_view() =~= cm.update(j as int, (key@, val@)));
            }
        } else {
            proof {
                lemma_upsert_absent(cm, key@, val@);
            }
            let fresh = HashCacheEntry { hash: val.hash.clone(), mtime_ms: val.mtime_ms, size: val.size };
            cache.push((key.clone(), fresh));
            proof {
                lemma_vec_deep_view(*cache);
                assert forall|k: int| 0 <= k < cache@.len() implies cache.deep_view()[k]
                    == cm.push((key@, val@))[k] by {
                    assert(cache.deep_view()[k] == cache@[k].deep_view());
                }
                assert(cache.deep_view() =~= cm.push((key@, val@)));
            }
        }
    }
    proof {
        assert(um.skip(n as int) =~= Seq::<(Seq<char>, CacheEntryModel)>::empty());
    }
}

/// Law: a cache hit returns the stored hash on matching modification time
/// and size alone — the file's current content is no input to the decision,
/// so a file rewritten with identical mtime and size yields the stale cached
/// hash.
pub proof fn lemma_cache_hit_reuses_stored_hash(
    p: Seq<char>,
    st: StatInfo,
    cache: Seq<(Seq<char>, CacheEntryModel)>,
)
    requires
        lookup_assoc(cache, p) matches Some(e) && cache_valid_spec(e, st.mtime_ms, st.size),
    ensures
        reused_spec(seq![(p, Some(st))], cache) == seq![
            (p, lookup_assoc(cache, p).unwrap().hash),
        ],
        to_hash_spec(seq![(p, Some(st))], cache) == Seq::<Seq<char>>::empty(),
{
    let items = seq![(p, Some(st))];
    assert(items.drop_last() =~= Seq::<(Seq<char>, Option<StatInfo>)>::empty());
    assert(items.last() == (p, Some(st)));
    assert(reused_spec(items.drop_last(), cache) =~= Seq::<(Seq<char>, Seq<char>)>::empty());
    assert(to_hash_spec(items.drop_last(), cache) =~= Seq::<Seq<char>>::empty());
    assert(reused_spec(items.drop_last(), cache).push((p, lookup_assoc(cache, p).unwrap().hash))
        =~= seq![(p, lookup_assoc(cache, p).unwrap().hash)]);
    assert(to_hash_spec(items, cache) =~= Seq::<Seq<char>>::empty());
}

/// Law: a changed size or modification time (or a hash-less entry)
/// invalidates the cache entry and forces recomputation of the file's hash.
pub proof fn lemma_cache_invalidation(
    p: Seq<char>,
    st: StatInfo,
    cache: Seq<(Seq<char>, CacheEntryModel)>,
)
    requires
        lookup_assoc(cache, p) matches Some(e) && (e.mtime_ms != st.mtime_ms || e.size != st.size
            || e.hash.len() == 0),
    ensures
        to_hash_spec(seq![(p, Some(st))], cache) == seq![p],
        reused_spec(seq![(p, Some(st))], cache) == Seq::<(Seq<char>, Seq<char>)>::empty(),
{
    let items = seq![(p, Some(st))];
    assert(items.drop_last() =~= Seq::<(Seq<char>, Option<StatInfo>)>::empty());
    assert(items.last() == (p, Some(st)));
    assert(reused_spec(items.drop_last(), cache) =~= Seq::<(Seq<char>, Seq<char>)>::empty());
    assert(to_hash_spec(items.drop_last(), cache) =~= Seq::<Seq<char>>::empty());
    assert(to_hash_spec(items.drop_last(), cache).push(p) =~= seq![p]);
    assert(reused_spec(items, cache) =~= Seq::<(Seq<char>, Seq<char>)>::empty());
}

} // verus!
