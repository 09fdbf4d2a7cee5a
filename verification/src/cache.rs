//! The cache: which requests may be cached, storing responses within a byte budget,
//! and weighted eviction.
use vstd::prelude::*;
use bytes::Bytes;
use crate::body::{body_bytes, body_clone, body_len};
use crate::cache_model::{
    bucket_of, bucket_sum, cache_get, cache_insert, cache_remove, entries_bytes,
    evict_model, evict_step, evict_until, evictable_bytes, eviction_succeeds,
    has_lower_rule, held, held_below, insert_model, lemma_bucket_of, lemma_bucket_sum_all,
    lemma_bucket_sum_ge, lemma_bucket_sum_take,
    lemma_entries_bytes_push, lemma_entries_bytes_remove, lemma_evictable_le_held, shift_slots, shifted, slot_valid, unfile,
    lemma_lowest_bucket, lemma_position_of_first, lemma_some_candidate, lemma_position_of_none, lowest_bucket,
    model_wf, position_of, priorities_have_buckets, same_weights, stored_bytes, total_held, BucketModel, CacheModel, EntryModel, ItemModel,
};
use crate::config::{SiteMapEntry, Weight};
use crate::request::{
    duplicate_headers, first_value, header_value, headers_view, Header, HeaderView, RequestData,
};
use crate::text::{contains, ends_with, is_prefix, is_suffix, occurs_at, occurs_in, starts_with, string_bytes, utf8};

verus! {

// ---------------------------------------------------------------------------------
// Cache-Control: what forbids caching.

/// A byte that `HeaderValue::to_str` accepts: visible ASCII or a tab.
pub open spec fn visible_ascii(b: u8) -> bool {
    (32 <= b && b < 127) || b == 9
}

/// A header value as text: the value itself when it is visible ASCII, else empty.
pub open spec fn header_text(v: Seq<u8>) -> Seq<u8> {
    if forall|i: int| 0 <= i < v.len() ==> visible_ascii(#[trigger] v[i]) {
        v
    } else {
        seq![]
    }
}

/// The Cache-Control text contains one of the directives that forbid caching.
pub open spec fn blacklisted(text: Seq<u8>) -> bool {
    ||| occurs_in(text, utf8("no-cache"@))
    ||| occurs_in(text, utf8("no-store"@))
    ||| occurs_in(text, utf8("max-age=0"@))
    ||| occurs_in(text, utf8("private"@))
}

/// The first Cache-Control header of `hs` forbids caching.
pub open spec fn forbids_caching(hs: Seq<HeaderView>) -> bool {
    match first_value(hs, utf8("cache-control"@)) {
        Some(v) => blacklisted(header_text(v)),
        None => false,
    }
}

/// The value as text, as `HeaderValue::to_str(..).unwrap_or_default()` gives it.
fn value_text(v: &[u8]) -> (t: &[u8])
    ensures
        t@ == header_text(v@),
{
    let mut i: usize = 0;
    while i < v.len()
        invariant
            i <= v@.len(),
            forall|k: int| 0 <= k < i ==> visible_ascii(#[trigger] v@[k]),
        decreases v@.len() - i,
    {
        let b = v[i];
        if !((32 <= b && b < 127) || b == 9) {
            assert(!visible_ascii(v@[i as int]));
            assert(header_text(v@) =~= seq![]);
            return &v[0..0];
        }
        i = i + 1;
    }
    v
}

/// Whether the headers' Cache-Control forbids caching.
pub fn cache_control_forbids(headers: &Vec<Header>) -> (r: bool)
    ensures
        r == forbids_caching(headers_view(headers@)),
{
    match header_value(headers, "cache-control".as_bytes()) {
        Some(v) => {
            let t = value_text(v.as_slice());
            contains(t, "no-cache".as_bytes()) || contains(t, "no-store".as_bytes()) || contains(
                t,
                "max-age=0".as_bytes(),
            ) || contains(t, "private".as_bytes())
        },
        None => false,
    }
}

// ---------------------------------------------------------------------------------
// Sitemap rules.

/// A sitemap location covers a path: exactly, or as a prefix when it ends in `/*`.
pub open spec fn loc_matches(loc: Seq<u8>, path: Seq<u8>) -> bool {
    ||| loc == path
    ||| is_suffix(utf8("/*"@), loc) && is_prefix(loc.subrange(0, loc.len() - utf8("/*"@).len()), path)
}

/// The priority of the first rule of `sitemap` that covers `path`.
pub open spec fn first_match(sitemap: Seq<SiteMapEntry>, path: Seq<u8>) -> Option<Weight>
    decreases sitemap.len(),
{
    if sitemap.len() == 0 {
        None
    } else {
        match first_match(sitemap.drop_last(), path) {
            Some(p) => Some(p),
            None => if loc_matches(utf8(sitemap.last().loc@), path) {
                Some(sitemap.last().priority)
            } else {
                None
            },
        }
    }
}

/// Whether the location `loc` covers `path`.
pub fn location_matches(loc: &String, path: &[u8]) -> (r: bool)
    ensures
        r == loc_matches(utf8(loc@), path@),
{
    let l = string_bytes(loc);
    if crate::text::bytes_equal(l, path) {
        return true;
    }
    let suffix = "/*".as_bytes();
    if ends_with(l, suffix) {
        let prefix = &l[0..l.len() - suffix.len()];
        starts_with(path, prefix)
    } else {
        false
    }
}

/// The priority of the first rule that covers `path`.
fn matched_priority(sitemap: &Vec<SiteMapEntry>, path: &[u8]) -> (r: Option<Weight>)
    ensures
        r == first_match(sitemap@, path@),
{
    let mut i: usize = 0;
    while i < sitemap.len()
        invariant
            i <= sitemap@.len(),
            first_match(sitemap@.take(i as int), path@) is None,
        decreases sitemap@.len() - i,
    {
        assert(sitemap@.take(i + 1).drop_last() =~= sitemap@.take(i as int));
        if location_matches(&sitemap[i].loc, path) {
            proof {
                lemma_first_match_prefix(sitemap@, path@, i + 1);
            }
            return Some(sitemap[i].priority);
        }
        i = i + 1;
    }
    assert(sitemap@.take(sitemap@.len() as int) =~= sitemap@);
    None
}

/// Once a prefix of the sitemap has a match, the whole sitemap has the same one.
proof fn lemma_first_match_prefix(s: Seq<SiteMapEntry>, path: Seq<u8>, n: int)
    requires
        0 <= n <= s.len(),
        first_match(s.take(n), path) is Some,
    ensures
        first_match(s, path) == first_match(s.take(n), path),
    decreases s.len() - n,
{
    if n < s.len() {
        assert(s.take(n + 1).drop_last() =~= s.take(n));
        lemma_first_match_prefix(s, path, n + 1);
    } else {
        assert(s.take(n) =~= s);
    }
}

// ---------------------------------------------------------------------------------
// Building the handler: buckets and the priority order of the sitemap.

/// The distinct priorities of the sitemap, in order of first appearance.
pub open spec fn distinct_weights(sitemap: Seq<SiteMapEntry>) -> Seq<Weight>
    decreases sitemap.len(),
{
    if sitemap.len() == 0 {
        seq![]
    } else {
        let d = distinct_weights(sitemap.drop_last());
        if d.contains(sitemap.last().priority) {
            d
        } else {
            d.push(sitemap.last().priority)
        }
    }
}

/// An empty bucket for each weight.
pub open spec fn empty_buckets(weights: Seq<Weight>) -> Seq<BucketModel> {
    weights.map_values(|w: Weight| BucketModel { weight: w, bytes: 0, entries: seq![] })
}

/// Where an entry of priority `p` goes in a list sorted by descending priority: after
/// every entry of priority at least `p`.
pub open spec fn insert_position(sorted: Seq<SiteMapEntry>, p: Weight) -> int
    decreases sorted.len(),
{
    if sorted.len() == 0 || sorted[0].priority < p {
        0
    } else {
        1 + insert_position(sorted.drop_first(), p)
    }
}

/// The sitemap sorted by descending priority, keeping the given order among equal
/// priorities (a stable sort).
pub open spec fn sorted_by_priority(s: Seq<SiteMapEntry>) -> Seq<SiteMapEntry>
    decreases s.len(),
{
    if s.len() == 0 {
        s
    } else {
        let sorted = sorted_by_priority(s.drop_last());
        sorted.insert(insert_position(sorted, s.last().priority), s.last())
    }
}

proof fn lemma_insert_position_bounds(sorted: Seq<SiteMapEntry>, p: Weight)
    ensures
        0 <= insert_position(sorted, p) <= sorted.len(),
    decreases sorted.len(),
{
    if sorted.len() > 0 && sorted[0].priority >= p {
        lemma_insert_position_bounds(sorted.drop_first(), p);
    }
}

/// Finds where an entry of priority `p` goes in `sorted`.
fn find_insert_position(sorted: &Vec<SiteMapEntry>, p: Weight) -> (j: usize)
    ensures
        j == insert_position(sorted@, p),
{
    let mut j: usize = 0;
    assert(sorted@.skip(0) =~= sorted@);
    while j < sorted.len() && sorted[j].priority >= p
        invariant
            j <= sorted@.len(),
            insert_position(sorted@, p) == j + insert_position(sorted@.skip(j as int), p),
        decreases sorted@.len() - j,
    {
        assert(sorted@.skip(j as int).drop_first() =~= sorted@.skip(j + 1));
        j = j + 1;
    }
    j
}

/// Stable insertion sort by descending priority.
fn sort_by_priority(v: Vec<SiteMapEntry>) -> (r: Vec<SiteMapEntry>)
    ensures
        r@ == sorted_by_priority(v@),
{
    let ghost unsorted = v@;
    let mut rest = v;
    let mut sorted: Vec<SiteMapEntry> = Vec::new();
    let mut i: usize = 0;
    assert(unsorted.take(0) =~= seq![]);
    assert(unsorted.skip(0) =~= unsorted);
    let n0 = rest.len();
    assert(unsorted.len() == n0);
    while rest.len() > 0
        invariant
            unsorted.len() <= usize::MAX,
            i <= unsorted.len(),
            rest@ == unsorted.skip(i as int),
            sorted@ == sorted_by_priority(unsorted.take(i as int)),
        decreases rest@.len(),
    {
        let e = rest.remove(0);
        assert(unsorted.take(i + 1).drop_last() =~= unsorted.take(i as int));
        assert(unsorted.skip(i as int).drop_first() =~= unsorted.skip(i + 1));
        let j = find_insert_position(&sorted, e.priority);
        proof {
            lemma_insert_position_bounds(sorted@, e.priority);
        }
        sorted.insert(j, e);
        i = i + 1;
    }
    assert(unsorted.take(i as int) =~= unsorted);
    sorted
}

/// The distinct priorities of the sitemap, in order of first appearance.
fn weights_of(sitemap: &Vec<SiteMapEntry>) -> (r: Vec<Weight>)
    ensures
        r@ == distinct_weights(sitemap@),
{
    let mut weights: Vec<Weight> = Vec::new();
    let mut i: usize = 0;
    while i < sitemap.len()
        invariant
            i <= sitemap@.len(),
            weights@ == distinct_weights(sitemap@.take(i as int)),
        decreases sitemap@.len() - i,
    {
        assert(sitemap@.take(i + 1).drop_last() =~= sitemap@.take(i as int));
        let w = sitemap[i].priority;
        let mut seen = false;
        let mut k: usize = 0;
        while k < weights.len()
            invariant
                k <= weights@.len(),
                seen == (exists|m: int| 0 <= m < k && weights@[m] == w),
            decreases weights@.len() - k,
        {
            if weights[k] == w {
                seen = true;
            }
            k = k + 1;
        }
        if !seen {
            weights.push(w);
        }
        i = i + 1;
    }
    assert(sitemap@.take(sitemap@.len() as int) =~= sitemap@);
    weights
}

// ---------------------------------------------------------------------------------
// The handler.

/// A cached response: its body, its headers, and the bucket slot (bucket index, entry
/// index) where it was filed when stored.
#[derive(Debug)]
pub struct CacheItem {
    pub bytes: Bytes,
    pub headers: Vec<Header>,
    pub bucket_indexes: (usize, usize),
}

impl CacheItem {
    /// The response as values.
    pub open spec fn model(&self) -> ItemModel {
        ItemModel {
            bytes: body_bytes(self.bytes),
            headers: headers_view(self.headers@),
            slot: (self.bucket_indexes.0 as int, self.bucket_indexes.1 as int),
        }
    }

    /// A copy of the cached response; the body is shared, not copied.
    pub fn duplicate(&self) -> (r: CacheItem)
        ensures
            r.model() == self.model(),
    {
        CacheItem {
            bytes: body_clone(&self.bytes),
            headers: duplicate_headers(&self.headers),
            bucket_indexes: self.bucket_indexes,
        }
    }
}

/// How a request is to be served.
#[derive(Debug)]
pub enum PathType {
    /// A stored response answers it.
    Cached(CacheItem),
    /// The sitemap allows caching it, with this priority, but nothing is stored yet.
    Public(Weight),
    /// It must go to an upstream and its response must not be stored.
    Private,
}

/// A bucket entry: a stored request and the size of its body.
struct WeightEntry {
    key: RequestData,
    size_bytes: usize,
}

/// The entries of one priority, oldest first.
struct WeightsBucket {
    weight: Weight,
    current_bytes: usize,
    entries: Vec<WeightEntry>,
}

/// A stored response with the request it answers.
struct CacheEntry {
    key: RequestData,
    item: CacheItem,
}

spec fn entry_model(e: WeightEntry) -> EntryModel {
    EntryModel { key: e.key@, size: e.size_bytes as nat }
}

spec fn bucket_model(b: WeightsBucket) -> BucketModel {
    BucketModel {
        weight: b.weight,
        bytes: b.current_bytes as nat,
        entries: b.entries@.map_values(|e: WeightEntry| entry_model(e)),
    }
}

spec fn table_model(c: Seq<CacheEntry>) -> Seq<(crate::request::RequestView, ItemModel)> {
    c.map_values(|e: CacheEntry| (e.key@, e.item.model()))
}

spec fn buckets_model(bs: Seq<WeightsBucket>) -> Seq<BucketModel> {
    bs.map_values(|b: WeightsBucket| bucket_model(b))
}

/// The stored responses, the weight buckets and the counted bytes.
struct CacheState {
    /// The stored responses, searched in order. A request is found under any key that
    /// `request_eq` holds equal to it: same method and URI, and header maps that compare
    /// equal as the `http` crate compares them (the order of different names does not
    /// matter). That is not structural equality of `RequestData` values, and vstd
    /// specifies its `HashMap` only for keys whose `Hash` and `Eq` obey its key model,
    /// so the table is a vector with a proved lookup rather than a hashed map.
    cache: Vec<CacheEntry>,
    buckets: Vec<WeightsBucket>,
    current_bytes: usize,
}

/// Decides which requests are cached and stores responses within a byte budget,
/// evicting lower-priority entries to make room for higher-priority ones.
pub struct CacheHandler {
    state: CacheState,
    sitemap: Vec<SiteMapEntry>,
    max_bytes: usize,
}

/// The state after `try_save`: nothing when the response's Cache-Control forbids
/// caching; a plain insertion when it fits; otherwise an insertion after a successful
/// eviction, or nothing.
pub open spec fn save_model(
    m: CacheModel,
    max: nat,
    sitemap: Seq<SiteMapEntry>,
    key: crate::request::RequestView,
    body: Seq<u8>,
    headers: Seq<HeaderView>,
    w: Weight,
) -> CacheModel {
    if forbids_caching(headers) {
        m
    } else if m.current_bytes + body.len() < max {
        insert_model(m, max, key, body, headers, w)
    } else if eviction_succeeds(m, max, sitemap, body.len(), w) {
        insert_model(evict_until(m, max, body.len(), w), max, key, body, headers, w)
    } else {
        m
    }
}

impl CacheState {
    /// The state as values.
    spec fn model(&self) -> CacheModel {
        CacheModel {
            cache: table_model(self.cache@),
            buckets: buckets_model(self.buckets@),
            current_bytes: self.current_bytes as nat,
        }
    }

    /// No stored response, no bucket, nothing counted.
    fn empty() -> (st: CacheState)
        ensures
            st.model() == (CacheModel { cache: seq![], buckets: seq![], current_bytes: 0 }),
    {
        let st = CacheState { cache: Vec::new(), buckets: Vec::new(), current_bytes: 0 };
        assert(table_model(st.cache@) =~= seq![]);
        assert(buckets_model(st.buckets@) =~= seq![]);
        st
    }

    /// The position of the stored response for `key`.
    fn position(&self, key: &RequestData) -> (r: Option<usize>)
        ensures
            match r {
                Some(i) => i < self.cache@.len() && position_of(self.model().cache, key@) == Some(i as int),
                None => position_of(self.model().cache, key@) is None,
            },
    {
        let ghost c = self.model().cache;
        let mut i: usize = 0;
        while i < self.cache.len()
            invariant
                c == table_model(self.cache@),
                i <= self.cache@.len(),
                forall|j: int| 0 <= j < i ==> !crate::request::request_eq(#[trigger] c[j].0, key@),
            decreases self.cache@.len() - i,
        {
            if self.cache[i].key.same_key(key) {
                proof {
                    lemma_position_of_first(c, key@, i as int);
                }
                return Some(i);
            }
            i = i + 1;
        }
        proof {
            lemma_position_of_none(c, key@);
        }
        None
    }
}

impl CacheHandler {
    /// The state of the cache.
    pub closed spec fn model(&self) -> CacheModel {
        self.state.model()
    }

    /// The byte budget.
    pub closed spec fn max_bytes(&self) -> nat {
        self.max_bytes as nat
    }

    /// The sitemap rules, highest priority first.
    pub closed spec fn sitemap(&self) -> Seq<SiteMapEntry> {
        self.sitemap@
    }

    /// The handler's invariant, which every handler keeps: its model is well formed
    /// within its budget.
    #[verifier::type_invariant]
    pub open spec fn wf(&self) -> bool {
        model_wf(self.model(), self.max_bytes())
    }

    /// A handler with one empty bucket per distinct sitemap priority (in order of first
    /// appearance), the sitemap sorted by descending priority, and a budget of
    /// `max_memory_mb` megabytes.
    pub fn new(sitemap: Vec<SiteMapEntry>, max_memory_mb: u64) -> (h: Self)
        requires
            max_memory_mb * 1024 * 1024 <= usize::MAX,
        ensures
            h.model() == (CacheModel {
                cache: seq![],
                buckets: empty_buckets(distinct_weights(sitemap@)),
                current_bytes: 0,
            }),
            h.sitemap() == sorted_by_priority(sitemap@),
            h.max_bytes() == max_memory_mb * 1024 * 1024,
            priorities_have_buckets(h.sitemap(), h.model().buckets),
    {
        let weights = weights_of(&sitemap);
        let mut buckets: Vec<WeightsBucket> = Vec::new();
        let mut i: usize = 0;
        while i < weights.len()
            invariant
                i <= weights@.len(),
                buckets_model(buckets@) == empty_buckets(weights@.take(i as int)),
            decreases weights@.len() - i,
        {
            let nb = WeightsBucket { weight: weights[i], current_bytes: 0, entries: Vec::new() };
            assert(bucket_model(nb).entries =~= seq![]);
            let ghost before = buckets@;
            buckets.push(nb);
            proof {
                assert(buckets@ == before.push(nb));
                let lhs = buckets_model(buckets@);
                let rhs = empty_buckets(weights@.take(i + 1));
                assert(buckets_model(before).len() == before.len());
                assert(empty_buckets(weights@.take(i as int)).len() == i);
                assert(before.len() == i);
                assert(lhs.len() == i + 1);
                assert(rhs.len() == i + 1);
                assert forall|k: int| 0 <= k < lhs.len() implies lhs[k] == rhs[k] by {
                    if k < i {
                        assert(lhs[k] == buckets_model(before)[k]);
                        assert(rhs[k] == empty_buckets(weights@.take(i as int))[k]);
                    } else {
                        assert(lhs[k] == bucket_model(nb));
                    }
                }
                assert(lhs =~= rhs);
            }
            i = i + 1;
        }
        assert(weights@.take(weights@.len() as int) =~= weights@);
        let sorted_sitemap = sort_by_priority(sitemap);
        let max_bytes = (max_memory_mb * 1024 * 1024) as usize;
        let state = CacheState { cache: Vec::new(), buckets, current_bytes: 0 };
        proof {
            assert(table_model(state.cache@) =~= seq![]);
            let bs = state.model().buckets;
            assert forall|k: int| 0 <= k < bs.len() implies (#[trigger] bs[k]).bytes == entries_bytes(bs[k].entries) by {
                assert(bs[k].entries =~= seq![]);
            }
            lemma_zero_held(bs);
            assert(model_wf(state.model(), max_bytes as nat));
            lemma_sitemap_priorities_have_buckets(sitemap@);
        }
        CacheHandler { state, sitemap: sorted_sitemap, max_bytes }
    }

    /// The weights of the buckets, in order.
    pub fn bucket_weights(&self) -> (r: Vec<Weight>)
        ensures
            r@.len() == self.model().buckets.len(),
            forall|i: int| 0 <= i < r@.len() ==> r@[i] == self.model().buckets[i].weight,
    {
        let buckets = &self.state.buckets;
        let mut r: Vec<Weight> = Vec::new();
        let mut i: usize = 0;
        while i < buckets.len()
            invariant
                i <= buckets@.len(),
                r@.len() == i,
                forall|k: int| 0 <= k < i ==> r@[k] == buckets@[k].weight,
            decreases buckets@.len() - i,
        {
            r.push(buckets[i].weight);
            i = i + 1;
        }
        r
    }

    /// The bytes the cache counts as used.
    pub fn used_bytes(&self) -> (n: usize)
        ensures
            n == self.model().current_bytes,
    {
        self.state.current_bytes
    }

    /// The total size of the stored response bodies.
    pub fn stored_body_bytes(&self) -> (n: usize)
        ensures
            n == stored_bytes(self.model().cache),
    {
        proof {
            use_type_invariant(self);
            crate::cache_model::lemma_stored_within_budget(self.model(), self.max_bytes());
        }
        let cache = &self.state.cache;
        let ghost c = self.model().cache;
        let mut n: usize = 0;
        let mut i: usize = 0;
        while i < cache.len()
            invariant
                c == table_model(cache@),
                i <= cache@.len(),
                n == stored_bytes(c.take(i as int)),
                stored_bytes(c) <= usize::MAX,
            decreases cache@.len() - i,
        {
            proof {
                crate::cache_model::lemma_stored_bytes_prefix(c, i as int);
                crate::cache_model::lemma_stored_bytes_prefix(c, i + 1);
            }
            n = n + body_len(&cache[i].item.bytes);
            i = i + 1;
        }
        assert(c.len() == cache@.len());
        assert(c.take(i as int) =~= c);
        n
    }
}

impl WeightsBucket {
    /// Removes and returns the newest entry.
    fn pop_newest(&mut self) -> (e: WeightEntry)
        requires
            old(self).entries@.len() > 0,
            old(self).current_bytes == entries_bytes(bucket_model(*old(self)).entries),
        ensures
            entry_model(e) == bucket_model(*old(self)).entries.last(),
            e.size_bytes <= old(self).current_bytes,
            bucket_model(*final(self)) == (BucketModel {
                weight: old(self).weight,
                bytes: (old(self).current_bytes - e.size_bytes) as nat,
                entries: bucket_model(*old(self)).entries.drop_last(),
            }),
            final(self).current_bytes == entries_bytes(bucket_model(*final(self)).entries),
    {
        let ghost es = bucket_model(*self).entries;
        let e = self.entries.pop().unwrap();
        assert(es.drop_last() =~= self.entries@.map_values(|x: WeightEntry| entry_model(x)));
        self.current_bytes = self.current_bytes - e.size_bytes;
        e
    }

    /// Removes the entry at position `j`; returns its size.
    fn remove_at(&mut self, j: usize) -> (size: usize)
        requires
            j < old(self).entries@.len(),
            old(self).current_bytes == entries_bytes(bucket_model(*old(self)).entries),
        ensures
            size == bucket_model(*old(self)).entries[j as int].size,
            size <= old(self).current_bytes,
            bucket_model(*final(self)) == (BucketModel {
                weight: old(self).weight,
                bytes: (old(self).current_bytes - size) as nat,
                entries: bucket_model(*old(self)).entries.remove(j as int),
            }),
            final(self).current_bytes == entries_bytes(bucket_model(*final(self)).entries),
    {
        let ghost es = bucket_model(*self).entries;
        proof {
            lemma_entries_bytes_remove(es, j as int);
        }
        let e = self.entries.remove(j);
        assert(es.remove(j as int) =~= self.entries@.map_values(|x: WeightEntry| entry_model(x)));
        self.current_bytes = self.current_bytes - e.size_bytes;
        e.size_bytes
    }

    /// Files a new entry as the newest; returns its position.
    fn add(&mut self, key: RequestData, size: usize) -> (slot: usize)
        requires
            old(self).current_bytes == entries_bytes(bucket_model(*old(self)).entries),
            old(self).current_bytes + size <= usize::MAX,
        ensures
            slot == old(self).entries@.len(),
            bucket_model(*final(self)) == (BucketModel {
                weight: old(self).weight,
                bytes: (old(self).current_bytes + size) as nat,
                entries: bucket_model(*old(self)).entries.push(EntryModel { key: key@, size: size as nat }),
            }),
            final(self).current_bytes == entries_bytes(bucket_model(*final(self)).entries),
    {
        let ghost es = bucket_model(*self).entries;
        let ghost k = key@;
        self.entries.push(WeightEntry { key, size_bytes: size });
        assert(es.push(EntryModel { key: k, size: size as nat }) =~= self.entries@.map_values(
            |x: WeightEntry| entry_model(x),
        ));
        proof {
            lemma_entries_bytes_push(es, EntryModel { key: k, size: size as nat });
        }
        self.current_bytes = self.current_bytes + size;
        self.entries.len() - 1
    }
}

impl CacheState {
    /// Removes the stored response for `key`, if any.
    fn remove_key(&mut self, key: &RequestData)
        ensures
            final(self).model() == (CacheModel { cache: cache_remove(old(self).model().cache, key@), ..old(self).model() }),
    {
        match self.position(key) {
            Some(i) => {
                let ghost c = self.cache@;
                self.cache.remove(i);
                assert(table_model(self.cache@) =~= table_model(c).remove(i as int));
            },
            None => {},
        }
    }

    /// Stores `item` for `key`: over the response of an equal key (keeping that key),
    /// or as a new entry.
    fn store(&mut self, key: RequestData, item: CacheItem)
        ensures
            final(self).model() == (CacheModel { cache: cache_insert(old(self).model().cache, key@, item.model()), ..old(self).model() }),
    {
        let ghost c = self.cache@;
        let ghost k = key@;
        let ghost im = item.model();
        match self.position(&key) {
            Some(i) => {
                self.cache[i].item = item;
                assert(table_model(self.cache@) =~= table_model(c).update(i as int, (table_model(c)[i as int].0, im)));
            },
            None => {
                self.cache.push(CacheEntry { key, item });
                assert(table_model(self.cache@) =~= table_model(c).push((k, im)));
            },
        }
    }

    /// Takes the response stored at position `p` out of the accounting: its bucket entry
    /// leaves its bucket, later entries of that bucket move down one place (and the
    /// responses filed there with them), and its bytes are no longer counted.
    fn unfile(&mut self, max: usize, p: usize)
        requires
            model_wf(old(self).model(), max as nat),
            p < old(self).cache@.len(),
        ensures
            final(self).model() == unfile(old(self).model(), p as int),
    {
        let ghost m = self.model();
        let ghost c = m.cache;
        let (i0, j0) = self.cache[p].item.bucket_indexes;
        proof {
            assert(c[p as int].1.slot == (i0 as int, j0 as int));
            assert(slot_valid(m, c[p as int].1));
            assert(bucket_model(self.buckets@[i0 as int]) == m.buckets[i0 as int]);
            lemma_bucket_sum_ge(m.buckets, held(), i0 as int);
        }
        let size = self.buckets[i0].remove_at(j0);
        let ghost b = m.buckets[i0 as int];
        let ghost nb = BucketModel { weight: b.weight, bytes: (b.bytes - size) as nat, entries: b.entries.remove(j0 as int) };
        proof {
            assert(buckets_model(self.buckets@) =~= m.buckets.update(i0 as int, nb));
        }
        self.current_bytes = self.current_bytes - size;
        let n = self.cache.len();
        let mut t: usize = 0;
        while t < n
            invariant
                n == c.len(),
                self.cache@.len() == n,
                t <= n,
                buckets_model(self.buckets@) == m.buckets.update(i0 as int, nb),
                self.current_bytes == m.current_bytes - size,
                forall|k: int| 0 <= k < n ==> #[trigger] table_model(self.cache@)[k] == if k < t {
                    (c[k].0, shifted(c[k].1, i0 as int, j0 as int))
                } else {
                    c[k]
                },
            decreases n - t,
        {
            let ghost before = self.cache@;
            let (a, b) = self.cache[t].item.bucket_indexes;
            proof {
                assert(table_model(before)[t as int] == c[t as int]);
            }
            if a == i0 && b > j0 {
                self.cache[t].item.bucket_indexes = (a, b - 1);
                proof {
                    assert(self.cache@ == before.update(t as int, self.cache@[t as int]));
                    assert(table_model(self.cache@)[t as int] == (c[t as int].0, shifted(c[t as int].1, i0 as int, j0 as int)));
                    assert forall|k: int| 0 <= k < n && k != t implies #[trigger] table_model(self.cache@)[k] == table_model(before)[k] by {
                        assert(self.cache@[k] == before[k]);
                    }
                }
            }
            t = t + 1;
        }
        proof {
            assert(table_model(self.cache@) =~= shift_slots(c, i0 as int, j0 as int));
        }
    }

    /// The first bucket of weight `w`.
    fn bucket_index(&self, w: Weight) -> (r: Option<usize>)
        ensures
            match r {
                Some(i) => bucket_of(self.model().buckets, w) == Some(i as int),
                None => bucket_of(self.model().buckets, w) is None,
            },
    {
        let ghost bs = self.model().buckets;
        let mut i: usize = 0;
        while i < self.buckets.len()
            invariant
                bs == buckets_model(self.buckets@),
                i <= self.buckets@.len(),
                bucket_of(bs.take(i as int), w) is None,
            decreases self.buckets@.len() - i,
        {
            assert(bs.take(i + 1).drop_last() =~= bs.take(i as int));
            if self.buckets[i].weight == w {
                proof {
                    lemma_bucket_of_prefix(bs, w, i + 1);
                }
                return Some(i);
            }
            i = i + 1;
        }
        assert(bs.take(bs.len() as int) =~= bs);
        None
    }

    /// The bucket eviction takes from next.
    fn lowest_bucket_index(&self, w: Weight) -> (r: Option<usize>)
        ensures
            match r {
                Some(i) => lowest_bucket(self.model().buckets, w) == Some(i as int),
                None => lowest_bucket(self.model().buckets, w) is None,
            },
    {
        let ghost bs = self.model().buckets;
        let mut best: Option<usize> = None;
        let mut i: usize = 0;
        while i < self.buckets.len()
            invariant
                bs == buckets_model(self.buckets@),
                i <= self.buckets@.len(),
                match best {
                    Some(k) => k < i && lowest_bucket(bs.take(i as int), w) == Some(k as int),
                    None => lowest_bucket(bs.take(i as int), w) is None,
                },
            decreases self.buckets@.len() - i,
        {
            let ghost t = bs.take(i + 1);
            assert(t.drop_last() =~= bs.take(i as int));
            let b = &self.buckets[i];
            let better = match best {
                None => true,
                Some(k) => b.weight < self.buckets[k].weight,
            };
            if b.entries.len() > 0 && b.weight < w && better {
                best = Some(i);
            }
            i = i + 1;
        }
        assert(bs.take(bs.len() as int) =~= bs);
        best
    }

    /// The bytes held by buckets of weight below `w`.
    fn evictable(&self, max: usize, w: Weight) -> (n: usize)
        requires
            model_wf(self.model(), max as nat),
        ensures
            n == evictable_bytes(self.model().buckets, w),
    {
        let ghost bs = self.model().buckets;
        proof {
            lemma_evictable_le_held(bs, w);
        }
        let mut n: usize = 0;
        let mut i: usize = 0;
        while i < self.buckets.len()
            invariant
                bs == buckets_model(self.buckets@),
                i <= self.buckets@.len(),
                n == bucket_sum(bs.take(i as int), held_below(w)),
                evictable_bytes(bs, w) <= self.current_bytes,
            decreases self.buckets@.len() - i,
        {
            proof {
                lemma_bucket_sum_take(bs, held_below(w), i as int);
                lemma_bucket_sum_prefix_le(bs, held_below(w), i + 1);
            }
            if self.buckets[i].weight < w {
                n = n + self.buckets[i].current_bytes;
            }
            i = i + 1;
        }
        proof {
            lemma_bucket_sum_all(bs, held_below(w));
        }
        n
    }

    /// Evicts, lowest weight below `w` first and newest first within a weight, until
    /// `size` bytes fit strictly within `max` bytes; the buckets below `w` must hold
    /// enough for that.
    fn make_room(&mut self, max: usize, size: usize, w: Weight)
        requires
            model_wf(old(self).model(), max as nat),
            evictable_bytes(old(self).model().buckets, w) >= size,
            size < max,
        ensures
            model_wf(final(self).model(), max as nat),
            final(self).model() == evict_until(old(self).model(), max as nat, size as nat, w),
            final(self).model().current_bytes + size < max,
    {
        let mut available = max - self.current_bytes;
        while available <= size
            invariant
                model_wf(self.model(), max as nat),
                available == max - self.current_bytes,
                self.current_bytes <= max,
                evictable_bytes(self.model().buckets, w) + available > size,
                evict_until(self.model(), max as nat, size as nat, w) == evict_until(
                    old(self).model(),
                    max as nat,
                    size as nat,
                    w,
                ),
            decreases crate::cache_model::total_entries(self.model().buckets),
        {
            let ghost m = self.model();
            proof {
                lemma_some_candidate(m, w);
                lemma_lowest_bucket(m.buckets, w);
            }
            let i = self.lowest_bucket_index(w).unwrap();
            let ghost b = m.buckets[i as int];
            proof {
                assert(bucket_model(self.buckets@[i as int]) == b);
                lemma_bucket_sum_ge(m.buckets, held(), i as int);
            }
            let e = self.buckets[i].pop_newest();
            let ghost nb = BucketModel { weight: b.weight, bytes: (b.bytes - e.size_bytes) as nat, entries: b.entries.drop_last() };
            proof {
                assert(buckets_model(self.buckets@) =~= m.buckets.update(i as int, nb));
            }
            self.remove_key(&e.key);
            self.current_bytes = self.current_bytes - e.size_bytes;
            available = available + e.size_bytes;
            proof {
                assert(self.model() == evict_step(m, i as int));
                crate::cache_model::lemma_evict_step(m, max as nat, i as int, w);
            }
        }
    }


    /// Stores a response of weight `priority` if it fits strictly within the budget;
    /// otherwise does nothing.
    fn insert(&mut self, max: usize, req_data: RequestData, body: Bytes, headers: Vec<Header>, priority: Weight)
        requires
            model_wf(old(self).model(), max as nat),
        ensures
            model_wf(final(self).model(), max as nat),
            final(self).model() == insert_model(
                old(self).model(),
                max as nat,
                req_data@,
                body_bytes(body),
                headers_view(headers@),
                priority,
            ),
    {
        let ghost m = self.model();
        let ghost body_view = body_bytes(body);
        let ghost headers_model = headers_view(headers@);
        proof {
            crate::cache_model::lemma_insert_keeps_budget(m, max as nat, req_data@, body_view, headers_model, priority);
        }
        let len = body_len(&body);
        if len < max - self.current_bytes {
            match self.bucket_index(priority) {
                Some(i) => {
                    proof {
                        lemma_bucket_of(m.buckets, priority);
                    }
                    match self.position(&req_data) {
                        Some(p) => {
                            proof {
                                crate::cache_model::lemma_unfile(m, max as nat, p as int);
                            }
                            self.unfile(max, p);
                        },
                        None => {},
                    }
                    let ghost m1 = self.model();
                    proof {
                        lemma_bucket_sum_ge(m1.buckets, held(), i as int);
                        assert(bucket_model(self.buckets@[i as int]) == m1.buckets[i as int]);
                    }
                    let ghost b = m1.buckets[i as int];
                    let key = req_data.duplicate();
                    let slot = self.buckets[i].add(key, len);
                    let ghost nb = BucketModel {
                        weight: b.weight,
                        bytes: b.bytes + len as nat,
                        entries: b.entries.push(EntryModel { key: req_data@, size: len as nat }),
                    };
                    proof {
                        assert(buckets_model(self.buckets@) =~= m1.buckets.update(i as int, nb));
                    }
                    self.current_bytes = self.current_bytes + len;
                    let item = CacheItem { bytes: body, headers, bucket_indexes: (i, slot) };
                    self.store(req_data, item);
                },
                None => {},
            }
        }
    }
}

impl CacheHandler {
    /// Whether some sitemap rule has a priority below `w`.
    fn has_lower_priority(&self, w: Weight) -> (r: bool)
        ensures
            r == has_lower_rule(self.sitemap(), w),
    {
        let mut i: usize = 0;
        while i < self.sitemap.len()
            invariant
                i <= self.sitemap@.len(),
                forall|k: int| 0 <= k < i ==> (#[trigger] self.sitemap@[k]).priority >= w,
            decreases self.sitemap@.len() - i,
        {
            if self.sitemap[i].priority < w {
                return true;
            }
            i = i + 1;
        }
        false
    }

    /// Takes the state out of the handler, leaving it empty.
    fn take_state(&mut self) -> (st: CacheState)
        ensures
            st.model() == old(self).model(),
            final(self).model() == (CacheModel { cache: seq![], buckets: seq![], current_bytes: 0 }),
            final(self).sitemap() == old(self).sitemap(),
            final(self).max_bytes() == old(self).max_bytes(),
    {
        let mut st = CacheState::empty();
        proof {
            lemma_empty_wf(self.max_bytes());
        }
        std::mem::swap(&mut st, &mut self.state);
        st
    }

    /// Evicts lower-weighted entries to make room for `current_size_bytes` bytes of
    /// weight `current_weight`; returns whether the room was made, in which case an
    /// entry of that size now fits within the budget. Nothing is evicted unless some
    /// sitemap rule has a lower priority, the lower buckets hold enough bytes and the
    /// size is below the budget; then entries go, lowest weight first and newest first,
    /// until the new entry fits.
    pub fn evict(&mut self, current_size_bytes: usize, current_weight: Weight) -> (ok: bool)
        ensures
            ok == eviction_succeeds(old(self).model(), old(self).max_bytes(), old(self).sitemap(), current_size_bytes as nat, current_weight),
            final(self).model() == evict_model(
                old(self).model(),
                old(self).max_bytes(),
                old(self).sitemap(),
                current_size_bytes as nat,
                current_weight,
            ),
            ok ==> final(self).model().current_bytes + current_size_bytes < final(self).max_bytes(),
            same_weights(final(self).model().buckets, old(self).model().buckets),
            final(self).sitemap() == old(self).sitemap(),
            final(self).max_bytes() == old(self).max_bytes(),
    {
        proof {
            use_type_invariant(&*self);
        }
        let size = current_size_bytes;
        let w = current_weight;
        if !self.has_lower_priority(w) {
            return false;
        }
        let evictable = self.state.evictable(self.max_bytes, w);
        if evictable < size {
            return false;
        }
        if size >= self.max_bytes {
            return false;
        }
        let mut st = self.take_state();
        proof {
            crate::cache_model::lemma_evict_keeps_weights(st.model(), self.max_bytes(), size as nat, w);
        }
        st.make_room(self.max_bytes, size, w);
        self.state = st;
        true
    }

    /// Stores a response of weight `priority` if it fits strictly within the budget
    /// and the weight has a bucket; otherwise does nothing.
    fn insert(&mut self, req_data: RequestData, body: Bytes, headers: Vec<Header>, priority: Weight)
        ensures
            final(self).model() == insert_model(
                old(self).model(),
                old(self).max_bytes(),
                req_data@,
                body_bytes(body),
                headers_view(headers@),
                priority,
            ),
            final(self).sitemap() == old(self).sitemap(),
            final(self).max_bytes() == old(self).max_bytes(),
    {
        proof {
            use_type_invariant(&*self);
        }
        let mut st = self.take_state();
        st.insert(self.max_bytes, req_data, body, headers, priority);
        self.state = st;
    }

    /// Attempts to store the response to `req_data`: refused when the response's
    /// Cache-Control forbids caching; stored when it fits within the budget; otherwise
    /// stored only if evicting lower-weighted entries made room.
    pub fn try_save(&mut self, req_data: RequestData, body: Bytes, headers: Vec<Header>, priority: Weight)
        ensures
            final(self).model() == save_model(
                old(self).model(),
                old(self).max_bytes(),
                old(self).sitemap(),
                req_data@,
                body_bytes(body),
                headers_view(headers@),
                priority,
            ),
            stored_bytes(final(self).model().cache) == 0 || stored_bytes(final(self).model().cache)
                < final(self).max_bytes(),
            same_weights(final(self).model().buckets, old(self).model().buckets),
            final(self).sitemap() == old(self).sitemap(),
            final(self).max_bytes() == old(self).max_bytes(),
    {
        proof {
            use_type_invariant(&*self);
        }
        proof {
            lemma_save_keeps_budget(
                self.model(),
                self.max_bytes(),
                self.sitemap(),
                req_data@,
                body_bytes(body),
                headers_view(headers@),
                priority,
            );
        }
        if !cache_control_forbids(&headers) {
            let new_data_bytes = body_len(&body);
            if new_data_bytes < self.max_bytes - self.state.current_bytes {
                self.insert(req_data, body, headers, priority);
            } else {
                if self.evict(new_data_bytes, priority) {
                    self.insert(req_data, body, headers, priority);
                }
            }
        }
        proof {
            use_type_invariant(&*self);
            crate::cache_model::lemma_stored_within_budget(self.model(), self.max_bytes());
        }
    }

    /// Classifies a request: `Private` when its Cache-Control forbids caching or no
    /// sitemap rule covers its path; otherwise the stored response if there is one, or
    /// `Public` with the priority of the first (highest-priority) covering rule.
    pub fn check(&self, req_data: &RequestData, headers: &Vec<Header>) -> (r: PathType)
        ensures
            match r {
                PathType::Private => forbids_caching(headers_view(headers@)) || first_match(
                    self.sitemap(),
                    req_data@.path,
                ) is None,
                PathType::Public(p) => !forbids_caching(headers_view(headers@)) && first_match(
                    self.sitemap(),
                    req_data@.path,
                ) == Some(p) && cache_get(self.model().cache, req_data@) is None,
                PathType::Cached(item) => !forbids_caching(headers_view(headers@)) && first_match(
                    self.sitemap(),
                    req_data@.path,
                ) is Some && cache_get(self.model().cache, req_data@) == Some(item.model()),
            },
    {
        if cache_control_forbids(headers) {
            return PathType::Private;
        }
        match matched_priority(&self.sitemap, string_bytes(&req_data.path)) {
            Some(priority) => match self.state.position(req_data) {
                Some(i) => PathType::Cached(self.state.cache[i].item.duplicate()),
                None => PathType::Public(priority),
            },
            None => PathType::Private,
        }
    }
}


/// Once a prefix of the buckets has a bucket of weight `w`, the whole has the same one.
proof fn lemma_bucket_of_prefix(bs: Seq<BucketModel>, w: Weight, n: int)
    requires
        0 <= n <= bs.len(),
        bucket_of(bs.take(n), w) is Some,
    ensures
        bucket_of(bs, w) == bucket_of(bs.take(n), w),
    decreases bs.len() - n,
{
    if n < bs.len() {
        assert(bs.take(n + 1).drop_last() =~= bs.take(n));
        lemma_bucket_of_prefix(bs, w, n + 1);
    } else {
        assert(bs.take(n) =~= bs);
    }
}

/// A prefix sums to no more than the whole.
proof fn lemma_bucket_sum_prefix_le(bs: Seq<BucketModel>, f: spec_fn(BucketModel) -> nat, n: int)
    requires
        0 <= n <= bs.len(),
    ensures
        bucket_sum(bs.take(n), f) <= bucket_sum(bs, f),
    decreases bs.len() - n,
{
    if n < bs.len() {
        lemma_bucket_sum_take(bs, f, n);
        lemma_bucket_sum_prefix_le(bs, f, n + 1);
    } else {
        assert(bs.take(n) =~= bs);
    }
}

/// A cache with nothing stored and no bucket is well formed within any budget.
proof fn lemma_empty_wf(max: nat)
    ensures
        model_wf(CacheModel { cache: seq![], buckets: seq![], current_bytes: 0 }, max),
{
    let m = CacheModel { cache: seq![], buckets: seq![], current_bytes: 0 };
    assert(total_held(m.buckets) == 0);
}

proof fn lemma_zero_held(bs: Seq<BucketModel>)
    requires
        forall|k: int| 0 <= k < bs.len() ==> (#[trigger] bs[k]).bytes == 0,
    ensures
        total_held(bs) == 0,
    decreases bs.len(),
{
    if bs.len() > 0 {
        let d = bs.drop_last();
        assert(forall|k: int| 0 <= k < d.len() ==> d[k] == bs[k]);
        lemma_zero_held(d);
    }
}

} // verus!

verus! {

// ---------------------------------------------------------------------------------
// Laws of the handler.

/// A response that `try_save` stores is the one found under its request afterwards:
/// when caching is allowed, the weight has a bucket, and the body fits at once or
/// eviction succeeds for it (a successful eviction is always followed by the store).
pub proof fn lemma_saved_is_served(
    m: CacheModel,
    max: nat,
    sitemap: Seq<SiteMapEntry>,
    key: crate::request::RequestView,
    body: Seq<u8>,
    headers: Seq<HeaderView>,
    w: Weight,
)
    requires
        model_wf(m, max),
        !forbids_caching(headers),
        bucket_of(m.buckets, w) is Some,
        m.current_bytes + body.len() < max || eviction_succeeds(m, max, sitemap, body.len(), w),
    ensures
        cache_get(save_model(m, max, sitemap, key, body, headers, w).cache, key) matches Some(item)
            && item.bytes == body && item.headers == headers,
{
    if m.current_bytes + body.len() < max {
        crate::cache_model::lemma_inserted_is_found(m, max, key, body, headers, w);
    } else {
        let e = evict_until(m, max, body.len(), w);
        crate::cache_model::lemma_eviction_makes_room(m, max, sitemap, body.len(), w);
        crate::cache_model::lemma_evict_until_spares(m, max, body.len(), w);
        crate::cache_model::lemma_bucket_of_same_weights(e.buckets, m.buckets, w);
        crate::cache_model::lemma_inserted_is_found(e, max, key, body, headers, w);
    }
}

/// Where an entry goes in a list sorted by descending priority.
proof fn lemma_insert_position(sorted: Seq<SiteMapEntry>, p: Weight)
    ensures
        0 <= insert_position(sorted, p) <= sorted.len(),
        forall|k: int| 0 <= k < insert_position(sorted, p) ==> (#[trigger] sorted[k]).priority >= p,
        insert_position(sorted, p) < sorted.len() ==> sorted[insert_position(sorted, p)].priority < p,
    decreases sorted.len(),
{
    if sorted.len() > 0 && sorted[0].priority >= p {
        let d = sorted.drop_first();
        lemma_insert_position(d, p);
        assert forall|k: int| 0 <= k < insert_position(sorted, p) implies (#[trigger] sorted[k]).priority >= p by {
            if k > 0 {
                assert(sorted[k] == d[k - 1]);
            }
        }
    }
}

/// The sorted sitemap holds the same rules, by descending priority.
pub proof fn lemma_sorted_by_priority(s: Seq<SiteMapEntry>)
    ensures
        sorted_by_priority(s).len() == s.len(),
        forall|i: int, j: int| 0 <= i < j < s.len() ==> (#[trigger] sorted_by_priority(s)[i]).priority
            >= (#[trigger] sorted_by_priority(s)[j]).priority,
        forall|x: SiteMapEntry| sorted_by_priority(s).contains(x) <==> s.contains(x),
    decreases s.len(),
{
    if s.len() > 0 {
        let d = s.drop_last();
        let e = s.last();
        lemma_sorted_by_priority(d);
        let t = sorted_by_priority(d);
        let j = insert_position(t, e.priority);
        lemma_insert_position(t, e.priority);
        let u = t.insert(j, e);
        t.insert_ensures(j, e);
        assert(u == sorted_by_priority(s));
        assert forall|a: int, b: int| 0 <= a < b < u.len() implies (#[trigger] u[a]).priority >= (#[trigger] u[b]).priority by {
            if b < j {
                assert(u[a] == t[a] && u[b] == t[b]);
            } else if b == j {
                assert(u[a] == t[a]);
            } else if a < j {
                assert(u[a] == t[a] && u[b] == t[b - 1]);
                assert(t[a].priority >= t[b - 1].priority);
            } else if a == j {
                assert(u[b] == t[b - 1]);
                assert(t[j].priority >= t[b - 1].priority || j == b - 1);
            } else {
                assert(u[a] == t[a - 1] && u[b] == t[b - 1]);
            }
        }
        assert forall|x: SiteMapEntry| u.contains(x) <==> s.contains(x) by {
            if u.contains(x) {
                let k = choose|k: int| 0 <= k < u.len() && u[k] == x;
                if k == j {
                    assert(s[s.len() - 1] == x);
                } else {
                    let kt = if k < j { k } else { k - 1 };
                    assert(t[kt] == x);
                    assert(t.contains(x));
                    assert(d.contains(x));
                    let q = choose|q: int| 0 <= q < d.len() && d[q] == x;
                    assert(s[q] == x);
                }
                assert(s.contains(x));
            }
            if s.contains(x) {
                let k = choose|k: int| 0 <= k < s.len() && s[k] == x;
                if k == s.len() - 1 {
                    assert(u[j] == x);
                } else {
                    assert(d[k] == x);
                    assert(d.contains(x));
                    assert(t.contains(x));
                    let q = choose|q: int| 0 <= q < t.len() && t[q] == x;
                    if q < j {
                        assert(u[q] == x);
                    } else {
                        assert(u[q + 1] == x);
                    }
                }
                assert(u.contains(x));
            }
        }
    }
}

/// The first covering rule of a sitemap and the rules before it.
proof fn lemma_first_match(t: Seq<SiteMapEntry>, path: Seq<u8>)
    ensures
        match first_match(t, path) {
            Some(p) => exists|i: int|
                0 <= i < t.len() && loc_matches(utf8(t[i].loc@), path) && t[i].priority == p && forall|k: int|
                    0 <= k < i ==> !loc_matches(utf8((#[trigger] t[k]).loc@), path),
            None => forall|k: int| 0 <= k < t.len() ==> !loc_matches(utf8((#[trigger] t[k]).loc@), path),
        },
    decreases t.len(),
{
    if t.len() > 0 {
        let d = t.drop_last();
        lemma_first_match(d, path);
        assert(forall|k: int| 0 <= k < d.len() ==> d[k] == t[k]);
        match first_match(d, path) {
            Some(p) => {
                let i = choose|i: int|
                    0 <= i < d.len() && loc_matches(utf8(d[i].loc@), path) && d[i].priority == p && forall|k: int|
                        0 <= k < i ==> !loc_matches(utf8((#[trigger] d[k]).loc@), path);
                assert(t[i] == d[i]);
            },
            None => {},
        }
    }
}

/// The highest priority wins: the rule that decides a path's priority is, among the
/// sitemap's rules that cover the path, one of highest priority; and no rule decides
/// when none covers it.
pub proof fn lemma_highest_priority_wins(s: Seq<SiteMapEntry>, path: Seq<u8>)
    ensures
        match first_match(sorted_by_priority(s), path) {
            Some(p) => (exists|i: int| 0 <= i < s.len() && loc_matches(utf8(s[i].loc@), path) && s[i].priority == p)
                && forall|i: int| 0 <= i < s.len() && loc_matches(utf8((#[trigger] s[i]).loc@), path) ==> s[i].priority <= p,
            None => forall|i: int| 0 <= i < s.len() ==> !loc_matches(utf8((#[trigger] s[i]).loc@), path),
        },
{
    let t = sorted_by_priority(s);
    lemma_sorted_by_priority(s);
    lemma_first_match(t, path);
    match first_match(t, path) {
        Some(p) => {
            let f = choose|i: int|
                0 <= i < t.len() && loc_matches(utf8(t[i].loc@), path) && t[i].priority == p && forall|k: int|
                    0 <= k < i ==> !loc_matches(utf8((#[trigger] t[k]).loc@), path);
            assert(t.contains(t[f]));
            assert(s.contains(t[f]));
            let q = choose|q: int| 0 <= q < s.len() && s[q] == t[f];
            assert(loc_matches(utf8(s[q].loc@), path) && s[q].priority == p);
            assert forall|i: int| 0 <= i < s.len() && loc_matches(utf8((#[trigger] s[i]).loc@), path) implies s[i].priority <= p by {
                assert(s.contains(s[i]));
                assert(t.contains(s[i]));
                let j = choose|j: int| 0 <= j < t.len() && t[j] == s[i];
                if j < f {
                    assert(!loc_matches(utf8(t[j].loc@), path));
                } else if j > f {
                    assert(t[f].priority >= t[j].priority);
                }
            }
        },
        None => {
            assert forall|i: int| 0 <= i < s.len() implies !loc_matches(utf8((#[trigger] s[i]).loc@), path) by {
                assert(s.contains(s[i]));
                assert(t.contains(s[i]));
                let j = choose|j: int| 0 <= j < t.len() && t[j] == s[i];
            }
        },
    }
}

/// One bucket per priority: the bucket weights are distinct and are exactly the
/// priorities that occur in the sitemap.
pub proof fn lemma_one_bucket_per_priority(s: Seq<SiteMapEntry>)
    ensures
        distinct_weights(s).no_duplicates(),
        forall|p: Weight| distinct_weights(s).contains(p) <==> exists|i: int| 0 <= i < s.len() && (#[trigger] s[i]).priority == p,
    decreases s.len(),
{
    if s.len() > 0 {
        let d = s.drop_last();
        lemma_one_bucket_per_priority(d);
        assert(forall|k: int| 0 <= k < d.len() ==> d[k] == s[k]);
        let dw = distinct_weights(d);
        assert forall|p: Weight| distinct_weights(s).contains(p) <==> exists|i: int| 0 <= i < s.len() && (#[trigger] s[i]).priority == p by {
            if distinct_weights(s).contains(p) {
                if dw.contains(p) {
                    let i = choose|i: int| 0 <= i < d.len() && (#[trigger] d[i]).priority == p;
                    assert(s[i].priority == p);
                } else {
                    let k = choose|k: int| 0 <= k < distinct_weights(s).len() && distinct_weights(s)[k] == p;
                    assert(k == dw.len());
                    assert(s[s.len() - 1].priority == p);
                }
            }
            if exists|i: int| 0 <= i < s.len() && (#[trigger] s[i]).priority == p {
                let i = choose|i: int| 0 <= i < s.len() && (#[trigger] s[i]).priority == p;
                if i < s.len() - 1 {
                    assert(d[i].priority == p);
                    assert(dw.contains(p));
                    let k = choose|k: int| 0 <= k < dw.len() && dw[k] == p;
                    assert(distinct_weights(s)[k] == p);
                } else {
                    if !dw.contains(p) {
                        assert(distinct_weights(s)[dw.len() as int] == p);
                    } else {
                        let k = choose|k: int| 0 <= k < dw.len() && dw[k] == p;
                        assert(distinct_weights(s)[k] == p);
                    }
                }
            }
        }
    }
}

/// Every priority of a sitemap has a bucket among the buckets that `new` builds for
/// it, also after the sitemap is sorted.
pub proof fn lemma_sitemap_priorities_have_buckets(s: Seq<SiteMapEntry>)
    ensures
        priorities_have_buckets(sorted_by_priority(s), empty_buckets(distinct_weights(s))),
{
    let t = sorted_by_priority(s);
    let dw = distinct_weights(s);
    let bs = empty_buckets(dw);
    lemma_sorted_by_priority(s);
    lemma_one_bucket_per_priority(s);
    assert forall|k: int| 0 <= k < t.len() implies bucket_of(bs, (#[trigger] t[k]).priority) is Some by {
        let p = t[k].priority;
        assert(t.contains(t[k]));
        assert(s.contains(t[k]));
        let i = choose|i: int| 0 <= i < s.len() && s[i] == t[k];
        assert(s[i].priority == p);
        assert(dw.contains(p));
        let j = choose|j: int| 0 <= j < dw.len() && dw[j] == p;
        assert(bs[j].weight == p);
        crate::cache_model::lemma_bucket_of(bs, p);
    }
}

/// A save that neither fits within the budget nor can be made room for by eviction
/// changes nothing: no response is stored and none is evicted.
pub proof fn lemma_refused_save_changes_nothing(
    m: CacheModel,
    max: nat,
    sitemap: Seq<SiteMapEntry>,
    key: crate::request::RequestView,
    body: Seq<u8>,
    headers: Seq<HeaderView>,
    w: Weight,
)
    requires
        m.current_bytes + body.len() >= max,
        !eviction_succeeds(m, max, sitemap, body.len(), w),
    ensures
        save_model(m, max, sitemap, key, body, headers, w) == m,
{
}

/// A save that does not fit within the budget but for which eviction succeeds stores
/// after evicting: the result is the eviction followed by the insertion.
pub proof fn lemma_save_after_eviction(
    m: CacheModel,
    max: nat,
    sitemap: Seq<SiteMapEntry>,
    key: crate::request::RequestView,
    body: Seq<u8>,
    headers: Seq<HeaderView>,
    w: Weight,
)
    requires
        !forbids_caching(headers),
        m.current_bytes + body.len() >= max,
        eviction_succeeds(m, max, sitemap, body.len(), w),
    ensures
        save_model(m, max, sitemap, key, body, headers, w) == insert_model(
            evict_model(m, max, sitemap, body.len(), w),
            max,
            key,
            body,
            headers,
            w,
        ),
{
}

/// A location ending in `/*` covers every path that begins with the location without
/// its `/*`, whatever follows, at any depth; every location covers the path equal to
/// it; and a location covers a path only when it is that path or such a wildcard over a
/// prefix of it.
pub proof fn lemma_wildcard_covers_prefix(pre: Seq<u8>, rest: Seq<u8>, loc: Seq<u8>, path: Seq<u8>)
    ensures
        loc_matches(pre + utf8("/*"@), pre + rest),
        loc_matches(path, path),
        loc_matches(loc, path) ==> loc == path || exists|p: Seq<u8>, r: Seq<u8>|
            loc == #[trigger] (p + utf8("/*"@)) && path == #[trigger] (p + r),
{
    let star = utf8("/*"@);
    let l = pre + star;
    assert(l.subrange(l.len() - star.len(), l.len() as int) =~= star);
    assert(l.subrange(0, l.len() - star.len()) =~= pre);
    assert((pre + rest).subrange(0, pre.len() as int) =~= pre);
    if loc_matches(loc, path) && loc != path {
        let p = loc.subrange(0, loc.len() - star.len());
        let r = path.subrange(p.len() as int, path.len() as int);
        assert(loc =~= p + star);
        assert(path =~= p + r);
    }
}

/// The directives that forbid caching.
pub open spec fn forbidding_directive(d: Seq<u8>) -> bool {
    d == utf8("no-cache"@) || d == utf8("no-store"@) || d == utf8("max-age=0"@) || d == utf8("private"@)
}

/// A forbidding directive anywhere in the first Cache-Control value (read as visible
/// ASCII text) forbids caching, whatever else the value holds and wherever the directive
/// stands; and caching is forbidden only when such a directive occurs somewhere in the
/// text of that value.
pub proof fn lemma_directive_anywhere_forbids(hs: Seq<HeaderView>, v: Seq<u8>, d: Seq<u8>, k: int)
    ensures
        first_value(hs, utf8("cache-control"@)) == Some(v) && (forall|i: int| 0 <= i < v.len() ==> visible_ascii(#[trigger] v[i]))
            && forbidding_directive(d) && 0 <= k && k + d.len() <= v.len() && v.subrange(k, k + d.len()) == d
            ==> forbids_caching(hs),
        forbids_caching(hs) ==> (first_value(hs, utf8("cache-control"@)) matches Some(w) && exists|dd: Seq<u8>, j: int|
            forbidding_directive(dd) && 0 <= j && j + dd.len() <= header_text(w).len() && #[trigger] header_text(w).subrange(
                j,
                j + dd.len(),
            ) == dd),
{
    if first_value(hs, utf8("cache-control"@)) == Some(v) && (forall|i: int| 0 <= i < v.len() ==> visible_ascii(#[trigger] v[i]))
        && forbidding_directive(d) && 0 <= k && k + d.len() <= v.len() && v.subrange(k, k + d.len()) == d {
        assert(header_text(v) == v);
        assert(occurs_at(v, d, k));
    }
    if forbids_caching(hs) {
        let w = first_value(hs, utf8("cache-control"@))->0;
        let t = header_text(w);
        if occurs_in(t, utf8("no-cache"@)) {
            let j = choose|j: int| occurs_at(t, utf8("no-cache"@), j);
            assert(forbidding_directive(utf8("no-cache"@)));
        } else if occurs_in(t, utf8("no-store"@)) {
            let j = choose|j: int| occurs_at(t, utf8("no-store"@), j);
            assert(forbidding_directive(utf8("no-store"@)));
        } else if occurs_in(t, utf8("max-age=0"@)) {
            let j = choose|j: int| occurs_at(t, utf8("max-age=0"@), j);
            assert(forbidding_directive(utf8("max-age=0"@)));
        } else {
            let j = choose|j: int| occurs_at(t, utf8("private"@), j);
            assert(forbidding_directive(utf8("private"@)));
        }
    }
}

/// A response whose Cache-Control forbids caching leaves the cache as it was.
pub proof fn lemma_forbidden_response_not_stored(
    m: CacheModel,
    max: nat,
    sitemap: Seq<SiteMapEntry>,
    key: crate::request::RequestView,
    body: Seq<u8>,
    headers: Seq<HeaderView>,
    w: Weight,
)
    requires
        forbids_caching(headers),
    ensures
        save_model(m, max, sitemap, key, body, headers, w) == m,
{
}

/// Saving never breaks the budget: from a well-formed state, the counted bytes stay
/// within the budget and equal what the buckets hold, whatever is saved; and the
/// buckets keep their weights.
pub proof fn lemma_save_keeps_budget(
    m: CacheModel,
    max: nat,
    sitemap: Seq<SiteMapEntry>,
    key: crate::request::RequestView,
    body: Seq<u8>,
    headers: Seq<HeaderView>,
    w: Weight,
)
    requires
        model_wf(m, max),
    ensures
        model_wf(save_model(m, max, sitemap, key, body, headers, w), max),
        save_model(m, max, sitemap, key, body, headers, w).current_bytes <= max,
        same_weights(save_model(m, max, sitemap, key, body, headers, w).buckets, m.buckets),
{
    crate::cache_model::lemma_insert_keeps_budget(m, max, key, body, headers, w);
    crate::cache_model::lemma_insert_keeps_weights(m, max, key, body, headers, w);
    crate::cache_model::lemma_evict_until_spares(m, max, body.len(), w);
    let e = evict_until(m, max, body.len(), w);
    crate::cache_model::lemma_insert_keeps_budget(e, max, key, body, headers, w);
    crate::cache_model::lemma_insert_keeps_weights(e, max, key, body, headers, w);
}

/// The order of the sitemap does not matter: two sitemaps with the same rules give
/// every path the same priority, or both none.
pub proof fn lemma_sitemap_order_irrelevant(s1: Seq<SiteMapEntry>, s2: Seq<SiteMapEntry>, path: Seq<u8>)
    requires
        forall|x: SiteMapEntry| s1.contains(x) <==> s2.contains(x),
    ensures
        first_match(sorted_by_priority(s1), path) == first_match(sorted_by_priority(s2), path),
{
    let f1 = first_match(sorted_by_priority(s1), path);
    let f2 = first_match(sorted_by_priority(s2), path);
    lemma_highest_priority_wins(s1, path);
    lemma_highest_priority_wins(s2, path);
    if f1 is Some {
        let p1 = f1->0;
        let i = choose|i: int| 0 <= i < s1.len() && loc_matches(utf8(s1[i].loc@), path) && s1[i].priority == p1;
        assert(s1.contains(s1[i]));
        assert(s2.contains(s1[i]));
        let j = choose|j: int| 0 <= j < s2.len() && s2[j] == s1[i];
        assert(loc_matches(utf8(s2[j].loc@), path));
        let p2 = f2->0;
        assert(p1 <= p2);
        let k = choose|k: int| 0 <= k < s2.len() && loc_matches(utf8(s2[k].loc@), path) && s2[k].priority == p2;
        assert(s2.contains(s2[k]));
        assert(s1.contains(s2[k]));
        let l = choose|l: int| 0 <= l < s1.len() && s1[l] == s2[k];
        assert(loc_matches(utf8(s1[l].loc@), path));
        assert(p2 <= p1);
    } else if f2 is Some {
        let p2 = f2->0;
        let k = choose|k: int| 0 <= k < s2.len() && loc_matches(utf8(s2[k].loc@), path) && s2[k].priority == p2;
        assert(s2.contains(s2[k]));
        assert(s1.contains(s2[k]));
        let l = choose|l: int| 0 <= l < s1.len() && s1[l] == s2[k];
        assert(loc_matches(utf8(s1[l].loc@), path));
    }
}

} // verus!

