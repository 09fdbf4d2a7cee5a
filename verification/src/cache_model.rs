//! The mathematical model of the cache: stored responses, the weight buckets that
//! remember what to evict first, and the byte accounting.
use vstd::prelude::*;
use crate::config::{SiteMapEntry, Weight};
use crate::request::{request_eq, HeaderView, RequestView};

verus! {

/// A stored response: its body, its headers and where its bucket entry was filed.
pub struct ItemModel {
    pub bytes: Seq<u8>,
    pub headers: Seq<HeaderView>,
    pub slot: (int, int),
}

/// A bucket entry: which request was stored, and how many body bytes it took.
pub struct EntryModel {
    pub key: RequestView,
    pub size: nat,
}

/// All stored entries of one priority, oldest first, with their byte total.
pub struct BucketModel {
    pub weight: Weight,
    pub bytes: nat,
    pub entries: Seq<EntryModel>,
}

/// The state of the cache.
pub struct CacheModel {
    /// The stored responses, each under the request it answers.
    pub cache: Seq<(RequestView, ItemModel)>,
    /// One bucket per distinct sitemap priority.
    pub buckets: Seq<BucketModel>,
    /// The bytes the cache counts as used.
    pub current_bytes: nat,
}

// ---------------------------------------------------------------------------------
// The response table, keyed by request equality.

/// The position of the first stored response whose request is the same key as `k`.
pub open spec fn position_of(c: Seq<(RequestView, ItemModel)>, k: RequestView) -> Option<int>
    decreases c.len(),
{
    if c.len() == 0 {
        None
    } else {
        match position_of(c.drop_last(), k) {
            Some(i) => Some(i),
            None => if request_eq(c.last().0, k) {
                Some(c.len() - 1)
            } else {
                None
            },
        }
    }
}

/// The response stored for `k`, if any.
pub open spec fn cache_get(c: Seq<(RequestView, ItemModel)>, k: RequestView) -> Option<ItemModel> {
    match position_of(c, k) {
        Some(i) => Some(c[i].1),
        None => None,
    }
}

/// Stores `item` for `k`: over the response of an equal key, which keeps its key, or
/// as a new entry.
pub open spec fn cache_insert(c: Seq<(RequestView, ItemModel)>, k: RequestView, item: ItemModel) -> Seq<
    (RequestView, ItemModel),
> {
    match position_of(c, k) {
        Some(i) => c.update(i, (c[i].0, item)),
        None => c.push((k, item)),
    }
}

/// Removes the response stored for `k`, if any.
pub open spec fn cache_remove(c: Seq<(RequestView, ItemModel)>, k: RequestView) -> Seq<
    (RequestView, ItemModel),
> {
    match position_of(c, k) {
        Some(i) => c.remove(i),
        None => c,
    }
}

pub proof fn lemma_position_of_bounds(c: Seq<(RequestView, ItemModel)>, k: RequestView)
    ensures
        match position_of(c, k) {
            Some(i) => 0 <= i < c.len() && request_eq(c[i].0, k) && forall|j: int|
                0 <= j < i ==> !request_eq(#[trigger] c[j].0, k),
            None => forall|j: int| 0 <= j < c.len() ==> !request_eq(#[trigger] c[j].0, k),
        },
    decreases c.len(),
{
    if c.len() > 0 {
        lemma_position_of_bounds(c.drop_last(), k);
        let d = c.drop_last();
        assert(forall|j: int| 0 <= j < d.len() ==> d[j] == c[j]);
    }
}

/// The first match is the stored response whose key matches and before which none does.
pub proof fn lemma_position_of_first(c: Seq<(RequestView, ItemModel)>, k: RequestView, i: int)
    requires
        0 <= i < c.len(),
        request_eq(c[i].0, k),
        forall|j: int| 0 <= j < i ==> !request_eq(#[trigger] c[j].0, k),
    ensures
        position_of(c, k) == Some(i),
{
    lemma_position_of_bounds(c, k);
}

/// No stored response matches.
pub proof fn lemma_position_of_none(c: Seq<(RequestView, ItemModel)>, k: RequestView)
    requires
        forall|j: int| 0 <= j < c.len() ==> !request_eq(#[trigger] c[j].0, k),
    ensures
        position_of(c, k) is None,
{
    lemma_position_of_bounds(c, k);
}

/// The response found for `k` was stored under a request with the same method, path
/// and query as `k`.
pub proof fn lemma_found_has_same_uri(c: Seq<(RequestView, ItemModel)>, k: RequestView)
    ensures
        position_of(c, k) matches Some(i) ==> c[i].0.method == k.method && c[i].0.path == k.path && c[i].0.query
            == k.query,
{
    lemma_position_of_bounds(c, k);
    if let Some(i) = position_of(c, k) {
        crate::request::lemma_same_key_same_uri(c[i].0, k);
    }
}

// ---------------------------------------------------------------------------------
// Sums over buckets.

/// The sum of `f` over the buckets.
pub open spec fn bucket_sum(bs: Seq<BucketModel>, f: spec_fn(BucketModel) -> nat) -> nat
    decreases bs.len(),
{
    if bs.len() == 0 {
        0
    } else {
        bucket_sum(bs.drop_last(), f) + f(bs.last())
    }
}

/// The bytes a bucket holds.
pub open spec fn held() -> spec_fn(BucketModel) -> nat {
    |b: BucketModel| b.bytes
}

/// The bytes a bucket holds if its weight is below `w`.
pub open spec fn held_below(w: Weight) -> spec_fn(BucketModel) -> nat {
    |b: BucketModel|
        if b.weight < w {
            b.bytes
        } else {
            0
        }
}

/// The number of entries of a bucket.
pub open spec fn entry_count() -> spec_fn(BucketModel) -> nat {
    |b: BucketModel| b.entries.len()
}

/// The total size of bucket entries.
pub open spec fn entries_bytes(es: Seq<EntryModel>) -> nat
    decreases es.len(),
{
    if es.len() == 0 {
        0
    } else {
        entries_bytes(es.drop_last()) + es.last().size
    }
}

/// The bytes held by all buckets.
pub open spec fn total_held(bs: Seq<BucketModel>) -> nat {
    bucket_sum(bs, held())
}

/// The bytes that eviction may free for an entry of weight `w`: those of lower weight.
pub open spec fn evictable_bytes(bs: Seq<BucketModel>, w: Weight) -> nat {
    bucket_sum(bs, held_below(w))
}

/// The number of bucket entries.
pub open spec fn total_entries(bs: Seq<BucketModel>) -> nat {
    bucket_sum(bs, entry_count())
}

pub proof fn lemma_bucket_sum_take(bs: Seq<BucketModel>, f: spec_fn(BucketModel) -> nat, i: int)
    requires
        0 <= i < bs.len(),
    ensures
        bucket_sum(bs.take(i + 1), f) == bucket_sum(bs.take(i), f) + f(bs[i]),
{
    assert(bs.take(i + 1).drop_last() =~= bs.take(i));
}

pub proof fn lemma_bucket_sum_all(bs: Seq<BucketModel>, f: spec_fn(BucketModel) -> nat)
    ensures
        bucket_sum(bs.take(bs.len() as int), f) == bucket_sum(bs, f),
{
    assert(bs.take(bs.len() as int) =~= bs);
}

pub proof fn lemma_bucket_sum_update(
    bs: Seq<BucketModel>,
    f: spec_fn(BucketModel) -> nat,
    i: int,
    b: BucketModel,
)
    requires
        0 <= i < bs.len(),
    ensures
        bucket_sum(bs.update(i, b), f) + f(bs[i]) == bucket_sum(bs, f) + f(b),
    decreases bs.len(),
{
    if i == bs.len() - 1 {
        assert(bs.update(i, b).drop_last() =~= bs.drop_last());
    } else {
        lemma_bucket_sum_update(bs.drop_last(), f, i, b);
        assert(bs.update(i, b).drop_last() =~= bs.drop_last().update(i, b));
    }
}

pub proof fn lemma_bucket_sum_ge(bs: Seq<BucketModel>, f: spec_fn(BucketModel) -> nat, i: int)
    requires
        0 <= i < bs.len(),
    ensures
        f(bs[i]) <= bucket_sum(bs, f),
    decreases bs.len(),
{
    if i < bs.len() - 1 {
        lemma_bucket_sum_ge(bs.drop_last(), f, i);
    }
}

pub proof fn lemma_bucket_sum_le(
    bs: Seq<BucketModel>,
    f: spec_fn(BucketModel) -> nat,
    g: spec_fn(BucketModel) -> nat,
)
    requires
        forall|i: int| 0 <= i < bs.len() ==> f(#[trigger] bs[i]) <= g(bs[i]),
    ensures
        bucket_sum(bs, f) <= bucket_sum(bs, g),
    decreases bs.len(),
{
    if bs.len() > 0 {
        lemma_bucket_sum_le(bs.drop_last(), f, g);
        assert(f(bs[bs.len() - 1]) <= g(bs[bs.len() - 1]));
    }
}

pub proof fn lemma_bucket_sum_positive(bs: Seq<BucketModel>, f: spec_fn(BucketModel) -> nat)
    requires
        bucket_sum(bs, f) > 0,
    ensures
        exists|i: int| 0 <= i < bs.len() && f(#[trigger] bs[i]) > 0,
    decreases bs.len(),
{
    if f(bs[bs.len() - 1]) == 0 {
        lemma_bucket_sum_positive(bs.drop_last(), f);
        let i = choose|i: int| 0 <= i < bs.drop_last().len() && f(#[trigger] bs.drop_last()[i]) > 0;
        assert(bs[i] == bs.drop_last()[i]);
    }
}

pub proof fn lemma_evictable_le_held(bs: Seq<BucketModel>, w: Weight)
    ensures
        evictable_bytes(bs, w) <= total_held(bs),
{
    lemma_bucket_sum_le(bs, held_below(w), held());
}

pub proof fn lemma_entries_bytes_push(es: Seq<EntryModel>, e: EntryModel)
    ensures
        entries_bytes(es.push(e)) == entries_bytes(es) + e.size,
{
    assert(es.push(e).drop_last() =~= es);
}

// ---------------------------------------------------------------------------------
// Eviction.

/// The bucket eviction takes from next: the first of the non-empty buckets of weight
/// below `w` with the lowest weight.
pub open spec fn lowest_bucket(bs: Seq<BucketModel>, w: Weight) -> Option<int>
    decreases bs.len(),
{
    if bs.len() == 0 {
        None
    } else {
        let prev = lowest_bucket(bs.drop_last(), w);
        let b = bs.last();
        if b.entries.len() > 0 && b.weight < w && (prev is None || b.weight < bs[prev->0].weight) {
            Some(bs.len() - 1)
        } else {
            prev
        }
    }
}

/// A bucket eviction may take from.
pub open spec fn candidate(b: BucketModel, w: Weight) -> bool {
    b.entries.len() > 0 && b.weight < w
}

pub proof fn lemma_lowest_bucket(bs: Seq<BucketModel>, w: Weight)
    ensures
        match lowest_bucket(bs, w) {
            Some(i) => 0 <= i < bs.len() && candidate(bs[i], w) && (forall|j: int|
                0 <= j < bs.len() && candidate(#[trigger] bs[j], w) ==> bs[i].weight <= bs[j].weight)
                && (forall|j: int|
                0 <= j < i && candidate(#[trigger] bs[j], w) ==> bs[i].weight < bs[j].weight),
            None => forall|j: int| 0 <= j < bs.len() ==> !candidate(#[trigger] bs[j], w),
        },
    decreases bs.len(),
{
    if bs.len() > 0 {
        lemma_lowest_bucket(bs.drop_last(), w);
        let d = bs.drop_last();
        assert(forall|j: int| 0 <= j < d.len() ==> d[j] == bs[j]);
    }
}

/// Evicts the newest entry of bucket `i`: it leaves its bucket, its response leaves
/// the table, and its bytes are no longer counted.
pub open spec fn evict_step(m: CacheModel, i: int) -> CacheModel {
    let b = m.buckets[i];
    let e = b.entries.last();
    CacheModel {
        cache: cache_remove(m.cache, e.key),
        buckets: m.buckets.update(
            i,
            BucketModel { weight: b.weight, bytes: (b.bytes - e.size) as nat, entries: b.entries.drop_last() },
        ),
        current_bytes: (m.current_bytes - e.size) as nat,
    }
}

pub proof fn lemma_evict_step_shrinks(m: CacheModel, i: int)
    requires
        0 <= i < m.buckets.len(),
        m.buckets[i].entries.len() > 0,
    ensures
        total_entries(evict_step(m, i).buckets) < total_entries(m.buckets),
{
    let b = m.buckets[i];
    let nb = BucketModel { weight: b.weight, bytes: (b.bytes - b.entries.last().size) as nat, entries: b.entries.drop_last() };
    lemma_bucket_sum_update(m.buckets, entry_count(), i, nb);
}

/// Evicts, lowest weight below `w` first and newest first within a weight, until an
/// entry of `size` bytes fits strictly within `max` bytes (as storing requires) or
/// nothing of lower weight is left.
pub open spec fn evict_until(m: CacheModel, max: nat, size: nat, w: Weight) -> CacheModel
    decreases total_entries(m.buckets),
{
    if m.current_bytes + size < max {
        m
    } else {
        match lowest_bucket(m.buckets, w) {
            None => m,
            Some(i) => {
                proof {
                    lemma_lowest_bucket(m.buckets, w);
                    lemma_evict_step_shrinks(m, i);
                }
                evict_until(evict_step(m, i), max, size, w)
            },
        }
    }
}

/// Some sitemap rule has a priority below `w`.
pub open spec fn has_lower_rule(sitemap: Seq<SiteMapEntry>, w: Weight) -> bool {
    exists|i: int| 0 <= i < sitemap.len() && (#[trigger] sitemap[i]).priority < w
}

/// Whether eviction makes room for `size` bytes of weight `w`: only when some rule has
/// a lower priority, the buckets below `w` hold at least `size` bytes, and `size` is
/// below the budget (so that an entry of that size can be stored at all).
pub open spec fn eviction_succeeds(m: CacheModel, max: nat, sitemap: Seq<SiteMapEntry>, size: nat, w: Weight) -> bool {
    has_lower_rule(sitemap, w) && evictable_bytes(m.buckets, w) >= size && size < max
}

/// When eviction succeeds: exactly when some sitemap rule has a priority below `w`, the
/// buckets of weight below `w` hold at least `size` bytes together (whichever buckets
/// they are in), and `size` is below the budget.
pub proof fn lemma_eviction_succeeds_iff(m: CacheModel, max: nat, sitemap: Seq<SiteMapEntry>, size: nat, w: Weight)
    ensures
        eviction_succeeds(m, max, sitemap, size, w) <==> (exists|i: int| 0 <= i < sitemap.len() && #[trigger] sitemap[i].priority < w)
            && bucket_sum(m.buckets, held_below(w)) >= size && size < max,
{
    if (exists|i: int| 0 <= i < sitemap.len() && #[trigger] sitemap[i].priority < w) {
        let i = choose|i: int| 0 <= i < sitemap.len() && #[trigger] sitemap[i].priority < w;
        assert(has_lower_rule(sitemap, w));
    }
}

/// The state after an eviction request: unchanged when it fails.
pub open spec fn evict_model(m: CacheModel, max: nat, sitemap: Seq<SiteMapEntry>, size: nat, w: Weight) -> CacheModel {
    if eviction_succeeds(m, max, sitemap, size, w) {
        evict_until(m, max, size, w)
    } else {
        m
    }
}

/// When buckets below `w` hold bytes, one of them can be evicted from.
pub proof fn lemma_some_candidate(m: CacheModel, w: Weight)
    requires
        evictable_bytes(m.buckets, w) > 0,
        forall|i: int| 0 <= i < m.buckets.len() ==> (#[trigger] m.buckets[i]).bytes == entries_bytes(m.buckets[i].entries),
    ensures
        exists|j: int| 0 <= j < m.buckets.len() && candidate(#[trigger] m.buckets[j], w),
{
    lemma_bucket_sum_positive(m.buckets, held_below(w));
    let j = choose|j: int| 0 <= j < m.buckets.len() && held_below(w)(#[trigger] m.buckets[j]) > 0;
    assert(m.buckets[j].bytes == entries_bytes(m.buckets[j].entries));
    assert(candidate(m.buckets[j], w));
}

// ---------------------------------------------------------------------------------
// Insertion.

/// The first bucket of weight `w`.
pub open spec fn bucket_of(bs: Seq<BucketModel>, w: Weight) -> Option<int>
    decreases bs.len(),
{
    if bs.len() == 0 {
        None
    } else {
        match bucket_of(bs.drop_last(), w) {
            Some(i) => Some(i),
            None => if bs.last().weight == w {
                Some(bs.len() - 1)
            } else {
                None
            },
        }
    }
}

pub proof fn lemma_bucket_of(bs: Seq<BucketModel>, w: Weight)
    ensures
        match bucket_of(bs, w) {
            Some(i) => 0 <= i < bs.len() && bs[i].weight == w && forall|j: int|
                0 <= j < i ==> (#[trigger] bs[j]).weight != w,
            None => forall|j: int| 0 <= j < bs.len() ==> (#[trigger] bs[j]).weight != w,
        },
    decreases bs.len(),
{
    if bs.len() > 0 {
        lemma_bucket_of(bs.drop_last(), w);
        let d = bs.drop_last();
        assert(forall|j: int| 0 <= j < d.len() ==> d[j] == bs[j]);
    }
}

/// A stored response's slot after the entry at `(i0, j0)` left its bucket: later
/// entries of that bucket move one place down.
pub open spec fn shifted(item: ItemModel, i0: int, j0: int) -> ItemModel {
    if item.slot.0 == i0 && item.slot.1 > j0 {
        ItemModel { bytes: item.bytes, headers: item.headers, slot: (i0, item.slot.1 - 1) }
    } else {
        item
    }
}

/// The table after the entry at `(i0, j0)` left its bucket.
pub open spec fn shift_slots(c: Seq<(RequestView, ItemModel)>, i0: int, j0: int) -> Seq<(RequestView, ItemModel)> {
    c.map_values(|x: (RequestView, ItemModel)| (x.0, shifted(x.1, i0, j0)))
}

/// Takes the response stored at position `p` out of the accounting: its bucket entry
/// leaves its bucket and its bytes are no longer counted (the table entry itself is
/// left for the caller to overwrite).
pub open spec fn unfile(m: CacheModel, p: int) -> CacheModel {
    let i0 = m.cache[p].1.slot.0;
    let j0 = m.cache[p].1.slot.1;
    let b = m.buckets[i0];
    let old = b.entries[j0];
    CacheModel {
        cache: shift_slots(m.cache, i0, j0),
        buckets: m.buckets.update(
            i0,
            BucketModel { weight: b.weight, bytes: (b.bytes - old.size) as nat, entries: b.entries.remove(j0) },
        ),
        current_bytes: (m.current_bytes - old.size) as nat,
    }
}

/// Stores a response of weight `w` when it fits strictly within `max` bytes and a
/// bucket of weight `w` exists; otherwise nothing changes. A response stored before
/// under an equal key is replaced: its bucket entry and bytes go. The new entry is the
/// newest of its bucket, and its bytes are counted.
pub open spec fn insert_model(
    m: CacheModel,
    max: nat,
    key: RequestView,
    body: Seq<u8>,
    headers: Seq<HeaderView>,
    w: Weight,
) -> CacheModel {
    if m.current_bytes + body.len() < max && bucket_of(m.buckets, w) is Some {
        let i = bucket_of(m.buckets, w)->0;
        let m1 = match position_of(m.cache, key) {
            Some(p) => unfile(m, p),
            None => m,
        };
        let b = m1.buckets[i];
        CacheModel {
            cache: cache_insert(m1.cache, key, ItemModel { bytes: body, headers, slot: (i, b.entries.len() as int) }),
            buckets: m1.buckets.update(
                i,
                BucketModel {
                    weight: b.weight,
                    bytes: b.bytes + body.len(),
                    entries: b.entries.push(EntryModel { key, size: body.len() }),
                },
            ),
            current_bytes: m1.current_bytes + body.len(),
        }
    } else {
        m
    }
}

// ---------------------------------------------------------------------------------
// Well-formedness.

/// Every bucket's total is the size of its entries, the buckets together hold exactly
/// the counted bytes, and those stay within the budget; and the table and the buckets
/// match one to one (see `table_wf`).
pub open spec fn model_wf(m: CacheModel, max: nat) -> bool {
    &&& forall|i: int| 0 <= i < m.buckets.len() ==> (#[trigger] m.buckets[i]).bytes == entries_bytes(m.buckets[i].entries)
    &&& total_held(m.buckets) == m.current_bytes
    &&& m.current_bytes <= max
    &&& (m.current_bytes == 0 || m.current_bytes < max)
    &&& table_wf(m)
}

/// The slot of a stored response names an existing bucket entry.
pub open spec fn slot_valid(m: CacheModel, item: ItemModel) -> bool {
    &&& 0 <= item.slot.0 < m.buckets.len()
    &&& 0 <= item.slot.1 < m.buckets[item.slot.0].entries.len()
}

/// The bucket entry in a stored response's slot.
pub open spec fn slot_entry(m: CacheModel, item: ItemModel) -> EntryModel {
    m.buckets[item.slot.0].entries[item.slot.1]
}

/// Some stored response is filed in the entry at `(i, j)`.
pub open spec fn filed(m: CacheModel, i: int, j: int) -> bool {
    exists|t: int| 0 <= t < m.cache.len() && (#[trigger] m.cache[t]).1.slot == (i, j)
}

/// Each stored response has a bucket entry of its own, of the body's size and with an
/// equal key; every bucket entry is some stored response's; and no two stored
/// responses have equal keys.
pub open spec fn table_wf(m: CacheModel) -> bool {
    &&& forall|i: int, j: int| 0 <= i < m.buckets.len() && 0 <= j < m.buckets[i].entries.len() ==> #[trigger] filed(m, i, j)
    &&& forall|t: int| 0 <= t < m.cache.len() ==> slot_valid(m, (#[trigger] m.cache[t]).1)
        && slot_entry(m, m.cache[t].1).size == m.cache[t].1.bytes.len()
        && request_eq(m.cache[t].0, slot_entry(m, m.cache[t].1).key)
    &&& forall|t1: int, t2: int| 0 <= t1 < m.cache.len() && 0 <= t2 < m.cache.len() && t1 != t2 ==>
        !request_eq((#[trigger] m.cache[t1]).0, (#[trigger] m.cache[t2]).0) && m.cache[t1].1.slot
        != m.cache[t2].1.slot
}

/// The total size of the stored response bodies.
pub open spec fn stored_bytes(c: Seq<(RequestView, ItemModel)>) -> nat
    decreases c.len(),
{
    if c.len() == 0 {
        0
    } else {
        stored_bytes(c.drop_last()) + c.last().1.bytes.len()
    }
}

} // verus!

verus! {

// ---------------------------------------------------------------------------------
// Laws of the cache model.

/// A response stored under a key is the one found under that key.
pub proof fn lemma_stored_is_found(c: Seq<(RequestView, ItemModel)>, k: RequestView, item: ItemModel)
    ensures
        cache_get(cache_insert(c, k, item), k) == Some(item),
{
    lemma_position_of_bounds(c, k);
    match position_of(c, k) {
        Some(i) => {
            let c2 = c.update(i, (c[i].0, item));
            assert forall|j: int| 0 <= j < i implies !request_eq(#[trigger] c2[j].0, k) by {
                assert(c2[j] == c[j]);
            }
            lemma_position_of_first(c2, k, i);
        },
        None => {
            let c2 = c.push((k, item));
            crate::request::lemma_request_eq_reflexive(k);
            assert forall|j: int| 0 <= j < c.len() implies !request_eq(#[trigger] c2[j].0, k) by {
                assert(c2[j] == c[j]);
            }
            lemma_position_of_first(c2, k, c.len() as int);
        },
    }
}

/// One eviction step keeps the model well formed, frees the evicted entry's bytes
/// from the counted, held and (below `w`) evictable totals, and leaves every other
/// bucket as it was.
pub proof fn lemma_evict_step(m: CacheModel, max: nat, i: int, w: Weight)
    requires
        model_wf(m, max),
        0 <= i < m.buckets.len(),
        candidate(m.buckets[i], w),
    ensures
        ({
            let n = evict_step(m, i);
            let e = m.buckets[i].entries.last();
            &&& model_wf(n, max)
            &&& n.current_bytes + e.size == m.current_bytes
            &&& evictable_bytes(n.buckets, w) + e.size == evictable_bytes(m.buckets, w)
            &&& total_entries(n.buckets) < total_entries(m.buckets)
            &&& n.buckets.len() == m.buckets.len()
            &&& n.buckets[i].weight == m.buckets[i].weight
            &&& n.buckets[i].entries == m.buckets[i].entries.drop_last()
            &&& forall|k: int| 0 <= k < m.buckets.len() && k != i ==> n.buckets[k] == m.buckets[k]
        }),
{
    let b = m.buckets[i];
    let e = b.entries.last();
    let nb = BucketModel { weight: b.weight, bytes: (b.bytes - e.size) as nat, entries: b.entries.drop_last() };
    lemma_bucket_sum_ge(m.buckets, held(), i);
    lemma_bucket_sum_update(m.buckets, held(), i, nb);
    lemma_bucket_sum_update(m.buckets, held_below(w), i, nb);
    lemma_bucket_sum_update(m.buckets, entry_count(), i, nb);
    let n = evict_step(m, i);
    assert forall|k: int| 0 <= k < n.buckets.len() implies (#[trigger] n.buckets[k]).bytes == entries_bytes(
        n.buckets[k].entries,
    ) by {
        if k != i {
            assert(n.buckets[k] == m.buckets[k]);
        }
    }
    lemma_evict_step_table(m, max, i, w);
}

/// The response filed in the evicted entry, if any, leaves the table with it.
proof fn lemma_evict_step_table(m: CacheModel, max: nat, i: int, w: Weight)
    requires
        model_wf(m, max),
        0 <= i < m.buckets.len(),
        candidate(m.buckets[i], w),
    ensures
        table_wf(evict_step(m, i)),
{
    let b = m.buckets[i];
    let last = b.entries.len() - 1;
    let e = b.entries[last];
    let c = m.cache;
    let n = evict_step(m, i);
    lemma_position_of_bounds(c, e.key);
    // No response that stays in the table is filed in the evicted entry.
    assert forall|t: int| 0 <= t < c.len() && (match position_of(c, e.key) {
        Some(p) => t != p,
        None => true,
    }) implies !((#[trigger] c[t]).1.slot.0 == i && c[t].1.slot.1 == last) by {
        if c[t].1.slot.0 == i && c[t].1.slot.1 == last {
            assert(slot_entry(m, c[t].1) == e);
            match position_of(c, e.key) {
                Some(p) => {
                    crate::request::lemma_request_eq_symmetric(c[t].0, e.key);
                    crate::request::lemma_request_eq_transitive(c[p].0, e.key, c[t].0);
                    assert(!request_eq(c[p].0, c[t].0));
                },
                None => {},
            }
        }
    }
    // Where each remaining response came from.
    let from = |t: int|
        match position_of(c, e.key) {
            Some(p) => if t < p {
                t
            } else {
                t + 1
            },
            None => t,
        };
    assert forall|t: int| 0 <= t < n.cache.len() implies n.cache[t] == c[from(t)] && 0 <= from(t) < c.len() && (
    match position_of(c, e.key) {
        Some(p) => from(t) != p,
        None => true,
    }) by {
        match position_of(c, e.key) {
            Some(p) => {
                assert(n.cache == c.remove(p));
            },
            None => {},
        }
    }
    assert forall|t: int| 0 <= t < n.cache.len() implies slot_valid(n, (#[trigger] n.cache[t]).1) && slot_entry(
        n,
        n.cache[t].1,
    ).size == n.cache[t].1.bytes.len() && request_eq(n.cache[t].0, slot_entry(n, n.cache[t].1).key) by {
        let o = from(t);
        assert(c[o] == n.cache[t]);
        let sl = c[o].1.slot;
        assert(slot_valid(m, c[o].1));
        if sl.0 == i {
            assert(sl.1 != last);
            assert(n.buckets[i].entries[sl.1] == b.entries[sl.1]);
        } else {
            assert(n.buckets[sl.0] == m.buckets[sl.0]);
        }
    }
    assert forall|t1: int, t2: int| 0 <= t1 < n.cache.len() && 0 <= t2 < n.cache.len() && t1 != t2 implies !request_eq(
        (#[trigger] n.cache[t1]).0,
        (#[trigger] n.cache[t2]).0,
    ) && n.cache[t1].1.slot != n.cache[t2].1.slot by {
        let o1 = from(t1);
        let o2 = from(t2);
        assert(c[o1] == n.cache[t1] && c[o2] == n.cache[t2]);
        assert(o1 != o2);
    }
    // The evicted entry was the response at `position_of(c, e.key)`; every other entry
    // keeps its response.
    assert(filed(m, i, last));
    let tl = choose|t: int| 0 <= t < c.len() && (#[trigger] c[t]).1.slot == (i, last);
    assert(position_of(c, e.key) is Some);
    let p = position_of(c, e.key)->0;
    assert(tl == p);
    assert forall|k: int, j: int| 0 <= k < n.buckets.len() && 0 <= j < n.buckets[k].entries.len() implies #[trigger] filed(
        n,
        k,
        j,
    ) by {
        if k == i {
            assert(n.buckets[k].entries[j] == m.buckets[k].entries[j]);
        } else {
            assert(n.buckets[k] == m.buckets[k]);
        }
        assert(filed(m, k, j));
        let t = choose|t: int| 0 <= t < c.len() && (#[trigger] c[t]).1.slot == (k, j);
        assert(t != p);
        assert(n.cache == c.remove(p));
        if t < p {
            assert(n.cache[t] == c[t]);
        } else {
            assert(n.cache[t - 1] == c[t]);
        }
    }
}

/// Eviction keeps the buckets and their weights; buckets of weight `w` or more keep
/// everything, and the others only lose their newest entries.
pub proof fn lemma_evict_until_spares(m: CacheModel, max: nat, size: nat, w: Weight)
    requires
        model_wf(m, max),
    ensures
        ({
            let r = evict_until(m, max, size, w);
            &&& model_wf(r, max)
            &&& r.buckets.len() == m.buckets.len()
            &&& forall|k: int| 0 <= k < m.buckets.len() ==> (#[trigger] r.buckets[k]).weight == m.buckets[k].weight
            &&& forall|k: int| 0 <= k < m.buckets.len() && m.buckets[k].weight >= w ==> #[trigger] r.buckets[k]
                == m.buckets[k]
            &&& forall|k: int| 0 <= k < m.buckets.len() ==> (#[trigger] r.buckets[k]).entries.len()
                <= m.buckets[k].entries.len() && r.buckets[k].entries == m.buckets[k].entries.take(
                r.buckets[k].entries.len() as int,
            )
        }),
    decreases total_entries(m.buckets),
{
    if m.current_bytes + size < max {
        assert forall|k: int| 0 <= k < m.buckets.len() implies (#[trigger] m.buckets[k]).entries.len()
            <= m.buckets[k].entries.len() && m.buckets[k].entries == m.buckets[k].entries.take(
            m.buckets[k].entries.len() as int,
        ) by {
            assert(m.buckets[k].entries.take(m.buckets[k].entries.len() as int) =~= m.buckets[k].entries);
        }
    } else {
        lemma_lowest_bucket(m.buckets, w);
        match lowest_bucket(m.buckets, w) {
            None => {
                assert forall|k: int| 0 <= k < m.buckets.len() implies (#[trigger] m.buckets[k]).entries.len()
                    <= m.buckets[k].entries.len() && m.buckets[k].entries == m.buckets[k].entries.take(
                    m.buckets[k].entries.len() as int,
                ) by {
                    assert(m.buckets[k].entries.take(m.buckets[k].entries.len() as int) =~= m.buckets[k].entries);
                }
            },
            Some(i) => {
                lemma_evict_step(m, max, i, w);
                let n = evict_step(m, i);
                lemma_evict_until_spares(n, max, size, w);
                let r = evict_until(n, max, size, w);
                assert(r == evict_until(m, max, size, w));
                assert forall|k: int| 0 <= k < m.buckets.len() implies (#[trigger] r.buckets[k]).entries.len()
                    <= m.buckets[k].entries.len() && r.buckets[k].entries == m.buckets[k].entries.take(
                    r.buckets[k].entries.len() as int,
                ) by {
                    if k == i {
                        let old_es = m.buckets[i].entries;
                        let mid = n.buckets[i].entries;
                        let len = r.buckets[k].entries.len() as int;
                        assert(r.buckets[k].entries == mid.take(len));
                        assert(mid == old_es.drop_last());
                        assert(mid.take(len) =~= old_es.take(len));
                    }
                }
            },
        }
    }
}

/// When the buckets below `w` hold enough, eviction frees room for `size` bytes.
pub proof fn lemma_evict_until_room(m: CacheModel, max: nat, size: nat, w: Weight)
    requires
        model_wf(m, max),
        evictable_bytes(m.buckets, w) + max > size + m.current_bytes,
    ensures
        evict_until(m, max, size, w).current_bytes + size < max,
    decreases total_entries(m.buckets),
{
    if m.current_bytes + size >= max {
        lemma_some_candidate(m, w);
        lemma_lowest_bucket(m.buckets, w);
        let i = lowest_bucket(m.buckets, w)->0;
        lemma_evict_step(m, max, i, w);
        lemma_evict_until_room(evict_step(m, i), max, size, w);
    }
}

/// Eviction takes the lowest weights first: when it takes entries from a bucket, every
/// bucket of lower weight is left empty.
pub proof fn lemma_eviction_lowest_first(m: CacheModel, max: nat, size: nat, w: Weight, k1: int, k2: int)
    requires
        model_wf(m, max),
        0 <= k1 < m.buckets.len(),
        0 <= k2 < m.buckets.len(),
        m.buckets[k1].weight < m.buckets[k2].weight,
        evict_until(m, max, size, w).buckets[k2].entries.len() < m.buckets[k2].entries.len(),
    ensures
        evict_until(m, max, size, w).buckets[k1].entries.len() == 0,
    decreases total_entries(m.buckets),
{
    lemma_evict_until_spares(m, max, size, w);
    if m.current_bytes + size >= max {
        lemma_lowest_bucket(m.buckets, w);
        if let Some(i) = lowest_bucket(m.buckets, w) {
            lemma_evict_step(m, max, i, w);
            let n = evict_step(m, i);
            lemma_evict_until_spares(n, max, size, w);
            let r = evict_until(n, max, size, w);
            assert(r == evict_until(m, max, size, w));
            if r.buckets[k2].entries.len() < n.buckets[k2].entries.len() {
                lemma_eviction_lowest_first(n, max, size, w, k1, k2);
            } else {
                assert(k2 == i);
                assert(!candidate(m.buckets[k1], w));
                assert(m.buckets[k1].entries.len() == 0);
            }
        }
    }
}

/// A successful eviction always leaves room for the entry it was made for, and a failed
/// one changes nothing.
pub proof fn lemma_eviction_makes_room(m: CacheModel, max: nat, sitemap: Seq<SiteMapEntry>, size: nat, w: Weight)
    requires
        model_wf(m, max),
    ensures
        eviction_succeeds(m, max, sitemap, size, w) ==> evict_model(m, max, sitemap, size, w).current_bytes + size < max,
        !eviction_succeeds(m, max, sitemap, size, w) ==> evict_model(m, max, sitemap, size, w) == m,
{
    if eviction_succeeds(m, max, sitemap, size, w) {
        lemma_evictable_le_held(m.buckets, w);
        lemma_evict_until_room(m, max, size, w);
    }
}

/// Eviction for an entry of weight `w` never touches entries of weight `w` or more: such
/// buckets come out unchanged, and the others only lose their newest entries.
pub proof fn lemma_eviction_spares_higher(m: CacheModel, max: nat, sitemap: Seq<SiteMapEntry>, size: nat, w: Weight)
    requires
        model_wf(m, max),
    ensures
        ({
            let r = evict_model(m, max, sitemap, size, w);
            &&& model_wf(r, max)
            &&& r.buckets.len() == m.buckets.len()
            &&& forall|k: int| 0 <= k < m.buckets.len() ==> (#[trigger] r.buckets[k]).weight == m.buckets[k].weight
            &&& forall|k: int| 0 <= k < m.buckets.len() && m.buckets[k].weight >= w ==> #[trigger] r.buckets[k]
                == m.buckets[k]
            &&& forall|k: int| 0 <= k < m.buckets.len() ==> (#[trigger] r.buckets[k]).entries.len()
                <= m.buckets[k].entries.len() && r.buckets[k].entries == m.buckets[k].entries.take(
                r.buckets[k].entries.len() as int,
            )
        }),
{
    lemma_evict_until_spares(m, max, size, w);
    if !eviction_succeeds(m, max, sitemap, size, w) {
        assert forall|k: int| 0 <= k < m.buckets.len() implies (#[trigger] m.buckets[k]).entries.len()
            <= m.buckets[k].entries.len() && m.buckets[k].entries == m.buckets[k].entries.take(
            m.buckets[k].entries.len() as int,
        ) by {
            assert(m.buckets[k].entries.take(m.buckets[k].entries.len() as int) =~= m.buckets[k].entries);
        }
    }
}

/// The bucket of a weight depends only on the buckets' weights.
pub proof fn lemma_bucket_of_same_weights(a: Seq<BucketModel>, b: Seq<BucketModel>, w: Weight)
    requires
        a.len() == b.len(),
        forall|k: int| 0 <= k < a.len() ==> (#[trigger] a[k]).weight == b[k].weight,
    ensures
        bucket_of(a, w) == bucket_of(b, w),
    decreases a.len(),
{
    if a.len() > 0 {
        let da = a.drop_last();
        let db = b.drop_last();
        assert forall|k: int| 0 <= k < da.len() implies (#[trigger] da[k]).weight == db[k].weight by {
            assert(da[k] == a[k]);
            assert(db[k] == b[k]);
        }
        lemma_bucket_of_same_weights(da, db, w);
    }
}

/// The first match depends only on the keys.
proof fn lemma_position_of_keys(c1: Seq<(RequestView, ItemModel)>, c2: Seq<(RequestView, ItemModel)>, k: RequestView)
    requires
        c1.len() == c2.len(),
        forall|t: int| 0 <= t < c1.len() ==> (#[trigger] c1[t]).0 == c2[t].0,
    ensures
        position_of(c1, k) == position_of(c2, k),
    decreases c1.len(),
{
    if c1.len() > 0 {
        let d1 = c1.drop_last();
        let d2 = c2.drop_last();
        assert forall|t: int| 0 <= t < d1.len() implies (#[trigger] d1[t]).0 == d2[t].0 by {
            assert(d1[t] == c1[t] && d2[t] == c2[t]);
        }
        lemma_position_of_keys(d1, d2, k);
        assert(c1.last().0 == c2[c2.len() - 1].0);
    }
}

pub proof fn lemma_entries_bytes_remove(es: Seq<EntryModel>, j: int)
    requires
        0 <= j < es.len(),
    ensures
        entries_bytes(es.remove(j)) + es[j].size == entries_bytes(es),
    decreases es.len(),
{
    if j == es.len() - 1 {
        assert(es.remove(j) =~= es.drop_last());
    } else {
        lemma_entries_bytes_remove(es.drop_last(), j);
        assert(es.remove(j).drop_last() =~= es.drop_last().remove(j));
        assert(es.remove(j).last() == es.last());
    }
}

/// Some stored response other than the one at `hole` is filed in the entry at `(i, j)`.
pub open spec fn filed_except(m: CacheModel, hole: Option<int>, i: int, j: int) -> bool {
    exists|t: int| 0 <= t < m.cache.len() && Some(t) != hole && (#[trigger] m.cache[t]).1.slot == (i, j)
}

/// `table_wf` for every stored response but the one at `hole`, whose slot is not used.
pub open spec fn table_wf_except(m: CacheModel, hole: Option<int>) -> bool {
    &&& forall|t: int| 0 <= t < m.cache.len() && Some(t) != hole ==> slot_valid(m, (#[trigger] m.cache[t]).1)
        && slot_entry(m, m.cache[t].1).size == m.cache[t].1.bytes.len()
        && request_eq(m.cache[t].0, slot_entry(m, m.cache[t].1).key)
    &&& forall|i: int, j: int| 0 <= i < m.buckets.len() && 0 <= j < m.buckets[i].entries.len() ==> #[trigger] filed_except(m, hole, i, j)
    &&& forall|t1: int, t2: int| 0 <= t1 < m.cache.len() && 0 <= t2 < m.cache.len() && t1 != t2 ==>
        !request_eq((#[trigger] m.cache[t1]).0, (#[trigger] m.cache[t2]).0) && (Some(t1) != hole && Some(t2) != hole
            ==> m.cache[t1].1.slot != m.cache[t2].1.slot)
}

proof fn lemma_table_wf_except_none(m: CacheModel)
    requires
        table_wf(m),
    ensures
        table_wf_except(m, None),
{
    assert forall|i: int, j: int| 0 <= i < m.buckets.len() && 0 <= j < m.buckets[i].entries.len() implies #[trigger] filed_except(m, None, i, j) by {
        assert(filed(m, i, j));
        let t = choose|t: int| 0 <= t < m.cache.len() && (#[trigger] m.cache[t]).1.slot == (i, j);
    }
}

/// Taking the response at `p` out of the accounting: the buckets stay consistent, the
/// counted bytes drop by its size, and every other response keeps its entry.
pub proof fn lemma_unfile(m: CacheModel, max: nat, p: int)
    requires
        model_wf(m, max),
        0 <= p < m.cache.len(),
    ensures
        ({
            let n = unfile(m, p);
            &&& forall|k: int| 0 <= k < n.buckets.len() ==> (#[trigger] n.buckets[k]).bytes == entries_bytes(n.buckets[k].entries)
            &&& total_held(n.buckets) == n.current_bytes
            &&& n.current_bytes <= m.current_bytes
            &&& n.buckets.len() == m.buckets.len()
            &&& forall|k: int| 0 <= k < m.buckets.len() ==> (#[trigger] n.buckets[k]).weight == m.buckets[k].weight
            &&& n.cache.len() == m.cache.len()
            &&& forall|t: int| 0 <= t < m.cache.len() ==> (#[trigger] n.cache[t]).0 == m.cache[t].0
            &&& table_wf_except(n, Some(p))
        }),
{
    let c = m.cache;
    let i0 = c[p].1.slot.0;
    let j0 = c[p].1.slot.1;
    let b = m.buckets[i0];
    let old = b.entries[j0];
    let n = unfile(m, p);
    assert(slot_valid(m, c[p].1));
    let nb = BucketModel { weight: b.weight, bytes: (b.bytes - old.size) as nat, entries: b.entries.remove(j0) };
    lemma_entries_bytes_remove(b.entries, j0);
    lemma_bucket_sum_ge(m.buckets, held(), i0);
    lemma_bucket_sum_update(m.buckets, held(), i0, nb);
    assert forall|k: int| 0 <= k < n.buckets.len() implies (#[trigger] n.buckets[k]).bytes == entries_bytes(n.buckets[k].entries) by {
        if k != i0 {
            assert(n.buckets[k] == m.buckets[k]);
        }
    }
    assert forall|t: int| 0 <= t < m.cache.len() implies (#[trigger] n.cache[t]).0 == m.cache[t].0 && n.cache[t].1
        == shifted(c[t].1, i0, j0) by {
    }
    // Where an entry of the new buckets was in the old ones.
    let was = |k: int, l: int|
        if k == i0 && l >= j0 {
            l + 1
        } else {
            l
        };
    assert forall|k: int, l: int| 0 <= k < n.buckets.len() && 0 <= l < n.buckets[k].entries.len() implies 0 <= was(k, l)
        < m.buckets[k].entries.len() && n.buckets[k].entries[l] == m.buckets[k].entries[was(k, l)] && (k, was(k, l)) != (
    i0,
    j0,
    ) by {
        if k != i0 {
            assert(n.buckets[k] == m.buckets[k]);
        }
    }
    // Every other response moves with its entry.
    assert forall|t: int| 0 <= t < c.len() && t != p implies slot_valid(n, (#[trigger] n.cache[t]).1) && slot_entry(
        n,
        n.cache[t].1,
    ) == slot_entry(m, c[t].1) by {
        assert(slot_valid(m, c[t].1));
        assert(c[t].1.slot != c[p].1.slot);
        let sl = c[t].1.slot;
        if sl.0 == i0 {
            if sl.1 > j0 {
                assert(n.buckets[i0].entries[sl.1 - 1] == b.entries[sl.1]);
            } else {
                assert(n.buckets[i0].entries[sl.1] == b.entries[sl.1]);
            }
        } else {
            assert(n.buckets[sl.0] == m.buckets[sl.0]);
        }
    }
    assert forall|i: int, j: int| 0 <= i < n.buckets.len() && 0 <= j < n.buckets[i].entries.len() implies #[trigger] filed_except(
        n,
        Some(p),
        i,
        j,
    ) by {
        let jj = was(i, j);
        assert(0 <= jj < m.buckets[i].entries.len());
        assert(filed(m, i, jj));
        let t = choose|t: int| 0 <= t < c.len() && (#[trigger] c[t]).1.slot == (i, jj);
        assert(t != p);
        assert(n.cache[t].1.slot == (i, j));
    }
    assert forall|t1: int, t2: int| 0 <= t1 < n.cache.len() && 0 <= t2 < n.cache.len() && t1 != t2 implies !request_eq(
        (#[trigger] n.cache[t1]).0,
        (#[trigger] n.cache[t2]).0,
    ) && (Some(t1) != Some(p) && Some(t2) != Some(p) ==> n.cache[t1].1.slot != n.cache[t2].1.slot) by {
        assert(c[t1].1.slot != c[t2].1.slot);
        if t1 != p && t2 != p {
            assert(c[t1].1.slot != c[p].1.slot);
            assert(c[t2].1.slot != c[p].1.slot);
        }
    }
}

/// Filing a new response in a new newest entry of bucket `i` restores `table_wf`.
proof fn lemma_file_new(m: CacheModel, key: RequestView, body: Seq<u8>, headers: Seq<HeaderView>, i: int, hole: Option<int>)
    requires
        table_wf_except(m, hole),
        position_of(m.cache, key) == hole,
        0 <= i < m.buckets.len(),
    ensures
        ({
            let b = m.buckets[i];
            let r = CacheModel {
                cache: cache_insert(m.cache, key, ItemModel { bytes: body, headers, slot: (i, b.entries.len() as int) }),
                buckets: m.buckets.update(
                    i,
                    BucketModel {
                        weight: b.weight,
                        bytes: b.bytes + body.len(),
                        entries: b.entries.push(EntryModel { key, size: body.len() }),
                    },
                ),
                current_bytes: m.current_bytes + body.len(),
            };
            table_wf(r)
        }),
{
    let b = m.buckets[i];
    let len0 = b.entries.len() as int;
    let item = ItemModel { bytes: body, headers, slot: (i, len0) };
    let r = CacheModel {
        cache: cache_insert(m.cache, key, item),
        buckets: m.buckets.update(
            i,
            BucketModel { weight: b.weight, bytes: b.bytes + body.len(), entries: b.entries.push(EntryModel { key, size: body.len() }) },
        ),
        current_bytes: m.current_bytes + body.len(),
    };
    let c = m.cache;
    lemma_position_of_bounds(c, key);
    assert(r.buckets[i].entries == b.entries.push(EntryModel { key, size: body.len() }));
    // Responses already filed keep their entries.
    assert forall|t: int| 0 <= t < c.len() && Some(t) != hole implies slot_valid(r, (#[trigger] c[t]).1) && slot_entry(
        r,
        c[t].1,
    ) == slot_entry(m, c[t].1) && c[t].1.slot != (i, len0) by {
        assert(slot_valid(m, c[t].1));
        let sl = c[t].1.slot;
        if sl.0 == i {
            assert(r.buckets[i].entries[sl.1] == b.entries[sl.1]);
        } else {
            assert(r.buckets[sl.0] == m.buckets[sl.0]);
        }
    }
    assert(slot_valid(r, item) && slot_entry(r, item) == EntryModel { key, size: body.len() });
    // The new response's position in the table.
    let q = match hole {
        Some(p) => p,
        None => c.len() as int,
    };
    assert(r.cache[q] == (if q < c.len() { c[q].0 } else { key }, item));
    assert forall|t: int| 0 <= t < r.cache.len() && t != q implies r.cache[t] == c[t] && Some(t) != hole by {
    }
    assert(r.cache.len() == if hole is Some { c.len() } else { c.len() + 1 });
    crate::request::lemma_request_eq_reflexive(key);
    assert forall|t: int| 0 <= t < r.cache.len() implies slot_valid(r, (#[trigger] r.cache[t]).1) && slot_entry(
        r,
        r.cache[t].1,
    ).size == r.cache[t].1.bytes.len() && request_eq(r.cache[t].0, slot_entry(r, r.cache[t].1).key) by {
        if t != q {
            assert(r.cache[t] == c[t]);
        }
    }
    assert forall|k: int, j: int| 0 <= k < r.buckets.len() && 0 <= j < r.buckets[k].entries.len() implies #[trigger] filed(
        r,
        k,
        j,
    ) by {
        if k == i && j == len0 {
            assert(r.cache[q].1.slot == (k, j));
        } else {
            if k == i {
                assert(r.buckets[k].entries[j] == m.buckets[k].entries[j]);
            } else {
                assert(r.buckets[k] == m.buckets[k]);
            }
            assert(filed_except(m, hole, k, j));
            let t = choose|t: int| 0 <= t < c.len() && Some(t) != hole && (#[trigger] c[t]).1.slot == (k, j);
            assert(t != q);
            assert(r.cache[t] == c[t]);
        }
    }
    assert forall|t1: int, t2: int| 0 <= t1 < r.cache.len() && 0 <= t2 < r.cache.len() && t1 != t2 implies !request_eq(
        (#[trigger] r.cache[t1]).0,
        (#[trigger] r.cache[t2]).0,
    ) && r.cache[t1].1.slot != r.cache[t2].1.slot by {
        if t1 != q {
            assert(r.cache[t1] == c[t1]);
        }
        if t2 != q {
            assert(r.cache[t2] == c[t2]);
        }
        if hole is None {
            if t1 == q {
                assert(!request_eq(c[t2].0, key));
                if request_eq(key, c[t2].0) {
                    crate::request::lemma_request_eq_symmetric(key, c[t2].0);
                }
            }
            if t2 == q {
                assert(!request_eq(c[t1].0, key));
            }
        }
    }
}

/// After an insertion that fits and has a bucket of its weight, the response is the
/// one found under its key.
pub proof fn lemma_inserted_is_found(
    m: CacheModel,
    max: nat,
    key: RequestView,
    body: Seq<u8>,
    headers: Seq<HeaderView>,
    w: Weight,
)
    requires
        m.current_bytes + body.len() < max,
        bucket_of(m.buckets, w) is Some,
    ensures
        cache_get(insert_model(m, max, key, body, headers, w).cache, key) matches Some(item) && item.bytes == body
            && item.headers == headers,
{
    let i = bucket_of(m.buckets, w)->0;
    let m1 = match position_of(m.cache, key) {
        Some(p) => unfile(m, p),
        None => m,
    };
    let item = ItemModel { bytes: body, headers, slot: (i, m1.buckets[i].entries.len() as int) };
    lemma_stored_is_found(m1.cache, key, item);
}

/// Storing a response keeps the model well formed: the counted bytes stay within the
/// budget and equal what the buckets hold, and the table still matches the buckets.
pub proof fn lemma_insert_keeps_budget(
    m: CacheModel,
    max: nat,
    key: RequestView,
    body: Seq<u8>,
    headers: Seq<HeaderView>,
    w: Weight,
)
    requires
        model_wf(m, max),
    ensures
        model_wf(insert_model(m, max, key, body, headers, w), max),
{
    if m.current_bytes + body.len() < max && bucket_of(m.buckets, w) is Some {
        lemma_bucket_of(m.buckets, w);
        let i = bucket_of(m.buckets, w)->0;
        let hole = position_of(m.cache, key);
        let m1 = match hole {
            Some(p) => unfile(m, p),
            None => m,
        };
        match hole {
            Some(p) => {
                lemma_position_of_bounds(m.cache, key);
                lemma_unfile(m, max, p);
                lemma_position_of_keys(m1.cache, m.cache, key);
            },
            None => {
                lemma_table_wf_except_none(m);
            },
        }
        let b = m1.buckets[i];
        let e = EntryModel { key, size: body.len() };
        let nb = BucketModel { weight: b.weight, bytes: b.bytes + body.len(), entries: b.entries.push(e) };
        lemma_entries_bytes_push(b.entries, e);
        lemma_bucket_sum_update(m1.buckets, held(), i, nb);
        lemma_file_new(m1, key, body, headers, i, hole);
        let r = insert_model(m, max, key, body, headers, w);
        assert forall|k: int| 0 <= k < r.buckets.len() implies (#[trigger] r.buckets[k]).bytes
            == entries_bytes(r.buckets[k].entries) by {
            if k != i {
                assert(r.buckets[k] == m1.buckets[k]);
            }
        }
    }
}

/// Storing a response again under a key that already has one replaces it: the table
/// keeps its size, and the old body's bytes give way to the new body's.
pub proof fn lemma_resave_replaces(
    m: CacheModel,
    max: nat,
    key: RequestView,
    body: Seq<u8>,
    headers: Seq<HeaderView>,
    w: Weight,
)
    requires
        model_wf(m, max),
        m.current_bytes + body.len() < max,
        bucket_of(m.buckets, w) is Some,
        cache_get(m.cache, key) is Some,
    ensures
        ({
            let r = insert_model(m, max, key, body, headers, w);
            &&& r.cache.len() == m.cache.len()
            &&& r.current_bytes + cache_get(m.cache, key)->0.bytes.len() == m.current_bytes + body.len()
        }),
{
    lemma_position_of_bounds(m.cache, key);
    let p = position_of(m.cache, key)->0;
    assert(slot_valid(m, m.cache[p].1));
    let i0 = m.cache[p].1.slot.0;
    let j0 = m.cache[p].1.slot.1;
    lemma_entries_bytes_remove(m.buckets[i0].entries, j0);
    lemma_bucket_sum_ge(m.buckets, held(), i0);
    lemma_unfile(m, max, p);
    let m1 = unfile(m, p);
    lemma_position_of_keys(m1.cache, m.cache, key);
    assert(m1.current_bytes + m.cache[p].1.bytes.len() == m.current_bytes);
    assert(m1.cache.len() == m.cache.len());
}

/// The buckets `a` are the buckets `b` with the same weights, in the same order.
pub open spec fn same_weights(a: Seq<BucketModel>, b: Seq<BucketModel>) -> bool {
    a.len() == b.len() && forall|k: int| 0 <= k < a.len() ==> (#[trigger] a[k]).weight == b[k].weight
}

/// Every priority of the sitemap has a bucket.
pub open spec fn priorities_have_buckets(sitemap: Seq<SiteMapEntry>, bs: Seq<BucketModel>) -> bool {
    forall|k: int| 0 <= k < sitemap.len() ==> bucket_of(bs, (#[trigger] sitemap[k]).priority) is Some
}

/// Buckets with the same weights serve the same priorities.
pub proof fn lemma_same_weights_keep_buckets(sitemap: Seq<SiteMapEntry>, a: Seq<BucketModel>, b: Seq<BucketModel>)
    requires
        priorities_have_buckets(sitemap, b),
        same_weights(a, b),
    ensures
        priorities_have_buckets(sitemap, a),
{
    assert forall|k: int| 0 <= k < sitemap.len() implies bucket_of(a, (#[trigger] sitemap[k]).priority) is Some by {
        lemma_bucket_of_same_weights(a, b, sitemap[k].priority);
    }
}

/// Storing a response keeps the buckets and their weights.
pub proof fn lemma_insert_keeps_weights(
    m: CacheModel,
    max: nat,
    key: RequestView,
    body: Seq<u8>,
    headers: Seq<HeaderView>,
    w: Weight,
)
    requires
        model_wf(m, max),
    ensures
        same_weights(insert_model(m, max, key, body, headers, w).buckets, m.buckets),
{
    if m.current_bytes + body.len() < max && bucket_of(m.buckets, w) is Some {
        lemma_bucket_of(m.buckets, w);
        match position_of(m.cache, key) {
            Some(p) => {
                lemma_position_of_bounds(m.cache, key);
                lemma_unfile(m, max, p);
            },
            None => {},
        }
    }
}

/// Eviction keeps the buckets and their weights.
pub proof fn lemma_evict_keeps_weights(m: CacheModel, max: nat, size: nat, w: Weight)
    requires
        model_wf(m, max),
    ensures
        same_weights(evict_until(m, max, size, w).buckets, m.buckets),
{
    lemma_evict_until_spares(m, max, size, w);
}

/// The size of a bucket's entries.
pub open spec fn entries_bytes_of() -> spec_fn(BucketModel) -> nat {
    |b: BucketModel| entries_bytes(b.entries)
}

proof fn lemma_entries_bytes_update(es: Seq<EntryModel>, j: int, e: EntryModel)
    requires
        0 <= j < es.len(),
    ensures
        entries_bytes(es.update(j, e)) + es[j].size == entries_bytes(es) + e.size,
    decreases es.len(),
{
    if j == es.len() - 1 {
        assert(es.update(j, e).drop_last() =~= es.drop_last());
    } else {
        lemma_entries_bytes_update(es.drop_last(), j, e);
        assert(es.update(j, e).drop_last() =~= es.drop_last().update(j, e));
    }
}

/// Entries that are all empty take no bytes.
proof fn lemma_entries_bytes_zero(es: Seq<EntryModel>)
    requires
        forall|j: int| 0 <= j < es.len() ==> (#[trigger] es[j]).size == 0,
    ensures
        entries_bytes(es) == 0,
    decreases es.len(),
{
    if es.len() > 0 {
        let d = es.drop_last();
        assert forall|j: int| 0 <= j < d.len() implies (#[trigger] d[j]).size == 0 by {
            assert(d[j] == es[j]);
        }
        lemma_entries_bytes_zero(d);
    }
}

/// Buckets whose entries are all empty hold no bytes.
proof fn lemma_bucket_sum_zero(bs: Seq<BucketModel>)
    requires
        forall|i: int, j: int| 0 <= i < bs.len() && 0 <= j < bs[i].entries.len() ==> (#[trigger] bs[i].entries[j]).size == 0,
    ensures
        bucket_sum(bs, entries_bytes_of()) == 0,
    decreases bs.len(),
{
    if bs.len() > 0 {
        let d = bs.drop_last();
        assert forall|i: int, j: int| 0 <= i < d.len() && 0 <= j < d[i].entries.len() implies (#[trigger] d[i].entries[j]).size == 0 by {
            assert(d[i] == bs[i]);
        }
        lemma_bucket_sum_zero(d);
        let l = bs.last();
        assert forall|j: int| 0 <= j < l.entries.len() implies (#[trigger] l.entries[j]).size == 0 by {
            assert(bs[bs.len() - 1].entries[j].size == 0);
        }
        lemma_entries_bytes_zero(l.entries);
    }
}

/// Stored bodies filed in distinct entries of their own size, with every non-empty
/// entry filed, take exactly what the entries do together.
proof fn lemma_stored_eq_entries(c: Seq<(RequestView, ItemModel)>, bs: Seq<BucketModel>)
    requires
        forall|t: int| 0 <= t < c.len() ==> {
            let sl = (#[trigger] c[t]).1.slot;
            &&& 0 <= sl.0 < bs.len()
            &&& 0 <= sl.1 < bs[sl.0].entries.len()
            &&& bs[sl.0].entries[sl.1].size == c[t].1.bytes.len()
        },
        forall|t1: int, t2: int| 0 <= t1 < c.len() && 0 <= t2 < c.len() && t1 != t2 ==> (#[trigger] c[t1]).1.slot
            != (#[trigger] c[t2]).1.slot,
        forall|i: int, j: int| 0 <= i < bs.len() && 0 <= j < bs[i].entries.len() && (#[trigger] bs[i].entries[j]).size > 0
            ==> exists|t: int| 0 <= t < c.len() && (#[trigger] c[t]).1.slot == (i, j),
    ensures
        stored_bytes(c) == bucket_sum(bs, entries_bytes_of()),
    decreases c.len(),
{
    if c.len() == 0 {
        lemma_bucket_sum_zero(bs);
    } else {
        let last = c.len() - 1;
        let x = c[last];
        let i = x.1.slot.0;
        let j = x.1.slot.1;
        let b = bs[i];
        let e0 = EntryModel { key: b.entries[j].key, size: 0 };
        let nb = BucketModel { weight: b.weight, bytes: b.bytes, entries: b.entries.update(j, e0) };
        let bs2 = bs.update(i, nb);
        lemma_entries_bytes_update(b.entries, j, e0);
        lemma_bucket_sum_update(bs, entries_bytes_of(), i, nb);
        let d = c.drop_last();
        assert forall|t: int| 0 <= t < d.len() implies {
            let sl = (#[trigger] d[t]).1.slot;
            &&& 0 <= sl.0 < bs2.len()
            &&& 0 <= sl.1 < bs2[sl.0].entries.len()
            &&& bs2[sl.0].entries[sl.1].size == d[t].1.bytes.len()
        } by {
            assert(d[t] == c[t]);
            assert(c[t].1.slot != c[last].1.slot);
        }
        assert forall|t1: int, t2: int| 0 <= t1 < d.len() && 0 <= t2 < d.len() && t1 != t2 implies (#[trigger] d[t1]).1.slot
            != (#[trigger] d[t2]).1.slot by {
            assert(d[t1] == c[t1] && d[t2] == c[t2]);
        }
        assert forall|k: int, l: int| 0 <= k < bs2.len() && 0 <= l < bs2[k].entries.len() && (#[trigger] bs2[k].entries[l]).size > 0
            implies exists|t: int| 0 <= t < d.len() && (#[trigger] d[t]).1.slot == (k, l) by {
            if k == i {
                assert(l != j);
                assert(bs2[k].entries[l] == bs[k].entries[l]);
            } else {
                assert(bs2[k] == bs[k]);
            }
            assert(bs[k].entries[l].size > 0);
            let t = choose|t: int| 0 <= t < c.len() && (#[trigger] c[t]).1.slot == (k, l);
            assert(t != last);
            assert(d[t] == c[t]);
        }
        lemma_stored_eq_entries(d, bs2);
    }
}

/// The accounting is exact: the stored bodies take exactly the bytes the buckets hold,
/// which are exactly the counted bytes; and those are zero or below the budget. So the
/// cache never holds as much body data as its budget.
pub proof fn lemma_stored_within_budget(m: CacheModel, max: nat)
    requires
        model_wf(m, max),
    ensures
        stored_bytes(m.cache) == total_held(m.buckets),
        total_held(m.buckets) == m.current_bytes,
        stored_bytes(m.cache) == 0 || stored_bytes(m.cache) < max,
{
    assert forall|t: int| 0 <= t < m.cache.len() implies {
        let sl = (#[trigger] m.cache[t]).1.slot;
        &&& 0 <= sl.0 < m.buckets.len()
        &&& 0 <= sl.1 < m.buckets[sl.0].entries.len()
        &&& m.buckets[sl.0].entries[sl.1].size == m.cache[t].1.bytes.len()
    } by {
        assert(slot_valid(m, m.cache[t].1));
    }
    assert forall|i: int, j: int| 0 <= i < m.buckets.len() && 0 <= j < m.buckets[i].entries.len() && (#[trigger] m.buckets[i].entries[j]).size > 0
        implies exists|t: int| 0 <= t < m.cache.len() && (#[trigger] m.cache[t]).1.slot == (i, j) by {
        assert(filed(m, i, j));
    }
    lemma_stored_eq_entries(m.cache, m.buckets);
    assert forall|i: int| 0 <= i < m.buckets.len() implies #[trigger] entries_bytes_of()(m.buckets[i]) == held()(m.buckets[i]) by {
    }
    lemma_bucket_sum_le(m.buckets, entries_bytes_of(), held());
    lemma_bucket_sum_le(m.buckets, held(), entries_bytes_of());
}

/// Some bucket of weight below `w` has an entry whose key `key` is equal to.
pub open spec fn keyed_below(m: CacheModel, key: RequestView, w: Weight) -> bool {
    exists|k: int, j: int|
        0 <= k < m.buckets.len() && m.buckets[k].weight < w && 0 <= j < m.buckets[k].entries.len()
            && request_eq(key, #[trigger] m.buckets[k].entries[j].key)
}

proof fn lemma_evict_until_keeps_stored(m: CacheModel, max: nat, size: nat, w: Weight, x: (RequestView, ItemModel))
    requires
        model_wf(m, max),
    ensures
        forall|y: (RequestView, ItemModel)| #[trigger] evict_until(m, max, size, w).cache.contains(y) ==> m.cache.contains(y),
        m.cache.contains(x) && !keyed_below(m, x.0, w) ==> evict_until(m, max, size, w).cache.contains(x),
    decreases total_entries(m.buckets),
{
    if m.current_bytes + size < max {
    } else {
        lemma_lowest_bucket(m.buckets, w);
        match lowest_bucket(m.buckets, w) {
            None => {},
            Some(i) => {
                lemma_evict_step(m, max, i, w);
                let n = evict_step(m, i);
                let c = m.cache;
                let e = m.buckets[i].entries.last();
                lemma_evict_until_keeps_stored(n, max, size, w, x);
                lemma_position_of_bounds(c, e.key);
                // The step only removes.
                assert forall|y: (RequestView, ItemModel)| #[trigger] n.cache.contains(y) implies c.contains(y) by {
                    match position_of(c, e.key) {
                        Some(p) => {
                            let q = choose|q: int| 0 <= q < n.cache.len() && n.cache[q] == y;
                            if q < p {
                                assert(c[q] == y);
                            } else {
                                assert(c[q + 1] == y);
                            }
                        },
                        None => {},
                    }
                }
                if c.contains(x) && !keyed_below(m, x.0, w) {
                    let t = choose|t: int| 0 <= t < c.len() && c[t] == x;
                    let last = m.buckets[i].entries.len() - 1;
                    assert(m.buckets[i].entries[last] == e);
                    assert(!request_eq(x.0, e.key));
                    match position_of(c, e.key) {
                        Some(p) => {
                            assert(t != p);
                            if t < p {
                                assert(n.cache[t] == x);
                            } else {
                                assert(n.cache[t - 1] == x);
                            }
                        },
                        None => {
                            assert(n.cache[t] == x);
                        },
                    }
                    assert(n.cache.contains(x));
                    assert forall|k: int, j: int|
                        0 <= k < n.buckets.len() && n.buckets[k].weight < w && 0 <= j < n.buckets[k].entries.len()
                            implies !request_eq(x.0, #[trigger] n.buckets[k].entries[j].key) by {
                        if k == i {
                            assert(n.buckets[i].entries[j] == m.buckets[i].entries[j]);
                        } else {
                            assert(n.buckets[k] == m.buckets[k]);
                        }
                    }
                }
                assert forall|y: (RequestView, ItemModel)| #[trigger] evict_until(m, max, size, w).cache.contains(y)
                    implies m.cache.contains(y) by {
                    assert(evict_until(m, max, size, w) == evict_until(n, max, size, w));
                    assert(n.cache.contains(y));
                }
            },
        }
    }
}

/// Eviction stores nothing new and changes no stored response; a stored response is
/// evicted only if its key has an entry in a bucket of weight below `w` (it was stored,
/// or stored again, with a lower priority). In particular every response stored with
/// priority `w` or more, and never under a lower one, survives.
pub proof fn lemma_eviction_spares_stored(
    m: CacheModel,
    max: nat,
    sitemap: Seq<SiteMapEntry>,
    size: nat,
    w: Weight,
    x: (RequestView, ItemModel),
)
    requires
        model_wf(m, max),
    ensures
        forall|y: (RequestView, ItemModel)| #[trigger] evict_model(m, max, sitemap, size, w).cache.contains(y) ==> m.cache.contains(y),
        m.cache.contains(x) && !keyed_below(m, x.0, w) ==> evict_model(m, max, sitemap, size, w).cache.contains(x),
{
    lemma_evict_until_keeps_stored(m, max, size, w, x);
}

/// A prefix of the table stores no more body bytes than the whole.
pub proof fn lemma_stored_bytes_prefix(c: Seq<(RequestView, ItemModel)>, n: int)
    requires
        0 <= n <= c.len(),
    ensures
        stored_bytes(c.take(n)) <= stored_bytes(c),
        n < c.len() ==> stored_bytes(c.take(n + 1)) == stored_bytes(c.take(n)) + c[n].1.bytes.len(),
    decreases c.len() - n,
{
    if n < c.len() {
        assert(c.take(n + 1).drop_last() =~= c.take(n));
        lemma_stored_bytes_prefix(c, n + 1);
    } else {
        assert(c.take(n) =~= c);
    }
}

} // verus!

