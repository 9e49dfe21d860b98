//! A bounded least-recently-used cache of rasterized glyph bitmaps, keyed by
//! character, quantized font size and packed color.
use vstd::prelude::*;

verus! {

/// `(character code, font size in whole pixels, color packed as ARGB)`.
pub type GlyphKey = (u32, u32, u32);

/// A rasterized glyph: `(pixel width, pixel height, is wide, RGBA bytes)`.
pub type CachedChar = (u32, u32, bool, Vec<u8>);

/// A cached glyph as plain values.
pub type GlyphView = (u32, u32, bool, Seq<u8>);

pub open spec fn glyph_view(g: CachedChar) -> GlyphView {
    (g.0, g.1, g.2, g.3@)
}

/// How many glyphs the shared cache keeps.
pub const GLYPH_CACHE_CAPACITY: usize = 1000;

/// Font sizes are given in thousandths of a pixel.
pub const MILLI_PER_PX: u32 = 1000;

/// `lru::LruCache`, an opaque bounded map with a recency order.
#[verifier::external_type_specification]
#[verifier::external_body]
#[verifier::reject_recursive_types(K)]
#[verifier::reject_recursive_types(V)]
#[verifier::reject_recursive_types(S)]
pub struct ExLruCache<K, V, S>(lru::LruCache<K, V, S>);

/// The hasher `lru::LruCache` uses by default; only carried along.
#[verifier::external_type_specification]
#[verifier::external_body]
pub struct ExLruDefaultHasher(lru::DefaultHasher);

/// The entries of an LRU cache, least recently used first.
pub uninterp spec fn lru_entries(c: lru::LruCache<(u32, u32, u32), (u32, u32, bool, Vec<u8>)>) -> Seq<
    ((u32, u32, u32), (u32, u32, bool, Seq<u8>)),
>;

/// The capacity an LRU cache was created with.
pub uninterp spec fn lru_capacity(c: lru::LruCache<(u32, u32, u32), (u32, u32, bool, Vec<u8>)>) -> nat;

/// Position of the entry with key `k`, or -1 when there is none.
pub open spec fn key_pos(s: Seq<(GlyphKey, GlyphView)>, k: GlyphKey) -> int
    decreases s.len(),
{
    if s.len() == 0 {
        -1
    } else if s.last().0 == k {
        s.len() - 1
    } else {
        key_pos(s.drop_last(), k)
    }
}

/// No key occurs twice.
pub open spec fn unique_keys(s: Seq<(GlyphKey, GlyphView)>) -> bool {
    forall|i: int, j: int| 0 <= i < j < s.len() ==> #[trigger] s[i].0 != #[trigger] s[j].0
}

/// Whether some entry has key `k`.
pub open spec fn has_key(s: Seq<(GlyphKey, GlyphView)>, k: GlyphKey) -> bool {
    exists|i: int| 0 <= i < s.len() && #[trigger] s[i].0 == k
}

/// The entries after a lookup of `k`: a hit becomes the most recently used.
pub open spec fn after_get(s: Seq<(GlyphKey, GlyphView)>, k: GlyphKey) -> Seq<(GlyphKey, GlyphView)> {
    let i = key_pos(s, k);
    if i >= 0 {
        s.remove(i).push(s[i])
    } else {
        s
    }
}

/// The entries after storing `v` under `k` in a cache of capacity `cap`: an
/// existing entry is replaced and becomes the most recently used; a new key is
/// appended, first evicting the least recently used entry when the cache is
/// full.
pub open spec fn after_put(s: Seq<(GlyphKey, GlyphView)>, cap: nat, k: GlyphKey, v: GlyphView) -> Seq<
    (GlyphKey, GlyphView),
> {
    let i = key_pos(s, k);
    if i >= 0 {
        s.remove(i).push((k, v))
    } else if s.len() >= cap {
        s.subrange(1, s.len() as int).push((k, v))
    } else {
        s.push((k, v))
    }
}

/// Relies on `lru::LruCache::new`: an empty cache that holds at most `cap`
/// entries.
#[verifier::external_body]
fn lru_new(cap: usize) -> (r: lru::LruCache<GlyphKey, CachedChar>)
    requires
        cap > 0,
    ensures
        lru_entries(r) == Seq::<(GlyphKey, GlyphView)>::empty(),
        lru_capacity(r) == cap,
{
    lru::LruCache::new(std::num::NonZeroUsize::new(cap).unwrap())
}

/// Relies on `lru::LruCache::get`: a hit returns the stored value and moves
/// its entry to the most recently used end; a miss changes nothing. The
/// cache's map keeps keys unique and its length within the capacity.
#[verifier::external_body]
fn lru_get(c: &mut lru::LruCache<GlyphKey, CachedChar>, k: GlyphKey) -> (r: Option<CachedChar>)
    ensures
        lru_entries(*final(c)) == after_get(lru_entries(*old(c)), k),
        lru_capacity(*final(c)) == lru_capacity(*old(c)),
        key_pos(lru_entries(*old(c)), k) >= 0 ==> r.is_some() && glyph_view(r.unwrap())
            == lru_entries(*old(c))[key_pos(lru_entries(*old(c)), k)].1,
        key_pos(lru_entries(*old(c)), k) < 0 ==> r.is_none(),
        unique_keys(lru_entries(*final(c))),
        lru_entries(*final(c)).len() <= lru_capacity(*final(c)),
{
    c.get(&k).cloned()
}

/// Relies on `lru::LruCache::put`: replaces the value of an existing key and
/// moves it to the most recently used end, or appends a new entry after
/// evicting the least recently used one when the cache is full.
#[verifier::external_body]
fn lru_put(c: &mut lru::LruCache<GlyphKey, CachedChar>, k: GlyphKey, v: CachedChar)
    ensures
        lru_entries(*final(c)) == after_put(
            lru_entries(*old(c)),
            lru_capacity(*old(c)),
            k,
            glyph_view(v),
        ),
        lru_capacity(*final(c)) == lru_capacity(*old(c)),
        unique_keys(lru_entries(*final(c))),
        lru_entries(*final(c)).len() <= lru_capacity(*final(c)),
{
    c.put(k, v);
}

/// Relies on `lru::LruCache::len`: the number of entries.
#[verifier::external_body]
fn lru_len(c: &lru::LruCache<GlyphKey, CachedChar>) -> (r: usize)
    ensures
        r == lru_entries(*c).len(),
{
    c.len()
}

/// The glyph cache.
pub struct GlyphCache {
    lru: lru::LruCache<GlyphKey, CachedChar>,
}

impl GlyphCache {
    /// The entries, least recently used first.
    pub closed spec fn entries(&self) -> Seq<(GlyphKey, GlyphView)> {
        lru_entries(self.lru)
    }

    /// The most entries the cache keeps.
    pub closed spec fn capacity(&self) -> nat {
        lru_capacity(self.lru)
    }

    pub open spec fn wf(&self) -> bool {
        &&& self.capacity() > 0
        &&& unique_keys(self.entries())
        &&& self.entries().len() <= self.capacity()
    }

    /// An empty cache that keeps at most `capacity` glyphs.
    pub fn new(capacity: usize) -> (r: GlyphCache)
        requires
            capacity > 0,
        ensures
            r.wf(),
            r.entries() == Seq::<(GlyphKey, GlyphView)>::empty(),
            r.capacity() == capacity,
    {
        GlyphCache { lru: lru_new(capacity) }
    }

    /// Looks `key` up; a hit becomes the most recently used entry.
    pub fn get(&mut self, key: GlyphKey) -> (r: Option<CachedChar>)
        requires
            old(self).wf(),
        ensures
            final(self).wf(),
            final(self).capacity() == old(self).capacity(),
            final(self).entries() == after_get(old(self).entries(), key),
            r.is_some() == has_key(old(self).entries(), key),
            r.is_some() ==> glyph_view(r.unwrap()) == old(self).entries()[key_pos(
                old(self).entries(),
                key,
            )].1,
    {
        proof {
            lemma_key_pos(self.entries(), key);
        }
        lru_get(&mut self.lru, key)
    }

    /// Stores `glyph` under `key`, evicting the least recently used entry when
    /// a new key meets a full cache.
    pub fn put(&mut self, key: GlyphKey, glyph: CachedChar)
        requires
            old(self).wf(),
        ensures
            final(self).wf(),
            final(self).capacity() == old(self).capacity(),
            final(self).entries() == after_put(
                old(self).entries(),
                old(self).capacity(),
                key,
                glyph_view(glyph),
            ),
    {
        lru_put(&mut self.lru, key, glyph)
    }

    /// The number of cached glyphs.
    pub fn len(&self) -> (r: usize)
        ensures
            r == self.entries().len(),
    {
        lru_len(&self.lru)
    }

    /// Whether `key` is cached, without changing the recency order.
    pub fn contains(&self, key: GlyphKey) -> (r: bool)
        ensures
            r == has_key(self.entries(), key),
    {
        // Probing through `get` would reorder the entries, so compare on a
        // snapshot of the recency order instead.
        proof {
            lemma_key_pos(self.entries(), key);
        }
        lru_contains(&self.lru, key)
    }
}

/// Relies on `lru::LruCache::contains`: whether the key has an entry; the
/// recency order is not touched.
#[verifier::external_body]
fn lru_contains(c: &lru::LruCache<GlyphKey, CachedChar>, k: GlyphKey) -> (r: bool)
    ensures
        r == (key_pos(lru_entries(*c), k) >= 0),
{
    c.contains(&k)
}

/// `key_pos` finds an entry with the key exactly when one exists.
pub proof fn lemma_key_pos(s: Seq<(GlyphKey, GlyphView)>, k: GlyphKey)
    ensures
        -1 <= key_pos(s, k) < s.len(),
        key_pos(s, k) >= 0 ==> s[key_pos(s, k)].0 == k,
        key_pos(s, k) >= 0 <==> has_key(s, k),
        unique_keys(s) ==> forall|i: int| 0 <= i < s.len() && #[trigger] s[i].0 == k ==> i == key_pos(s, k),
    decreases s.len(),
{
    if s.len() > 0 {
        let t = s.drop_last();
        lemma_key_pos(t, k);
        if s.last().0 != k {
            if has_key(t, k) {
                let i = choose|i: int| 0 <= i < t.len() && #[trigger] t[i].0 == k;
                assert(s[i].0 == k);
            }
            if has_key(s, k) {
                let i = choose|i: int| 0 <= i < s.len() && #[trigger] s[i].0 == k;
                assert(t[i].0 == k);
            }
            if unique_keys(s) {
                assert(unique_keys(t)) by {
                    assert forall|i: int, j: int| 0 <= i < j < t.len() implies #[trigger] t[i].0
                        != #[trigger] t[j].0 by {
                        assert(s[i].0 != s[j].0);
                    }
                }
                assert forall|i: int| 0 <= i < s.len() && #[trigger] s[i].0 == k implies i
                    == key_pos(s, k) by {
                    assert(t[i].0 == k);
                }
            }
        } else {
            assert(s[s.len() - 1].0 == k);
        }
    }
}

/// Storing a new key in a full cache evicts exactly the least recently used
/// entry: that key is gone, the new key and every other key remain.
pub proof fn lemma_put_evicts_least_recent(
    s: Seq<(GlyphKey, GlyphView)>,
    cap: nat,
    k: GlyphKey,
    v: GlyphView,
)
    requires
        unique_keys(s),
        s.len() == cap,
        cap > 0,
        !has_key(s, k),
    ensures
        after_put(s, cap, k, v).len() == cap,
        !has_key(after_put(s, cap, k, v), s[0].0),
        has_key(after_put(s, cap, k, v), k),
        forall|i: int| 1 <= i < s.len() ==> has_key(after_put(s, cap, k, v), #[trigger] s[i].0),
{
    lemma_key_pos(s, k);
    let t = after_put(s, cap, k, v);
    assert(t == s.subrange(1, s.len() as int).push((k, v)));
    assert(t[t.len() - 1].0 == k);
    assert forall|i: int| 1 <= i < s.len() implies has_key(t, #[trigger] s[i].0) by {
        assert(t[i - 1] == s[i]);
    }
    if has_key(t, s[0].0) {
        let j = choose|j: int| 0 <= j < t.len() && #[trigger] t[j].0 == s[0].0;
        if j < t.len() - 1 {
            assert(t[j] == s[j + 1]);
        }
    }
}

/// A key that was looked up after the last store survives the next eviction,
/// once the cache holds two entries or more.
pub proof fn lemma_get_protects_from_eviction(
    s: Seq<(GlyphKey, GlyphView)>,
    cap: nat,
    a: GlyphKey,
    k: GlyphKey,
    v: GlyphView,
)
    requires
        unique_keys(s),
        s.len() == cap,
        cap >= 2,
        has_key(s, a),
        !has_key(s, k),
    ensures
        has_key(after_put(after_get(s, a), cap, k, v), a),
{
    lemma_key_pos(s, a);
    let i = key_pos(s, a);
    let g = after_get(s, a);
    assert(g == s.remove(i).push(s[i]));
    assert(g.len() == cap);
    assert(g[g.len() - 1].0 == a);
    assert(!has_key(g, k)) by {
        if has_key(g, k) {
            let j = choose|j: int| 0 <= j < g.len() && #[trigger] g[j].0 == k;
            if j < g.len() - 1 {
                if j < i {
                    assert(g[j] == s[j]);
                } else {
                    assert(g[j] == s[j + 1]);
                }
            }
        }
    }
    lemma_key_pos(g, k);
    let t = after_put(g, cap, k, v);
    assert(t == g.subrange(1, g.len() as int).push((k, v)));
    assert(t[g.len() - 2] == g[g.len() - 1]);
}

/// A store adds at most its own key; a lookup adds none.
pub proof fn lemma_new_keys(s: Seq<(GlyphKey, GlyphView)>, cap: nat, key: GlyphKey, v: GlyphView, k: GlyphKey)
    requires
        cap > 0,
    ensures
        has_key(after_put(s, cap, key, v), k) ==> k == key || has_key(s, k),
        has_key(after_get(s, key), k) ==> has_key(s, k),
{
    lemma_key_pos(s, key);
    let i = key_pos(s, key);
    if has_key(after_put(s, cap, key, v), k) && k != key {
        let t = after_put(s, cap, key, v);
        let j = choose|j: int| 0 <= j < t.len() && #[trigger] t[j].0 == k;
        if i >= 0 {
            assert(t == s.remove(i).push((key, v)));
            assert(t[t.len() - 1].0 == key);
            assert(j < t.len() - 1);
            if j < i {
                assert(s[j].0 == k);
            } else {
                assert(s[j + 1].0 == k);
            }
        } else if s.len() >= cap {
            assert(t == s.subrange(1, s.len() as int).push((key, v)));
            assert(t[t.len() - 1].0 == key);
            assert(j < t.len() - 1);
            assert(t[j] == s[j + 1]);
            assert(s[j + 1].0 == k);
        } else {
            assert(t == s.push((key, v)));
            assert(t[t.len() - 1].0 == key);
            assert(j < t.len() - 1);
            assert(t[j] == s[j]);
            assert(s[j].0 == k);
        }
    }
    if has_key(after_get(s, key), k) {
        let t = after_get(s, key);
        let j = choose|j: int| 0 <= j < t.len() && #[trigger] t[j].0 == k;
        if i >= 0 {
            assert(t == s.remove(i).push(s[i]));
            if j == t.len() - 1 {
                assert(s[i].0 == k);
            } else if j < i {
                assert(s[j].0 == k);
            } else {
                assert(s[j + 1].0 == k);
            }
        }
    }
}

/// The glyph stored under `k`, if any.
pub open spec fn held(s: Seq<(GlyphKey, GlyphView)>, k: GlyphKey) -> Option<GlyphView> {
    if has_key(s, k) {
        Some(s[key_pos(s, k)].1)
    } else {
        None
    }
}

/// An entry found at index `j` of `t` that is entry `j2` of `s` holds the
/// same glyph in both, when keys are unique.
proof fn lemma_held_same(s: Seq<(GlyphKey, GlyphView)>, t: Seq<(GlyphKey, GlyphView)>, j: int, j2: int)
    requires
        unique_keys(s),
        unique_keys(t),
        0 <= j < t.len(),
        0 <= j2 < s.len(),
        t[j] == s[j2],
    ensures
        held(t, t[j].0) == held(s, t[j].0),
{
    lemma_key_pos(s, t[j].0);
    lemma_key_pos(t, t[j].0);
}

/// A store puts `v` under `key` and leaves every other stored glyph as it
/// was; a lookup changes no stored glyph.
pub proof fn lemma_held_after(s: Seq<(GlyphKey, GlyphView)>, cap: nat, key: GlyphKey, v: GlyphView, k: GlyphKey)
    requires
        cap > 0,
        unique_keys(s),
    ensures
        unique_keys(after_put(s, cap, key, v)) ==> held(after_put(s, cap, key, v), key) == Some(v),
        unique_keys(after_put(s, cap, key, v)) && k != key && has_key(after_put(s, cap, key, v), k) ==> held(
            after_put(s, cap, key, v),
            k,
        ) == held(s, k),
        unique_keys(after_get(s, key)) ==> held(after_get(s, key), k) == held(s, k),
{
    lemma_key_pos(s, key);
    let i = key_pos(s, key);
    let t = after_put(s, cap, key, v);
    if unique_keys(t) {
        lemma_key_pos(t, key);
        assert(t[t.len() - 1] == (key, v));
        if k != key && has_key(t, k) {
            lemma_key_pos(t, k);
            let j = key_pos(t, k);
            assert(j < t.len() - 1);
            if i >= 0 {
                assert(t == s.remove(i).push((key, v)));
                if j < i {
                    lemma_held_same(s, t, j, j);
                } else {
                    lemma_held_same(s, t, j, j + 1);
                }
            } else if s.len() >= cap {
                assert(t == s.subrange(1, s.len() as int).push((key, v)));
                lemma_held_same(s, t, j, j + 1);
            } else {
                assert(t == s.push((key, v)));
                lemma_held_same(s, t, j, j);
            }
        }
    }
    let g = after_get(s, key);
    if unique_keys(g) {
        lemma_key_pos(g, k);
        lemma_key_pos(s, k);
        if has_key(g, k) {
            let j = key_pos(g, k);
            if i >= 0 {
                assert(g == s.remove(i).push(s[i]));
                if j == g.len() - 1 {
                    lemma_held_same(s, g, j, i);
                } else if j < i {
                    lemma_held_same(s, g, j, j);
                } else {
                    lemma_held_same(s, g, j, j + 1);
                }
            }
        } else if has_key(s, k) {
            lemma_new_keys(s, cap, key, v, k);
            let j2 = key_pos(s, k);
            if i >= 0 {
                assert(g == s.remove(i).push(s[i]));
                if j2 == i {
                    assert(g[g.len() - 1].0 == k);
                } else if j2 < i {
                    assert(g[j2].0 == k);
                } else {
                    assert(g[j2 - 1].0 == k);
                }
            }
        }
    }
}

/// In a cache that is not full, a store or lookup keeps every key and adds
/// at most one entry.
pub proof fn lemma_keys_kept(s: Seq<(GlyphKey, GlyphView)>, cap: nat, key: GlyphKey, v: GlyphView, k: GlyphKey)
    requires
        s.len() < cap,
    ensures
        has_key(s, k) ==> has_key(after_put(s, cap, key, v), k),
        has_key(s, k) ==> has_key(after_get(s, key), k),
        after_put(s, cap, key, v).len() <= s.len() + 1,
        after_get(s, key).len() == s.len(),
{
    lemma_key_pos(s, key);
    let i = key_pos(s, key);
    if has_key(s, k) {
        let j = choose|j: int| 0 <= j < s.len() && #[trigger] s[j].0 == k;
        let t = after_put(s, cap, key, v);
        let g = after_get(s, key);
        if i >= 0 {
            assert(t == s.remove(i).push((key, v)));
            assert(g == s.remove(i).push(s[i]));
            if j == i {
                assert(t[t.len() - 1].0 == k || k == key);
                assert(g[g.len() - 1].0 == k);
                if k == key {
                    assert(t[t.len() - 1].0 == k);
                }
            } else if j < i {
                assert(t[j].0 == k);
                assert(g[j].0 == k);
            } else {
                assert(t[j - 1].0 == k);
                assert(g[j - 1].0 == k);
            }
        } else {
            assert(t == s.push((key, v)));
            assert(t[j].0 == k);
        }
    }
}

} // verus!
