//! The vectors of the queries asked last.
use vstd::prelude::*;

verus! {

/// lru's cache, which forgets what was not used for longest.
#[verifier::external_type_specification]
#[verifier::external_body]
#[verifier::reject_recursive_types(K)]
#[verifier::reject_recursive_types(V)]
#[verifier::reject_recursive_types(S)]
pub struct ExLruCache<K, V, S>(lru::LruCache<K, V, S>);

/// The hasher that lru uses.
#[verifier::external_type_specification]
#[verifier::external_body]
pub struct ExLruHasher(lru::DefaultHasher);

/// The queries in the cache with their vectors, the one used last first.
pub uninterp spec fn cache_entries(
    cache: lru::LruCache<String, Vec<u32>, lru::DefaultHasher>,
) -> Seq<(Seq<char>, Seq<u32>)>;

/// The number of queries that the cache has room for.
pub uninterp spec fn cache_capacity(
    cache: lru::LruCache<String, Vec<u32>, lru::DefaultHasher>,
) -> usize;

/// The vector of a query, if it is among the entries.
pub open spec fn lookup(entries: Seq<(Seq<char>, Seq<u32>)>, q: Seq<char>) -> Option<Seq<u32>>
    decreases entries.len(),
{
    if entries.len() == 0 {
        None
    } else if entries[0].0 == q {
        Some(entries[0].1)
    } else {
        lookup(entries.drop_first(), q)
    }
}

/// The entries of other queries, in their order.
pub open spec fn others(entries: Seq<(Seq<char>, Seq<u32>)>, q: Seq<char>) -> Seq<
    (Seq<char>, Seq<u32>),
>
    decreases entries.len(),
{
    if entries.len() == 0 {
        Seq::empty()
    } else if entries[0].0 == q {
        others(entries.drop_first(), q)
    } else {
        seq![entries[0]] + others(entries.drop_first(), q)
    }
}

/// The entries with this query in front.
pub open spec fn in_front(entries: Seq<(Seq<char>, Seq<u32>)>, q: Seq<char>, v: Seq<u32>) -> Seq<
    (Seq<char>, Seq<u32>),
> {
    seq![(q, v)] + others(entries, q)
}

/// The entries after a query was looked up: where it is there, it comes to the front.
pub open spec fn after_get(entries: Seq<(Seq<char>, Seq<u32>)>, q: Seq<char>) -> Seq<
    (Seq<char>, Seq<u32>),
> {
    match lookup(entries, q) {
        Some(v) => in_front(entries, q, v),
        None => entries,
    }
}

/// The entries after a query was noted: it comes to the front, and what there is no room
/// for any more is forgotten.
pub open spec fn after_put(
    entries: Seq<(Seq<char>, Seq<u32>)>,
    capacity: usize,
    q: Seq<char>,
    v: Seq<u32>,
) -> Seq<(Seq<char>, Seq<u32>)> {
    let all = in_front(entries, q, v);
    if all.len() > capacity {
        all.take(capacity as int)
    } else {
        all
    }
}

/// `LruCache::new`: an empty cache with this capacity. It sets up the table for all its
/// entries at once, which panics where no allocation can be as large.
#[verifier::external_body]
fn lru_new(capacity: usize) -> (r: lru::LruCache<String, Vec<u32>, lru::DefaultHasher>)
    requires
        0 < capacity <= isize::MAX / 64,
    ensures
        cache_entries(r) == Seq::<(Seq<char>, Seq<u32>)>::empty(),
        cache_capacity(r) == capacity,
{
    lru::LruCache::new(std::num::NonZeroUsize::new(capacity).unwrap())
}

/// `LruCache::get`: the value under the key, if there is one, which becomes the entry
/// used last.
#[verifier::external_body]
fn lru_get(
    cache: &mut lru::LruCache<String, Vec<u32>, lru::DefaultHasher>,
    q: &String,
) -> (r: Option<Vec<u32>>)
    ensures
        match r {
            Some(v) => lookup(cache_entries(*old(cache)), q@) == Some(v@),
            None => lookup(cache_entries(*old(cache)), q@) is None,
        },
        cache_entries(*final(cache)) == after_get(cache_entries(*old(cache)), q@),
        cache_capacity(*final(cache)) == cache_capacity(*old(cache)),
{
    cache.get(q).cloned()
}

/// `LruCache::put`: sets the value under the key, which becomes the entry used last; a
/// new key in a full cache takes the place of the entry not used for longest.
#[verifier::external_body]
fn lru_put(
    cache: &mut lru::LruCache<String, Vec<u32>, lru::DefaultHasher>,
    q: String,
    v: Vec<u32>,
)
    ensures
        cache_entries(*final(cache)) == after_put(
            cache_entries(*old(cache)),
            cache_capacity(*old(cache)),
            q@,
            v@,
        ),
        cache_capacity(*final(cache)) == cache_capacity(*old(cache)),
{
    cache.put(q, v);
}

/// The cache of query vectors.
pub struct QueryCache {
    cache: lru::LruCache<String, Vec<u32>, lru::DefaultHasher>,
}

impl QueryCache {
    /// The queries in the cache with their vectors, the one used last first.
    pub closed spec fn entries(&self) -> Seq<(Seq<char>, Seq<u32>)> {
        cache_entries(self.cache)
    }

    /// The number of queries that the cache has room for.
    pub closed spec fn capacity(&self) -> usize {
        cache_capacity(self.cache)
    }

    /// An empty cache with room for `capacity` queries.
    pub fn new(capacity: usize) -> (r: Self)
        requires
            0 < capacity <= isize::MAX / 64,
        ensures
            r.entries() == Seq::<(Seq<char>, Seq<u32>)>::empty(),
            r.capacity() == capacity,
    {
        Self { cache: lru_new(capacity) }
    }

    /// The vector of a query, if it is remembered.
    pub fn get(&mut self, q: &String) -> (r: Option<Vec<u32>>)
        ensures
            match r {
                Some(v) => lookup(old(self).entries(), q@) == Some(v@),
                None => lookup(old(self).entries(), q@) is None,
            },
            final(self).entries() == after_get(old(self).entries(), q@),
            final(self).capacity() == old(self).capacity(),
    {
        lru_get(&mut self.cache, q)
    }

    /// Remembers the vector of a query.
    pub fn put(&mut self, q: String, v: Vec<u32>)
        ensures
            final(self).entries() == after_put(
                old(self).entries(),
                old(self).capacity(),
                q@,
                v@,
            ),
            final(self).capacity() == old(self).capacity(),
    {
        lru_put(&mut self.cache, q, v)
    }
}

/// A vector that was remembered last is found.
pub proof fn law_put_then_get(
    entries: Seq<(Seq<char>, Seq<u32>)>,
    capacity: usize,
    q: Seq<char>,
    v: Seq<u32>,
)
    requires
        capacity > 0,
    ensures
        lookup(after_put(entries, capacity, q, v), q) == Some(v),
{
    let after = after_put(entries, capacity, q, v);
    assert(after[0] == (q, v));
}

/// The cache never holds more than it has room for.
pub proof fn law_cache_bounded(
    entries: Seq<(Seq<char>, Seq<u32>)>,
    capacity: usize,
    q: Seq<char>,
    v: Seq<u32>,
)
    ensures
        after_put(entries, capacity, q, v).len() <= capacity,
        entries.len() <= capacity ==> after_get(entries, q).len() <= capacity,
{
    lemma_others_len(entries, q);
}

proof fn lemma_others_len(entries: Seq<(Seq<char>, Seq<u32>)>, q: Seq<char>)
    ensures
        others(entries, q).len() <= entries.len(),
        lookup(entries, q) is Some ==> others(entries, q).len() < entries.len(),
    decreases entries.len(),
{
    if entries.len() > 0 {
        lemma_others_len(entries.drop_first(), q);
    }
}

/// Looking a query up changes no vector.
pub proof fn law_get_keeps_vectors(
    entries: Seq<(Seq<char>, Seq<u32>)>,
    q: Seq<char>,
    other: Seq<char>,
)
    ensures
        lookup(after_get(entries, q), other) == lookup(entries, other),
{
    if lookup(entries, q) is Some {
        let v = lookup(entries, q)->0;
        let after = in_front(entries, q, v);
        assert(after.drop_first() =~= others(entries, q));
        if other != q {
            lemma_others_lookup(entries, q, other);
        }
    }
}

/// Remembering a vector changes no other one, as long as there is room.
pub proof fn law_put_keeps_others(
    entries: Seq<(Seq<char>, Seq<u32>)>,
    capacity: usize,
    q: Seq<char>,
    v: Seq<u32>,
    other: Seq<char>,
)
    requires
        other != q,
        entries.len() < capacity,
    ensures
        lookup(after_put(entries, capacity, q, v), other) == lookup(entries, other),
{
    lemma_others_len(entries, q);
    let after = in_front(entries, q, v);
    assert(after.drop_first() =~= others(entries, q));
    lemma_others_lookup(entries, q, other);
}

proof fn lemma_others_lookup(entries: Seq<(Seq<char>, Seq<u32>)>, q: Seq<char>, other: Seq<char>)
    requires
        other != q,
    ensures
        lookup(others(entries, q), other) == lookup(entries, other),
    decreases entries.len(),
{
    if entries.len() > 0 {
        let rest = entries.drop_first();
        lemma_others_lookup(rest, q, other);
        if entries[0].0 != q {
            assert(others(entries, q).drop_first() =~= others(rest, q));
        }
    }
}

/// What is remembered last stands in front, the other queries behind it in the order they had,
/// each once; where the cache is full, the one at the end is forgotten and no other.
pub proof fn law_put_forgets_the_last(
    entries: Seq<(Seq<char>, Seq<u32>)>,
    capacity: usize,
    q: Seq<char>,
    v: Seq<u32>,
    i: int,
)
    requires
        0 < entries.len() <= capacity,
        forall|k: int| 0 <= k < entries.len() ==> (#[trigger] entries[k]).0 != q,
        0 <= i < entries.len(),
    ensures
        ({
            let after = after_put(entries, capacity, q, v);
            &&& after[0] == (q, v)
            &&& entries.len() < capacity ==> after.len() == entries.len() + 1 && after[i + 1]
                == entries[i]
            &&& entries.len() == capacity ==> after.len() == capacity && (i < capacity - 1
                ==> after[i + 1] == entries[i])
        }),
{
    lemma_others_all(entries, q);
}

/// A query that was looked up stands in front, with the vector it had, and the ones that stood
/// before it follow in their order.
pub proof fn law_get_brings_to_front(
    entries: Seq<(Seq<char>, Seq<u32>)>,
    before: Seq<(Seq<char>, Seq<u32>)>,
    q: Seq<char>,
    v: Seq<u32>,
    after: Seq<(Seq<char>, Seq<u32>)>,
)
    requires
        forall|k: int| 0 <= k < before.len() ==> (#[trigger] before[k]).0 != q,
        forall|k: int| 0 <= k < after.len() ==> (#[trigger] after[k]).0 != q,
        entries == before + seq![(q, v)] + after,
    ensures
        lookup(entries, q) == Some(v),
        after_get(entries, q) == seq![(q, v)] + before + after,
        lookup(before + after, q) is None,
        after_get(before + after, q) == before + after,
{
    lemma_lookup_behind(before, q, seq![(q, v)] + after);
    assert(entries =~= before + (seq![(q, v)] + after));
    assert((seq![(q, v)] + after)[0] == (q, v));
    assert((seq![(q, v)] + after).drop_first() =~= after);
    lemma_others_all(after, q);
    assert(others(seq![(q, v)] + after, q) == after);
    assert(seq![(q, v)] + (before + after) =~= seq![(q, v)] + before + after);
    lemma_lookup_behind(before, q, after);
    lemma_others_all(before + after, q);
    lemma_lookup_behind(before + after, q, Seq::empty());
    assert((before + after) + Seq::empty() =~= before + after);
}

proof fn lemma_lookup_behind(
    before: Seq<(Seq<char>, Seq<u32>)>,
    q: Seq<char>,
    rest: Seq<(Seq<char>, Seq<u32>)>,
)
    requires
        forall|k: int| 0 <= k < before.len() ==> (#[trigger] before[k]).0 != q,
    ensures
        lookup(before + rest, q) == lookup(rest, q),
        others(before + rest, q) == before + others(rest, q),
    decreases before.len(),
{
    if before.len() == 0 {
        assert(before + rest =~= rest);
        assert(before + others(rest, q) =~= others(rest, q));
    } else {
        let less = before.drop_first();
        assert forall|k: int| 0 <= k < less.len() implies (#[trigger] less[k]).0 != q by {
            assert(less[k] == before[k + 1]);
        }
        lemma_lookup_behind(less, q, rest);
        assert((before + rest)[0] == before[0]);
        assert((before + rest).drop_first() =~= less + rest);
        assert(seq![before[0]] + (less + others(rest, q)) =~= before + others(rest, q));
    }
}

proof fn lemma_others_all(entries: Seq<(Seq<char>, Seq<u32>)>, q: Seq<char>)
    requires
        forall|k: int| 0 <= k < entries.len() ==> (#[trigger] entries[k]).0 != q,
    ensures
        others(entries, q) == entries,
{
    lemma_lookup_behind(entries, q, Seq::empty());
    assert(entries + Seq::empty() =~= entries);
    assert(entries + others(Seq::empty(), q) =~= entries);
}

} // verus!
