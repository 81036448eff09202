//! Assembly of point records and the upsert semantics of the vector store.
//!
//! Identifiers, segment texts and embedding vectors travel as three parallel
//! sequences up to this point; [`build_points`] checks that they line up and
//! bundles them, position by position, into one record each. The vector type
//! is a parameter: this module never looks inside a vector.

use vstd::prelude::*;
use crate::error::PipelineError;
use crate::text::{trim, trimmed};

verus! {

/// One point to be stored: its identifier, its embedding vector, and the
/// payload text (the segment, trimmed of surrounding white space).
pub struct PointRecord<V> {
    pub id: u64,
    pub vector: V,
    pub text: String,
}

/// What the store keeps for one identifier: the vector and the payload text.
pub type Stored<V> = (V, Seq<char>);

/// A point as the store sees it: its identifier and what is kept under it.
pub type Entry<V> = (u64, Stored<V>);

/// The entry that a point record stands for.
pub open spec fn entry_of<V>(p: PointRecord<V>) -> Entry<V> {
    (p.id, (p.vector, p.text@))
}

/// The entries of a sequence of point records.
pub open spec fn entries_of<V>(points: Seq<PointRecord<V>>) -> Seq<Entry<V>> {
    points.map_values(|p: PointRecord<V>| entry_of(p))
}

/// The entries that uploading `ids`, `texts` and `vectors` of one length
/// stores: one per position, with the text trimmed.
pub open spec fn upload_entries<V>(ids: Seq<u64>, texts: Seq<String>, vectors: Seq<V>) -> Seq<
    Entry<V>,
> {
    Seq::new(ids.len(), |i: int| (ids[i], (vectors[i], trimmed(texts[i]@))))
}

/// The store's contents after upserting `entries` in order into `store`: an
/// entry replaces whatever was stored under its identifier.
pub open spec fn upsert_all<V>(store: Map<u64, Stored<V>>, entries: Seq<Entry<V>>) -> Map<
    u64,
    Stored<V>,
>
    decreases entries.len(),
{
    if entries.len() == 0 {
        store
    } else {
        upsert_all(store.insert(entries[0].0, entries[0].1), entries.drop_first())
    }
}

proof fn lemma_upsert_as_union<V>(store: Map<u64, Stored<V>>, entries: Seq<Entry<V>>)
    ensures
        upsert_all(store, entries) == store.union_prefer_right(
            upsert_all(Map::empty(), entries),
        ),
    decreases entries.len(),
{
    if entries.len() == 0 {
        assert(store.union_prefer_right(Map::empty()) =~= store);
    } else {
        let (k, v) = entries[0];
        let rest = entries.drop_first();
        let single = Map::<u64, Stored<V>>::empty().insert(k, v);
        lemma_upsert_as_union(store.insert(k, v), rest);
        lemma_upsert_as_union(single, rest);
        let tail = upsert_all(Map::empty(), rest);
        assert(store.insert(k, v).union_prefer_right(tail) =~= store.union_prefer_right(
            single.union_prefer_right(tail),
        ));
    }
}

/// Upserting the same entries a second time leaves the store as the first
/// upsert left it: same identifiers, same vectors, same payloads.
pub proof fn lemma_upsert_idempotent<V>(store: Map<u64, Stored<V>>, entries: Seq<Entry<V>>)
    ensures
        upsert_all(upsert_all(store, entries), entries) == upsert_all(store, entries),
{
    let once = upsert_all(store, entries);
    let batch = upsert_all(Map::empty(), entries);
    lemma_upsert_as_union(store, entries);
    lemma_upsert_as_union(once, entries);
    assert(once.union_prefer_right(batch) =~= once);
}

/// `points` bundles `ids`, `texts` and `vectors` position by position, with
/// each text trimmed.
pub open spec fn bundles<V>(
    points: Seq<PointRecord<V>>,
    ids: Seq<u64>,
    texts: Seq<String>,
    vectors: Seq<V>,
) -> bool {
    &&& points.len() == ids.len()
    &&& forall|i: int|
        0 <= i < points.len() ==> {
            &&& (#[trigger] points[i]).id == ids[i]
            &&& points[i].vector == vectors[i]
            &&& points[i].text@ == trimmed(texts[i]@)
        }
}

pub(crate) fn reversed<T>(v: Vec<T>) -> (r: Vec<T>)
    ensures
        r@ == v@.reverse(),
{
    let mut v = v;
    let ghost orig = v@;
    let mut r: Vec<T> = Vec::new();
    while v.len() > 0
        invariant
            v@.len() <= orig.len(),
            v@ == orig.subrange(0, v@.len() as int),
            r@ == orig.subrange(v@.len() as int, orig.len() as int).reverse(),
        decreases v@.len(),
    {
        let x = v.pop().unwrap();
        r.push(x);
        assert(v@ =~= orig.subrange(0, v@.len() as int));
        assert(x == orig[v@.len() as int]);
        assert(r@ =~= orig.subrange(v@.len() as int, orig.len() as int).reverse());
    }
    assert(orig.subrange(0, orig.len() as int) =~= orig);
    r
}

/// Bundles identifiers, segment texts and vectors into point records, one
/// per position, each text trimmed. Fails with `ArityMismatch`, before
/// anything else is done, when the three differ in length.
pub fn build_points<V>(ids: Vec<u64>, texts: Vec<String>, vectors: Vec<V>) -> (r: Result<
    Vec<PointRecord<V>>,
    PipelineError,
>)
    ensures
        match r {
            Ok(points) => {
                &&& ids@.len() == texts@.len() == vectors@.len()
                &&& bundles(points@, ids@, texts@, vectors@)
                &&& entries_of(points@) == upload_entries(ids@, texts@, vectors@)
            },
            Err(e) => {
                &&& !(ids@.len() == texts@.len() == vectors@.len())
                &&& e == PipelineError::ArityMismatch
            },
        },
{
    let n = ids.len();
    if texts.len() != n || vectors.len() != n {
        return Err(PipelineError::ArityMismatch);
    }
    let ghost (i0, t0, v0) = (ids@, texts@, vectors@);
    let mut ri = reversed(ids);
    let mut rt = reversed(texts);
    let mut rv = reversed(vectors);
    let mut points: Vec<PointRecord<V>> = Vec::new();
    while ri.len() > 0
        invariant
            i0.len() == n && t0.len() == n && v0.len() == n,
            points@.len() <= n,
            ri@ == i0.subrange(points@.len() as int, n as int).reverse(),
            rt@ == t0.subrange(points@.len() as int, n as int).reverse(),
            rv@ == v0.subrange(points@.len() as int, n as int).reverse(),
            bundles(points@, i0.subrange(0, points@.len() as int), t0, v0),
        decreases ri@.len(),
    {
        let k = points.len();
        let id = ri.pop().unwrap();
        let text = rt.pop().unwrap();
        let vector = rv.pop().unwrap();
        let t = trim(text.as_str());
        points.push(PointRecord { id, vector, text: t });
        assert(ri@ =~= i0.subrange(k + 1, n as int).reverse());
        assert(rt@ =~= t0.subrange(k + 1, n as int).reverse());
        assert(rv@ =~= v0.subrange(k + 1, n as int).reverse());
        assert(bundles(points@, i0.subrange(0, k + 1), t0, v0));
    }
    assert(i0.subrange(0, n as int) =~= i0);
    assert(entries_of(points@) =~= upload_entries(i0, t0, v0));
    Ok(points)
}

} // verus!
