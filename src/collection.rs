//! An in-memory collection with the vector store's upsert semantics: points
//! are keyed by identifier, and a point upserted under an identifier that is
//! already stored replaces what was there. It stands in for the remote store
//! where no store is at hand (dry runs, tests of the upload path).

use vstd::prelude::*;
use crate::error::PipelineError;
use crate::upload::{
    build_points, entries_of, reversed, upload_entries, upsert_all, PointRecord, Stored,
};

verus! {

/// The contents that a sequence of points with distinct identifiers stands
/// for: each identifier mapped to its point's vector and text.
pub open spec fn store_map<V>(points: Seq<PointRecord<V>>) -> Map<u64, Stored<V>>
    decreases points.len(),
{
    if points.len() == 0 {
        Map::empty()
    } else {
        store_map(points.drop_last()).insert(
            points.last().id,
            (points.last().vector, points.last().text@),
        )
    }
}

/// No two of `points` share an identifier.
pub open spec fn distinct_ids<V>(points: Seq<PointRecord<V>>) -> bool {
    forall|i: int, j: int|
        0 <= i < points.len() && 0 <= j < points.len() && i != j ==> (#[trigger] points[i]).id
            != (#[trigger] points[j]).id
}

proof fn lemma_store_map_keys<V>(points: Seq<PointRecord<V>>)
    requires
        distinct_ids(points),
    ensures
        store_map(points).dom().finite(),
        store_map(points).dom().len() == points.len(),
        forall|k: u64|
            store_map(points).contains_key(k) <==> exists|i: int|
                0 <= i < points.len() && (#[trigger] points[i]).id == k,
        forall|i: int|
            0 <= i < points.len() ==> store_map(points)[(#[trigger] points[i]).id] == (
                points[i].vector,
                points[i].text@,
            ),
    decreases points.len(),
{
    if points.len() > 0 {
        let rest = points.drop_last();
        let last = points.last();
        assert(distinct_ids(rest)) by {
            assert forall|i: int, j: int|
                0 <= i < rest.len() && 0 <= j < rest.len() && i != j implies (#[trigger] rest[i]).id
                != (#[trigger] rest[j]).id by {
                assert(rest[i] == points[i] && rest[j] == points[j]);
            }
        }
        lemma_store_map_keys(rest);
        assert(!store_map(rest).contains_key(last.id)) by {
            if store_map(rest).contains_key(last.id) {
                let i = choose|i: int| 0 <= i < rest.len() && (#[trigger] rest[i]).id == last.id;
                assert(points[i].id == points[points.len() - 1].id);
            }
        }
        assert forall|k: u64|
            store_map(points).contains_key(k) implies exists|i: int|
                0 <= i < points.len() && (#[trigger] points[i]).id == k by {
            if k != last.id {
                let i = choose|i: int| 0 <= i < rest.len() && (#[trigger] rest[i]).id == k;
                assert(points[i] == rest[i]);
            } else {
                assert(points[points.len() - 1].id == k);
            }
        }
        assert forall|k: u64|
            (exists|i: int| 0 <= i < points.len() && (#[trigger] points[i]).id == k) implies store_map(
            points,
        ).contains_key(k) by {
            let i = choose|i: int| 0 <= i < points.len() && (#[trigger] points[i]).id == k;
            if i < points.len() - 1 {
                assert(rest[i] == points[i]);
            }
        }
        assert forall|i: int| 0 <= i < points.len() implies store_map(points)[(
        #[trigger] points[i]).id] == (points[i].vector, points[i].text@) by {
            if i < points.len() - 1 {
                assert(rest[i] == points[i]);
                assert(points[i].id != last.id);
            }
        }
    }
}

proof fn lemma_store_map_update<V>(points: Seq<PointRecord<V>>, j: int, p: PointRecord<V>)
    requires
        distinct_ids(points),
        0 <= j < points.len(),
        points[j].id == p.id,
    ensures
        store_map(points.update(j, p)) == store_map(points).insert(p.id, (p.vector, p.text@)),
        distinct_ids(points.update(j, p)),
    decreases points.len(),
{
    let s = points.update(j, p);
    assert(distinct_ids(s)) by {
        assert forall|a: int, b: int|
            0 <= a < s.len() && 0 <= b < s.len() && a != b implies (#[trigger] s[a]).id != (
            #[trigger] s[b]).id by {
            assert(s[a].id == points[a].id && s[b].id == points[b].id);
        }
    }
    let rest = points.drop_last();
    if j == points.len() - 1 {
        assert(s.drop_last() =~= rest);
        assert(store_map(s) =~= store_map(points).insert(p.id, (p.vector, p.text@)));
    } else {
        assert(distinct_ids(rest)) by {
            assert forall|a: int, b: int|
                0 <= a < rest.len() && 0 <= b < rest.len() && a != b implies (#[trigger] rest[a]).id
                != (#[trigger] rest[b]).id by {
                assert(rest[a] == points[a] && rest[b] == points[b]);
            }
        }
        lemma_store_map_update(rest, j, p);
        assert(s.drop_last() =~= rest.update(j, p));
        assert(points.last().id != p.id) by {
            assert(points[points.len() - 1].id != points[j].id);
        }
        assert(store_map(s) =~= store_map(points).insert(p.id, (p.vector, p.text@)));
    }
}

/// Points keyed by identifier, held in memory.
pub struct PointStore<V> {
    points: Vec<PointRecord<V>>,
}

impl<V> PointStore<V> {
    /// The stored contents: each identifier with its vector and text.
    pub closed spec fn contents(&self) -> Map<u64, Stored<V>> {
        store_map(self.points@)
    }

    /// The store's internal invariant: one record per identifier.
    pub closed spec fn wf(&self) -> bool {
        distinct_ids(self.points@)
    }

    /// An empty store.
    pub fn new() -> (r: PointStore<V>)
        ensures
            r.wf(),
            r.contents() == Map::<u64, Stored<V>>::empty(),
    {
        PointStore { points: Vec::new() }
    }

    /// The number of stored points.
    pub fn len(&self) -> (r: usize)
        requires
            self.wf(),
        ensures
            r == self.contents().dom().len(),
    {
        proof {
            lemma_store_map_keys(self.points@);
        }
        self.points.len()
    }

    /// The text stored under `id`, if a point is stored there.
    pub fn text_of(&self, id: u64) -> (r: Option<String>)
        requires
            self.wf(),
        ensures
            match r {
                Some(t) => self.contents().contains_key(id) && t@ == self.contents()[id].1,
                None => !self.contents().contains_key(id),
            },
    {
        proof {
            lemma_store_map_keys(self.points@);
        }
        let mut i: usize = 0;
        while i < self.points.len()
            invariant
                self.wf(),
                i <= self.points@.len(),
                forall|j: int| 0 <= j < i ==> (#[trigger] self.points@[j]).id != id,
            decreases self.points@.len() - i,
        {
            if self.points[i].id == id {
                proof {
                    lemma_store_map_keys(self.points@);
                    assert(self.contents()[self.points@[i as int].id] == (
                        self.points@[i as int].vector,
                        self.points@[i as int].text@,
                    ));
                }
                return Some(self.points[i].text.clone());
            }
            i = i + 1;
        }
        proof {
            lemma_store_map_keys(self.points@);
        }
        None
    }

    /// Stores `p` under its identifier, replacing what was stored there.
    fn upsert_one(&mut self, p: PointRecord<V>)
        requires
            old(self).wf(),
        ensures
            final(self).wf(),
            final(self).contents() == old(self).contents().insert(p.id, (p.vector, p.text@)),
    {
        let mut i: usize = 0;
        while i < self.points.len()
            invariant
                self.points@ == old(self).points@,
                self.wf(),
                i <= self.points@.len(),
                forall|j: int| 0 <= j < i ==> (#[trigger] self.points@[j]).id != p.id,
            decreases self.points@.len() - i,
        {
            if self.points[i].id == p.id {
                proof {
                    lemma_store_map_update(self.points@, i as int, p);
                }
                self.points[i] = p;
                return;
            }
            i = i + 1;
        }
        let ghost before = self.points@;
        self.points.push(p);
        proof {
            assert(self.points@.drop_last() =~= before);
            assert forall|a: int, b: int|
                0 <= a < self.points@.len() && 0 <= b < self.points@.len() && a != b implies (
                #[trigger] self.points@[a]).id != (#[trigger] self.points@[b]).id by {
                if a < before.len() && b < before.len() {
                    assert(before[a] == self.points@[a] && before[b] == self.points@[b]);
                }
            }
        }
    }

    /// Upserts `points` in order, blocking until all are stored: a point
    /// whose identifier is already stored replaces what was there.
    pub fn upsert(&mut self, points: Vec<PointRecord<V>>)
        requires
            old(self).wf(),
        ensures
            final(self).wf(),
            final(self).contents() == upsert_all(old(self).contents(), entries_of(points@)),
    {
        let ghost all = points@;
        let ghost start = self.contents();
        let total = points.len();
        let mut rest = reversed(points);
        let mut done: usize = 0;
        proof {
            assert(all.subrange(0, all.len() as int) =~= all);
        }
        while rest.len() > 0
            invariant
                self.wf(),
                done <= all.len(),
                done + rest@.len() == all.len(),
                total == all.len(),
                rest@ == all.subrange(done as int, all.len() as int).reverse(),
                upsert_all(self.contents(), entries_of(all.subrange(done as int, all.len() as int)))
                    == upsert_all(start, entries_of(all)),
            decreases rest@.len(),
        {
            let p = rest.pop().unwrap();
            proof {
                let tail = all.subrange(done as int, all.len() as int);
                assert(tail[0] == p);
                assert(tail.drop_first() =~= all.subrange(done + 1, all.len() as int));
                assert(entries_of(tail).drop_first() =~= entries_of(tail.drop_first()));
            }
            self.upsert_one(p);
            done = done + 1;
            assert(rest@ =~= all.subrange(done as int, all.len() as int).reverse());
        }
        assert(entries_of(all.subrange(done as int, all.len() as int)) =~= Seq::<
            (u64, Stored<V>),
        >::empty());
    }

    /// Uploads segment texts with their identifiers and vectors: one point
    /// per position, its text trimmed, upserted in order. Fails with
    /// `ArityMismatch`, storing nothing, when the three differ in length.
    pub fn upload(&mut self, ids: Vec<u64>, texts: Vec<String>, vectors: Vec<V>) -> (r: Result<
        (),
        PipelineError,
    >)
        requires
            old(self).wf(),
        ensures
            final(self).wf(),
            match r {
                Ok(()) => {
                    &&& ids@.len() == texts@.len() == vectors@.len()
                    &&& final(self).contents() == upsert_all(
                        old(self).contents(),
                        upload_entries(ids@, texts@, vectors@),
                    )
                },
                Err(e) => {
                    &&& !(ids@.len() == texts@.len() == vectors@.len())
                    &&& e == PipelineError::ArityMismatch
                    &&& final(self).contents() == old(self).contents()
                },
            },
    {
        match build_points(ids, texts, vectors) {
            Ok(points) => {
                self.upsert(points);
                Ok(())
            },
            Err(e) => Err(e),
        }
    }
}

} // verus!
