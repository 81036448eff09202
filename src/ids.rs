//! Pools of point identifiers.
//!
//! A pool is filled once, before any segment exists, and then consumed one
//! identifier at a time; no identifier is handed out twice and an empty pool
//! is never refilled. Two ways of filling it are offered and the caller
//! chooses: a dense reverse counter, which is the same in every run, and a
//! sample of distinct random values, which avoids identifiers that already
//! exist in the store.

use vstd::prelude::*;
use crate::error::PipelineError;

verus! {

/// Relies on rand's `Rng::gen::<u64>` on the thread-local generator: some
/// 64-bit value, of which nothing more is known.
#[verifier::external_body]
fn random_u64() -> (r: u64) {
    rand::Rng::gen::<u64>(&mut rand::thread_rng())
}

/// The size of the pool that [`gen_ids`] draws.
pub const RANDOM_POOL_SIZE: usize = 9900;

/// A pool of [`RANDOM_POOL_SIZE`] distinct random identifiers; `None` only
/// if the generator never came up with enough distinct values.
pub fn gen_ids() -> (r: Option<IdPool>)
    ensures
        r matches Some(p) ==> {
            &&& p.wf()
            &&& p.remaining().len() == RANDOM_POOL_SIZE
            &&& p.issued() == Set::<u64>::empty()
            &&& exists|draws: Seq<u64>|
                #![trigger distinct_prefix(draws)]
                stops_at(draws, RANDOM_POOL_SIZE as nat) && p.remaining() == distinct_prefix(draws)
        },
{
    IdPool::random(RANDOM_POOL_SIZE)
}

/// The descending run `count - 1, count - 2, ..., 0`.
pub open spec fn descending(count: nat) -> Seq<u64> {
    Seq::new(count, |i: int| (count - 1 - i) as u64)
}

/// A counter pool hands out `0, 1, 2, ...` in turn: the identifier that
/// stands `j` places from the end of the descending run is `j`, and what is
/// left after `t` identifiers were taken runs from `count - 1` down to `t`.
pub proof fn lemma_counter_order(count: nat, j: int, t: nat)
    requires
        0 <= j < count,
        t <= count,
        count <= u64::MAX,
    ensures
        descending(count)[count - 1 - j] == j,
        descending(count).subrange(0, count - t) == Seq::new(
            (count - t) as nat,
            |i: int| (count - 1 - i) as u64,
        ),
{
    assert(descending(count).subrange(0, count - t) =~= Seq::new(
        (count - t) as nat,
        |i: int| (count - 1 - i) as u64,
    ));
}

/// A pool of identifiers not yet handed out.
pub struct IdPool {
    remaining: Vec<u64>,
    issued: Ghost<Set<u64>>,
}

/// Adds the candidate `c` to the distinct identifiers `ids` unless it is
/// already there; says whether it was added.
pub fn offer(ids: &mut Vec<u64>, c: u64) -> (added: bool)
    requires
        old(ids)@.no_duplicates(),
    ensures
        added == !old(ids)@.contains(c),
        final(ids)@ == if added { old(ids)@.push(c) } else { old(ids)@ },
        final(ids)@.no_duplicates(),
{
    let mut i: usize = 0;
    while i < ids.len()
        invariant
            ids@ == old(ids)@,
            ids@.no_duplicates(),
            i <= ids@.len(),
            forall|j: int| 0 <= j < i ==> ids@[j] != c,
        decreases ids@.len() - i,
    {
        if ids[i] == c {
            return false;
        }
        i = i + 1;
    }
    ids.push(c);
    true
}

/// The distinct values of `draws`, each where it first occurs, in order.
pub open spec fn distinct_prefix(draws: Seq<u64>) -> Seq<u64>
    decreases draws.len(),
{
    if draws.len() == 0 {
        Seq::empty()
    } else {
        let before = distinct_prefix(draws.drop_last());
        if before.contains(draws.last()) {
            before
        } else {
            before.push(draws.last())
        }
    }
}

/// Drawing `draws` in turn is where sampling `count` distinct values stops:
/// they hold `count` distinct values, and the draws before the last do not.
pub open spec fn stops_at(draws: Seq<u64>, count: nat) -> bool {
    &&& distinct_prefix(draws).len() == count
    &&& draws.len() > 0 ==> distinct_prefix(draws.drop_last()).len() < count
}

/// The first `count` distinct values of `draws`, in the order they were
/// drawn, with the number of draws that it took to see them; `None` when
/// `draws` holds fewer than `count` distinct values.
pub fn first_distinct(draws: &Vec<u64>, count: usize) -> (r: Option<(Vec<u64>, usize)>)
    ensures
        match r {
            Some((ids, used)) => {
                &&& used <= draws@.len()
                &&& stops_at(draws@.take(used as int), count as nat)
                &&& ids@ == distinct_prefix(draws@.take(used as int))
                &&& ids@.no_duplicates()
            },
            None => distinct_prefix(draws@).len() < count,
        },
{
    let mut ids: Vec<u64> = Vec::new();
    let mut i: usize = 0;
    assert(draws@.take(0) =~= Seq::<u64>::empty());
    while ids.len() < count
        invariant
            i <= draws@.len(),
            ids@ == distinct_prefix(draws@.take(i as int)),
            ids@.no_duplicates(),
            ids@.len() <= count,
            i > 0 ==> distinct_prefix(draws@.take(i - 1)).len() < count,
        decreases draws@.len() - i,
    {
        if i == draws.len() {
            assert(draws@.take(i as int) =~= draws@);
            return None;
        }
        offer(&mut ids, draws[i]);
        proof {
            assert(draws@.take(i + 1).drop_last() =~= draws@.take(i as int));
        }
        i = i + 1;
    }
    proof {
        if i > 0 {
            assert(draws@.take(i as int).drop_last() =~= draws@.take(i - 1));
        }
    }
    Some((ids, i))
}

impl IdPool {
    /// The identifiers still in the pool; the last one is handed out next.
    pub closed spec fn remaining(&self) -> Seq<u64> {
        self.remaining@
    }

    /// The identifiers this pool has handed out so far.
    pub closed spec fn issued(&self) -> Set<u64> {
        self.issued@
    }

    /// No identifier is in the pool twice, and none that was handed out is
    /// still in it.
    pub open spec fn wf(&self) -> bool {
        &&& self.remaining().no_duplicates()
        &&& forall|i: int|
            0 <= i < self.remaining().len() ==> !self.issued().contains(#[trigger] self.remaining()[i])
    }

    /// A pool of the identifiers `0 .. count`, handed out in increasing order.
    pub fn counter(count: u64) -> (r: IdPool)
        ensures
            r.wf(),
            r.remaining() == descending(count as nat),
            r.issued() == Set::<u64>::empty(),
    {
        let mut ids: Vec<u64> = Vec::new();
        let mut k: u64 = count;
        while k > 0
            invariant
                k <= count,
                ids@ == descending(count as nat).subrange(0, (count - k) as int),
            decreases k,
        {
            k = k - 1;
            ids.push(k);
            assert(ids@ =~= descending(count as nat).subrange(0, (count - k) as int));
        }
        assert(ids@ =~= descending(count as nat));
        IdPool { remaining: ids, issued: Ghost(Set::empty()) }
    }

    /// A pool of `count` distinct random identifiers: values are drawn until
    /// `count` distinct ones were seen, and the pool holds those, in the
    /// order they were first drawn (as [`first_distinct`] would pick them from
    /// the same draws). `None` only if the generator, over 2^64 - 1 draws,
    /// never came up with enough distinct values.
    pub fn random(count: usize) -> (r: Option<IdPool>)
        ensures
            count == 0 ==> r is Some,
            r matches Some(p) ==> {
                &&& p.wf()
                &&& p.remaining().len() == count
                &&& p.issued() == Set::<u64>::empty()
                &&& exists|draws: Seq<u64>|
                    #![trigger distinct_prefix(draws)]
                    stops_at(draws, count as nat) && p.remaining() == distinct_prefix(draws)
            },
    {
        let mut ids: Vec<u64> = Vec::new();
        let mut draws: u64 = 0;
        let ghost mut drawn: Seq<u64> = Seq::empty();
        while ids.len() < count
            invariant
                ids@.no_duplicates(),
                ids@.len() <= count,
                ids@ == distinct_prefix(drawn),
                drawn.len() > 0 ==> distinct_prefix(drawn.drop_last()).len() < count,
            decreases u64::MAX - draws,
        {
            if draws == u64::MAX {
                return None;
            }
            draws = draws + 1;
            let c = random_u64();
            offer(&mut ids, c);
            proof {
                let before = drawn;
                drawn = drawn.push(c);
                assert(drawn.drop_last() =~= before);
            }
        }
        assert(stops_at(drawn, count as nat));
        Some(IdPool { remaining: ids, issued: Ghost(Set::empty()) })
    }

    /// The number of identifiers left.
    pub fn len(&self) -> (r: usize)
        ensures
            r == self.remaining().len(),
    {
        self.remaining.len()
    }

    /// Hands out one identifier, which this pool has not handed out before.
    /// Fails with `PoolExhausted` on an empty pool, which is left as it was.
    pub fn take_one(&mut self) -> (r: Result<u64, PipelineError>)
        requires
            old(self).wf(),
        ensures
            final(self).wf(),
            match r {
                Ok(id) => {
                    &&& old(self).remaining().len() > 0
                    &&& id == old(self).remaining().last()
                    &&& !old(self).issued().contains(id)
                    &&& final(self).remaining() == old(self).remaining().drop_last()
                    &&& final(self).issued() == old(self).issued().insert(id)
                },
                Err(e) => {
                    &&& old(self).remaining().len() == 0
                    &&& e == PipelineError::PoolExhausted
                    &&& final(self).remaining() == old(self).remaining()
                    &&& final(self).issued() == old(self).issued()
                },
            },
    {
        match self.remaining.pop() {
            Some(id) => {
                proof {
                    let old_rem = old(self).remaining@;
                    assert(old_rem[old_rem.len() - 1] == id);
                    assert forall|i: int| 0 <= i < self.remaining@.len() implies self.remaining@[i]
                        != id by {
                        assert(old_rem[i] == self.remaining@[i]);
                    }
                    self.issued@ = self.issued@.insert(id);
                    assert forall|i: int| 0 <= i < self.remaining@.len() implies !self.issued@.contains(
                        #[trigger] self.remaining@[i],
                    ) by {
                        assert(old_rem[i] == self.remaining@[i]);
                    }
                }
                Ok(id)
            },
            None => Err(PipelineError::PoolExhausted),
        }
    }

    /// Hands out `n` identifiers, one after another as [`IdPool::take_one`]
    /// would. Fails with `PoolExhausted`, leaving the pool as it was, when
    /// fewer than `n` are left.
    pub fn take_many(&mut self, n: usize) -> (r: Result<Vec<u64>, PipelineError>)
        requires
            old(self).wf(),
        ensures
            final(self).wf(),
            match r {
                Ok(ids) => {
                    let rem = old(self).remaining();
                    &&& n <= rem.len()
                    &&& ids@.len() == n
                    &&& forall|j: int| 0 <= j < n ==> #[trigger] ids@[j] == rem[rem.len() - 1 - j]
                    &&& final(self).remaining() == rem.subrange(0, rem.len() - n)
                    &&& final(self).issued() == old(self).issued().union(ids@.to_set())
                    &&& forall|id: u64| ids@.contains(id) ==> !old(self).issued().contains(id)
                    &&& ids@.no_duplicates()
                },
                Err(e) => {
                    &&& old(self).remaining().len() < n
                    &&& e == PipelineError::PoolExhausted
                    &&& final(self).remaining() == old(self).remaining()
                    &&& final(self).issued() == old(self).issued()
                },
            },
    {
        if self.remaining.len() < n {
            return Err(PipelineError::PoolExhausted);
        }
        let ghost rem = self.remaining@;
        let ghost issued0 = self.issued@;
        let mut ids: Vec<u64> = Vec::new();
        while ids.len() < n
            invariant
                self.wf(),
                n <= rem.len(),
                ids@.len() <= n,
                self.remaining() == rem.subrange(0, rem.len() - ids@.len()),
                forall|j: int| 0 <= j < ids@.len() ==> #[trigger] ids@[j] == rem[rem.len() - 1 - j],
                self.issued() == issued0.union(ids@.to_set()),
                rem.no_duplicates(),
                forall|i: int| 0 <= i < rem.len() ==> !issued0.contains(#[trigger] rem[i]),
            decreases n - ids@.len(),
        {
            let ghost before = ids@;
            let id = match self.take_one() {
                Ok(id) => id,
                Err(e) => return Err(e),
            };
            ids.push(id);
            proof {
                assert(self.remaining() =~= rem.subrange(0, rem.len() - ids@.len()));
                assert(ids@.to_set() =~= before.to_set().insert(id)) by {
                    assert(ids@ =~= before.push(id));
                    before.lemma_push_to_set_commute(id);
                }
                assert(self.issued() =~= issued0.union(ids@.to_set()));
            }
        }
        proof {
            assert forall|id: u64| ids@.contains(id) implies !issued0.contains(id) by {
                let j = choose|j: int| 0 <= j < ids@.len() && ids@[j] == id;
                assert(ids@[j] == rem[rem.len() - 1 - j]);
            }
            assert forall|a: int, b: int| 0 <= a < ids@.len() && 0 <= b < ids@.len() && a != b implies ids@[a]
                != ids@[b] by {
                assert(ids@[a] == rem[rem.len() - 1 - a]);
                assert(ids@[b] == rem[rem.len() - 1 - b]);
            }
        }
        Ok(ids)
    }
}

} // verus!
