//! Single-flight reads: concurrent misses on a key share one fetch.
//!
//! The first caller leads and owns the cleanup of the in-flight entry; the
//! others follow. Every awaiter populates the cache on a present value, since
//! the leader can be cancelled before it does.

use vstd::prelude::*;

use crate::be::bytes_eq;
use crate::errors::{QueryError, Result};
use crate::store::cache::{probed, CachedInner, Weigher};

verus! {

/// The keys with a fetch in flight.
pub struct Flights {
    keys: Vec<Vec<u8>>,
}

impl Flights {
    pub closed spec fn wf(&self) -> bool {
        forall|i: int, j: int|
            0 <= i < j < self.keys@.len() ==> (#[trigger] self.keys@[i])@ != (
            #[trigger] self.keys@[j])@
    }

    closed spec fn lists(&self, key: Seq<u8>) -> bool {
        exists|i: int| 0 <= i < self.keys@.len() && (#[trigger] self.keys@[i])@ == key
    }

    pub closed spec fn set(&self) -> Set<Seq<u8>> {
        Set::new(|key: Seq<u8>| self.lists(key))
    }

    pub fn new() -> (flights: Flights)
        ensures
            flights.wf(),
            flights.set() == Set::<Seq<u8>>::empty(),
    {
        let flights = Flights { keys: Vec::new() };
        assert(flights.set() =~= Set::<Seq<u8>>::empty());
        flights
    }

    fn position(&self, key: &[u8]) -> (at: Option<usize>)
        ensures
            match at {
                Some(at) => at < self.keys@.len() && self.keys@[at as int]@ == key@,
                None => !self.lists(key@),
            },
    {
        let mut i: usize = 0;
        while i < self.keys.len()
            invariant
                i <= self.keys@.len(),
                forall|j: int| 0 <= j < i ==> (#[trigger] self.keys@[j])@ != key@,
            decreases self.keys@.len() - i,
        {
            if bytes_eq(&self.keys[i], key) {
                return Some(i);
            }
            i = i + 1;
        }
        None
    }

    /// Joins the flight of a key, or starts one; says whether the caller
    /// leads.
    pub fn join(&mut self, key: &[u8]) -> (leads: bool)
        requires
            old(self).wf(),
        ensures
            final(self).wf(),
            leads == !old(self).set().contains(key@),
            final(self).set() == old(self).set().insert(key@),
    {
        if let Some(at) = self.position(key) {
            assert(self.lists(key@));
            assert(self.set() =~= old(self).set().insert(key@));
            return false;
        }
        let ghost before = *self;
        self.keys.push(vstd::slice::slice_to_vec(key));
        proof {
            let n = before.keys@.len() as int;
            assert forall|k: Seq<u8>| self.lists(k) == (before.lists(k) || k == key@) by {
                if before.lists(k) {
                    let i = choose|i: int|
                        0 <= i < before.keys@.len() && (#[trigger] before.keys@[i])@ == k;
                    assert(self.keys@[i]@ == k);
                }
                assert(self.keys@[n]@ == key@);
                if self.lists(k) {
                    let i = choose|i: int|
                        0 <= i < self.keys@.len() && (#[trigger] self.keys@[i])@ == k;
                    if i < n {
                        assert(before.keys@[i]@ == k);
                    }
                }
            }
            assert forall|i: int, j: int| 0 <= i < j < self.keys@.len() implies (
            #[trigger] self.keys@[i])@ != (#[trigger] self.keys@[j])@ by {
                assert(before.keys@[i]@ == self.keys@[i]@);
                if j < n {
                    assert(before.keys@[j]@ == self.keys@[j]@);
                } else {
                    assert(before.lists(before.keys@[i]@));
                }
            }
            assert(self.set() =~= before.set().insert(key@));
        }
        true
    }

    /// Ends the flight of a key.
    pub fn leave(&mut self, key: &[u8])
        requires
            old(self).wf(),
        ensures
            final(self).wf(),
            final(self).set() == old(self).set().remove(key@),
    {
        let ghost before = *self;
        match self.position(key) {
            Some(at) => {
                let _ = self.keys.swap_remove(at);
                proof {
                    let n = before.keys@.len() as int - 1;
                    assert forall|i: int| 0 <= i < n implies (#[trigger] self.keys@[i])
                        == before.keys@[if i == at { n } else { i }] by {}
                    assert forall|i: int, j: int| 0 <= i < j < self.keys@.len() implies (
                    #[trigger] self.keys@[i])@ != (#[trigger] self.keys@[j])@ by {
                        let a = if i == at { n } else { i };
                        let b = if j == at { n } else { j };
                        if a < b {
                            assert(before.keys@[a]@ != before.keys@[b]@);
                        } else {
                            assert(before.keys@[b]@ != before.keys@[a]@);
                        }
                    }
                    assert forall|k: Seq<u8>| self.lists(k) == (before.lists(k) && k != key@) by {
                        if self.lists(k) {
                            let i = choose|i: int|
                                0 <= i < self.keys@.len() && (#[trigger] self.keys@[i])@ == k;
                            let a = if i == at { n } else { i };
                            assert(before.keys@[a]@ == k);
                            if a < at {
                                assert(before.keys@[a]@ != before.keys@[at as int]@);
                            } else {
                                assert(before.keys@[at as int]@ != before.keys@[a]@);
                            }
                        }
                        if before.lists(k) && k != key@ {
                            let a = choose|a: int|
                                0 <= a < before.keys@.len() && (#[trigger] before.keys@[a])@ == k;
                            let i = if a == n { at as int } else { a };
                            assert(self.keys@[i]@ == k);
                        }
                    }
                }
            },
            None => {},
        }
        assert(self.set() =~= before.set().remove(key@));
    }
}

/// What a reader does next.
pub enum ReadStep<V> {
    /// The value was cached.
    Hit(V),
    /// Start the fetch and share it.
    Lead,
    /// Await the fetch that another reader leads.
    Follow,
}

/// A cache whose misses coalesce.
pub struct CoalescedCache<V, W> {
    pub cache: CachedInner<V, W>,
    pub flights: Flights,
}

impl<V: Clone, W: Weigher<V>> CoalescedCache<V, W> {
    pub open spec fn wf(&self) -> bool {
        self.cache.wf() && self.flights.wf()
    }

    /// Begins a point read: a hit, or a miss that leads or follows a fetch.
    pub fn begin(&mut self, key: &Vec<u8>) -> (step: ReadStep<V>)
        requires
            old(self).wf(),
        ensures
            final(self).wf(),
            final(self).cache.holds_same(old(self).cache),
            final(self).cache.stats() == probed(
                old(self).cache.stats(),
                old(self).cache.enabled(),
                step is Hit,
            ),
            match step {
                ReadStep::Hit(value) => {
                    &&& old(self).cache.contents().contains_key(key@)
                    &&& cloned(old(self).cache.contents()[key@], value)
                    &&& final(self).flights.set() == old(self).flights.set()
                },
                ReadStep::Lead => {
                    &&& !old(self).cache.contents().contains_key(key@)
                    &&& !old(self).flights.set().contains(key@)
                    &&& final(self).flights.set() == old(self).flights.set().insert(key@)
                },
                ReadStep::Follow => {
                    &&& !old(self).cache.contents().contains_key(key@)
                    &&& old(self).flights.set().contains(key@)
                    &&& final(self).flights.set() == old(self).flights.set()
                },
            },
    {
        if let Some(value) = self.cache.probe(key) {
            return ReadStep::Hit(value);
        }
        if self.flights.join(key) {
            ReadStep::Lead
        } else {
            assert(self.flights.set() =~= old(self).flights.set());
            ReadStep::Follow
        }
    }

    /// Ends a read whose fetch answered: a present value is cached, whoever
    /// awaited it; the leader ends the flight.
    pub fn finish(&mut self, key: Vec<u8>, fetched: Result<Option<V>>, leads: bool) -> (result: Result<
        Option<V>,
    >)
        requires
            old(self).wf(),
        ensures
            final(self).wf(),
            final(self).flights.set() == if leads {
                old(self).flights.set().remove(key@)
            } else {
                old(self).flights.set()
            },
            match (fetched, result) {
                (Ok(Some(value)), Ok(Some(copy))) => cloned(value, copy),
                (Ok(None), Ok(None)) => true,
                (Err(error), Err(same)) => error == same,
                _ => false,
            },
            final(self).cache.stats() == old(self).cache.stats(),
            match fetched {
                Ok(Some(value)) => final(self).cache.is_seeded(old(self).cache, key@, value),
                _ => final(self).cache.holds_same(old(self).cache),
            },
    {
        if leads {
            self.flights.leave(&key);
        }
        self.cache.settle_fetch(key, fetched)
    }
}

/// The error of a shared fetch, as one awaiter sees it: the sole owner gets the
/// original, under contention it is a backend error with the same text.
pub fn unshare(error: core::result::Result<QueryError, String>) -> (own: QueryError)
    ensures
        match error {
            Ok(original) => own == original,
            Err(text) => own is Backend && own.spec_detail() == text@,
        },
{
    match error {
        Ok(original) => original,
        Err(text) => QueryError::Backend(text),
    }
}

} // verus!
