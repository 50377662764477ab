//! A verified, non-thread-safe S3-FIFO cache eviction policy.
//!
//! The cache is split into three FIFO parts: a small queue holding the
//! most recently inserted entries, a main queue holding entries that
//! showed reuse, and a ghost list remembering keys recently evicted from
//! the small queue, so that a re-inserted key can land directly in the
//! main queue with its earlier frequency.
//!
//! The abstract state and the transition functions that every operation
//! is specified against live in [`model`]; the laws that the policy
//! obeys are proved in [`laws`].

use vstd::prelude::*;
use vstd::std_specs::cmp::PartialEqSpec;

mod key;
pub mod laws;
pub mod model;

pub use key::S3FIFOKey;
pub use model::CacheModel;
pub use model::Entry;
pub use model::GhostEntry;
use model::has_ghost;
use model::has_key;
use model::is_ghost_hit;
use model::is_hit;
use model::key_model;
use model::with_bumped;

verus! {

/// A non-thread-safe S3-FIFO cache: a small recency queue, a main
/// frequency queue, and a ghost history list.  In each vector, index 0
/// is the front of the FIFO (most recently landed) and the last index is
/// the back (next eviction victim).
pub struct S3FIFO<K, V> {
    /// Recently inserted entries, not yet proven to be reused.
    pub small: Vec<Entry<K, V>>,
    /// Entries that were reused at least once.
    pub main: Vec<Entry<K, V>>,
    /// Keys recently evicted from the small queue, with their last
    /// frequency.
    pub ghosts: Vec<GhostEntry<K>>,
    /// Capacity of the small queue: one tenth of the total capacity.
    pub small_cap: usize,
    /// Capacity of the main queue and of the ghost list: nine tenths of
    /// the total capacity.
    pub main_cap: usize,
}

impl<K, V> View for S3FIFO<K, V> {
    type V = CacheModel<K, V>;

    open spec fn view(&self) -> CacheModel<K, V> {
        CacheModel {
            small: self.small@,
            main: self.main@,
            ghosts: self.ghosts@,
            small_cap: self.small_cap as nat,
            main_cap: self.main_cap as nat,
        }
    }
}

impl<K: PartialEq, V> S3FIFO<K, V> {
    /// The cache is well formed: its model satisfies the state
    /// invariant, and the capacities are small enough that the decay
    /// scan's step budget cannot overflow.
    pub open spec fn wf(self) -> bool {
        &&& self@.inv()
        &&& self.small_cap <= usize::MAX / 10
        &&& self.main_cap <= usize::MAX / 10
    }

    /// Create an S3-FIFO cache with one tenth of the capacity for the
    /// small queue and nine tenths for the main queue; the ghost list
    /// mirrors the main queue's capacity but holds only keys.
    ///
    /// A capacity below 10 yields a degenerate small queue of capacity
    /// 0, which holds at most one entry at a time: every insertion
    /// immediately displaces the previous one.
    pub fn new(capacity: usize) -> (r: Self)
        requires
            key_model::<K>(),
            capacity <= usize::MAX / 9,
        ensures
            r.wf(),
            r@.small == Seq::<Entry<K, V>>::empty(),
            r@.main == Seq::<Entry<K, V>>::empty(),
            r@.ghosts == Seq::<GhostEntry<K>>::empty(),
            r@.small_cap == capacity as int / 10,
            r@.main_cap == capacity as int * 9 / 10,
    {
        let small_capacity = capacity / 10;
        let main_capacity = capacity * 9 / 10;
        proof {
            vstd::arithmetic::div_mod::lemma_div_is_ordered(
                capacity as int,
                usize::MAX as int,
                10,
            );
            assert(capacity * 9 <= usize::MAX) by (nonlinear_arith)
                requires
                    capacity <= usize::MAX / 9,
            ;
            vstd::arithmetic::div_mod::lemma_div_is_ordered(
                capacity as int * 9,
                usize::MAX as int,
                10,
            );
        }
        S3FIFO {
            small: Vec::with_capacity(small_capacity),
            main: Vec::with_capacity(main_capacity),
            ghosts: Vec::with_capacity(main_capacity),
            small_cap: small_capacity,
            main_cap: main_capacity,
        }
    }

    /// Linear scan of a queue, front to back, for the first entry whose
    /// key equals `key`.
    fn find_entry(q: &Vec<Entry<K, V>>, key: &K) -> (r: Option<usize>)
        requires
            K::obeys_eq_spec(),
        ensures
            match r {
                Some(i) => is_hit(q@, *key, i as int),
                None => !has_key(q@, *key),
            },
    {
        let n = q.len();
        let mut i: usize = 0;
        while i < n
            invariant
                K::obeys_eq_spec(),
                n == q@.len(),
                0 <= i <= n,
                forall|j: int| 0 <= j < i ==> !(#[trigger] q@[j].key.eq_spec(key)),
            decreases n - i,
        {
            if q[i].key == *key {
                return Some(i);
            }
            i = i + 1;
        }
        None
    }

    /// Linear scan of the ghost list, front to back, for the first
    /// record whose key equals `key`.
    fn find_ghost(g: &Vec<GhostEntry<K>>, key: &K) -> (r: Option<usize>)
        requires
            K::obeys_eq_spec(),
        ensures
            match r {
                Some(i) => is_ghost_hit(g@, *key, i as int),
                None => !has_ghost(g@, *key),
            },
    {
        let n = g.len();
        let mut i: usize = 0;
        while i < n
            invariant
                K::obeys_eq_spec(),
                n == g@.len(),
                0 <= i <= n,
                forall|j: int| 0 <= j < i ==> !(#[trigger] g@[j].key.eq_spec(key)),
            decreases n - i,
        {
            if g[i].key == *key {
                return Some(i);
            }
            i = i + 1;
        }
        None
    }

    /// Read an entry.  A hit bumps the entry's saturating frequency and
    /// returns a reference to the stored value; the ghost list is never
    /// consulted or changed.
    pub fn get(&mut self, key: &K) -> (r: Option<&V>)
        requires
            old(self).wf(),
        ensures
            final(self).wf(),
            final(self).small_cap == old(self).small_cap,
            final(self).main_cap == old(self).main_cap,
            ({
                let (m2, v) = old(self)@.get_t(*key);
                &&& final(self)@ == m2
                &&& match r {
                    Some(rv) => v == Some(*rv),
                    None => v is None,
                }
            }),
    {
        if let Some(i) = Self::find_entry(&self.small, key) {
            proof {
                model::lemma_hit_is_first(self@.small, *key, i as int);
                model::lemma_bump_preserves_inv_small(self@, i as int);
            }
            let f = self.small[i].freq;
            self.small[i].freq = if f >= 3 {
                3
            } else {
                f + 1
            };
            assert(self@.small =~= with_bumped(old(self)@.small, i as int));
            return Some(&self.small[i].value);
        }
        if let Some(i) = Self::find_entry(&self.main, key) {
            proof {
                model::lemma_hit_is_first(self@.main, *key, i as int);
                model::lemma_bump_preserves_inv_main(self@, i as int);
            }
            let f = self.main[i].freq;
            self.main[i].freq = if f >= 3 {
                3
            } else {
                f + 1
            };
            assert(self@.main =~= with_bumped(old(self)@.main, i as int));
            return Some(&self.main[i].value);
        }
        None
    }

    /// Read an entry through a mutable reference.  A hit bumps the
    /// entry's saturating frequency and returns a mutable reference to
    /// the stored value; whatever the caller writes through it becomes
    /// the stored value.
    pub fn get_mut(&mut self, key: &K) -> (r: Option<&mut V>)
        requires
            old(self).wf(),
        ensures
            final(self).wf(),
            final(self).small_cap == old(self).small_cap,
            final(self).main_cap == old(self).main_cap,
            r is Some <==> old(self)@.resident(*key),
            r is None ==> *final(self) == *old(self),
            r is Some ==> *r.unwrap() == old(self)@.value_of(*key)
                && final(self)@ == old(self)@.get_mut_t(*key, *final(r.unwrap())),
    {
        if let Some(i) = Self::find_entry(&self.small, key) {
            proof {
                model::lemma_hit_is_first(self@.small, *key, i as int);
                model::lemma_bump_preserves_inv_small(old(self)@, i as int);
            }
            let e = &mut self.small[i];
            let f = e.freq;
            e.freq = if f >= 3 {
                3
            } else {
                f + 1
            };
            return Some(&mut e.value);
        }
        if let Some(i) = Self::find_entry(&self.main, key) {
            proof {
                model::lemma_hit_is_first(self@.main, *key, i as int);
                model::lemma_bump_preserves_inv_main(old(self)@, i as int);
            }
            let e = &mut self.main[i];
            let f = e.freq;
            e.freq = if f >= 3 {
                3
            } else {
                f + 1
            };
            return Some(&mut e.value);
        }
        None
    }

    /// Run one main-queue eviction cycle: the frequency-decay scan.
    /// The oldest entry is popped repeatedly; an entry of frequency 0 is
    /// evicted and its value returned, any other entry re-enters at the
    /// front with its frequency decremented.  The step budget
    /// `3 * len + 1` is exact: a frequency-3 entry needs at most three
    /// decrement passes before it becomes evictable, so the scan of a
    /// non-empty queue always returns a victim within the budget.
    #[verifier::loop_isolation(false)]
    pub fn evict_main(&mut self) -> (r: Option<V>)
        requires
            old(self).wf(),
        ensures
            final(self).wf(),
            final(self).small_cap == old(self).small_cap,
            final(self).main_cap == old(self).main_cap,
            ({
                let (m2, ev) = old(self)@.evict_main_t();
                &&& final(self)@ == m2
                &&& r == model::opt_value(ev)
            }),
    {
        proof {
            model::lemma_evict_main_preserves_inv(old(self)@);
        }
        let n = self.main.len();
        assert(3 * n + 1 <= usize::MAX) by {
            assert(10 * (usize::MAX / 10) <= usize::MAX);
        }
        let mut iters: usize = 3 * n + 1;
        assert(iters as nat == model::decay_fuel(old(self)@.main));
        while iters > 0
            invariant
                self.small@ == old(self).small@,
                self.ghosts@ == old(self).ghosts@,
                self.small_cap == old(self).small_cap,
                self.main_cap == old(self).main_cap,
                model::decay_steps(old(self)@.main, model::decay_fuel(old(self)@.main))
                    == model::decay_steps(self@.main, iters as nat),
            decreases iters,
        {
            let ghost before: Seq<Entry<K, V>> = self@.main;
            match self.main.pop() {
                None => {
                    return None;
                },
                Some(e) => {
                    iters = iters - 1;
                    if e.freq > 0 {
                        let e2 = Entry { key: e.key, value: e.value, freq: e.freq - 1 };
                        self.main.insert(0, e2);
                        assert(self@.main =~= seq![e2] + before.drop_last());
                    } else {
                        return Some(e.value);
                    }
                },
            }
        }
        None
    }

    /// Run one small-queue eviction cycle.  The oldest entry is popped;
    /// one that was hit at least twice while in the small queue
    /// (frequency above 1) is promoted to the front of the main queue —
    /// evicting from the main queue first if it is full, and that
    /// victim's value, if any, is returned.  Any other entry is demoted:
    /// its value is returned, while its key and frequency enter the
    /// ghost list at the front, the oldest ghost record being silently
    /// forgotten first if the list is full.
    pub fn evict_small(&mut self) -> (r: Option<V>)
        requires
            old(self).wf(),
        ensures
            final(self).wf(),
            final(self).small_cap == old(self).small_cap,
            final(self).main_cap == old(self).main_cap,
            ({
                let (m2, ev) = old(self)@.evict_small_t();
                &&& final(self)@ == m2
                &&& r == model::opt_value(ev)
            }),
    {
        proof {
            model::lemma_evict_small_preserves_inv(old(self)@);
        }
        if self.small.is_empty() {
            return None;
        }
        let e = self.small.pop().unwrap();
        proof {
            model::lemma_pop_small_preserves_inv(old(self)@);
        }
        if e.freq > 1 {
            let mut victim: Option<V> = None;
            if self.main.len() >= self.main_cap {
                victim = self.evict_main();
            }
            self.main.insert(0, e);
            assert(self@.main =~= seq![e] + old(self)@.main_room().0);
            victim
        } else {
            if self.ghosts.len() >= self.main_cap {
                let _ = self.ghosts.pop();
            }
            let Entry { key, value, freq } = e;
            self.ghosts.insert(0, GhostEntry { key, freq });
            assert(self@.ghosts =~= seq![model::ghost_of(e)] + old(self)@.ghost_room());
            Some(value)
        }
    }

    /// Write an entry, possibly evicting another to make room.  A key
    /// that is already resident is not reinserted: the write is a no-op
    /// that bumps the entry's frequency, returns a mutable reference to
    /// the value already stored, and drops the value passed in.  A key
    /// remembered in the ghost list lands at the front of the main
    /// queue with its carried-over frequency; any other key lands at
    /// the front of the small queue with frequency 0.  A full
    /// destination queue runs its eviction cycle first, and the
    /// victim's value, if any, is returned beside the reference to the
    /// stored value.
    pub fn put(&mut self, key: K, value: V) -> (r: (&mut V, Option<V>))
        requires
            old(self).wf(),
        ensures
            final(self).wf(),
            final(self).small_cap == old(self).small_cap,
            final(self).main_cap == old(self).main_cap,
            old(self)@.resident(key) ==> r.1 is None && *r.0 == old(self)@.value_of(key)
                && final(self)@ == old(self)@.get_mut_t(key, *final(r.0)),
            !old(self)@.resident(key) && has_ghost(old(self)@.ghosts, key) ==> *r.0 == value
                && r.1 == model::opt_value(old(self)@.main_room().1)
                && final(self)@ == old(self)@.ghost_hit_model(key, *final(r.0)),
            !old(self)@.resident(key) && !has_ghost(old(self)@.ghosts, key) ==> *r.0 == value
                && r.1 == model::opt_value(old(self)@.small_room().1)
                && final(self)@ == old(self)@.fresh_model(key, *final(r.0)),
    {
        let ghost k0: K = key;
        let ghost v0: V = value;
        if let Some(i) = Self::find_entry(&self.small, &key) {
            proof {
                model::lemma_hit_is_first(self@.small, key, i as int);
                model::lemma_bump_preserves_inv_small(old(self)@, i as int);
            }
            let e = &mut self.small[i];
            let f = e.freq;
            e.freq = if f >= 3 {
                3
            } else {
                f + 1
            };
            return (&mut e.value, None);
        }
        if let Some(i) = Self::find_entry(&self.main, &key) {
            proof {
                model::lemma_hit_is_first(self@.main, key, i as int);
                model::lemma_bump_preserves_inv_main(old(self)@, i as int);
            }
            let e = &mut self.main[i];
            let f = e.freq;
            e.freq = if f >= 3 {
                3
            } else {
                f + 1
            };
            return (&mut e.value, None);
        }
        if let Some(g) = Self::find_ghost(&self.ghosts, &key) {
            proof {
                model::lemma_ghost_hit_is_first(self@.ghosts, key, g as int);
                model::lemma_ghost_hit_model_inv(self@, key);
            }
            let f = self.ghosts[g].freq;
            let mut ev: Option<V> = None;
            if self.main.len() >= self.main_cap {
                ev = self.evict_main();
            }
            self.main.insert(0, Entry { key, value, freq: f });
            proof {
                assert(self@.main =~= seq![(Entry { key: k0, value: v0, freq: f })]
                    + old(self)@.main_room().0);
                model::lemma_update_front(
                    old(self)@.main_room().0,
                    (Entry { key: k0, value: v0, freq: f }),
                );
                assert(self@ == old(self)@.ghost_hit_model(k0, v0));
                assert(self@.inv());
            }
            let e = &mut self.main[0];
            (&mut e.value, ev)
        } else {
            proof {
                model::lemma_fresh_model_inv(self@, key);
                model::lemma_evict_small_preserves_inv(self@);
            }
            let mut ev: Option<V> = None;
            if self.small.len() >= self.small_cap {
                ev = self.evict_small();
            }
            self.small.insert(0, Entry { key, value, freq: 0 });
            proof {
                assert(self@.small =~= seq![(Entry { key: k0, value: v0, freq: 0u8 })]
                    + old(self)@.small_room().0.small);
                model::lemma_update_front(
                    old(self)@.small_room().0.small,
                    (Entry { key: k0, value: v0, freq: 0u8 }),
                );
                assert(self@ == old(self)@.fresh_model(k0, v0));
                assert(self@.inv());
            }
            let e = &mut self.small[0];
            (&mut e.value, ev)
        }
    }

    /// Force exactly one externally visible eviction.  Small-queue
    /// eviction cycles run until one actually yields a value or the
    /// small queue empties; if the small queue yielded nothing, one
    /// main-queue eviction cycle runs.
    #[verifier::loop_isolation(false)]
    pub fn pop(&mut self) -> (r: Option<V>)
        requires
            old(self).wf(),
        ensures
            final(self).wf(),
            final(self).small_cap == old(self).small_cap,
            final(self).main_cap == old(self).main_cap,
            ({
                let (m2, ev) = old(self)@.pop_t();
                &&& final(self)@ == m2
                &&& r == model::opt_value(ev)
            }),
    {
        while !self.small.is_empty()
            invariant
                self.wf(),
                self.small_cap == old(self).small_cap,
                self.main_cap == old(self).main_cap,
                old(self)@.pop_t() == self@.pop_t(),
            decreases self.small.len(),
        {
            proof {
                model::lemma_evict_small_preserves_inv(self@);
            }
            let v = self.evict_small();
            if v.is_some() {
                return v;
            }
        }
        self.evict_main()
    }

    /// Remove every entry from the cache, leaving it empty with the
    /// same capacities.  All resident values are returned, the small
    /// queue's contents first, each queue front to back; the ghost
    /// history is discarded entirely.
    #[verifier::loop_isolation(false)]
    pub fn drain(&mut self) -> (r: Vec<V>)
        requires
            old(self).wf(),
        ensures
            final(self).wf(),
            final(self).small_cap == old(self).small_cap,
            final(self).main_cap == old(self).main_cap,
            ({
                let (m2, vs) = old(self)@.drain_t();
                &&& final(self)@ == m2
                &&& r@ == vs
            }),
    {
        self.ghosts.clear();
        let mut values: Vec<V> = Vec::new();
        while !self.small.is_empty()
            invariant
                self.ghosts@.len() == 0,
                self.main@ == old(self).main@,
                self.small_cap == old(self).small_cap,
                self.main_cap == old(self).main_cap,
                values@.len() + self.small@.len() == old(self).small@.len(),
                self.small@ == old(self).small@.skip(values@.len() as int),
                values@ == model::values_of(old(self).small@.take(values@.len() as int)),
            decreases self.small.len(),
        {
            let ghost k: int = values@.len() as int;
            let e = self.small.remove(0);
            values.push(e.value);
            proof {
                assert(self.small@ =~= old(self).small@.skip(k + 1));
                assert(old(self).small@.take(k + 1).drop_last() =~= old(self).small@.take(k));
                assert(old(self).small@.take(k + 1).last() == old(self).small@[k]);
            }
        }
        let ghost small_values: Seq<V> = model::values_of(old(self).small@);
        proof {
            assert(old(self).small@.take(old(self).small@.len() as int) =~= old(self).small@);
        }
        let ghost n0: int = values@.len() as int;
        while !self.main.is_empty()
            invariant
                self.ghosts@.len() == 0,
                self.small@.len() == 0,
                self.small_cap == old(self).small_cap,
                self.main_cap == old(self).main_cap,
                values@.len() >= n0,
                values@.len() - n0 + self.main@.len() == old(self).main@.len(),
                self.main@ == old(self).main@.skip(values@.len() - n0),
                values@ == small_values + model::values_of(
                    old(self).main@.take(values@.len() - n0),
                ),
            decreases self.main.len(),
        {
            let ghost k: int = values@.len() - n0;
            let e = self.main.remove(0);
            values.push(e.value);
            proof {
                assert(self.main@ =~= old(self).main@.skip(k + 1));
                assert(old(self).main@.take(k + 1).drop_last() =~= old(self).main@.take(k));
                assert(old(self).main@.take(k + 1).last() == old(self).main@[k]);
            }
        }
        proof {
            assert(old(self).main@.take(old(self).main@.len() as int) =~= old(self).main@);
            assert(self@.small =~= Seq::<Entry<K, V>>::empty());
            assert(self@.main =~= Seq::<Entry<K, V>>::empty());
            assert(self@.ghosts =~= Seq::<GhostEntry<K>>::empty());
        }
        values
    }
}

} // verus!
