//! The mathematical model of the S3-FIFO policy.
//!
//! The cache state is modelled as three sequences together with the two
//! capacity figures derived from the total capacity.  In every sequence,
//! index `0` is the front of the FIFO (the most recently landed element)
//! and the last index is the back (the oldest element, the next victim).
//!
//! The exec structure `S3FIFO` has this model as its view; every public
//! operation is specified as a transition function on the model.

use vstd::prelude::*;
use vstd::std_specs::cmp::PartialEqSpec;

verus! {

/// A resident cache entry: a key, its value, and a saturating frequency
/// counter that the invariant keeps in `[0, 3]`.
pub struct Entry<K, V> {
    pub key: K,
    pub value: V,
    pub freq: u8,
}

/// A history record for a key evicted from the small queue without
/// promotion: the key and its last-known frequency, no value.
pub struct GhostEntry<K> {
    pub key: K,
    pub freq: u8,
}

/// The abstract state of an S3-FIFO cache.
pub struct CacheModel<K, V> {
    /// The small (recency) queue, front first.
    pub small: Seq<Entry<K, V>>,
    /// The main (frequency) queue, front first.
    pub main: Seq<Entry<K, V>>,
    /// The ghost (history) list, front first.
    pub ghosts: Seq<GhostEntry<K>>,
    /// Capacity of the small queue: one tenth of the total capacity.
    pub small_cap: nat,
    /// Capacity of the main queue and of the ghost list: nine tenths
    /// of the total capacity.
    pub main_cap: nat,
}

/// The key type must behave as an equality: the runtime `==` must agree
/// with its specification, and that specification must be an equivalence
/// relation.
pub open spec fn key_model<K: PartialEq>() -> bool {
    &&& K::obeys_eq_spec()
    &&& forall|a: K| #[trigger] a.eq_spec(&a)
    &&& forall|a: K, b: K| #[trigger] a.eq_spec(&b) ==> b.eq_spec(&a)
    &&& forall|a: K, b: K, c: K| #[trigger] a.eq_spec(&b) && #[trigger] b.eq_spec(&c) ==> a.eq_spec(&c)
}

/// One cache hit bumps a frequency, saturating at 3.
pub open spec fn bumped(f: u8) -> u8 {
    if f >= 3 {
        3u8
    } else {
        (f + 1) as u8
    }
}

/// The queue holds an entry whose key equals `k`.
pub open spec fn has_key<K: PartialEq, V>(s: Seq<Entry<K, V>>, k: K) -> bool {
    exists|i: int| 0 <= i < s.len() && s[i].key.eq_spec(&k)
}

/// `i` is the first index (in scan order, front to back) whose key
/// equals `k`.  At most one index satisfies this.
pub open spec fn is_hit<K: PartialEq, V>(s: Seq<Entry<K, V>>, k: K, i: int) -> bool {
    &&& 0 <= i < s.len()
    &&& s[i].key.eq_spec(&k)
    &&& forall|j: int| 0 <= j < i ==> !s[j].key.eq_spec(&k)
}

/// The first index whose key equals `k` (meaningful when `has_key` holds;
/// see `lemma_first_hit`).
pub open spec fn hit_idx<K: PartialEq, V>(s: Seq<Entry<K, V>>, k: K) -> int {
    choose|i: int| is_hit(s, k, i)
}

/// The ghost list holds a record whose key equals `k`.
pub open spec fn has_ghost<K: PartialEq>(g: Seq<GhostEntry<K>>, k: K) -> bool {
    exists|i: int| 0 <= i < g.len() && g[i].key.eq_spec(&k)
}

/// `i` is the first ghost index (front to back) whose key equals `k`.
pub open spec fn is_ghost_hit<K: PartialEq>(g: Seq<GhostEntry<K>>, k: K, i: int) -> bool {
    &&& 0 <= i < g.len()
    &&& g[i].key.eq_spec(&k)
    &&& forall|j: int| 0 <= j < i ==> !g[j].key.eq_spec(&k)
}

/// The first ghost index whose key equals `k`.
pub open spec fn ghost_hit_idx<K: PartialEq>(g: Seq<GhostEntry<K>>, k: K) -> int {
    choose|i: int| is_ghost_hit(g, k, i)
}

/// No two entries of the queue share a key.
pub open spec fn distinct_entries<K: PartialEq, V>(s: Seq<Entry<K, V>>) -> bool {
    forall|i: int, j: int|
        0 <= i < j < s.len() ==> !(#[trigger] s[i].key.eq_spec(&s[j].key))
}

/// No entry of `a` shares a key with an entry of `b`.
pub open spec fn disjoint_entries<K: PartialEq, V>(a: Seq<Entry<K, V>>, b: Seq<Entry<K, V>>) -> bool {
    forall|i: int, j: int|
        0 <= i < a.len() && 0 <= j < b.len() ==> !(#[trigger] a[i].key.eq_spec(&b[j].key))
}

/// No two ghost records share a key.
pub open spec fn distinct_ghosts<K: PartialEq>(g: Seq<GhostEntry<K>>) -> bool {
    forall|i: int, j: int|
        0 <= i < j < g.len() ==> !(#[trigger] g[i].key.eq_spec(&g[j].key))
}

/// No entry of the queue shares a key with a ghost record.
pub open spec fn disjoint_entry_ghost<K: PartialEq, V>(
    s: Seq<Entry<K, V>>,
    g: Seq<GhostEntry<K>>,
) -> bool {
    forall|i: int, j: int|
        0 <= i < s.len() && 0 <= j < g.len() ==> !(#[trigger] s[i].key.eq_spec(&g[j].key))
}

/// Every frequency of the queue is at most 3.
pub open spec fn freqs_le3<K, V>(s: Seq<Entry<K, V>>) -> bool {
    forall|i: int| 0 <= i < s.len() ==> #[trigger] s[i].freq <= 3
}

/// Every frequency of the ghost list is at most 3.
pub open spec fn ghost_freqs_le3<K>(g: Seq<GhostEntry<K>>) -> bool {
    forall|i: int| 0 <= i < g.len() ==> #[trigger] g[i].freq <= 3
}

/// The sum of the frequencies of the queue.
pub open spec fn total_freq<K, V>(s: Seq<Entry<K, V>>) -> int
    decreases s.len(),
{
    if s.len() == 0 {
        0
    } else {
        s.last().freq + total_freq(s.drop_last())
    }
}

/// How many entries a queue of the given capacity can hold.  A queue of
/// capacity 0 (a degenerate construction, total capacity below 10) still
/// briefly holds one entry between an insertion and the next eviction.
pub open spec fn room(cap: nat) -> nat {
    if cap == 0 {
        1nat
    } else {
        cap
    }
}

/// The value carried by an evicted entry, if one was evicted.
pub open spec fn opt_value<K, V>(e: Option<Entry<K, V>>) -> Option<V> {
    match e {
        Some(e) => Some(e.value),
        None => None,
    }
}

/// The ghost record that remembers an evicted entry.
pub open spec fn ghost_of<K, V>(e: Entry<K, V>) -> GhostEntry<K> {
    GhostEntry { key: e.key, freq: e.freq }
}

/// The frequency-decay scan of the main queue, with a step budget.
/// Each step pops the back entry; an entry of frequency 0 is evicted and
/// the scan stops, any other entry re-enters at the front with its
/// frequency decremented.  Returns the resulting queue and the evicted
/// entry, if the budget sufficed to find one.
pub open spec fn decay_steps<K, V>(s: Seq<Entry<K, V>>, fuel: nat) -> (Seq<Entry<K, V>>, Option<
    Entry<K, V>,
>)
    decreases fuel,
{
    if fuel == 0 || s.len() == 0 {
        (s, None)
    } else {
        let e = s.last();
        if e.freq == 0 {
            (s.drop_last(), Some(e))
        } else {
            decay_steps(
                seq![(Entry { key: e.key, value: e.value, freq: (e.freq - 1) as u8 })]
                    + s.drop_last(),
                (fuel - 1) as nat,
            )
        }
    }
}

/// The exact step budget of the decay scan: a frequency-3 entry needs at
/// most three decrement passes, plus one step to evict it.
pub open spec fn decay_fuel<K, V>(s: Seq<Entry<K, V>>) -> nat {
    (3 * s.len() + 1) as nat
}

/// The queue with the frequency of the entry at `i` bumped.
pub open spec fn with_bumped<K, V>(s: Seq<Entry<K, V>>, i: int) -> Seq<Entry<K, V>> {
    s.update(i, (Entry { key: s[i].key, value: s[i].value, freq: bumped(s[i].freq) }))
}

/// The values of the queue's entries, front first.
pub open spec fn values_of<K, V>(s: Seq<Entry<K, V>>) -> Seq<V>
    decreases s.len(),
{
    if s.len() == 0 {
        Seq::<V>::empty()
    } else {
        values_of(s.drop_last()).push(s.last().value)
    }
}

impl<K: PartialEq, V> CacheModel<K, V> {
    /// The state invariant: capacities respected, frequencies saturated
    /// at 3, no key resident twice, ghost keys distinct, and no key both
    /// resident in the small queue and remembered in the ghost list.
    pub open spec fn inv(self) -> bool {
        &&& key_model::<K>()
        &&& self.small.len() <= room(self.small_cap)
        &&& self.main.len() <= room(self.main_cap)
        &&& self.ghosts.len() <= room(self.main_cap)
        &&& freqs_le3(self.small)
        &&& freqs_le3(self.main)
        &&& ghost_freqs_le3(self.ghosts)
        &&& distinct_entries(self.small)
        &&& distinct_entries(self.main)
        &&& disjoint_entries(self.small, self.main)
        &&& distinct_ghosts(self.ghosts)
        &&& disjoint_entry_ghost(self.small, self.ghosts)
    }

    /// A key is resident when either queue holds an entry for it.
    pub open spec fn resident(self, k: K) -> bool {
        has_key(self.small, k) || has_key(self.main, k)
    }

    /// The value stored for a resident key.
    pub open spec fn value_of(self, k: K) -> V {
        if has_key(self.small, k) {
            self.small[hit_idx(self.small, k)].value
        } else {
            self.main[hit_idx(self.main, k)].value
        }
    }

    /// A read: the small queue is searched first, then the main queue;
    /// a hit bumps the entry's frequency and yields its value, a miss
    /// changes nothing.  The ghost list is never touched by a read.
    pub open spec fn get_t(self, k: K) -> (CacheModel<K, V>, Option<V>) {
        if has_key(self.small, k) {
            let i = hit_idx(self.small, k);
            (CacheModel { small: with_bumped(self.small, i), ..self }, Some(self.small[i].value))
        } else if has_key(self.main, k) {
            let i = hit_idx(self.main, k);
            (CacheModel { main: with_bumped(self.main, i), ..self }, Some(self.main[i].value))
        } else {
            (self, None)
        }
    }

    /// A read through a mutable reference: the hit entry's frequency is
    /// bumped and its value replaced by whatever the caller leaves
    /// behind the returned reference.  Meaningful when `k` is resident.
    pub open spec fn get_mut_t(self, k: K, newv: V) -> CacheModel<K, V> {
        if has_key(self.small, k) {
            let i = hit_idx(self.small, k);
            CacheModel {
                small: self.small.update(
                    i,
                    (Entry { key: self.small[i].key, value: newv, freq: bumped(self.small[i].freq) }),
                ),
                ..self
            }
        } else {
            let i = hit_idx(self.main, k);
            CacheModel {
                main: self.main.update(
                    i,
                    (Entry { key: self.main[i].key, value: newv, freq: bumped(self.main[i].freq) }),
                ),
                ..self
            }
        }
    }

    /// One main-queue eviction cycle: the frequency-decay scan, run with
    /// its exact step budget.
    pub open spec fn evict_main_t(self) -> (CacheModel<K, V>, Option<Entry<K, V>>) {
        let (m, e) = decay_steps(self.main, decay_fuel(self.main));
        (CacheModel { main: m, ..self }, e)
    }

    /// The main queue after making room for one more entry: a decay
    /// scan runs first when the queue is at capacity.
    pub open spec fn main_room(self) -> (Seq<Entry<K, V>>, Option<Entry<K, V>>) {
        if self.main.len() >= self.main_cap {
            decay_steps(self.main, decay_fuel(self.main))
        } else {
            (self.main, None)
        }
    }

    /// The ghost list after making room for one more record: the oldest
    /// record is silently forgotten when the list is at capacity.
    pub open spec fn ghost_room(self) -> Seq<GhostEntry<K>> {
        if self.ghosts.len() >= self.main_cap && self.ghosts.len() > 0 {
            self.ghosts.drop_last()
        } else {
            self.ghosts
        }
    }

    /// One small-queue eviction cycle.  The back entry is popped; one
    /// that was hit at least twice (frequency above 1) is promoted to
    /// the front of the main queue, evicting from the main queue first
    /// if it is full, and the main queue's victim, if any, is the result.
    /// Any other entry is demoted: its value leaves the cache and is the
    /// result, while its key and frequency enter the ghost list at the
    /// front, the oldest ghost record being dropped first if the list is
    /// full.
    pub open spec fn evict_small_t(self) -> (CacheModel<K, V>, Option<Entry<K, V>>) {
        if self.small.len() == 0 {
            (self, None)
        } else {
            let e = self.small.last();
            if e.freq > 1 {
                let (m, victim) = self.main_room();
                (CacheModel { small: self.small.drop_last(), main: seq![e] + m, ..self }, victim)
            } else {
                (
                    CacheModel {
                        small: self.small.drop_last(),
                        ghosts: seq![ghost_of(e)] + self.ghost_room(),
                        ..self
                    },
                    Some(e),
                )
            }
        }
    }

    /// The small queue after making room for one more entry: a
    /// small-queue eviction cycle runs first when the queue is at
    /// capacity.
    pub open spec fn small_room(self) -> (CacheModel<K, V>, Option<Entry<K, V>>) {
        if self.small.len() >= self.small_cap {
            self.evict_small_t()
        } else {
            (self, None)
        }
    }

    /// The state after a write whose key was found in the ghost list:
    /// the new entry lands at the front of the main queue carrying the
    /// remembered frequency, the main queue having made room first.
    /// The matching ghost record itself stays in the list until the
    /// list's own FIFO recycling forgets it.
    pub open spec fn ghost_hit_model(self, k: K, v: V) -> CacheModel<K, V> {
        CacheModel {
            main: seq![
                (Entry {
                    key: k,
                    value: v,
                    freq: self.ghosts[ghost_hit_idx(self.ghosts, k)].freq,
                }),
            ] + self.main_room().0,
            ..self
        }
    }

    /// The state after a write of a key seen neither resident nor in
    /// the ghost list: the new entry lands at the front of the small
    /// queue with frequency 0, the small queue having made room first.
    pub open spec fn fresh_model(self, k: K, v: V) -> CacheModel<K, V> {
        let mid = self.small_room().0;
        CacheModel { small: seq![(Entry { key: k, value: v, freq: 0u8 })] + mid.small, ..mid }
    }

    /// A write.  A resident key is a no-op apart from the frequency bump
    /// of a read: the stored value stays and nothing is evicted.  A key
    /// found in the ghost list lands at the front of the main queue with
    /// its remembered frequency; any other key lands at the front of the
    /// small queue with frequency 0.  Either destination makes room
    /// first when full, and the victim, if any, is the result.
    pub open spec fn put_t(self, k: K, v: V) -> (CacheModel<K, V>, Option<Entry<K, V>>) {
        if self.resident(k) {
            (self.get_t(k).0, None)
        } else if has_ghost(self.ghosts, k) {
            (self.ghost_hit_model(k, v), self.main_room().1)
        } else {
            (self.fresh_model(k, v), self.small_room().1)
        }
    }

    /// A forced eviction: small-queue eviction cycles run until one
    /// actually yields a value or the small queue empties; if the small
    /// queue yielded nothing, one main-queue eviction cycle runs.
    pub open spec fn pop_t(self) -> (CacheModel<K, V>, Option<Entry<K, V>>)
        decreases self.small.len(),
    {
        if self.small.len() == 0 {
            self.evict_main_t()
        } else {
            let (mid, e) = self.evict_small_t();
            if e is Some {
                (mid, e)
            } else {
                mid.pop_t()
            }
        }
    }

    /// Emptying the cache: every resident value leaves, the small
    /// queue's values first, and the ghost history is discarded.
    pub open spec fn drain_t(self) -> (CacheModel<K, V>, Seq<V>) {
        (
            CacheModel {
                small: Seq::<Entry<K, V>>::empty(),
                main: Seq::<Entry<K, V>>::empty(),
                ghosts: Seq::<GhostEntry<K>>::empty(),
                ..self
            },
            values_of(self.small) + values_of(self.main),
        )
    }
}

/// When some index of the queue matches `k`, a first such index exists,
/// and `hit_idx` denotes it.
pub proof fn lemma_first_hit<K: PartialEq, V>(s: Seq<Entry<K, V>>, k: K)
    requires
        has_key(s, k),
    ensures
        is_hit(s, k, hit_idx(s, k)),
{
    let j = choose|j: int| 0 <= j < s.len() && s[j].key.eq_spec(&k);
    lemma_first_hit_from(s, k, j);
}

proof fn lemma_first_hit_from<K: PartialEq, V>(s: Seq<Entry<K, V>>, k: K, j: int)
    requires
        0 <= j < s.len(),
        s[j].key.eq_spec(&k),
    ensures
        is_hit(s, k, hit_idx(s, k)),
    decreases j,
{
    if forall|i: int| 0 <= i < j ==> !(#[trigger] s[i].key.eq_spec(&k)) {
        assert(is_hit(s, k, j));
    } else {
        let j2 = choose|i: int| 0 <= i < j && s[i].key.eq_spec(&k);
        lemma_first_hit_from(s, k, j2);
    }
}

/// A first match is unique, so `hit_idx` denotes exactly the index a
/// front-to-back scan stops at.
pub proof fn lemma_hit_is_first<K: PartialEq, V>(s: Seq<Entry<K, V>>, k: K, i: int)
    requires
        is_hit(s, k, i),
    ensures
        has_key(s, k),
        hit_idx(s, k) == i,
{
    assert(has_key(s, k));
    let c = hit_idx(s, k);
    assert(is_hit(s, k, c)) by {
        assert(exists|j: int| is_hit(s, k, j));
    }
}

/// A first ghost match is unique, so `ghost_hit_idx` denotes exactly
/// the index a front-to-back scan stops at.
pub proof fn lemma_ghost_hit_is_first<K: PartialEq>(g: Seq<GhostEntry<K>>, k: K, i: int)
    requires
        is_ghost_hit(g, k, i),
    ensures
        has_ghost(g, k),
        ghost_hit_idx(g, k) == i,
{
    assert(has_ghost(g, k));
    let c = ghost_hit_idx(g, k);
    assert(is_ghost_hit(g, k, c)) by {
        assert(exists|j: int| is_ghost_hit(g, k, j));
    }
}

/// The decay scan keeps distinctness and the frequency bound, never
/// introduces a key, evicts only a frequency-0 entry, and shrinks the
/// queue by exactly one entry when it evicts.
pub proof fn lemma_decay_steps_props<K: PartialEq, V>(s: Seq<Entry<K, V>>, fuel: nat)
    requires
        key_model::<K>(),
        distinct_entries(s),
        freqs_le3(s),
    ensures
        ({
            let (s2, ev) = decay_steps(s, fuel);
            &&& distinct_entries(s2)
            &&& freqs_le3(s2)
            &&& (ev is Some ==> s2.len() + 1 == s.len() && ev.unwrap().freq == 0)
            &&& (ev is None ==> s2.len() == s.len())
            &&& forall|k: K| #[trigger] has_key(s2, k) ==> has_key(s, k)
        }),
    decreases fuel,
{
    if fuel == 0 || s.len() == 0 {
    } else {
        let e = s.last();
        if e.freq == 0 {
            let s2 = s.drop_last();
            assert(distinct_entries(s2)) by {
                assert forall|i: int, j: int| 0 <= i < j < s2.len() implies !(
                #[trigger] s2[i].key.eq_spec(&s2[j].key)) by {
                    assert(s2[i].key == s[i].key && s2[j].key == s[j].key);
                }
            }
            assert(freqs_le3(s2)) by {
                assert forall|i: int| 0 <= i < s2.len() implies #[trigger] s2[i].freq <= 3 by {
                    assert(s2[i] == s[i]);
                }
            }
            assert forall|k: K| #[trigger] has_key(s2, k) implies has_key(s, k) by {
                let i = choose|i: int| 0 <= i < s2.len() && s2[i].key.eq_spec(&k);
                assert(0 <= i < s.len() && s[i].key.eq_spec(&k));
            }
        } else {
            let rolled = seq![(Entry { key: e.key, value: e.value, freq: (e.freq - 1) as u8 })]
                + s.drop_last();
            assert(distinct_entries(rolled)) by {
                assert forall|i: int, j: int| 0 <= i < j < rolled.len() implies !(
                #[trigger] rolled[i].key.eq_spec(&rolled[j].key)) by {
                    if i == 0 {
                        assert(rolled[j].key == s[j - 1].key);
                        assert(!s[j - 1].key.eq_spec(&s[s.len() - 1].key));
                    } else {
                        assert(rolled[i].key == s[i - 1].key && rolled[j].key == s[j - 1].key);
                    }
                }
            }
            assert(freqs_le3(rolled));
            lemma_decay_steps_props(rolled, (fuel - 1) as nat);
            let (s2, ev) = decay_steps(rolled, (fuel - 1) as nat);
            assert(decay_steps(s, fuel) == (s2, ev));
            assert forall|k: K| #[trigger] has_key(rolled, k) implies has_key(s, k) by {
                let i = choose|i: int| 0 <= i < rolled.len() && rolled[i].key.eq_spec(&k);
                if i == 0 {
                    assert(s[s.len() - 1].key.eq_spec(&k));
                } else {
                    assert(s[i - 1].key.eq_spec(&k));
                }
            }
        }
    }
}

/// Prepending an entry adds its frequency to the total.
pub proof fn lemma_total_freq_prepend<K, V>(x: Entry<K, V>, t: Seq<Entry<K, V>>)
    ensures
        total_freq(seq![x] + t) == x.freq + total_freq(t),
    decreases t.len(),
{
    if t.len() == 0 {
        assert((seq![x] + t).drop_last() =~= Seq::<Entry<K, V>>::empty());
        assert((seq![x] + t).last() == x);
        assert(total_freq((seq![x] + t).drop_last()) == 0);
    } else {
        lemma_total_freq_prepend(x, t.drop_last());
        assert((seq![x] + t).drop_last() =~= seq![x] + t.drop_last());
        assert((seq![x] + t).last() == t.last());
        assert(total_freq(seq![x] + t) == t.last().freq + total_freq((seq![x] + t).drop_last()));
    }
}

/// The total frequency is at least 0 and, under the frequency bound, at
/// most three times the queue's length.
pub proof fn lemma_total_freq_bounds<K, V>(s: Seq<Entry<K, V>>)
    ensures
        total_freq(s) >= 0,
        freqs_le3(s) ==> total_freq(s) <= 3 * s.len(),
    decreases s.len(),
{
    if s.len() > 0 {
        lemma_total_freq_bounds(s.drop_last());
        if freqs_le3(s) {
            assert(freqs_le3(s.drop_last())) by {
                assert forall|i: int| 0 <= i < s.drop_last().len() implies #[trigger] s.drop_last()[i].freq
                    <= 3 by {
                    assert(s.drop_last()[i] == s[i]);
                }
            }
        }
    }
}

/// With a step budget above the total frequency, the decay scan always
/// finds a victim in a non-empty queue: every step that does not evict
/// lowers the total frequency by one, so at most `total_freq` rotation
/// steps precede the eviction.
pub proof fn lemma_decay_terminates<K: PartialEq, V>(s: Seq<Entry<K, V>>, fuel: nat)
    requires
        s.len() > 0,
        total_freq(s) < fuel,
    ensures
        decay_steps(s, fuel).1 is Some,
    decreases fuel,
{
    lemma_total_freq_bounds(s);
    let e = s.last();
    if e.freq > 0 {
        let rolled = seq![(Entry { key: e.key, value: e.value, freq: (e.freq - 1) as u8 })]
            + s.drop_last();
        lemma_total_freq_prepend(
            (Entry { key: e.key, value: e.value, freq: (e.freq - 1) as u8 }),
            s.drop_last(),
        );
        lemma_total_freq_bounds(s.drop_last());
        assert(total_freq(rolled) == total_freq(s) - 1);
        lemma_decay_terminates(rolled, (fuel - 1) as nat);
    }
}

/// One main-queue eviction cycle preserves the invariant, evicts an
/// entry exactly when the main queue is non-empty, and shrinks it by
/// that one entry.
pub proof fn lemma_evict_main_preserves_inv<K: PartialEq, V>(m: CacheModel<K, V>)
    requires
        m.inv(),
    ensures
        ({
            let (m2, ev) = m.evict_main_t();
            &&& m2.inv()
            &&& m2.small == m.small
            &&& m2.ghosts == m.ghosts
            &&& m2.small_cap == m.small_cap
            &&& m2.main_cap == m.main_cap
            &&& (ev is Some <==> m.main.len() > 0)
            &&& (ev is Some ==> m2.main.len() + 1 == m.main.len() && ev.unwrap().freq == 0)
            &&& (ev is None ==> m2 == m)
            &&& forall|k: K| #[trigger] has_key(m2.main, k) ==> has_key(m.main, k)
        }),
{
    if m.main.len() > 0 {
        lemma_total_freq_bounds(m.main);
        lemma_decay_terminates(m.main, decay_fuel(m.main));
    }
    lemma_decay_steps_props(m.main, decay_fuel(m.main));
    let (s2, ev) = decay_steps(m.main, decay_fuel(m.main));
    let m2 = CacheModel { main: s2, ..m };
    assert(disjoint_entries(m2.small, m2.main)) by {
        assert forall|i: int, j: int| 0 <= i < m2.small.len() && 0 <= j < m2.main.len() implies !(
        #[trigger] m2.small[i].key.eq_spec(&m2.main[j].key)) by {
            if m2.small[i].key.eq_spec(&m2.main[j].key) {
                assert(m2.main[j].key.eq_spec(&m2.small[i].key));
                assert(has_key(m2.main, m2.small[i].key));
                assert(has_key(m.main, m2.small[i].key));
                let j2 = choose|j2: int|
                    0 <= j2 < m.main.len() && m.main[j2].key.eq_spec(&m2.small[i].key);
                assert(m.small[i].key.eq_spec(&m.main[j2].key));
            }
        }
    }
}

/// Popping the back entry of the small queue preserves the invariant.
pub proof fn lemma_pop_small_preserves_inv<K: PartialEq, V>(m: CacheModel<K, V>)
    requires
        m.inv(),
        m.small.len() > 0,
    ensures
        (CacheModel { small: m.small.drop_last(), ..m }).inv(),
{
    let small2 = m.small.drop_last();
    assert(forall|i: int| 0 <= i < small2.len() ==> small2[i] == m.small[i]);
}

/// One small-queue eviction cycle preserves the invariant, shortens a
/// non-empty small queue by one, and introduces no key that was not
/// either already in the receiving structure or carried by the evicted
/// entry itself.
pub proof fn lemma_evict_small_preserves_inv<K: PartialEq, V>(m: CacheModel<K, V>)
    requires
        m.inv(),
    ensures
        ({
            let (m2, ev) = m.evict_small_t();
            &&& m2.inv()
            &&& m2.small_cap == m.small_cap
            &&& m2.main_cap == m.main_cap
            &&& (m.small.len() == 0 ==> m2 == m && ev is None)
            &&& (m.small.len() > 0 ==> m2.small == m.small.drop_last())
            &&& (forall|k: K| #[trigger] has_key(m2.small, k) ==> has_key(m.small, k))
            &&& (forall|k: K| #[trigger] has_key(m2.main, k) ==> has_key(m.main, k) || has_key(
                m.small,
                k,
            ))
            &&& (forall|k: K| #[trigger] has_ghost(m2.ghosts, k) ==> has_ghost(m.ghosts, k)
                || has_key(m.small, k))
        }),
{
    if m.small.len() == 0 {
        return ;
    }
    let e = m.small.last();
    let small2 = m.small.drop_last();
    assert(distinct_entries(small2)) by {
        assert forall|i: int, j: int| 0 <= i < j < small2.len() implies !(
        #[trigger] small2[i].key.eq_spec(&small2[j].key)) by {
            assert(small2[i].key == m.small[i].key && small2[j].key == m.small[j].key);
        }
    }
    assert(freqs_le3(small2)) by {
        assert forall|i: int| 0 <= i < small2.len() implies #[trigger] small2[i].freq <= 3 by {
            assert(small2[i] == m.small[i]);
        }
    }
    assert forall|k: K| #[trigger] has_key(small2, k) implies has_key(m.small, k) by {
        let i = choose|i: int| 0 <= i < small2.len() && small2[i].key.eq_spec(&k);
        assert(0 <= i < m.small.len() && m.small[i].key.eq_spec(&k));
    }
    if e.freq > 1 {
        // Promotion: the popped entry moves to the front of the main
        // queue, a decay scan making room first when the queue is full.
        lemma_evict_main_preserves_inv(m);
        let (mr, victim) = m.main_room();
        let main2 = seq![e] + mr;
        assert(forall|k: K| #[trigger] has_key(mr, k) ==> has_key(m.main, k));
        assert(distinct_entries(main2)) by {
            assert forall|i: int, j: int| 0 <= i < j < main2.len() implies !(
            #[trigger] main2[i].key.eq_spec(&main2[j].key)) by {
                if i == 0 {
                    if main2[0].key.eq_spec(&main2[j].key) {
                        assert(mr[j - 1].key.eq_spec(&e.key));
                        assert(has_key(mr, e.key));
                        assert(has_key(m.main, e.key));
                        let j2 = choose|j2: int|
                            0 <= j2 < m.main.len() && m.main[j2].key.eq_spec(&e.key);
                        assert(m.small[m.small.len() - 1].key.eq_spec(&m.main[j2].key));
                    }
                } else {
                    assert(distinct_entries(mr));
                }
            }
        }
        assert(main2.len() <= room(m.main_cap)) by {
            if m.main.len() >= m.main_cap {
                if m.main.len() > 0 {
                    lemma_total_freq_bounds(m.main);
                    lemma_decay_terminates(m.main, decay_fuel(m.main));
                }
            }
        }
        assert(disjoint_entries(small2, main2)) by {
            assert forall|i: int, j: int|
                0 <= i < small2.len() && 0 <= j < main2.len() implies !(
            #[trigger] small2[i].key.eq_spec(&main2[j].key)) by {
                assert(small2[i] == m.small[i]);
                if j == 0 {
                    assert(!m.small[i].key.eq_spec(&m.small[m.small.len() - 1].key));
                } else {
                    if small2[i].key.eq_spec(&mr[j - 1].key) {
                        assert(mr[j - 1].key.eq_spec(&m.small[i].key));
                        assert(has_key(mr, m.small[i].key));
                        assert(has_key(m.main, m.small[i].key));
                        let j2 = choose|j2: int|
                            0 <= j2 < m.main.len() && m.main[j2].key.eq_spec(&m.small[i].key);
                        assert(m.small[i].key.eq_spec(&m.main[j2].key));
                    }
                }
            }
        }
        assert(disjoint_entry_ghost(small2, m.ghosts)) by {
            assert forall|i: int, j: int|
                0 <= i < small2.len() && 0 <= j < m.ghosts.len() implies !(
            #[trigger] small2[i].key.eq_spec(&m.ghosts[j].key)) by {
                assert(small2[i] == m.small[i]);
            }
        }
        assert forall|k: K| #[trigger] has_key(main2, k) implies has_key(m.main, k) || has_key(
            m.small,
            k,
        ) by {
            let i = choose|i: int| 0 <= i < main2.len() && main2[i].key.eq_spec(&k);
            if i == 0 {
                assert(m.small[m.small.len() - 1].key.eq_spec(&k));
            } else {
                assert(mr[i - 1].key.eq_spec(&k));
                assert(has_key(mr, k));
            }
        }
    } else {
        // Demotion: the popped entry's value leaves the cache; its key
        // and frequency are remembered at the front of the ghost list,
        // whose oldest record is dropped first when the list is full.
        let gr = m.ghost_room();
        let ghosts2 = seq![ghost_of(e)] + gr;
        assert(forall|i: int| 0 <= i < gr.len() ==> gr[i] == m.ghosts[i]);
        assert(distinct_ghosts(ghosts2)) by {
            assert forall|i: int, j: int| 0 <= i < j < ghosts2.len() implies !(
            #[trigger] ghosts2[i].key.eq_spec(&ghosts2[j].key)) by {
                if i == 0 {
                    assert(!m.small[m.small.len() - 1].key.eq_spec(&m.ghosts[j - 1].key));
                } else {
                    assert(ghosts2[i].key == m.ghosts[i - 1].key && ghosts2[j].key == m.ghosts[j
                        - 1].key);
                }
            }
        }
        assert(ghost_freqs_le3(ghosts2)) by {
            assert forall|i: int| 0 <= i < ghosts2.len() implies #[trigger] ghosts2[i].freq
                <= 3 by {
                if i == 0 {
                    assert(m.small[m.small.len() - 1].freq <= 3);
                } else {
                    assert(ghosts2[i] == m.ghosts[i - 1]);
                }
            }
        }
        assert(disjoint_entry_ghost(small2, ghosts2)) by {
            assert forall|i: int, j: int|
                0 <= i < small2.len() && 0 <= j < ghosts2.len() implies !(
            #[trigger] small2[i].key.eq_spec(&ghosts2[j].key)) by {
                assert(small2[i] == m.small[i]);
                if j == 0 {
                    assert(!m.small[i].key.eq_spec(&m.small[m.small.len() - 1].key));
                } else {
                    assert(ghosts2[j].key == m.ghosts[j - 1].key);
                }
            }
        }
        assert(disjoint_entries(small2, m.main)) by {
            assert forall|i: int, j: int|
                0 <= i < small2.len() && 0 <= j < m.main.len() implies !(
            #[trigger] small2[i].key.eq_spec(&m.main[j].key)) by {
                assert(small2[i] == m.small[i]);
            }
        }
        assert forall|k: K| #[trigger] has_ghost(ghosts2, k) implies has_ghost(m.ghosts, k)
            || has_key(m.small, k) by {
            let i = choose|i: int| 0 <= i < ghosts2.len() && ghosts2[i].key.eq_spec(&k);
            if i == 0 {
                assert(m.small[m.small.len() - 1].key.eq_spec(&k));
            } else {
                assert(m.ghosts[i - 1].key.eq_spec(&k));
            }
        }
    }
}

/// Overwriting the front element of a queue that was just extended at
/// the front replaces only that element.
pub proof fn lemma_update_front<A>(s: Seq<A>, x: A)
    ensures
        forall|y: A| #[trigger] (seq![x] + s).update(0, y) == seq![y] + s,
{
    assert forall|y: A| #[trigger] (seq![x] + s).update(0, y) == seq![y] + s by {
        assert((seq![x] + s).update(0, y) =~= seq![y] + s);
    }
}

/// A write whose key is found in the ghost list preserves the
/// invariant, whatever value ends up stored in the new entry.
pub proof fn lemma_ghost_hit_model_inv<K: PartialEq, V>(m: CacheModel<K, V>, k: K)
    requires
        m.inv(),
        !m.resident(k),
        has_ghost(m.ghosts, k),
    ensures
        forall|v2: V| (#[trigger] m.ghost_hit_model(k, v2)).inv(),
{
    lemma_first_ghost_hit(m.ghosts, k);
    let f = m.ghosts[ghost_hit_idx(m.ghosts, k)].freq;
    let (mr, victim) = m.main_room();
    if m.main.len() >= m.main_cap {
        lemma_decay_steps_props(m.main, decay_fuel(m.main));
        if m.main.len() > 0 {
            lemma_total_freq_bounds(m.main);
            lemma_decay_terminates(m.main, decay_fuel(m.main));
        }
    }
    assert(forall|x: K| #[trigger] has_key(mr, x) ==> has_key(m.main, x));
    assert(distinct_entries(mr));
    assert(freqs_le3(mr));
    assert(mr.len() + 1 <= room(m.main_cap));
    assert forall|v2: V| (#[trigger] m.ghost_hit_model(k, v2)).inv() by {
        let main2 = seq![(Entry { key: k, value: v2, freq: f })] + mr;
        assert(distinct_entries(main2)) by {
            assert forall|i: int, j: int| 0 <= i < j < main2.len() implies !(
            #[trigger] main2[i].key.eq_spec(&main2[j].key)) by {
                if i == 0 {
                    if k.eq_spec(&mr[j - 1].key) {
                        assert(mr[j - 1].key.eq_spec(&k));
                        assert(has_key(mr, k));
                    }
                } else {
                    assert(main2[i] == mr[i - 1] && main2[j] == mr[j - 1]);
                }
            }
        }
        assert(freqs_le3(main2)) by {
            assert forall|i: int| 0 <= i < main2.len() implies #[trigger] main2[i].freq <= 3 by {
                if i > 0 {
                    assert(main2[i] == mr[i - 1]);
                }
            }
        }
        assert(disjoint_entries(m.small, main2)) by {
            assert forall|i: int, j: int|
                0 <= i < m.small.len() && 0 <= j < main2.len() implies !(
            #[trigger] m.small[i].key.eq_spec(&main2[j].key)) by {
                if j == 0 {
                    assert(main2[0].key == k);
                    assert(!has_key(m.small, k));
                } else {
                    assert(main2[j] == mr[j - 1]);
                    if m.small[i].key.eq_spec(&mr[j - 1].key) {
                        assert(mr[j - 1].key.eq_spec(&m.small[i].key));
                        assert(has_key(mr, m.small[i].key));
                        let j2 = choose|j2: int|
                            0 <= j2 < m.main.len() && m.main[j2].key.eq_spec(&m.small[i].key);
                        assert(m.small[i].key.eq_spec(&m.main[j2].key));
                    }
                }
            }
        }
    }
}

/// A write of a key seen neither resident nor in the ghost list
/// preserves the invariant, whatever value ends up stored in the new
/// entry.
pub proof fn lemma_fresh_model_inv<K: PartialEq, V>(m: CacheModel<K, V>, k: K)
    requires
        m.inv(),
        !m.resident(k),
        !has_ghost(m.ghosts, k),
    ensures
        forall|v2: V| (#[trigger] m.fresh_model(k, v2)).inv(),
{
    lemma_evict_small_preserves_inv(m);
    let (mid, victim) = m.small_room();
    assert(mid.inv());
    assert(mid.small.len() + 1 <= room(m.small_cap));
    assert forall|v2: V| (#[trigger] m.fresh_model(k, v2)).inv() by {
        let ne = Entry { key: k, value: v2, freq: 0u8 };
        let small2 = seq![ne] + mid.small;
        assert(distinct_entries(small2)) by {
            assert forall|i: int, j: int| 0 <= i < j < small2.len() implies !(
            #[trigger] small2[i].key.eq_spec(&small2[j].key)) by {
                if i == 0 {
                    if k.eq_spec(&mid.small[j - 1].key) {
                        assert(mid.small[j - 1].key.eq_spec(&k));
                        assert(has_key(mid.small, k));
                        assert(has_key(m.small, k));
                    }
                } else {
                    assert(small2[i] == mid.small[i - 1] && small2[j] == mid.small[j - 1]);
                }
            }
        }
        assert(freqs_le3(small2)) by {
            assert forall|i: int| 0 <= i < small2.len() implies #[trigger] small2[i].freq <= 3 by {
                if i > 0 {
                    assert(small2[i] == mid.small[i - 1]);
                }
            }
        }
        assert(disjoint_entries(small2, mid.main)) by {
            assert forall|i: int, j: int|
                0 <= i < small2.len() && 0 <= j < mid.main.len() implies !(
            #[trigger] small2[i].key.eq_spec(&mid.main[j].key)) by {
                if i == 0 {
                    if k.eq_spec(&mid.main[j].key) {
                        assert(mid.main[j].key.eq_spec(&k));
                        assert(has_key(mid.main, k));
                    }
                } else {
                    assert(small2[i] == mid.small[i - 1]);
                }
            }
        }
        assert(disjoint_entry_ghost(small2, mid.ghosts)) by {
            assert forall|i: int, j: int|
                0 <= i < small2.len() && 0 <= j < mid.ghosts.len() implies !(
            #[trigger] small2[i].key.eq_spec(&mid.ghosts[j].key)) by {
                if i == 0 {
                    if k.eq_spec(&mid.ghosts[j].key) {
                        assert(mid.ghosts[j].key.eq_spec(&k));
                        assert(has_ghost(mid.ghosts, k));
                    }
                } else {
                    assert(small2[i] == mid.small[i - 1]);
                }
            }
        }
    }
}

/// Bumping the frequency of one small-queue entry preserves the
/// invariant: keys and lengths are untouched and the bump saturates.
pub proof fn lemma_bump_preserves_inv_small<K: PartialEq, V>(m: CacheModel<K, V>, i: int)
    requires
        m.inv(),
        0 <= i < m.small.len(),
    ensures
        (CacheModel { small: with_bumped(m.small, i), ..m }).inv(),
{
}

/// Bumping the frequency of one main-queue entry preserves the
/// invariant.
pub proof fn lemma_bump_preserves_inv_main<K: PartialEq, V>(m: CacheModel<K, V>, i: int)
    requires
        m.inv(),
        0 <= i < m.main.len(),
    ensures
        (CacheModel { main: with_bumped(m.main, i), ..m }).inv(),
{
}

/// When some ghost index matches `k`, a first such index exists, and
/// `ghost_hit_idx` denotes it.
pub proof fn lemma_first_ghost_hit<K: PartialEq>(g: Seq<GhostEntry<K>>, k: K)
    requires
        has_ghost(g, k),
    ensures
        is_ghost_hit(g, k, ghost_hit_idx(g, k)),
{
    let j = choose|j: int| 0 <= j < g.len() && g[j].key.eq_spec(&k);
    lemma_first_ghost_hit_from(g, k, j);
}

proof fn lemma_first_ghost_hit_from<K: PartialEq>(g: Seq<GhostEntry<K>>, k: K, j: int)
    requires
        0 <= j < g.len(),
        g[j].key.eq_spec(&k),
    ensures
        is_ghost_hit(g, k, ghost_hit_idx(g, k)),
    decreases j,
{
    if forall|i: int| 0 <= i < j ==> !(#[trigger] g[i].key.eq_spec(&k)) {
        assert(is_ghost_hit(g, k, j));
    } else {
        let j2 = choose|i: int| 0 <= i < j && g[i].key.eq_spec(&k);
        lemma_first_ghost_hit_from(g, k, j2);
    }
}

} // verus!
