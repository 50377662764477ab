//! The laws of the S3-FIFO policy, proved over the model of [`crate::model`].
//!
//! Every public operation of [`crate::S3FIFO`] is specified exactly by a
//! transition function on [`CacheModel`], so a law proved of the
//! transitions holds of the executable cache as well.

use vstd::prelude::*;
use vstd::std_specs::cmp::PartialEqSpec;

use crate::model::CacheModel;
use crate::model::Entry;
use crate::model::has_ghost;
use crate::model::has_key;
use crate::model::hit_idx;
use crate::model::is_ghost_hit;
use crate::model::is_hit;
use crate::model::lemma_bump_preserves_inv_main;
use crate::model::lemma_bump_preserves_inv_small;
use crate::model::lemma_evict_main_preserves_inv;
use crate::model::lemma_evict_small_preserves_inv;
use crate::model::lemma_first_hit;
use crate::model::lemma_fresh_model_inv;
use crate::model::lemma_ghost_hit_is_first;
use crate::model::lemma_ghost_hit_model_inv;
use crate::model::lemma_hit_is_first;
use crate::model::with_bumped;

verus! {

/// Capacity invariant.  In every well-formed state whose queues have
/// capacity at least 1 (total capacity at least 10), the small queue
/// holds at most a tenth of the total capacity and the main queue and
/// the ghost list at most nine tenths each.  The preservation lemmas
/// below extend this to every sequence of operations.
pub proof fn lemma_capacity_invariant<K: PartialEq, V>(m: CacheModel<K, V>)
    requires
        m.inv(),
        m.small_cap >= 1,
        m.main_cap >= 1,
    ensures
        m.small.len() <= m.small_cap,
        m.main.len() <= m.main_cap,
        m.ghosts.len() <= m.main_cap,
{
}

/// A read preserves the state invariant.
pub proof fn lemma_get_preserves_inv<K: PartialEq, V>(m: CacheModel<K, V>, k: K)
    requires
        m.inv(),
    ensures
        m.get_t(k).0.inv(),
{
    if has_key(m.small, k) {
        lemma_first_hit(m.small, k);
        lemma_bump_preserves_inv_small(m, hit_idx(m.small, k));
    } else if has_key(m.main, k) {
        lemma_first_hit(m.main, k);
        lemma_bump_preserves_inv_main(m, hit_idx(m.main, k));
    }
}

/// A write preserves the state invariant.
pub proof fn lemma_put_preserves_inv<K: PartialEq, V>(m: CacheModel<K, V>, k: K, v: V)
    requires
        m.inv(),
    ensures
        m.put_t(k, v).0.inv(),
{
    if m.resident(k) {
        lemma_get_preserves_inv(m, k);
    } else if has_ghost(m.ghosts, k) {
        lemma_ghost_hit_model_inv(m, k);
    } else {
        lemma_fresh_model_inv(m, k);
    }
}

/// A forced eviction preserves the state invariant.
pub proof fn lemma_pop_preserves_inv<K: PartialEq, V>(m: CacheModel<K, V>)
    requires
        m.inv(),
    ensures
        m.pop_t().0.inv(),
    decreases m.small.len(),
{
    if m.small.len() == 0 {
        lemma_evict_main_preserves_inv(m);
    } else {
        lemma_evict_small_preserves_inv(m);
        let (mid, e) = m.evict_small_t();
        if e is None {
            lemma_pop_preserves_inv(mid);
        }
    }
}

/// Emptying the cache preserves the state invariant.
pub proof fn lemma_drain_preserves_inv<K: PartialEq, V>(m: CacheModel<K, V>)
    requires
        m.inv(),
    ensures
        m.drain_t().0.inv(),
{
}

/// Bumping the frequency of the entry a lookup stops at changes neither
/// the outcome of the lookup nor the stored value.
proof fn lemma_bump_keeps_lookup<K: PartialEq, V>(s: Seq<Entry<K, V>>, k: K)
    requires
        has_key(s, k),
    ensures
        ({
            let i = hit_idx(s, k);
            let s2 = with_bumped(s, i);
            &&& has_key(s2, k)
            &&& hit_idx(s2, k) == i
            &&& s2[i].value == s[i].value
        }),
{
    lemma_first_hit(s, k);
    let i = hit_idx(s, k);
    let s2 = with_bumped(s, i);
    assert(forall|j: int| 0 <= j < s.len() ==> s2[j].key == s[j].key);
    assert(is_hit(s2, k, i));
    lemma_hit_is_first(s2, k, i);
}

/// No duplication.  Writing a fresh key makes it resident with the
/// value written; writing the same key again is a no-op that evicts
/// nothing, bumps only the entry's frequency, and keeps the first
/// value stored — it never yields a second resident entry.  That no
/// state ever holds two entries for one key is the distinctness clause
/// of the invariant itself, preserved by every operation.
pub proof fn lemma_no_duplication<K: PartialEq, V>(m: CacheModel<K, V>, k: K, v1: V, v2: V)
    requires
        m.inv(),
        !m.resident(k),
    ensures
        ({
            let (m1, ev1) = m.put_t(k, v1);
            let (m2, ev2) = m1.put_t(k, v2);
            &&& m1.resident(k)
            &&& m1.value_of(k) == v1
            &&& ev2 is None
            &&& m2 == m1.get_t(k).0
            &&& m2.value_of(k) == v1
            &&& m2.small.len() == m1.small.len()
            &&& m2.main.len() == m1.main.len()
        }),
{
    let (m1, ev1) = m.put_t(k, v1);
    if has_ghost(m.ghosts, k) {
        assert(m1.main[0].key.eq_spec(&k));
        assert(is_hit(m1.main, k, 0));
        lemma_hit_is_first(m1.main, k, 0);
        assert(!has_key(m1.small, k));
    } else {
        assert(m1.small[0].key.eq_spec(&k));
        assert(is_hit(m1.small, k, 0));
        lemma_hit_is_first(m1.small, k, 0);
    }
    if has_key(m1.small, k) {
        lemma_bump_keeps_lookup(m1.small, k);
    } else {
        lemma_bump_keeps_lookup(m1.main, k);
    }
}

/// Promotion law.  An entry whose frequency reached at least 2 while in
/// the small queue — it was inserted and then hit at least twice — is
/// promoted at its small-queue eviction: it moves, frequency carried,
/// to the front of the main queue; it is neither discarded nor demoted
/// to the ghost list.
pub proof fn lemma_promotion<K: PartialEq, V>(m: CacheModel<K, V>)
    requires
        m.inv(),
        m.small.len() > 0,
        m.small.last().freq > 1,
    ensures
        ({
            let (m2, ev) = m.evict_small_t();
            &&& m2.main.len() > 0
            &&& m2.main[0] == m.small.last()
            &&& m2.ghosts == m.ghosts
            &&& has_key(m2.main, m.small.last().key)
        }),
{
    let (m2, ev) = m.evict_small_t();
    assert(m2.main[0] == m.small.last());
    assert(m2.main[0].key.eq_spec(&m.small.last().key));
}

/// Ghost carry-over.  An entry evicted from the small queue with
/// frequency at most 1 goes to the ghost list, and a later write of the
/// same key lands in the main queue — not the small queue — with the
/// remembered frequency, not with frequency 0.
pub proof fn lemma_ghost_carry_over<K: PartialEq, V>(m: CacheModel<K, V>, v2: V)
    requires
        m.inv(),
        m.small.len() > 0,
        m.small.last().freq <= 1,
    ensures
        ({
            let e = m.small.last();
            let (m1, ev) = m.evict_small_t();
            let (m2, ev2) = m1.put_t(e.key, v2);
            &&& ev == Some(e)
            &&& has_ghost(m1.ghosts, e.key)
            &&& m2.main.len() > 0
            &&& m2.main[0] == (Entry { key: e.key, value: v2, freq: e.freq })
            &&& m2.small == m1.small
        }),
{
    lemma_evict_small_preserves_inv(m);
    let e = m.small.last();
    let (m1, ev) = m.evict_small_t();
    assert(m1.ghosts[0].key.eq_spec(&e.key));
    assert(is_ghost_hit(m1.ghosts, e.key, 0));
    lemma_ghost_hit_is_first(m1.ghosts, e.key, 0);
    assert(!has_key(m1.small, e.key)) by {
        if has_key(m1.small, e.key) {
            let j = choose|j: int| 0 <= j < m1.small.len() && m1.small[j].key.eq_spec(&e.key);
            assert(m.small[j].key.eq_spec(&m.small[m.small.len() - 1].key));
        }
    }
    assert(!has_key(m1.main, e.key)) by {
        if has_key(m1.main, e.key) {
            let j = choose|j: int| 0 <= j < m.main.len() && m.main[j].key.eq_spec(&e.key);
            assert(e.key.eq_spec(&m.main[j].key));
            assert(m.small[m.small.len() - 1].key.eq_spec(&m.main[j].key));
        }
    }
}

/// Main decay termination.  One main-queue eviction cycle on any
/// non-empty well-formed main queue — even one where every entry has
/// the maximum frequency 3 — terminates within its built-in budget of
/// `3·len + 1` scan steps and evicts exactly one entry, one whose
/// frequency had reached 0.
pub proof fn lemma_main_decay_termination<K: PartialEq, V>(m: CacheModel<K, V>)
    requires
        m.inv(),
        m.main.len() > 0,
    ensures
        ({
            let (m2, ev) = m.evict_main_t();
            &&& ev is Some
            &&& ev.unwrap().freq == 0
            &&& m2.main.len() + 1 == m.main.len()
        }),
{
    lemma_evict_main_preserves_inv(m);
}

/// Round trip.  A write immediately followed by a read of the same key
/// yields the value written, whenever no differing value for that key
/// is already resident (a write of a resident key keeps the stored
/// value, so the law asks that any stored value equal the one written).
pub proof fn lemma_round_trip<K: PartialEq, V>(m: CacheModel<K, V>, k: K, v: V)
    requires
        m.inv(),
        m.resident(k) ==> m.value_of(k) == v,
    ensures
        m.put_t(k, v).0.get_t(k).1 == Some(v),
{
    let m1 = m.put_t(k, v).0;
    if m.resident(k) {
        if has_key(m.small, k) {
            lemma_first_hit(m.small, k);
            lemma_bump_keeps_lookup(m.small, k);
        } else {
            lemma_first_hit(m.main, k);
            lemma_bump_keeps_lookup(m.main, k);
            assert(!has_key(m1.small, k));
        }
    } else if has_ghost(m.ghosts, k) {
        assert(m1.main[0].key.eq_spec(&k));
        assert(is_hit(m1.main, k, 0));
        lemma_hit_is_first(m1.main, k, 0);
        assert(!has_key(m1.small, k));
    } else {
        assert(m1.small[0].key.eq_spec(&k));
        assert(is_hit(m1.small, k, 0));
        lemma_hit_is_first(m1.small, k, 0);
    }
}

} // verus!
