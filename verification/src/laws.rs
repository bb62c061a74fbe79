//! The laws of the cache, stated and proved over its model: what a sequence
//! of operations leaves behind, which item an eviction names, and that the
//! model invariant survives every operation.
use vstd::prelude::*;

use crate::model::Model;
use crate::model::coherent;
use crate::model::due_exists;
use crate::model::is_evict_target;
use crate::model::lemma_lex_asym;
use crate::model::lemma_push_contains;
use crate::model::lemma_push_nodup;
use crate::model::lemma_remove_key;
use crate::model::lookup;
use crate::model::model_empty;
use crate::model::model_remove;
use crate::model::model_set;
use crate::model::model_touch;
use crate::model::remove_key;

verus! {

/// A key just stored reads back as the value just stored, whatever the
/// cache held before and whatever expiry and priority came with it.
pub proof fn lemma_set_then_get(m: Model, k: Seq<char>, v: Seq<char>, e: u64, p: u64)
    ensures
        lookup(model_set(m, k, v, e, p), k) == Some(v),
{
}

/// Overwriting a live key replaces its value wholesale and leaves the
/// number of live keys unchanged: the second record fully supersedes the
/// first.
pub proof fn lemma_overwrite(
    m: Model,
    k: Seq<char>,
    v1: Seq<char>,
    e1: u64,
    p1: u64,
    v2: Seq<char>,
    e2: u64,
    p2: u64,
)
    ensures
        lookup(model_set(model_set(m, k, v1, e1, p1), k, v2, e2, p2), k) == Some(v2),
        model_set(model_set(m, k, v1, e1, p1), k, v2, e2, p2).recs.dom() == model_set(
            m,
            k,
            v1,
            e1,
            p1,
        ).recs.dom(),
        model_set(model_set(m, k, v1, e1, p1), k, v2, e2, p2).recs.dom().len() == model_set(
            m,
            k,
            v1,
            e1,
            p1,
        ).recs.dom().len(),
{
    let ma = model_set(m, k, v1, e1, p1);
    let mb = model_set(ma, k, v2, e2, p2);
    assert(mb.recs.dom() =~= ma.recs.dom());
}

/// The live keys are exactly the keys that `get` answers: the length of the
/// cache counts the reachable keys, in every state.
pub proof fn lemma_len_counts_reachable(m: Model)
    ensures
        m.recs.dom() == Set::new(|k: Seq<char>| lookup(m, k) is Some),
{
    assert(m.recs.dom() =~= Set::new(|k: Seq<char>| lookup(m, k) is Some));
}

/// When some record is due against the barrier, eviction names a due
/// record — expiry takes precedence, and priority is never consulted.
pub proof fn lemma_evict_prefers_due(m: Model, barrier: u64, k: Seq<char>)
    requires
        due_exists(m, barrier),
        is_evict_target(m, barrier, k),
    ensures
        m.recs.dom().contains(k),
        m.recs[k].expiry <= barrier,
{
    let kd = choose|kd: Seq<char>|
        #[trigger] m.recs.dom().contains(kd) && m.recs[kd].expiry <= barrier;
    assert(m.recs[k].expiry <= m.recs[kd].expiry);
}

/// When no record is due, eviction names the least recently used key of
/// the lowest live priority class.
pub proof fn lemma_evict_fallback_priority(m: Model, barrier: u64, k: Seq<char>)
    requires
        !due_exists(m, barrier),
        is_evict_target(m, barrier, k),
    ensures
        m.recs.dom().contains(k),
        forall|k2: Seq<char>| #[trigger] m.recs.dom().contains(k2) ==> m.recs[k].priority
            <= m.recs[k2].priority,
        k == m.order[m.recs[k].priority][0],
{
}

/// The eviction policy names at most one target: whichever key the engine
/// removes is determined by the state and the barrier alone.
pub proof fn lemma_evict_target_unique(m: Model, barrier: u64, k1: Seq<char>, k2: Seq<char>)
    requires
        coherent(m),
        is_evict_target(m, barrier, k1),
        is_evict_target(m, barrier, k2),
    ensures
        k1 == k2,
{
    if k1 != k2 {
        if due_exists(m, barrier) {
            assert(m.recs[k1].expiry <= m.recs[k2].expiry);
            assert(m.recs[k2].expiry <= m.recs[k1].expiry);
            assert(crate::model::lex_lt(k1, k2));
            assert(crate::model::lex_lt(k2, k1));
            lemma_lex_asym(k1, k2);
        } else {
            let p1 = m.recs[k1].priority;
            let p2 = m.recs[k2].priority;
            assert(p1 <= p2 && p2 <= p1);
            assert(k1 == m.order[p1][0] && k2 == m.order[p2][0]);
        }
    }
}

/// A hit promotes: immediately after a successful `get(k)`, while the
/// class of `k` still holds another key and no record is due, eviction
/// spares `k`.
pub proof fn lemma_touch_shields_from_lru(m: Model, k: Seq<char>, barrier: u64, t: Seq<char>)
    requires
        coherent(m),
        m.recs.dom().contains(k),
        m.order[m.recs[k].priority].len() >= 2,
        !due_exists(model_touch(m, k), barrier),
        is_evict_target(model_touch(m, k), barrier, t),
    ensures
        t != k,
{
    let p = m.recs[k].priority;
    let m1 = model_touch(m, k);
    if t == k {
        assert(m1.order[p] == remove_key(m.order[p], k).push(k));
        assert(m.order[p].contains(k));
        lemma_remove_key(m.order[p], k);
        let r = remove_key(m.order[p], k);
        assert(r.len() >= 1);
        assert(m1.order[p][0] == r[0]);
        assert(r.contains(r[0]));
        assert(r[0] != k);
        assert(t == m1.order[m1.recs[t].priority][0]);
    }
}

/// A fresh cache answers no key, counts no item, and holds nothing due.
pub proof fn lemma_empty_cache(k: Seq<char>, barrier: u64)
    ensures
        lookup(model_empty(), k) is None,
        model_empty().recs.dom().len() == 0,
        !due_exists(model_empty(), barrier),
        coherent(model_empty()),
{
    assert(model_empty().recs.dom() =~= Set::<Seq<char>>::empty());
    assert forall|p: u64| (#[trigger] model_empty().order[p]).no_duplicates() by {
        assert(model_empty().order[p] =~= Seq::<Seq<char>>::empty());
    }
}

/// The model invariant survives `set`: the three views stay synchronized
/// when an item is inserted or replaced.
pub proof fn lemma_set_coherent(m: Model, k: Seq<char>, v: Seq<char>, e: u64, p: u64)
    requires
        coherent(m),
    ensures
        coherent(model_set(m, k, v, e, p)),
        model_set(m, k, v, e, p).recs.dom() == m.recs.dom().insert(k),
{
    let m1 = model_set(m, k, v, e, p);
    assert(m1.recs.dom() =~= m.recs.dom().insert(k));
    assert forall|q: u64| #![trigger m1.order[q]] remove_key(m.order[q], k).no_duplicates()
        && !remove_key(m.order[q], k).contains(k) && (forall|y: Seq<char>|
        y != k ==> (remove_key(m.order[q], k).contains(y) <==> m.order[q].contains(y))) by {
        lemma_remove_key(m.order[q], k);
    }
    assert forall|q: u64, y: Seq<char>| #[trigger] m1.order[q].contains(y) implies
        m1.recs.dom().contains(y) && m1.recs[y].priority == q by {
        if q == p {
            lemma_push_contains(remove_key(m.order[q], k), k);
            if y != k {
                assert(m.order[q].contains(y));
            }
        } else {
            assert(y != k);
            assert(m.order[q].contains(y));
        }
    }
    assert forall|q: u64, y: Seq<char>|
        m1.recs.dom().contains(y) && m1.recs[y].priority == q implies #[trigger] m1.order[q].contains(y) by {
        if y == k {
            lemma_push_contains(remove_key(m.order[p], k), k);
        } else {
            assert(m.recs.dom().contains(y) && m.recs[y].priority == q);
            assert(m.order[q].contains(y));
            if q == p {
                lemma_push_contains(remove_key(m.order[q], k), k);
            }
        }
    }
    assert forall|q: u64| (#[trigger] m1.order[q]).no_duplicates() by {
        lemma_remove_key(m.order[q], k);
        if q == p {
            lemma_push_nodup(remove_key(m.order[q], k), k);
        }
    }
}

/// The model invariant survives a hit: promoting a key within its bucket
/// reorders that bucket and nothing else.
pub proof fn lemma_touch_coherent(m: Model, k: Seq<char>)
    requires
        coherent(m),
        m.recs.dom().contains(k),
    ensures
        coherent(model_touch(m, k)),
        model_touch(m, k).recs == m.recs,
{
    let p = m.recs[k].priority;
    let m1 = model_touch(m, k);
    assert(m.order[p].contains(k));
    lemma_remove_key(m.order[p], k);
    assert forall|q: u64, y: Seq<char>| #[trigger] m1.order[q].contains(y) implies
        m1.recs.dom().contains(y) && m1.recs[y].priority == q by {
        if q == p {
            lemma_push_contains(remove_key(m.order[p], k), k);
            if y != k {
                assert(m.order[q].contains(y));
            }
        }
    }
    assert forall|q: u64, y: Seq<char>|
        m1.recs.dom().contains(y) && m1.recs[y].priority == q implies #[trigger] m1.order[q].contains(y) by {
        assert(m.order[q].contains(y));
        if q == p {
            lemma_push_contains(remove_key(m.order[p], k), k);
        }
    }
    assert forall|q: u64| (#[trigger] m1.order[q]).no_duplicates() by {
        if q == p {
            lemma_push_nodup(remove_key(m.order[p], k), k);
        }
    }
}

/// The model invariant survives eviction: removing an item removes exactly
/// its bucket membership.
pub proof fn lemma_remove_coherent(m: Model, k: Seq<char>)
    requires
        coherent(m),
    ensures
        coherent(model_remove(m, k)),
        model_remove(m, k).recs.dom() == m.recs.dom().remove(k),
{
    let m1 = model_remove(m, k);
    assert(m1.recs.dom() =~= m.recs.dom().remove(k));
    assert forall|q: u64| #![trigger m1.order[q]] remove_key(m.order[q], k).no_duplicates()
        && !remove_key(m.order[q], k).contains(k) && (forall|y: Seq<char>|
        y != k ==> (remove_key(m.order[q], k).contains(y) <==> m.order[q].contains(y))) by {
        lemma_remove_key(m.order[q], k);
    }
    assert forall|q: u64, y: Seq<char>| #[trigger] m1.order[q].contains(y) implies
        m1.recs.dom().contains(y) && m1.recs[y].priority == q by {
        assert(y != k);
        assert(m.order[q].contains(y));
    }
    assert forall|q: u64, y: Seq<char>|
        m1.recs.dom().contains(y) && m1.recs[y].priority == q implies #[trigger] m1.order[q].contains(y) by {
        assert(y != k);
        assert(m.order[q].contains(y));
    }
}

} // verus!
