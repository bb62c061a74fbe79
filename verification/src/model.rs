//! The mathematical model of the cache: a map from keys to records together
//! with, for every priority class, the recency order of the keys living in
//! that class (least recently used first).
use vstd::prelude::*;

verus! {

/// A stored record as the specification sees it: the value together with the
/// expiry and priority under which the key currently lives.
pub ghost struct Rec {
    pub value: Seq<char>,
    pub expiry: u64,
    pub priority: u64,
}

/// The abstract state of the cache. `recs` holds one record per live key;
/// `order[p]` lists the keys of priority class `p` from least recently used
/// to most recently used, and is empty for classes with no live key.
#[verifier::ext_equal]
pub ghost struct Model {
    pub recs: Map<Seq<char>, Rec>,
    pub order: Map<u64, Seq<Seq<char>>>,
}

/// The sequence `s` with the first occurrence of `x` taken out, `s` itself
/// when `x` does not occur.
pub open spec fn remove_key<T>(s: Seq<T>, x: T) -> Seq<T>
    decreases s.len(),
{
    if s.len() == 0 {
        Seq::empty()
    } else if s[0] == x {
        s.skip(1)
    } else {
        seq![s[0]] + remove_key(s.skip(1), x)
    }
}

/// Lexicographic order on key views, by code point; a proper prefix comes
/// before anything it prefixes.
pub open spec fn lex_lt(a: Seq<char>, b: Seq<char>) -> bool
    decreases a.len(),
{
    if b.len() == 0 {
        false
    } else if a.len() == 0 {
        true
    } else if (a[0] as u32) < (b[0] as u32) {
        true
    } else if (b[0] as u32) < (a[0] as u32) {
        false
    } else {
        lex_lt(a.skip(1), b.skip(1))
    }
}

/// How `remove_key` acts on a duplicate-free sequence: the occurrence of
/// `x` is gone, everything else stays, and no duplicate appears.
pub proof fn lemma_remove_key<T>(s: Seq<T>, x: T)
    requires
        s.no_duplicates(),
    ensures
        remove_key(s, x).no_duplicates(),
        !remove_key(s, x).contains(x),
        forall|y: T| y != x ==> (remove_key(s, x).contains(y) <==> s.contains(y)),
        s.contains(x) ==> remove_key(s, x).len() == s.len() - 1,
        !s.contains(x) ==> remove_key(s, x) == s,
    decreases s.len(),
{
    if s.len() == 0 {
        assert(remove_key(s, x) =~= s);
        assert forall|y: T| y != x implies (remove_key(s, x).contains(y) <==> s.contains(
            y,
        )) by {}
    } else if s[0] == x {
        let r = s.skip(1);
        assert(remove_key(s, x) == r);
        assert forall|i: int, j: int| 0 <= i < j < r.len() implies r[i] != r[j] by {
            assert(s[i + 1] != s[j + 1]);
        }
        assert(r.no_duplicates());
        assert(!r.contains(x)) by {
            if r.contains(x) {
                let i = choose|i: int| 0 <= i < r.len() && r[i] == x;
                assert(s[i + 1] == s[0]);
            }
        }
        assert forall|y: T| y != x implies (r.contains(y) <==> s.contains(y)) by {
            if r.contains(y) {
                let i = choose|i: int| 0 <= i < r.len() && r[i] == y;
                assert(s[i + 1] == y);
            }
            if s.contains(y) {
                let i = choose|i: int| 0 <= i < s.len() && s[i] == y;
                assert(i >= 1);
                assert(r[i - 1] == y);
            }
        }
        assert(s.contains(x)) by {
            assert(s[0] == x);
        }
    } else {
        let tail = s.skip(1);
        assert forall|i: int, j: int| 0 <= i < j < tail.len() implies tail[i] != tail[j] by {
            assert(s[i + 1] != s[j + 1]);
        }
        assert(tail.no_duplicates());
        lemma_remove_key(tail, x);
        let rt = remove_key(tail, x);
        let r = seq![s[0]] + rt;
        assert(remove_key(s, x) == r);
        assert(r[0] == s[0]);
        assert forall|i: int| 1 <= i < r.len() implies r[i] == rt[i - 1] by {}
        assert forall|y: T| #[trigger] r.contains(y) implies y == s[0] || rt.contains(y) by {
            let i = choose|i: int| 0 <= i < r.len() && r[i] == y;
            if i >= 1 {
                assert(rt[i - 1] == y);
            }
        }
        assert(!r.contains(x)) by {
            assert(!rt.contains(x));
            assert(s[0] != x);
        }
        assert(!s.skip(1).contains(s[0])) by {
            if tail.contains(s[0]) {
                let i = choose|i: int| 0 <= i < tail.len() && tail[i] == s[0];
                assert(s[i + 1] == s[0]);
            }
        }
        assert(r.no_duplicates()) by {
            assert forall|i: int, j: int| 0 <= i < j < r.len() implies r[i] != r[j] by {
                if i == 0 {
                    assert(r[j] == rt[j - 1]);
                    assert(rt.contains(rt[j - 1]));
                    if rt[j - 1] == s[0] {
                        assert(tail.contains(s[0]));
                    }
                } else {
                    assert(r[i] == rt[i - 1] && r[j] == rt[j - 1]);
                }
            }
        }
        assert forall|y: T| y != x implies (r.contains(y) <==> s.contains(y)) by {
            if r.contains(y) {
                if y == s[0] {
                    assert(s.contains(y));
                } else {
                    assert(rt.contains(y));
                    assert(tail.contains(y));
                    let i = choose|i: int| 0 <= i < tail.len() && tail[i] == y;
                    assert(s[i + 1] == y);
                }
            }
            if s.contains(y) {
                let i = choose|i: int| 0 <= i < s.len() && s[i] == y;
                if i == 0 {
                    assert(r[0] == y);
                    assert(r.contains(y));
                } else {
                    assert(tail[i - 1] == y);
                    assert(tail.contains(y));
                    assert(rt.contains(y));
                    let t = choose|t: int| 0 <= t < rt.len() && rt[t] == y;
                    assert(r[t + 1] == y);
                    assert(r.contains(y));
                }
            }
        }
        if s.contains(x) {
            assert(tail.contains(x)) by {
                let i = choose|i: int| 0 <= i < s.len() && s[i] == x;
                assert(i >= 1);
                assert(tail[i - 1] == x);
            }
        }
        if !s.contains(x) {
            assert(!tail.contains(x)) by {
                if tail.contains(x) {
                    let i = choose|i: int| 0 <= i < tail.len() && tail[i] == x;
                    assert(s[i + 1] == x);
                }
            }
            assert(r =~= s) by {
                assert(rt == tail);
            }
        }
    }
}

/// Appending a fresh element keeps a sequence duplicate-free.
pub proof fn lemma_push_nodup<T>(s: Seq<T>, x: T)
    requires
        s.no_duplicates(),
        !s.contains(x),
    ensures
        s.push(x).no_duplicates(),
{
    let r = s.push(x);
    assert forall|i: int, j: int| 0 <= i < j < r.len() implies r[i] != r[j] by {
        if j == s.len() {
            assert(r[i] == s[i]);
            if s[i] == x {
                assert(s.contains(x));
            }
        } else {
            assert(r[i] == s[i] && r[j] == s[j]);
        }
    }
}

/// The lexicographic order is transitive.
pub proof fn lemma_lex_trans(a: Seq<char>, b: Seq<char>, c: Seq<char>)
    requires
        lex_lt(a, b),
        lex_lt(b, c),
    ensures
        lex_lt(a, c),
    decreases a.len(),
{
    if c.len() == 0 {
        assert(false);
    } else if a.len() == 0 {
    } else {
        assert(b.len() > 0);
        let a0 = a[0] as u32;
        let b0 = b[0] as u32;
        let c0 = c[0] as u32;
        if a0 < b0 {
            assert(c0 >= b0);
        } else if b0 < a0 {
            assert(false);
        } else {
            if c0 > b0 {
            } else if c0 < b0 {
                assert(false);
            } else {
                lemma_lex_trans(a.skip(1), b.skip(1), c.skip(1));
            }
        }
    }
}

/// No key precedes itself in the lexicographic order.
pub proof fn lemma_lex_irrefl(a: Seq<char>)
    ensures
        !lex_lt(a, a),
    decreases a.len(),
{
    if a.len() > 0 {
        lemma_lex_irrefl(a.skip(1));
    }
}

/// The lexicographic order is asymmetric.
pub proof fn lemma_lex_asym(a: Seq<char>, b: Seq<char>)
    requires
        lex_lt(a, b),
    ensures
        !lex_lt(b, a),
    decreases a.len(),
{
    if b.len() == 0 {
        assert(false);
    } else if a.len() == 0 {
    } else {
        let a0 = a[0] as u32;
        let b0 = b[0] as u32;
        if a0 < b0 {
        } else if b0 < a0 {
            assert(false);
        } else {
            lemma_lex_asym(a.skip(1), b.skip(1));
        }
    }
}

/// Two keys neither of which precedes the other are the same key.
pub proof fn lemma_lex_total(a: Seq<char>, b: Seq<char>)
    requires
        !lex_lt(a, b),
        !lex_lt(b, a),
    ensures
        a == b,
    decreases a.len(),
{
    if b.len() == 0 {
        if a.len() > 0 {
            assert(lex_lt(b, a));
        }
        assert(a =~= b);
    } else if a.len() == 0 {
        assert(lex_lt(a, b));
    } else {
        let a0 = a[0] as u32;
        let b0 = b[0] as u32;
        if a0 < b0 {
            assert(lex_lt(a, b));
        } else if b0 < a0 {
            assert(lex_lt(b, a));
        } else {
            assert(a[0] == b[0]) by {
                vstd::utf8::char_u32_cast(a[0], a0 as u32);
                vstd::utf8::char_u32_cast(b[0], b0 as u32);
            }
            lemma_lex_total(a.skip(1), b.skip(1));
            assert(a =~= b) by {
                assert(a.skip(1).len() == b.skip(1).len());
                assert forall|i: int| 0 <= i < a.len() implies a[i] == b[i] by {
                    if i > 0 {
                        assert(a.skip(1)[i - 1] == b.skip(1)[i - 1]);
                    }
                }
            }
        }
    }
}

/// What a pushed sequence contains.
pub proof fn lemma_push_contains<T>(s: Seq<T>, x: T)
    ensures
        forall|y: T| s.push(x).contains(y) <==> (s.contains(y) || y == x),
{
    let r = s.push(x);
    assert forall|y: T| r.contains(y) implies (s.contains(y) || y == x) by {
        let i = choose|i: int| 0 <= i < r.len() && r[i] == y;
        if i < s.len() {
            assert(s[i] == y);
        }
    }
    assert forall|y: T| s.contains(y) || y == x implies r.contains(y) by {
        if s.contains(y) {
            let i = choose|i: int| 0 <= i < s.len() && s[i] == y;
            assert(r[i] == y);
        } else {
            assert(r[s.len() as int] == y);
        }
    }
}

/// The model of a freshly constructed cache: no records, every recency order
/// empty.
pub open spec fn model_empty() -> Model {
    Model { recs: Map::empty(), order: Map::new(|p: u64| true, |p: u64| Seq::<Seq<char>>::empty()) }
}

/// The model after `set(k, v, e, p)`: the record for `k` is replaced, `k`
/// leaves whatever recency order it was in and becomes the most recently
/// used key of class `p`.
pub open spec fn model_set(m: Model, k: Seq<char>, v: Seq<char>, e: u64, p: u64) -> Model {
    Model {
        recs: m.recs.insert(k, Rec { value: v, expiry: e, priority: p }),
        order: Map::new(
            |q: u64| true,
            |q: u64|
                if q == p {
                    remove_key(m.order[q], k).push(k)
                } else {
                    remove_key(m.order[q], k)
                },
        ),
    }
}

/// The model after a successful `get(k)`: records are untouched and `k`
/// becomes the most recently used key of its own class.
pub open spec fn model_touch(m: Model, k: Seq<char>) -> Model {
    let p = m.recs[k].priority;
    Model {
        recs: m.recs,
        order: Map::new(
            |q: u64| true,
            |q: u64|
                if q == p {
                    remove_key(m.order[q], k).push(k)
                } else {
                    m.order[q]
                },
        ),
    }
}

/// The model after the removal of key `k`: its record is gone and it leaves
/// its recency order.
pub open spec fn model_remove(m: Model, k: Seq<char>) -> Model {
    Model {
        recs: m.recs.remove(k),
        order: Map::new(|q: u64| true, |q: u64| remove_key(m.order[q], k)),
    }
}

/// What `get(k)` answers on a cache in state `m`: the stored value of a
/// live key, absence otherwise.
pub open spec fn lookup(m: Model, k: Seq<char>) -> Option<Seq<char>> {
    if m.recs.dom().contains(k) {
        Some(m.recs[k].value)
    } else {
        None
    }
}

/// Well-formedness of a model: finitely many records, a recency order for
/// every priority, each order free of duplicates, and the orders listing
/// exactly the live keys of their class.
pub open spec fn coherent(m: Model) -> bool {
    &&& m.recs.dom().finite()
    &&& forall|p: u64| m.order.dom().contains(p)
    &&& forall|p: u64, k: Seq<char>|
        #[trigger] m.order[p].contains(k) <==> m.recs.dom().contains(k) && m.recs[k].priority == p
    &&& forall|p: u64| (#[trigger] m.order[p]).no_duplicates()
}

/// Whether some live record is due against `barrier`.
pub open spec fn due_exists(m: Model, barrier: u64) -> bool {
    exists|k: Seq<char>| #[trigger] m.recs.dom().contains(k) && m.recs[k].expiry <= barrier
}

/// Whether `k` is live and no live record expires earlier.
pub open spec fn is_min_expiry(m: Model, k: Seq<char>) -> bool {
    &&& m.recs.dom().contains(k)
    &&& forall|k2: Seq<char>| #[trigger] m.recs.dom().contains(k2) ==> m.recs[k].expiry
        <= m.recs[k2].expiry
}

/// Whether `k` is live and no live record has a lower priority class.
pub open spec fn is_min_priority(m: Model, k: Seq<char>) -> bool {
    &&& m.recs.dom().contains(k)
    &&& forall|k2: Seq<char>| #[trigger] m.recs.dom().contains(k2) ==> m.recs[k].priority
        <= m.recs[k2].priority
}

/// The key `evict(barrier)` removes from a non-empty cache. When some record
/// is due, the target expires no later than any live record and ties on the
/// expiry are broken towards the lexicographically least key; otherwise the
/// target is the least recently used key of the lowest live priority class.
pub open spec fn is_evict_target(m: Model, barrier: u64, k: Seq<char>) -> bool {
    if due_exists(m, barrier) {
        &&& is_min_expiry(m, k)
        &&& forall|k2: Seq<char>|
            #[trigger] m.recs.dom().contains(k2) && m.recs[k2].expiry == m.recs[k].expiry && k2 != k
                ==> lex_lt(k, k2)
    } else {
        &&& is_min_priority(m, k)
        &&& m.order[m.recs[k].priority].len() > 0
        &&& k == m.order[m.recs[k].priority][0]
    }
}

} // verus!
