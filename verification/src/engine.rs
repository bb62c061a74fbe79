//! The eviction engine: a primary index owning the stored items and, per
//! priority class, a recency-ordered bucket of keys. Expiry queries walk the
//! primary index; recency is delegated to the buckets.
use vstd::prelude::*;
use vstd::string::StrSliceExecFns;

use crate::model::Model;
use crate::model::Rec;
use crate::model::coherent;
use crate::model::is_evict_target;
use crate::model::lemma_lex_total;
use crate::model::lemma_lex_trans;
use crate::model::lemma_push_contains;
use crate::model::lemma_push_nodup;
use crate::model::lemma_remove_key;
use crate::model::lex_lt;
use crate::model::model_empty;
use crate::model::model_remove;
use crate::model::model_set;
use crate::model::model_touch;
use crate::model::remove_key;
use crate::recency::lru_len;
use crate::recency::lru_new;
use crate::recency::lru_order;
use crate::recency::lru_peek;
use crate::recency::lru_pop;
use crate::recency::lru_promote;
use crate::recency::lru_push;
use vstd::pervasive::unreached;

verus! {

/// One stored item: the authoritative copy of the value together with the
/// expiry and priority the key was last set with.
pub(crate) struct Page {
    pub(crate) key: String,
    pub(crate) value: String,
    pub(crate) expiry: u64,
    pub(crate) priority: u64,
}

/// The keys of one priority class, in recency order.
pub(crate) struct Bucket {
    pub(crate) priority: u64,
    pub(crate) keys: lru::LruCache<String, bool>,
}

/// The cache. `pages` is the primary index (each live key exactly once);
/// `buckets` holds one non-empty recency bucket per live priority class, in
/// increasing priority order.
pub struct PECache {
    pub(crate) pages: Vec<Page>,
    pub(crate) buckets: Vec<Bucket>,
}

pub(crate) open spec fn page_rec(pg: Page) -> Rec {
    Rec { value: pg.value@, expiry: pg.expiry, priority: pg.priority }
}

pub(crate) open spec fn has_key(s: Seq<Page>, k: Seq<char>) -> bool {
    exists|i: int| 0 <= i < s.len() && (#[trigger] s[i]).key@ == k
}

pub(crate) open spec fn idx_of(s: Seq<Page>, k: Seq<char>) -> int {
    choose|i: int| 0 <= i < s.len() && (#[trigger] s[i]).key@ == k
}

pub(crate) open spec fn recs_of(s: Seq<Page>) -> Map<Seq<char>, Rec> {
    Map::new(|k: Seq<char>| has_key(s, k), |k: Seq<char>| page_rec(s[idx_of(s, k)]))
}

/// Every key occurs at most once in the primary index.
pub(crate) open spec fn pages_ok(s: Seq<Page>) -> bool {
    forall|i: int, j: int|
        0 <= i < j < s.len() ==> (#[trigger] s[i]).key@ != (#[trigger] s[j]).key@
}

pub(crate) open spec fn has_bucket(bs: Seq<Bucket>, p: u64) -> bool {
    exists|j: int| 0 <= j < bs.len() && (#[trigger] bs[j]).priority == p
}

pub(crate) open spec fn bidx_of(bs: Seq<Bucket>, p: u64) -> int {
    choose|j: int| 0 <= j < bs.len() && (#[trigger] bs[j]).priority == p
}

/// The recency order of priority class `p`: the keys of its bucket from
/// least to most recently used, or the empty sequence when no such bucket
/// exists.
pub(crate) open spec fn order_of(bs: Seq<Bucket>, p: u64) -> Seq<Seq<char>> {
    if has_bucket(bs, p) {
        lru_order(bs[bidx_of(bs, p)].keys)
    } else {
        Seq::empty()
    }
}

pub(crate) open spec fn prios_distinct(bs: Seq<Bucket>) -> bool {
    forall|i: int, j: int|
        0 <= i < j < bs.len() ==> (#[trigger] bs[i]).priority != (#[trigger] bs[j]).priority
}

/// Buckets stand in strictly increasing priority order, none is empty, and
/// no key occurs twice in one bucket.
pub(crate) open spec fn buckets_ok(bs: Seq<Bucket>) -> bool {
    &&& forall|i: int, j: int|
        0 <= i < j < bs.len() ==> (#[trigger] bs[i]).priority < (#[trigger] bs[j]).priority
    &&& forall|j: int| 0 <= j < bs.len() ==> lru_order((#[trigger] bs[j]).keys).len() > 0
    &&& forall|j: int| 0 <= j < bs.len() ==> lru_order((#[trigger] bs[j]).keys).no_duplicates()
}

/// The indexes agree: every key a bucket holds is a live key of that
/// bucket's priority, and every live key stands in the bucket of its
/// priority.
pub(crate) open spec fn linked(s: Seq<Page>, bs: Seq<Bucket>) -> bool {
    &&& forall|p: u64, t: int|
        0 <= t < order_of(bs, p).len() ==> has_key(s, #[trigger] order_of(bs, p)[t])
            && s[idx_of(s, order_of(bs, p)[t])].priority == p
    &&& forall|i: int|
        0 <= i < s.len() ==> order_of(bs, (#[trigger] s[i]).priority).contains(s[i].key@)
}

/// Every recency order is duplicate-free.
pub(crate) proof fn lemma_order_nodup(bs: Seq<Bucket>, q: u64)
    requires
        buckets_ok(bs),
    ensures
        order_of(bs, q).no_duplicates(),
{
    if has_bucket(bs, q) {
        let j = bidx_of(bs, q);
        assert(0 <= j < bs.len() && bs[j].priority == q);
        assert(lru_order(bs[j].keys).no_duplicates());
    }
}

/// Appending a page with a fresh key adds exactly its record.
pub(crate) proof fn lemma_recs_push(s: Seq<Page>, pg: Page)
    requires
        pages_ok(s),
        !has_key(s, pg.key@),
    ensures
        pages_ok(s.push(pg)),
        recs_of(s.push(pg)) =~= recs_of(s).insert(pg.key@, page_rec(pg)),
{
    let s2 = s.push(pg);
    assert forall|i: int, j: int| 0 <= i < j < s2.len() implies (#[trigger] s2[i]).key@ != (
    #[trigger] s2[j]).key@ by {
        if j == s.len() {
            assert(s2[i] == s[i]);
            if s[i].key@ == pg.key@ {
                assert(has_key(s, pg.key@));
            }
        } else {
            assert(s2[i] == s[i] && s2[j] == s[j]);
        }
    }
    assert forall|k: Seq<char>| has_key(s2, k) implies has_key(s, k) || k == pg.key@ by {
        let i = choose|i: int| 0 <= i < s2.len() && (#[trigger] s2[i]).key@ == k;
        if i < s.len() {
            assert(s[i] == s2[i]);
        }
    }
    assert forall|k: Seq<char>| has_key(s, k) implies has_key(s2, k) by {
        let i = choose|i: int| 0 <= i < s.len() && (#[trigger] s[i]).key@ == k;
        assert(s2[i] == s[i]);
    }
    assert(s2[s.len() as int] == pg);
    lemma_idx(s2, s.len() as int);
    assert forall|k: Seq<char>| has_key(s, k) implies #[trigger] recs_of(s2)[k] == recs_of(
        s,
    )[k] by {
        let i = choose|i: int| 0 <= i < s.len() && (#[trigger] s[i]).key@ == k;
        lemma_idx(s, i);
        assert(s2[i] == s[i]);
        lemma_idx(s2, i);
    }
    assert(recs_of(s2) =~= recs_of(s).insert(pg.key@, page_rec(pg)));
}

/// Removing the page at `i` takes away exactly its record.
pub(crate) proof fn lemma_recs_remove(s: Seq<Page>, i: int)
    requires
        pages_ok(s),
        0 <= i < s.len(),
    ensures
        pages_ok(s.remove(i)),
        !has_key(s.remove(i), s[i].key@),
        recs_of(s.remove(i)) =~= recs_of(s).remove(s[i].key@),
{
    let s2 = s.remove(i);
    let k0 = s[i].key@;
    assert forall|t: int| 0 <= t < s2.len() implies s2[t] == (if t < i {
        s[t]
    } else {
        s[t + 1]
    }) by {}
    assert forall|a: int, b: int| 0 <= a < b < s2.len() implies (#[trigger] s2[a]).key@ != (
    #[trigger] s2[b]).key@ by {
        let a1: int = if a < i {
            a
        } else {
            a + 1
        };
        let b1: int = if b < i {
            b
        } else {
            b + 1
        };
        assert(s2[a] == s[a1] && s2[b] == s[b1]);
        assert(s[a1].key@ != s[b1].key@);
    }
    assert(!has_key(s2, k0)) by {
        if has_key(s2, k0) {
            let t = choose|t: int| 0 <= t < s2.len() && (#[trigger] s2[t]).key@ == k0;
            let t1: int = if t < i {
                t
            } else {
                t + 1
            };
            assert(s[t1].key@ == k0);
            lemma_idx(s, t1);
            lemma_idx(s, i);
        }
    }
    assert forall|k: Seq<char>| has_key(s2, k) implies has_key(s, k) && k != k0 by {
        let t = choose|t: int| 0 <= t < s2.len() && (#[trigger] s2[t]).key@ == k;
        let t1: int = if t < i {
            t
        } else {
            t + 1
        };
        assert(s[t1].key@ == k);
    }
    assert forall|k: Seq<char>| has_key(s, k) && k != k0 implies has_key(s2, k) by {
        let t = choose|t: int| 0 <= t < s.len() && (#[trigger] s[t]).key@ == k;
        assert(t != i);
        let t2: int = if t < i {
            t
        } else {
            t - 1
        };
        assert(s2[t2] == s[t]);
    }
    assert forall|k: Seq<char>| has_key(s2, k) implies #[trigger] recs_of(s2)[k] == recs_of(
        s,
    )[k] by {
        let t = choose|t: int| 0 <= t < s2.len() && (#[trigger] s2[t]).key@ == k;
        lemma_idx(s2, t);
        let t1: int = if t < i {
            t
        } else {
            t + 1
        };
        assert(s[t1] == s2[t]);
        lemma_idx(s, t1);
    }
    assert(recs_of(s2) =~= recs_of(s).remove(k0));
}

impl View for PECache {
    type V = Model;

    closed spec fn view(&self) -> Model {
        Model {
            recs: recs_of(self.pages@),
            order: Map::new(|p: u64| true, |p: u64| order_of(self.buckets@, p)),
        }
    }
}

pub(crate) proof fn lemma_idx(s: Seq<Page>, i: int)
    requires
        pages_ok(s),
        0 <= i < s.len(),
    ensures
        has_key(s, s[i].key@),
        idx_of(s, s[i].key@) == i,
        recs_of(s).dom().contains(s[i].key@),
        recs_of(s)[s[i].key@] == page_rec(s[i]),
{
    assert(has_key(s, s[i].key@));
    let j = idx_of(s, s[i].key@);
    assert(0 <= j < s.len() && s[j].key@ == s[i].key@);
    if i < j {
        assert(s[i].key@ != s[j].key@);
    } else if j < i {
        assert(s[j].key@ != s[i].key@);
    }
}

pub(crate) proof fn lemma_bidx(bs: Seq<Bucket>, j: int)
    requires
        prios_distinct(bs),
        0 <= j < bs.len(),
    ensures
        has_bucket(bs, bs[j].priority),
        bidx_of(bs, bs[j].priority) == j,
        order_of(bs, bs[j].priority) == lru_order(bs[j].keys),
{
    assert(has_bucket(bs, bs[j].priority));
    let j2 = bidx_of(bs, bs[j].priority);
    assert(0 <= j2 < bs.len() && bs[j2].priority == bs[j].priority);
    if j < j2 {
        assert(bs[j].priority != bs[j2].priority);
    } else if j2 < j {
        assert(bs[j2].priority != bs[j].priority);
    }
}

pub(crate) proof fn lemma_sorted_distinct(bs: Seq<Bucket>)
    requires
        buckets_ok(bs),
    ensures
        prios_distinct(bs),
{
    assert forall|i: int, j: int| 0 <= i < j < bs.len() implies (#[trigger] bs[i]).priority != (
    #[trigger] bs[j]).priority by {
        assert(bs[i].priority < bs[j].priority);
    }
}

/// Replacing the bucket at `j` by one of the same priority changes exactly
/// that priority's recency order.
pub(crate) proof fn lemma_order_update(bs1: Seq<Bucket>, bs2: Seq<Bucket>, j: int)
    requires
        prios_distinct(bs1),
        0 <= j < bs1.len(),
        bs2 == bs1.update(j, bs2[j]),
        bs2[j].priority == bs1[j].priority,
    ensures
        prios_distinct(bs2),
        forall|q: u64|
            order_of(bs2, q) == if q == bs1[j].priority {
                lru_order(bs2[j].keys)
            } else {
                order_of(bs1, q)
            },
{
    assert(bs2.len() == bs1.len());
    assert forall|t: int| 0 <= t < bs2.len() implies (#[trigger] bs2[t]).priority
        == bs1[t].priority by {
        if t != j {
            assert(bs2[t] == bs1[t]);
        }
    }
    assert forall|i: int, t: int| 0 <= i < t < bs2.len() implies (#[trigger] bs2[i]).priority != (
    #[trigger] bs2[t]).priority by {
        assert(bs1[i].priority != bs1[t].priority);
    }
    assert forall|q: u64|
        order_of(bs2, q) == (if q == bs1[j].priority {
            lru_order(bs2[j].keys)
        } else {
            order_of(bs1, q)
        }) by {
        if q == bs1[j].priority {
            lemma_bidx(bs2, j);
        } else {
            if has_bucket(bs1, q) {
                let t = bidx_of(bs1, q);
                assert(0 <= t < bs1.len() && bs1[t].priority == q);
                assert(t != j);
                assert(bs2[t] == bs1[t]);
                lemma_bidx(bs1, t);
                lemma_bidx(bs2, t);
            } else {
                if has_bucket(bs2, q) {
                    let t = bidx_of(bs2, q);
                    assert(0 <= t < bs2.len() && bs2[t].priority == q);
                    assert(bs1[t].priority == q);
                    assert(has_bucket(bs1, q));
                }
            }
        }
    }
}

/// Removing the bucket at `j` empties exactly that priority's recency order.
pub(crate) proof fn lemma_order_remove(bs1: Seq<Bucket>, j: int)
    requires
        prios_distinct(bs1),
        0 <= j < bs1.len(),
    ensures
        prios_distinct(bs1.remove(j)),
        forall|q: u64|
            order_of(bs1.remove(j), q) == if q == bs1[j].priority {
                Seq::<Seq<char>>::empty()
            } else {
                order_of(bs1, q)
            },
{
    let bs2 = bs1.remove(j);
    assert(bs2.len() == bs1.len() - 1);
    assert forall|t: int| 0 <= t < bs2.len() implies bs2[t] == (if t < j {
        bs1[t]
    } else {
        bs1[t + 1]
    }) by {}
    assert forall|i: int, t: int| 0 <= i < t < bs2.len() implies (#[trigger] bs2[i]).priority != (
    #[trigger] bs2[t]).priority by {
        let i1: int = if i < j {
            i
        } else {
            i + 1
        };
        let t1: int = if t < j {
            t
        } else {
            t + 1
        };
        assert(bs2[i] == bs1[i1] && bs2[t] == bs1[t1]);
        assert(bs1[i1].priority != bs1[t1].priority);
    }
    assert forall|q: u64|
        order_of(bs2, q) == (if q == bs1[j].priority {
            Seq::<Seq<char>>::empty()
        } else {
            order_of(bs1, q)
        }) by {
        if q == bs1[j].priority {
            if has_bucket(bs2, q) {
                let t = bidx_of(bs2, q);
                assert(0 <= t < bs2.len() && bs2[t].priority == q);
                let t1: int = if t < j {
                    t
                } else {
                    t + 1
                };
                assert(bs1[t1].priority == q);
                assert(t1 != j ==> bs1[t1].priority != bs1[j].priority);
            }
            assert(!has_bucket(bs2, q));
        } else {
            if has_bucket(bs1, q) {
                let t = bidx_of(bs1, q);
                assert(0 <= t < bs1.len() && bs1[t].priority == q);
                assert(t != j);
                let t2: int = if t < j {
                    t
                } else {
                    t - 1
                };
                assert(bs2[t2] == bs1[t]);
                assert(has_bucket(bs2, q));
                lemma_bidx(bs1, t);
                lemma_bidx(bs2, t2);
            } else {
                if has_bucket(bs2, q) {
                    let t = bidx_of(bs2, q);
                    let t1: int = if t < j {
                        t
                    } else {
                        t + 1
                    };
                    assert(bs2[t] == bs1[t1]);
                    assert(has_bucket(bs1, q));
                }
            }
        }
    }
}

/// Inserting a bucket of a new priority at `j` fills exactly that
/// priority's recency order.
pub(crate) proof fn lemma_order_insert(bs1: Seq<Bucket>, j: int, nb: Bucket)
    requires
        prios_distinct(bs1),
        0 <= j <= bs1.len(),
        !has_bucket(bs1, nb.priority),
    ensures
        prios_distinct(bs1.insert(j, nb)),
        forall|q: u64|
            order_of(bs1.insert(j, nb), q) == if q == nb.priority {
                lru_order(nb.keys)
            } else {
                order_of(bs1, q)
            },
{
    let bs2 = bs1.insert(j, nb);
    assert(bs2.len() == bs1.len() + 1);
    assert forall|t: int| 0 <= t < bs2.len() implies bs2[t] == (if t < j {
        bs1[t]
    } else if t == j {
        nb
    } else {
        bs1[t - 1]
    }) by {}
    assert forall|t: int| 0 <= t < bs1.len() implies (#[trigger] bs1[t]).priority
        != nb.priority by {
        if bs1[t].priority == nb.priority {
            assert(has_bucket(bs1, nb.priority));
        }
    }
    assert forall|i: int, t: int| 0 <= i < t < bs2.len() implies (#[trigger] bs2[i]).priority != (
    #[trigger] bs2[t]).priority by {
        if i == j {
            assert(bs2[t] == bs1[t - 1]);
        } else if t == j {
            assert(bs2[i] == bs1[i]);
        } else {
            let i1: int = if i < j {
                i
            } else {
                i - 1
            };
            let t1: int = if t < j {
                t
            } else {
                t - 1
            };
            assert(bs2[i] == bs1[i1] && bs2[t] == bs1[t1]);
            assert(bs1[i1].priority != bs1[t1].priority);
        }
    }
    assert forall|q: u64|
        order_of(bs2, q) == (if q == nb.priority {
            lru_order(nb.keys)
        } else {
            order_of(bs1, q)
        }) by {
        if q == nb.priority {
            lemma_bidx(bs2, j);
            assert(bs2[j] == nb);
        } else {
            if has_bucket(bs1, q) {
                let t = bidx_of(bs1, q);
                assert(0 <= t < bs1.len() && bs1[t].priority == q);
                let t2: int = if t < j {
                    t
                } else {
                    t + 1
                };
                assert(bs2[t2] == bs1[t]);
                assert(has_bucket(bs2, q));
                lemma_bidx(bs1, t);
                lemma_bidx(bs2, t2);
            } else {
                if has_bucket(bs2, q) {
                    let t = bidx_of(bs2, q);
                    assert(t != j);
                    let t1: int = if t < j {
                        t
                    } else {
                        t - 1
                    };
                    assert(bs2[t] == bs1[t1]);
                    assert(has_bucket(bs1, q));
                }
            }
        }
    }
}

/// The primary index has exactly one record per page.
pub(crate) proof fn lemma_recs_len(s: Seq<Page>)
    requires
        pages_ok(s),
    ensures
        recs_of(s).dom().finite(),
        recs_of(s).dom().len() == s.len(),
    decreases s.len(),
{
    if s.len() == 0 {
        assert(recs_of(s).dom() =~= Set::<Seq<char>>::empty());
    } else {
        let s0 = s.drop_last();
        let last = s.last();
        assert(pages_ok(s0)) by {
            assert forall|i: int, j: int| 0 <= i < j < s0.len() implies (#[trigger] s0[i]).key@
                != (#[trigger] s0[j]).key@ by {
                assert(s[i].key@ != s[j].key@);
            }
        }
        lemma_recs_len(s0);
        assert(!has_key(s0, last.key@)) by {
            if has_key(s0, last.key@) {
                let i = choose|i: int| 0 <= i < s0.len() && (#[trigger] s0[i]).key@ == last.key@;
                assert(s[i].key@ != s[s.len() - 1].key@);
            }
        }
        assert forall|k: Seq<char>| has_key(s, k) implies has_key(s0, k) || k == last.key@ by {
            let i = choose|i: int| 0 <= i < s.len() && (#[trigger] s[i]).key@ == k;
            if i < s.len() - 1 {
                assert(s0[i] == s[i]);
                assert(has_key(s0, k));
            }
        }
        assert forall|k: Seq<char>| has_key(s0, k) implies has_key(s, k) by {
            let i = choose|i: int| 0 <= i < s0.len() && (#[trigger] s0[i]).key@ == k;
            assert(s[i] == s0[i]);
        }
        assert(has_key(s, last.key@));
        assert(recs_of(s).dom() =~= recs_of(s0).dom().insert(last.key@));
    }
}

impl PECache {
    /// Internal consistency of the three views of the item set.
    pub closed spec fn inv(self) -> bool {
        &&& pages_ok(self.pages@)
        &&& buckets_ok(self.buckets@)
        &&& linked(self.pages@, self.buckets@)
    }

    /// Creates an empty cache: no items, no buckets.
    pub fn new() -> (c: PECache)
        ensures
            c.inv(),
            c@ == model_empty(),
    {
        let c = PECache { pages: Vec::new(), buckets: Vec::new() };
        proof {
            assert(c@.recs =~= model_empty().recs);
            assert(c@.order =~~= model_empty().order);
            assert(c@ =~~= model_empty());
        }
        c
    }

    /// The number of live items.
    pub fn len(&self) -> (n: usize)
        requires
            self.inv(),
        ensures
            n == self@.recs.dom().len(),
    {
        proof {
            lemma_recs_len(self.pages@);
        }
        self.pages.len()
    }

    /// Marks `key`, which lives in the bucket of priority `p`, as that
    /// bucket's most recently used key.
    fn bucket_touch(&mut self, p: u64, key: &String)
        requires
            buckets_ok(old(self).buckets@),
            order_of(old(self).buckets@, p).contains(key@),
        ensures
            final(self).pages@ == old(self).pages@,
            buckets_ok(final(self).buckets@),
            forall|q: u64|
                order_of(final(self).buckets@, q) == if q == p {
                    remove_key(order_of(old(self).buckets@, q), key@).push(key@)
                } else {
                    order_of(old(self).buckets@, q)
                },
    {
        proof {
            lemma_sorted_distinct(self.buckets@);
            assert(has_bucket(self.buckets@, p)) by {
                assert(order_of(self.buckets@, p).len() > 0);
            }
        }
        let j = match self.find_bucket(p) {
            Some(j) => j,
            None => unreached(),
        };
        let ghost bs1 = self.buckets@;
        proof {
            lemma_bidx(bs1, j as int);
        }
        let mut b = self.buckets.remove(j);
        lru_promote(&mut b.keys, key);
        self.buckets.insert(j, b);
        proof {
            let bs2 = self.buckets@;
            assert(bs2 =~= bs1.update(j as int, bs2[j as int]));
            lemma_order_update(bs1, bs2, j as int);
            lemma_remove_key(lru_order(bs1[j as int].keys), key@);
            lemma_push_nodup(remove_key(lru_order(bs1[j as int].keys), key@), key@);
            assert(buckets_ok(bs2)) by {
                assert forall|i: int, t: int| 0 <= i < t < bs2.len() implies (
                #[trigger] bs2[i]).priority < (#[trigger] bs2[t]).priority by {
                    if i != j && t != j {
                        assert(bs2[i] == bs1[i] && bs2[t] == bs1[t]);
                    } else {
                        assert(bs2[j as int].priority == bs1[j as int].priority);
                    }
                }
                assert forall|t: int| 0 <= t < bs2.len() implies lru_order(
                    (#[trigger] bs2[t]).keys,
                ).len() > 0 && lru_order(bs2[t].keys).no_duplicates() by {
                    if t != j {
                        assert(bs2[t] == bs1[t]);
                    }
                }
            }
        }
    }

    /// Takes `key` out of the bucket of priority `p`, and the bucket itself
    /// out when that leaves it empty.
    fn bucket_pop(&mut self, p: u64, key: &String)
        requires
            buckets_ok(old(self).buckets@),
            order_of(old(self).buckets@, p).contains(key@),
        ensures
            final(self).pages@ == old(self).pages@,
            buckets_ok(final(self).buckets@),
            forall|q: u64|
                order_of(final(self).buckets@, q) == if q == p {
                    remove_key(order_of(old(self).buckets@, q), key@)
                } else {
                    order_of(old(self).buckets@, q)
                },
    {
        proof {
            lemma_sorted_distinct(self.buckets@);
            assert(has_bucket(self.buckets@, p)) by {
                assert(order_of(self.buckets@, p).len() > 0);
            }
        }
        let j = match self.find_bucket(p) {
            Some(j) => j,
            None => unreached(),
        };
        let ghost bs1 = self.buckets@;
        proof {
            lemma_bidx(bs1, j as int);
            lemma_remove_key(lru_order(bs1[j as int].keys), key@);
        }
        let mut b = self.buckets.remove(j);
        let _ = lru_pop(&mut b.keys, key);
        let n = lru_len(&b.keys);
        if n > 0 {
            self.buckets.insert(j, b);
            proof {
                let bs2 = self.buckets@;
                assert(bs2 =~= bs1.update(j as int, bs2[j as int]));
                lemma_order_update(bs1, bs2, j as int);
                assert(buckets_ok(bs2)) by {
                    assert forall|i: int, t: int| 0 <= i < t < bs2.len() implies (
                    #[trigger] bs2[i]).priority < (#[trigger] bs2[t]).priority by {
                        if i != j && t != j {
                            assert(bs2[i] == bs1[i] && bs2[t] == bs1[t]);
                        } else {
                            assert(bs2[j as int].priority == bs1[j as int].priority);
                        }
                    }
                    assert forall|t: int| 0 <= t < bs2.len() implies lru_order(
                        (#[trigger] bs2[t]).keys,
                    ).len() > 0 && lru_order(bs2[t].keys).no_duplicates() by {
                        if t != j {
                            assert(bs2[t] == bs1[t]);
                        }
                    }
                }
            }
        } else {
            proof {
                lemma_order_remove(bs1, j as int);
                assert(remove_key(order_of(bs1, p), key@) =~= Seq::<Seq<char>>::empty());
                assert(buckets_ok(self.buckets@)) by {
                    let bs2 = self.buckets@;
                    assert forall|i: int, t: int| 0 <= i < t < bs2.len() implies (
                    #[trigger] bs2[i]).priority < (#[trigger] bs2[t]).priority by {
                        let i1: int = if i < j as int {
                            i
                        } else {
                            i + 1
                        };
                        let t1: int = if t < j as int {
                            t
                        } else {
                            t + 1
                        };
                        assert(bs2[i] == bs1[i1] && bs2[t] == bs1[t1]);
                    }
                    assert forall|t: int| 0 <= t < bs2.len() implies lru_order(
                        (#[trigger] bs2[t]).keys,
                    ).len() > 0 && lru_order(bs2[t].keys).no_duplicates() by {
                        let t1: int = if t < j as int {
                            t
                        } else {
                            t + 1
                        };
                        assert(bs2[t] == bs1[t1]);
                    }
                }
            }
        }
    }

    /// Makes `key`, presently in no bucket of priority `p`, the most
    /// recently used key of that bucket, creating the bucket when the class
    /// was empty.
    fn bucket_push(&mut self, p: u64, key: String)
        requires
            buckets_ok(old(self).buckets@),
            !order_of(old(self).buckets@, p).contains(key@),
            order_of(old(self).buckets@, p).len() < usize::MAX,
        ensures
            final(self).pages@ == old(self).pages@,
            buckets_ok(final(self).buckets@),
            forall|q: u64|
                order_of(final(self).buckets@, q) == if q == p {
                    order_of(old(self).buckets@, q).push(key@)
                } else {
                    order_of(old(self).buckets@, q)
                },
    {
        proof {
            lemma_sorted_distinct(self.buckets@);
        }
        match self.find_bucket(p) {
            Some(j) => {
                let ghost bs1 = self.buckets@;
                proof {
                    lemma_bidx(bs1, j as int);
                    lemma_remove_key(lru_order(bs1[j as int].keys), key@);
                    lemma_push_nodup(lru_order(bs1[j as int].keys), key@);
                }
                let mut b = self.buckets.remove(j);
                lru_push(&mut b.keys, key);
                self.buckets.insert(j, b);
                proof {
                    let bs2 = self.buckets@;
                    assert(bs2 =~= bs1.update(j as int, bs2[j as int]));
                    lemma_order_update(bs1, bs2, j as int);
                    assert(lru_order(bs2[j as int].keys) == lru_order(bs1[j as int].keys).push(
                        key@,
                    ));
                    assert(buckets_ok(bs2)) by {
                        assert forall|i: int, t: int| 0 <= i < t < bs2.len() implies (
                        #[trigger] bs2[i]).priority < (#[trigger] bs2[t]).priority by {
                            if i != j && t != j {
                                assert(bs2[i] == bs1[i] && bs2[t] == bs1[t]);
                            } else {
                                assert(bs2[j as int].priority == bs1[j as int].priority);
                            }
                        }
                        assert forall|t: int| 0 <= t < bs2.len() implies lru_order(
                            (#[trigger] bs2[t]).keys,
                        ).len() > 0 && lru_order(bs2[t].keys).no_duplicates() by {
                            if t != j {
                                assert(bs2[t] == bs1[t]);
                            }
                        }
                    }
                }
            },
            None => {
                let ghost k = key@;
                let mut nkeys = lru_new();
                lru_push(&mut nkeys, key);
                proof {
                    assert(remove_key(Seq::<Seq<char>>::empty(), k) =~= Seq::<Seq<char>>::empty());
                    assert(lru_order(nkeys) =~= Seq::<Seq<char>>::empty().push(k));
                }
                let nb = Bucket { priority: p, keys: nkeys };
                let n = self.buckets.len();
                let mut j: usize = 0;
                while j < n && self.buckets[j].priority < p
                    invariant
                        j <= n,
                        n == self.buckets@.len(),
                        self.buckets@ == old(self).buckets@,
                        self.pages@ == old(self).pages@,
                        forall|t: int| 0 <= t < j ==> (#[trigger] self.buckets@[t]).priority < p,
                    decreases n - j,
                {
                    j = j + 1;
                }
                let ghost bs1 = self.buckets@;
                proof {
                    if (j as int) < bs1.len() {
                        assert(bs1[j as int].priority != p) by {
                            if bs1[j as int].priority == p {
                                assert(has_bucket(bs1, p));
                            }
                        }
                        assert(bs1[j as int].priority > p);
                    }
                }
                self.buckets.insert(j, nb);
                proof {
                    lemma_order_insert(bs1, j as int, nb);
                    assert(order_of(bs1, p) =~= Seq::<Seq<char>>::empty());
                    assert(lru_order(nb.keys) == order_of(bs1, p).push(k));
                    assert(buckets_ok(self.buckets@)) by {
                        let bs2 = self.buckets@;
                        assert forall|i: int, t: int| 0 <= i < t < bs2.len() implies (
                        #[trigger] bs2[i]).priority < (#[trigger] bs2[t]).priority by {
                            if i == j as int {
                                assert(bs2[t] == bs1[t - 1]);
                                assert(t - 1 >= j as int);
                            } else if t == j as int {
                                assert(bs2[i] == bs1[i]);
                            } else {
                                let i1: int = if i < j as int {
                                    i
                                } else {
                                    i - 1
                                };
                                let t1: int = if t < j as int {
                                    t
                                } else {
                                    t - 1
                                };
                                assert(bs2[i] == bs1[i1] && bs2[t] == bs1[t1]);
                            }
                        }
                        assert forall|t: int| 0 <= t < bs2.len() implies lru_order(
                            (#[trigger] bs2[t]).keys,
                        ).len() > 0 && lru_order(bs2[t].keys).no_duplicates() by {
                            if t != j as int {
                                let t1: int = if t < j as int {
                                    t
                                } else {
                                    t - 1
                                };
                                assert(bs2[t] == bs1[t1]);
                            } else {
                                assert(bs2[t] == nb);
                                assert(lru_order(nb.keys).len() == 1);
                            }
                        }
                    }
                }
            },
        }
    }

    /// Removes the item at position `i` of the primary index from all three
    /// indexes.
    fn retract_at(&mut self, i: usize)
        requires
            old(self).inv(),
            i < old(self).pages@.len(),
        ensures
            final(self).inv(),
            final(self)@ == crate::model::model_remove(
                old(self)@,
                old(self).pages@[i as int].key@,
            ),
            old(self)@.recs.dom().len() == final(self)@.recs.dom().len() + 1,
    {
        let ghost s1 = self.pages@;
        let ghost bs1 = self.buckets@;
        let ghost m0 = self@;
        let ghost k = s1[i as int].key@;
        proof {
            lemma_idx(s1, i as int);
        }
        let pg = self.pages.remove(i);
        proof {
            assert(pg == s1[i as int]);
            assert(order_of(bs1, pg.priority).contains(k));
        }
        self.bucket_pop(pg.priority, &pg.key);
        proof {
            let s2 = self.pages@;
            let bs2 = self.buckets@;
            let p = pg.priority;
            assert(s2 == s1.remove(i as int));
            lemma_recs_remove(s1, i as int);
            assert forall|q: u64| order_of(bs2, q) == remove_key(order_of(bs1, q), k) by {
                lemma_order_nodup(bs1, q);
                if q != p {
                    assert(!order_of(bs1, q).contains(k)) by {
                        if order_of(bs1, q).contains(k) {
                            let t = choose|t: int|
                                0 <= t < order_of(bs1, q).len() && order_of(bs1, q)[t] == k;
                            assert(s1[idx_of(s1, order_of(bs1, q)[t])].priority == q);
                        }
                    }
                    lemma_remove_key(order_of(bs1, q), k);
                }
            }
            assert(self@.recs =~= crate::model::model_remove(m0, k).recs);
            assert(self@.order =~~= crate::model::model_remove(m0, k).order);
            assert(self@ =~~= crate::model::model_remove(m0, k));
            assert forall|q: u64, t: int| 0 <= t < order_of(bs2, q).len() implies has_key(
                s2,
                #[trigger] order_of(bs2, q)[t],
            ) && s2[idx_of(s2, order_of(bs2, q)[t])].priority == q by {
                let y = order_of(bs2, q)[t];
                lemma_order_nodup(bs1, q);
                lemma_remove_key(order_of(bs1, q), k);
                assert(order_of(bs2, q).contains(y));
                assert(y != k);
                assert(order_of(bs1, q).contains(y));
                let t0 = choose|t0: int|
                    0 <= t0 < order_of(bs1, q).len() && order_of(bs1, q)[t0] == y;
                assert(has_key(s1, order_of(bs1, q)[t0]) && s1[idx_of(
                    s1,
                    order_of(bs1, q)[t0],
                )].priority == q);
                let i1 = idx_of(s1, y);
                assert(0 <= i1 < s1.len() && s1[i1].key@ == y);
                assert(i1 != i as int);
                let i2: int = if i1 < i as int {
                    i1
                } else {
                    i1 - 1
                };
                assert(s2[i2] == s1[i1]);
                assert(has_key(s2, y));
                lemma_idx(s2, i2);
            }
            assert forall|t: int| 0 <= t < s2.len() implies order_of(
                bs2,
                (#[trigger] s2[t]).priority,
            ).contains(s2[t].key@) by {
                let t1: int = if t < i as int {
                    t
                } else {
                    t + 1
                };
                assert(s2[t] == s1[t1]);
                let q = s1[t1].priority;
                assert(order_of(bs1, q).contains(s1[t1].key@));
                lemma_order_nodup(bs1, q);
                lemma_remove_key(order_of(bs1, q), k);
                assert(s1[t1].key@ != k);
            }
            assert(self.inv());
            lemma_recs_len(s1);
            lemma_recs_len(s2);
        }
    }

    /// Installs an item under a key that is not yet live.
    fn insert_fresh(&mut self, key: String, value: String, expiry: u64, priority: u64)
        requires
            old(self).inv(),
            !has_key(old(self).pages@, key@),
            old(self).pages@.len() < usize::MAX,
        ensures
            final(self).inv(),
            final(self)@ == crate::model::model_set(
                old(self)@,
                key@,
                value@,
                expiry,
                priority,
            ),
    {
        let ghost s1 = self.pages@;
        let ghost bs1 = self.buckets@;
        let ghost m0 = self@;
        let ghost k = key@;
        let ghost v = value@;
        let pg_key = key.clone();
        let pg = Page { key: pg_key, value, expiry, priority };
        proof {
            assert(pg.key@ == k);
        }
        self.pages.push(pg);
        proof {
            lemma_recs_push(s1, pg);
            assert(!order_of(bs1, priority).contains(k)) by {
                if order_of(bs1, priority).contains(k) {
                    let t = choose|t: int|
                        0 <= t < order_of(bs1, priority).len() && order_of(bs1, priority)[t] == k;
                    assert(has_key(s1, order_of(bs1, priority)[t]));
                }
            }
            assert(order_of(bs1, priority).len() < usize::MAX) by {
                lemma_order_nodup(bs1, priority);
                let o = order_of(bs1, priority);
                o.unique_seq_to_set();
                assert forall|y: Seq<char>| o.to_set().contains(y) implies recs_of(
                    s1,
                ).dom().contains(y) by {
                    assert(o.contains(y));
                    let t = choose|t: int| 0 <= t < o.len() && o[t] == y;
                    assert(has_key(s1, o[t]));
                }
                lemma_recs_len(s1);
                vstd::set_lib::lemma_len_subset(o.to_set(), recs_of(s1).dom());
            }
        }
        self.bucket_push(priority, key);
        proof {
            let s2 = self.pages@;
            let bs2 = self.buckets@;
            let m1 = crate::model::model_set(m0, k, v, expiry, priority);
            assert(s2 == s1.push(pg));
            assert(self@.recs =~= m1.recs);
            assert forall|q: u64| order_of(bs2, q) == m1.order[q] by {
                lemma_order_nodup(bs1, q);
                assert(!order_of(bs1, q).contains(k)) by {
                    if order_of(bs1, q).contains(k) {
                        let t = choose|t: int|
                            0 <= t < order_of(bs1, q).len() && order_of(bs1, q)[t] == k;
                        assert(has_key(s1, order_of(bs1, q)[t]));
                    }
                }
                lemma_remove_key(order_of(bs1, q), k);
            }
            assert(self@.order =~~= m1.order);
            assert(self@ =~~= m1);
            assert forall|q: u64, t: int| 0 <= t < order_of(bs2, q).len() implies has_key(
                s2,
                #[trigger] order_of(bs2, q)[t],
            ) && s2[idx_of(s2, order_of(bs2, q)[t])].priority == q by {
                let y = order_of(bs2, q)[t];
                if q == priority && t == order_of(bs1, q).len() {
                    assert(y == k);
                    assert(s2[s1.len() as int] == pg);
                    lemma_idx(s2, s1.len() as int);
                } else {
                    assert(y == order_of(bs1, q)[t]);
                    assert(has_key(s1, order_of(bs1, q)[t]) && s1[idx_of(
                        s1,
                        order_of(bs1, q)[t],
                    )].priority == q);
                    let i1 = idx_of(s1, y);
                    assert(0 <= i1 < s1.len() && s1[i1].key@ == y);
                    assert(s2[i1] == s1[i1]);
                    lemma_idx(s2, i1);
                }
            }
            assert forall|t: int| 0 <= t < s2.len() implies order_of(
                bs2,
                (#[trigger] s2[t]).priority,
            ).contains(s2[t].key@) by {
                if t < s1.len() {
                    assert(s2[t] == s1[t]);
                    let q = s1[t].priority;
                    assert(order_of(bs1, q).contains(s1[t].key@));
                    crate::model::lemma_push_contains(order_of(bs1, q), k);
                    if q == priority {
                        assert(order_of(bs2, q) == order_of(bs1, q).push(k));
                    }
                } else {
                    assert(s2[t] == pg);
                    crate::model::lemma_push_contains(order_of(bs1, priority), k);
                    assert(order_of(bs2, priority).contains(k));
                }
            }
            assert(self.inv());
        }
    }

    /// The position of `key` in the primary index, if it is live.
    fn find_page(&self, key: &String) -> (r: Option<usize>)
        ensures
            match r {
                Some(i) => i < self.pages@.len() && self.pages@[i as int].key@ == key@,
                None => !has_key(self.pages@, key@),
            },
    {
        let n = self.pages.len();
        let mut i: usize = 0;
        while i < n
            invariant
                i <= n,
                n == self.pages@.len(),
                forall|t: int| 0 <= t < i ==> (#[trigger] self.pages@[t]).key@ != key@,
            decreases n - i,
        {
            if self.pages[i].key == *key {
                return Some(i);
            }
            i = i + 1;
        }
        None
    }

    /// The position of the bucket of priority `p`, if one exists.
    fn find_bucket(&self, p: u64) -> (r: Option<usize>)
        ensures
            match r {
                Some(j) => j < self.buckets@.len() && self.buckets@[j as int].priority == p,
                None => !has_bucket(self.buckets@, p),
            },
    {
        let n = self.buckets.len();
        let mut j: usize = 0;
        while j < n
            invariant
                j <= n,
                n == self.buckets@.len(),
                forall|t: int| 0 <= t < j ==> (#[trigger] self.buckets@[t]).priority != p,
            decreases n - j,
        {
            if self.buckets[j].priority == p {
                return Some(j);
            }
            j = j + 1;
        }
        None
    }
}

/// Whether `a` strictly precedes `b` in the eviction order of the expiry
/// index: earlier expiry first, ties broken by the lexicographic order of
/// the keys.
pub(crate) open spec fn page_before(a: Page, b: Page) -> bool {
    a.expiry < b.expiry || (a.expiry == b.expiry && lex_lt(a.key@, b.key@))
}

pub(crate) proof fn lemma_page_before_trans(a: Page, b: Page, c: Page)
    requires
        page_before(a, b),
        page_before(b, c),
    ensures
        page_before(a, c),
{
    if a.expiry == b.expiry && b.expiry == c.expiry {
        lemma_lex_trans(a.key@, b.key@, c.key@);
    }
}

impl PECache {
    /// A cache that satisfies its internal invariant has a coherent model.
    pub proof fn lemma_inv_coherent(self)
        requires
            self.inv(),
        ensures
            coherent(self@),
    {
        let s = self.pages@;
        let bs = self.buckets@;
        lemma_recs_len(s);
        assert forall|p: u64, k: Seq<char>| #[trigger] self@.order[p].contains(k) implies self
            @.recs.dom().contains(k) && self@.recs[k].priority == p by {
            assert(order_of(bs, p).contains(k));
            let t = choose|t: int| 0 <= t < order_of(bs, p).len() && order_of(bs, p)[t] == k;
            assert(has_key(s, order_of(bs, p)[t]) && s[idx_of(s, order_of(bs, p)[t])].priority
                == p);
        }
        assert forall|p: u64, k: Seq<char>|
            self@.recs.dom().contains(k) && self@.recs[k].priority == p implies #[trigger] self
            @.order[p].contains(k) by {
            assert(has_key(s, k));
            let i = idx_of(s, k);
            assert(0 <= i < s.len() && s[i].key@ == k);
            assert(order_of(bs, s[i].priority).contains(s[i].key@));
        }
        assert forall|p: u64| (#[trigger] self@.order[p]).no_duplicates() by {
            lemma_order_nodup(bs, p);
        }
    }

    /// Inserts an item, or replaces the whole item when the key is already
    /// live: the prior expiry entry and bucket membership are retracted
    /// before the new ones are installed. The key becomes the most recently
    /// used of its new priority class. The item count must stay below the
    /// machine bound `usize::MAX`.
    pub fn set(&mut self, key: String, value: String, expiry: u64, priority: u64)
        requires
            old(self).inv(),
            old(self)@.recs.dom().len() < usize::MAX,
        ensures
            final(self).inv(),
            final(self)@ == model_set(old(self)@, key@, value@, expiry, priority),
    {
        let ghost m0 = self@;
        let ghost k = key@;
        let ghost v = value@;
        let ghost s1 = self.pages@;
        let ghost bs1 = self.buckets@;
        proof {
            lemma_recs_len(s1);
        }
        match self.find_page(&key) {
            Some(i) => {
                proof {
                    lemma_idx(s1, i as int);
                }
                self.retract_at(i);
                proof {
                    assert(self@ == model_remove(m0, k));
                    assert(!self@.recs.dom().contains(k));
                    assert(!has_key(self.pages@, k));
                    lemma_recs_len(self.pages@);
                }
                self.insert_fresh(key, value, expiry, priority);
                proof {
                    let mr = model_remove(m0, k);
                    assert(model_set(mr, k, v, expiry, priority).recs =~= model_set(
                        m0,
                        k,
                        v,
                        expiry,
                        priority,
                    ).recs);
                    assert forall|q: u64|
                        model_set(mr, k, v, expiry, priority).order[q] == model_set(
                            m0,
                            k,
                            v,
                            expiry,
                            priority,
                        ).order[q] by {
                        lemma_order_nodup(bs1, q);
                        assert(m0.order[q] == order_of(bs1, q));
                        lemma_remove_key(m0.order[q], k);
                        lemma_remove_key(remove_key(m0.order[q], k), k);
                    }
                    assert(model_set(mr, k, v, expiry, priority).order =~~= model_set(
                        m0,
                        k,
                        v,
                        expiry,
                        priority,
                    ).order);
                    assert(self@ =~~= model_set(m0, k, v, expiry, priority));
                }
            },
            None => {
                proof {
                    assert(!has_key(self.pages@, k));
                    lemma_recs_len(s1);
                }
                self.insert_fresh(key, value, expiry, priority);
            },
        }
    }

    /// Returns the stored value of a live key, marking it as the most
    /// recently used of its priority class; absence is answered with `None`
    /// and leaves the cache untouched.
    pub fn get(&mut self, key: String) -> (r: Option<String>)
        requires
            old(self).inv(),
        ensures
            final(self).inv(),
            match r {
                Some(v) => old(self)@.recs.dom().contains(key@) && v@ == old(
                    self,
                )@.recs[key@].value && final(self)@ == model_touch(old(self)@, key@),
                None => !old(self)@.recs.dom().contains(key@) && final(self)@ == old(self)@,
            },
    {
        let ghost m0 = self@;
        let ghost k = key@;
        let ghost s1 = self.pages@;
        let ghost bs1 = self.buckets@;
        match self.find_page(&key) {
            Some(i) => {
                proof {
                    lemma_idx(s1, i as int);
                    assert(order_of(bs1, s1[i as int].priority).contains(k));
                }
                let p = self.pages[i].priority;
                let v = self.pages[i].value.clone();
                self.bucket_touch(p, &key);
                proof {
                    let bs2 = self.buckets@;
                    let m1 = model_touch(m0, k);
                    assert(m0.recs[k].priority == p);
                    assert(self@.recs =~= m1.recs);
                    assert forall|q: u64| order_of(bs2, q) == m1.order[q] by {
                        assert(m0.order[q] == order_of(bs1, q));
                    }
                    assert(self@.order =~~= m1.order);
                    assert(self@ =~~= m1);
                    assert forall|q: u64, t: int| 0 <= t < order_of(bs2, q).len() implies has_key(
                        s1,
                        #[trigger] order_of(bs2, q)[t],
                    ) && s1[idx_of(s1, order_of(bs2, q)[t])].priority == q by {
                        let y = order_of(bs2, q)[t];
                        assert(order_of(bs2, q).contains(y));
                        lemma_order_nodup(bs1, q);
                        lemma_remove_key(order_of(bs1, q), k);
                        if q == p {
                            lemma_push_contains(remove_key(order_of(bs1, q), k), k);
                            if y == k {
                                assert(s1[i as int].key@ == k);
                                lemma_idx(s1, i as int);
                            } else {
                                assert(remove_key(order_of(bs1, q), k).contains(y));
                                assert(order_of(bs1, q).contains(y));
                                let t0 = choose|t0: int|
                                    0 <= t0 < order_of(bs1, q).len() && order_of(bs1, q)[t0] == y;
                                assert(has_key(s1, order_of(bs1, q)[t0]) && s1[idx_of(
                                    s1,
                                    order_of(bs1, q)[t0],
                                )].priority == q);
                            }
                        } else {
                            let t0 = choose|t0: int|
                                0 <= t0 < order_of(bs1, q).len() && order_of(bs1, q)[t0] == y;
                            assert(has_key(s1, order_of(bs1, q)[t0]) && s1[idx_of(
                                s1,
                                order_of(bs1, q)[t0],
                            )].priority == q);
                        }
                    }
                    assert forall|t: int| 0 <= t < s1.len() implies order_of(
                        bs2,
                        (#[trigger] s1[t]).priority,
                    ).contains(s1[t].key@) by {
                        let q = s1[t].priority;
                        let y = s1[t].key@;
                        assert(order_of(bs1, q).contains(y));
                        if q == p {
                            lemma_order_nodup(bs1, q);
                            lemma_remove_key(order_of(bs1, q), k);
                            lemma_push_contains(remove_key(order_of(bs1, q), k), k);
                        }
                    }
                    assert(self.inv());
                }
                Some(v)
            },
            None => { None },
        }
    }

    /// Removes one item, when any exists: a due item of globally minimal
    /// expiry when one is due against `barrier` (ties towards the
    /// lexicographically least key), otherwise the least recently used item
    /// of the lowest live priority class. On an empty cache this is a
    /// no-op.
    pub fn evict(&mut self, barrier: u64)
        requires
            old(self).inv(),
        ensures
            final(self).inv(),
            old(self)@.recs.dom().len() == 0 ==> final(self)@ == old(self)@,
            old(self)@.recs.dom().len() > 0 ==> exists|k: Seq<char>|
                #[trigger] is_evict_target(old(self)@, barrier, k) && final(self)@ == model_remove(
                    old(self)@,
                    k,
                ),
            old(self)@.recs.dom().len() > 0 ==> old(self)@.recs.dom().len() == final(self)
                @.recs.dom().len() + 1,
    {
        let ghost m0 = self@;
        let ghost s1 = self.pages@;
        let ghost bs1 = self.buckets@;
        proof {
            lemma_recs_len(s1);
        }
        let n = self.pages.len();
        if n == 0 {
            return ;
        }
        let mut best: usize = 0;
        let mut i: usize = 1;
        proof {
            crate::model::lemma_lex_irrefl(s1[0].key@);
        }
        while i < n
            invariant
                self.pages@ == s1,
                self.buckets@ == bs1,
                n == s1.len(),
                0 < i <= n,
                best < i,
                forall|t: int| 0 <= t < i ==> !page_before(#[trigger] s1[t], s1[best as int]),
            decreases n - i,
        {
            let better = self.pages[i].expiry < self.pages[best].expiry || (self.pages[i].expiry
                == self.pages[best].expiry && str_lt(&self.pages[i].key, &self.pages[best].key));
            proof {
                if better {
                    assert(page_before(s1[i as int], s1[best as int]));
                    assert forall|t: int| 0 <= t < i + 1 implies !page_before(
                        #[trigger] s1[t],
                        s1[i as int],
                    ) by {
                        crate::model::lemma_lex_irrefl(s1[i as int].key@);
                        if t < i && page_before(s1[t], s1[i as int]) {
                            lemma_page_before_trans(s1[t], s1[i as int], s1[best as int]);
                        }
                    }
                } else {
                    assert(!page_before(s1[i as int], s1[best as int]));
                }
            }
            if better {
                best = i;
            }
            i = i + 1;
        }
        let ghost bp = s1[best as int];
        proof {
            lemma_idx(s1, best as int);
        }
        if self.pages[best].expiry <= barrier {
            let ghost k = bp.key@;
            proof {
                assert(m0.recs.dom().contains(k) && m0.recs[k].expiry <= barrier);
                assert(crate::model::due_exists(m0, barrier));
                assert forall|k2: Seq<char>| #[trigger] m0.recs.dom().contains(k2) implies
                    m0.recs[k].expiry <= m0.recs[k2].expiry by {
                    assert(has_key(s1, k2));
                    let i2 = idx_of(s1, k2);
                    assert(0 <= i2 < s1.len() && s1[i2].key@ == k2);
                    assert(!page_before(s1[i2], bp));
                }
                assert forall|k2: Seq<char>|
                    #[trigger] m0.recs.dom().contains(k2) && m0.recs[k2].expiry == m0.recs[k].expiry
                        && k2 != k implies lex_lt(k, k2) by {
                    assert(has_key(s1, k2));
                    let i2 = idx_of(s1, k2);
                    assert(0 <= i2 < s1.len() && s1[i2].key@ == k2);
                    assert(!page_before(s1[i2], bp));
                    assert(!lex_lt(k2, k));
                    if !lex_lt(k, k2) {
                        lemma_lex_total(k, k2);
                    }
                }
                assert(is_evict_target(m0, barrier, k));
            }
            self.retract_at(best);
            proof {
                assert(self@ == model_remove(m0, k));
            }
        } else {
            proof {
                assert(!crate::model::due_exists(m0, barrier)) by {
                    if crate::model::due_exists(m0, barrier) {
                        let kd = choose|kd: Seq<char>|
                            #[trigger] m0.recs.dom().contains(kd) && m0.recs[kd].expiry <= barrier;
                        assert(has_key(s1, kd));
                        let i2 = idx_of(s1, kd);
                        assert(0 <= i2 < s1.len() && s1[i2].key@ == kd);
                        assert(!page_before(s1[i2], bp));
                    }
                }
                assert(order_of(bs1, s1[0].priority).contains(s1[0].key@));
                assert(order_of(bs1, s1[0].priority).len() > 0);
                assert(has_bucket(bs1, s1[0].priority));
                let jw = bidx_of(bs1, s1[0].priority);
                assert(0 <= jw < bs1.len());
                lemma_sorted_distinct(bs1);
                lemma_bidx(bs1, 0);
            }
            let k0 = match lru_peek(&self.buckets[0].keys) {
                Some(k0) => k0,
                None => unreached(),
            };
            let ghost p0 = bs1[0].priority;
            let ghost k = k0@;
            proof {
                assert(order_of(bs1, p0) == lru_order(bs1[0].keys));
                assert(k == order_of(bs1, p0)[0]);
                assert(order_of(bs1, p0).contains(k));
                assert(has_key(s1, k) && s1[idx_of(s1, k)].priority == p0);
                assert(m0.recs.dom().contains(k) && m0.recs[k].priority == p0);
                assert forall|k2: Seq<char>| #[trigger] m0.recs.dom().contains(k2) implies
                    m0.recs[k].priority <= m0.recs[k2].priority by {
                    assert(has_key(s1, k2));
                    let i2 = idx_of(s1, k2);
                    assert(0 <= i2 < s1.len() && s1[i2].key@ == k2);
                    assert(order_of(bs1, s1[i2].priority).contains(s1[i2].key@));
                    assert(order_of(bs1, s1[i2].priority).len() > 0);
                    assert(has_bucket(bs1, s1[i2].priority));
                    let j2 = bidx_of(bs1, s1[i2].priority);
                    assert(0 <= j2 < bs1.len() && bs1[j2].priority == s1[i2].priority);
                    if 0 < j2 {
                        assert(bs1[0].priority < bs1[j2].priority);
                    }
                }
                assert(m0.order[p0] == order_of(bs1, p0));
                assert(is_evict_target(m0, barrier, k));
            }
            let i0 = match self.find_page(&k0) {
                Some(i0) => i0,
                None => unreached(),
            };
            self.retract_at(i0);
            proof {
                assert(self@ == model_remove(m0, k));
            }
        }
    }
}

/// Lexicographic comparison of two keys, by code point.
pub(crate) fn str_lt(a: &String, b: &String) -> (r: bool)
    ensures
        r == lex_lt(a@, b@),
{
    let alen = a.as_str().unicode_len();
    let blen = b.as_str().unicode_len();
    let mut i: usize = 0;
    proof {
        assert(a@.skip(0) =~= a@);
        assert(b@.skip(0) =~= b@);
    }
    while i < alen && i < blen
        invariant
            i <= alen,
            i <= blen,
            alen == a@.len(),
            blen == b@.len(),
            lex_lt(a@, b@) == lex_lt(a@.skip(i as int), b@.skip(i as int)),
        decreases alen - i,
    {
        let ca = a.as_str().get_char(i);
        let cb = b.as_str().get_char(i);
        if (ca as u32) < (cb as u32) {
            return true;
        }
        if (cb as u32) < (ca as u32) {
            return false;
        }
        proof {
            assert(a@.skip(i as int).skip(1) =~= a@.skip(i as int + 1));
            assert(b@.skip(i as int).skip(1) =~= b@.skip(i as int + 1));
        }
        i = i + 1;
    }
    alen < blen
}

} // verus!
