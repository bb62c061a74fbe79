//! The per-priority recency structure. Each priority class keeps its keys in
//! an `lru::LruCache`, used purely as a recency-ordered set: values are a
//! placeholder `bool`. The cache is modelled by `lru_order`, the sequence of
//! key views from least recently used to most recently used; every wrapper
//! below states over that sequence what the crate's code does.
use vstd::prelude::*;

verus! {

/// Declares `lru::LruCache` so that it can stand in fields and signatures.
#[verifier::external_type_specification]
#[verifier::external_body]
#[verifier::reject_recursive_types(K)]
#[verifier::reject_recursive_types(V)]
#[verifier::reject_recursive_types(S)]
pub struct ExLruCache<K, V, S>(lru::LruCache<K, V, S>);

/// The keys held by an `lru::LruCache`, least recently used first, most
/// recently used last. The structure is a hashed map over a use-ordered
/// doubly linked list, so each key occurs at most once.
pub uninterp spec fn lru_order(c: lru::LruCache<String, bool>) -> Seq<Seq<char>>;

/// Relies on `lru::LruCache::unbounded`: a cache with no entries, whose
/// capacity is `usize::MAX` so that nothing is displaced below that many
/// entries.
#[verifier::external_body]
pub(crate) fn lru_new() -> (c: lru::LruCache<String, bool>)
    ensures
        lru_order(c) == Seq::<Seq<char>>::empty(),
{
    lru::LruCache::unbounded()
}

/// Relies on `lru::LruCache::len`: the number of entries, one per key.
#[verifier::external_body]
pub(crate) fn lru_len(c: &lru::LruCache<String, bool>) -> (n: usize)
    ensures
        n == lru_order(*c).len(),
{
    c.len()
}

/// Relies on `lru::LruCache::push`: a present key is moved to the most
/// recently used end, an absent one is appended there. At `usize::MAX`
/// entries a push of an absent key would displace the least recently used
/// one, so that case is excluded.
#[verifier::external_body]
pub(crate) fn lru_push(c: &mut lru::LruCache<String, bool>, k: String)
    requires
        lru_order(*old(c)).contains(k@) || lru_order(*old(c)).len() < usize::MAX,
    ensures
        lru_order(*final(c)) == crate::model::remove_key(lru_order(*old(c)), k@).push(k@),
{
    c.push(k, true);
}

/// Relies on `lru::LruCache::promote`: a present key is moved to the most
/// recently used end, an absent one leaves the cache unchanged.
#[verifier::external_body]
pub(crate) fn lru_promote(c: &mut lru::LruCache<String, bool>, k: &String)
    ensures
        lru_order(*final(c)) == if lru_order(*old(c)).contains(k@) {
            crate::model::remove_key(lru_order(*old(c)), k@).push(k@)
        } else {
            lru_order(*old(c))
        },
{
    c.promote(k);
}

/// Relies on `lru::LruCache::pop`: the entry of the key is removed if
/// present, and the stored value comes back exactly then.
#[verifier::external_body]
pub(crate) fn lru_pop(c: &mut lru::LruCache<String, bool>, k: &String) -> (r: Option<bool>)
    ensures
        lru_order(*final(c)) == crate::model::remove_key(lru_order(*old(c)), k@),
        r is Some <==> lru_order(*old(c)).contains(k@),
{
    c.pop(k)
}

/// Relies on `lru::LruCache::peek_lru`: the least recently used entry when
/// one exists, without reordering anything.
#[verifier::external_body]
pub(crate) fn lru_peek(c: &lru::LruCache<String, bool>) -> (r: Option<String>)
    ensures
        match r {
            Some(k) => lru_order(*c).len() > 0 && k@ == lru_order(*c)[0],
            None => lru_order(*c).len() == 0,
        },
{
    match c.peek_lru() {
        Some((k, _)) => Some(k.clone()),
        None => None,
    }
}

} // verus!
