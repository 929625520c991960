//! The lookup cache: a bounded least-recently-used memo from a resolved
//! request key — canonical host key, lower-cased method, normalized path
//! — to the matched (template, service) pair. The cache itself is the
//! `lru` crate's `LruCache`; its behaviour is stated here, over a name
//! for its contents, and everything above it is verified against those
//! statements.
//!
//! The contents are modelled as a sequence of key/value pairs ordered
//! from most to least recently used.

use vstd::prelude::*;
use std::num::NonZeroUsize;
use std::rc::Rc;

verus! {

#[verifier::external_type_specification]
#[verifier::external_body]
#[verifier::reject_recursive_types(K)]
#[verifier::reject_recursive_types(V)]
#[verifier::reject_recursive_types(S)]
pub struct ExLruCache<K, V, S>(lru::LruCache<K, V, S>);

/// A cache key: (canonical host key, lower-cased method, normalized
/// path).
pub type CacheKey = (Option<String>, String, String);

/// A cached result: the matched (template, service) pair.
pub type CacheVal = (String, Rc<String>);

/// The mathematical content of a cache key.
pub open spec fn key_view(k: CacheKey) -> (Option<Seq<char>>, Seq<char>, Seq<char>) {
    (
        match k.0 {
            Some(h) => Some(h@),
            None => None,
        },
        k.1@,
        k.2@,
    )
}

/// The mathematical content of a cached value.
pub open spec fn val_view(v: CacheVal) -> (Seq<char>, Seq<char>) {
    (v.0@, v.1@)
}

/// The entries of the cache, most recently used first.
pub uninterp spec fn lru_contents(c: lru::LruCache<CacheKey, CacheVal>) -> Seq<
    ((Option<Seq<char>>, Seq<char>, Seq<char>), (Seq<char>, Seq<char>)),
>;

/// The capacity the cache was created with.
pub uninterp spec fn lru_cap(c: lru::LruCache<CacheKey, CacheVal>) -> nat;

/// Relies on `lru::LruCache::new`: a fresh cache with the given capacity
/// holds nothing.
#[verifier::external_body]
pub(crate) fn lru_new(cap: usize) -> (c: lru::LruCache<CacheKey, CacheVal>)
    requires
        cap >= 1,
    ensures
        lru_contents(c) =~= Seq::empty(),
        lru_cap(c) == cap as nat,
{
    lru::LruCache::new(NonZeroUsize::new(cap).unwrap())
}

/// Relies on `lru::LruCache::get`: a hit hands back that entry's value
/// and moves the entry to the front (most recently used); a miss changes
/// nothing. Keys compare by content.
#[verifier::external_body]
pub(crate) fn lru_get(c: &mut lru::LruCache<CacheKey, CacheVal>, k: &CacheKey) -> (r: Option<
    CacheVal,
>)
    ensures
        lru_cap(*final(c)) == lru_cap(*old(c)),
        match r {
            Some(v) => (exists|i: int|
                0 <= i < lru_contents(*old(c)).len() && #[trigger] lru_contents(*old(c))[i].0
                    == key_view(*k) && lru_contents(*old(c))[i].1 == val_view(v) && lru_contents(
                    *final(c),
                ) == seq![lru_contents(*old(c))[i]] + lru_contents(*old(c)).remove(i)),
            None => lru_contents(*final(c)) == lru_contents(*old(c)) && (forall|i: int|
                0 <= i < lru_contents(*old(c)).len() ==> #[trigger] lru_contents(*old(c))[i].0
                    != key_view(*k)),
        },
{
    c.get(k).map(|v| (v.0.clone(), Rc::clone(&v.1)))
}

/// Relies on `lru::LruCache::put`: the pair becomes the most recent
/// entry; an entry with the same key is replaced in place of promotion;
/// past capacity the least recently used entry leaves. Keys compare by
/// content.
#[verifier::external_body]
pub(crate) fn lru_put(c: &mut lru::LruCache<CacheKey, CacheVal>, k: CacheKey, v: CacheVal)
    ensures
        lru_cap(*final(c)) == lru_cap(*old(c)),
        ({
            let oldc = lru_contents(*old(c));
            let kept = if exists|i: int| 0 <= i < oldc.len() && #[trigger] oldc[i].0 == key_view(k) {
                oldc.remove(choose|i: int| 0 <= i < oldc.len() && #[trigger] oldc[i].0 == key_view(k))
            } else if oldc.len() < lru_cap(*old(c)) {
                oldc
            } else {
                oldc.drop_last()
            };
            lru_contents(*final(c)) == seq![(key_view(k), val_view(v))] + kept
        }),
{
    c.put(k, v);
}

/// Relies on `lru::LruCache::len`: the number of stored entries.
#[verifier::external_body]
pub(crate) fn lru_len(c: &lru::LruCache<CacheKey, CacheVal>) -> (r: usize)
    ensures
        r == lru_contents(*c).len(),
{
    c.len()
}

/// Relies on `lru::LruCache::contains`: whether an entry with this key
/// is stored. Keys compare by content.
#[verifier::external_body]
pub(crate) fn lru_contains(c: &lru::LruCache<CacheKey, CacheVal>, k: &CacheKey) -> (r: bool)
    ensures
        r == (exists|i: int|
            0 <= i < lru_contents(*c).len() && #[trigger] lru_contents(*c)[i].0 == key_view(*k)),
{
    c.contains(k)
}

/// Relies on `lru::LruCache::cap`: the capacity the cache was created
/// with.
#[verifier::external_body]
pub(crate) fn lru_capacity(c: &lru::LruCache<CacheKey, CacheVal>) -> (r: usize)
    ensures
        r as nat == lru_cap(*c),
{
    c.cap().get()
}

} // verus!
