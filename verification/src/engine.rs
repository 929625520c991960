//! The routing engine: the currently active `RouterSet`, the two
//! behaviour flags, and the optional lookup cache, replaced together and
//! atomically by each successful configuration. Every cache entry is
//! provably consistent with the active `RouterSet`: a hit returns
//! exactly what a fresh descent would.

use vstd::prelude::*;
use vstd::string::*;
use std::rc::Rc;
use crate::cache::{
    key_view, lru_cap, lru_capacity, lru_contains, lru_contents, lru_get, lru_len, lru_new,
    lru_put, val_view, CacheKey, CacheVal,
};
use crate::compile::{compile, spec_cache_size, spec_compile, spec_preserve, spec_use_host};
use crate::config::{ConfigError, RawConfig};
use crate::host::host_key;
use crate::normalize::normalize_path;
use crate::router::{opt_str_view, spec_match_canon, spec_match_route, RouterSet, SetV};
use crate::table::{rc_clone, EntryV};
use crate::text::lower_str_owned;

verus! {

/// One cache entry is consistent with a router set when matching its
/// (canonical) key against the set yields exactly its value.
pub open spec fn cache_entry_ok(
    sv: SetV,
    en: ((Option<Seq<char>>, Seq<char>, Seq<char>), (Seq<char>, Seq<char>)),
) -> bool {
    match spec_match_canon(sv, en.0.0, en.0.1, en.0.2) {
        Some(e) => en.1 == (e.template, e.service),
        None => false,
    }
}

/// The canonical cache key of a request: the lower-cased, port-stripped
/// host key, the lower-cased method, and the normalized path.
pub open spec fn request_key(
    host: Option<Seq<char>>,
    method: Seq<char>,
    path: Seq<char>,
) -> (Option<Seq<char>>, Seq<char>, Seq<char>) {
    (
        match host {
            Some(h) => Some(crate::host::spec_host_key(h)),
            None => None,
        },
        crate::text::lower_chars(method),
        crate::normalize::spec_normalize(path),
    )
}

/// A cache hit: the entry with this key, holding this value, moved to
/// the front (most recently used); nothing else changed.
pub open spec fn cache_hit_promoted(
    oldc: Seq<((Option<Seq<char>>, Seq<char>, Seq<char>), (Seq<char>, Seq<char>))>,
    newc: Seq<((Option<Seq<char>>, Seq<char>, Seq<char>), (Seq<char>, Seq<char>))>,
    k: (Option<Seq<char>>, Seq<char>, Seq<char>),
    v: (Seq<char>, Seq<char>),
) -> bool {
    exists|i: int|
        0 <= i < oldc.len() && #[trigger] oldc[i].0 == k && oldc[i].1 == v && newc == seq![oldc[i]]
            + oldc.remove(i)
}

/// A fresh match cached: the pair becomes the most recent entry, and the
/// least recently used entry leaves when the cache was full.
pub open spec fn cache_miss_inserted(
    oldc: Seq<((Option<Seq<char>>, Seq<char>, Seq<char>), (Seq<char>, Seq<char>))>,
    newc: Seq<((Option<Seq<char>>, Seq<char>, Seq<char>), (Seq<char>, Seq<char>))>,
    cap: nat,
    k: (Option<Seq<char>>, Seq<char>, Seq<char>),
    v: (Seq<char>, Seq<char>),
) -> bool {
    newc == seq![(k, v)] + (if oldc.len() < cap {
        oldc
    } else {
        oldc.drop_last()
    })
}

/// The engine bound into request handling: the active routing structure,
/// the configuration flags, and the lookup cache (absent when the
/// configured cache size is zero).
pub struct Engine {
    router: RouterSet,
    use_host_in_match: bool,
    preserve_existing_headers: bool,
    cache: Option<lru::LruCache<CacheKey, CacheVal>>,
}

impl Engine {
    /// The active routing structure.
    pub closed spec fn set_view(&self) -> SetV {
        self.router@
    }

    /// The `useHostInMatch` flag.
    pub closed spec fn use_host(&self) -> bool {
        self.use_host_in_match
    }

    /// The `preserveExistingHeaders` flag.
    pub closed spec fn preserve(&self) -> bool {
        self.preserve_existing_headers
    }

    /// Whether a lookup cache is present.
    pub closed spec fn spec_cache_enabled(&self) -> bool {
        self.cache is Some
    }

    /// The cache's capacity (meaningful only when enabled).
    pub closed spec fn spec_cache_cap(&self) -> nat {
        lru_cap(self.cache->Some_0)
    }

    /// The cache's entries, most recently used first (meaningful only
    /// when enabled).
    pub closed spec fn spec_cache_contents(&self) -> Seq<
        ((Option<Seq<char>>, Seq<char>, Seq<char>), (Seq<char>, Seq<char>)),
    > {
        lru_contents(self.cache->Some_0)
    }

    /// The engine's invariant: the routing structure is well-formed and
    /// every cache entry agrees with it.
    pub closed spec fn wf(&self) -> bool {
        &&& self.router.wf()
        &&& (self.cache is Some ==> lru_cap(self.cache->Some_0) >= 1 && lru_contents(
            self.cache->Some_0,
        ).len() <= lru_cap(self.cache->Some_0) && (forall|i: int|
            0 <= i < lru_contents(self.cache->Some_0).len() ==> cache_entry_ok(
                self.router@,
                #[trigger] lru_contents(self.cache->Some_0)[i],
            )))
    }

    /// A fresh engine: no routes, both flags on, and a cache of the
    /// default capacity.
    pub fn new() -> (r: Engine)
        ensures
            r.wf(),
            r.set_view().buckets =~= Seq::<(Option<Seq<char>>, Seq<crate::router::GroupV>)>::empty(),
            r.use_host(),
            r.preserve(),
            r.spec_cache_enabled(),
            r.spec_cache_cap() == 1024,
            r.spec_cache_contents() =~= Seq::empty(),
    {
        Engine {
            router: RouterSet::new(),
            use_host_in_match: true,
            preserve_existing_headers: true,
            cache: Some(lru_new(1024)),
        }
    }

    /// Compiles a configuration and, only on success, replaces the
    /// routing structure, the flags and the cache together. A failed
    /// configuration leaves the engine exactly as it was.
    pub fn configure(&mut self, cfg: &RawConfig) -> (r: Result<(), ConfigError>)
        requires
            old(self).wf(),
        ensures
            final(self).wf(),
            match r {
                Ok(()) => spec_compile(*cfg) matches Ok(sv) && final(self).set_view() == sv
                    && final(self).use_host() == spec_use_host(*cfg) && final(self).preserve()
                    == spec_preserve(*cfg) && final(self).spec_cache_enabled() == (spec_cache_size(
                    *cfg,
                ) != 0) && (spec_cache_size(*cfg) != 0 ==> final(self).spec_cache_cap()
                    == spec_cache_size(*cfg) && final(self).spec_cache_contents()
                    =~= Seq::empty()),
                Err(e) => spec_compile(*cfg) == Err::<SetV, ConfigError>(e) && *final(self)
                    == *old(self),
            },
    {
        match compile(cfg) {
            Ok((rs, uh, pres)) => {
                let size: usize = match cfg.cache_size {
                    Some(n) => n,
                    None => 1024,
                };
                self.router = rs;
                self.use_host_in_match = uh;
                self.preserve_existing_headers = pres;
                if size == 0 {
                    self.cache = None;
                } else {
                    self.cache = Some(lru_new(size));
                }
                Ok(())
            },
            Err(e) => Err(e),
        }
    }

    /// Resolves a request, consulting the cache first and populating it
    /// on a successful fresh match. The result is exactly what matching
    /// against the active routing structure yields.
    pub fn resolve(&mut self, host: Option<&str>, method: &str, path: &str) -> (r: Option<
        (String, Rc<String>),
    >)
        requires
            old(self).wf(),
        ensures
            final(self).wf(),
            final(self).set_view() == old(self).set_view(),
            final(self).use_host() == old(self).use_host(),
            final(self).preserve() == old(self).preserve(),
            final(self).spec_cache_enabled() == old(self).spec_cache_enabled(),
            old(self).spec_cache_enabled() ==> final(self).spec_cache_cap() == old(self).spec_cache_cap(),
            match r {
                Some(p) => spec_match_route(old(self).set_view(), opt_str_view(host), method@, path@)
                    == Some(EntryV { template: p.0@, service: p.1@ })
                    && (old(self).spec_cache_enabled() ==> ({
                        let k = request_key(opt_str_view(host), method@, path@);
                        let oldc = old(self).spec_cache_contents();
                        let newc = final(self).spec_cache_contents();
                        if exists|i: int| 0 <= i < oldc.len() && #[trigger] oldc[i].0 == k {
                            cache_hit_promoted(oldc, newc, k, (p.0@, p.1@))
                        } else {
                            cache_miss_inserted(
                                oldc,
                                newc,
                                old(self).spec_cache_cap(),
                                k,
                                (p.0@, p.1@),
                            )
                        }
                    })),
                None => spec_match_route(old(self).set_view(), opt_str_view(host), method@, path@)
                    is None && (old(self).spec_cache_enabled()
                    ==> final(self).spec_cache_contents() == old(self).spec_cache_contents()),
            },
    {
        let hk: Option<String> = match host {
            Some(h) => Some(host_key(h)),
            None => None,
        };
        let m = lower_str_owned(method);
        let np = normalize_path(path);
        let key: CacheKey = (hk, m, np);
        proof {
            assert(key_view(key) == request_key(opt_str_view(host), method@, path@));
        }
        // Consult the cache.
        let mut hit: Option<CacheVal> = None;
        match &mut self.cache {
            Some(c) => {
                let ghost oldc = lru_contents(*c);
                hit = lru_get(c, &key);
                proof {
                    if hit is Some {
                        let i = choose|i: int|
                            0 <= i < oldc.len() && #[trigger] oldc[i].0 == key_view(key) && oldc[i].1
                                == val_view(hit->Some_0) && lru_contents(*c) == seq![oldc[i]]
                                + oldc.remove(i);
                        assert(cache_entry_ok(self.router@, oldc[i]));
                        assert forall|j: int|
                            0 <= j < lru_contents(*c).len() implies cache_entry_ok(
                            self.router@,
                            #[trigger] lru_contents(*c)[j],
                        ) by {
                            if j == 0 {
                            } else if j - 1 < i {
                                assert(lru_contents(*c)[j] == oldc.remove(i)[j - 1]);
                                assert(oldc.remove(i)[j - 1] == oldc[j - 1]);
                            } else {
                                assert(lru_contents(*c)[j] == oldc.remove(i)[j - 1]);
                                assert(oldc.remove(i)[j - 1] == oldc[j]);
                            }
                        }
                    }
                }
            },
            None => {},
        }
        match hit {
            Some(v) => {
                proof {
                    let sv = self.router@;
                    let kv = key_view(key);
                    assert(spec_match_canon(sv, kv.0, kv.1, kv.2) matches Some(e) && (v.0@, v.1@)
                        == (e.template, e.service));
                    let e = spec_match_canon(sv, kv.0, kv.1, kv.2)->Some_0;
                    assert(EntryV { template: v.0@, service: v.1@ } == e);
                }
                Some(v)
            },
            None => {
                let res = self.router.match_route(host, method, path);
                match res {
                    Some(pr) => {
                        let stored: CacheVal = (pr.0.clone(), rc_clone(&pr.1));
                        match &mut self.cache {
                            Some(c) => {
                                let ghost oldc = lru_contents(*c);
                                let ghost cap = lru_cap(*c);
                                lru_put(c, key, stored);
                                proof {
                                    let newc = lru_contents(*c);
                                    let kept = if exists|i: int|
                                        0 <= i < oldc.len() && #[trigger] oldc[i].0 == key_view(
                                            key,
                                        ) {
                                        oldc.remove(
                                            choose|i: int|
                                                0 <= i < oldc.len() && #[trigger] oldc[i].0
                                                    == key_view(key),
                                        )
                                    } else if oldc.len() < cap {
                                        oldc
                                    } else {
                                        oldc.drop_last()
                                    };
                                    assert(newc == seq![(key_view(key), val_view(stored))] + kept);
                                    assert(cache_entry_ok(self.router@, (key_view(key), val_view(stored))));
                                    assert forall|j: int|
                                        0 <= j < newc.len() implies cache_entry_ok(
                                        self.router@,
                                        #[trigger] newc[j],
                                    ) by {
                                        if j > 0 {
                                            assert(newc[j] == kept[j - 1]);
                                            assert(exists|x: int|
                                                0 <= x < oldc.len() && oldc[x] == kept[j - 1]) by {
                                                if exists|i: int|
                                                    0 <= i < oldc.len() && #[trigger] oldc[i].0
                                                        == key_view(key) {
                                                    let i = choose|i: int|
                                                        0 <= i < oldc.len() && #[trigger] oldc[i].0
                                                            == key_view(key);
                                                    if j - 1 < i {
                                                        assert(oldc[j - 1] == kept[j - 1]);
                                                    } else {
                                                        assert(oldc[j] == kept[j - 1]);
                                                    }
                                                } else if oldc.len() < cap {
                                                    assert(oldc[j - 1] == kept[j - 1]);
                                                } else {
                                                    assert(oldc[j - 1] == kept[j - 1]);
                                                }
                                            }
                                        }
                                    }
                                }
                            },
                            None => {},
                        }
                        Some(pr)
                    },
                    None => None,
                }
            },
        }
    }

    /// Resolves a bare request path: the host-agnostic, any-method
    /// lookup used when only the path is known.
    pub fn get_openapi_path(&mut self, path: &str) -> (r: Option<(String, Rc<String>)>)
        requires
            old(self).wf(),
        ensures
            final(self).wf(),
            final(self).set_view() == old(self).set_view(),
            final(self).use_host() == old(self).use_host(),
            final(self).preserve() == old(self).preserve(),
            final(self).spec_cache_enabled() == old(self).spec_cache_enabled(),
            old(self).spec_cache_enabled() ==> final(self).spec_cache_cap() == old(self).spec_cache_cap(),
            match r {
                Some(p) => spec_match_route(old(self).set_view(), None, ""@, path@) == Some(
                    EntryV { template: p.0@, service: p.1@ },
                ) && (old(self).spec_cache_enabled() ==> ({
                    let k = request_key(None, ""@, path@);
                    let oldc = old(self).spec_cache_contents();
                    let newc = final(self).spec_cache_contents();
                    if exists|i: int| 0 <= i < oldc.len() && #[trigger] oldc[i].0 == k {
                        cache_hit_promoted(oldc, newc, k, (p.0@, p.1@))
                    } else {
                        cache_miss_inserted(oldc, newc, old(self).spec_cache_cap(), k, (p.0@, p.1@))
                    }
                })),
                None => spec_match_route(old(self).set_view(), None, ""@, path@) is None && (old(
                    self,
                ).spec_cache_enabled() ==> final(self).spec_cache_contents() == old(
                    self,
                ).spec_cache_contents()),
            },
    {
        self.resolve(None, "", path)
    }

    /// Whether the lookup cache is enabled.
    pub fn cache_enabled(&self) -> (r: bool)
        ensures
            r == self.spec_cache_enabled(),
    {
        self.cache.is_some()
    }

    /// The cache's capacity, when one is enabled.
    pub fn cache_cap(&self) -> (r: Option<usize>)
        ensures
            match r {
                Some(n) => self.spec_cache_enabled() && n as nat == self.spec_cache_cap(),
                None => !self.spec_cache_enabled(),
            },
    {
        match &self.cache {
            Some(c) => Some(lru_capacity(c)),
            None => None,
        }
    }

    /// The number of cached entries; zero when the cache is disabled.
    pub fn cache_len(&self) -> (r: usize)
        ensures
            self.spec_cache_enabled() ==> r == self.spec_cache_contents().len(),
            !self.spec_cache_enabled() ==> r == 0,
    {
        match &self.cache {
            Some(c) => lru_len(c),
            None => 0,
        }
    }

    /// Whether the cache holds an entry for this request key.
    pub fn cache_contains(&self, host: Option<&str>, method: &str, path: &str) -> (r: bool)
        ensures
            r == (self.spec_cache_enabled() && exists|i: int|
                0 <= i < self.spec_cache_contents().len()
                    && (#[trigger] self.spec_cache_contents()[i]).0 == (
                match opt_str_view(host) {
                    Some(h) => Some(crate::host::spec_host_key(h)),
                    None => None::<Seq<char>>,
                },
                crate::text::lower_chars(method@),
                crate::normalize::spec_normalize(path@),
            )),
    {
        match &self.cache {
            Some(c) => {
                let hk: Option<String> = match host {
                    Some(h) => Some(host_key(h)),
                    None => None,
                };
                let m = lower_str_owned(method);
                let np = normalize_path(path);
                let key: CacheKey = (hk, m, np);
                proof {
                    assert(key_view(key) == (
                        match opt_str_view(host) {
                            Some(h) => Some(crate::host::spec_host_key(h)),
                            None => None::<Seq<char>>,
                        },
                        crate::text::lower_chars(method@),
                        crate::normalize::spec_normalize(path@),
                    ));
                }
                let r0 = lru_contains(c, &key);
                proof {
                    let contents = lru_contents(*c);
                    if r0 {
                        let i = choose|i: int|
                            0 <= i < contents.len() && #[trigger] contents[i].0 == key_view(key);
                        assert(0 <= i < self.spec_cache_contents().len()
                            && (self.spec_cache_contents()[i]).0 == key_view(key));
                    } else {
                        assert forall|i: int|
                            0 <= i < self.spec_cache_contents().len() implies (
                        #[trigger] self.spec_cache_contents()[i]).0 != key_view(key) by {
                            assert(contents[i].0 != key_view(key));
                        }
                    }
                }
                r0
            },
            None => false,
        }
    }

    /// Whether hosts take part in matching.
    pub fn use_host_in_match(&self) -> (r: bool)
        ensures
            r == self.use_host(),
    {
        self.use_host_in_match
    }

    /// Whether already-set response fields are kept.
    pub fn preserve_existing_headers(&self) -> (r: bool)
        ensures
            r == self.preserve(),
    {
        self.preserve_existing_headers
    }

    /// The request, matched against the active structure without touching
    /// the cache.
    pub fn match_route(&self, host: Option<&str>, method: &str, path: &str) -> (r: Option<
        (String, Rc<String>),
    >)
        requires
            self.wf(),
        ensures
            match r {
                Some(p) => spec_match_route(self.set_view(), opt_str_view(host), method@, path@)
                    == Some(EntryV { template: p.0@, service: p.1@ }),
                None => spec_match_route(self.set_view(), opt_str_view(host), method@, path@)
                    is None,
            },
    {
        self.router.match_route(host, method, path)
    }
}

/// The endpoint label written for a resolved request: the method, a
/// space, and the matched template.
pub fn endpoint_label(method: &str, template: &str) -> (r: String)
    ensures
        r@ == method@ + " "@ + template@,
{
    let mut out = String::from_str(method);
    out.append(" ");
    out.append(template);
    out
}

/// Whether a response field should be written: always, unless existing
/// values are preserved and one is already set.
pub fn should_write_header(preserve: bool, already_set: bool) -> (r: bool)
    ensures
        r == !(preserve && already_set),
{
    !(preserve && already_set)
}

} // verus!
