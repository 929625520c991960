//! The compiled routing structure. A `RouteGroup` is the matching scope
//! of one (host key, base path) pair: one route table per HTTP method and
//! one catch-all table for path items that declared no methods. A
//! `RouterSet` buckets groups by host key; a request is matched against
//! the groups of its exact host key first, then the host-agnostic ones,
//! each bucket ordered so the longest base path is tried first.

use vstd::prelude::*;
use vstd::string::*;
use std::rc::Rc;
use crate::host::{host_key, spec_host_key};
use crate::normalize::{normalize_chars, spec_normalize};
use crate::table::{
    spec_lookup, wf_entries, EntryV, RouteEntry, RouteTable,
};
use crate::text::{lower_chars, lower_str_owned, starts_at, starts_with, str_to_chars, sub_vec};

verus! {

/// One method's route table inside a group.
pub struct MethodTable {
    pub method: String,
    pub table: RouteTable,
}

impl View for MethodTable {
    type V = (Seq<char>, Seq<EntryV>);

    open spec fn view(&self) -> (Seq<char>, Seq<EntryV>) {
        (self.method@, self.table@)
    }
}

/// The mathematical content of a route group.
pub struct GroupV {
    pub base: Seq<char>,
    pub methods: Seq<(Seq<char>, Seq<EntryV>)>,
    pub any: Seq<EntryV>,
}

/// The matching scope of one (host key, base path) pair.
pub struct RouteGroup {
    pub base_path: String,
    pub methods: Vec<MethodTable>,
    pub any_method: RouteTable,
}

impl View for RouteGroup {
    type V = GroupV;

    open spec fn view(&self) -> GroupV {
        GroupV {
            base: self.base_path@,
            methods: self.methods@.map_values(|mt: MethodTable| mt@),
            any: self.any_method@,
        }
    }
}

/// The views of a sequence of groups.
pub open spec fn group_views(s: Seq<RouteGroup>) -> Seq<GroupV> {
    s.map_values(|g: RouteGroup| g@)
}

/// The groups bucketed under one host key.
pub struct HostBucket {
    pub host: Option<String>,
    pub groups: Vec<RouteGroup>,
}

impl View for HostBucket {
    type V = (Option<Seq<char>>, Seq<GroupV>);

    open spec fn view(&self) -> (Option<Seq<char>>, Seq<GroupV>) {
        (opt_string_view(self.host), group_views(self.groups@))
    }
}

/// The full compiled routing structure.
pub struct RouterSet {
    pub buckets: Vec<HostBucket>,
}

/// The mathematical content of a router set.
pub struct SetV {
    pub buckets: Seq<(Option<Seq<char>>, Seq<GroupV>)>,
}

impl View for RouterSet {
    type V = SetV;

    open spec fn view(&self) -> SetV {
        SetV { buckets: self.buckets@.map_values(|b: HostBucket| b@) }
    }
}

/// Every table of the group is free of ambiguous templates.
pub open spec fn wf_group(g: GroupV) -> bool {
    wf_entries(g.any) && forall|i: int| 0 <= i < g.methods.len() ==> wf_entries(
        #[trigger] g.methods[i].1,
    )
}

/// Every group of the set is well-formed.
pub open spec fn wf_set(sv: SetV) -> bool {
    forall|i: int, j: int|
        0 <= i < sv.buckets.len() && 0 <= j < sv.buckets[i].1.len() ==> wf_group(
            #[trigger] sv.buckets[i].1[j],
        )
}

/// Stripping a group's base path from a normalized request path: the
/// path unchanged for an empty base, `/` for an exact match, the
/// `/`-led remainder for a proper prefix, nothing otherwise.
pub open spec fn spec_strip_base(base: Seq<char>, p: Seq<char>) -> Option<Seq<char>> {
    if base.len() == 0 {
        Some(p)
    } else if p == base {
        Some(seq!['/'])
    } else if p.len() > base.len() && p.take(base.len() as int) == base && p[base.len() as int]
        == '/' {
        Some(p.skip(base.len() as int))
    } else {
        None
    }
}

/// The table registered for a method, if any.
pub open spec fn find_method(methods: Seq<(Seq<char>, Seq<EntryV>)>, m: Seq<char>) -> Option<
    Seq<EntryV>,
>
    decreases methods.len(),
{
    if methods.len() == 0 {
        None
    } else if methods[0].0 == m {
        Some(methods[0].1)
    } else {
        find_method(methods.drop_first(), m)
    }
}

/// Probing one applicable group: the method's own table first, then the
/// catch-all table.
pub open spec fn spec_probe_group(g: GroupV, m: Seq<char>, sp: Seq<char>) -> Option<EntryV> {
    match find_method(g.methods, m) {
        Some(tbl) => match spec_lookup(tbl, sp) {
            Some(e) => Some(e),
            None => spec_lookup(g.any, sp),
        },
        None => spec_lookup(g.any, sp),
    }
}

/// The first group whose base path applies and whose probe succeeds
/// wins; later groups are not consulted.
pub open spec fn spec_match_groups(gs: Seq<GroupV>, m: Seq<char>, np: Seq<char>) -> Option<EntryV>
    decreases gs.len(),
{
    if gs.len() == 0 {
        None
    } else {
        match spec_strip_base(gs[0].base, np) {
            None => spec_match_groups(gs.drop_first(), m, np),
            Some(sp) => match spec_probe_group(gs[0], m, sp) {
                Some(e) => Some(e),
                None => spec_match_groups(gs.drop_first(), m, np),
            },
        }
    }
}

/// The groups stored under a host key (the first bucket with that key).
pub open spec fn bucket_groups(
    bs: Seq<(Option<Seq<char>>, Seq<GroupV>)>,
    key: Option<Seq<char>>,
) -> Seq<GroupV>
    decreases bs.len(),
{
    if bs.len() == 0 {
        Seq::empty()
    } else if bs[0].0 == key {
        bs[0].1
    } else {
        bucket_groups(bs.drop_first(), key)
    }
}

/// The match on an already canonical key: lower-cased, port-stripped
/// host key, lower-cased method, normalized path. The host key's own
/// groups are consulted before the host-agnostic ones.
pub open spec fn spec_match_canon(
    sv: SetV,
    hk: Option<Seq<char>>,
    m: Seq<char>,
    np: Seq<char>,
) -> Option<EntryV> {
    let cands = match hk {
        Some(h) => bucket_groups(sv.buckets, Some(h)) + bucket_groups(sv.buckets, None),
        None => bucket_groups(sv.buckets, None),
    };
    spec_match_groups(cands, m, np)
}

/// The full match: the path is normalized, the method lower-cased, the
/// host (if any) canonicalized; the host's own groups are consulted
/// before the host-agnostic ones.
pub open spec fn spec_match_route(
    sv: SetV,
    host: Option<Seq<char>>,
    method: Seq<char>,
    path: Seq<char>,
) -> Option<EntryV> {
    let hk = match host {
        Some(h) => Some(spec_host_key(h)),
        None => None,
    };
    spec_match_canon(sv, hk, lower_chars(method), spec_normalize(path))
}

/// The view of an optional host string.
pub open spec fn opt_str_view(h: Option<&str>) -> Option<Seq<char>> {
    match h {
        Some(s) => Some(s@),
        None => None,
    }
}

/// Consulting `a + b` consults `a` first and falls back to `b`.
pub proof fn lemma_match_groups_append(
    a: Seq<GroupV>,
    b: Seq<GroupV>,
    m: Seq<char>,
    np: Seq<char>,
)
    ensures
        spec_match_groups(a + b, m, np) == match spec_match_groups(a, m, np) {
            Some(e) => Some(e),
            None => spec_match_groups(b, m, np),
        },
    decreases a.len(),
{
    if a.len() == 0 {
        assert(a + b =~= b);
    } else {
        assert((a + b).drop_first() =~= a.drop_first() + b);
        assert((a + b)[0] == a[0]);
        lemma_match_groups_append(a.drop_first(), b, m, np);
    }
}

impl RouteGroup {
    /// Every table of the group is free of ambiguous templates.
    pub open spec fn wf(&self) -> bool {
        wf_group(self@)
    }

    /// A fresh group for one base path.
    pub fn new(base_path: String) -> (r: RouteGroup)
        ensures
            r@.base == base_path@,
            r@.methods =~= Seq::<(Seq<char>, Seq<EntryV>)>::empty(),
            r@.any =~= Seq::<EntryV>::empty(),
            r.wf(),
    {
        let r = RouteGroup {
            base_path,
            methods: Vec::new(),
            any_method: RouteTable::new(),
        };
        proof {
            assert(r@.methods =~= Seq::<(Seq<char>, Seq<EntryV>)>::empty());
        }
        r
    }

    /// Strips this group's base path from a normalized request path.
    pub fn strip_base_path(&self, path: &Vec<char>) -> (r: Option<Vec<char>>)
        ensures
            match r {
                Some(sp) => spec_strip_base(self@.base, path@) == Some(sp@),
                None => spec_strip_base(self@.base, path@) is None,
            },
    {
        let base = str_to_chars(self.base_path.as_str());
        proof {
            assert(path@.skip(0) =~= path@);
        }
        if base.len() == 0 {
            return Some(sub_vec(path, 0, path.len()));
        }
        if crate::text::chars_eq(path, &base) {
            let mut slash: Vec<char> = Vec::new();
            slash.push('/');
            proof {
                assert(slash@ =~= seq!['/']);
            }
            return Some(slash);
        }
        if path.len() > base.len() && starts_at(path, 0, &base) {
            proof {
                assert(path@.skip(0) =~= path@);
                assert(path@.take(base@.len() as int) == base@);
            }
            if path[base.len()] == '/' {
                return Some(sub_vec(path, base.len(), path.len()));
            }
            return None;
        }
        None
    }

    /// The index of the method's table, if registered.
    pub(crate) fn find_table_idx(&self, m: &String) -> (r: Option<usize>)
        ensures
            match r {
                Some(i) => i < self@.methods.len() && find_method(self@.methods, m@) == Some(
                    self@.methods[i as int].1,
                ) && self@.methods[i as int].0 == m@ && forall|j: int|
                    0 <= j < i ==> self@.methods[j].0 != m@,
                None => find_method(self@.methods, m@) is None && forall|j: int|
                    0 <= j < self@.methods.len() ==> self@.methods[j].0 != m@,
            },
    {
        let mut i: usize = 0;
        while i < self.methods.len()
            invariant
                i <= self.methods@.len(),
                forall|j: int| 0 <= j < i ==> self@.methods[j].0 != m@,
        decreases self.methods@.len() - i,
        {
            if self.methods[i].method.eq(m) {
                proof {
                    lemma_find_method_at(self@.methods, m@, i as int);
                }
                return Some(i);
            }
            i = i + 1;
        }
        proof {
            lemma_find_method_none(self@.methods, m@);
        }
        None
    }

    /// Probes this group for a lower-cased method and a stripped path:
    /// the method's own table first, then the catch-all table.
    pub fn probe(&self, m: &String, sp: &Vec<char>) -> (r: Option<RouteEntry>)
        requires
            self.wf(),
        ensures
            match r {
                Some(e) => spec_probe_group(self@, m@, sp@) == Some(e@),
                None => spec_probe_group(self@, m@, sp@) is None,
            },
    {
        match self.find_table_idx(m) {
            Some(i) => {
                proof {
                    assert(wf_entries(self@.methods[i as int].1));
                }
                match self.methods[i].table.lookup(sp) {
                    Some(e) => Some(e),
                    None => self.any_method.lookup(sp),
                }
            },
            None => self.any_method.lookup(sp),
        }
    }
}

proof fn lemma_find_method_at(methods: Seq<(Seq<char>, Seq<EntryV>)>, m: Seq<char>, i: int)
    requires
        0 <= i < methods.len(),
        methods[i].0 == m,
        forall|j: int| 0 <= j < i ==> methods[j].0 != m,
    ensures
        find_method(methods, m) == Some(methods[i].1),
    decreases methods.len(),
{
    if i == 0 {
    } else {
        assert(forall|j: int|
            0 <= j < i - 1 ==> methods.drop_first()[j] == methods[j + 1]);
        assert(methods.drop_first()[i - 1] == methods[i]);
        lemma_find_method_at(methods.drop_first(), m, i - 1);
    }
}

proof fn lemma_find_method_none(methods: Seq<(Seq<char>, Seq<EntryV>)>, m: Seq<char>)
    requires
        forall|j: int| 0 <= j < methods.len() ==> methods[j].0 != m,
    ensures
        find_method(methods, m) is None,
    decreases methods.len(),
{
    if methods.len() > 0 {
        assert(forall|j: int|
            0 <= j < methods.drop_first().len() ==> methods.drop_first()[j] == methods[j + 1]);
        lemma_find_method_none(methods.drop_first(), m);
    }
}

/// Matches a lower-cased method and normalized path against a list of
/// groups in order.
#[verifier::loop_isolation(false)]
fn match_in_groups(groups: &Vec<RouteGroup>, m: &String, np: &Vec<char>) -> (r: Option<RouteEntry>)
    requires
        forall|i: int| 0 <= i < groups@.len() ==> wf_group(#[trigger] group_views(groups@)[i]),
    ensures
        match r {
            Some(e) => spec_match_groups(group_views(groups@), m@, np@) == Some(e@),
            None => spec_match_groups(group_views(groups@), m@, np@) is None,
        },
{
    let ghost gv = group_views(groups@);
    let mut i: usize = 0;
    proof {
        assert(gv.skip(0) =~= gv);
    }
    while i < groups.len()
        invariant
            i <= gv.len(),
            spec_match_groups(gv, m@, np@) == spec_match_groups(gv.skip(i as int), m@, np@),
        decreases gv.len() - i,
    {
        proof {
            assert(gv.skip(i as int)[0] == gv[i as int]);
            assert(gv.skip(i as int).drop_first() =~= gv.skip(i + 1 as int));
        }
        match groups[i].strip_base_path(np) {
            Some(sp) => {
                match groups[i].probe(m, &sp) {
                    Some(e) => {
                        return Some(e);
                    },
                    None => {},
                }
            },
            None => {},
        }
        i = i + 1;
    }
    proof {
        assert(gv.skip(gv.len() as int) =~= Seq::<GroupV>::empty());
    }
    None
}

/// Whether two optional host keys are the same.
pub(crate) fn opt_host_eq(a: &Option<String>, b: &Option<String>) -> (r: bool)
    ensures
        r == (match (a, b) {
            (Some(x), Some(y)) => x@ == y@,
            (None, None) => true,
            _ => false,
        }),
{
    match (a, b) {
        (Some(x), Some(y)) => x.eq(y),
        (None, None) => true,
        _ => false,
    }
}

impl RouterSet {
    /// Every group of the set is well-formed.
    pub open spec fn wf(&self) -> bool {
        wf_set(self@)
    }

    /// An empty router set.
    pub fn new() -> (r: RouterSet)
        ensures
            r@.buckets =~= Seq::<(Option<Seq<char>>, Seq<GroupV>)>::empty(),
            r.wf(),
    {
        let r = RouterSet { buckets: Vec::new() };
        proof {
            assert(r@.buckets =~= Seq::<(Option<Seq<char>>, Seq<GroupV>)>::empty());
        }
        r
    }

    /// The index of the bucket under a host key, if present.
    fn bucket_idx(&self, key: &Option<String>) -> (r: Option<usize>)
        ensures
            match r {
                Some(i) => i < self@.buckets.len() && bucket_groups(
                    self@.buckets,
                    opt_string_view(*key),
                ) == self@.buckets[i as int].1,
                None => bucket_groups(self@.buckets, opt_string_view(*key))
                    =~= Seq::<GroupV>::empty(),
            },
    {
        let mut i: usize = 0;
        while i < self.buckets.len()
            invariant
                i <= self.buckets@.len(),
                forall|j: int| 0 <= j < i ==> self@.buckets[j].0 != opt_string_view(*key),
            decreases self.buckets@.len() - i,
        {
            if opt_host_eq(&self.buckets[i].host, key) {
                proof {
                    assert(self@.buckets[i as int].0 == opt_string_view(*key));
                    lemma_bucket_groups_at(self@.buckets, opt_string_view(*key), i as int);
                }
                return Some(i);
            }
            proof {
                assert(self@.buckets[i as int].0 != opt_string_view(*key));
            }
            i = i + 1;
        }
        proof {
            lemma_bucket_groups_none(self@.buckets, opt_string_view(*key));
        }
        None
    }

    /// Resolves a request (host, method, path) to its route entry.
    ///
    /// The path is normalized and the method lower-cased; the host, if
    /// given, is lower-cased and port-stripped. Host-specific groups are
    /// consulted before host-agnostic ones; within each bucket the
    /// longest applicable base path wins; within a group the method's
    /// own table is probed before the catch-all table.
    pub fn match_route(&self, host: Option<&str>, method: &str, path: &str) -> (r: Option<
        (String, Rc<String>),
    >)
        requires
            self.wf(),
        ensures
            match r {
                Some(pr) => spec_match_route(self@, opt_str_view(host), method@, path@) == Some(
                    EntryV { template: pr.0@, service: pr.1@ },
                ),
                None => spec_match_route(self@, opt_str_view(host), method@, path@) is None,
            },
    {
        let pv = str_to_chars(path);
        let np = normalize_chars(&pv);
        let m = lower_str_owned(method);
        let none_key: Option<String> = None;
        let ghost cands = match opt_str_view(host) {
            Some(h) => bucket_groups(self@.buckets, Some(spec_host_key(h))) + bucket_groups(
                self@.buckets,
                None,
            ),
            None => bucket_groups(self@.buckets, None),
        };
        match host {
            Some(h) => {
                let hk = Some(host_key(h));
                let host_first = match self.bucket_idx(&hk) {
                    Some(bi) => {
                        proof {
                            lemma_wf_bucket(self@, bi as int);
                        }
                        match_in_groups(&self.buckets[bi].groups, &m, &np)
                    },
                    None => {
                        proof {
                            assert(bucket_groups(self@.buckets, Some(spec_host_key(h@)))
                                =~= Seq::<GroupV>::empty());
                        }
                        None
                    },
                };
                proof {
                    lemma_match_groups_append(
                        bucket_groups(self@.buckets, Some(spec_host_key(h@))),
                        bucket_groups(self@.buckets, None),
                        m@,
                        np@,
                    );
                }
                match host_first {
                    Some(e) => Some((e.template, e.service)),
                    None => {
                        match self.bucket_idx(&none_key) {
                            Some(bi) => {
                                proof {
                                    lemma_wf_bucket(self@, bi as int);
                                }
                                match match_in_groups(&self.buckets[bi].groups, &m, &np) {
                                    Some(e) => Some((e.template, e.service)),
                                    None => None,
                                }
                            },
                            None => None,
                        }
                    },
                }
            },
            None => {
                match self.bucket_idx(&none_key) {
                    Some(bi) => {
                        proof {
                            lemma_wf_bucket(self@, bi as int);
                        }
                        match match_in_groups(&self.buckets[bi].groups, &m, &np) {
                            Some(e) => Some((e.template, e.service)),
                            None => None,
                        }
                    },
                    None => None,
                }
            },
        }
    }
}

/// The view of an optional host key held as a `String`.
pub open spec fn opt_string_view(h: Option<String>) -> Option<Seq<char>> {
    match h {
        Some(s) => Some(s@),
        None => None,
    }
}

proof fn lemma_bucket_groups_at(
    bs: Seq<(Option<Seq<char>>, Seq<GroupV>)>,
    key: Option<Seq<char>>,
    i: int,
)
    requires
        0 <= i < bs.len(),
        bs[i].0 == key,
        forall|j: int| 0 <= j < i ==> bs[j].0 != key,
    ensures
        bucket_groups(bs, key) == bs[i].1,
    decreases bs.len(),
{
    if i == 0 {
    } else {
        assert(forall|j: int| 0 <= j < i - 1 ==> bs.drop_first()[j] == bs[j + 1]);
        assert(bs.drop_first()[i - 1] == bs[i]);
        lemma_bucket_groups_at(bs.drop_first(), key, i - 1);
    }
}

proof fn lemma_bucket_groups_none(bs: Seq<(Option<Seq<char>>, Seq<GroupV>)>, key: Option<Seq<char>>)
    requires
        forall|j: int| 0 <= j < bs.len() ==> bs[j].0 != key,
    ensures
        bucket_groups(bs, key) =~= Seq::<GroupV>::empty(),
    decreases bs.len(),
{
    if bs.len() > 0 {
        assert(forall|j: int|
            0 <= j < bs.drop_first().len() ==> bs.drop_first()[j] == bs[j + 1]);
        lemma_bucket_groups_none(bs.drop_first(), key);
    }
}

/// In a set whose buckets are all host-agnostic, the request host never
/// affects the match result.
pub proof fn lemma_match_host_agnostic(
    sv: SetV,
    host: Option<Seq<char>>,
    method: Seq<char>,
    path: Seq<char>,
)
    requires
        forall|i: int| 0 <= i < sv.buckets.len() ==> (#[trigger] sv.buckets[i]).0 is None,
    ensures
        spec_match_route(sv, host, method, path) == spec_match_route(sv, None, method, path),
{
    match host {
        None => {},
        Some(h) => {
            let hk = spec_host_key(h);
            lemma_bucket_groups_none(sv.buckets, Some(hk));
            assert(bucket_groups(sv.buckets, Some(hk)) + bucket_groups(sv.buckets, None)
                =~= bucket_groups(sv.buckets, None));
        },
    }
}

/// Every group in a bucket of a well-formed set is well-formed.
proof fn lemma_wf_bucket(sv: SetV, i: int)
    requires
        wf_set(sv),
        0 <= i < sv.buckets.len(),
    ensures
        forall|j: int| 0 <= j < sv.buckets[i].1.len() ==> wf_group(#[trigger] sv.buckets[i].1[j]),
{
}

} // verus!
