//! The route compiler: validates a configuration document and, only when
//! the whole document is valid, builds the `RouterSet` that matching
//! runs against. Validation is ordered — the first violation aborts the
//! compilation with an error naming the offending value — and building
//! is pure: a failed compilation leaves any previously active structure
//! untouched, because a new structure is only ever produced as a whole.

use vstd::prelude::*;
use vstd::string::*;
use std::rc::Rc;
use crate::config::{ConfigError, RawConfig, RawPathItem, RawService};
use crate::expand::{parse_servers, spec_parse_servers, str_views, SrvV};
use crate::router::{
    group_views, opt_string_view, spec_match_route, wf_group, GroupV, HostBucket, MethodTable,
    RouteGroup, RouterSet, SetV,
};
use crate::table::{rc_clone, tbl_insert, EntryV, RouteTable};
use crate::text::{chars_eq, lower_chars, lower_vec, str_to_chars};

verus! {

/// The recognized HTTP method names, in sorted order.
pub open spec fn canon_methods() -> Seq<Seq<char>> {
    seq!["delete"@, "get"@, "head"@, "options"@, "patch"@, "post"@, "put"@, "trace"@]
}

/// Whether `m` is a recognized (lower-case) HTTP method name.
pub open spec fn is_method_name(m: Seq<char>) -> bool {
    canon_methods().contains(m)
}

/// Whether some key, lower-cased, equals `m`.
pub open spec fn keys_have(keys: Seq<Seq<char>>, m: Seq<char>) -> bool {
    exists|i: int| 0 <= i < keys.len() && lower_chars(#[trigger] keys[i]) == m
}

/// The canonical names present among the keys, in canonical order: the
/// lower-cased, recognized, deduplicated, sorted method set of one path
/// item.
pub open spec fn keep_methods(canon: Seq<Seq<char>>, keys: Seq<Seq<char>>) -> Seq<Seq<char>>
    decreases canon.len(),
{
    if canon.len() == 0 {
        Seq::empty()
    } else if keys_have(keys, canon[0]) {
        seq![canon[0]] + keep_methods(canon.drop_first(), keys)
    } else {
        keep_methods(canon.drop_first(), keys)
    }
}

/// The method set a path item declares.
pub open spec fn spec_parse_methods(keys: Seq<Seq<char>>) -> Seq<Seq<char>> {
    keep_methods(canon_methods(), keys)
}

/// The recognized method names as strings, in canonical order.
fn canon_list() -> (r: Vec<String>)
    ensures
        str_views(r@) =~= canon_methods(),
{
    let mut out: Vec<String> = Vec::new();
    out.push(String::from_str("delete"));
    out.push(String::from_str("get"));
    out.push(String::from_str("head"));
    out.push(String::from_str("options"));
    out.push(String::from_str("patch"));
    out.push(String::from_str("post"));
    out.push(String::from_str("put"));
    out.push(String::from_str("trace"));
    out
}

/// Whether `method` is one of the known (lower-case) HTTP method names.
#[verifier::loop_isolation(false)]
pub fn is_http_method(method: &str) -> (r: bool)
    ensures
        r == is_method_name(method@),
{
    let mv = str_to_chars(method);
    let canon = canon_list();
    let mut i: usize = 0;
    while i < canon.len()
        invariant
            i <= canon@.len(),
            mv@ == method@,
            str_views(canon@) =~= canon_methods(),
            forall|j: int| 0 <= j < i ==> str_views(canon@)[j] != method@,
        decreases canon@.len() - i,
    {
        let cv = str_to_chars(canon[i].as_str());
        if chars_eq(&mv, &cv) {
            proof {
                assert(canon_methods()[i as int] == method@);
            }
            return true;
        }
        i = i + 1;
    }
    proof {
        if canon_methods().contains(method@) {
            let j = choose|j: int|
                0 <= j < canon_methods().len() && canon_methods()[j] == method@;
            assert(str_views(canon@)[j] == method@);
        }
    }
    false
}

/// Collects the recognized methods among a path item's keys: lower-cased,
/// deduplicated, in canonical (sorted) order. An item with none matches
/// any method.
#[verifier::loop_isolation(false)]
pub fn parse_methods(keys: &Vec<String>) -> (r: Vec<String>)
    ensures
        str_views(r@) == spec_parse_methods(str_views(keys@)),
{
    let ghost keysv = str_views(keys@);
    let canon = canon_list();
    let mut out: Vec<String> = Vec::new();
    let mut i: usize = 0;
    proof {
        assert(canon_methods().skip(0) =~= canon_methods());
        assert(str_views(out@) =~= Seq::<Seq<char>>::empty());
    }
    while i < canon.len()
        invariant
            i <= canon@.len(),
            str_views(canon@) =~= canon_methods(),
            spec_parse_methods(keysv) =~= str_views(out@) + keep_methods(
                canon_methods().skip(i as int),
                keysv,
            ),
        decreases canon@.len() - i,
    {
        let ghost rem = canon_methods().skip(i as int);
        proof {
            assert(rem[0] == canon_methods()[i as int]);
            assert(rem.drop_first() =~= canon_methods().skip(i + 1 as int));
        }
        let cv = str_to_chars(canon[i].as_str());
        // Does some key, lower-cased, equal this canonical name?
        let mut found = false;
        let mut j: usize = 0;
        while j < keys.len()
            invariant
                j <= keys@.len(),
                cv@ == canon_methods()[i as int],
                found == exists|j2: int|
                    0 <= j2 < j && lower_chars(#[trigger] keysv[j2]) == canon_methods()[i as int],
            decreases keys@.len() - j,
        {
            let kv = str_to_chars(keys[j].as_str());
            let lk = lower_vec(&kv);
            if chars_eq(&lk, &cv) {
                proof {
                    assert(lower_chars(keysv[j as int]) == canon_methods()[i as int]);
                }
                found = true;
            }
            j = j + 1;
        }
        if found {
            let ghost before = str_views(out@);
            out.push(canon[i].clone());
            proof {
                assert(keys_have(keysv, canon_methods()[i as int]));
                assert(str_views(out@) =~= before.push(canon_methods()[i as int]));
                assert(before.push(canon_methods()[i as int]) + keep_methods(
                    canon_methods().skip(i + 1 as int),
                    keysv,
                ) =~= before + (seq![canon_methods()[i as int]] + keep_methods(
                    canon_methods().skip(i + 1 as int),
                    keysv,
                )));
            }
        } else {
            proof {
                assert(!keys_have(keysv, canon_methods()[i as int]));
            }
        }
        i = i + 1;
    }
    proof {
        assert(canon_methods().skip(canon_methods().len() as int) =~= Seq::<Seq<char>>::empty());
        assert(str_views(out@) + Seq::<Seq<char>>::empty() =~= str_views(out@));
    }
    out
}

/// The characters a path template may not contain.
pub open spec fn forbidden_char(c: char) -> bool {
    c == '\u{0}' || c == ' ' || c == '\n' || c == '\r'
}

/// The maximum length of a path template.
pub open spec fn max_template_len() -> int {
    1024
}

/// The validation error of a path template, if any: it must start with
/// `/`, be at most the maximum length, and contain no NUL, space or line
/// break.
pub open spec fn template_error(item: RawPathItem) -> Option<ConfigError> {
    let t = item.template@;
    if t.len() == 0 || t[0] != '/' {
        Some(ConfigError::BadPathStart { path: item.template })
    } else if t.len() > max_template_len() {
        Some(ConfigError::PathTooLong { path: item.template })
    } else if exists|i: int| 0 <= i < t.len() && forbidden_char(#[trigger] t[i]) {
        Some(ConfigError::BadPathChar { path: item.template })
    } else {
        None
    }
}

/// Inserting an entry into the table of one method, creating the table
/// when the method is new.
pub open spec fn method_insert(
    methods: Seq<(Seq<char>, Seq<EntryV>)>,
    m: Seq<char>,
    e: EntryV,
    path: String,
) -> Result<Seq<(Seq<char>, Seq<EntryV>)>, ConfigError>
    decreases methods.len(),
{
    if methods.len() == 0 {
        Ok(seq![(m, seq![e])])
    } else if methods[0].0 == m {
        match tbl_insert(methods[0].1, e, path) {
            Err(er) => Err(er),
            Ok(t) => Ok(seq![(m, t)] + methods.drop_first()),
        }
    } else {
        match method_insert(methods.drop_first(), m, e, path) {
            Err(er) => Err(er),
            Ok(mm) => Ok(seq![methods[0]] + mm),
        }
    }
}

/// Inserting an entry into a group's tables for every declared method.
pub open spec fn group_insert_methods(
    g: GroupV,
    ms: Seq<Seq<char>>,
    e: EntryV,
    path: String,
) -> Result<GroupV, ConfigError>
    decreases ms.len(),
{
    if ms.len() == 0 {
        Ok(g)
    } else {
        match method_insert(g.methods, ms[0], e, path) {
            Err(er) => Err(er),
            Ok(mm) => group_insert_methods(
                GroupV { base: g.base, methods: mm, any: g.any },
                ms.drop_first(),
                e,
                path,
            ),
        }
    }
}

/// Inserting one route into a group: into each declared method's table,
/// or into the catch-all table when the path item declared none.
pub open spec fn group_insert(g: GroupV, ms: Seq<Seq<char>>, e: EntryV, path: String) -> Result<
    GroupV,
    ConfigError,
> {
    if ms.len() == 0 {
        match tbl_insert(g.any, e, path) {
            Err(er) => Err(er),
            Ok(t) => Ok(GroupV { base: g.base, methods: g.methods, any: t }),
        }
    } else {
        group_insert_methods(g, ms, e, path)
    }
}

/// The first group with this key, or -1.
pub open spec fn find_group_idx(
    state: Seq<(Option<Seq<char>>, GroupV)>,
    host: Option<Seq<char>>,
    base: Seq<char>,
) -> int
    decreases state.len(),
{
    if state.len() == 0 {
        -1
    } else if state[0].0 == host && state[0].1.base == base {
        0
    } else {
        let r = find_group_idx(state.drop_first(), host, base);
        if r == -1 {
            -1
        } else {
            r + 1
        }
    }
}

/// Inserting one route under one (host key, base path), creating the
/// group when the key is new; groups keep creation order.
pub open spec fn state_insert(
    state: Seq<(Option<Seq<char>>, GroupV)>,
    host: Option<Seq<char>>,
    base: Seq<char>,
    ms: Seq<Seq<char>>,
    e: EntryV,
    path: String,
) -> Result<Seq<(Option<Seq<char>>, GroupV)>, ConfigError> {
    let gi = find_group_idx(state, host, base);
    if gi == -1 {
        let g0 = GroupV { base: base, methods: Seq::empty(), any: Seq::empty() };
        match group_insert(g0, ms, e, path) {
            Err(er) => Err(er),
            Ok(g) => Ok(state.push((host, g))),
        }
    } else {
        match group_insert(state[gi].1, ms, e, path) {
            Err(er) => Err(er),
            Ok(g) => Ok(state.update(gi, (host, g))),
        }
    }
}

/// The (host key, base path) a server spec scopes a route by.
pub open spec fn spec_group_key(s: SrvV, use_host: bool) -> (Option<Seq<char>>, Seq<char>) {
    (
        if use_host {
            s.host
        } else {
            None
        },
        s.base,
    )
}

/// Whether an earlier server spec already carried this grouping key.
pub open spec fn key_seen(done: Seq<SrvV>, use_host: bool, k: (Option<Seq<char>>, Seq<char>)) -> bool {
    exists|j: int| 0 <= j < done.len() && spec_group_key(#[trigger] done[j], use_host) == k
}

/// One route inserted under every expanded server spec of its service.
/// Each distinct grouping key receives the route exactly once: several
/// expansions of one service that collapse onto the same (host key, base
/// path) — as all of them do when hosts are disabled — are one scope,
/// not a route conflict.
pub open spec fn servers_insert(
    state: Seq<(Option<Seq<char>>, GroupV)>,
    specs: Seq<SrvV>,
    use_host: bool,
    ms: Seq<Seq<char>>,
    e: EntryV,
    path: String,
    done: Seq<SrvV>,
) -> Result<Seq<(Option<Seq<char>>, GroupV)>, ConfigError>
    decreases specs.len(),
{
    if specs.len() == 0 {
        Ok(state)
    } else {
        let k = spec_group_key(specs[0], use_host);
        if key_seen(done, use_host, k) {
            servers_insert(state, specs.drop_first(), use_host, ms, e, path, done.push(specs[0]))
        } else {
            match state_insert(state, k.0, k.1, ms, e, path) {
                Err(er) => Err(er),
                Ok(st) => servers_insert(
                    st,
                    specs.drop_first(),
                    use_host,
                    ms,
                    e,
                    path,
                    done.push(specs[0]),
                ),
            }
        }
    }
}

/// Every path template of one service validated and inserted.
pub open spec fn paths_insert(
    state: Seq<(Option<Seq<char>>, GroupV)>,
    items: Seq<RawPathItem>,
    specs: Seq<SrvV>,
    use_host: bool,
    svc_name: Seq<char>,
) -> Result<Seq<(Option<Seq<char>>, GroupV)>, ConfigError>
    decreases items.len(),
{
    if items.len() == 0 {
        Ok(state)
    } else {
        match template_error(items[0]) {
            Some(er) => Err(er),
            None => match items[0].keys {
                None => Err(ConfigError::InvalidPathItem { path: items[0].template }),
                Some(keys) => {
                    let ms = spec_parse_methods(str_views(keys@));
                    let e = EntryV { template: items[0].template@, service: svc_name };
                    match servers_insert(
                        state,
                        specs,
                        use_host,
                        ms,
                        e,
                        items[0].template,
                        Seq::empty(),
                    ) {
                        Err(er) => Err(er),
                        Ok(st) => paths_insert(st, items.drop_first(), specs, use_host, svc_name),
                    }
                },
            },
        }
    }
}

/// Every service validated and its routes inserted, in document order.
pub open spec fn services_fold(
    state: Seq<(Option<Seq<char>>, GroupV)>,
    svcs: Seq<RawService>,
    use_host: bool,
) -> Result<Seq<(Option<Seq<char>>, GroupV)>, ConfigError>
    decreases svcs.len(),
{
    if svcs.len() == 0 {
        Ok(state)
    } else {
        let svc = svcs[0];
        if svc.name is None || svc.name->0@.len() == 0 {
            Err(ConfigError::MissingName)
        } else {
            match spec_parse_servers(svc) {
                Err(er) => Err(er),
                Ok(specs) => {
                    if svc.paths is None || svc.paths->0@.len() == 0 {
                        Err(ConfigError::MissingPaths { service: svc.name->0 })
                    } else {
                        match paths_insert(state, svc.paths->0@, specs, use_host, svc.name->0@) {
                            Err(er) => Err(er),
                            Ok(st) => services_fold(st, svcs.drop_first(), use_host),
                        }
                    }
                },
            }
        }
    }
}

proof fn lemma_method_insert_found(
    methods: Seq<(Seq<char>, Seq<EntryV>)>,
    m: Seq<char>,
    e: EntryV,
    path: String,
    i: int,
)
    requires
        0 <= i < methods.len(),
        methods[i].0 == m,
        forall|j: int| 0 <= j < i ==> methods[j].0 != m,
    ensures
        method_insert(methods, m, e, path) == match tbl_insert(methods[i].1, e, path) {
            Err(er) => Err(er),
            Ok(t) => Ok(methods.update(i, (m, t))),
        },
    decreases methods.len(),
{
    if i == 0 {
        match tbl_insert(methods[0].1, e, path) {
            Err(_) => {},
            Ok(t) => {
                assert(seq![(m, t)] + methods.drop_first() =~= methods.update(0, (m, t)));
            },
        }
    } else {
        assert(forall|j: int|
            0 <= j < i - 1 ==> methods.drop_first()[j] == methods[j + 1]);
        assert(methods.drop_first()[i - 1] == methods[i]);
        lemma_method_insert_found(methods.drop_first(), m, e, path, i - 1);
        match tbl_insert(methods[i].1, e, path) {
            Err(_) => {},
            Ok(t) => {
                assert(seq![methods[0]] + methods.drop_first().update(i - 1, (m, t))
                    =~= methods.update(i, (m, t)));
            },
        }
    }
}

proof fn lemma_method_insert_none(
    methods: Seq<(Seq<char>, Seq<EntryV>)>,
    m: Seq<char>,
    e: EntryV,
    path: String,
)
    requires
        forall|j: int| 0 <= j < methods.len() ==> methods[j].0 != m,
    ensures
        method_insert(methods, m, e, path) == Ok::<_, ConfigError>(methods.push((m, seq![e]))),
    decreases methods.len(),
{
    if methods.len() == 0 {
        assert(seq![(m, seq![e])] =~= methods.push((m, seq![e])));
    } else {
        assert(forall|j: int|
            0 <= j < methods.drop_first().len() ==> methods.drop_first()[j] == methods[j + 1]);
        lemma_method_insert_none(methods.drop_first(), m, e, path);
        assert(seq![methods[0]] + methods.drop_first().push((m, seq![e])) =~= methods.push(
            (m, seq![e]),
        ));
    }
}

proof fn lemma_find_group_at(
    state: Seq<(Option<Seq<char>>, GroupV)>,
    host: Option<Seq<char>>,
    base: Seq<char>,
    i: int,
)
    requires
        0 <= i < state.len(),
        state[i].0 == host && state[i].1.base == base,
        forall|j: int| 0 <= j < i ==> !(state[j].0 == host && state[j].1.base == base),
    ensures
        find_group_idx(state, host, base) == i,
    decreases state.len(),
{
    if i == 0 {
    } else {
        assert(forall|j: int|
            0 <= j < i - 1 ==> state.drop_first()[j] == state[j + 1]);
        assert(state.drop_first()[i - 1] == state[i]);
        lemma_find_group_at(state.drop_first(), host, base, i - 1);
    }
}

proof fn lemma_find_group_none(
    state: Seq<(Option<Seq<char>>, GroupV)>,
    host: Option<Seq<char>>,
    base: Seq<char>,
)
    requires
        forall|j: int| 0 <= j < state.len() ==> !(state[j].0 == host && state[j].1.base == base),
    ensures
        find_group_idx(state, host, base) == -1,
    decreases state.len(),
{
    if state.len() > 0 {
        assert(forall|j: int|
            0 <= j < state.drop_first().len() ==> state.drop_first()[j] == state[j + 1]);
        lemma_find_group_none(state.drop_first(), host, base);
    }
}

/// Inserts one route into a group, into each declared method's table or
/// the catch-all one. On an error the whole compilation is abandoned, so
/// nothing is stated about the group then.
#[verifier::loop_isolation(false)]
fn group_insert_exec(
    g: &mut RouteGroup,
    methods: &Vec<String>,
    template: &String,
    service: &Rc<String>,
) -> (r: Result<(), ConfigError>)
    requires
        old(g).wf(),
    ensures
        match r {
            Ok(()) => group_insert(
                old(g)@,
                str_views(methods@),
                EntryV { template: template@, service: service@ },
                *template,
            ) == Ok::<GroupV, ConfigError>(final(g)@) && final(g).wf(),
            Err(e) => group_insert(
                old(g)@,
                str_views(methods@),
                EntryV { template: template@, service: service@ },
                *template,
            ) == Err::<GroupV, ConfigError>(e),
        },
{
    let ghost e = EntryV { template: template@, service: service@ };
    let ghost msv = str_views(methods@);
    if methods.len() == 0 {
        match g.any_method.insert_route(template, rc_clone(service)) {
            Ok(()) => Ok(()),
            Err(er) => Err(er),
        }
    } else {
        let mut k: usize = 0;
        proof {
            assert(msv.skip(0) =~= msv);
        }
        while k < methods.len()
            invariant
                k <= msv.len(),
                g.wf(),
                group_insert_methods(old(g)@, msv, e, *template) == group_insert_methods(
                    g@,
                    msv.skip(k as int),
                    e,
                    *template,
                ),
            decreases msv.len() - k,
        {
            proof {
                assert(msv.skip(k as int)[0] == msv[k as int]);
                assert(msv.skip(k as int).drop_first() =~= msv.skip(k + 1 as int));
            }
            let m = &methods[k];
            match g.find_table_idx(m) {
                Some(i) => {
                    let ghost oldg = g@;
                    let mut mt = g.methods.remove(i);
                    match mt.table.insert_route(template, rc_clone(service)) {
                        Err(er) => {
                            proof {
                                lemma_method_insert_found(oldg.methods, m@, e, *template, i as int);
                            }
                            return Err(er);
                        },
                        Ok(()) => {
                            let ghost newtbl = mt.table@;
                            g.methods.insert(i, mt);
                            proof {
                                lemma_method_insert_found(oldg.methods, m@, e, *template, i as int);
                                assert(g@.methods =~= oldg.methods.update(i as int, (m@, newtbl)));
                            }
                        },
                    }
                },
                None => {
                    let mut t = RouteTable::new();
                    match t.insert_route(template, rc_clone(service)) {
                        Err(er) => {
                            proof {
                                assert(false);
                            }
                            return Err(er);
                        },
                        Ok(()) => {
                            let ghost oldg = g@;
                            let ghost tv = t@;
                            g.methods.push(MethodTable { method: m.clone(), table: t });
                            proof {
                                lemma_method_insert_none(oldg.methods, m@, e, *template);
                                assert(tv =~= seq![e]);
                                assert(g@.methods =~= oldg.methods.push((m@, seq![e])));
                            }
                        },
                    }
                },
            }
            k = k + 1;
        }
        proof {
            assert(msv.skip(msv.len() as int) =~= Seq::<Seq<char>>::empty());
        }
        Ok(())
    }
}

/// A group under construction, together with the host key it is scoped
/// by.
pub struct KeyedGroup {
    pub host: Option<String>,
    pub group: RouteGroup,
}

impl View for KeyedGroup {
    type V = (Option<Seq<char>>, GroupV);

    open spec fn view(&self) -> (Option<Seq<char>>, GroupV) {
        (opt_string_view(self.host), self.group@)
    }
}

/// The views of the groups under construction.
pub open spec fn kg_views(s: Seq<KeyedGroup>) -> Seq<(Option<Seq<char>>, GroupV)> {
    s.map_values(|k: KeyedGroup| k@)
}

/// Whether every group under construction is well-formed.
pub open spec fn state_wf(st: Seq<(Option<Seq<char>>, GroupV)>) -> bool {
    forall|i: int| 0 <= i < st.len() ==> wf_group(#[trigger] st[i].1)
}

/// A copy of an optional host key.
fn clone_opt_string(h: &Option<String>) -> (r: Option<String>)
    ensures
        r == *h,
{
    match h {
        Some(s) => Some(s.clone()),
        None => None,
    }
}

/// Inserts one route under one (host key, base path), creating the group
/// when the key is new.
#[verifier::loop_isolation(false)]
fn state_insert_exec(
    state: &mut Vec<KeyedGroup>,
    host: &Option<String>,
    base: &String,
    methods: &Vec<String>,
    template: &String,
    service: &Rc<String>,
) -> (r: Result<(), ConfigError>)
    requires
        state_wf(kg_views(old(state)@)),
    ensures
        match r {
            Ok(()) => state_insert(
                kg_views(old(state)@),
                opt_string_view(*host),
                base@,
                str_views(methods@),
                EntryV { template: template@, service: service@ },
                *template,
            ) == Ok::<_, ConfigError>(kg_views(final(state)@)) && state_wf(
                kg_views(final(state)@),
            ),
            Err(e) => state_insert(
                kg_views(old(state)@),
                opt_string_view(*host),
                base@,
                str_views(methods@),
                EntryV { template: template@, service: service@ },
                *template,
            ) == Err::<Seq<(Option<Seq<char>>, GroupV)>, ConfigError>(e),
        },
{
    let ghost stv = kg_views(state@);
    let ghost hostv = opt_string_view(*host);
    let mut i: usize = 0;
    while i < state.len()
        invariant
            i <= stv.len(),
            kg_views(state@) == stv,
            forall|j: int| 0 <= j < i ==> !(stv[j].0 == hostv && stv[j].1.base == base@),
        decreases stv.len() - i,
    {
        if crate::router::opt_host_eq(&state[i].host, host) && state[i].group.base_path.eq(base) {
            proof {
                lemma_find_group_at(stv, hostv, base@, i as int);
            }
            let mut kg = state.remove(i);
            match group_insert_exec(&mut kg.group, methods, template, service) {
                Err(er) => {
                    return Err(er);
                },
                Ok(()) => {
                    let ghost kgv = kg@;
                    state.insert(i, kg);
                    proof {
                        assert(kg_views(state@) =~= stv.update(i as int, (hostv, kgv.1)));
                        assert(state_wf(kg_views(state@)));
                    }
                    return Ok(());
                },
            }
        }
        i = i + 1;
    }
    proof {
        lemma_find_group_none(stv, hostv, base@);
    }
    let mut g = RouteGroup::new(base.clone());
    proof {
        assert(g@ == GroupV { base: base@, methods: Seq::<(Seq<char>, Seq<EntryV>)>::empty(), any: Seq::<EntryV>::empty() });
    }
    match group_insert_exec(&mut g, methods, template, service) {
        Err(er) => Err(er),
        Ok(()) => {
            let ghost gv = g@;
            state.push(KeyedGroup { host: clone_opt_string(host), group: g });
            proof {
                assert(kg_views(state@) =~= stv.push((hostv, gv)));
            }
            Ok(())
        },
    }
}

/// A group inserted into its bucket after every group with a base path
/// at least as long: descending base-path length, stable for equal
/// lengths.
pub open spec fn insert_sorted(groups: Seq<GroupV>, g: GroupV) -> Seq<GroupV>
    decreases groups.len(),
{
    if groups.len() == 0 {
        seq![g]
    } else if groups[0].base.len() >= g.base.len() {
        seq![groups[0]] + insert_sorted(groups.drop_first(), g)
    } else {
        seq![g] + groups
    }
}

/// A group added to the bucket of its host key; a new key opens a new
/// bucket at the end.
pub open spec fn add_to_buckets(
    buckets: Seq<(Option<Seq<char>>, Seq<GroupV>)>,
    key: Option<Seq<char>>,
    g: GroupV,
) -> Seq<(Option<Seq<char>>, Seq<GroupV>)>
    decreases buckets.len(),
{
    if buckets.len() == 0 {
        seq![(key, seq![g])]
    } else if buckets[0].0 == key {
        seq![(buckets[0].0, insert_sorted(buckets[0].1, g))] + buckets.drop_first()
    } else {
        seq![buckets[0]] + add_to_buckets(buckets.drop_first(), key, g)
    }
}

/// All built groups bucketed by host key, in creation order.
pub open spec fn bucket_fold(
    acc: Seq<(Option<Seq<char>>, Seq<GroupV>)>,
    state: Seq<(Option<Seq<char>>, GroupV)>,
) -> Seq<(Option<Seq<char>>, Seq<GroupV>)>
    decreases state.len(),
{
    if state.len() == 0 {
        acc
    } else {
        bucket_fold(add_to_buckets(acc, state[0].0, state[0].1), state.drop_first())
    }
}

/// Whether hosts take part in matching (the `useHostInMatch` flag;
/// defaults to on).
pub open spec fn spec_use_host(cfg: RawConfig) -> bool {
    match cfg.use_host_in_match {
        Some(b) => b,
        None => true,
    }
}

/// Whether already-set response fields are kept (the
/// `preserveExistingHeaders` flag; defaults to on).
pub open spec fn spec_preserve(cfg: RawConfig) -> bool {
    match cfg.preserve_existing_headers {
        Some(b) => b,
        None => true,
    }
}

/// The configured cache capacity (defaults to 1024; zero disables the
/// cache).
pub open spec fn spec_cache_size(cfg: RawConfig) -> usize {
    match cfg.cache_size {
        Some(n) => n,
        None => 1024,
    }
}

/// What compiling a document yields: its `RouterSet`, or the first
/// validation error in document order.
pub open spec fn spec_compile(cfg: RawConfig) -> Result<SetV, ConfigError> {
    match cfg.services {
        None => Err(ConfigError::MissingServices),
        Some(svcs) => {
            if svcs@.len() == 0 {
                Err(ConfigError::EmptyServices)
            } else {
                match services_fold(Seq::empty(), svcs@, spec_use_host(cfg)) {
                    Err(er) => Err(er),
                    Ok(st) => Ok(SetV { buckets: bucket_fold(Seq::empty(), st) }),
                }
            }
        },
    }
}

/// Whether one path item is flawed: an invalid template, or a malformed
/// (non-object) item.
pub open spec fn item_flawed(item: RawPathItem) -> bool {
    template_error(item) is Some || item.keys is None
}

/// Whether one declared service is flawed: a missing or empty name,
/// missing or empty paths, or a flawed path item.
pub open spec fn service_flawed(svc: RawService) -> bool {
    ||| svc.name is None
    ||| svc.name->0@.len() == 0
    ||| svc.paths is None
    ||| svc.paths->0@.len() == 0
    ||| exists|k: int| 0 <= k < svc.paths->0@.len() && item_flawed(#[trigger] svc.paths->0@[k])
}

proof fn lemma_paths_insert_flawed(
    state: Seq<(Option<Seq<char>>, GroupV)>,
    items: Seq<RawPathItem>,
    specs: Seq<SrvV>,
    use_host: bool,
    svc_name: Seq<char>,
)
    requires
        exists|k: int| 0 <= k < items.len() && item_flawed(#[trigger] items[k]),
    ensures
        paths_insert(state, items, specs, use_host, svc_name) is Err,
    decreases items.len(),
{
    let k = choose|k: int| 0 <= k < items.len() && item_flawed(#[trigger] items[k]);
    if !item_flawed(items[0]) {
        assert(k > 0);
        match items[0].keys {
            None => {},
            Some(keys) => {
                let ms = spec_parse_methods(str_views(keys@));
                let e = EntryV { template: items[0].template@, service: svc_name };
                match servers_insert(
                    state,
                    specs,
                    use_host,
                    ms,
                    e,
                    items[0].template,
                    Seq::empty(),
                ) {
                    Err(_) => {},
                    Ok(st) => {
                        assert(item_flawed(items.drop_first()[k - 1])) by {
                            assert(items.drop_first()[k - 1] == items[k]);
                        }
                        lemma_paths_insert_flawed(
                            st,
                            items.drop_first(),
                            specs,
                            use_host,
                            svc_name,
                        );
                    },
                }
            },
        }
    }
}

proof fn lemma_services_fold_flawed(
    state: Seq<(Option<Seq<char>>, GroupV)>,
    svcs: Seq<RawService>,
    use_host: bool,
)
    requires
        exists|i: int| 0 <= i < svcs.len() && service_flawed(#[trigger] svcs[i]),
    ensures
        services_fold(state, svcs, use_host) is Err,
    decreases svcs.len(),
{
    let i = choose|i: int| 0 <= i < svcs.len() && service_flawed(#[trigger] svcs[i]);
    let svc = svcs[0];
    if svc.name is None || svc.name->0@.len() == 0 {
    } else {
        match spec_parse_servers(svc) {
            Err(_) => {},
            Ok(specs) => {
                if svc.paths is None || svc.paths->0@.len() == 0 {
                } else if exists|k: int|
                    0 <= k < svc.paths->0@.len() && item_flawed(#[trigger] svc.paths->0@[k]) {
                    lemma_paths_insert_flawed(
                        state,
                        svc.paths->0@,
                        specs,
                        use_host,
                        svc.name->0@,
                    );
                } else {
                    assert(!service_flawed(svc));
                    assert(i > 0);
                    match paths_insert(state, svc.paths->0@, specs, use_host, svc.name->0@) {
                        Err(_) => {},
                        Ok(st) => {
                            assert(service_flawed(svcs.drop_first()[i - 1])) by {
                                assert(svcs.drop_first()[i - 1] == svcs[i]);
                            }
                            lemma_services_fold_flawed(st, svcs.drop_first(), use_host);
                        },
                    }
                }
            },
        }
    }
}

/// A flawed document never compiles: when `services` is absent or empty,
/// or any service anywhere in the document has a missing or empty name,
/// missing or empty paths, an invalid path template, or a malformed path
/// item, compilation fails.
pub proof fn lemma_flawed_document_rejected(cfg: RawConfig)
    requires
        cfg.services is None || cfg.services->0@.len() == 0 || (exists|i: int|
            0 <= i < cfg.services->0@.len() && service_flawed(#[trigger] cfg.services->0@[i])),
    ensures
        spec_compile(cfg) is Err,
{
    match cfg.services {
        None => {},
        Some(svcs) => {
            if svcs@.len() > 0 {
                lemma_services_fold_flawed(Seq::empty(), svcs@, spec_use_host(cfg));
            }
        },
    }
}

/// Whether every group under construction is host-agnostic.
pub open spec fn state_hostless(state: Seq<(Option<Seq<char>>, GroupV)>) -> bool {
    forall|i: int| 0 <= i < state.len() ==> (#[trigger] state[i]).0 is None
}

/// Whether every bucket is host-agnostic.
pub open spec fn buckets_hostless(bs: Seq<(Option<Seq<char>>, Seq<GroupV>)>) -> bool {
    forall|i: int| 0 <= i < bs.len() ==> (#[trigger] bs[i]).0 is None
}

proof fn lemma_find_group_idx_range(
    state: Seq<(Option<Seq<char>>, GroupV)>,
    host: Option<Seq<char>>,
    base: Seq<char>,
)
    ensures
        -1 <= find_group_idx(state, host, base) < state.len(),
    decreases state.len(),
{
    if state.len() > 0 && !(state[0].0 == host && state[0].1.base == base) {
        lemma_find_group_idx_range(state.drop_first(), host, base);
    }
}

proof fn lemma_state_insert_hostless(
    state: Seq<(Option<Seq<char>>, GroupV)>,
    base: Seq<char>,
    ms: Seq<Seq<char>>,
    e: EntryV,
    path: String,
)
    requires
        state_hostless(state),
        state_insert(state, None, base, ms, e, path) is Ok,
    ensures
        state_hostless(state_insert(state, None, base, ms, e, path)->Ok_0),
{
    let st = state_insert(state, None, base, ms, e, path)->Ok_0;
    let gi = find_group_idx(state, None, base);
    lemma_find_group_idx_range(state, None, base);
    assert forall|i: int| 0 <= i < st.len() implies (#[trigger] st[i]).0 is None by {
        if gi == -1 {
            if i < state.len() {
                assert(st[i] == state[i]);
            }
        } else {
            if i != gi {
                assert(st[i] == state[i]);
            }
        }
    }
}

proof fn lemma_servers_insert_hostless(
    state: Seq<(Option<Seq<char>>, GroupV)>,
    specs: Seq<SrvV>,
    ms: Seq<Seq<char>>,
    e: EntryV,
    path: String,
    done: Seq<SrvV>,
)
    requires
        state_hostless(state),
        servers_insert(state, specs, false, ms, e, path, done) is Ok,
    ensures
        state_hostless(servers_insert(state, specs, false, ms, e, path, done)->Ok_0),
    decreases specs.len(),
{
    if specs.len() == 0 {
    } else {
        let k = spec_group_key(specs[0], false);
        if key_seen(done, false, k) {
            lemma_servers_insert_hostless(state, specs.drop_first(), ms, e, path, done.push(specs[0]));
        } else {
            match state_insert(state, k.0, k.1, ms, e, path) {
                Err(_) => {},
                Ok(st) => {
                    lemma_state_insert_hostless(state, specs[0].base, ms, e, path);
                    lemma_servers_insert_hostless(st, specs.drop_first(), ms, e, path, done.push(specs[0]));
                },
            }
        }
    }
}

proof fn lemma_paths_insert_hostless(
    state: Seq<(Option<Seq<char>>, GroupV)>,
    items: Seq<RawPathItem>,
    specs: Seq<SrvV>,
    svc_name: Seq<char>,
)
    requires
        state_hostless(state),
        paths_insert(state, items, specs, false, svc_name) is Ok,
    ensures
        state_hostless(paths_insert(state, items, specs, false, svc_name)->Ok_0),
    decreases items.len(),
{
    if items.len() == 0 {
    } else {
        match template_error(items[0]) {
            Some(_) => {},
            None => match items[0].keys {
                None => {},
                Some(keys) => {
                    let ms = spec_parse_methods(str_views(keys@));
                    let e = EntryV { template: items[0].template@, service: svc_name };
                    match servers_insert(
                        state,
                        specs,
                        false,
                        ms,
                        e,
                        items[0].template,
                        Seq::empty(),
                    ) {
                        Err(_) => {},
                        Ok(st) => {
                            lemma_servers_insert_hostless(
                                state,
                                specs,
                                ms,
                                e,
                                items[0].template,
                                Seq::empty(),
                            );
                            lemma_paths_insert_hostless(st, items.drop_first(), specs, svc_name);
                        },
                    }
                },
            },
        }
    }
}

proof fn lemma_services_fold_hostless(
    state: Seq<(Option<Seq<char>>, GroupV)>,
    svcs: Seq<RawService>,
)
    requires
        state_hostless(state),
        services_fold(state, svcs, false) is Ok,
    ensures
        state_hostless(services_fold(state, svcs, false)->Ok_0),
    decreases svcs.len(),
{
    if svcs.len() == 0 {
    } else {
        let svc = svcs[0];
        if svc.name is None || svc.name->0@.len() == 0 {
        } else {
            match spec_parse_servers(svc) {
                Err(_) => {},
                Ok(specs) => {
                    if svc.paths is None || svc.paths->0@.len() == 0 {
                    } else {
                        match paths_insert(state, svc.paths->0@, specs, false, svc.name->0@) {
                            Err(_) => {},
                            Ok(st) => {
                                lemma_paths_insert_hostless(
                                    state,
                                    svc.paths->0@,
                                    specs,
                                    svc.name->0@,
                                );
                                lemma_services_fold_hostless(st, svcs.drop_first());
                            },
                        }
                    }
                },
            }
        }
    }
}

proof fn lemma_add_to_buckets_hostless(
    bs: Seq<(Option<Seq<char>>, Seq<GroupV>)>,
    g: GroupV,
)
    requires
        buckets_hostless(bs),
    ensures
        buckets_hostless(add_to_buckets(bs, None, g)),
    decreases bs.len(),
{
    let out = add_to_buckets(bs, None, g);
    if bs.len() == 0 {
        assert forall|i: int| 0 <= i < out.len() implies (#[trigger] out[i]).0 is None by {
            assert(out[i] == (None::<Seq<char>>, seq![g]));
        }
    } else if bs[0].0 == None::<Seq<char>> {
        assert forall|i: int| 0 <= i < out.len() implies (#[trigger] out[i]).0 is None by {
            if i > 0 {
                assert(out[i] == bs[i]);
            }
        }
    } else {
        assert(forall|i: int|
            0 <= i < bs.drop_first().len() ==> (#[trigger] bs.drop_first()[i]) == bs[i + 1]);
        lemma_add_to_buckets_hostless(bs.drop_first(), g);
        assert forall|i: int| 0 <= i < out.len() implies (#[trigger] out[i]).0 is None by {
            if i > 0 {
                assert(out[i] == add_to_buckets(bs.drop_first(), None, g)[i - 1]);
            }
        }
    }
}

proof fn lemma_bucket_fold_hostless(
    acc: Seq<(Option<Seq<char>>, Seq<GroupV>)>,
    state: Seq<(Option<Seq<char>>, GroupV)>,
)
    requires
        buckets_hostless(acc),
        state_hostless(state),
    ensures
        buckets_hostless(bucket_fold(acc, state)),
    decreases state.len(),
{
    if state.len() > 0 {
        assert(state[0].0 is None);
        assert(state[0].0 == None::<Seq<char>>);
        lemma_add_to_buckets_hostless(acc, state[0].1);
        assert(forall|i: int|
            0 <= i < state.drop_first().len() ==> (#[trigger] state.drop_first()[i]) == state[i
                + 1]);
        lemma_bucket_fold_hostless(add_to_buckets(acc, None, state[0].1), state.drop_first());
    }
}

/// With hosts disabled (`useHostInMatch` off), the compiled structure is
/// entirely host-agnostic, so the match result never depends on the
/// request host.
pub proof fn lemma_host_ignored_when_disabled(
    cfg: RawConfig,
    host: Option<Seq<char>>,
    method: Seq<char>,
    path: Seq<char>,
)
    requires
        !spec_use_host(cfg),
        spec_compile(cfg) is Ok,
    ensures
        spec_match_route(spec_compile(cfg)->Ok_0, host, method, path) == spec_match_route(
            spec_compile(cfg)->Ok_0,
            None,
            method,
            path,
        ),
{
    match cfg.services {
        None => {},
        Some(svcs) => {
            let st = services_fold(Seq::empty(), svcs@, false)->Ok_0;
            assert(state_hostless(Seq::<(Option<Seq<char>>, GroupV)>::empty()));
            lemma_services_fold_hostless(Seq::empty(), svcs@);
            assert(buckets_hostless(Seq::<(Option<Seq<char>>, Seq<GroupV>)>::empty()));
            lemma_bucket_fold_hostless(Seq::empty(), st);
            crate::router::lemma_match_host_agnostic(
                spec_compile(cfg)->Ok_0,
                host,
                method,
                path,
            );
        },
    }
}

proof fn lemma_add_to_buckets_at(
    buckets: Seq<(Option<Seq<char>>, Seq<GroupV>)>,
    key: Option<Seq<char>>,
    g: GroupV,
    i: int,
)
    requires
        0 <= i < buckets.len(),
        buckets[i].0 == key,
        forall|j: int| 0 <= j < i ==> buckets[j].0 != key,
    ensures
        add_to_buckets(buckets, key, g) =~= buckets.update(
            i,
            (key, insert_sorted(buckets[i].1, g)),
        ),
    decreases buckets.len(),
{
    if i == 0 {
        assert(seq![(buckets[0].0, insert_sorted(buckets[0].1, g))] + buckets.drop_first()
            =~= buckets.update(0, (key, insert_sorted(buckets[0].1, g))));
    } else {
        assert(forall|j: int|
            0 <= j < i - 1 ==> buckets.drop_first()[j] == buckets[j + 1]);
        assert(buckets.drop_first()[i - 1] == buckets[i]);
        lemma_add_to_buckets_at(buckets.drop_first(), key, g, i - 1);
        assert(seq![buckets[0]] + buckets.drop_first().update(
            i - 1,
            (key, insert_sorted(buckets[i].1, g)),
        ) =~= buckets.update(i, (key, insert_sorted(buckets[i].1, g))));
    }
}

proof fn lemma_add_to_buckets_none(
    buckets: Seq<(Option<Seq<char>>, Seq<GroupV>)>,
    key: Option<Seq<char>>,
    g: GroupV,
)
    requires
        forall|j: int| 0 <= j < buckets.len() ==> buckets[j].0 != key,
    ensures
        add_to_buckets(buckets, key, g) =~= buckets.push((key, seq![g])),
    decreases buckets.len(),
{
    if buckets.len() == 0 {
        assert(seq![(key, seq![g])] =~= buckets.push((key, seq![g])));
    } else {
        assert(forall|j: int|
            0 <= j < buckets.drop_first().len() ==> buckets.drop_first()[j] == buckets[j + 1]);
        lemma_add_to_buckets_none(buckets.drop_first(), key, g);
        assert(seq![buckets[0]] + buckets.drop_first().push((key, seq![g])) =~= buckets.push(
            (key, seq![g]),
        ));
    }
}

proof fn lemma_insert_sorted_at(groups: Seq<GroupV>, g: GroupV, pos: int)
    requires
        0 <= pos <= groups.len(),
        forall|k: int| 0 <= k < pos ==> #[trigger] groups[k].base.len() >= g.base.len(),
        pos == groups.len() || groups[pos].base.len() < g.base.len(),
    ensures
        insert_sorted(groups, g) =~= groups.insert(pos, g),
    decreases groups.len(),
{
    if groups.len() == 0 {
        assert(seq![g] =~= groups.insert(0, g));
    } else if pos == 0 {
        assert(groups[0].base.len() < g.base.len());
        assert(seq![g] + groups =~= groups.insert(0, g));
    } else {
        assert(groups[0].base.len() >= g.base.len());
        assert(forall|k: int|
            0 <= k < pos - 1 ==> groups.drop_first()[k] == groups[k + 1]);
        lemma_insert_sorted_at(groups.drop_first(), g, pos - 1);
        assert(seq![groups[0]] + groups.drop_first().insert(pos - 1, g) =~= groups.insert(
            pos,
            g,
        ));
    }
}

/// The position before the first group whose base path is shorter than
/// the new group's.
#[verifier::loop_isolation(false)]
fn find_insert_pos(groups: &Vec<RouteGroup>, g: &RouteGroup) -> (pos: usize)
    ensures
        pos <= groups@.len(),
        forall|k: int|
            0 <= k < pos ==> #[trigger] group_views(groups@)[k].base.len() >= g@.base.len(),
        pos < groups@.len() ==> group_views(groups@)[pos as int].base.len() < g@.base.len(),
{
    let glen = g.base_path.as_str().unicode_len();
    let mut pos: usize = 0;
    while pos < groups.len()
        invariant
            pos <= groups@.len(),
            glen == g@.base.len(),
            forall|k: int|
                0 <= k < pos ==> #[trigger] group_views(groups@)[k].base.len() >= g@.base.len(),
        decreases groups@.len() - pos,
    {
        if groups[pos].base_path.as_str().unicode_len() < glen {
            return pos;
        }
        pos = pos + 1;
    }
    pos
}

/// Adds one finished group to the bucket of its host key, keeping the
/// bucket ordered by descending base-path length (stable).
#[verifier::loop_isolation(false)]
fn add_group_exec(rs: &mut RouterSet, host: Option<String>, g: RouteGroup)
    requires
        crate::router::wf_set(old(rs)@),
        wf_group(g@),
    ensures
        final(rs)@.buckets == add_to_buckets(old(rs)@.buckets, opt_string_view(host), g@),
        crate::router::wf_set(final(rs)@),
{
    let ghost bks = rs@.buckets;
    let ghost key = opt_string_view(host);
    let ghost gv = g@;
    let mut i: usize = 0;
    while i < rs.buckets.len()
        invariant
            i <= bks.len(),
            rs@.buckets == bks,
            forall|j: int| 0 <= j < i ==> bks[j].0 != key,
        decreases bks.len() - i,
    {
        if crate::router::opt_host_eq(&rs.buckets[i].host, &host) {
            proof {
                lemma_add_to_buckets_at(bks, key, gv, i as int);
            }
            let mut b = rs.buckets.remove(i);
            let ghost oldgroups = group_views(b.groups@);
            let pos = find_insert_pos(&b.groups, &g);
            b.groups.insert(pos, g);
            proof {
                lemma_insert_sorted_at(oldgroups, gv, pos as int);
                assert(group_views(b.groups@) =~= oldgroups.insert(pos as int, gv));
                assert(insert_sorted(oldgroups, gv) =~= group_views(b.groups@));
            }
            let ghost bv = b@;
            rs.buckets.insert(i, b);
            proof {
                assert(rs@.buckets =~= bks.update(i as int, (key, insert_sorted(bks[i as int].1, gv))));
                assert forall|x: int, j: int|
                    0 <= x < rs@.buckets.len() && 0 <= j < rs@.buckets[x].1.len() implies wf_group(
                    #[trigger] rs@.buckets[x].1[j],
                ) by {
                    if x == i {
                        assert(rs@.buckets[x].1 == oldgroups.insert(pos as int, gv));
                        if j == pos {
                        } else if j < pos {
                            assert(oldgroups.insert(pos as int, gv)[j] == bks[i as int].1[j]);
                        } else {
                            assert(oldgroups.insert(pos as int, gv)[j] == bks[i as int].1[j - 1]);
                        }
                    }
                }
            }
            return ;
        }
        i = i + 1;
    }
    proof {
        lemma_add_to_buckets_none(bks, key, gv);
    }
    let mut groups: Vec<RouteGroup> = Vec::new();
    groups.push(g);
    proof {
        assert(group_views(groups@) =~= seq![gv]);
    }
    rs.buckets.push(HostBucket { host, groups });
    proof {
        assert(rs@.buckets =~= bks.push((key, seq![gv])));
        assert forall|x: int, j: int|
            0 <= x < rs@.buckets.len() && 0 <= j < rs@.buckets[x].1.len() implies wf_group(
            #[trigger] rs@.buckets[x].1[j],
        ) by {
            if x < bks.len() {
                assert(rs@.buckets[x] == bks[x]);
            } else {
                assert(rs@.buckets[x].1 == seq![gv]);
            }
        }
    }
}

/// The compilation continued after one service's path items.
pub open spec fn after_paths(
    state: Seq<(Option<Seq<char>>, GroupV)>,
    items: Seq<RawPathItem>,
    specs: Seq<SrvV>,
    use_host: bool,
    name: Seq<char>,
    rest: Seq<RawService>,
) -> Result<Seq<(Option<Seq<char>>, GroupV)>, ConfigError> {
    match paths_insert(state, items, specs, use_host, name) {
        Err(er) => Err(er),
        Ok(st) => services_fold(st, rest, use_host),
    }
}

/// The compilation continued after one path item's server specs.
pub open spec fn after_servers(
    state: Seq<(Option<Seq<char>>, GroupV)>,
    specs_rest: Seq<SrvV>,
    use_host: bool,
    ms: Seq<Seq<char>>,
    e: EntryV,
    path: String,
    done: Seq<SrvV>,
    items_rest: Seq<RawPathItem>,
    specs_all: Seq<SrvV>,
    name: Seq<char>,
    rest: Seq<RawService>,
) -> Result<Seq<(Option<Seq<char>>, GroupV)>, ConfigError> {
    match servers_insert(state, specs_rest, use_host, ms, e, path, done) {
        Err(er) => Err(er),
        Ok(st) => after_paths(st, items_rest, specs_all, use_host, name, rest),
    }
}

/// Compiles a configuration document into its routing structure and
/// flags. Validation is ordered, the first violation wins, and nothing
/// is produced on failure: a caller's previously active structure stays
/// untouched.
#[verifier::loop_isolation(false)]
#[verifier::rlimit(60)]
pub fn compile(cfg: &RawConfig) -> (r: Result<(RouterSet, bool, bool), ConfigError>)
    ensures
        match r {
            Ok(t) => spec_compile(*cfg) == Ok::<SetV, ConfigError>(t.0@) && t.0.wf() && t.1
                == spec_use_host(*cfg) && t.2 == spec_preserve(*cfg),
            Err(e) => spec_compile(*cfg) == Err::<SetV, ConfigError>(e),
        },
{
    let use_host = match cfg.use_host_in_match {
        Some(b) => b,
        None => true,
    };
    let preserve = match cfg.preserve_existing_headers {
        Some(b) => b,
        None => true,
    };
    let svcs: &Vec<RawService> = match &cfg.services {
        Some(s) => s,
        None => {
            return Err(ConfigError::MissingServices);
        },
    };
    if svcs.len() == 0 {
        return Err(ConfigError::EmptyServices);
    }
    let ghost total = services_fold(Seq::empty(), svcs@, use_host);
    let mut state: Vec<KeyedGroup> = Vec::new();
    let mut si: usize = 0;
    proof {
        assert(kg_views(state@) =~= Seq::<(Option<Seq<char>>, GroupV)>::empty());
        assert(svcs@.skip(0) =~= svcs@);
    }
    while si < svcs.len()
        invariant
            si <= svcs@.len(),
            state_wf(kg_views(state@)),
            total == services_fold(kg_views(state@), svcs@.skip(si as int), use_host),
        decreases svcs@.len() - si,
    {
        proof {
            assert(svcs@.skip(si as int)[0] == svcs@[si as int]);
            assert(svcs@.skip(si as int).drop_first() =~= svcs@.skip(si + 1 as int));
        }
        let svc = &svcs[si];
        let name: &String = match &svc.name {
            Some(n) => n,
            None => {
                return Err(ConfigError::MissingName);
            },
        };
        if name.as_str().is_empty() {
            return Err(ConfigError::MissingName);
        }
        let specs = match parse_servers(svc) {
            Ok(s) => s,
            Err(e) => {
                return Err(e);
            },
        };
        let ghost specsv = crate::expand::srv_views(specs@);
        let items: &Vec<RawPathItem> = match &svc.paths {
            Some(p) => p,
            None => {
                return Err(ConfigError::MissingPaths { service: name.clone() });
            },
        };
        if items.len() == 0 {
            return Err(ConfigError::MissingPaths { service: name.clone() });
        }
        let svc_rc: Rc<String> = Rc::new(name.clone());
        let mut pi: usize = 0;
        proof {
            assert(items@.skip(0) =~= items@);
        }
        while pi < items.len()
            invariant
                pi <= items@.len(),
                state_wf(kg_views(state@)),
                total == after_paths(
                    kg_views(state@),
                    items@.skip(pi as int),
                    specsv,
                    use_host,
                    name@,
                    svcs@.skip(si + 1 as int),
                ),
            decreases items@.len() - pi,
        {
            proof {
                assert(items@.skip(pi as int)[0] == items@[pi as int]);
                assert(items@.skip(pi as int).drop_first() =~= items@.skip(pi + 1 as int));
            }
            let item = &items[pi];
            match validate_template(item) {
                Err(e) => {
                    return Err(e);
                },
                Ok(()) => {},
            }
            let keys: &Vec<String> = match &item.keys {
                Some(ks) => ks,
                None => {
                    return Err(ConfigError::InvalidPathItem { path: item.template.clone() });
                },
            };
            let ms = parse_methods(keys);
            let ghost e = EntryV { template: item.template@, service: name@ };
            let ghost msv = str_views(ms@);
            let mut ki: usize = 0;
            proof {
                assert(specsv.skip(0) =~= specsv);
                assert(specsv.take(0) =~= Seq::<SrvV>::empty());
            }
            while ki < specs.len()
                invariant
                    ki <= specsv.len(),
                    state_wf(kg_views(state@)),
                    total == after_servers(
                        kg_views(state@),
                        specsv.skip(ki as int),
                        use_host,
                        msv,
                        e,
                        items@[pi as int].template,
                        specsv.take(ki as int),
                        items@.skip(pi + 1 as int),
                        specsv,
                        name@,
                        svcs@.skip(si + 1 as int),
                    ),
                decreases specsv.len() - ki,
            {
                proof {
                    assert(specsv.skip(ki as int)[0] == specsv[ki as int]);
                    assert(specsv.skip(ki as int).drop_first() =~= specsv.skip(ki + 1 as int));
                    assert(specsv.take(ki as int).push(specsv[ki as int]) =~= specsv.take(
                        ki + 1 as int,
                    ));
                }
                let ghost k = spec_group_key(specsv[ki as int], use_host);
                // Skip a grouping key an earlier spec of this service
                // already carried.
                let mut seen = false;
                let mut sj: usize = 0;
                while sj < ki
                    invariant
                        sj <= ki,
                        ki < specsv.len(),
                        k == spec_group_key(specsv[ki as int], use_host),
                        seen == exists|j2: int|
                            0 <= j2 < sj && spec_group_key(#[trigger] specsv[j2], use_host) == k,
                    decreases ki - sj,
                {
                    let host_same = if use_host {
                        crate::router::opt_host_eq(&specs[sj].host, &specs[ki].host)
                    } else {
                        true
                    };
                    if host_same && specs[sj].base_path.eq(&specs[ki].base_path) {
                        proof {
                            assert(spec_group_key(specsv[sj as int], use_host) == k);
                        }
                        seen = true;
                    }
                    sj = sj + 1;
                }
                proof {
                    assert(seen == key_seen(specsv.take(ki as int), use_host, k)) by {
                        if seen {
                            let j2 = choose|j2: int|
                                0 <= j2 < ki && spec_group_key(#[trigger] specsv[j2], use_host)
                                    == k;
                            assert(spec_group_key(specsv.take(ki as int)[j2], use_host) == k);
                        } else {
                            assert forall|j2: int|
                                0 <= j2 < specsv.take(ki as int).len() implies spec_group_key(
                                #[trigger] specsv.take(ki as int)[j2],
                                use_host,
                            ) != k by {
                                assert(specsv.take(ki as int)[j2] == specsv[j2]);
                            }
                        }
                    }
                }
                if !seen {
                    let key_host: Option<String> = if use_host {
                        clone_opt_string(&specs[ki].host)
                    } else {
                        None
                    };
                    proof {
                        assert(opt_string_view(key_host) == if use_host {
                            specsv[ki as int].host
                        } else {
                            None::<Seq<char>>
                        });
                    }
                    match state_insert_exec(
                        &mut state,
                        &key_host,
                        &specs[ki].base_path,
                        &ms,
                        &item.template,
                        &svc_rc,
                    ) {
                        Err(er) => {
                            return Err(er);
                        },
                        Ok(()) => {},
                    }
                }
                ki = ki + 1;
            }
            proof {
                assert(specsv.skip(specsv.len() as int) =~= Seq::<SrvV>::empty());
            }
            pi = pi + 1;
        }
        proof {
            assert(items@.skip(items@.len() as int) =~= Seq::<RawPathItem>::empty());
        }
        si = si + 1;
    }
    proof {
        assert(svcs@.skip(svcs@.len() as int) =~= Seq::<RawService>::empty());
    }
    // Bucket the finished groups by host key, longest base path first.
    let ghost final_state = kg_views(state@);
    let mut rs = RouterSet::new();
    proof {
        assert(rs@.buckets =~= Seq::<(Option<Seq<char>>, Seq<GroupV>)>::empty());
    }
    while state.len() > 0
        invariant
            state_wf(kg_views(state@)),
            crate::router::wf_set(rs@),
            bucket_fold(Seq::empty(), final_state) == bucket_fold(rs@.buckets, kg_views(state@)),
        decreases state@.len(),
    {
        let ghost stv = kg_views(state@);
        let kg = state.remove(0);
        proof {
            assert(kg@ == stv[0]);
            assert(kg_views(state@) =~= stv.drop_first());
            assert(wf_group(stv[0].1));
        }
        add_group_exec(&mut rs, kg.host, kg.group);
    }
    proof {
        assert(kg_views(state@) =~= Seq::<(Option<Seq<char>>, GroupV)>::empty());
    }
    Ok((rs, use_host, preserve))
}

/// Validates one path template.
#[verifier::loop_isolation(false)]
fn validate_template(item: &RawPathItem) -> (r: Result<(), ConfigError>)
    ensures
        match r {
            Ok(()) => template_error(*item) is None,
            Err(e) => template_error(*item) == Some(e),
        },
{
    let tv = str_to_chars(item.template.as_str());
    if tv.len() == 0 {
        return Err(ConfigError::BadPathStart { path: item.template.clone() });
    }
    if tv[0] != '/' {
        return Err(ConfigError::BadPathStart { path: item.template.clone() });
    }
    if tv.len() > 1024 {
        return Err(ConfigError::PathTooLong { path: item.template.clone() });
    }
    let mut i: usize = 0;
    while i < tv.len()
        invariant
            i <= tv@.len(),
            forall|j: int| 0 <= j < i ==> !forbidden_char(#[trigger] tv@[j]),
        decreases tv@.len() - i,
    {
        let c = tv[i];
        if c == '\u{0}' || c == ' ' || c == '\n' || c == '\r' {
            proof {
                assert(forbidden_char(tv@[i as int]));
            }
            return Err(ConfigError::BadPathChar { path: item.template.clone() });
        }
        i = i + 1;
    }
    Ok(())
}

} // verus!
