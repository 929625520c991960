//! The server-URL expander: a declared server URL template is expanded
//! over the cartesian product of its variables' values, and each concrete
//! URL is parsed into a `ServerSpec` — an optional lower-cased,
//! port-stripped host and a normalized base path.

use vstd::prelude::*;
use vstd::string::*;
use crate::config::{ConfigError, Declared, RawServer, RawService, RawVariable};
use crate::host::{host_key, spec_strip_port};
use crate::normalize::{normalize_chars, spec_normalize};
use crate::text::{
    chars_to_string, cut_at, find_char_vec, find_sub, find_sub_vec, has_char,
    lemma_take_until_at_index, lemma_take_until_props, lower_chars, push_all, replace_all, spec_replace,
    spec_trim, str_to_chars, sub_vec, take_until, trim_spaces, views_of,
};

verus! {

/// One concrete server: a host to scope by (if any) and a base path to
/// strip from request paths.
#[derive(Debug)]
pub struct ServerSpec {
    pub host: Option<String>,
    pub base_path: String,
}

/// The mathematical content of a `ServerSpec`.
pub struct SrvV {
    pub host: Option<Seq<char>>,
    pub base: Seq<char>,
}

impl View for ServerSpec {
    type V = SrvV;

    open spec fn view(&self) -> SrvV {
        SrvV {
            host: match self.host {
                Some(h) => Some(h@),
                None => None,
            },
            base: self.base_path@,
        }
    }
}

/// The views of a sequence of server specs.
pub open spec fn srv_views(s: Seq<ServerSpec>) -> Seq<SrvV> {
    s.map_values(|sp: ServerSpec| sp@)
}

/// A base path in its stored form: normalized, and empty when it
/// normalizes to a bare `/`.
pub open spec fn spec_normalize_base(b: Seq<char>) -> Seq<char> {
    if b.len() == 0 {
        b
    } else if spec_normalize(b) == seq!['/'] {
        Seq::empty()
    } else {
        spec_normalize(b)
    }
}

/// What `parse_server_url` yields on a given URL: the fragment and query
/// are stripped and the remainder trimmed; an empty remainder is an
/// error; a `scheme://` prefix is dropped; a leading `/` means no host;
/// otherwise the part before the first `/` is the (lower-cased,
/// port-stripped) host and the rest the base path.
pub open spec fn spec_parse_server_url(u: Seq<char>) -> Result<SrvV, ConfigError> {
    let t = spec_trim(take_until(take_until(u, '#'), '?'));
    if t.len() == 0 {
        Err(ConfigError::EmptyUrl)
    } else {
        let idx = find_sub(t, "://"@);
        let rest = if idx >= 0 {
            t.skip(idx + 3)
        } else {
            t
        };
        if rest.len() > 0 && rest[0] == '/' {
            Ok(SrvV { host: None, base: spec_normalize_base(rest) })
        } else {
            let hostpart = take_until(rest, '/');
            let basepart = if has_char(rest, '/') {
                rest.skip(hostpart.len() as int + 1)
            } else {
                Seq::<char>::empty()
            };
            let base_raw = if basepart.len() == 0 {
                Seq::<char>::empty()
            } else {
                seq!['/'] + basepart
            };
            let host = if hostpart.len() == 0 {
                None
            } else {
                Some(spec_strip_port(lower_chars(hostpart)))
            };
            Ok(SrvV { host, base: spec_normalize_base(base_raw) })
        }
    }
}

/// The views of a sequence of strings.
pub open spec fn str_views(s: Seq<String>) -> Seq<Seq<char>> {
    s.map_values(|x: String| x@)
}

/// A variable's value set: its `enum` values (which must all be strings
/// and non-empty), or its single `default`, or an error.
pub open spec fn spec_var_values(v: RawVariable) -> Result<Seq<Seq<char>>, ConfigError> {
    match v.enum_values {
        Declared::Invalid => Err(ConfigError::InvalidEnumValues { variable: v.name }),
        Declared::List(evs) => if evs@.len() == 0 {
            Err(ConfigError::EmptyEnum { variable: v.name })
        } else {
            Ok(str_views(evs@))
        },
        Declared::Absent => match v.default_value {
            Some(d) => Ok(seq![d@]),
            None => Err(ConfigError::MissingVariableValues { variable: v.name }),
        },
    }
}

/// The `{name}` placeholder of a variable.
pub open spec fn placeholder(name: Seq<char>) -> Seq<char> {
    seq!['{'] + name + seq!['}']
}

/// Each URL, with the placeholder substituted by each value in turn:
/// the one-variable expansion step.
pub open spec fn subst_each(urls: Seq<Seq<char>>, ph: Seq<char>, vals: Seq<Seq<char>>) -> Seq<
    Seq<char>,
>
    decreases urls.len(),
{
    if urls.len() == 0 {
        Seq::empty()
    } else {
        vals.map_values(|val: Seq<char>| spec_replace(urls[0], ph, val)) + subst_each(
            urls.drop_first(),
            ph,
            vals,
        )
    }
}

pub proof fn lemma_subst_each_push(urls: Seq<Seq<char>>, u: Seq<char>, ph: Seq<char>, vals: Seq<
    Seq<char>,
>)
    ensures
        subst_each(urls.push(u), ph, vals) =~= subst_each(urls, ph, vals) + vals.map_values(
            |val: Seq<char>| spec_replace(u, ph, val),
        ),
    decreases urls.len(),
{
    if urls.len() == 0 {
        assert(urls.push(u).drop_first() =~= urls);
        assert(urls.push(u)[0] == u);
    } else {
        assert(urls.push(u).drop_first() =~= urls.drop_first().push(u));
        assert(urls.push(u)[0] == urls[0]);
        lemma_subst_each_push(urls.drop_first(), u, ph, vals);
    }
}

/// The cartesian expansion over the remaining variables, failing on an
/// invalid variable or when an intermediate expansion count exceeds 100.
pub open spec fn spec_expand_vars(
    urls: Seq<Seq<char>>,
    vars: Seq<RawVariable>,
    orig: String,
) -> Result<Seq<Seq<char>>, ConfigError>
    decreases vars.len(),
{
    if vars.len() == 0 {
        Ok(urls)
    } else {
        match spec_var_values(vars[0]) {
            Err(e) => Err(e),
            Ok(vals) => {
                let next = subst_each(urls, placeholder(vars[0].name@), vals);
                if next.len() > 100 {
                    Err(ConfigError::TooManyExpansions { url: orig })
                } else {
                    spec_expand_vars(next, vars.drop_first(), orig)
                }
            },
        }
    }
}

/// What expanding one server declaration yields: its URL template
/// substituted over the cartesian product of its variables' values.
pub open spec fn spec_expand(server: RawServer) -> Result<Seq<Seq<char>>, ConfigError> {
    match server.url {
        None => Err(ConfigError::MissingUrl),
        Some(u) => match server.variables {
            None => Ok(seq![u@]),
            Some(vars) => spec_expand_vars(seq![u@], vars@, u),
        },
    }
}

/// Expands one server declaration into its concrete URLs.
#[verifier::loop_isolation(false)]
pub fn expand_server_urls(server: &RawServer) -> (r: Result<Vec<String>, ConfigError>)
    ensures
        match r {
            Ok(urls) => spec_expand(*server) == Ok::<_, ConfigError>(str_views(urls@)),
            Err(e) => spec_expand(*server) == Err::<Seq<Seq<char>>, _>(e),
        },
{
    let url: &String = match &server.url {
        Some(u) => u,
        None => {
            return Err(ConfigError::MissingUrl);
        },
    };
    let vars: &Vec<RawVariable> = match &server.variables {
        Some(vs) => vs,
        None => {
            let out: Vec<String> = vec![url.clone()];
            proof {
                assert(str_views(out@) =~= seq![url@]);
            }
            return Ok(out);
        },
    };
    let mut urls: Vec<Vec<char>> = vec![str_to_chars(url.as_str())];
    proof {
        assert(views_of(urls@) =~= seq![url@]);
        assert(vars@.skip(0) =~= vars@);
    }
    let mut i: usize = 0;
    while i < vars.len()
        invariant
            i <= vars@.len(),
            spec_expand_vars(seq![url@], vars@, *url) == spec_expand_vars(
                views_of(urls@),
                vars@.skip(i as int),
                *url,
            ),
        decreases vars@.len() - i,
    {
        let ghost rem = vars@.skip(i as int);
        proof {
            assert(rem[0] == vars@[i as int]);
            assert(rem.drop_first() =~= vars@.skip(i + 1 as int));
        }
        let var = &vars[i];
        // The variable's value set.
        let mut vals: Vec<Vec<char>> = Vec::new();
        match &var.enum_values {
            Declared::Invalid => {
                return Err(ConfigError::InvalidEnumValues { variable: var.name.clone() });
            },
            Declared::List(evs) => {
                if evs.len() == 0 {
                    return Err(ConfigError::EmptyEnum { variable: var.name.clone() });
                }
                let mut k: usize = 0;
                while k < evs.len()
                    invariant
                        k <= evs@.len(),
                        views_of(vals@) =~= str_views(evs@.take(k as int)),
                    decreases evs@.len() - k,
                {
                    let nv = str_to_chars(evs[k].as_str());
                    let ghost vold = vals@;
                    vals.push(nv);
                    proof {
                        assert(views_of(vals@) =~= views_of(vold).push(nv@));
                        assert(str_views(evs@.take(k + 1 as int)) =~= str_views(
                            evs@.take(k as int),
                        ).push(evs@[k as int]@));
                    }
                    k = k + 1;
                }
                proof {
                    assert(evs@.take(evs@.len() as int) =~= evs@);
                }
            },
            Declared::Absent => {
                match &var.default_value {
                    Some(d) => {
                        vals.push(str_to_chars(d.as_str()));
                        proof {
                            assert(views_of(vals@) =~= seq![d@]);
                        }
                    },
                    None => {
                        return Err(
                            ConfigError::MissingVariableValues { variable: var.name.clone() },
                        );
                    },
                }
            },
        }
        proof {
            assert(spec_var_values(vars@[i as int]) == Ok::<_, ConfigError>(views_of(vals@)));
        }
        // The `{name}` placeholder.
        let mut ph: Vec<char> = Vec::new();
        ph.push('{');
        push_all(&mut ph, &str_to_chars(var.name.as_str()));
        ph.push('}');
        proof {
            assert(ph@ =~= placeholder(vars@[i as int].name@));
        }
        // Substitute every value into every URL.
        let mut next: Vec<Vec<char>> = Vec::new();
        let mut j: usize = 0;
        proof {
            assert(views_of(urls@).take(0) =~= Seq::<Seq<char>>::empty());
            assert(views_of(next@) =~= subst_each(views_of(urls@).take(0), ph@, views_of(vals@)));
        }
        while j < urls.len()
            invariant
                j <= urls@.len(),
                views_of(next@) =~= subst_each(
                    views_of(urls@).take(j as int),
                    ph@,
                    views_of(vals@),
                ),
            decreases urls@.len() - j,
        {
            let ghost before = views_of(next@);
            let mut k: usize = 0;
            while k < vals.len()
                invariant
                    k <= vals@.len(),
                    views_of(next@) =~= before + views_of(vals@).take(k as int).map_values(
                        |val: Seq<char>| spec_replace(urls@[j as int]@, ph@, val),
                    ),
                decreases vals@.len() - k,
            {
                let nv = replace_all(&urls[j], &ph, &vals[k]);
                let ghost nold = next@;
                next.push(nv);
                proof {
                    assert(views_of(next@) =~= views_of(nold).push(nv@));
                    assert(views_of(vals@).take(k + 1 as int).map_values(
                        |val: Seq<char>| spec_replace(urls@[j as int]@, ph@, val),
                    ) =~= views_of(vals@).take(k as int).map_values(
                        |val: Seq<char>| spec_replace(urls@[j as int]@, ph@, val),
                    ).push(spec_replace(urls@[j as int]@, ph@, views_of(vals@)[k as int])));
                }
                k = k + 1;
            }
            proof {
                assert(views_of(vals@).take(vals@.len() as int) =~= views_of(vals@));
                lemma_subst_each_push(
                    views_of(urls@).take(j as int),
                    urls@[j as int]@,
                    ph@,
                    views_of(vals@),
                );
                assert(views_of(urls@).take(j as int).push(urls@[j as int]@) =~= views_of(
                    urls@,
                ).take(j + 1 as int));
            }
            j = j + 1;
        }
        proof {
            assert(views_of(urls@).take(urls@.len() as int) =~= views_of(urls@));
        }
        if next.len() > 100 {
            return Err(ConfigError::TooManyExpansions { url: url.clone() });
        }
        urls = next;
        i = i + 1;
    }
    proof {
        assert(vars@.skip(vars@.len() as int) =~= Seq::<RawVariable>::empty());
    }
    // Convert back to strings.
    let mut out: Vec<String> = Vec::new();
    let mut k: usize = 0;
    while k < urls.len()
        invariant
            k <= urls@.len(),
            str_views(out@) =~= views_of(urls@).take(k as int),
        decreases urls@.len() - k,
    {
        out.push(chars_to_string(&urls[k]));
        proof {
            assert(str_views(out@) =~= views_of(urls@).take(k + 1 as int));
        }
        k = k + 1;
    }
    proof {
        assert(views_of(urls@).take(urls@.len() as int) =~= views_of(urls@));
    }
    Ok(out)
}

/// The server specs of one service: the expansion and parse of each of
/// its declared servers, or the single implicit spec when none are
/// declared; an empty `servers` array is an error.
pub open spec fn spec_parse_servers(svc: RawService) -> Result<Seq<SrvV>, ConfigError> {
    match svc.servers {
        Declared::Absent => Ok(seq![SrvV { host: None, base: Seq::empty() }]),
        Declared::Invalid => Err(ConfigError::InvalidServers),
        Declared::List(servers) => {
            if servers@.len() == 0 {
                Err(ConfigError::EmptyServers)
            } else {
                spec_servers_fold(servers@)
            }
        },
    }
}

/// Expansion and parsing folded over the declared servers, first error
/// wins.
pub open spec fn spec_servers_fold(servers: Seq<RawServer>) -> Result<Seq<SrvV>, ConfigError>
    decreases servers.len(),
{
    if servers.len() == 0 {
        Ok(Seq::empty())
    } else {
        match spec_expand(servers[0]) {
            Err(e) => Err(e),
            Ok(urls) => match spec_urls_fold(urls) {
                Err(e) => Err(e),
                Ok(specs) => match spec_servers_fold(servers.drop_first()) {
                    Err(e) => Err(e),
                    Ok(more) => Ok(specs + more),
                },
            },
        }
    }
}

/// URL parsing folded over one server's expanded URLs, first error wins.
pub open spec fn spec_urls_fold(urls: Seq<Seq<char>>) -> Result<Seq<SrvV>, ConfigError>
    decreases urls.len(),
{
    if urls.len() == 0 {
        Ok(Seq::empty())
    } else {
        match spec_parse_server_url(urls[0]) {
            Err(e) => Err(e),
            Ok(sv) => match spec_urls_fold(urls.drop_first()) {
                Err(e) => Err(e),
                Ok(more) => Ok(seq![sv] + more),
            },
        }
    }
}

pub proof fn lemma_urls_fold_push_ok(urls: Seq<Seq<char>>, u: Seq<char>, acc: Seq<SrvV>, sv: SrvV)
    requires
        spec_urls_fold(urls) == Ok::<_, ConfigError>(acc),
        spec_parse_server_url(u) == Ok::<SrvV, ConfigError>(sv),
    ensures
        spec_urls_fold(urls.push(u)) == Ok::<_, ConfigError>(acc.push(sv)),
    decreases urls.len(),
{
    if urls.len() == 0 {
        assert(urls.push(u).drop_first() =~= urls);
        assert(urls.push(u)[0] == u);
        assert(seq![sv] + Seq::<SrvV>::empty() =~= acc.push(sv));
    } else {
        assert(urls.push(u).drop_first() =~= urls.drop_first().push(u));
        assert(urls.push(u)[0] == urls[0]);
        let tail = spec_urls_fold(urls.drop_first());
        let sv0 = spec_parse_server_url(urls[0])->Ok_0;
        assert(tail is Ok);
        lemma_urls_fold_push_ok(urls.drop_first(), u, tail->Ok_0, sv);
        assert(seq![sv0] + tail->Ok_0.push(sv) =~= (seq![sv0] + tail->Ok_0).push(sv));
        assert(acc =~= seq![sv0] + tail->Ok_0);
    }
}

pub proof fn lemma_servers_fold_push_ok(
    servers: Seq<RawServer>,
    sv: RawServer,
    acc: Seq<SrvV>,
    specs: Seq<SrvV>,
)
    requires
        spec_servers_fold(servers) == Ok::<_, ConfigError>(acc),
        spec_expand(sv) matches Ok(urls) && spec_urls_fold(urls) == Ok::<_, ConfigError>(specs),
    ensures
        spec_servers_fold(servers.push(sv)) == Ok::<_, ConfigError>(acc + specs),
    decreases servers.len(),
{
    if servers.len() == 0 {
        assert(servers.push(sv).drop_first() =~= servers);
        assert(servers.push(sv)[0] == sv);
        assert(specs + Seq::<SrvV>::empty() =~= specs);
        assert(Seq::<SrvV>::empty() + specs =~= specs);
        assert(acc + specs =~= specs);
    } else {
        assert(servers.push(sv).drop_first() =~= servers.drop_first().push(sv));
        assert(servers.push(sv)[0] == servers[0]);
        let tail = spec_servers_fold(servers.drop_first());
        let s0 = spec_urls_fold(spec_expand(servers[0])->Ok_0)->Ok_0;
        lemma_servers_fold_push_ok(servers.drop_first(), sv, tail->Ok_0, specs);
        assert(s0 + (tail->Ok_0 + specs) =~= (s0 + tail->Ok_0) + specs);
        assert(acc =~= s0 + tail->Ok_0);
    }
}

pub proof fn lemma_servers_fold_err(servers: Seq<RawServer>, done: int, e: ConfigError)
    requires
        0 <= done <= servers.len(),
        forall|k: int|
            0 <= k < done ==> spec_expand(#[trigger] servers[k]) is Ok && spec_urls_fold(
                spec_expand(servers[k])->Ok_0,
            ) is Ok,
        done < servers.len(),
        spec_expand(servers[done]) == Err::<Seq<Seq<char>>, _>(e) || (spec_expand(
            servers[done],
        ) is Ok && spec_urls_fold(spec_expand(servers[done])->Ok_0) == Err::<Seq<SrvV>, _>(e)),
    ensures
        spec_servers_fold(servers) == Err::<Seq<SrvV>, ConfigError>(e),
    decreases servers.len(),
{
    if done == 0 {
    } else {
        assert(forall|k: int|
            0 <= k < done - 1 ==> servers.drop_first()[k] == servers[k + 1]);
        assert(servers.drop_first()[done - 1] == servers[done]);
        lemma_servers_fold_err(servers.drop_first(), done - 1, e);
    }
}

/// Expands and parses every declared server of a service; a service with
/// no `servers` gets the single implicit spec (no host, empty base path).
#[verifier::loop_isolation(false)]
pub fn parse_servers(service: &RawService) -> (r: Result<Vec<ServerSpec>, ConfigError>)
    ensures
        match r {
            Ok(specs) => spec_parse_servers(*service) == Ok::<_, ConfigError>(srv_views(specs@)),
            Err(e) => spec_parse_servers(*service) == Err::<Seq<SrvV>, _>(e),
        },
{
    let servers: &Vec<RawServer> = match &service.servers {
        Declared::List(ss) => ss,
        Declared::Invalid => {
            return Err(ConfigError::InvalidServers);
        },
        Declared::Absent => {
            let mut out: Vec<ServerSpec> = Vec::new();
            out.push(ServerSpec { host: None, base_path: String::new() });
            proof {
                assert(srv_views(out@) =~= seq![SrvV { host: None, base: Seq::empty() }]);
            }
            return Ok(out);
        },
    };
    if servers.len() == 0 {
        return Err(ConfigError::EmptyServers);
    }
    let mut specs: Vec<ServerSpec> = Vec::new();
    let mut i: usize = 0;
    proof {
        assert(servers@.take(0) =~= Seq::<RawServer>::empty());
        assert(srv_views(specs@) =~= Seq::<SrvV>::empty());
    }
    while i < servers.len()
        invariant
            i <= servers@.len(),
            spec_servers_fold(servers@.take(i as int)) == Ok::<_, ConfigError>(srv_views(specs@)),
            forall|k: int|
                0 <= k < i ==> spec_expand(#[trigger] servers@[k]) is Ok && spec_urls_fold(
                    spec_expand(servers@[k])->Ok_0,
                ) is Ok,
        decreases servers@.len() - i,
    {
        let urls = match expand_server_urls(&servers[i]) {
            Ok(us) => us,
            Err(e) => {
                proof {
                    lemma_servers_fold_err(servers@, i as int, e);
                }
                return Err(e);
            },
        };
        // Parse each expanded URL of this server.
        let mut these: Vec<ServerSpec> = Vec::new();
        let mut k: usize = 0;
        proof {
            assert(str_views(urls@).take(0) =~= Seq::<Seq<char>>::empty());
            assert(spec_urls_fold(str_views(urls@).take(0)) == Ok::<_, ConfigError>(
                srv_views(these@),
            )) by {
                assert(srv_views(these@) =~= Seq::<SrvV>::empty());
            }
        }
        while k < urls.len()
            invariant
                k <= urls@.len(),
                spec_urls_fold(str_views(urls@).take(k as int)) == Ok::<_, ConfigError>(
                    srv_views(these@),
                ),
                forall|k2: int|
                    0 <= k2 < k ==> spec_parse_server_url(#[trigger] str_views(urls@)[k2]) is Ok,
            decreases urls@.len() - k,
        {
            match parse_server_url(urls[k].as_str()) {
                Ok(sp) => {
                    let ghost acc = srv_views(these@);
                    these.push(sp);
                    proof {
                        lemma_urls_fold_push_ok(
                            str_views(urls@).take(k as int),
                            urls@[k as int]@,
                            acc,
                            sp@,
                        );
                        assert(str_views(urls@).take(k as int).push(urls@[k as int]@) =~= str_views(
                            urls@,
                        ).take(k + 1 as int));
                        assert(srv_views(these@) =~= acc.push(sp@));
                    }
                },
                Err(e) => {
                    proof {
                        lemma_urls_fold_err(str_views(urls@), k as int, e);
                        lemma_servers_fold_err(servers@, i as int, e);
                    }
                    return Err(e);
                },
            }
            k = k + 1;
        }
        proof {
            assert(str_views(urls@).take(urls@.len() as int) =~= str_views(urls@));
        }
        let ghost acc = srv_views(specs@);
        let ghost these_views = srv_views(these@);
        let mut these = these;
        specs.append(&mut these);
        proof {
            assert(srv_views(specs@) =~= acc + these_views);
            lemma_servers_fold_push_ok(
                servers@.take(i as int),
                servers@[i as int],
                acc,
                these_views,
            );
            assert(servers@.take(i as int).push(servers@[i as int]) =~= servers@.take(
                i + 1 as int,
            ));
        }
        i = i + 1;
    }
    proof {
        assert(servers@.take(servers@.len() as int) =~= servers@);
    }
    Ok(specs)
}

pub proof fn lemma_urls_fold_err(urls: Seq<Seq<char>>, done: int, e: ConfigError)
    requires
        0 <= done < urls.len(),
        forall|k: int| 0 <= k < done ==> spec_parse_server_url(#[trigger] urls[k]) is Ok,
        spec_parse_server_url(urls[done]) == Err::<SrvV, _>(e),
    ensures
        spec_urls_fold(urls) == Err::<Seq<SrvV>, ConfigError>(e),
    decreases urls.len(),
{
    if done == 0 {
    } else {
        assert(forall|k: int| 0 <= k < done - 1 ==> urls.drop_first()[k] == urls[k + 1]);
        assert(urls.drop_first()[done - 1] == urls[done]);
        lemma_urls_fold_err(urls.drop_first(), done - 1, e);
    }
}

/// Normalizes a base path on character vectors; an empty or `/`-only
/// base is stored as the empty string.
pub fn normalize_base_vec(b: &Vec<char>) -> (r: Vec<char>)
    ensures
        r@ == spec_normalize_base(b@),
{
    if b.len() == 0 {
        let out: Vec<char> = Vec::new();
        proof {
            assert(out@ =~= b@);
        }
        return out;
    }
    let n = normalize_chars(b);
    proof {
        crate::normalize::lemma_normalize_starts_slash(b@);
    }
    // A normalized path starts with '/', so length one means exactly "/".
    if n.len() == 1 {
        proof {
            assert(n@ =~= seq!['/']);
        }
        let out: Vec<char> = Vec::new();
        return out;
    }
    proof {
        assert(n@ != seq!['/']) by {
            assert(seq!['/'].len() == 1);
        }
    }
    n
}

/// Normalizes a base path; a path that normalizes to exactly `/`
/// collapses to the empty string. Always succeeds.
pub fn normalize_base_path(path: &str) -> (r: Result<String, ConfigError>)
    ensures
        r matches Ok(s) && s@ == spec_normalize_base(path@),
{
    let v = str_to_chars(path);
    let out = normalize_base_vec(&v);
    Ok(chars_to_string(&out))
}

/// Parses one concrete server URL into its `ServerSpec`.
pub fn parse_server_url(url: &str) -> (r: Result<ServerSpec, ConfigError>)
    ensures
        match r {
            Ok(s) => spec_parse_server_url(url@) == Ok::<SrvV, ConfigError>(s@),
            Err(e) => spec_parse_server_url(url@) == Err::<SrvV, ConfigError>(e),
        },
{
    let v = str_to_chars(url);
    let no_fragment = cut_at(&v, '#');
    let no_query = cut_at(&no_fragment, '?');
    let t = trim_spaces(&no_query);
    if t.len() == 0 {
        return Err(ConfigError::EmptyUrl);
    }
    let scheme_sep = str_to_chars("://");
    proof {
        reveal_strlit("://");
        assert(scheme_sep@.len() == 3);
    }
    let rest: Vec<char> = match find_sub_vec(&t, &scheme_sep) {
        Some(i) => {
            let r = sub_vec(&t, i + 3, t.len());
            proof {
                assert(r@ =~= t@.skip(i + 3 as int));
            }
            r
        },
        None => t,
    };
    if rest.len() > 0 && rest[0] == '/' {
        let base = normalize_base_vec(&rest);
        return Ok(ServerSpec { host: None, base_path: chars_to_string(&base) });
    }
    let (hostpart, basepart): (Vec<char>, Vec<char>) = match find_char_vec(&rest, '/') {
        Some(si) => {
            let h = sub_vec(&rest, 0, si);
            let b = sub_vec(&rest, si + 1, rest.len());
            proof {
                lemma_take_until_at_index(rest@, '/', si as int);
                assert(h@ =~= take_until(rest@, '/'));
                assert(has_char(rest@, '/')) by {
                    assert(rest@[si as int] == '/');
                }
                assert(b@ =~= rest@.skip(si + 1 as int));
            }
            (h, b)
        },
        None => {
            proof {
                lemma_take_until_props(rest@, '/');
                assert(take_until(rest@, '/') =~= rest@);
            }
            let empty: Vec<char> = Vec::new();
            (rest, empty)
        },
    };
    let base_raw: Vec<char> = if basepart.len() == 0 {
        Vec::new()
    } else {
        let mut br: Vec<char> = Vec::new();
        br.push('/');
        push_all(&mut br, &basepart);
        proof {
            assert(br@ =~= seq!['/'] + basepart@);
        }
        br
    };
    let host: Option<String> = if hostpart.len() == 0 {
        None
    } else {
        let hs = chars_to_string(&hostpart);
        Some(host_key(hs.as_str()))
    };
    let base = normalize_base_vec(&base_raw);
    Ok(ServerSpec { host, base_path: chars_to_string(&base) })
}

} // verus!
