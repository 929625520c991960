//! The parameterized route table: the matching scope behind one (group,
//! method) pair. A stored template matches a path when both split into
//! the same number of `/`-separated segments and each template segment
//! either equals the path segment or is a `{name}` placeholder matching
//! any non-empty segment. Among several matching templates the one
//! preferring literal segments at the earliest position wins. Two
//! templates with the same shape (placeholders at the same positions and
//! equal literals elsewhere) conflict and cannot coexist.

use vstd::prelude::*;
use vstd::string::*;
use std::rc::Rc;
use crate::config::ConfigError;
use crate::text::{split_at, split_vec, str_to_chars, views_of};

verus! {

/// The route stored at a template: the template and the owning service's
/// (shared) name.
pub struct RouteEntry {
    pub template: String,
    pub service: Rc<String>,
}

/// The mathematical content of a `RouteEntry`.
pub struct EntryV {
    pub template: Seq<char>,
    pub service: Seq<char>,
}

impl View for RouteEntry {
    type V = EntryV;

    open spec fn view(&self) -> EntryV {
        EntryV { template: self.template@, service: self.service@ }
    }
}

/// The views of a sequence of route entries.
pub open spec fn entry_views(s: Seq<RouteEntry>) -> Seq<EntryV> {
    s.map_values(|e: RouteEntry| e@)
}

/// Relies on `std::rc::Rc::clone`: the clone is the same shared value.
#[verifier::external_body]
pub(crate) fn rc_clone(x: &Rc<String>) -> (r: Rc<String>)
    ensures
        r == *x,
{
    Rc::clone(x)
}

/// Whether a template segment is a `{name}` placeholder.
pub open spec fn is_param(seg: Seq<char>) -> bool {
    seg.len() >= 2 && seg[0] == '{' && seg[seg.len() - 1] == '}'
}

/// Whether one template segment matches one path segment.
pub open spec fn seg_matches(tseg: Seq<char>, pseg: Seq<char>) -> bool {
    if is_param(tseg) {
        pseg.len() > 0
    } else {
        tseg == pseg
    }
}

/// Whether the template segments match the path segments, one for one.
pub open spec fn segs_match(ts: Seq<Seq<char>>, ps: Seq<Seq<char>>) -> bool {
    ts.len() == ps.len() && forall|i: int| 0 <= i < ts.len() ==> seg_matches(#[trigger] ts[i], ps[i])
}

/// Whether template `t` matches path `p`.
pub open spec fn tpl_matches(t: Seq<char>, p: Seq<char>) -> bool {
    segs_match(split_at(t, '/'), split_at(p, '/'))
}

/// Same shape: placeholders at the same positions, equal literals
/// elsewhere. Such templates are ambiguous within one scope.
pub open spec fn same_shape(ts: Seq<Seq<char>>, us: Seq<Seq<char>>) -> bool {
    ts.len() == us.len() && forall|i: int|
        0 <= i < ts.len() ==> (is_param(#[trigger] ts[i]) == is_param(us[i]) && (!is_param(ts[i])
            ==> ts[i] == us[i]))
}

/// Whether two templates conflict (are ambiguous) in one scope.
pub open spec fn conflicts(t1: Seq<char>, t2: Seq<char>) -> bool {
    same_shape(split_at(t1, '/'), split_at(t2, '/'))
}

/// Whether both templates place placeholders at the same positions.
pub open spec fn same_params(ts: Seq<Seq<char>>, us: Seq<Seq<char>>) -> bool {
    ts.len() == us.len() && forall|i: int|
        0 <= i < ts.len() ==> is_param(#[trigger] ts[i]) == is_param(us[i])
}

/// The matching preference: `a` is at least as preferred as `b` when, at
/// the first position where their placeholder-ness differs, `a` has the
/// literal.
pub open spec fn prio_leq(a: Seq<Seq<char>>, b: Seq<Seq<char>>) -> bool
    decreases a.len(),
{
    if a.len() == 0 || b.len() == 0 {
        true
    } else if !is_param(a[0]) && is_param(b[0]) {
        true
    } else if is_param(a[0]) && !is_param(b[0]) {
        false
    } else {
        prio_leq(a.drop_first(), b.drop_first())
    }
}

/// The preference order is reflexive.
pub proof fn lemma_prio_refl(a: Seq<Seq<char>>)
    ensures
        prio_leq(a, a),
    decreases a.len(),
{
    if a.len() > 0 {
        lemma_prio_refl(a.drop_first());
    }
}

/// The preference order is total.
pub proof fn lemma_prio_total(a: Seq<Seq<char>>, b: Seq<Seq<char>>)
    ensures
        prio_leq(a, b) || prio_leq(b, a),
    decreases a.len(),
{
    if a.len() == 0 || b.len() == 0 {
    } else if is_param(a[0]) == is_param(b[0]) {
        lemma_prio_total(a.drop_first(), b.drop_first());
    }
}

/// The preference order is transitive on equal-length segment lists.
pub proof fn lemma_prio_trans(a: Seq<Seq<char>>, b: Seq<Seq<char>>, c: Seq<Seq<char>>)
    requires
        a.len() == b.len(),
        b.len() == c.len(),
        prio_leq(a, b),
        prio_leq(b, c),
    ensures
        prio_leq(a, c),
    decreases a.len(),
{
    if a.len() == 0 {
    } else {
        if is_param(a[0]) == is_param(b[0]) && is_param(b[0]) == is_param(c[0]) {
            lemma_prio_trans(a.drop_first(), b.drop_first(), c.drop_first());
        }
    }
}

/// Mutually preferred equal-length templates place their placeholders at
/// the same positions.
pub proof fn lemma_prio_antisym(a: Seq<Seq<char>>, b: Seq<Seq<char>>)
    requires
        a.len() == b.len(),
        prio_leq(a, b),
        prio_leq(b, a),
    ensures
        same_params(a, b),
    decreases a.len(),
{
    if a.len() == 0 {
    } else {
        assert(is_param(a[0]) == is_param(b[0]));
        lemma_prio_antisym(a.drop_first(), b.drop_first());
        assert(forall|i: int|
            1 <= i < a.len() ==> a[i] == a.drop_first()[i - 1] && b[i] == b.drop_first()[i - 1]);
        assert forall|i: int| 0 <= i < a.len() implies is_param(#[trigger] a[i]) == is_param(
            b[i],
        ) by {
            if i > 0 {
                assert(is_param(a.drop_first()[i - 1]) == is_param(b.drop_first()[i - 1]));
            }
        }
    }
}

/// Two templates that match the same path with placeholders at the same
/// positions conflict.
pub proof fn lemma_matching_same_params_conflict(t1: Seq<char>, t2: Seq<char>, p: Seq<char>)
    requires
        tpl_matches(t1, p),
        tpl_matches(t2, p),
        same_params(split_at(t1, '/'), split_at(t2, '/')),
    ensures
        conflicts(t1, t2),
{
    let a = split_at(t1, '/');
    let b = split_at(t2, '/');
    let ps = split_at(p, '/');
    assert forall|i: int| 0 <= i < a.len() implies (is_param(#[trigger] a[i]) == is_param(b[i])
        && (!is_param(a[i]) ==> a[i] == b[i])) by {
        assert(seg_matches(a[i], ps[i]));
        assert(seg_matches(b[i], ps[i]));
    }
}

/// Inserting an entry into one table: any stored template of the same
/// shape — the same template again included — is a duplicate-route
/// error.
pub open spec fn tbl_insert(tbl: Seq<EntryV>, e: EntryV, path: String) -> Result<
    Seq<EntryV>,
    ConfigError,
> {
    if exists|i: int| 0 <= i < tbl.len() && conflicts(#[trigger] tbl[i].template, e.template) {
        Err(ConfigError::DuplicateRoute { path })
    } else {
        Ok(tbl.push(e))
    }
}

/// Whether no entry of the table conflicts with another.
pub open spec fn wf_entries(tbl: Seq<EntryV>) -> bool {
    forall|i: int, j: int|
        0 <= i < tbl.len() && 0 <= j < tbl.len() && i != j ==> !conflicts(
            #[trigger] tbl[i].template,
            #[trigger] tbl[j].template,
        )
}

/// Whether `e` is the table's preferred match for `p`.
pub open spec fn is_best(tbl: Seq<EntryV>, p: Seq<char>, e: EntryV) -> bool {
    tbl.contains(e) && tpl_matches(e.template, p) && forall|j: int|
        0 <= j < tbl.len() && tpl_matches(#[trigger] tbl[j].template, p) ==> prio_leq(
            split_at(e.template, '/'),
            split_at(tbl[j].template, '/'),
        )
}

/// The table's match for `p`: its preferred matching entry, if any
/// template matches.
pub open spec fn spec_lookup(tbl: Seq<EntryV>, p: Seq<char>) -> Option<EntryV> {
    if exists|e: EntryV| is_best(tbl, p, e) {
        Some(choose|e: EntryV| is_best(tbl, p, e))
    } else {
        None
    }
}

/// Matching splits have the path's segment count.
proof fn lemma_match_len(t: Seq<char>, p: Seq<char>)
    requires
        tpl_matches(t, p),
    ensures
        split_at(t, '/').len() == split_at(p, '/').len(),
{
}

/// In a well-formed table the preferred match is unique.
pub proof fn lemma_best_unique(tbl: Seq<EntryV>, p: Seq<char>, e1: EntryV, e2: EntryV)
    requires
        wf_entries(tbl),
        is_best(tbl, p, e1),
        is_best(tbl, p, e2),
    ensures
        e1 == e2,
{
    if e1 != e2 {
        let i1 = choose|i: int| 0 <= i < tbl.len() && tbl[i] == e1;
        let i2 = choose|i: int| 0 <= i < tbl.len() && tbl[i] == e2;
        assert(tbl.contains(e1));
        assert(tbl.contains(e2));
        assert(0 <= i1 < tbl.len() && tbl[i1] == e1);
        assert(0 <= i2 < tbl.len() && tbl[i2] == e2);
        assert(i1 != i2);
        assert(prio_leq(split_at(e1.template, '/'), split_at(e2.template, '/')));
        assert(prio_leq(split_at(e2.template, '/'), split_at(e1.template, '/')));
        lemma_match_len(e1.template, p);
        lemma_match_len(e2.template, p);
        lemma_prio_antisym(split_at(e1.template, '/'), split_at(e2.template, '/'));
        lemma_matching_same_params_conflict(e1.template, e2.template, p);
        assert(!conflicts(tbl[i1].template, tbl[i2].template));
        assert(false);
    }
}

/// A found preferred match determines `spec_lookup`.
pub proof fn lemma_lookup_some(tbl: Seq<EntryV>, p: Seq<char>, e: EntryV)
    requires
        wf_entries(tbl),
        is_best(tbl, p, e),
    ensures
        spec_lookup(tbl, p) == Some(e),
{
    let e2 = choose|x: EntryV| is_best(tbl, p, x);
    lemma_best_unique(tbl, p, e, e2);
}

/// When no template matches, `spec_lookup` finds nothing.
pub proof fn lemma_lookup_none(tbl: Seq<EntryV>, p: Seq<char>)
    requires
        forall|j: int| 0 <= j < tbl.len() ==> !tpl_matches(#[trigger] tbl[j].template, p),
    ensures
        spec_lookup(tbl, p) is None,
{
    assert forall|e: EntryV| !is_best(tbl, p, e) by {
        if tbl.contains(e) {
            let i = choose|i: int| 0 <= i < tbl.len() && tbl[i] == e;
        }
    }
}

/// Whether a segment is a `{name}` placeholder.
fn is_param_exec(seg: &Vec<char>) -> (r: bool)
    ensures
        r == is_param(seg@),
{
    seg.len() >= 2 && seg[0] == '{' && seg[seg.len() - 1] == '}'
}

/// Whether the split template matches the split path.
fn segs_match_exec(ts: &Vec<Vec<char>>, ps: &Vec<Vec<char>>) -> (r: bool)
    ensures
        r == segs_match(views_of(ts@), views_of(ps@)),
{
    if ts.len() != ps.len() {
        return false;
    }
    let mut i: usize = 0;
    while i < ts.len()
        invariant
            i <= ts@.len(),
            ts@.len() == ps@.len(),
            forall|j: int|
                0 <= j < i ==> seg_matches(#[trigger] views_of(ts@)[j], views_of(ps@)[j]),
        decreases ts@.len() - i,
    {
        let ok = if is_param_exec(&ts[i]) {
            ps[i].len() > 0
        } else {
            crate::text::chars_eq(&ts[i], &ps[i])
        };
        if !ok {
            proof {
                assert(!seg_matches(views_of(ts@)[i as int], views_of(ps@)[i as int]));
            }
            return false;
        }
        i = i + 1;
    }
    true
}

/// Whether the two split templates have the same shape.
fn same_shape_exec(ts: &Vec<Vec<char>>, us: &Vec<Vec<char>>) -> (r: bool)
    ensures
        r == same_shape(views_of(ts@), views_of(us@)),
{
    if ts.len() != us.len() {
        return false;
    }
    let mut i: usize = 0;
    while i < ts.len()
        invariant
            i <= ts@.len(),
            ts@.len() == us@.len(),
            forall|j: int|
                0 <= j < i ==> (is_param(#[trigger] views_of(ts@)[j]) == is_param(views_of(us@)[j])
                    && (!is_param(views_of(ts@)[j]) ==> views_of(ts@)[j] == views_of(us@)[j])),
        decreases ts@.len() - i,
    {
        let tp = is_param_exec(&ts[i]);
        let up = is_param_exec(&us[i]);
        if tp != up {
            proof {
                assert(is_param(views_of(ts@)[i as int]) != is_param(views_of(us@)[i as int]));
            }
            return false;
        }
        if !tp {
            if !crate::text::chars_eq(&ts[i], &us[i]) {
                proof {
                    assert(!is_param(views_of(ts@)[i as int]) && views_of(ts@)[i as int]
                        != views_of(us@)[i as int]);
                }
                return false;
            }
        }
        i = i + 1;
    }
    true
}

/// Whether the first split template is preferred over (or tied with) the
/// second.
#[verifier::loop_isolation(false)]
fn prio_leq_exec(a: &Vec<Vec<char>>, b: &Vec<Vec<char>>) -> (r: bool)
    ensures
        r == prio_leq(views_of(a@), views_of(b@)),
{
    let ghost av = views_of(a@);
    let ghost bv = views_of(b@);
    let mut i: usize = 0;
    proof {
        assert(av.skip(0) =~= av);
        assert(bv.skip(0) =~= bv);
    }
    while i < a.len() && i < b.len()
        invariant
            i <= av.len(),
            i <= bv.len(),
            prio_leq(av, bv) == prio_leq(av.skip(i as int), bv.skip(i as int)),
        decreases av.len() - i,
    {
        let ap = is_param_exec(&a[i]);
        let bp = is_param_exec(&b[i]);
        proof {
            assert(av.skip(i as int)[0] == av[i as int]);
            assert(bv.skip(i as int)[0] == bv[i as int]);
        }
        if !ap && bp {
            return true;
        }
        if ap && !bp {
            return false;
        }
        proof {
            assert(av.skip(i as int).drop_first() =~= av.skip(i + 1 as int));
            assert(bv.skip(i as int).drop_first() =~= bv.skip(i + 1 as int));
        }
        i = i + 1;
    }
    proof {
        assert(av.skip(i as int).len() == 0 || bv.skip(i as int).len() == 0);
    }
    true
}

/// One matching scope: the routes of one (group, method) pair.
pub struct RouteTable {
    pub entries: Vec<RouteEntry>,
}

impl View for RouteTable {
    type V = Seq<EntryV>;

    open spec fn view(&self) -> Seq<EntryV> {
        entry_views(self.entries@)
    }
}

impl RouteTable {
    /// No two stored templates are ambiguous with each other.
    pub open spec fn wf(&self) -> bool {
        wf_entries(self@)
    }

    /// An empty table.
    pub fn new() -> (r: RouteTable)
        ensures
            r@ =~= Seq::<EntryV>::empty(),
            r.wf(),
    {
        let r = RouteTable { entries: Vec::new() };
        proof {
            assert(r@ =~= Seq::<EntryV>::empty());
        }
        r
    }

    /// Inserts a route; any stored template of the same shape — the same
    /// template again included — is an error.
    #[verifier::loop_isolation(false)]
    pub fn insert_route(&mut self, template: &String, service: Rc<String>) -> (r: Result<
        (),
        ConfigError,
    >)
        requires
            old(self).wf(),
        ensures
            match r {
                Ok(()) => final(self).wf() && tbl_insert(
                    old(self)@,
                    EntryV { template: template@, service: service@ },
                    *template,
                ) == Ok::<Seq<EntryV>, ConfigError>(final(self)@),
                Err(e) => final(self)@ == old(self)@ && tbl_insert(
                    old(self)@,
                    EntryV { template: template@, service: service@ },
                    *template,
                ) == Err::<Seq<EntryV>, ConfigError>(e) && e == (ConfigError::DuplicateRoute {
                    path: *template,
                }),
            },
    {
        let ghost e = EntryV { template: template@, service: service@ };
        let tv = str_to_chars(template.as_str());
        let ts = split_vec(&tv, '/');
        let mut i: usize = 0;
        while i < self.entries.len()
            invariant
                i <= self.entries@.len(),
                *self == *old(self),
                views_of(ts@) == split_at(template@, '/'),
                forall|j: int| 0 <= j < i ==> !conflicts(#[trigger] self@[j].template, template@),
        decreases self.entries@.len() - i,
        {
            let ev = str_to_chars(self.entries[i].template.as_str());
            let es = split_vec(&ev, '/');
            if same_shape_exec(&es, &ts) {
                proof {
                    assert(conflicts(self@[i as int].template, template@));
                }
                return Err(ConfigError::DuplicateRoute { path: template.clone() });
            }
            i = i + 1;
        }
        let ghost oldv = self@;
        self.entries.push(RouteEntry { template: template.clone(), service });
        proof {
            assert(self@ =~= oldv.push(EntryV { template: template@, service: service@ }));
            assert forall|i2: int, j2: int|
                0 <= i2 < self@.len() && 0 <= j2 < self@.len() && i2 != j2 implies !conflicts(
                #[trigger] self@[i2].template,
                #[trigger] self@[j2].template,
            ) by {
                if i2 < oldv.len() && j2 < oldv.len() {
                } else if i2 == oldv.len() {
                    // conflicts is symmetric in its shape comparison
                    assert(!conflicts(oldv[j2].template, template@));
                    lemma_conflicts_sym(oldv[j2].template, template@);
                } else {
                    assert(!conflicts(oldv[i2].template, template@));
                }
            }
        }
        Ok(())
    }

    /// The preferred matching route for a (stripped, normalized) path.
    #[verifier::loop_isolation(false)]
    pub fn lookup(&self, path: &Vec<char>) -> (r: Option<RouteEntry>)
        requires
            self.wf(),
        ensures
            match r {
                Some(e) => spec_lookup(self@, path@) == Some(e@),
                None => spec_lookup(self@, path@) is None,
            },
    {
        let pp = split_vec(path, '/');
        let mut best: Option<usize> = None;
        let mut best_segs: Vec<Vec<char>> = Vec::new();
        let mut i: usize = 0;
        while i < self.entries.len()
            invariant
                i <= self.entries@.len(),
                match best {
                    Some(bi) => bi < i && tpl_matches(self@[bi as int].template, path@) && views_of(
                        best_segs@,
                    ) == split_at(self@[bi as int].template, '/') && forall|j: int|
                        0 <= j < i && tpl_matches(#[trigger] self@[j].template, path@) ==> prio_leq(
                            views_of(best_segs@),
                            split_at(self@[j].template, '/'),
                        ),
                    None => forall|j: int|
                        0 <= j < i ==> !tpl_matches(#[trigger] self@[j].template, path@),
                },
            decreases self.entries@.len() - i,
        {
            let ev = str_to_chars(self.entries[i].template.as_str());
            let es = split_vec(&ev, '/');
            if segs_match_exec(&es, &pp) {
                proof {
                    assert(tpl_matches(self@[i as int].template, path@));
                }
                match best {
                    None => {
                        proof {
                            lemma_prio_refl(views_of(es@));
                        }
                        best = Some(i);
                        best_segs = es;
                    },
                    Some(bi) => {
                        if prio_leq_exec(&es, &best_segs) {
                            proof {
                                let ghost nv = views_of(es@);
                                let ghost bv = views_of(best_segs@);
                                assert(nv == split_at(self@[i as int].template, '/'));
                                lemma_match_len(self@[bi as int].template, path@);
                                lemma_match_len(self@[i as int].template, path@);
                                assert forall|j: int|
                                    0 <= j < i + 1 && tpl_matches(
                                        #[trigger] self@[j].template,
                                        path@,
                                    ) implies prio_leq(nv, split_at(self@[j].template, '/')) by {
                                    if j < i {
                                        lemma_match_len(self@[j].template, path@);
                                        lemma_prio_trans(nv, bv, split_at(self@[j].template, '/'));
                                    } else {
                                        lemma_prio_refl(nv);
                                    }
                                }
                            }
                            best = Some(i);
                            best_segs = es;
                        } else {
                            proof {
                                lemma_prio_total(views_of(es@), views_of(best_segs@));
                                assert(prio_leq(
                                    views_of(best_segs@),
                                    split_at(self@[i as int].template, '/'),
                                ));
                            }
                        }
                    },
                }
            }
            i = i + 1;
        }
        match best {
            Some(bi) => {
                proof {
                    assert(is_best(self@, path@, self@[bi as int])) by {
                        assert(self@.contains(self@[bi as int]));
                    }
                    lemma_lookup_some(self@, path@, self@[bi as int]);
                }
                let e = RouteEntry {
                    template: self.entries[bi].template.clone(),
                    service: rc_clone(&self.entries[bi].service),
                };
                Some(e)
            },
            None => {
                proof {
                    lemma_lookup_none(self@, path@);
                }
                None
            },
        }
    }
}

/// Shape conflict is symmetric.
pub proof fn lemma_conflicts_sym(t1: Seq<char>, t2: Seq<char>)
    ensures
        conflicts(t1, t2) == conflicts(t2, t1),
{
    let a = split_at(t1, '/');
    let b = split_at(t2, '/');
    if same_shape(a, b) {
        assert(same_shape(b, a));
    }
    if same_shape(b, a) {
        assert(same_shape(a, b));
    }
}

} // verus!
