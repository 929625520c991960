//! The path normalizer: a raw request path is truncated at the query and
//! fragment markers, its empty segments are dropped (which removes leading,
//! duplicate and trailing slashes in one step), and the remaining segments
//! are rejoined with a single `/` before each; a path with no segments
//! normalizes to `"/"`. Normalization is total and idempotent.

use vstd::prelude::*;
use crate::text::{
    chars_to_string, cut_at, has_char, lemma_split_at_glue, lemma_split_at_no_delim,
    lemma_take_until_props, push_all, split_at, split_vec, str_to_chars, take_until, views_of,
};

verus! {

/// The non-empty elements of a sequence of segments, in order.
pub open spec fn keep_nonempty(segs: Seq<Seq<char>>) -> Seq<Seq<char>>
    decreases segs.len(),
{
    if segs.len() == 0 {
        Seq::empty()
    } else if segs[0].len() > 0 {
        seq![segs[0]] + keep_nonempty(segs.drop_first())
    } else {
        keep_nonempty(segs.drop_first())
    }
}

/// Each segment, prefixed with `/`, concatenated.
pub open spec fn glue(segs: Seq<Seq<char>>) -> Seq<char>
    decreases segs.len(),
{
    if segs.len() == 0 {
        Seq::empty()
    } else {
        seq!['/'] + segs[0] + glue(segs.drop_first())
    }
}

/// The normalized form of a raw request path.
pub open spec fn spec_normalize(p: Seq<char>) -> Seq<char> {
    let q = take_until(take_until(p, '?'), '#');
    let segs = keep_nonempty(split_at(q, '/'));
    if segs.len() == 0 {
        seq!['/']
    } else {
        glue(segs)
    }
}

pub proof fn lemma_keep_nonempty_distributes(a: Seq<Seq<char>>, b: Seq<Seq<char>>)
    ensures
        keep_nonempty(a + b) =~= keep_nonempty(a) + keep_nonempty(b),
    decreases a.len(),
{
    if a.len() == 0 {
        assert(a + b =~= b);
    } else {
        assert((a + b).drop_first() =~= a.drop_first() + b);
        lemma_keep_nonempty_distributes(a.drop_first(), b);
    }
}

/// All segments that `keep_nonempty` keeps are non-empty, and a sequence
/// of non-empty segments is kept unchanged.
pub proof fn lemma_keep_nonempty_props(segs: Seq<Seq<char>>)
    ensures
        forall|i: int|
            0 <= i < keep_nonempty(segs).len() ==> #[trigger] keep_nonempty(segs)[i].len() > 0,
        (forall|i: int| 0 <= i < segs.len() ==> #[trigger] segs[i].len() > 0) ==> keep_nonempty(
            segs,
        ) =~= segs,
        forall|i: int|
            0 <= i < keep_nonempty(segs).len() ==> segs.contains(#[trigger] keep_nonempty(segs)[i]),
    decreases segs.len(),
{
    if segs.len() == 0 {
    } else {
        lemma_keep_nonempty_props(segs.drop_first());
        assert(forall|i: int|
            0 <= i < segs.drop_first().len() ==> #[trigger] segs.drop_first()[i] == segs[i + 1]);
        assert(forall|j: int|
            0 <= j < keep_nonempty(segs.drop_first()).len() ==> segs.contains(
                #[trigger] keep_nonempty(segs.drop_first())[j],
            )) by {
            assert(forall|j: int|
                0 <= j < keep_nonempty(segs.drop_first()).len() ==> segs.drop_first().contains(
                    #[trigger] keep_nonempty(segs.drop_first())[j],
                ));
            assert(forall|x: Seq<char>| segs.drop_first().contains(x) ==> segs.contains(x));
        }
    }
}

pub proof fn lemma_keep_singleton(x: Seq<char>)
    ensures
        keep_nonempty(seq![x]) =~= if x.len() > 0 {
            seq![x]
        } else {
            Seq::<Seq<char>>::empty()
        },
{
    assert(seq![x].drop_first() =~= Seq::<Seq<char>>::empty());
    assert(keep_nonempty(Seq::<Seq<char>>::empty()) =~= Seq::<Seq<char>>::empty());
}

pub proof fn lemma_glue_push(a: Seq<Seq<char>>, x: Seq<char>)
    ensures
        glue(a.push(x)) =~= glue(a) + seq!['/'] + x,
    decreases a.len(),
{
    if a.len() == 0 {
        assert(a.push(x).drop_first() =~= a);
        assert(glue(a.push(x)) =~= seq!['/'] + x);
    } else {
        assert(a.push(x).drop_first() =~= a.drop_first().push(x));
        lemma_glue_push(a.drop_first(), x);
    }
}

/// No character other than `/` and the segments' own characters occurs in
/// the glued result.
pub proof fn lemma_glue_avoids(segs: Seq<Seq<char>>, c: char)
    requires
        c != '/',
        forall|i: int| 0 <= i < segs.len() ==> !has_char(#[trigger] segs[i], c),
    ensures
        !has_char(glue(segs), c),
    decreases segs.len(),
{
    if segs.len() == 0 {
    } else {
        assert(forall|i: int|
            0 <= i < segs.drop_first().len() ==> !has_char(#[trigger] segs.drop_first()[i], c))
            by {
            assert(forall|i: int|
                0 <= i < segs.drop_first().len() ==> segs.drop_first()[i] == segs[i + 1]);
        }
        lemma_glue_avoids(segs.drop_first(), c);
        let g = glue(segs);
        let rest = glue(segs.drop_first());
        assert(!has_char(segs[0], c));
        assert forall|i: int| 0 <= i < g.len() implies g[i] != c by {
            if i == 0 {
            } else if i < 1 + segs[0].len() {
                assert(g[i] == segs[0][i - 1]);
            } else {
                assert(g[i] == rest[i - 1 - segs[0].len()]);
            }
        }
    }
}

/// Every piece of a split avoids the delimiter, and avoids any character
/// that the whole sequence avoids.
pub proof fn lemma_split_pieces_avoid(s: Seq<char>, c: char, d: char)
    requires
        !has_char(s, d),
    ensures
        forall|i: int|
            0 <= i < split_at(s, c).len() ==> !has_char(#[trigger] split_at(s, c)[i], d),
    decreases s.len(),
{
    if s.len() == 0 {
    } else {
        assert(!has_char(s.drop_first(), d)) by {
            assert(forall|i: int|
                0 <= i < s.drop_first().len() ==> s.drop_first()[i] == s[i + 1]);
        }
        lemma_split_pieces_avoid(s.drop_first(), c, d);
        let parts = split_at(s, c);
        let rest = split_at(s.drop_first(), c);
        if s[0] == c {
            assert(forall|i: int| 1 <= i < parts.len() ==> parts[i] == rest[i - 1]);
        } else {
            assert(s[0] != d);
            assert(forall|i: int| 1 <= i < parts.len() ==> parts[i] == rest[i]);
            assert(!has_char(rest[0], d));
            assert forall|j: int| 0 <= j < parts[0].len() implies parts[0][j] != d by {
                if j == 0 {
                } else {
                    assert(parts[0][j] == rest[0][j - 1]);
                }
            }
        }
    }
}

/// Every piece of a split avoids the delimiter itself.
pub proof fn lemma_split_pieces_avoid_delim(s: Seq<char>, c: char)
    ensures
        forall|i: int|
            0 <= i < split_at(s, c).len() ==> !has_char(#[trigger] split_at(s, c)[i], c),
    decreases s.len(),
{
    if s.len() == 0 {
    } else {
        lemma_split_pieces_avoid_delim(s.drop_first(), c);
        let parts = split_at(s, c);
        let rest = split_at(s.drop_first(), c);
        if s[0] == c {
            assert(forall|i: int| 1 <= i < parts.len() ==> parts[i] == rest[i - 1]);
        } else {
            assert(forall|i: int| 1 <= i < parts.len() ==> parts[i] == rest[i]);
            assert(!has_char(rest[0], c));
            assert forall|j: int| 0 <= j < parts[0].len() implies parts[0][j] != c by {
                if j == 0 {
                } else {
                    assert(parts[0][j] == rest[0][j - 1]);
                }
            }
        }
    }
}

/// Splitting the glued segments at `/` recovers the segments, after a
/// single leading empty piece.
proof fn lemma_split_of_glue_tail(segs: Seq<Seq<char>>)
    requires
        segs.len() > 0,
        forall|i: int| 0 <= i < segs.len() ==> #[trigger] segs[i].len() > 0,
        forall|i: int| 0 <= i < segs.len() ==> !has_char(#[trigger] segs[i], '/'),
    ensures
        split_at(segs[0] + glue(segs.drop_first()), '/') =~= segs,
    decreases segs.len(),
{
    let rest = segs.drop_first();
    if segs.len() == 1 {
        assert(glue(rest) =~= Seq::<char>::empty());
        assert(segs[0] + glue(rest) =~= segs[0]);
        lemma_split_at_no_delim(segs[0], '/');
        assert(seq![segs[0]] =~= segs);
    } else {
        assert(forall|i: int| 0 <= i < rest.len() ==> rest[i] == segs[i + 1]);
        lemma_split_of_glue_tail(rest);
        assert(glue(rest) =~= seq!['/'] + rest[0] + glue(rest.drop_first()));
        assert(segs[0] + glue(rest) =~= segs[0] + seq!['/'] + (rest[0] + glue(rest.drop_first())));
        lemma_split_at_glue(segs[0], rest[0] + glue(rest.drop_first()), '/');
        assert(split_at(segs[0] + glue(rest), '/') =~= seq![segs[0]] + split_at(
            rest[0] + glue(rest.drop_first()),
            '/',
        ));
        assert(seq![segs[0]] + rest =~= segs);
    }
}

/// Splitting a glued non-empty segment list at `/` gives one leading empty
/// piece followed by the segments.
pub proof fn lemma_split_of_glue(segs: Seq<Seq<char>>)
    requires
        segs.len() > 0,
        forall|i: int| 0 <= i < segs.len() ==> #[trigger] segs[i].len() > 0,
        forall|i: int| 0 <= i < segs.len() ==> !has_char(#[trigger] segs[i], '/'),
    ensures
        split_at(glue(segs), '/') =~= seq![Seq::<char>::empty()] + segs,
{
    let w = segs[0] + glue(segs.drop_first());
    assert(glue(segs) =~= Seq::<char>::empty() + seq!['/'] + w);
    lemma_split_at_glue(Seq::<char>::empty(), w, '/');
    lemma_split_of_glue_tail(segs);
}

/// A normalized path is never empty and always starts with `/`.
pub proof fn lemma_normalize_starts_slash(p: Seq<char>)
    ensures
        spec_normalize(p).len() >= 1,
        spec_normalize(p)[0] == '/',
{
    let q = take_until(take_until(p, '?'), '#');
    let segs = keep_nonempty(split_at(q, '/'));
    if segs.len() > 0 {
        assert(glue(segs) == seq!['/'] + segs[0] + glue(segs.drop_first()));
    }
}

/// Normalization is idempotent.
pub proof fn lemma_normalize_idempotent(p: Seq<char>)
    ensures
        spec_normalize(spec_normalize(p)) == spec_normalize(p),
{
    let q = take_until(take_until(p, '?'), '#');
    let segs = keep_nonempty(split_at(q, '/'));
    let np = spec_normalize(p);

    lemma_take_until_props(p, '?');
    lemma_take_until_props(take_until(p, '?'), '#');
    // q avoids '?' and '#'
    assert(!has_char(q, '?')) by {
        assert(forall|i: int| 0 <= i < q.len() ==> q[i] == take_until(p, '?')[i]);
    }
    assert(!has_char(q, '#'));

    lemma_split_pieces_avoid(q, '/', '?');
    lemma_split_pieces_avoid(q, '/', '#');
    lemma_split_pieces_avoid_delim(q, '/');
    lemma_keep_nonempty_props(split_at(q, '/'));

    if segs.len() == 0 {
        // np == "/": its query/fragment prefix is itself, it splits into
        // two empty pieces, and no segment remains.
        assert(np =~= seq!['/']);
        assert(!has_char(np, '?'));
        assert(!has_char(np, '#'));
        lemma_take_until_props(np, '?');
        lemma_take_until_props(take_until(np, '?'), '#');
        assert(take_until(take_until(np, '?'), '#') =~= np);
        assert(np.drop_first() =~= Seq::<char>::empty());
        assert(split_at(Seq::<char>::empty(), '/') =~= seq![Seq::<char>::empty()]);
        assert(split_at(np, '/') =~= seq![Seq::<char>::empty(), Seq::<char>::empty()]);
        assert(keep_nonempty(split_at(np, '/')) =~= Seq::<Seq<char>>::empty()) by {
            assert(split_at(np, '/').drop_first() =~= seq![Seq::<char>::empty()]);
            lemma_keep_singleton(Seq::<char>::empty());
        }
    } else {
        assert(np == glue(segs));
        // The segments avoid '?', '#', '/'; hence so does np.
        assert(forall|i: int| 0 <= i < segs.len() ==> !has_char(#[trigger] segs[i], '?'));
        assert(forall|i: int| 0 <= i < segs.len() ==> !has_char(#[trigger] segs[i], '#'));
        assert(forall|i: int| 0 <= i < segs.len() ==> !has_char(#[trigger] segs[i], '/'));
        lemma_glue_avoids(segs, '?');
        lemma_glue_avoids(segs, '#');
        lemma_take_until_props(np, '?');
        lemma_take_until_props(take_until(np, '?'), '#');
        assert(!has_char(take_until(np, '?'), '#'));
        assert(take_until(take_until(np, '?'), '#') =~= np);
        lemma_split_of_glue(segs);
        assert(keep_nonempty(split_at(np, '/')) =~= segs) by {
            assert(split_at(np, '/') =~= seq![Seq::<char>::empty()] + segs);
            lemma_keep_nonempty_distributes(seq![Seq::<char>::empty()], segs);
            lemma_keep_singleton(Seq::<char>::empty());
            lemma_keep_nonempty_props(segs);
        }
        assert(spec_normalize(np) == glue(segs));
    }
}

/// Normalizes a raw request path on its character vector form.
pub fn normalize_chars(v: &Vec<char>) -> (r: Vec<char>)
    ensures
        r@ == spec_normalize(v@),
{
    let no_query = cut_at(v, '?');
    let q = cut_at(&no_query, '#');
    let parts = split_vec(&q, '/');
    let ghost all_segs = keep_nonempty(split_at(q@, '/'));
    let mut out: Vec<char> = Vec::new();
    let mut i: usize = 0;
    proof {
        assert(views_of(parts@.take(0)) =~= Seq::<Seq<char>>::empty());
    }
    while i < parts.len()
        invariant
            i <= parts@.len(),
            views_of(parts@) == split_at(q@, '/'),
            out@ =~= glue(keep_nonempty(views_of(parts@.take(i as int)))),
        decreases parts@.len() - i,
    {
        let ghost pre = keep_nonempty(views_of(parts@.take(i as int)));
        proof {
            assert(views_of(parts@.take(i + 1 as int)) =~= views_of(parts@.take(i as int)).push(
                parts@[i as int]@,
            ));
            lemma_keep_nonempty_distributes(
                views_of(parts@.take(i as int)),
                seq![parts@[i as int]@],
            );
            assert(views_of(parts@.take(i as int)) + seq![parts@[i as int]@] =~= views_of(
                parts@.take(i + 1 as int),
            ));
        }
        if parts[i].len() > 0 {
            proof {
                lemma_keep_singleton(parts@[i as int]@);
                assert(keep_nonempty(views_of(parts@.take(i + 1 as int))) =~= pre.push(
                    parts@[i as int]@,
                ));
                lemma_glue_push(pre, parts@[i as int]@);
            }
            out.push('/');
            push_all(&mut out, &parts[i]);
        } else {
            proof {
                lemma_keep_singleton(parts@[i as int]@);
                assert(keep_nonempty(views_of(parts@.take(i + 1 as int))) =~= pre);
            }
        }
        i = i + 1;
    }
    proof {
        assert(parts@.take(parts@.len() as int) =~= parts@);
    }
    if out.len() == 0 {
        proof {
            assert(glue(all_segs).len() == 0 ==> all_segs.len() == 0);
        }
        out.push('/');
        proof {
            assert(out@ =~= seq!['/']);
        }
    } else {
        proof {
            assert(all_segs.len() > 0);
        }
    }
    out
}

/// Canonicalizes a raw request path: the query and fragment are removed,
/// empty segments are dropped, and what remains is `/`-joined; a path with
/// no segments becomes `"/"`.
pub fn normalize_path(path: &str) -> (r: String)
    ensures
        r@ == spec_normalize(path@),
{
    let v = str_to_chars(path);
    let out = normalize_chars(&v);
    chars_to_string(&out)
}

} // verus!
