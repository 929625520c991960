//! Host-name handling: removing a trailing `:<digits>` port (with care for
//! bracketed IPv6 literals) and deriving the canonical lower-cased,
//! port-stripped host key under which route groups are bucketed.

use vstd::prelude::*;
use vstd::string::*;
use crate::text::{has_char, lemma_take_until_at_index, lower_chars, str_to_chars, take_until};

verus! {

/// The largest index at which `c` occurs in `s`, or `-1`.
pub open spec fn last_index_of(s: Seq<char>, c: char) -> int
    decreases s.len(),
{
    if s.len() == 0 {
        -1
    } else if s[s.len() - 1] == c {
        s.len() - 1
    } else {
        last_index_of(s.drop_last(), c)
    }
}

pub proof fn lemma_last_index_of(s: Seq<char>, c: char)
    ensures
        -1 <= last_index_of(s, c) < s.len(),
        last_index_of(s, c) >= 0 ==> s[last_index_of(s, c)] == c,
        forall|j: int| last_index_of(s, c) < j < s.len() ==> s[j] != c,
    decreases s.len(),
{
    if s.len() == 0 {
    } else if s[s.len() - 1] == c {
    } else {
        lemma_last_index_of(s.drop_last(), c);
        assert(forall|j: int| 0 <= j < s.len() - 1 ==> s.drop_last()[j] == s[j]);
    }
}

/// Whether every character of `s` is an ASCII digit.
pub open spec fn all_digits(s: Seq<char>) -> bool {
    forall|i: int| 0 <= i < s.len() ==> '0' <= #[trigger] s[i] && s[i] <= '9'
}

/// The host without its trailing `:<digits>` port. A bracketed IPv6
/// literal is cut after its closing bracket; a colon whose right side is
/// empty or not all digits is kept.
pub open spec fn spec_strip_port(h: Seq<char>) -> Seq<char> {
    if h.len() > 0 && h[0] == '[' {
        if has_char(h, ']') {
            take_until(h, ']') + seq![']']
        } else {
            h
        }
    } else {
        let i = last_index_of(h, ':');
        if i >= 0 && i + 1 < h.len() && all_digits(h.skip(i + 1)) {
            h.take(i)
        } else {
            h
        }
    }
}

/// The canonical key under which a host is looked up: lower-cased, then
/// port-stripped.
pub open spec fn spec_host_key(h: Seq<char>) -> Seq<char> {
    spec_strip_port(lower_chars(h))
}

/// Removes a trailing `:<digits>` port from a host string; a bracketed
/// IPv6 host is truncated after its closing bracket.
#[verifier::loop_isolation(false)]
pub fn strip_port(host: &str) -> (r: &str)
    ensures
        r@ == spec_strip_port(host@),
{
    let v = str_to_chars(host);
    if v.len() > 0 && v[0] == '[' {
        // Find the closing bracket.
        let mut i: usize = 0;
        while i < v.len()
            invariant
                i <= v@.len(),
                v@ == host@,
                forall|j: int| 0 <= j < i ==> v@[j] != ']',
            decreases v@.len() - i,
        {
            if v[i] == ']' {
                proof {
                    assert(has_char(v@, ']')) by {
                        assert(v@[i as int] == ']');
                    }
                    lemma_take_until_at_index(v@, ']', i as int);
                    assert(take_until(v@, ']') + seq![']'] =~= v@.take(i + 1 as int));
                }
                return host.substring_char(0, i + 1);
            }
            i = i + 1;
        }
        proof {
            assert(!has_char(v@, ']'));
        }
        return host;
    }
    // Find the last colon.
    let mut i: usize = v.len();
    while i > 0
        invariant
            i <= v@.len(),
            v@ == host@,
            forall|j: int| i <= j < v@.len() ==> v@[j] != ':',
        decreases i,
    {
        if v[i - 1] == ':' {
            proof {
                lemma_last_index_of(v@, ':');
                assert(last_index_of(v@, ':') == i - 1) by {
                    lemma_last_index_of(v@, ':');
                    let li = last_index_of(v@, ':');
                    assert(li >= 0);
                    if li < i - 1 {
                        assert(v@[i - 1] != ':');
                    }
                    if li > i - 1 {
                        assert(v@[li] != ':');
                    }
                }
            }
            // Check that the part after the colon is a non-empty digit run.
            if i == v.len() {
                return host;
            }
            let mut k: usize = i;
            while k < v.len()
                invariant
                    i <= k <= v@.len(),
                    v@ == host@,
                    forall|j: int| i <= j < k ==> '0' <= #[trigger] v@[j] && v@[j] <= '9',
                decreases v@.len() - k,
            {
                if v[k] < '0' || v[k] > '9' {
                    proof {
                        assert(!all_digits(v@.skip(i as int))) by {
                            assert(v@.skip(i as int)[k - i] == v@[k as int]);
                        }
                    }
                    return host;
                }
                k = k + 1;
            }
            proof {
                assert(all_digits(v@.skip(i as int))) by {
                    assert(forall|j: int|
                        0 <= j < v@.skip(i as int).len() ==> v@.skip(i as int)[j] == v@[j + i]);
                }
            }
            return host.substring_char(0, i - 1);
        }
        i = i - 1;
    }
    proof {
        lemma_last_index_of(v@, ':');
        assert(last_index_of(v@, ':') == -1) by {
            lemma_last_index_of(v@, ':');
            let li = last_index_of(v@, ':');
            if li >= 0 {
                assert(v@[li] != ':');
            }
        }
    }
    host
}

/// The canonical lookup key for a host: lower-cased and port-stripped.
pub fn host_key(host: &str) -> (r: String)
    ensures
        r@ == spec_host_key(host@),
{
    let lowered = crate::text::lower_str_owned(host);
    let stripped = strip_port(lowered.as_str());
    stripped.to_owned()
}

} // verus!
