//! Endpoint rewriting for virtual-hosted bucket URLs: the bucket name moves
//! into the host part of the endpoint.

use vstd::prelude::*;

verus! {

/// The characters of `https`.
pub open spec fn https_chars() -> Seq<char> {
    seq!['h', 't', 't', 'p', 's']
}

/// The characters of `https://`.
pub open spec fn https_scheme_chars() -> Seq<char> {
    seq!['h', 't', 't', 'p', 's', ':', '/', '/']
}

/// The characters of `http://`.
pub open spec fn http_scheme_chars() -> Seq<char> {
    seq!['h', 't', 't', 'p', ':', '/', '/']
}

/// Position of the first occurrence of `pat` in `s`, if any.
pub open spec fn spec_find_first(s: Seq<char>, pat: Seq<char>) -> Option<int>
    decreases s.len(),
{
    if pat.len() > s.len() {
        None
    } else if s.take(pat.len() as int) == pat {
        Some(0int)
    } else if s.len() == 0 {
        None
    } else {
        match spec_find_first(s.drop_first(), pat) {
            None => None,
            Some(i) => Some(i + 1),
        }
    }
}

/// `s` with its first occurrence of `pat` removed, or `s` itself when `pat`
/// does not occur.
pub open spec fn spec_remove_first(s: Seq<char>, pat: Seq<char>) -> Seq<char> {
    match spec_find_first(s, pat) {
        None => s,
        Some(i) => s.take(i) + s.skip(i + pat.len()),
    }
}

/// The normalized endpoint: the bucket name becomes the first host label.
/// An endpoint that starts with `https` keeps the secure scheme; any other
/// endpoint gets the plain one. The scheme occurrence inside the endpoint
/// is removed, so `scheme://host` becomes `scheme://bucket.host`.
pub open spec fn spec_normalize_endpoint(endpoint: Seq<char>, bucket: Seq<char>) -> Seq<char> {
    if endpoint.len() >= 5 && endpoint.take(5) == https_chars() {
        https_scheme_chars() + bucket + seq!['.'] + spec_remove_first(
            endpoint,
            https_scheme_chars(),
        )
    } else {
        http_scheme_chars() + bucket + seq!['.'] + spec_remove_first(endpoint, http_scheme_chars())
    }
}

/// Whether `pat` occurs in `s` at position `at`.
fn occurs_at(s: &str, pat: &str, at: usize) -> (r: bool)
    requires
        at + pat@.len() <= s@.len(),
    ensures
        r == (s@.subrange(at as int, at + pat@.len()) == pat@),
{
    let slen = s.unicode_len();
    let plen = pat.unicode_len();
    let mut k: usize = 0;
    while k < plen
        invariant
            slen == s@.len(),
            plen == pat@.len(),
            at + plen <= s@.len(),
            k <= plen,
            forall|m: int| 0 <= m < k ==> s@[at + m] == pat@[m],
        decreases plen - k,
    {
        if s.get_char(at + k) != pat.get_char(k) {
            proof {
                assert(s@.subrange(at as int, at + pat@.len())[k as int] != pat@[k as int]);
            }
            return false;
        }
        k = k + 1;
    }
    proof {
        assert(s@.subrange(at as int, at + pat@.len()) =~= pat@);
    }
    true
}

/// Position of the first occurrence of `pat` in `s`, if any.
fn find_first(s: &str, pat: &str) -> (r: Option<usize>)
    ensures
        match spec_find_first(s@, pat@) {
            None => r is None,
            Some(i) => r is Some && r->0 == i,
        },
{
    let slen = s.unicode_len();
    let plen = pat.unicode_len();
    if plen > slen {
        proof {
            assert(spec_find_first(s@, pat@) is None);
        }
        return None;
    }
    let mut at: usize = 0;
    proof {
        lemma_find_skip_chars(s@, pat@, 0);
    }
    while at <= slen - plen
        invariant
            slen == s@.len(),
            plen == pat@.len(),
            plen <= slen,
            at <= slen,
            forall|m: int|
                0 <= m < at ==> #[trigger] s@.subrange(m, m + pat@.len()) != pat@,
            spec_find_first(s@, pat@) == shift_find_chars(
                spec_find_first(s@.skip(at as int), pat@),
                at as int,
            ),
        decreases slen - at,
    {
        if occurs_at(s, pat, at) {
            proof {
                assert(s@.skip(at as int).take(pat@.len() as int) =~= s@.subrange(
                    at as int,
                    at + pat@.len(),
                ));
                assert(spec_find_first(s@.skip(at as int), pat@) == Some(0int));
            }
            return Some(at);
        }
        proof {
            assert(s@.skip(at as int).take(pat@.len() as int) =~= s@.subrange(
                at as int,
                at + pat@.len(),
            ));
            if plen == 0 {
                assert(s@.subrange(at as int, at as int + pat@.len()) =~= pat@);
                assert(false);
            }
            assert(s@.skip(at as int).len() > 0);
            assert(s@.skip(at as int).drop_first() =~= s@.skip(at as int + 1));
            assert(s@.skip(at as int).len() >= pat@.len());
        }
        at = at + 1;
    }
    proof {
        assert(spec_find_first(s@.skip(at as int), pat@) is None) by {
            assert(s@.skip(at as int).len() < pat@.len());
        }
    }
    None
}

/// Lifts a position found in a suffix back to the whole string.
pub open spec fn shift_find_chars(r: Option<int>, i: int) -> Option<int> {
    match r {
        None => None,
        Some(m) => Some(m + i),
    }
}

/// A scan that found no occurrence before `i` finds the pattern exactly
/// where the suffix scan finds it.
proof fn lemma_find_skip_chars(s: Seq<char>, pat: Seq<char>, i: int)
    requires
        0 <= i <= s.len(),
        forall|m: int| 0 <= m < i ==> #[trigger] s.subrange(m, m + pat.len()) != pat,
    ensures
        spec_find_first(s, pat) == shift_find_chars(spec_find_first(s.skip(i), pat), i),
    decreases i,
{
    if i == 0 {
        assert(s.skip(0) =~= s);
    } else {
        lemma_find_skip_chars(s, pat, i - 1);
        let t = s.skip(i - 1);
        if pat.len() > t.len() {
            assert(s.skip(i).len() < pat.len());
        } else {
            assert(t.take(pat.len() as int) =~= s.subrange(i - 1, i - 1 + pat.len()));
            assert(t.drop_first() =~= s.skip(i));
        }
    }
}

/// Remove the first occurrence of `pat` from `s`, as a fresh string.
fn remove_first(s: &str, pat: &str) -> (r: String)
    ensures
        r@ == spec_remove_first(s@, pat@),
{
    let slen = s.unicode_len();
    match find_first(s, pat) {
        None => {
            let r = s.substring_char(0, slen);
            proof {
                assert(r@ =~= s@);
            }
            String::from_str(r)
        },
        Some(at) => {
            proof {
                lemma_find_in_range(s@, pat@);
            }
            let mut r = String::from_str(s.substring_char(0, at));
            let plen = pat.unicode_len();
            r.append(s.substring_char(at + plen, slen));
            proof {
                assert(r@ =~= spec_remove_first(s@, pat@));
            }
            r
        },
    }
}

/// A found occurrence lies inside the string.
proof fn lemma_find_in_range(s: Seq<char>, pat: Seq<char>)
    ensures
        match spec_find_first(s, pat) {
            Some(i) => 0 <= i && i + pat.len() <= s.len() && s.subrange(i, i + pat.len()) == pat,
            None => true,
        },
    decreases s.len(),
{
    if pat.len() <= s.len() {
        if s.take(pat.len() as int) == pat {
            assert(s.subrange(0, pat.len() as int) =~= s.take(pat.len() as int));
        } else if s.len() > 0 {
            lemma_find_in_range(s.drop_first(), pat);
            match spec_find_first(s.drop_first(), pat) {
                Some(i) => {
                    assert(s.subrange(i + 1, i + 1 + pat.len()) =~= s.drop_first().subrange(
                        i,
                        i + pat.len(),
                    ));
                },
                None => {},
            }
        }
    }
}

/// Rewrite an endpoint for virtual-hosted bucket access: the bucket name
/// becomes the first host label, under the endpoint's scheme (`https` is
/// kept, anything else becomes `http`).
pub fn normalize_endpoint(endpoint: &str, bucket: &str) -> (r: String)
    ensures
        r@ == spec_normalize_endpoint(endpoint@, bucket@),
{
    proof {
        reveal_strlit("https");
        reveal_strlit("https://");
        reveal_strlit("http://");
        reveal_strlit(".");
    }
    let elen = endpoint.unicode_len();
    let is_https = elen >= 5 && occurs_at(endpoint, "https", 0);
    proof {
        assert("https"@ =~= https_chars());
        assert("https://"@ =~= https_scheme_chars());
        assert("http://"@ =~= http_scheme_chars());
        if elen >= 5 {
            assert(endpoint@.subrange(0, 5) =~= endpoint@.take(5));
        }
    }
    if is_https {
        let mut r = String::from_str("https://");
        r.append(bucket);
        r.append(".");
        let stripped = remove_first(endpoint, "https://");
        r.append(stripped.as_str());
        proof {
            assert(r@ =~= spec_normalize_endpoint(endpoint@, bucket@));
        }
        r
    } else {
        let mut r = String::from_str("http://");
        r.append(bucket);
        r.append(".");
        let stripped = remove_first(endpoint, "http://");
        r.append(stripped.as_str());
        proof {
            assert(r@ =~= spec_normalize_endpoint(endpoint@, bucket@));
        }
        r
    }
}

} // verus!
