//! Character-level scanning helpers shared by the markdown parsers:
//! whitespace skipping, token boundaries, substring search and trimming.

use vstd::prelude::*;
use vstd::string::*;

verus! {

/// The whitespace characters recognized when trimming text and when
/// splitting a header into tokens.
pub open spec fn is_ws_char(c: char) -> bool {
    c == ' ' || c == '\t' || c == '\n' || c == '\r' || c == '\x0c'
}

/// First index at or after `i` holding a non-whitespace character, or the
/// end of `s` if there is none.
pub open spec fn skip_ws_from(s: Seq<char>, i: int) -> int
    decreases s.len() - i,
{
    if 0 <= i < s.len() {
        if is_ws_char(s[i]) {
            skip_ws_from(s, i + 1)
        } else {
            i
        }
    } else {
        i
    }
}

pub proof fn lemma_skip_ws_from_bounds(s: Seq<char>, i: int)
    requires
        0 <= i <= s.len(),
    ensures
        i <= skip_ws_from(s, i) <= s.len(),
    decreases s.len() - i,
{
    if i < s.len() && is_ws_char(s[i]) {
        lemma_skip_ws_from_bounds(s, i + 1);
    }
}

/// First index at or after `i` holding a whitespace character, or the end
/// of `s`: the end of the token that starts at `i`.
pub open spec fn token_end_from(s: Seq<char>, i: int) -> int
    decreases s.len() - i,
{
    if 0 <= i < s.len() {
        if !is_ws_char(s[i]) {
            token_end_from(s, i + 1)
        } else {
            i
        }
    } else {
        i
    }
}

pub proof fn lemma_token_end_from_bounds(s: Seq<char>, i: int)
    requires
        0 <= i <= s.len(),
    ensures
        i <= token_end_from(s, i) <= s.len(),
    decreases s.len() - i,
{
    if i < s.len() && !is_ws_char(s[i]) {
        lemma_token_end_from_bounds(s, i + 1);
    }
}

/// Scanning down from `j`: the index just past the last non-whitespace
/// character strictly before `j`, or 0 if there is none.
pub open spec fn trim_end_from(s: Seq<char>, j: int) -> int
    decreases j,
{
    if 0 < j <= s.len() {
        if is_ws_char(s[j - 1]) {
            trim_end_from(s, j - 1)
        } else {
            j
        }
    } else if j <= 0 {
        0
    } else {
        j
    }
}

/// `s` with leading and trailing whitespace removed.
pub open spec fn spec_trim(s: Seq<char>) -> Seq<char> {
    let a = skip_ws_from(s, 0);
    let b = trim_end_from(s, s.len() as int);
    if a <= b {
        s.subrange(a, b)
    } else {
        Seq::empty()
    }
}

/// The pattern `p` occurs in `s` starting at index `i`.
pub open spec fn match_at(s: Seq<char>, p: Seq<char>, i: int) -> bool {
    0 <= i && i + p.len() <= s.len() && s.subrange(i, i + p.len() as int) == p
}

/// Index of the first occurrence of `p` in `s` at or after `i`, if any.
pub open spec fn find_from(s: Seq<char>, p: Seq<char>, i: int) -> Option<int>
    decreases s.len() + 1 - i,
{
    if i + p.len() > s.len() {
        None
    } else if match_at(s, p, i) {
        Some(i)
    } else {
        find_from(s, p, i + 1)
    }
}

/// A found index marks an occurrence of the pattern, and nothing
/// matches before it.
pub proof fn lemma_find_from_is_match(s: Seq<char>, p: Seq<char>, i: int, n: int)
    requires
        find_from(s, p, i) == Some(n),
    ensures
        i <= n,
        match_at(s, p, n),
        forall|j: int| i <= j < n ==> !match_at(s, p, j),
    decreases s.len() + 1 - i,
{
    if i + p.len() > s.len() {
    } else if match_at(s, p, i) {
    } else {
        lemma_find_from_is_match(s, p, i + 1, n);
    }
}

fn is_ws(c: char) -> (r: bool)
    ensures
        r == is_ws_char(c),
{
    c == ' ' || c == '\t' || c == '\n' || c == '\r' || c == '\x0c'
}

/// Advance `from` past whitespace.
pub fn skip_ws(s: &str, from: usize) -> (r: usize)
    requires
        from <= s@.len(),
    ensures
        r as int == skip_ws_from(s@, from as int),
        from <= r <= s@.len(),
{
    let len = s.unicode_len();
    let mut i = from;
    while i < len && is_ws(s.get_char(i))
        invariant
            from <= i <= len,
            len == s@.len(),
            skip_ws_from(s@, from as int) == skip_ws_from(s@, i as int),
        decreases len - i,
    {
        i = i + 1;
    }
    proof {
        lemma_skip_ws_from_bounds(s@, i as int);
    }
    i
}

/// Advance `from` to the end of the token that starts there.
pub fn token_end(s: &str, from: usize) -> (r: usize)
    requires
        from <= s@.len(),
    ensures
        r as int == token_end_from(s@, from as int),
        from <= r <= s@.len(),
{
    let len = s.unicode_len();
    let mut i = from;
    while i < len && !is_ws(s.get_char(i))
        invariant
            from <= i <= len,
            len == s@.len(),
            token_end_from(s@, from as int) == token_end_from(s@, i as int),
        decreases len - i,
    {
        i = i + 1;
    }
    proof {
        lemma_token_end_from_bounds(s@, i as int);
    }
    i
}

/// Whether two string slices hold the same characters.
pub fn str_eq(a: &str, b: &str) -> (r: bool)
    ensures
        r == (a@ == b@),
{
    let alen = a.unicode_len();
    let blen = b.unicode_len();
    if alen != blen {
        return false;
    }
    let mut i: usize = 0;
    while i < alen
        invariant
            i <= alen,
            alen == a@.len(),
            alen == b@.len(),
            forall|j: int| 0 <= j < i ==> a@[j] == b@[j],
        decreases alen - i,
    {
        if a.get_char(i) != b.get_char(i) {
            return false;
        }
        i = i + 1;
    }
    proof {
        assert(a@ =~= b@);
    }
    true
}

fn match_at_exec(s: &str, p: &str, i: usize) -> (r: bool)
    requires
        i + p@.len() <= s@.len(),
    ensures
        r == match_at(s@, p@, i as int),
{
    let slen = s.unicode_len();
    let plen = p.unicode_len();
    let mut j: usize = 0;
    while j < plen
        invariant
            j <= plen,
            plen == p@.len(),
            slen == s@.len(),
            i + plen <= slen,
            forall|k: int| 0 <= k < j ==> s@[i + k] == p@[k],
        decreases plen - j,
    {
        if s.get_char(i + j) != p.get_char(j) {
            proof {
                assert(s@.subrange(i as int, i + p@.len() as int)[j as int] == s@[i + j]);
            }
            return false;
        }
        j = j + 1;
    }
    proof {
        assert(s@.subrange(i as int, i + p@.len() as int) =~= p@);
    }
    true
}

/// Index of the first occurrence of `p` in `s`, if any.
pub fn find_str(s: &str, p: &str) -> (r: Option<usize>)
    ensures
        match r {
            Some(n) => find_from(s@, p@, 0) == Some(n as int),
            None => find_from(s@, p@, 0) is None,
        },
{
    let slen = s.unicode_len();
    let plen = p.unicode_len();
    if plen > slen {
        return None;
    }
    if plen == 0 {
        proof {
            assert(s@.subrange(0, 0) =~= p@);
        }
        return Some(0);
    }
    let mut i: usize = 0;
    while i <= slen - plen
        invariant
            1 <= plen <= slen,
            slen == s@.len(),
            plen == p@.len(),
            i <= slen - plen + 1,
            find_from(s@, p@, 0) == find_from(s@, p@, i as int),
        decreases slen + 1 - plen - i,
    {
        if match_at_exec(s, p, i) {
            return Some(i);
        }
        i = i + 1;
    }
    None
}

/// Copy of `s` with leading and trailing whitespace removed.
pub fn trim_str(s: &str) -> (r: String)
    ensures
        r@ == spec_trim(s@),
{
    let len = s.unicode_len();
    let a = skip_ws(s, 0);
    let mut b = len;
    while b > 0 && is_ws(s.get_char(b - 1))
        invariant
            b <= len,
            len == s@.len(),
            trim_end_from(s@, len as int) == trim_end_from(s@, b as int),
        decreases b,
    {
        b = b - 1;
    }
    if a < b {
        s.substring_char(a, b).to_owned()
    } else {
        proof {
            if a <= trim_end_from(s@, s@.len() as int) {
                assert(spec_trim(s@) =~= Seq::<char>::empty());
            }
        }
        String::new()
    }
}

} // verus!
