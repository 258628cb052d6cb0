//! Byte-string helpers: whitespace trimming, ASCII lowercasing and substring
//! search, each with a spec-level definition and a verified executable form.

use vstd::prelude::*;

verus! {

/// ASCII whitespace, the characters that trimming strips.
pub open spec fn is_space(b: u8) -> bool {
    b == 32 || (9 <= b && b <= 13)
}

/// `s` without its leading whitespace.
pub open spec fn trim_front(s: Seq<u8>) -> Seq<u8>
    decreases s.len(),
{
    if s.len() > 0 && is_space(s[0]) {
        trim_front(s.drop_first())
    } else {
        s
    }
}

/// `s` without its trailing whitespace.
pub open spec fn trim_back(s: Seq<u8>) -> Seq<u8>
    decreases s.len(),
{
    if s.len() > 0 && is_space(s[s.len() - 1]) {
        trim_back(s.drop_last())
    } else {
        s
    }
}

/// `s` without surrounding whitespace.
pub open spec fn trim_spec(s: Seq<u8>) -> Seq<u8> {
    trim_back(trim_front(s))
}

/// Copies `s[lo..hi]` into a fresh vector.
pub fn subrange_vec(s: &Vec<u8>, lo: usize, hi: usize) -> (out: Vec<u8>)
    requires
        lo <= hi <= s@.len(),
    ensures
        out@ == s@.subrange(lo as int, hi as int),
{
    let mut out: Vec<u8> = Vec::new();
    let mut j: usize = lo;
    while j < hi
        invariant
            lo <= j <= hi <= s@.len(),
            out@ == s@.subrange(lo as int, j as int),
        decreases hi - j,
    {
        out.push(s[j]);
        proof {
            assert(out@ =~= s@.subrange(lo as int, j + 1));
        }
        j = j + 1;
    }
    out
}

/// Strips surrounding ASCII whitespace from `s`.
pub fn trim(s: &Vec<u8>) -> (out: Vec<u8>)
    ensures
        out@ == trim_spec(s@),
{
    let ghost whole = s@;
    proof {
        assert(s@.subrange(0, s@.len() as int) =~= s@);
    }
    let mut lo: usize = 0;
    while lo < s.len() && is_space_byte(s[lo])
        invariant
            lo <= s@.len(),
            trim_front(whole) == trim_front(s@.subrange(lo as int, s@.len() as int)),
        decreases s@.len() - lo,
    {
        proof {
            let cur = s@.subrange(lo as int, s@.len() as int);
            assert(cur.drop_first() =~= s@.subrange(lo + 1, s@.len() as int));
        }
        lo = lo + 1;
    }
    proof {
        let cur = s@.subrange(lo as int, s@.len() as int);
        assert(trim_front(whole) == cur);
    }
    let mut hi: usize = s.len();
    while hi > lo && is_space_byte(s[hi - 1])
        invariant
            lo <= hi <= s@.len(),
            trim_front(whole) == s@.subrange(lo as int, s@.len() as int),
            trim_back(s@.subrange(lo as int, s@.len() as int)) == trim_back(
                s@.subrange(lo as int, hi as int),
            ),
        decreases hi,
    {
        proof {
            let cur = s@.subrange(lo as int, hi as int);
            assert(cur.drop_last() =~= s@.subrange(lo as int, hi - 1));
        }
        hi = hi - 1;
    }
    proof {
        let cur = s@.subrange(lo as int, hi as int);
        assert(trim_back(cur) == cur);
        assert(trim_spec(whole) == cur);
    }
    subrange_vec(s, lo, hi)
}

/// Executable form of `is_space`.
pub fn is_space_byte(b: u8) -> (r: bool)
    ensures
        r == is_space(b),
{
    b == 32 || (9 <= b && b <= 13)
}

/// ASCII lowercasing of a single byte.
pub open spec fn lower_byte(b: u8) -> u8 {
    if 65 <= b && b <= 90 {
        (b + 32) as u8
    } else {
        b
    }
}

/// ASCII lowercasing of a byte string.
pub open spec fn lower_spec(s: Seq<u8>) -> Seq<u8> {
    s.map_values(|b: u8| lower_byte(b))
}

/// Lowercases every ASCII letter of `s`.
pub fn to_lower(s: &Vec<u8>) -> (out: Vec<u8>)
    ensures
        out@ == lower_spec(s@),
{
    let mut out: Vec<u8> = Vec::new();
    let mut j: usize = 0;
    while j < s.len()
        invariant
            j <= s@.len(),
            out@.len() == j,
            forall|i: int| 0 <= i < j ==> out@[i] == lower_byte(s@[i]),
        decreases s@.len() - j,
    {
        let b = s[j];
        if 65 <= b && b <= 90 {
            out.push(b + 32);
        } else {
            out.push(b);
        }
        j = j + 1;
    }
    proof {
        assert(out@ =~= lower_spec(s@));
    }
    out
}

/// Whether `s` contains the byte `b`.
pub fn contains_byte(s: &Vec<u8>, b: u8) -> (r: bool)
    ensures
        r == s@.contains(b),
{
    let mut j: usize = 0;
    while j < s.len()
        invariant
            j <= s@.len(),
            forall|i: int| 0 <= i < j ==> s@[i] != b,
        decreases s@.len() - j,
    {
        if s[j] == b {
            return true;
        }
        j = j + 1;
    }
    false
}

/// The views of a sequence of byte vectors, in order.
pub open spec fn views(ls: Seq<Vec<u8>>) -> Seq<Seq<u8>> {
    ls.map_values(|l: Vec<u8>| l@)
}

/// Whether the byte strings `a` and `b` are equal.
pub fn bytes_eq(a: &Vec<u8>, b: &Vec<u8>) -> (r: bool)
    ensures
        r == (a@ == b@),
{
    if a.len() != b.len() {
        return false;
    }
    let mut j: usize = 0;
    while j < a.len()
        invariant
            a@.len() == b@.len(),
            j <= a@.len(),
            forall|i: int| 0 <= i < j ==> a@[i] == b@[i],
        decreases a@.len() - j,
    {
        if a[j] != b[j] {
            return false;
        }
        j = j + 1;
    }
    proof {
        assert(a@ =~= b@);
    }
    true
}

/// Whether `pat` occurs in `hay` starting at position `i`.
pub open spec fn match_at(hay: Seq<u8>, pat: Seq<u8>, i: int) -> bool {
    0 <= i && i + pat.len() <= hay.len() && hay.subrange(i, i + pat.len()) == pat
}

/// Position of the first occurrence of `pat` in `hay`, if any.
pub open spec fn find_sub(hay: Seq<u8>, pat: Seq<u8>) -> Option<int>
    decreases hay.len(),
{
    if pat.len() == 0 {
        Some(0)
    } else if hay.len() < pat.len() {
        None
    } else if hay.subrange(0, pat.len() as int) == pat {
        Some(0)
    } else {
        match find_sub(hay.drop_first(), pat) {
            Some(i) => Some(i + 1),
            None => None,
        }
    }
}

/// `find_sub` returns the leftmost match: a match position with no match
/// before it, or `None` when no position matches.
pub proof fn lemma_find_sub(hay: Seq<u8>, pat: Seq<u8>)
    ensures
        match find_sub(hay, pat) {
            Some(i) => match_at(hay, pat, i) && forall|j: int| 0 <= j < i ==> !match_at(hay, pat, j),
            None => forall|j: int| !match_at(hay, pat, j),
        },
    decreases hay.len(),
{
    if pat.len() == 0 {
        assert(hay.subrange(0, 0) =~= pat);
        assert(match_at(hay, pat, 0));
    } else if hay.len() < pat.len() {
        assert forall|j: int| !match_at(hay, pat, j) by {}
    } else if hay.subrange(0, pat.len() as int) == pat {
        assert(match_at(hay, pat, 0));
    } else {
        let tail = hay.drop_first();
        lemma_find_sub(tail, pat);
        assert forall|j: int| 0 <= j && j + 1 + pat.len() <= hay.len() implies match_at(
            hay,
            pat,
            j + 1,
        ) == match_at(tail, pat, j) by {
            assert(tail.subrange(j, j + pat.len()) =~= hay.subrange(j + 1, j + 1 + pat.len()));
        }
        match find_sub(tail, pat) {
            Some(i) => {
                assert(match_at(hay, pat, i + 1));
                assert forall|j: int| 0 <= j < i + 1 implies !match_at(hay, pat, j) by {
                    if j == 0 {
                        assert(hay.subrange(0, pat.len() as int) != pat);
                    } else {
                        assert(!match_at(tail, pat, j - 1));
                    }
                }
            },
            None => {
                assert forall|j: int| 0 <= j && j + pat.len() <= hay.len() implies !match_at(
                    hay,
                    pat,
                    j,
                ) by {
                    if j == 0 {
                        assert(hay.subrange(0, pat.len() as int) != pat);
                    } else {
                        assert(!match_at(tail, pat, j - 1));
                    }
                }
            },
        }
    }
}

/// A position that matches, with no match before it, is where `find_sub`
/// points.
pub proof fn lemma_find_sub_at(hay: Seq<u8>, pat: Seq<u8>, p: int)
    requires
        pat.len() >= 1,
        match_at(hay, pat, p),
        forall|j: int| 0 <= j < p ==> !match_at(hay, pat, j),
    ensures
        find_sub(hay, pat) == Some(p),
    decreases hay.len(),
{
    if p == 0 {
        assert(hay.subrange(0, pat.len() as int) == pat);
    } else {
        assert(!match_at(hay, pat, 0));
        assert(hay.subrange(0, pat.len() as int) != pat);
        let tail = hay.drop_first();
        assert(match_at(tail, pat, p - 1)) by {
            assert(tail.subrange(p - 1, p - 1 + pat.len()) =~= hay.subrange(p, p + pat.len()));
        }
        assert forall|j: int| 0 <= j < p - 1 implies !match_at(tail, pat, j) by {
            assert(tail.subrange(j, j + pat.len()) =~= hay.subrange(j + 1, j + 1 + pat.len()));
            assert(!match_at(hay, pat, j + 1));
        }
        lemma_find_sub_at(tail, pat, p - 1);
    }
}

/// Whether `pat` occurs in `hay` at position `i`, executably.
pub fn match_at_exec(hay: &Vec<u8>, pat: &Vec<u8>, i: usize) -> (r: bool)
    requires
        i + pat@.len() <= hay@.len(),
    ensures
        r == match_at(hay@, pat@, i as int),
{
    let n = hay.len();
    let mut j: usize = 0;
    while j < pat.len()
        invariant
            i + pat@.len() <= hay@.len(),
            hay@.len() == n,
            j <= pat@.len(),
            forall|k: int| 0 <= k < j ==> hay@[i + k] == pat@[k],
        decreases pat@.len() - j,
    {
        if hay[i + j] != pat[j] {
            proof {
                assert(hay@.subrange(i as int, i + pat@.len())[j as int] != pat@[j as int]);
            }
            return false;
        }
        j = j + 1;
    }
    proof {
        assert(hay@.subrange(i as int, i + pat@.len()) =~= pat@);
    }
    true
}

/// Finds the leftmost occurrence of `pat` in `hay`.
pub fn find_pattern(hay: &Vec<u8>, pat: &Vec<u8>) -> (r: Option<usize>)
    requires
        pat@.len() >= 1,
    ensures
        match r {
            Some(i) => find_sub(hay@, pat@) == Some(i as int),
            None => find_sub(hay@, pat@).is_none(),
        },
{
    proof {
        lemma_find_sub(hay@, pat@);
    }
    if hay.len() < pat.len() {
        return None;
    }
    let last = hay.len() - pat.len();
    let mut i: usize = 0;
    while i <= last
        invariant
            pat@.len() >= 1,
            pat@.len() <= hay@.len(),
            last == hay@.len() - pat@.len(),
            hay@.len() <= usize::MAX,
            i <= last + 1,
            forall|j: int| 0 <= j < i ==> !match_at(hay@, pat@, j),
        decreases last + 1 - i,
    {
        if match_at_exec(hay, pat, i) {
            proof {
                lemma_find_sub(hay@, pat@);
                match find_sub(hay@, pat@) {
                    Some(k) => {
                        if k < i {
                            assert(!match_at(hay@, pat@, k));
                        }
                        if k > i {
                            assert(!match_at(hay@, pat@, i as int));
                        }
                        assert(k == i);
                    },
                    None => {
                        assert(!match_at(hay@, pat@, i as int));
                    },
                }
            }
            return Some(i);
        }
        i = i + 1;
    }
    proof {
        lemma_find_sub(hay@, pat@);
        match find_sub(hay@, pat@) {
            Some(k) => {
                assert(match_at(hay@, pat@, k));
                assert(!match_at(hay@, pat@, k));
            },
            None => {},
        }
    }
    None
}

} // verus!
