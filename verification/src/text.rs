//! Character-level text utilities: whitespace trimming and character
//! search, as specification functions over `Seq<char>` together with
//! verified executable counterparts working on `&str` ranges.

use vstd::prelude::*;
use vstd::string::StrSliceExecFns;

verus! {

/// The characters treated as insignificant whitespace at line edges.
/// A carriage return counts so that CRLF line endings are handled.
pub open spec fn is_ws(c: char) -> bool {
    c == ' ' || c == '\t' || c == '\r'
}

/// `s` with its leading whitespace removed.
pub open spec fn trim_start(s: Seq<char>) -> Seq<char>
    decreases s.len(),
{
    if s.len() > 0 && is_ws(s[0]) {
        trim_start(s.subrange(1, s.len() as int))
    } else {
        s
    }
}

/// `s` with its trailing whitespace removed.
pub open spec fn trim_end(s: Seq<char>) -> Seq<char>
    decreases s.len(),
{
    if s.len() > 0 && is_ws(s[s.len() - 1]) {
        trim_end(s.subrange(0, s.len() - 1))
    } else {
        s
    }
}

/// `s` with leading and trailing whitespace removed.
pub open spec fn trim(s: Seq<char>) -> Seq<char> {
    trim_end(trim_start(s))
}

/// Index of the first occurrence of `c` in `s`, or `-1` if absent.
pub open spec fn find_char(s: Seq<char>, c: char) -> int
    decreases s.len(),
{
    if s.len() == 0 {
        -1
    } else if s[0] == c {
        0
    } else {
        let r = find_char(s.subrange(1, s.len() as int), c);
        if r < 0 {
            -1
        } else {
            r + 1
        }
    }
}

/// `find_char` returns either `-1` with no occurrence of `c` in `s`,
/// or the position of the first occurrence.
pub proof fn lemma_find_char(s: Seq<char>, c: char)
    ensures
        find_char(s, c) == -1 || (0 <= find_char(s, c) < s.len() && s[find_char(s, c)] == c),
        find_char(s, c) == -1 ==> forall|i: int| 0 <= i < s.len() ==> s[i] != c,
        forall|i: int| 0 <= i < find_char(s, c) ==> s[i] != c,
    decreases s.len(),
{
    if s.len() == 0 {
    } else if s[0] == c {
    } else {
        let t = s.subrange(1, s.len() as int);
        lemma_find_char(t, c);
        assert(forall|i: int| 1 <= i < s.len() ==> s[i] == t[i - 1]);
    }
}

/// Removing leading whitespace leaves a suffix of the original.
pub proof fn lemma_trim_start_suffix(s: Seq<char>)
    ensures
        exists|p: int| 0 <= p <= s.len() && trim_start(s) == s.subrange(p, s.len() as int),
    decreases s.len(),
{
    if s.len() > 0 && is_ws(s[0]) {
        let t = s.subrange(1, s.len() as int);
        lemma_trim_start_suffix(t);
        let p = choose|p: int| 0 <= p <= t.len() && trim_start(t) == t.subrange(p, t.len() as int);
        assert(t.subrange(p, t.len() as int) =~= s.subrange(p + 1, s.len() as int));
        assert(0 <= p + 1 <= s.len() && trim_start(s) == s.subrange(p + 1, s.len() as int));
    } else {
        assert(s.subrange(0, s.len() as int) =~= s);
        assert(0 <= 0 <= s.len() && trim_start(s) == s.subrange(0, s.len() as int));
    }
}

/// Removing trailing whitespace leaves a prefix of the original.
pub proof fn lemma_trim_end_prefix(s: Seq<char>)
    ensures
        exists|q: int| 0 <= q <= s.len() && trim_end(s) == s.subrange(0, q),
    decreases s.len(),
{
    if s.len() > 0 && is_ws(s[s.len() - 1]) {
        let t = s.subrange(0, s.len() - 1);
        lemma_trim_end_prefix(t);
        let q = choose|q: int| 0 <= q <= t.len() && trim_end(t) == t.subrange(0, q);
        assert(t.subrange(0, q) =~= s.subrange(0, q));
        assert(0 <= q <= s.len() && trim_end(s) == s.subrange(0, q));
    } else {
        assert(s.subrange(0, s.len() as int) =~= s);
        assert(0 <= s.len() && trim_end(s) == s.subrange(0, s.len() as int));
    }
}

/// A nonempty result of `trim_start` opens with a non-whitespace character.
pub proof fn lemma_trim_start_head(s: Seq<char>)
    ensures
        trim_start(s).len() > 0 ==> !is_ws(trim_start(s)[0]),
    decreases s.len(),
{
    if s.len() > 0 && is_ws(s[0]) {
        lemma_trim_start_head(s.subrange(1, s.len() as int));
    }
}

/// A nonempty result of `trim_end` closes with a non-whitespace character.
pub proof fn lemma_trim_end_last(s: Seq<char>)
    ensures
        trim_end(s).len() > 0 ==> !is_ws(trim_end(s)[trim_end(s).len() - 1]),
    decreases s.len(),
{
    if s.len() > 0 && is_ws(s[s.len() - 1]) {
        lemma_trim_end_last(s.subrange(0, s.len() - 1));
    }
}

/// Trimming removes nothing but edge whitespace: the result is a
/// contiguous subrange of the original and carries no whitespace at
/// either end, so interior whitespace is preserved exactly.
pub proof fn lemma_trim_shape(s: Seq<char>)
    ensures
        exists|a: int, b: int| 0 <= a <= b <= s.len() && trim(s) == s.subrange(a, b),
        trim(s).len() > 0 ==> !is_ws(trim(s)[0]),
        trim(s).len() > 0 ==> !is_ws(trim(s)[trim(s).len() - 1]),
{
    let u = trim_start(s);
    lemma_trim_start_suffix(s);
    lemma_trim_end_prefix(u);
    lemma_trim_start_head(s);
    lemma_trim_end_last(u);
    let p = choose|p: int| 0 <= p <= s.len() && trim_start(s) == s.subrange(p, s.len() as int);
    let q = choose|q: int| 0 <= q <= u.len() && trim_end(u) == u.subrange(0, q);
    assert(u.subrange(0, q) =~= s.subrange(p, p + q));
    assert(0 <= p <= p + q <= s.len() && trim(s) == s.subrange(p, p + q));
    if trim(s).len() > 0 {
        assert(trim(s)[0] == u.subrange(0, q)[0]);
        assert(u.subrange(0, q)[0] == u[0]);
    }
}

/// Executable test for [`is_ws`].
pub fn is_whitespace_char(c: char) -> (b: bool)
    ensures
        b == is_ws(c),
{
    c == ' ' || c == '\t' || c == '\r'
}

/// Bounds of the trimmed portion of the character range `[lo, hi)` of `s`:
/// the subrange `[r.0, r.1)` holds exactly `trim` of the original range.
pub fn trim_range(s: &str, lo: usize, hi: usize) -> (r: (usize, usize))
    requires
        lo <= hi <= s@.len(),
    ensures
        lo <= r.0 <= r.1 <= hi,
        s@.subrange(r.0 as int, r.1 as int) == trim(s@.subrange(lo as int, hi as int)),
{
    let ghost line = s@.subrange(lo as int, hi as int);
    let mut a: usize = lo;
    while a < hi && is_whitespace_char(s.get_char(a))
        invariant
            lo <= a <= hi <= s@.len(),
            trim_start(s@.subrange(a as int, hi as int)) == trim_start(line),
            line == s@.subrange(lo as int, hi as int),
        decreases hi - a,
    {
        proof {
            let u = s@.subrange(a as int, hi as int);
            assert(u[0] == s@[a as int]);
            assert(u.subrange(1, u.len() as int) =~= s@.subrange(a + 1, hi as int));
        }
        a = a + 1;
    }
    proof {
        let u = s@.subrange(a as int, hi as int);
        if a < hi {
            assert(u[0] == s@[a as int]);
        }
        assert(trim_start(u) == u);
    }
    let mut b: usize = hi;
    while b > a && is_whitespace_char(s.get_char(b - 1))
        invariant
            lo <= a <= b <= hi <= s@.len(),
            trim_start(s@.subrange(a as int, hi as int)) == trim_start(line),
            trim_start(line) == s@.subrange(a as int, hi as int),
            trim_end(s@.subrange(a as int, b as int)) == trim_end(s@.subrange(a as int, hi as int)),
            line == s@.subrange(lo as int, hi as int),
        decreases b - a,
    {
        proof {
            let u = s@.subrange(a as int, b as int);
            assert(u[u.len() - 1] == s@[b - 1]);
            assert(u.subrange(0, u.len() - 1) =~= s@.subrange(a as int, b - 1));
        }
        b = b - 1;
    }
    proof {
        let u = s@.subrange(a as int, b as int);
        if b > a {
            assert(u[u.len() - 1] == s@[b - 1]);
        }
        assert(trim_end(u) == u);
    }
    (a, b)
}

/// First occurrence of `c` within the character range `[lo, hi)` of `s`,
/// reported as an absolute character index.
pub fn find_in_range(s: &str, lo: usize, hi: usize, c: char) -> (r: Option<usize>)
    requires
        lo <= hi <= s@.len(),
    ensures
        match r {
            Some(i) => lo <= i < hi && find_char(s@.subrange(lo as int, hi as int), c) == i - lo,
            None => find_char(s@.subrange(lo as int, hi as int), c) == -1,
        },
{
    let ghost t = s@.subrange(lo as int, hi as int);
    let mut i: usize = lo;
    while i < hi
        invariant
            lo <= i <= hi <= s@.len(),
            t == s@.subrange(lo as int, hi as int),
            forall|j: int| lo <= j < i ==> s@[j] != c,
        decreases hi - i,
    {
        if s.get_char(i) == c {
            proof {
                lemma_find_char(t, c);
                assert(t[i - lo] == s@[i as int]);
                assert(forall|j: int| 0 <= j < i - lo ==> t[j] == s@[j + lo] && t[j] != c);
                assert(find_char(t, c) == i - lo);
            }
            return Some(i);
        }
        i = i + 1;
    }
    proof {
        lemma_find_char(t, c);
        assert(forall|j: int| 0 <= j < t.len() ==> t[j] == s@[j + lo] && t[j] != c);
    }
    None
}

/// Character-for-character string equality, phrased over the views.
pub fn str_eq(a: &str, b: &str) -> (r: bool)
    ensures
        r == (a@ == b@),
{
    let n = a.unicode_len();
    let m = b.unicode_len();
    if n != m {
        return false;
    }
    let mut i: usize = 0;
    while i < n
        invariant
            i <= n,
            n == a@.len(),
            n == b@.len(),
            forall|j: int| 0 <= j < i ==> a@[j] == b@[j],
        decreases n - i,
    {
        if a.get_char(i) != b.get_char(i) {
            return false;
        }
        i = i + 1;
    }
    proof {
        assert(a@ =~= b@);
    }
    true
}

} // verus!
