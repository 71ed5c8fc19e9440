//! Pattern search in sequences: the specification of the first occurrence
//! of a pattern, verified scanners for byte slices and strings, and the
//! segment extraction the wire codec splits its messages with.
use vstd::prelude::*;

verus! {

/// Whether `pat` occurs in `s` starting at index `i`.
pub open spec fn matches_at<A>(s: Seq<A>, pat: Seq<A>, i: int) -> bool {
    0 <= i && i + pat.len() <= s.len() && s.subrange(i, i + pat.len() as int) == pat
}

/// Whether `pat` occurs anywhere in `s`.
pub open spec fn contains_seq<A>(s: Seq<A>, pat: Seq<A>) -> bool {
    exists|i: int| matches_at(s, pat, i)
}

/// The index of the first occurrence of `pat` in `s`, if any.
pub open spec fn find_first<A>(s: Seq<A>, pat: Seq<A>) -> Option<int>
    decreases s.len(),
{
    if s.len() >= pat.len() && s.subrange(0, pat.len() as int) == pat {
        Some(0)
    } else if s.len() == 0 {
        None
    } else {
        match find_first(s.subrange(1, s.len() as int), pat) {
            None => None,
            Some(i) => Some(i + 1),
        }
    }
}

/// `find_first` returns the least index at which `pat` occurs, and `None`
/// exactly when `pat` occurs nowhere.
pub proof fn lemma_find_first<A>(s: Seq<A>, pat: Seq<A>)
    requires
        pat.len() > 0,
    ensures
        match find_first(s, pat) {
            Some(i) => matches_at(s, pat, i) && forall|j: int|
                0 <= j < i ==> !matches_at(s, pat, j),
            None => forall|j: int| !matches_at(s, pat, j),
        },
    decreases s.len(),
{
    let p = pat.len() as int;
    if s.len() >= pat.len() && s.subrange(0, p) == pat {
    } else if s.len() == 0 {
        assert(forall|j: int| !matches_at(s, pat, j));
    } else {
        let t = s.subrange(1, s.len() as int);
        lemma_find_first::<A>(t, pat);
        assert forall|j: int| 1 <= j && #[trigger] matches_at(s, pat, j) implies matches_at(
            t,
            pat,
            j - 1,
        ) by {
            assert(t.subrange(j - 1, j - 1 + p) =~= s.subrange(j, j + p));
        }
        assert forall|j: int| 0 <= j && #[trigger] matches_at(t, pat, j) implies matches_at(
            s,
            pat,
            j + 1,
        ) by {
            assert(t.subrange(j, j + p) =~= s.subrange(j + 1, j + 1 + p));
        }
        match find_first(t, pat) {
            None => {
                assert forall|j: int| !matches_at(s, pat, j) by {
                    if matches_at(s, pat, j) {
                        if j == 0 {
                            assert(s.subrange(0, p) == pat);
                        } else {
                            assert(matches_at(t, pat, j - 1));
                        }
                    }
                }
            },
            Some(i) => {
                assert(matches_at(s, pat, i + 1));
                assert forall|j: int| 0 <= j < i + 1 implies !matches_at(s, pat, j) by {
                    if matches_at(s, pat, j) {
                        if j == 0 {
                            assert(s.subrange(0, p) == pat);
                        } else {
                            assert(matches_at(t, pat, j - 1));
                        }
                    }
                }
            },
        }
    }
}

/// A match with no earlier match is exactly what `find_first` returns.
pub proof fn lemma_find_first_unique<A>(s: Seq<A>, pat: Seq<A>, i: int)
    requires
        pat.len() > 0,
        matches_at(s, pat, i),
        forall|j: int| 0 <= j < i ==> !matches_at(s, pat, j),
    ensures
        find_first(s, pat) == Some(i),
{
    lemma_find_first(s, pat);
    match find_first(s, pat) {
        None => {
            assert(!matches_at(s, pat, i));
        },
        Some(k) => {
            if k < i {
                assert(!matches_at(s, pat, k));
            } else if k > i {
                assert(!matches_at(s, pat, i));
            }
        },
    }
}

/// One differing position refutes a match of `pat` at `j`.
pub proof fn lemma_mismatch_at<A>(s: Seq<A>, pat: Seq<A>, j: int, k: int)
    requires
        0 <= j <= k < j + pat.len(),
        j + pat.len() <= s.len(),
        s[k] != pat[k - j],
    ensures
        !matches_at(s, pat, j),
{
    if matches_at(s, pat, j) {
        assert(s.subrange(j, j + pat.len() as int)[k - j] == s[k]);
    }
}

/// A match inside the window `[a, b)` of `s` is a match in `s.subrange(a, b)`.
pub proof fn lemma_matches_at_restrict<A>(s: Seq<A>, pat: Seq<A>, j: int, a: int, b: int)
    requires
        0 <= a <= j,
        j + pat.len() <= b <= s.len(),
        matches_at(s, pat, j),
    ensures
        matches_at(s.subrange(a, b), pat, j - a),
{
    assert(s.subrange(a, b).subrange(j - a, j - a + pat.len() as int) =~= s.subrange(
        j,
        j + pat.len() as int,
    ));
}

/// A one-element pattern matches exactly where that element stands.
pub proof fn lemma_match_single<A>(s: Seq<A>, x: A, j: int)
    ensures
        matches_at(s, seq![x], j) <==> 0 <= j < s.len() && s[j] == x,
{
    if 0 <= j < s.len() && s[j] == x {
        assert(s.subrange(j, j + 1) =~= seq![x]);
    }
    if matches_at(s, seq![x], j) {
        assert(s.subrange(j, j + 1)[0] == s[j]);
    }
}

/// Scans `s` for the first occurrence of `pat`.
pub fn find_sub(s: &[u8], pat: &[u8]) -> (r: Option<usize>)
    requires
        pat@.len() > 0,
    ensures
        match r {
            Some(i) => find_first(s@, pat@) == Some(i as int),
            None => find_first(s@, pat@) is None,
        },
{
    let n = s.len();
    let p = pat.len();
    if p > n {
        proof {
            lemma_find_first(s@, pat@);
            if find_first(s@, pat@) is Some {
                assert(matches_at(s@, pat@, find_first(s@, pat@)->Some_0));
            }
        }
        return None;
    }
    let mut i: usize = 0;
    while i <= n - p
        invariant
            0 <= i <= n - p + 1,
            1 <= p <= n,
            p == pat@.len(),
            n == s@.len(),
            forall|j: int| 0 <= j < i ==> !matches_at(s@, pat@, j),
        decreases n - i,
    {
        let mut t: usize = 0;
        let mut hit = true;
        while t < p
            invariant
                0 <= t <= p,
                1 <= p <= n,
                i <= n - p,
                p == pat@.len(),
                n == s@.len(),
                hit ==> forall|u: int| 0 <= u < t ==> s@[i + u] == pat@[u],
                !hit ==> exists|u: int| 0 <= u < p && s@[i + u] != pat@[u],
            decreases p - t,
        {
            if s[i + t] != pat[t] {
                assert(s@[i + t] != pat@[t as int]);
                hit = false;
                t = p;
            } else {
                t = t + 1;
            }
        }
        if hit {
            proof {
                assert(s@.subrange(i as int, i + pat@.len()) =~= pat@);
                lemma_find_first_unique(s@, pat@, i as int);
            }
            return Some(i);
        }
        proof {
            if matches_at(s@, pat@, i as int) {
                let u = choose|u: int| 0 <= u < p && s@[i + u] != pat@[u];
                assert(s@.subrange(i as int, i + pat@.len())[u] == s@[i + u]);
            }
        }
        i = i + 1;
    }
    proof {
        lemma_find_first(s@, pat@);
        if find_first(s@, pat@) is Some {
            let k = find_first(s@, pat@)->Some_0;
            assert(matches_at(s@, pat@, k));
        }
    }
    None
}

/// Scans the characters of `s` for the first occurrence of `pat`.
pub fn find_in_str(s: &str, pat: &Vec<char>) -> (r: Option<usize>)
    requires
        pat@.len() > 0,
    ensures
        match r {
            Some(i) => find_first(s@, pat@) == Some(i as int),
            None => find_first(s@, pat@) is None,
        },
{
    let n = s.unicode_len();
    let p = pat.len();
    if p > n {
        proof {
            lemma_find_first(s@, pat@);
            if find_first(s@, pat@) is Some {
                assert(matches_at(s@, pat@, find_first(s@, pat@)->Some_0));
            }
        }
        return None;
    }
    let mut i: usize = 0;
    while i <= n - p
        invariant
            0 <= i <= n - p + 1,
            1 <= p <= n,
            p == pat@.len(),
            n == s@.len(),
            forall|j: int| 0 <= j < i ==> !matches_at(s@, pat@, j),
        decreases n - i,
    {
        let mut t: usize = 0;
        let mut hit = true;
        while t < p
            invariant
                0 <= t <= p,
                1 <= p <= n,
                i <= n - p,
                p == pat@.len(),
                n == s@.len(),
                hit ==> forall|u: int| 0 <= u < t ==> s@[i + u] == pat@[u],
                !hit ==> exists|u: int| 0 <= u < p && s@[i + u] != pat@[u],
            decreases p - t,
        {
            if s.get_char(i + t) != pat[t] {
                assert(s@[i + t] != pat@[t as int]);
                hit = false;
                t = p;
            } else {
                t = t + 1;
            }
        }
        if hit {
            proof {
                assert(s@.subrange(i as int, i + pat@.len()) =~= pat@);
                lemma_find_first_unique(s@, pat@, i as int);
            }
            return Some(i);
        }
        proof {
            if matches_at(s@, pat@, i as int) {
                let u = choose|u: int| 0 <= u < p && s@[i + u] != pat@[u];
                assert(s@.subrange(i as int, i + pat@.len())[u] == s@[i + u]);
            }
        }
        i = i + 1;
    }
    proof {
        lemma_find_first(s@, pat@);
        if find_first(s@, pat@) is Some {
            let k = find_first(s@, pat@)->Some_0;
            assert(matches_at(s@, pat@, k));
        }
    }
    None
}

/// The piece of `s` between the first and the second occurrence of `pat`
/// (or up to the end of `s` where `pat` occurs only once): the segment that
/// splitting `s` on `pat` puts right after the first separator.
pub open spec fn seg_after<A>(s: Seq<A>, pat: Seq<A>) -> Option<Seq<A>> {
    match find_first(s, pat) {
        None => None,
        Some(i) => {
            let rest = s.subrange(i + pat.len(), s.len() as int);
            match find_first(rest, pat) {
                None => Some(rest),
                Some(j) => Some(rest.subrange(0, j)),
            }
        },
    }
}

/// The prefix of `s` up to its first newline, or all of `s` if it has none.
pub open spec fn upto_newline(s: Seq<char>) -> Seq<char> {
    match find_first(s, seq!['\n']) {
        None => s,
        Some(i) => s.subrange(0, i),
    }
}

/// Extracts the segment of `s` that follows the first occurrence of `pat`,
/// as `seg_after` describes it.
pub fn seg_after_str(s: &str, pat: &Vec<char>) -> (r: Option<String>)
    requires
        pat@.len() > 0,
    ensures
        r is Some <==> seg_after(s@, pat@) is Some,
        r is Some ==> r->Some_0@ == seg_after(s@, pat@)->Some_0,
{
    let n = s.unicode_len();
    match find_in_str(s, pat) {
        None => None,
        Some(i) => {
            proof {
                lemma_find_first(s@, pat@);
            }
            let start = i + pat.len();
            let rest = s.substring_char(start, n);
            match find_in_str(rest, pat) {
                None => Some(rest.to_owned()),
                Some(j) => {
                    proof {
                        lemma_find_first(rest@, pat@);
                    }
                    Some(rest.substring_char(0, j).to_owned())
                },
            }
        },
    }
}

/// Collects the characters of `s` into a vector.
pub fn chars_of(s: &str) -> (r: Vec<char>)
    ensures
        r@ == s@,
{
    let n = s.unicode_len();
    let mut v: Vec<char> = Vec::new();
    let mut i: usize = 0;
    while i < n
        invariant
            0 <= i <= n,
            n == s@.len(),
            v@ =~= s@.subrange(0, i as int),
        decreases n - i,
    {
        v.push(s.get_char(i));
        assert(v@ =~= s@.subrange(0, i + 1));
        i = i + 1;
    }
    proof {
        assert(v@ =~= s@);
    }
    v
}

/// The prefix of `s` up to its first newline, as `upto_newline` describes it.
pub fn upto_newline_str(s: &str) -> (r: String)
    ensures
        r@ == upto_newline(s@),
{
    let mut pat: Vec<char> = Vec::new();
    pat.push('\n');
    proof {
        assert(pat@ =~= seq!['\n']);
    }
    let n = s.unicode_len();
    match find_in_str(s, &pat) {
        None => s.to_owned(),
        Some(i) => {
            proof {
                lemma_find_first(s@, pat@);
            }
            s.substring_char(0, i).to_owned()
        },
    }
}

} // verus!
