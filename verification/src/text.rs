//! Text helpers over the characters of a string.

use vstd::prelude::*;
use vstd::std_specs::iter::IteratorSpec;

verus! {

/// The characters of `s`, in order.
pub fn chars_of(s: &str) -> (r: Vec<char>)
    ensures
        r@ == s@,
{
    let mut out: Vec<char> = Vec::new();
    for c in it: s.chars()
        invariant
            out@ == it.seq().take(it.index() as int),
            it.seq() == s@,
    {
        out.push(c);
    }
    out
}

/// Whether `a` and `b` hold the same characters.
pub fn same_text(a: &str, b: &str) -> (r: bool)
    ensures
        r == (a@ == b@),
{
    a.to_owned() == b.to_owned()
}

/// The first position at or after `from` where `pat` occurs in `s`.
pub open spec fn find_from(s: Seq<char>, pat: Seq<char>, from: int) -> Option<int>
    decreases s.len() - from,
{
    if from < 0 || from + pat.len() > s.len() {
        None
    } else if pat.len() == 0 || s.subrange(from, from + pat.len()) == pat {
        Some(from)
    } else {
        find_from(s, pat, from + 1)
    }
}

/// Whether `pat` occurs in `s` at position `at`.
fn occurs_at(s: &Vec<char>, pat: &Vec<char>, at: usize) -> (r: bool)
    requires
        at + pat.len() <= s.len(),
    ensures
        r == (s@.subrange(at as int, at + pat.len()) == pat@),
{
    let mut j: usize = 0;
    while j < pat.len()
        invariant
            j <= pat.len(),
            at + pat.len() <= s.len(),
            forall|k: int| 0 <= k < j ==> s@[at + k] == pat@[k],
        decreases pat.len() - j,
    {
        if s[at + j] != pat[j] {
            assert(s@.subrange(at as int, at + pat.len())[j as int] != pat@[j as int]);
            return false;
        }
        j = j + 1;
    }
    assert(s@.subrange(at as int, at + pat.len()) =~= pat@);
    true
}

/// The first position at or after `from` where `pat` occurs in `s`.
pub fn find(s: &Vec<char>, pat: &Vec<char>, from: usize) -> (r: Option<usize>)
    requires
        from <= s.len(),
    ensures
        match r {
            Some(i) => find_from(s@, pat@, from as int) == Some(i as int) && from <= i
                && i + pat.len() <= s.len(),
            None => find_from(s@, pat@, from as int) is None,
        },
{
    let mut i: usize = from;
    while pat.len() <= s.len() && i <= s.len() - pat.len()
        invariant
            from <= i <= s.len(),
            find_from(s@, pat@, from as int) == find_from(s@, pat@, i as int),
        decreases s.len() - i,
    {
        if pat.len() == 0 || occurs_at(s, pat, i) {
            return Some(i);
        }
        i = i + 1;
    }
    None
}

/// Appends `s[lo..hi]` to `out`.
pub fn push_range(out: &mut Vec<char>, s: &Vec<char>, lo: usize, hi: usize)
    requires
        lo <= hi <= s.len(),
    ensures
        final(out)@ == old(out)@ + s@.subrange(lo as int, hi as int),
{
    let mut k: usize = lo;
    while k < hi
        invariant
            lo <= k <= hi <= s.len(),
            out@ == old(out)@ + s@.subrange(lo as int, k as int),
        decreases hi - k,
    {
        out.push(s[k]);
        k = k + 1;
        assert(s@.subrange(lo as int, k as int) =~= s@.subrange(lo as int, k - 1).push(s@[k - 1]));
    }
}

/// The string of `chars`, in order, made by std's `String::from_iter`.
/// Claimed of std: the string holds exactly those characters.
#[verifier::external_body]
pub(crate) fn string_of(chars: Vec<char>) -> (r: String)
    ensures
        r@ == chars@,
{
    String::from_iter(chars)
}

/// `find_from` finds the first occurrence of `pat` at or after `from`, and
/// finds none exactly when there is none.
pub proof fn lemma_find_from(s: Seq<char>, pat: Seq<char>, from: int)
    requires
        0 <= from,
    ensures
        find_from(s, pat, from) matches Some(i) ==> from <= i && i + pat.len() <= s.len()
            && s.subrange(i, i + pat.len()) == pat
            && forall|j: int| from <= j < i ==> #[trigger] s.subrange(j, j + pat.len()) != pat,
        find_from(s, pat, from) is None ==> forall|j: int| from <= j && j + pat.len() <= s.len()
            ==> #[trigger] s.subrange(j, j + pat.len()) != pat,
    decreases s.len() - from,
{
    if from + pat.len() <= s.len() {
        if pat.len() == 0 {
            assert(s.subrange(from, from) =~= pat);
        } else if s.subrange(from, from + pat.len()) != pat {
            lemma_find_from(s, pat, from + 1);
        }
    }
}

} // verus!
