//! Character-level text helpers shared by the rest of the library.
use vstd::prelude::*;

verus! {

/// Appending one character to a `String` extends its character sequence by that character.
pub assume_specification[ String::push ](string: &mut String, ch: char)
    ensures
        final(string)@ == old(string)@.push(ch),
;

/// `pat` occurs in `s` starting at character index `i`.
pub open spec fn occurs_at(s: Seq<char>, pat: Seq<char>, i: int) -> bool {
    &&& 0 <= i
    &&& i + pat.len() <= s.len()
    &&& s.subrange(i, i + pat.len()) == pat
}

/// The first character index at or after `from` where `pat` occurs in `s`.
pub open spec fn first_occurrence_from(s: Seq<char>, pat: Seq<char>, from: int) -> Option<int>
    decreases s.len() + 1 - from,
{
    if from < 0 || from + pat.len() > s.len() {
        None
    } else if occurs_at(s, pat, from) {
        Some(from)
    } else {
        first_occurrence_from(s, pat, from + 1)
    }
}

/// The first character index where `pat` occurs in `s`, if it occurs at all.
pub open spec fn first_occurrence(s: Seq<char>, pat: Seq<char>) -> Option<int> {
    first_occurrence_from(s, pat, 0)
}

/// `s` holds `pat` somewhere.
pub open spec fn contains_text(s: Seq<char>, pat: Seq<char>) -> bool {
    exists|i: int| occurs_at(s, pat, i)
}

/// `s` ends with `suffix`.
pub open spec fn ends_with_text(s: Seq<char>, suffix: Seq<char>) -> bool {
    suffix.len() <= s.len() && s.subrange(s.len() - suffix.len(), s.len() as int) == suffix
}

/// `s` with every occurrence of `c` left out.
pub open spec fn without_char(s: Seq<char>, c: char) -> Seq<char>
    decreases s.len(),
{
    if s.len() == 0 {
        seq![]
    } else if s.last() == c {
        without_char(s.drop_last(), c)
    } else {
        without_char(s.drop_last(), c).push(s.last())
    }
}

/// A character that UTF-8 encodes in a single byte.
pub open spec fn is_ascii_char(c: char) -> bool {
    (c as u32) < 128
}

/// The text can lose its first and last character by a byte slice `[1..len - 1]`:
/// it has at least two characters and both ends are one-byte characters.
pub open spec fn trims_cleanly(s: Seq<char>) -> bool {
    s.len() >= 2 && is_ascii_char(s[0]) && is_ascii_char(s[s.len() - 1])
}

proof fn lemma_first_occurrence_from(s: Seq<char>, pat: Seq<char>, from: int)
    requires
        0 <= from,
        forall|j: int| 0 <= j < from ==> !occurs_at(s, pat, j),
    ensures
        match first_occurrence_from(s, pat, from) {
            Some(i) => occurs_at(s, pat, i) && forall|j: int| 0 <= j < i ==> !occurs_at(s, pat, j),
            None => !contains_text(s, pat),
        },
    decreases s.len() + 1 - from,
{
    if from + pat.len() > s.len() {
        assert forall|i: int| !occurs_at(s, pat, i) by {
            if occurs_at(s, pat, i) && i >= from {
                assert(i + pat.len() > s.len());
            }
        }
    } else if !occurs_at(s, pat, from) {
        lemma_first_occurrence_from(s, pat, from + 1);
    }
}

/// `first_occurrence` finds the earliest occurrence, and finds none exactly when there is none.
pub proof fn lemma_first_occurrence(s: Seq<char>, pat: Seq<char>)
    ensures
        match first_occurrence(s, pat) {
            Some(i) => occurs_at(s, pat, i) && forall|j: int| 0 <= j < i ==> !occurs_at(s, pat, j),
            None => !contains_text(s, pat),
        },
{
    lemma_first_occurrence_from(s, pat, 0);
}

/// The characters of `s`, one by one.
pub fn chars_of(s: &str) -> (v: Vec<char>)
    ensures
        v@ == s@,
{
    let n = s.unicode_len();
    let mut v: Vec<char> = Vec::new();
    let mut i: usize = 0;
    while i < n
        invariant
            n == s@.len(),
            i <= n,
            v@ == s@.subrange(0, i as int),
        decreases n - i,
    {
        v.push(s.get_char(i));
        i = i + 1;
    }
    assert(v@ == s@);
    v
}

fn matches_at(s: &Vec<char>, pat: &Vec<char>, i: usize) -> (r: bool)
    requires
        i + pat.len() <= s.len(),
    ensures
        r == occurs_at(s@, pat@, i as int),
{
    let mut k: usize = 0;
    while k < pat.len()
        invariant
            i + pat.len() <= s.len(),
            k <= pat.len(),
            forall|j: int| 0 <= j < k ==> s@[i + j] == pat@[j],
        decreases pat.len() - k,
    {
        if s[i + k] != pat[k] {
            assert(s@.subrange(i as int, i + pat.len())[k as int] != pat@[k as int]);
            return false;
        }
        k = k + 1;
    }
    assert(s@.subrange(i as int, i + pat.len()) =~= pat@);
    true
}

/// The first character index at which `pat` occurs in `s`.
pub fn find_text(s: &str, pat: &str) -> (r: Option<usize>)
    ensures
        match r {
            Some(i) => first_occurrence(s@, pat@) == Some(i as int),
            None => first_occurrence(s@, pat@) is None,
        },
{
    let sv = chars_of(s);
    let pv = chars_of(pat);
    if pv.len() > sv.len() {
        return None;
    }
    let last = sv.len() - pv.len();
    let mut i: usize = 0;
    loop
        invariant
            sv@ == s@,
            pv@ == pat@,
            last + pv.len() == sv.len(),
            i <= last,
            first_occurrence(s@, pat@) == first_occurrence_from(s@, pat@, i as int),
        decreases last - i,
    {
        if matches_at(&sv, &pv, i) {
            return Some(i);
        }
        if i == last {
            assert(first_occurrence_from(s@, pat@, i + 1) is None);
            return None;
        }
        i = i + 1;
    }
}

/// `s` holds `pat` somewhere.
pub fn has_text(s: &str, pat: &str) -> (r: bool)
    ensures
        r == contains_text(s@, pat@),
{
    proof {
        lemma_first_occurrence(s@, pat@);
    }
    find_text(s, pat).is_some()
}

/// `s` ends with `suffix`.
pub fn ends_with(s: &str, suffix: &str) -> (r: bool)
    ensures
        r == ends_with_text(s@, suffix@),
{
    let sv = chars_of(s);
    let pv = chars_of(suffix);
    if pv.len() > sv.len() {
        return false;
    }
    let r = matches_at(&sv, &pv, sv.len() - pv.len());
    r
}

/// The two texts hold the same characters.
pub fn same_text(a: &str, b: &str) -> (r: bool)
    ensures
        r == (a@ == b@),
{
    let av = chars_of(a);
    let bv = chars_of(b);
    if av.len() != bv.len() {
        return false;
    }
    let r = matches_at(&av, &bv, 0);
    proof {
        if r {
            assert(av@ =~= av@.subrange(0, bv@.len() as int));
        } else {
            if a@ == b@ {
                assert(av@.subrange(0, bv@.len() as int) =~= bv@);
            }
        }
    }
    r
}

/// The characters of `s` from index `from` on.
pub fn suffix_from(s: &str, from: usize) -> (r: String)
    requires
        from <= s@.len(),
    ensures
        r@ == s@.subrange(from as int, s@.len() as int),
{
    let n = s.unicode_len();
    let part = s.substring_char(from, n);
    String::from_str(part)
}

/// Whether `s` can lose its outer characters by a byte slice.
pub fn can_trim(s: &str) -> (r: bool)
    ensures
        r == trims_cleanly(s@),
{
    let n = s.unicode_len();
    if n < 2 {
        return false;
    }
    let first = s.get_char(0);
    let last = s.get_char(n - 1);
    (first as u32) < 128 && (last as u32) < 128
}

/// `s` without its first and last character (the quotes of a JSON string).
pub fn strip_outer(s: &str) -> (r: String)
    requires
        trims_cleanly(s@),
    ensures
        r@ == s@.subrange(1, s@.len() - 1),
{
    let n = s.unicode_len();
    let part = s.substring_char(1, n - 1);
    String::from_str(part)
}

/// `s` with every occurrence of `c` left out.
pub fn remove_char(s: &str, c: char) -> (r: String)
    ensures
        r@ == without_char(s@, c),
{
    let v = chars_of(s);
    let mut out = String::new();
    let mut i: usize = 0;
    while i < v.len()
        invariant
            v@ == s@,
            i <= v.len(),
            out@ == without_char(v@.subrange(0, i as int), c),
        decreases v.len() - i,
    {
        assert(v@.subrange(0, i + 1).drop_last() =~= v@.subrange(0, i as int));
        if v[i] != c {
            out.push(v[i]);
        }
        i = i + 1;
    }
    assert(v@.subrange(0, v.len() as int) =~= v@);
    out
}

/// `a` followed by `b`.
pub fn join_texts(a: &str, b: &str) -> (r: String)
    ensures
        r@ == a@ + b@,
{
    let mut r = String::from_str(a);
    r.append(b);
    r
}

} // verus!
