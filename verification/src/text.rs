//! Searching and cutting text, measured in characters.
//!
//! A text is modelled by its sequence of Unicode scalar values, the view of
//! `str` and `String`. Every index in this module counts characters.

use vstd::prelude::*;

verus! {

/// `needle` stands in `hay` at index `at`.
pub open spec fn occurs_at(hay: Seq<char>, needle: Seq<char>, at: int) -> bool {
    &&& 0 <= at
    &&& at + needle.len() <= hay.len()
    &&& hay.subrange(at, at + needle.len()) == needle
}

/// The least index at or after `from` where `needle` stands in `hay`.
pub open spec fn first_occurrence(hay: Seq<char>, needle: Seq<char>, from: int) -> Option<int>
    decreases hay.len() + 1 - from,
{
    if from < 0 || from + needle.len() > hay.len() {
        None
    } else if occurs_at(hay, needle, from) {
        Some(from)
    } else {
        first_occurrence(hay, needle, from + 1)
    }
}

/// `needle` stands nowhere in `hay`.
pub open spec fn free_of(hay: Seq<char>, needle: Seq<char>) -> bool {
    forall|at: int| !occurs_at(hay, needle, at)
}

/// What is left of `hay` from index `from` on once every occurrence of
/// `needle` is cut out, scanning from left to right; an occurrence that
/// overlaps one already cut does not count.
pub open spec fn remove_all_from(hay: Seq<char>, needle: Seq<char>, from: int) -> Seq<char>
    decreases hay.len() - from,
{
    if from < 0 || from >= hay.len() {
        Seq::empty()
    } else if needle.len() > 0 && occurs_at(hay, needle, from) {
        remove_all_from(hay, needle, from + needle.len())
    } else {
        seq![hay[from]] + remove_all_from(hay, needle, from + 1)
    }
}

/// `hay` with every occurrence of `needle` cut out.
pub open spec fn remove_all(hay: Seq<char>, needle: Seq<char>) -> Seq<char> {
    remove_all_from(hay, needle, 0)
}

/// `hay` with its first occurrence of `needle`, if there is one, replaced by `with`.
pub open spec fn replace_first(hay: Seq<char>, needle: Seq<char>, with: Seq<char>) -> Seq<char> {
    match first_occurrence(hay, needle, 0) {
        Some(at) => hay.take(at) + with + hay.skip(at + needle.len()),
        None => hay,
    }
}

/// The first occurrence is an occurrence, and no earlier index at or after
/// `from` is one.
pub proof fn lemma_first_occurrence(hay: Seq<char>, needle: Seq<char>, from: int)
    requires
        0 <= from,
    ensures
        match first_occurrence(hay, needle, from) {
            Some(at) => {
                &&& from <= at
                &&& occurs_at(hay, needle, at)
                &&& forall|j: int| from <= j < at ==> !occurs_at(hay, needle, j)
            },
            None => forall|j: int| from <= j ==> !occurs_at(hay, needle, j),
        },
    decreases hay.len() + 1 - from,
{
    if from + needle.len() <= hay.len() && !occurs_at(hay, needle, from) {
        lemma_first_occurrence(hay, needle, from + 1);
    }
}

/// Cutting a needle out of a text that does not hold it changes nothing.
pub proof fn lemma_remove_all_free(hay: Seq<char>, needle: Seq<char>, from: int)
    requires
        0 <= from <= hay.len(),
        free_of(hay, needle),
    ensures
        remove_all_from(hay, needle, from) == hay.skip(from),
    decreases hay.len() - from,
{
    if from < hay.len() {
        lemma_remove_all_free(hay, needle, from + 1);
    }
}

/// Cutting out makes a text no longer.
pub proof fn lemma_remove_all_shrinks(hay: Seq<char>, needle: Seq<char>, from: int)
    requires
        0 <= from <= hay.len(),
    ensures
        remove_all_from(hay, needle, from).len() <= hay.len() - from,
    decreases hay.len() - from,
{
    if from < hay.len() {
        if needle.len() > 0 && occurs_at(hay, needle, from) {
            lemma_remove_all_shrinks(hay, needle, from + needle.len());
        } else {
            lemma_remove_all_shrinks(hay, needle, from + 1);
        }
    }
}

/// The characters of `s`, one vector element each.
pub fn chars_of(s: &str) -> (chars: Vec<char>)
    ensures
        chars@ == s@,
{
    let mut chars: Vec<char> = Vec::new();
    for c in it: s.chars()
        invariant
            it.seq() == s@,
            chars@ == s@.take(it.index() as int),
    {
        chars.push(c);
    }
    chars
}

/// Whether two texts hold the same characters.
pub fn same_text(a: &str, b: &str) -> (same: bool)
    ensures
        same == (a@ == b@),
{
    let left = chars_of(a);
    let right = chars_of(b);
    if left.len() != right.len() {
        return false;
    }
    let mut i: usize = 0;
    while i < left.len()
        invariant
            left@ == a@,
            right@ == b@,
            i <= left.len(),
            left.len() == right.len(),
            forall|j: int| 0 <= j < i ==> left@[j] == right@[j],
        decreases left.len() - i,
    {
        if left[i] != right[i] {
            return false;
        }
        i += 1;
    }
    assert(left@ =~= right@);
    true
}

/// Whether `needle` stands in `hay` at index `at`.
pub fn matches_at(hay: &Vec<char>, needle: &Vec<char>, at: usize) -> (found: bool)
    ensures
        found == occurs_at(hay@, needle@, at as int),
{
    if needle.len() > hay.len() || at > hay.len() - needle.len() {
        return false;
    }
    let mut k: usize = 0;
    while k < needle.len()
        invariant
            k <= needle.len(),
            at + needle.len() <= hay.len(),
            forall|j: int| 0 <= j < k ==> hay@[at + j] == needle@[j],
        decreases needle.len() - k,
    {
        if hay[at + k] != needle[k] {
            return false;
        }
        k += 1;
    }
    assert(hay@.subrange(at as int, at + needle.len()) =~= needle@);
    true
}

/// The index of the first occurrence of `needle` in `hay` at or after `from`.
pub fn find_from(hay: &Vec<char>, needle: &Vec<char>, from: usize) -> (found: Option<usize>)
    ensures
        match first_occurrence(hay@, needle@, from as int) {
            Some(at) => found == Some(at as usize) && from <= at && at + needle@.len()
                <= hay@.len() <= usize::MAX,
            None => found is None,
        },
{
    if needle.len() > hay.len() || from > hay.len() - needle.len() {
        return None;
    }
    proof {
        lemma_first_occurrence(hay@, needle@, from as int);
    }
    let last: usize = hay.len() - needle.len();
    let mut at: usize = from;
    loop
        invariant
            from <= at <= last,
            last == hay.len() - needle.len(),
            first_occurrence(hay@, needle@, from as int) == first_occurrence(
                hay@,
                needle@,
                at as int,
            ),
        decreases last - at,
    {
        if matches_at(hay, needle, at) {
            return Some(at);
        }
        if at == last {
            assert(first_occurrence(hay@, needle@, at + 1) is None);
            return None;
        }
        at += 1;
    }
}

/// `text` with every occurrence of `needle` cut out.
pub fn remove_all_occurrences(text: &str, needle: &str) -> (stripped: String)
    ensures
        stripped@ == remove_all(text@, needle@),
{
    let hay = chars_of(text);
    let pat = chars_of(needle);
    let mut stripped = String::new();
    if pat.len() == 0 {
        stripped.append(text);
        proof {
            lemma_remove_nothing(text@, needle@, 0);
        }
        return stripped;
    }
    let mut kept: usize = 0;
    let mut at: usize = 0;
    while at < hay.len()
        invariant
            hay@ == text@,
            pat@ == needle@,
            pat.len() > 0,
            kept <= at <= hay.len(),
            stripped@ + hay@.subrange(kept as int, at as int) + remove_all_from(
                hay@,
                pat@,
                at as int,
            ) == remove_all(hay@, pat@),
        decreases hay.len() - at,
    {
        if matches_at(&hay, &pat, at) {
            stripped.append(text.substring_char(kept, at));
            at += pat.len();
            kept = at;
        } else {
            at += 1;
        }
    }
    stripped.append(text.substring_char(kept, at));
    stripped
}

/// With an empty needle nothing is cut.
pub proof fn lemma_remove_nothing(hay: Seq<char>, needle: Seq<char>, from: int)
    requires
        needle.len() == 0,
        0 <= from <= hay.len(),
    ensures
        remove_all_from(hay, needle, from) == hay.skip(from),
    decreases hay.len() - from,
{
    if from < hay.len() {
        lemma_remove_nothing(hay, needle, from + 1);
    }
}

/// The index of the first occurrence of `needle` in `text`.
pub fn find_text(text: &str, needle: &str) -> (found: Option<usize>)
    ensures
        match first_occurrence(text@, needle@, 0) {
            Some(at) => found == Some(at as usize) && 0 <= at && at + needle@.len() <= text@.len()
                <= usize::MAX,
            None => found is None,
        },
{
    find_from(&chars_of(text), &chars_of(needle), 0)
}

} // verus!
