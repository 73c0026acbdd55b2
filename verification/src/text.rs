//! Searching in text, over sequences of characters.

use vstd::prelude::*;

verus! {

/// `needle` stands in `haystack` from position `at` on.
pub open spec fn occurs_at(haystack: Seq<char>, needle: Seq<char>, at: int) -> bool {
    &&& 0 <= at
    &&& at + needle.len() <= haystack.len()
    &&& haystack.subrange(at, at + needle.len()) == needle
}

/// `needle` stands somewhere in `haystack`.
pub open spec fn contains(haystack: Seq<char>, needle: Seq<char>) -> bool {
    exists|at: int| occurs_at(haystack, needle, at)
}

/// The characters of `text`, one by one.
pub fn chars_of(text: &str) -> (chars: Vec<char>)
    ensures
        chars@ == text@,
{
    let mut chars: Vec<char> = Vec::new();
    for c in it: text.chars()
        invariant
            chars@ == it.seq().take(it.index()),
            it.seq() == text@,
    {
        chars.push(c);
    }
    chars
}

/// Whether `needle` stands in `haystack` from position `at` on. It does not
/// where it would reach past the end.
pub fn matches_at(haystack: &Vec<char>, needle: &Vec<char>, at: usize) -> (found: bool)
    ensures
        found == occurs_at(haystack@, needle@, at as int),
{
    let total: usize = haystack.len();
    let count: usize = needle.len();
    if count > total || at > total - count {
        return false;
    }
    let mut k: usize = 0;
    while k < count
        invariant
            k <= count,
            count == needle@.len(),
            total == haystack@.len(),
            at + count <= total,
            forall|j: int| 0 <= j < k ==> haystack@[at + j] == needle@[j],
        decreases count - k,
    {
        if haystack[at + k] != needle[k] {
            return false;
        }
        k += 1;
    }
    assert(haystack@.subrange(at as int, at + count) =~= needle@);
    true
}

/// Whether `needle` stands somewhere in `haystack`. The empty text stands in
/// every text.
pub fn str_contains(haystack: &str, needle: &str) -> (found: bool)
    ensures
        found == contains(haystack@, needle@),
{
    let hay = chars_of(haystack);
    let pin = chars_of(needle);
    if pin.len() > hay.len() {
        return false;
    }
    let last: usize = hay.len() - pin.len();
    let mut at: usize = 0;
    loop
        invariant
            hay@ == haystack@,
            pin@ == needle@,
            last == hay@.len() - pin@.len(),
            at <= last,
            forall|i: int| 0 <= i < at ==> !occurs_at(hay@, pin@, i),
        decreases last - at,
    {
        if matches_at(&hay, &pin, at) {
            return true;
        }
        if at == last {
            return false;
        }
        at += 1;
    }
}

/// Whether `text` ends with `suffix`.
pub fn str_ends_with(text: &str, suffix: &str) -> (found: bool)
    ensures
        found == suffix@.is_suffix_of(text@),
{
    let all = chars_of(text);
    let end = chars_of(suffix);
    if end.len() > all.len() {
        return false;
    }
    matches_at(&all, &end, all.len() - end.len())
}

/// Whether two texts hold the same characters.
pub fn str_eq(left: &str, right: &str) -> (same: bool)
    ensures
        same == (left@ == right@),
{
    let l = chars_of(left);
    let r = chars_of(right);
    if l.len() != r.len() {
        return false;
    }
    let same = matches_at(&l, &r, 0);
    assert(l@.subrange(0, l@.len() as int) =~= l@);
    same
}

/// The character opens a bracket.
pub open spec fn opens_bracket(c: char) -> bool {
    c == '(' || c == '[' || c == '{'
}

/// Picks the characters that open a bracket.
pub open spec fn opening() -> spec_fn(char) -> bool {
    |c: char| opens_bracket(c)
}

/// How many brackets `text` opens. No text is nested deeper than that.
pub open spec fn brackets_opened(text: Seq<char>) -> nat {
    text.filter(opening()).len()
}

/// How many brackets `text` opens.
pub fn count_brackets(text: &str) -> (count: usize)
    ensures
        count == brackets_opened(text@),
{
    let chars = chars_of(text);
    let total: usize = chars.len();
    let mut count: usize = 0;
    let mut i: usize = 0;
    while i < total
        invariant
            i <= total,
            total == chars@.len(),
            count <= i,
            count == brackets_opened(chars@.take(i as int)),
        decreases total - i,
    {
        proof {
            assert(chars@.take(i + 1) =~= chars@.take(i as int).push(chars@[i as int]));
            chars@.take(i as int).lemma_filter_push(chars@[i as int], opening());
        }
        let c = chars[i];
        if c == '(' || c == '[' || c == '{' {
            count += 1;
        }
        i += 1;
    }
    assert(chars@.take(total as int) =~= chars@);
    count
}

} // verus!
