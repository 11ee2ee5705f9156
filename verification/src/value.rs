//! The values of the language are strings. This module holds the two trims
//! and the two binary operations on them.
use vstd::prelude::*;

verus! {

/// `needle` occurs in `hay` at position `at`.
pub open spec fn occurs_at(hay: Seq<char>, needle: Seq<char>, at: int) -> bool {
    &&& 0 <= at
    &&& at + needle.len() <= hay.len()
    &&& hay.subrange(at, at + needle.len()) == needle
}

/// `needle` occurs in `hay` at position `at` and at no position before it.
pub open spec fn first_occurs_at(hay: Seq<char>, needle: Seq<char>, at: int) -> bool {
    &&& occurs_at(hay, needle, at)
    &&& forall|earlier: int| 0 <= earlier < at ==> !occurs_at(hay, needle, earlier)
}

/// `needle` occurs somewhere in `hay`.
pub open spec fn occurs(hay: Seq<char>, needle: Seq<char>) -> bool {
    exists|at: int| occurs_at(hay, needle, at)
}

/// The first position at which `needle` occurs in `hay`, if it occurs at all.
pub open spec fn first_occurrence(hay: Seq<char>, needle: Seq<char>) -> Option<int> {
    if exists|at: int| first_occurs_at(hay, needle, at) {
        Some(choose|at: int| first_occurs_at(hay, needle, at))
    } else {
        None
    }
}

/// `text` without its last character.
pub open spec fn right_trim_spec(text: Seq<char>) -> Seq<char>
    recommends
        text.len() > 0,
{
    text.drop_last()
}

/// `text` without its first character.
pub open spec fn left_trim_spec(text: Seq<char>) -> Seq<char>
    recommends
        text.len() > 0,
{
    text.drop_first()
}

/// `left` followed by `right`.
pub open spec fn plus_spec(left: Seq<char>, right: Seq<char>) -> Seq<char> {
    left + right
}

/// `left` without the first occurrence of `right`; `left` itself where
/// `right` does not occur in it.
pub open spec fn minus_spec(left: Seq<char>, right: Seq<char>) -> Seq<char> {
    match first_occurrence(left, right) {
        Some(at) => left.subrange(0, at) + left.subrange(at + right.len(), left.len() as int),
        None => left,
    }
}

/// A position that is a first occurrence is the one `first_occurrence` names.
pub proof fn lemma_first_occurrence_found(hay: Seq<char>, needle: Seq<char>, at: int)
    requires
        first_occurs_at(hay, needle, at),
    ensures
        first_occurrence(hay, needle) == Some(at),
{
}

/// Below any occurrence there is a first one.
pub proof fn lemma_least_occurrence(hay: Seq<char>, needle: Seq<char>, at: int)
    requires
        occurs_at(hay, needle, at),
    ensures
        exists|first: int| first_occurs_at(hay, needle, first) && first <= at,
    decreases at,
{
    if exists|earlier: int| 0 <= earlier < at && occurs_at(hay, needle, earlier) {
        let earlier = choose|earlier: int| 0 <= earlier < at && occurs_at(hay, needle, earlier);
        lemma_least_occurrence(hay, needle, earlier);
    } else {
        assert(first_occurs_at(hay, needle, at));
    }
}

/// Minus takes out the first occurrence of its right operand: what stands
/// before it and what stands behind it are left, in that order.
pub proof fn law_minus_removes_first_occurrence(left: Seq<char>, right: Seq<char>, at: int)
    requires
        first_occurs_at(left, right, at),
    ensures
        minus_spec(left, right) == left.subrange(0, at) + left.subrange(
            at + right.len(),
            left.len() as int,
        ),
{
    lemma_first_occurrence_found(left, right, at);
}

/// Minus leaves its left operand as it is where the right operand does not
/// occur in it.
pub proof fn law_minus_of_absent(left: Seq<char>, right: Seq<char>)
    requires
        !occurs(left, right),
    ensures
        minus_spec(left, right) == left,
{
}

/// Minus takes out one occurrence and no more: where the right operand
/// occurs in the left one, the result is shorter by the length of the right
/// operand, however often it occurs.
pub proof fn law_minus_removes_one_occurrence(left: Seq<char>, right: Seq<char>)
    requires
        occurs(left, right),
    ensures
        minus_spec(left, right).len() == left.len() - right.len(),
{
    let some = choose|at: int| occurs_at(left, right, at);
    lemma_least_occurrence(left, right, some);
    let first = choose|first: int| first_occurs_at(left, right, first);
    lemma_first_occurrence_found(left, right, first);
}

/// The characters of `text`, in order.
pub fn chars_of(text: &str) -> (chars: Vec<char>)
    ensures
        chars@ == text@,
{
    let mut chars: Vec<char> = Vec::new();
    for c in it: text.chars()
        invariant
            it.seq() == text@,
            chars@ == text@.take(it.index()),
    {
        chars.push(c);
    }
    chars
}

/// Whether `needle` stands in `hay` at position `at`.
fn matches_at(hay: &Vec<char>, needle: &Vec<char>, at: usize) -> (found: bool)
    requires
        at + needle@.len() <= hay@.len(),
    ensures
        found == occurs_at(hay@, needle@, at as int),
{
    let len: usize = hay.len();
    let mut k: usize = 0;
    while k < needle.len()
        invariant
            k <= needle@.len(),
            at + needle@.len() <= hay@.len(),
            len == hay@.len(),
            forall|j: int| 0 <= j < k ==> hay@[at + j] == needle@[j],
        decreases needle@.len() - k,
    {
        if hay[at + k] != needle[k] {
            return false;
        }
        k += 1;
    }
    assert(hay@.subrange(at as int, at + needle@.len()) =~= needle@);
    true
}

/// The first position at which `needle` occurs in `hay`.
pub fn find_first(hay: &Vec<char>, needle: &Vec<char>) -> (found: Option<usize>)
    ensures
        match found {
            Some(at) => first_occurs_at(hay@, needle@, at as int) && first_occurrence(
                hay@,
                needle@,
            ) == Some(at as int),
            None => !occurs(hay@, needle@) && first_occurrence(hay@, needle@) is None,
        },
{
    if needle.len() > hay.len() {
        return None;
    }
    let last: usize = hay.len() - needle.len();
    let mut at: usize = 0;
    loop
        invariant
            last == hay@.len() - needle@.len(),
            at <= last,
            forall|earlier: int| 0 <= earlier < at ==> !occurs_at(hay@, needle@, earlier),
        decreases last - at,
    {
        if matches_at(hay, needle, at) {
            proof {
                lemma_first_occurrence_found(hay@, needle@, at as int);
            }
            return Some(at);
        }
        if at == last {
            return None;
        }
        at += 1;
    }
}

/// Removes the first occurrence of `right` from `left`. Where `right` does
/// not occur in `left`, the result is `left`.
pub fn minus(left: String, right: String) -> (rest: String)
    ensures
        rest@ == minus_spec(left@, right@),
        !occurs(left@, right@) ==> rest@ == left@,
        forall|at: int| first_occurs_at(left@, right@, at) ==> rest@ == left@.subrange(0, at)
            + left@.subrange(at + right@.len(), left@.len() as int),
{
    let hay = chars_of(left.as_str());
    let needle = chars_of(right.as_str());
    match find_first(&hay, &needle) {
        Some(at) => {
            let text = left.as_str();
            let end: usize = hay.len();
            let head = text.substring_char(0, at);
            let tail = text.substring_char(at + needle.len(), end);
            String::from_str(head).concat(tail)
        },
        None => left,
    }
}

/// Drops the last character of `string`.
pub fn right_trim(string: &String) -> (trimmed: String)
    requires
        string@.len() > 0,
    ensures
        trimmed@ == right_trim_spec(string@),
{
    let text = string.as_str();
    let n = text.unicode_len();
    String::from_str(text.substring_char(0, n - 1))
}

/// Drops the first character of `string`.
pub fn left_trim(string: &String) -> (trimmed: String)
    requires
        string@.len() > 0,
    ensures
        trimmed@ == left_trim_spec(string@),
{
    let text = string.as_str();
    let n = text.unicode_len();
    String::from_str(text.substring_char(1, n))
}

/// Concatenates `left` and `right`.
pub fn plus(left: String, right: String) -> (joined: String)
    ensures
        joined@ == plus_spec(left@, right@),
{
    left.concat(right.as_str())
}

} // verus!
