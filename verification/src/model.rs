//! What each list operation does to the sequence of values a list holds.
//!
//! The contracts of the list speak of these functions, so that a caller can
//! reason about a list as a `Seq<T>` and never about links.

use vstd::prelude::*;
use vstd::std_specs::cmp::PartialEqSpec;

verus! {

/// The sequence after `value` was put in front of `s`.
pub open spec fn pushed_front<T>(s: Seq<T>, value: T) -> Seq<T> {
    seq![value] + s
}

/// The sequence after `value` was put behind `s`.
pub open spec fn pushed_back<T>(s: Seq<T>, value: T) -> Seq<T> {
    s.push(value)
}

/// The position at which an insertion at `index` takes place: `index` itself,
/// or the end of the sequence when `index` lies beyond it.
pub open spec fn clamped(len: nat, index: nat) -> int {
    if index >= len {
        len as int
    } else {
        index as int
    }
}

/// The sequence after `value` was inserted so that it stands at `index`,
/// or at the end when `index` is not a position of `s`.
pub open spec fn inserted_at<T>(s: Seq<T>, value: T, index: nat) -> Seq<T> {
    s.insert(clamped(s.len(), index), value)
}

/// Comparing `held == value` may come out as `outcome`.
///
/// For a type with `T::obeys_eq_spec()` the only outcome is
/// `held.eq_spec(value)`.
pub open spec fn compared<T: PartialEq>(held: &T, value: &T, outcome: bool) -> bool {
    call_ensures(<T as PartialEq>::eq, (held, value), outcome)
}

/// A scan of `s` for `value` stops at position `i`: the elements before it
/// compared unequal to `value`, and the one at `i` equal.
pub open spec fn stops_at<T: PartialEq>(s: Seq<T>, value: T, i: int) -> bool {
    &&& 0 <= i < s.len()
    &&& compared(&s[i], &value, true)
    &&& forall|j: int| 0 <= j < i ==> compared(&#[trigger] s[j], &value, false)
}

/// A scan of `s` for `value` runs through: every element compared unequal
/// to `value`.
pub open spec fn runs_through<T: PartialEq>(s: Seq<T>, value: T) -> bool {
    forall|j: int| 0 <= j < s.len() ==> compared(&#[trigger] s[j], &value, false)
}

/// The element at position `i` of `s` compares equal to `value`.
pub open spec fn matches_at<T: PartialEq>(s: Seq<T>, value: T, i: int) -> bool {
    0 <= i < s.len() && s[i].eq_spec(&value)
}

/// Some element of `s` compares equal to `value`.
pub open spec fn has_match<T: PartialEq>(s: Seq<T>, value: T) -> bool {
    exists|i: int| matches_at(s, value, i)
}

/// Position `i` holds the first element of `s` that compares equal to `value`.
pub open spec fn is_first_match<T: PartialEq>(s: Seq<T>, value: T, i: int) -> bool {
    &&& matches_at(s, value, i)
    &&& forall|j: int| 0 <= j < i ==> !matches_at(s, value, j)
}

/// The position of the first element of `s` that compares equal to `value`.
pub open spec fn first_match<T: PartialEq>(s: Seq<T>, value: T) -> Option<int> {
    if has_match(s, value) {
        Some(choose|i: int| is_first_match(s, value, i))
    } else {
        None
    }
}

/// The first element of `s` that compares equal to `value`.
pub open spec fn first_match_value<T: PartialEq>(s: Seq<T>, value: T) -> Option<T> {
    match first_match(s, value) {
        Some(i) => Some(s[i]),
        None => None,
    }
}

/// The sequence `s` without the first element that compares equal to `value`;
/// `s` itself when there is none.
pub open spec fn without_first_match<T: PartialEq>(s: Seq<T>, value: T) -> Seq<T> {
    match first_match(s, value) {
        Some(i) => s.remove(i),
        None => s,
    }
}

/// Exactly one element of `s` compares equal to `value`.
pub open spec fn has_unique_match<T: PartialEq>(s: Seq<T>, value: T) -> bool {
    exists|i: int|
        #![trigger matches_at(s, value, i)]
        matches_at(s, value, i) && forall|j: int| matches_at(s, value, j) ==> j == i
}

/// The sequence after every element of `values` was put behind `s`, first to last.
pub open spec fn after_appends<T>(s: Seq<T>, values: Seq<T>) -> Seq<T>
    decreases values.len(),
{
    if values.len() == 0 {
        s
    } else {
        after_appends(pushed_back(s, values.first()), values.drop_first())
    }
}

/// The sequence after every element of `values` was put in front of `s`, first to last.
pub open spec fn after_adds<T>(s: Seq<T>, values: Seq<T>) -> Seq<T>
    decreases values.len(),
{
    if values.len() == 0 {
        s
    } else {
        after_adds(pushed_front(s, values.first()), values.drop_first())
    }
}

/// Two positions never both hold the first match.
pub proof fn lemma_first_match_is_unique<T: PartialEq>(s: Seq<T>, value: T, i: int, j: int)
    requires
        is_first_match(s, value, i),
        is_first_match(s, value, j),
    ensures
        i == j,
{
}

/// Where some element matches, one of them is the first.
pub proof fn lemma_first_match_exists<T: PartialEq>(s: Seq<T>, value: T, i: int)
    requires
        matches_at(s, value, i),
    ensures
        exists|k: int| 0 <= k <= i && is_first_match(s, value, k),
    decreases i,
{
    if exists|j: int| 0 <= j < i && matches_at(s, value, j) {
        let j = choose|j: int| 0 <= j < i && matches_at(s, value, j);
        lemma_first_match_exists(s, value, j);
    } else {
        assert(is_first_match(s, value, i));
    }
}

/// A position known to hold the first match is what `first_match` names.
pub proof fn lemma_first_match_found<T: PartialEq>(s: Seq<T>, value: T, i: int)
    requires
        is_first_match(s, value, i),
    ensures
        has_match(s, value),
        first_match(s, value) == Some(i),
        first_match_value(s, value) == Some(s[i]),
        without_first_match(s, value) == s.remove(i),
{
    let k = choose|k: int| is_first_match(s, value, k);
    lemma_first_match_is_unique(s, value, i, k);
}

/// For a type with `T::obeys_eq_spec()`, a scan stops at the first match.
pub proof fn lemma_scan_stops_at_first_match<T: PartialEq>(s: Seq<T>, value: T, i: int)
    requires
        T::obeys_eq_spec(),
        stops_at(s, value, i),
    ensures
        is_first_match(s, value, i),
        first_match(s, value) == Some(i),
{
    lemma_first_match_found(s, value, i);
}

/// For a type with `T::obeys_eq_spec()`, a scan runs through only where
/// nothing matches.
pub proof fn lemma_scan_runs_through_without_match<T: PartialEq>(s: Seq<T>, value: T)
    requires
        T::obeys_eq_spec(),
        runs_through(s, value),
    ensures
        !has_match(s, value),
        first_match(s, value) is None,
{
}

} // verus!
