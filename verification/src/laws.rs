//! Laws that relate the operations of the list to each other, stated over
//! the sequences of values that the contracts of the operations speak of.

use vstd::prelude::*;
use crate::model::{
    after_adds, after_appends, first_match_value, has_match, has_unique_match, inserted_at,
    is_first_match, lemma_first_match_exists, lemma_first_match_found, matches_at, pushed_back,
    pushed_front, without_first_match,
};

verus! {

/// Values appended one after another stand behind what was there, in the
/// order of the calls.
pub proof fn lemma_appends_extend<T>(s: Seq<T>, values: Seq<T>)
    ensures
        after_appends(s, values) == s + values,
    decreases values.len(),
{
    if values.len() > 0 {
        lemma_appends_extend(pushed_back(s, values.first()), values.drop_first());
    }
}

/// Appending values one after another to an empty list yields a list that
/// holds as many values as there were calls, in the order of the calls.
pub proof fn lemma_appends_keep_call_order<T>(values: Seq<T>)
    ensures
        after_appends(Seq::<T>::empty(), values) == values,
        after_appends(Seq::<T>::empty(), values).len() == values.len(),
{
    lemma_appends_extend(Seq::<T>::empty(), values);
}

/// Values added one after another stand in front of what was there, in the
/// reverse order of the calls.
pub proof fn lemma_adds_extend<T>(s: Seq<T>, values: Seq<T>)
    ensures
        after_adds(s, values) == values.reverse() + s,
    decreases values.len(),
{
    if values.len() > 0 {
        lemma_adds_extend(pushed_front(s, values.first()), values.drop_first());
    }
}

/// Adding values one after another to an empty list yields a list that
/// holds as many values as there were calls, in the reverse order of the calls.
pub proof fn lemma_adds_reverse_call_order<T>(values: Seq<T>)
    ensures
        after_adds(Seq::<T>::empty(), values) == values.reverse(),
        after_adds(Seq::<T>::empty(), values).len() == values.len(),
{
    lemma_adds_extend(Seq::<T>::empty(), values);
}

/// Inserting at index 0 does what adding does, whatever the list holds.
pub proof fn lemma_insert_at_front_is_add<T>(s: Seq<T>, value: T)
    ensures
        inserted_at(s, value, 0) == pushed_front(s, value),
{
}

/// Inserting at an index that is no position of the list does what
/// appending does.
pub proof fn lemma_insert_past_end_is_append<T>(s: Seq<T>, value: T, index: nat)
    requires
        index >= s.len(),
    ensures
        inserted_at(s, value, index) == pushed_back(s, value),
{
}

/// Removing a value that the list holds gives a value back and makes the
/// list shorter by exactly one; where the value was the only one of its
/// kind, the list holds it no more.
pub proof fn lemma_remove_present<T: PartialEq>(s: Seq<T>, value: T)
    requires
        has_match(s, value),
    ensures
        first_match_value(s, value) is Some,
        without_first_match(s, value).len() == s.len() - 1,
        has_unique_match(s, value) ==> !has_match(without_first_match(s, value), value),
{
    let some = choose|i: int| matches_at(s, value, i);
    lemma_first_match_exists(s, value, some);
    let first = choose|k: int| 0 <= k <= some && is_first_match(s, value, k);
    lemma_first_match_found(s, value, first);
    if has_unique_match(s, value) {
        // The first match is the only one, and what matches in the rest
        // matched before, at another position than the first.
        let rest = s.remove(first);
        assert forall|i: int| !matches_at(rest, value, i) by {
            if matches_at(rest, value, i) {
                let from = if i < first { i } else { i + 1 };
                assert(matches_at(s, value, from));
            }
        }
    }
}

/// Removing a value that the list does not hold gives nothing back and
/// leaves the list as it was.
pub proof fn lemma_remove_absent<T: PartialEq>(s: Seq<T>, value: T)
    requires
        !has_match(s, value),
    ensures
        first_match_value(s, value) is None,
        without_first_match(s, value) == s,
{
}

/// Removing the only value of a list leaves the empty list, and removing
/// anything from the empty list gives nothing back and leaves it empty.
pub proof fn lemma_remove_last_value<T: PartialEq>(s: Seq<T>, value: T, other: T)
    requires
        s.len() == 1,
        has_match(s, value),
    ensures
        without_first_match(s, value) == Seq::<T>::empty(),
        first_match_value(Seq::<T>::empty(), other) is None,
        without_first_match(Seq::<T>::empty(), other) == Seq::<T>::empty(),
{
    lemma_remove_present(s, value);
}

} // verus!
