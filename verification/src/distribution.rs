//! How often each value occurs among some values.

use vstd::prelude::*;

verus! {

/// How often `value` occurs in `values`.
pub open spec fn occurrences(values: Seq<usize>, value: usize) -> nat
    decreases values.len(),
{
    if values.len() == 0 {
        0
    } else {
        let earlier = occurrences(values.drop_last(), value);
        if values.last() == value {
            earlier + 1
        } else {
            earlier
        }
    }
}

/// For each value that occurs in `values`, how often it occurs.
pub open spec fn tally(values: Seq<usize>) -> Map<usize, usize> {
    Map::new(|v: usize| values.contains(v), |v: usize| occurrences(values, v) as usize)
}

/// A value occurs at most as often as there are values, and at least once
/// exactly if the sequence holds it.
pub proof fn lemma_occurrences_bounds(values: Seq<usize>, value: usize)
    ensures
        occurrences(values, value) <= values.len(),
        occurrences(values, value) > 0 <==> values.contains(value),
    decreases values.len(),
{
    if values.len() > 0 {
        let earlier = values.drop_last();
        lemma_occurrences_bounds(earlier, value);
        if values.last() != value && values.contains(value) {
            let i = choose|i: int| 0 <= i < values.len() && values[i] == value;
            assert(earlier[i] == value);
        }
    }
}

/// What one more value does to the tally.
pub proof fn lemma_tally_push(values: Seq<usize>, value: usize)
    requires
        values.len() < usize::MAX,
    ensures
        tally(values.push(value)) == tally(values).insert(
            value,
            (occurrences(values, value) + 1) as usize,
        ),
        occurrences(values, value) + 1 <= usize::MAX,
        tally(values).contains_key(value) ==> tally(values)[value] == occurrences(values, value),
        !tally(values).contains_key(value) ==> occurrences(values, value) == 0,
{
    let longer = values.push(value);
    assert(longer.drop_last() =~= values);
    lemma_occurrences_bounds(values, value);
    assert forall|v: usize| longer.contains(v) <==> (v == value || values.contains(v)) by {
        assert(longer[values.len() as int] == value);
    }
}

/// The sum of the counts of a finite map.
pub open spec fn total(counts: Map<usize, usize>) -> nat
    decreases counts.dom().len(),
    when counts.dom().finite()
{
    if counts.dom().len() == 0 {
        0
    } else {
        let key = counts.dom().choose();
        counts[key] as nat + total(counts.remove(key))
    }
}

/// How many of `values` are in `keys`.
spec fn occurrences_among(values: Seq<usize>, keys: Set<usize>) -> nat
    decreases values.len(),
{
    if values.len() == 0 {
        0
    } else {
        let earlier = occurrences_among(values.drop_last(), keys);
        if keys.contains(values.last()) {
            earlier + 1
        } else {
            earlier
        }
    }
}

/// Taking one key out of a set takes the occurrences of that key out of the
/// count.
proof fn lemma_occurrences_split(values: Seq<usize>, keys: Set<usize>, key: usize)
    requires
        keys.contains(key),
    ensures
        occurrences_among(values, keys) == occurrences(values, key) + occurrences_among(
            values,
            keys.remove(key),
        ),
    decreases values.len(),
{
    if values.len() > 0 {
        lemma_occurrences_split(values.drop_last(), keys, key);
    }
}

/// A set that holds every value counts them all.
proof fn lemma_occurrences_all(values: Seq<usize>, keys: Set<usize>)
    requires
        forall|j: int| 0 <= j < values.len() ==> keys.contains(#[trigger] values[j]),
    ensures
        occurrences_among(values, keys) == values.len(),
    decreases values.len(),
{
    if values.len() > 0 {
        let earlier = values.drop_last();
        lemma_occurrences_all(earlier, keys);
    }
}

/// A map from some of the values to their occurrences adds up to the number
/// of values that are among its keys.
proof fn lemma_total_of_occurrences(values: Seq<usize>, counts: Map<usize, usize>)
    requires
        counts.dom().finite(),
        forall|key: usize| #[trigger]
            counts.contains_key(key) ==> counts[key] == occurrences(values, key),
    ensures
        total(counts) == occurrences_among(values, counts.dom()),
    decreases counts.dom().len(),
{
    if counts.dom().len() == 0 {
        assert(counts.dom() =~= Set::<usize>::empty());
        lemma_occurrences_none(values);
    } else {
        let key = counts.dom().choose();
        let fewer = counts.remove(key);
        lemma_total_of_occurrences(values, fewer);
        lemma_occurrences_split(values, counts.dom(), key);
    }
}

/// The empty set counts nothing.
proof fn lemma_occurrences_none(values: Seq<usize>)
    ensures
        occurrences_among(values, Set::empty()) == 0,
    decreases values.len(),
{
    if values.len() > 0 {
        lemma_occurrences_none(values.drop_last());
    }
}

/// The counts of a tally are finitely many and add up to the number of
/// values tallied.
pub proof fn lemma_tally_total(values: Seq<usize>)
    requires
        values.len() <= usize::MAX,
    ensures
        tally(values).dom().finite(),
        total(tally(values)) == values.len(),
{
    let counts = tally(values);
    vstd::seq_lib::seq_to_set_is_finite(values);
    assert forall|key: usize| #[trigger] counts.contains_key(key) implies counts[key]
        == occurrences(values, key) by {
        lemma_occurrences_bounds(values, key);
    }
    lemma_total_of_occurrences(values, counts);
    lemma_occurrences_all(values, counts.dom());
}

} // verus!
