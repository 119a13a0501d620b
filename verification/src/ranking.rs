//! Ranking a list of numbers: the greatest, the least, the runner-up, and
//! who holds them.

use vstd::prelude::*;

verus! {

/// The greatest of the values; zero for no values.
pub open spec fn greatest(values: Seq<int>) -> int
    decreases values.len(),
{
    if values.len() == 0 {
        0
    } else if values.len() == 1 {
        values[0]
    } else if greatest(values.drop_last()) >= values.last() {
        greatest(values.drop_last())
    } else {
        values.last()
    }
}

/// The least of the values; zero for no values.
pub open spec fn least(values: Seq<int>) -> int
    decreases values.len(),
{
    if values.len() == 0 {
        0
    } else if values.len() == 1 {
        values[0]
    } else if least(values.drop_last()) <= values.last() {
        least(values.drop_last())
    } else {
        values.last()
    }
}

/// The greatest of the values under `bound`; `bound` itself where no value
/// is under it.
pub open spec fn greatest_below(values: Seq<int>, bound: int) -> int
    decreases values.len(),
{
    if values.len() == 0 {
        bound
    } else {
        let before = greatest_below(values.drop_last(), bound);
        if values.last() < bound && (before == bound || values.last() > before) {
            values.last()
        } else {
            before
        }
    }
}

/// The positions that hold `value`, in rising order.
pub open spec fn positions_of(values: Seq<int>, value: int) -> Seq<int>
    decreases values.len(),
{
    if values.len() == 0 {
        Seq::empty()
    } else if values.last() == value {
        positions_of(values.drop_last(), value).push(values.len() - 1)
    } else {
        positions_of(values.drop_last(), value)
    }
}

/// How many of the values are `value`.
pub open spec fn occurrences(values: Seq<int>, value: int) -> nat {
    positions_of(values, value).len()
}

/// The greatest value is one of the values, and none is above it.
pub proof fn lemma_greatest(values: Seq<int>)
    requires
        values.len() > 0,
    ensures
        values.contains(greatest(values)),
        forall|i: int| 0 <= i < values.len() ==> values[i] <= greatest(values),
    decreases values.len(),
{
    if values.len() == 1 {
        assert(values[0] == greatest(values));
    } else {
        let init = values.drop_last();
        lemma_greatest(init);
        let i = choose|i: int| 0 <= i < init.len() && init[i] == greatest(init);
        assert(values[i] == greatest(init));
        assert(values[values.len() - 1] == values.last());
        assert forall|j: int| 0 <= j < values.len() implies values[j] <= greatest(values) by {
            if j < init.len() {
                assert(init[j] == values[j]);
            }
        }
    }
}

/// The least value is one of the values, and none is under it.
pub proof fn lemma_least(values: Seq<int>)
    requires
        values.len() > 0,
    ensures
        values.contains(least(values)),
        forall|i: int| 0 <= i < values.len() ==> values[i] >= least(values),
    decreases values.len(),
{
    if values.len() == 1 {
        assert(values[0] == least(values));
    } else {
        let init = values.drop_last();
        lemma_least(init);
        let i = choose|i: int| 0 <= i < init.len() && init[i] == least(init);
        assert(values[i] == least(init));
        assert(values[values.len() - 1] == values.last());
        assert forall|j: int| 0 <= j < values.len() implies values[j] >= least(values) by {
            if j < init.len() {
                assert(init[j] == values[j]);
            }
        }
    }
}

/// A value that none exceeds and that occurs is the greatest; likewise the
/// least.
pub proof fn lemma_greatest_is(values: Seq<int>, top: int, low: int)
    requires
        values.len() > 0,
    ensures
        values.contains(top) && (forall|i: int| 0 <= i < values.len() ==> values[i] <= top)
            ==> greatest(values) == top,
        values.contains(low) && (forall|i: int| 0 <= i < values.len() ==> values[i] >= low)
            ==> least(values) == low,
{
    lemma_greatest(values);
    lemma_least(values);
    if values.contains(top) && (forall|i: int| 0 <= i < values.len() ==> values[i] <= top) {
        let i = choose|i: int| 0 <= i < values.len() && values[i] == greatest(values);
        let j = choose|j: int| 0 <= j < values.len() && values[j] == top;
        assert(values[i] <= top && values[j] <= greatest(values));
    }
    if values.contains(low) && (forall|i: int| 0 <= i < values.len() ==> values[i] >= low) {
        let i = choose|i: int| 0 <= i < values.len() && values[i] == least(values);
        let j = choose|j: int| 0 <= j < values.len() && values[j] == low;
        assert(values[i] >= low && values[j] >= least(values));
    }
}

/// The runner-up is the greatest of the values under the bound: it is one of
/// them, and no value lies between it and the bound. Where it is the bound
/// itself, no value is under the bound.
pub proof fn lemma_greatest_below(values: Seq<int>, bound: int)
    ensures
        greatest_below(values, bound) <= bound,
        greatest_below(values, bound) < bound ==> values.contains(greatest_below(values, bound)),
        forall|i: int|
            0 <= i < values.len() && values[i] < bound ==> values[i] <= greatest_below(
                values,
                bound,
            ) < bound,
    decreases values.len(),
{
    if values.len() > 0 {
        let init = values.drop_last();
        lemma_greatest_below(init, bound);
        let before = greatest_below(init, bound);
        if before < bound {
            let i = choose|i: int| 0 <= i < init.len() && init[i] == before;
            assert(values[i] == before);
        }
        assert(values[values.len() - 1] == values.last());
        assert forall|j: int| 0 <= j < values.len() && values[j] < bound implies values[j]
            <= greatest_below(values, bound) < bound by {
            if j < init.len() {
                assert(init[j] == values[j]);
            }
        }
    }
}

/// The positions of a value are positions that hold it, each once and in
/// rising order, and every position that holds it is among them.
pub proof fn lemma_positions_of(values: Seq<int>, value: int)
    ensures
        occurrences(values, value) <= values.len(),
        forall|k: int|
            0 <= k < positions_of(values, value).len() ==> 0 <= (#[trigger] positions_of(
                values,
                value,
            )[k]) < values.len() && values[positions_of(values, value)[k]] == value,
        forall|k: int, l: int|
            0 <= k < l < positions_of(values, value).len() ==> positions_of(values, value)[k]
                < positions_of(values, value)[l],
        forall|i: int|
            0 <= i < values.len() && values[i] == value ==> positions_of(values, value).contains(
                i,
            ),
        values.contains(value) <==> occurrences(values, value) > 0,
    decreases values.len(),
{
    if values.len() > 0 {
        let init = values.drop_last();
        lemma_positions_of(init, value);
        let before = positions_of(init, value);
        let all = positions_of(values, value);
        assert forall|i: int| 0 <= i < values.len() && values[i] == value implies all.contains(
            i,
        ) by {
            if i < init.len() {
                assert(init[i] == value);
                let k = choose|k: int| 0 <= k < before.len() && before[k] == i;
                assert(all[k] == i);
            } else {
                assert(all[all.len() - 1] == i);
            }
        }
        if values.contains(value) {
            let i = choose|i: int| 0 <= i < values.len() && values[i] == value;
            assert(all.contains(i));
        }
        if all.len() > 0 {
            assert(values[all[0]] == value);
        }
    }
}

/// A value put into the list anywhere occurs once more, and the others as
/// often as before.
pub proof fn lemma_occurrences_insert(values: Seq<int>, at: int, new_value: int, value: int)
    requires
        0 <= at <= values.len(),
    ensures
        occurrences(values.insert(at, new_value), value) == occurrences(values, value)
            + if new_value == value {
            1nat
        } else {
            0nat
        },
    decreases values.len(),
{
    let longer = values.insert(at, new_value);
    if at == values.len() {
        assert(longer.drop_last() == values);
    } else {
        lemma_occurrences_insert(values.drop_last(), at, new_value, value);
        assert(longer.drop_last() == values.drop_last().insert(at, new_value));
        assert(longer.last() == values.last());
    }
}

/// Where all values are the same, the least is the greatest.
pub proof fn lemma_all_equal(values: Seq<int>)
    requires
        forall|i: int, j: int|
            0 <= i < values.len() && 0 <= j < values.len() ==> values[i] == values[j],
    ensures
        least(values) == greatest(values),
{
    if values.len() > 0 {
        lemma_greatest(values);
        lemma_least(values);
    }
}

} // verus!
