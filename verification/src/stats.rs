//! Order statistics of timing samples.
use vstd::prelude::*;

verus! {

/// `values` is in non-decreasing order.
pub open spec fn is_sorted(values: Seq<u128>) -> bool {
    forall|i: int, j: int| 0 <= i <= j < values.len() ==> #[trigger] values[i] <= #[trigger] values[j]
}

/// A copy of `values` in non-decreasing order: the same elements, each as often.
pub fn sorted_copy(values: &Vec<u128>) -> (sorted: Vec<u128>)
    ensures
        sorted@.to_multiset() == values@.to_multiset(),
        is_sorted(sorted@),
{
    let mut sorted: Vec<u128> = Vec::new();
    let mut index: usize = 0;
    assert(values@.take(0) =~= Seq::<u128>::empty());
    while index < values.len()
        invariant
            index <= values.len(),
            sorted@.to_multiset() == values@.take(index as int).to_multiset(),
            is_sorted(sorted@),
        decreases values.len() - index,
    {
        let value = values[index];
        let mut position: usize = sorted.len();
        while position > 0 && sorted[position - 1] > value
            invariant
                position <= sorted.len(),
                forall|k: int| position <= k < sorted.len() ==> sorted@[k] > value,
            decreases position,
        {
            position = position - 1;
        }
        let ghost before = sorted@;
        sorted.insert(position, value);
        proof {
            assert(values@.take(index as int + 1) =~= values@.take(index as int).push(value));
            vstd::seq_lib::to_multiset_build(values@.take(index as int), value);
            assert(sorted@ == before.insert(position as int, value));
            vstd::seq_lib::to_multiset_insert(before, position as int, value);
            assert forall|i: int, j: int| 0 <= i <= j < sorted@.len() implies #[trigger] sorted@[i]
                <= #[trigger] sorted@[j] by {
                if j < position {
                    assert(sorted@[i] == before[i] && sorted@[j] == before[j]);
                } else if j == position {
                    if i < j {
                        assert(before[i] <= before[position - 1]);
                    }
                } else {
                    assert(sorted@[j] == before[j - 1]);
                    if i < position {
                        assert(sorted@[i] == before[i]);
                    } else if i > position {
                        assert(sorted@[i] == before[i - 1]);
                    }
                }
            }
        }
        index = index + 1;
    }
    assert(values@.take(values.len() as int) =~= values@);
    sorted
}

/// The median of the samples: the element at index `len / 2` once they are sorted, which
/// for an even count is the upper of the two middle elements.
pub fn median(durations: Vec<u128>) -> (middle: u128)
    requires
        durations.len() > 0,
    ensures
        exists|sorted: Seq<u128>|
            #![trigger is_sorted(sorted)]
            is_sorted(sorted) && sorted.to_multiset() == durations@.to_multiset()
                && sorted.len() == durations.len() && middle == sorted[(durations.len() / 2) as int],
{
    let sorted = sorted_copy(&durations);
    proof {
        vstd::seq_lib::to_multiset_len(sorted@);
        vstd::seq_lib::to_multiset_len(durations@);
    }
    let middle = sorted[durations.len() / 2];
    assert(is_sorted(sorted@));
    middle
}

} // verus!
