//! Lists of numbers in order.

use vstd::prelude::*;

verus! {

broadcast use vstd::seq_lib::group_to_multiset_ensures;

/// Whether no number is larger than one behind it.
pub open spec fn is_sorted(list: Seq<u64>) -> bool {
    forall|j: int, k: int| 0 <= j < k < list.len() ==> #[trigger] list[j] <= #[trigger] list[k]
}

/// Whether every number is smaller than those behind it.
pub open spec fn is_rising(list: Seq<u64>) -> bool {
    forall|j: int, k: int| 0 <= j < k < list.len() ==> #[trigger] list[j] < #[trigger] list[k]
}

/// The numbers of `list`, smallest first.
pub fn sorted(list: &Vec<u64>) -> (ordered: Vec<u64>)
    ensures
        is_sorted(ordered@),
        ordered@.to_multiset() == list@.to_multiset(),
        ordered@.len() == list@.len(),
        forall|value: u64| ordered@.contains(value) <==> list@.contains(value),
{
    let mut ordered: Vec<u64> = Vec::new();
    let mut index: usize = 0;
    assert(list@.take(0) =~= Seq::<u64>::empty());
    while index < list.len()
        invariant
            index <= list@.len(),
            is_sorted(ordered@),
            ordered@.to_multiset() == list@.take(index as int).to_multiset(),
        decreases list@.len() - index,
    {
        let value: u64 = list[index];
        assert(list@.take(index + 1) =~= list@.take(index as int).push(value));
        let mut end: usize = ordered.len();
        while end > 0 && ordered[end - 1] > value
            invariant
                end <= ordered@.len(),
                forall|k: int| end <= k < ordered@.len() ==> ordered@[k] > value,
            decreases end,
        {
            end = end - 1;
        }
        let ghost had = ordered@;
        assert forall|k: int| 0 <= k < end implies had[k] <= value by {
            if k < end - 1 {
                assert(had[k] <= had[end - 1]);
            }
        }
        ordered.insert(end, value);
        assert forall|j: int, k: int| 0 <= j < k < ordered@.len() implies #[trigger] ordered@[j]
            <= #[trigger] ordered@[k] by {
            let from = if j <= end {
                j
            } else {
                j - 1
            };
            let to = if k <= end {
                k
            } else {
                k - 1
            };
            if j != end && k != end {
                assert(ordered@[j] == had[from] && ordered@[k] == had[to]);
            } else if j == end {
                assert(ordered@[k] == had[k - 1]);
            } else {
                assert(ordered@[j] == had[j]);
            }
        }
        index = index + 1;
    }
    assert(list@.take(index as int) =~= list@);
    assert(ordered@.to_multiset().len() == list@.to_multiset().len());
    assert forall|value: u64| ordered@.contains(value) <==> list@.contains(value) by {
        assert(ordered@.contains(value) <==> ordered@.to_multiset().count(value) > 0);
        assert(list@.contains(value) <==> list@.to_multiset().count(value) > 0);
    }
    ordered
}

/// The distinct numbers of `list`, smallest first.
pub fn distinct(list: &Vec<u64>) -> (ordered: Vec<u64>)
    ensures
        is_rising(ordered@),
        forall|value: u64| ordered@.contains(value) <==> list@.contains(value),
{
    let all = sorted(list);
    let mut ordered: Vec<u64> = Vec::new();
    let mut index: usize = 0;
    while index < all.len()
        invariant
            index <= all@.len(),
            is_sorted(all@),
            is_rising(ordered@),
            forall|k: int| 0 <= k < index ==> ordered@.contains(#[trigger] all@[k]),
            forall|k: int| 0 <= k < ordered@.len() ==> all@.contains(#[trigger] ordered@[k]),
            ordered@.len() > 0 ==> index > 0 && ordered@.last() == all@[index - 1],
            index > 0 ==> ordered@.len() > 0,
        decreases all@.len() - index,
    {
        let value: u64 = all[index];
        let ghost had = ordered@;
        if ordered.len() == 0 || ordered[ordered.len() - 1] != value {
            assert(had.len() > 0 ==> had.last() < value) by {
                if had.len() > 0 {
                    assert(all@[index - 1] <= all@[index as int]);
                }
            }
            ordered.push(value);
            assert forall|k: int| 0 <= k < index implies ordered@.contains(
                #[trigger] all@[k],
            ) by {
                let place = choose|i: int| 0 <= i < had.len() && had[i] == all@[k];
                assert(had.contains(all@[k]));
                assert(ordered@[place] == all@[k]);
            }
            assert(ordered@[had.len() as int] == value);
            assert(ordered@.contains(all@[index as int]));
            assert forall|j: int, k: int| 0 <= j < k < ordered@.len() implies #[trigger] ordered@[j]
                < #[trigger] ordered@[k] by {
                if k == had.len() && j < had.len() - 1 {
                    assert(had[j] < had[had.len() - 1]);
                }
            }
            assert forall|k: int| 0 <= k < ordered@.len() implies all@.contains(
                #[trigger] ordered@[k],
            ) by {
                if k < had.len() {
                    assert(ordered@[k] == had[k]);
                } else {
                    assert(all@[index as int] == ordered@[k]);
                }
            }
        } else {
            assert(ordered@[ordered@.len() - 1] == value);
        }
        index = index + 1;
    }
    assert forall|value: u64| ordered@.contains(value) <==> list@.contains(value) by {
        if ordered@.contains(value) {
            let place = choose|i: int| 0 <= i < ordered@.len() && ordered@[i] == value;
            assert(all@.contains(ordered@[place]));
        }
        if all@.contains(value) {
            let place = choose|i: int| 0 <= i < all@.len() && all@[i] == value;
            assert(ordered@.contains(all@[place]));
        }
    }
    ordered
}

/// There is one way to put numbers in order.
pub proof fn lemma_order_is_unique(left: Seq<u64>, right: Seq<u64>)
    requires
        is_sorted(left),
        is_sorted(right),
        left.to_multiset() == right.to_multiset(),
    ensures
        left == right,
    decreases left.len(),
{
    assert(left.to_multiset().len() == left.len());
    assert(right.to_multiset().len() == right.len());
    if left.len() > 0 {
        let last = left.last();
        assert(left.contains(last) && right.contains(right.last()));
        assert(right.to_multiset().count(last) > 0);
        assert(left.to_multiset().count(right.last()) > 0);
        assert(right.contains(last) && left.contains(right.last()));
        let i = choose|i: int| 0 <= i < right.len() && right[i] == last;
        let j = choose|j: int| 0 <= j < left.len() && left[j] == right.last();
        assert(last <= right.last());
        assert(right.last() <= last);
        let a = left.drop_last();
        let b = right.drop_last();
        assert(a.push(last) =~= left);
        assert(b.push(right.last()) =~= right);
        assert(a.to_multiset() =~= left.to_multiset().remove(last));
        assert(b.to_multiset() =~= right.to_multiset().remove(last));
        lemma_order_is_unique(a, b);
    } else {
        assert(left =~= right);
    }
}

/// There is one way to list distinct numbers in order.
pub proof fn lemma_rising_is_unique(left: Seq<u64>, right: Seq<u64>)
    requires
        is_rising(left),
        is_rising(right),
        forall|value: u64| left.contains(value) <==> right.contains(value),
    ensures
        left == right,
    decreases left.len(),
{
    if left.len() == 0 {
        if right.len() > 0 {
            assert(right.contains(right[0]));
            assert(left.contains(right[0]));
        }
        assert(left =~= right);
    } else {
        assert(left.contains(left[left.len() - 1]));
        assert(right.len() > 0);
        assert(right.contains(right[right.len() - 1]));
        assert(right.contains(left.last()) && left.contains(right.last()));
        let i = choose|i: int| 0 <= i < right.len() && right[i] == left.last();
        let j = choose|j: int| 0 <= j < left.len() && left[j] == right.last();
        assert(left.last() == right.last());
        let a = left.drop_last();
        let b = right.drop_last();
        assert forall|value: u64| a.contains(value) <==> b.contains(value) by {
            if a.contains(value) {
                let k = choose|k: int| 0 <= k < a.len() && a[k] == value;
                assert(left[k] == value && left.contains(value));
                let m = choose|m: int| 0 <= m < right.len() && right[m] == value;
                assert(left[k] < left[left.len() - 1]);
                assert(m < b.len());
                assert(b[m] == value);
            }
            if b.contains(value) {
                let k = choose|k: int| 0 <= k < b.len() && b[k] == value;
                assert(right[k] == value && right.contains(value));
                let m = choose|m: int| 0 <= m < left.len() && left[m] == value;
                assert(right[k] < right[right.len() - 1]);
                assert(m < a.len());
                assert(a[m] == value);
            }
        }
        lemma_rising_is_unique(a, b);
        assert(a.push(left.last()) =~= left);
        assert(b.push(right.last()) =~= right);
    }
}

} // verus!
