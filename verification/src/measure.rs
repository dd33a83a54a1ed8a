//! Numbers a test can put a budget on.

use vstd::prelude::*;

use crate::packets::SnapshotOnWire;

verus! {

/// How many ticks a peer advanced, from the ticks it was at before and after. Per frame, 1 is a
/// peer keeping up; a frozen or paused one reads 0.
pub fn measure_tick_rate(before: u64, after: u64) -> (ticks: u64)
    requires
        before <= after,
    ensures
        ticks == after - before,
{
    after - before
}

/// Why a press cannot be measured: what it should change is so already.
#[derive(Clone, Copy, Debug, PartialEq, Eq, Structural)]
pub struct AlreadyMoved;

/// Frames from a peer first holding a press until the host shows it.
///
/// `moved[0]` says whether the host shows it before anything is pressed, and `moved[k]` after the
/// `k`th frame of holding it; there is one for every frame that has run. `None` where it has not
/// shown, which is also what a press that changes nothing produces. Fails if it shows before
/// anything is pressed: the probe would be measuring something other than the press.
pub fn measure_input_latency(moved: &Vec<bool>) -> (frames: Result<Option<usize>, AlreadyMoved>)
    requires
        moved@.len() > 0,
    ensures
        match frames {
            Err(_) => moved@[0],
            Ok(Some(frame)) => {
                &&& 1 <= frame < moved@.len()
                &&& moved@[frame as int]
                &&& forall|k: int| 0 <= k < frame ==> !moved@[k]
            },
            Ok(None) => forall|k: int| 0 <= k < moved@.len() ==> !moved@[k],
        },
{
    if moved[0] {
        return Err(AlreadyMoved);
    }
    let mut frame: usize = 1;
    while frame < moved.len()
        invariant
            1 <= frame <= moved@.len(),
            forall|k: int| 0 <= k < frame ==> !moved@[k],
        decreases moved@.len() - frame,
    {
        if moved[frame] {
            return Ok(Some(frame));
        }
        frame = frame + 1;
    }
    Ok(None)
}

/// What ticks have cost, in nanoseconds.
#[derive(Clone, Copy, Debug, PartialEq, Eq, Structural)]
pub struct TickCostReport {
    pub ticks: u64,
    pub mean: u128,
    pub worst: u128,
}

/// What ticks have cost, or nothing where nobody has counted.
pub fn measure_tick_cost(counted: Option<TickCostReport>) -> (report: TickCostReport)
    ensures
        report == (match counted {
            Some(cost) => cost,
            None => TickCostReport { ticks: 0, mean: 0, worst: 0 },
        }),
{
    match counted {
        Some(cost) => cost,
        None => TickCostReport { ticks: 0, mean: 0, worst: 0 },
    }
}

/// Snapshot traffic from one peer to another over a window, as totals.
#[derive(Clone, Copy, Debug, PartialEq, Eq, Structural)]
pub struct SnapshotTotals {
    pub total_bytes: u128,
    pub max_bytes: usize,
    pub packets: usize,
}

/// The sizes of the snapshots handed over behind frame `start`.
pub open spec fn sizes_after(sent: Seq<SnapshotOnWire>, start: u64) -> Seq<usize> {
    sent.filter(|one: SnapshotOnWire| one.frame > start).map_values(
        |one: SnapshotOnWire| one.bytes,
    )
}

/// The sum of sizes.
pub open spec fn sum(sizes: Seq<usize>) -> int
    decreases sizes.len(),
{
    if sizes.len() == 0 {
        0
    } else {
        sum(sizes.drop_last()) + sizes.last()
    }
}

/// The largest of sizes, or 0.
pub open spec fn largest(sizes: Seq<usize>) -> int
    decreases sizes.len(),
{
    if sizes.len() == 0 {
        0
    } else if largest(sizes.drop_last()) >= sizes.last() {
        largest(sizes.drop_last())
    } else {
        sizes.last() as int
    }
}

/// The snapshots that were handed over behind frame `start`, as totals: their bytes in all, the
/// largest, and how many there are.
pub fn measure_snapshot_size(sent: &Vec<SnapshotOnWire>, start: u64) -> (totals: SnapshotTotals)
    ensures
        ({
            let sizes = sizes_after(sent@, start);
            &&& totals.total_bytes == sum(sizes)
            &&& totals.max_bytes == largest(sizes)
            &&& totals.packets == sizes.len()
        }),
{
    let mut total: u128 = 0;
    let mut most: usize = 0;
    let mut packets: usize = 0;
    let mut index: usize = 0;
    let ghost keep = |one: SnapshotOnWire| one.frame > start;
    let ghost size = |one: SnapshotOnWire| one.bytes;
    reveal(Seq::filter);
    assert(sent@.take(0).filter(keep).map_values(size) =~= Seq::<usize>::empty());
    while index < sent.len()
        invariant
            index <= sent@.len(),
            keep == (|one: SnapshotOnWire| one.frame > start),
            size == (|one: SnapshotOnWire| one.bytes),
            total == sum(sent@.take(index as int).filter(keep).map_values(size)),
            most == largest(sent@.take(index as int).filter(keep).map_values(size)),
            packets == sent@.take(index as int).filter(keep).map_values(size).len(),
            packets <= index,
            total <= packets * 0xffff_ffff_ffff_ffff,
        decreases sent@.len() - index,
    {
        let ghost upto = sent@.take(index + 1);
        let ghost less = sent@.take(index as int).filter(keep).map_values(size);
        assert(upto.drop_last() =~= sent@.take(index as int));
        assert(upto.last() == sent@[index as int]);
        reveal(Seq::filter);
        let one = sent[index];
        if one.frame > start {
            let ghost more = upto.filter(keep).map_values(size);
            assert(more =~= less.push(one.bytes));
            assert(more.drop_last() =~= less);
            assert(packets * 0xffff_ffff_ffff_ffff <= 0xffff_ffff_ffff_ffff * 0xffff_ffff_ffff_ffff)
                by (nonlinear_arith)
                requires
                    packets <= 0xffff_ffff_ffff_ffff,
            ;
            total = total + one.bytes as u128;
            if most < one.bytes {
                most = one.bytes;
            }
            packets = packets + 1;
        }
        index = index + 1;
    }
    assert(sent@.take(index as int) =~= sent@);
    SnapshotTotals { total_bytes: total, max_bytes: most, packets }
}

/// The largest snapshot is no smaller than any, and is one of them where there are any.
pub proof fn lemma_largest(sizes: Seq<usize>)
    ensures
        forall|k: int| 0 <= k < sizes.len() ==> #[trigger] sizes[k] <= largest(sizes),
        sizes.len() > 0 ==> exists|k: int|
            0 <= k < sizes.len() && #[trigger] sizes[k] == largest(sizes),
    decreases sizes.len(),
{
    if sizes.len() > 0 {
        let front = sizes.drop_last();
        lemma_largest(front);
        assert forall|k: int| 0 <= k < sizes.len() implies #[trigger] sizes[k] <= largest(
            sizes,
        ) by {
            if k < front.len() {
                assert(front[k] == sizes[k]);
            }
        }
        if largest(front) >= sizes.last() && front.len() > 0 {
            let k = choose|k: int| 0 <= k < front.len() && #[trigger] front[k] == largest(front);
            assert(sizes[k] == largest(sizes));
        } else {
            assert(sizes[sizes.len() - 1] == largest(sizes));
        }
    }
}

/// What is counted adds up: of two stretches of a trace, one behind the other, the sizes are those
/// of the first and behind them those of the second, the bytes of both together, and the largest
/// the larger of the two.
pub proof fn lemma_sizes_add_up(
    one: Seq<SnapshotOnWire>,
    other: Seq<SnapshotOnWire>,
    start: u64,
)
    ensures
        sizes_after(one + other, start) == sizes_after(one, start) + sizes_after(other, start),
        sum(sizes_after(one + other, start)) == sum(sizes_after(one, start)) + sum(
            sizes_after(other, start),
        ),
        largest(sizes_after(one + other, start)) >= largest(sizes_after(one, start)),
        largest(sizes_after(one + other, start)) >= largest(sizes_after(other, start)),
        largest(sizes_after(one + other, start)) == largest(sizes_after(one, start)) || largest(
            sizes_after(one + other, start),
        ) == largest(sizes_after(other, start)),
{
    let late = |sent: SnapshotOnWire| sent.frame > start;
    Seq::filter_distributes_over_add(one, other, late);
    assert(sizes_after(one + other, start) =~= sizes_after(one, start) + sizes_after(other, start));
    lemma_sum_adds_up(sizes_after(one, start), sizes_after(other, start));
    lemma_largest_of_both(sizes_after(one, start), sizes_after(other, start));
}

/// A snapshot counts with its size exactly when it was sent behind the frame at which the
/// measurement began.
pub proof fn lemma_snapshot_counts_behind_the_start(sent: SnapshotOnWire, start: u64)
    ensures
        sizes_after(seq![sent], start) == (if sent.frame > start {
            seq![sent.bytes]
        } else {
            Seq::empty()
        }),
        sent.frame > start ==> sum(sizes_after(seq![sent], start)) == sent.bytes && largest(
            sizes_after(seq![sent], start),
        ) == sent.bytes,
        sent.frame <= start ==> sum(sizes_after(seq![sent], start)) == 0 && largest(
            sizes_after(seq![sent], start),
        ) == 0,
{
    reveal(Seq::filter);
    let late = |one: SnapshotOnWire| one.frame > start;
    assert(seq![sent].drop_last() =~= Seq::empty());
    assert(seq![sent].drop_last().filter(late) =~= Seq::empty());
    let sizes = sizes_after(seq![sent], start);
    if sent.frame > start {
        assert(seq![sent].filter(late) =~= seq![sent]);
        assert(sizes =~= seq![sent.bytes]);
        assert(sizes.drop_last() =~= Seq::empty());
        assert(sum(sizes.drop_last()) == 0);
        assert(largest(sizes.drop_last()) == 0);
    } else {
        assert(sizes =~= Seq::empty());
    }
}

proof fn lemma_sum_adds_up(one: Seq<usize>, other: Seq<usize>)
    ensures
        sum(one + other) == sum(one) + sum(other),
    decreases other.len(),
{
    if other.len() == 0 {
        assert(one + other =~= one);
    } else {
        lemma_sum_adds_up(one, other.drop_last());
        assert((one + other).drop_last() =~= one + other.drop_last());
    }
}

proof fn lemma_largest_of_both(one: Seq<usize>, other: Seq<usize>)
    ensures
        largest(one + other) == (if largest(one) >= largest(other) {
            largest(one)
        } else {
            largest(other)
        }),
        largest(one) >= 0,
        largest(other) >= 0,
    decreases one.len() + other.len(),
{
    if other.len() == 0 {
        assert(one + other =~= one);
        if one.len() > 0 {
            lemma_largest_of_both(one.drop_last(), other);
        }
    } else {
        lemma_largest_of_both(one, other.drop_last());
        assert((one + other).drop_last() =~= one + other.drop_last());
    }
}

} // verus!
