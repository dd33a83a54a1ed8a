//! A copy of a peer's input queue, taken at one instant so that it can be looked at twice.

use std::collections::BTreeMap;
use vstd::prelude::*;
use vstd::std_specs::btree::{increasing_seq, spec_btree_map_iter};
use vstd::std_specs::cmp::OrdSpec;
use vstd::std_specs::iter::IteratorSpec;

verus! {

broadcast use vstd::laws_cmp::group_laws_cmp;

/// What a peer holds in its input queue: by tick, and for a tick by player.
#[derive(Clone, Debug)]
pub struct InputQueueView<I> {
    inputs: BTreeMap<u64, BTreeMap<u128, I>>,
}

impl<I> View for InputQueueView<I> {
    type V = Map<u64, Map<u128, I>>;

    closed spec fn view(&self) -> Map<u64, Map<u128, I>> {
        self.inputs@.map_values(|players: BTreeMap<u128, I>| players@)
    }
}

/// Whether `ticks` lists the ticks of `queue`, earliest first.
pub open spec fn lists_ticks<I>(queue: Map<u64, Map<u128, I>>, ticks: Seq<u64>) -> bool {
    &&& forall|j: int, k: int| 0 <= j < k < ticks.len() ==> #[trigger] ticks[j] < #[trigger] ticks[k]
    &&& forall|tick: u64| ticks.contains(tick) <==> #[trigger] queue.contains_key(tick)
}

/// Whether a queue holds an input from `uuid` for `tick`.
pub open spec fn has_input<I>(queue: Map<u64, Map<u128, I>>, tick: u64, uuid: u128) -> bool {
    queue.contains_key(tick) && queue[tick].contains_key(uuid)
}

impl<I: Clone> InputQueueView<I> {
    /// A view of these inputs.
    pub fn new(inputs: BTreeMap<u64, BTreeMap<u128, I>>) -> (view: Self)
        ensures
            view@ == inputs@.map_values(|players: BTreeMap<u128, I>| players@),
    {
        InputQueueView { inputs }
    }

    /// Every tick with at least one input, ascending.
    pub fn ticks(&self) -> (ticks: Vec<u64>)
        ensures
            lists_ticks(self@, ticks@),
    {
        let mut ticks: Vec<u64> = Vec::new();
        let all = self.inputs.iter();
        let ghost entries = all.remaining();
        let ghost keys = entries.map_values(|entry: (&u64, &BTreeMap<u128, I>)| *entry.0);
        assert(entries == spec_btree_map_iter(&self.inputs).remaining());
        for entry in it: all
            invariant
                it.seq() == entries,
                ticks@.len() == it.index(),
                forall|k: int| 0 <= k < ticks@.len() ==> #[trigger] ticks@[k] == *entries[k].0,
        {
            ticks.push(*entry.0);
        }
        proof {
            assert(increasing_seq(keys));
            assert forall|j: int, k: int| 0 <= j < k < ticks@.len() implies #[trigger] ticks@[j]
                < #[trigger] ticks@[k] by {
                assert(keys[j] == ticks@[j] && keys[k] == ticks@[k]);
                assert(keys[j].cmp_spec(&keys[k]) is Less);
            }
            assert forall|tick: u64| ticks@.contains(tick) <==> #[trigger] self@.contains_key(
                tick,
            ) by {
                if ticks@.contains(tick) {
                    let k = choose|k: int| 0 <= k < ticks@.len() && ticks@[k] == tick;
                    assert(self.inputs@.contains_key(*entries[k].0));
                }
                if self@.contains_key(tick) {
                    assert(self.inputs@.contains_key(tick));
                    assert(entries.contains((&tick, &self.inputs@[tick])));
                    let k = choose|k: int|
                        0 <= k < entries.len() && entries[k] == (&tick, &self.inputs@[tick]);
                    assert(ticks@[k] == tick);
                }
            }
        }
        ticks
    }

    /// Every player's input at `tick`.
    pub fn at(&self, tick: u64) -> (players: BTreeMap<u128, I>)
        ensures
            players@ == (if self@.contains_key(tick) {
                self@[tick]
            } else {
                Map::empty()
            }),
    {
        match self.inputs.get(&tick) {
            Some(players) => players.clone(),
            None => BTreeMap::new(),
        }
    }

    /// The newest tick this queue holds an input from `uuid` for. `None` is how a test tells
    /// "the input was lost" from "it arrived and did nothing".
    pub fn newest_for(&self, uuid: u128) -> (newest: Option<u64>)
        ensures
            match newest {
                Some(tick) => has_input(self@, tick, uuid) && forall|other: u64| #[trigger]
                    has_input(self@, other, uuid) ==> other <= tick,
                None => forall|tick: u64| !#[trigger] has_input(self@, tick, uuid),
            },
    {
        let ticks = self.ticks();
        let mut index: usize = ticks.len();
        while index > 0
            invariant
                index <= ticks@.len(),
                lists_ticks(self@, ticks@),
                forall|k: int|
                    index <= k < ticks@.len() ==> !has_input(self@, #[trigger] ticks@[k], uuid),
            decreases index,
        {
            index = index - 1;
            let tick: u64 = ticks[index];
            assert(ticks@.contains(ticks@[index as int]));
            assert(self@.contains_key(tick));
            if let Some(players) = self.inputs.get(&tick) {
                if players.contains_key(&uuid) {
                    assert forall|other: u64| #[trigger]
                        has_input(self@, other, uuid) implies other <= tick by {
                        assert(ticks@.contains(other));
                        let k = choose|k: int| 0 <= k < ticks@.len() && ticks@[k] == other;
                        assert(has_input(self@, ticks@[k], uuid));
                        if k > index {
                            assert(!has_input(self@, ticks@[k], uuid));
                        }
                    }
                    return Some(tick);
                }
            }
        }
        assert forall|tick: u64| !#[trigger] has_input(self@, tick, uuid) by {
            if has_input(self@, tick, uuid) {
                assert(ticks@.contains(tick));
                let k = choose|k: int| 0 <= k < ticks@.len() && ticks@[k] == tick;
                assert(!has_input(self@, ticks@[k], uuid));
            }
        }
        None
    }

    /// How many ticks hold any input.
    pub fn len(&self) -> (count: usize)
        ensures
            count == self@.dom().len(),
    {
        let count: usize = self.inputs.len();
        assert(self@.dom() =~= self.inputs@.dom());
        count
    }

    /// Whether no tick holds any input.
    pub fn is_empty(&self) -> (empty: bool)
        ensures
            empty == (self@.dom().len() == 0),
    {
        self.len() == 0
    }
}

/// A tick is listed exactly when somebody's inputs are queued for it, earliest first.
pub proof fn lemma_queued_ticks_are_listed<I>(
    queue: Map<u64, Map<u128, I>>,
    ticks: Seq<u64>,
    tick: u64,
    uuid: u128,
)
    requires
        lists_ticks(queue, ticks),
    ensures
        ticks.contains(tick) <==> queue.contains_key(tick),
        has_input(queue, tick, uuid) ==> ticks.contains(tick) && queue[tick].contains_key(uuid),
        queue.contains_key(tick) && queue[tick].contains_key(uuid) ==> has_input(queue, tick, uuid),
        forall|j: int, k: int| 0 <= j < k < ticks.len() ==> #[trigger] ticks[j] < #[trigger] ticks[k],
{
    assert(ticks.contains(tick) <==> queue.contains_key(tick));
}

} // verus!
