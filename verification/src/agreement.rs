//! Assertions in the vocabulary of a session: agreement, id invariants, byte and correction
//! budgets, convergence.
//!
//! Each one fails with the number that failed and the tick it failed on, and each one guards
//! against its own vacuity: an agreement check with no tick to compare, a bandwidth check across
//! zero ticks.

use std::collections::BTreeSet;
use vstd::prelude::*;

use crate::numbers::{distinct, is_rising, is_sorted, lemma_rising_is_unique, sorted};

verus! {

broadcast use vstd::laws_cmp::group_laws_cmp;

// ---- agreement -------------------------------------------------------------------------------

/// What a peer recorded: its samples in the order it took them. Two samples are the same exactly
/// when their second halves are equal numbers.
pub struct ChecksumLog {
    pub samples: Vec<(u64, u64)>,
}

/// Whether a log has a sample for `tick`.
pub open spec fn has_sampled(log: Seq<(u64, u64)>, tick: u64) -> bool {
    exists|k: int| 0 <= k < log.len() && (#[trigger] log[k]).0 == tick
}

/// The place of the first sample for `tick`, at or after `from`, or the length of the log.
pub open spec fn first_place(log: Seq<(u64, u64)>, tick: u64, from: int) -> int
    decreases log.len() - from,
{
    if from < 0 || from >= log.len() || log[from].0 == tick {
        from
    } else {
        first_place(log, tick, from + 1)
    }
}

/// The first sample that a peer recorded for `tick`.
pub open spec fn sample_at(log: Seq<(u64, u64)>, tick: u64) -> u64 {
    log[first_place(log, tick, 0)].1
}

/// Whether both logs have a sample for `tick`, and it is at or after `since`.
pub open spec fn is_compared(
    left: Seq<(u64, u64)>,
    right: Seq<(u64, u64)>,
    since: u64,
    tick: u64,
) -> bool {
    tick >= since && has_sampled(left, tick) && has_sampled(right, tick)
}

/// Whether both logs have a sample for `tick`, at or after `since`, and they differ.
pub open spec fn disagree_at(
    left: Seq<(u64, u64)>,
    right: Seq<(u64, u64)>,
    since: u64,
    tick: u64,
) -> bool {
    is_compared(left, right, since, tick) && sample_at(left, tick) != sample_at(right, tick)
}

/// Whether `ticks` lists the compared ticks, each once, earliest first.
pub open spec fn lists_compared(
    left: Seq<(u64, u64)>,
    right: Seq<(u64, u64)>,
    since: u64,
    ticks: Seq<u64>,
) -> bool {
    &&& is_rising(ticks)
    &&& forall|tick: u64| ticks.contains(tick) <==> #[trigger] is_compared(left, right, since, tick)
}

proof fn lemma_first_place(log: Seq<(u64, u64)>, tick: u64, from: int)
    requires
        0 <= from <= log.len(),
    ensures
        from <= first_place(log, tick, from) <= log.len(),
        first_place(log, tick, from) < log.len() ==> log[first_place(log, tick, from)].0 == tick,
        forall|k: int| from <= k < first_place(log, tick, from) ==> (#[trigger] log[k]).0 != tick,
    decreases log.len() - from,
{
    if from < log.len() && log[from].0 != tick {
        lemma_first_place(log, tick, from + 1);
    }
}

/// What a log says of a tick is the first sample that was recorded for it, whatever came later.
pub proof fn lemma_sample_is_the_first(log: Seq<(u64, u64)>, tick: u64)
    requires
        has_sampled(log, tick),
    ensures
        ({
            let at = first_place(log, tick, 0);
            &&& 0 <= at < log.len()
            &&& log[at] == (tick, sample_at(log, tick))
            &&& forall|k: int| 0 <= k < at ==> (#[trigger] log[k]).0 != tick
        }),
{
    lemma_first_place(log, tick, 0);
}

/// Later samples change nothing: agreement is about the first that each peer recorded.
pub proof fn lemma_replays_do_not_count(
    log: Seq<(u64, u64)>,
    later: Seq<(u64, u64)>,
    tick: u64,
)
    requires
        has_sampled(log, tick),
    ensures
        has_sampled(log + later, tick),
        sample_at(log + later, tick) == sample_at(log, tick),
{
    lemma_first_place(log, tick, 0);
    lemma_first_place(log + later, tick, 0);
    let at = first_place(log, tick, 0);
    let whole = log + later;
    let there = first_place(whole, tick, 0);
    assert(whole[at] == log[at]);
    if there < at {
        assert(whole[there] == log[there]);
    }
}

impl ChecksumLog {
    /// The first sample that the peer recorded for `tick`.
    pub fn at(&self, tick: u64) -> (sample: Option<u64>)
        ensures
            sample == (if has_sampled(self.samples@, tick) {
                Some(sample_at(self.samples@, tick))
            } else {
                None
            }),
    {
        let mut index: usize = 0;
        while index < self.samples.len()
            invariant
                index <= self.samples@.len(),
                forall|k: int| 0 <= k < index ==> (#[trigger] self.samples@[k]).0 != tick,
                first_place(self.samples@, tick, 0) == first_place(
                    self.samples@,
                    tick,
                    index as int,
                ),
            decreases self.samples@.len() - index,
        {
            if self.samples[index].0 == tick {
                assert(has_sampled(self.samples@, tick));
                return Some(self.samples[index].1);
            }
            index = index + 1;
        }
        None
    }
}

/// The ticks at or after `since` that both peers sampled, earliest first: the only ones an
/// agreement check can say anything about.
pub fn compared_ticks_since(left: &ChecksumLog, right: &ChecksumLog, since: u64) -> (ticks: Vec<
    u64,
>)
    ensures
        lists_compared(left.samples@, right.samples@, since, ticks@),
{
    let mut found: Vec<u64> = Vec::new();
    let mut index: usize = 0;
    let ghost l = left.samples@;
    let ghost r = right.samples@;
    while index < left.samples.len()
        invariant
            index <= left.samples@.len(),
            l == left.samples@,
            r == right.samples@,
            forall|k: int|
                0 <= k < index && (#[trigger] l[k]).0 >= since && has_sampled(r, l[k].0)
                    ==> found@.contains(l[k].0),
            forall|k: int|
                0 <= k < found@.len() ==> is_compared(l, r, since, #[trigger] found@[k]),
        decreases left.samples@.len() - index,
    {
        let tick: u64 = left.samples[index].0;
        let ghost had = found@;
        if tick >= since && right.at(tick).is_some() {
            found.push(tick);
            assert(l[index as int].0 == tick);
            assert(has_sampled(l, tick));
            assert(found@[had.len() as int] == tick);
            assert forall|k: int|
                0 <= k < index && (#[trigger] l[k]).0 >= since && has_sampled(
                    r,
                    l[k].0,
                ) implies found@.contains(l[k].0) by {
                assert(had.contains(l[k].0));
                let place = choose|i: int| 0 <= i < had.len() && had[i] == l[k].0;
                assert(found@[place] == l[k].0);
            }
        }
        index = index + 1;
    }
    let ticks = distinct(&found);
    assert forall|tick: u64| ticks@.contains(tick) <==> #[trigger] is_compared(l, r, since, tick) by {
        if ticks@.contains(tick) {
            assert(found@.contains(tick));
            let place = choose|i: int| 0 <= i < found@.len() && found@[i] == tick;
            assert(is_compared(l, r, since, found@[place]));
        }
        if is_compared(l, r, since, tick) {
            let k = choose|k: int| 0 <= k < l.len() && (#[trigger] l[k]).0 == tick;
            assert(found@.contains(l[k].0));
        }
    }
    ticks
}

/// Every tick both peers sampled.
pub fn compared_ticks(left: &ChecksumLog, right: &ChecksumLog) -> (ticks: Vec<u64>)
    ensures
        lists_compared(left.samples@, right.samples@, 0, ticks@),
{
    compared_ticks_since(left, right, 0)
}

/// A tick on which two peers disagree, and what each of them recorded first.
#[derive(Clone, Copy, Debug, PartialEq, Eq, Structural)]
pub struct Divergence {
    pub tick: u64,
    pub left: u64,
    pub right: u64,
}

/// Whether `found` is the earliest tick on which the peers disagree, or there is none.
pub open spec fn is_first_divergence(
    left: Seq<(u64, u64)>,
    right: Seq<(u64, u64)>,
    since: u64,
    found: Option<Divergence>,
) -> bool {
    match found {
        None => forall|tick: u64| !#[trigger] disagree_at(left, right, since, tick),
        Some(divergence) => {
            &&& disagree_at(left, right, since, divergence.tick)
            &&& forall|tick: u64|
                #[trigger] disagree_at(left, right, since, tick) ==> divergence.tick <= tick
            &&& divergence.left == sample_at(left, divergence.tick)
            &&& divergence.right == sample_at(right, divergence.tick)
        },
    }
}

/// The earliest tick at or after `since` that both peers sampled and disagree on, by the *first*
/// sample that each recorded for it.
///
/// In lockstep there is one sample per tick and it is the desync. On a predicting client the log
/// also holds every replay of a tick, and the first sample is the prediction, so this reports the
/// first *misprediction*, corrected or not.
pub fn first_divergence_since(left: &ChecksumLog, right: &ChecksumLog, since: u64) -> (found:
    Option<Divergence>)
    ensures
        is_first_divergence(left.samples@, right.samples@, since, found),
{
    let ticks = compared_ticks_since(left, right, since);
    let ghost l = left.samples@;
    let ghost r = right.samples@;
    let mut index: usize = 0;
    while index < ticks.len()
        invariant
            index <= ticks@.len(),
            l == left.samples@,
            r == right.samples@,
            lists_compared(l, r, since, ticks@),
            forall|k: int| 0 <= k < index ==> !disagree_at(l, r, since, #[trigger] ticks@[k]),
        decreases ticks@.len() - index,
    {
        let tick: u64 = ticks[index];
        assert(ticks@.contains(tick));
        assert(is_compared(l, r, since, tick));
        if let Some(mine) = left.at(tick) {
            if let Some(theirs) = right.at(tick) {
                if mine != theirs {
                    assert forall|other: u64| #[trigger]
                        disagree_at(l, r, since, other) implies tick <= other by {
                        assert(is_compared(l, r, since, other));
                        let place = choose|i: int| 0 <= i < ticks@.len() && ticks@[i] == other;
                        assert(ticks@[place] == other);
                        if place < index {
                            assert(!disagree_at(l, r, since, ticks@[place]));
                        }
                    }
                    return Some(Divergence { tick, left: mine, right: theirs });
                }
            }
        }
        index = index + 1;
    }
    assert forall|tick: u64| !#[trigger] disagree_at(l, r, since, tick) by {
        if disagree_at(l, r, since, tick) {
            assert(is_compared(l, r, since, tick));
            let place = choose|i: int| 0 <= i < ticks@.len() && ticks@[i] == tick;
            assert(!disagree_at(l, r, since, ticks@[place]));
        }
    }
    None
}

/// The earliest tick both peers sampled and disagree on.
pub fn first_divergence(left: &ChecksumLog, right: &ChecksumLog) -> (found: Option<Divergence>)
    ensures
        is_first_divergence(left.samples@, right.samples@, 0, found),
{
    first_divergence_since(left, right, 0)
}

/// Why peers do not agree. A client is named by its place among the clients.
#[derive(Debug)]
pub enum Disagreement {
    /// There is nobody for the host to agree with.
    NoClient,
    /// The host and this client have no tick in common: nothing was compared.
    NothingCompared { client: usize },
    /// The host and this client disagree.
    Diverged { client: usize, divergence: Divergence, compared: usize, from: u64, to: u64 },
}

/// Whether the host and a client have a tick in common, and agree on all of them.
pub open spec fn agrees(host: Seq<(u64, u64)>, client: Seq<(u64, u64)>, since: u64) -> bool {
    &&& exists|tick: u64| is_compared(host, client, since, tick)
    &&& forall|tick: u64| !#[trigger] disagree_at(host, client, since, tick)
}

/// Whether the compared ticks are `count` in number, the first of them `from` and the last `to`.
pub open spec fn spans_compared(
    left: Seq<(u64, u64)>,
    right: Seq<(u64, u64)>,
    since: u64,
    count: nat,
    from: u64,
    to: u64,
) -> bool {
    exists|ticks: Seq<u64>|
        {
            &&& #[trigger] lists_compared(left, right, since, ticks)
            &&& count == ticks.len()
            &&& count > 0
            &&& from == ticks[0]
            &&& to == ticks.last()
        }
}

/// Whether `verdict` is what comes of holding the logs of `clients` against the host's.
pub open spec fn is_agreement_verdict(
    host: Seq<(u64, u64)>,
    clients: Seq<ChecksumLog>,
    since: u64,
    verdict: Result<(), Disagreement>,
) -> bool {
    match verdict {
        Ok(()) => clients.len() > 0 && forall|k: int|
            0 <= k < clients.len() ==> agrees(
                host,
                (#[trigger] clients[k]).samples@,
                since,
            ),
        Err(Disagreement::NoClient) => clients.len() == 0,
        Err(Disagreement::NothingCompared { client }) => {
            &&& client < clients.len()
            &&& forall|k: int|
                0 <= k < client ==> agrees(
                    host,
                    (#[trigger] clients[k]).samples@,
                    since,
                )
            &&& forall|tick: u64|
                !#[trigger] is_compared(
                    host,
                    clients[client as int].samples@,
                    since,
                    tick,
                )
        },
        Err(Disagreement::Diverged { client, divergence, compared, from, to }) => {
            &&& client < clients.len()
            &&& forall|k: int|
                0 <= k < client ==> agrees(
                    host,
                    (#[trigger] clients[k]).samples@,
                    since,
                )
            &&& is_first_divergence(
                host,
                clients[client as int].samples@,
                since,
                Some(divergence),
            )
            &&& spans_compared(
                host,
                clients[client as int].samples@,
                since,
                compared as nat,
                from,
                to,
            )
        },
    }
}

/// Every client's log agrees with the host's on every tick at or after `since` that both sampled.
///
/// Every client, whatever its attachment: a disconnected or half-open client is still running,
/// still sampling, and is exactly the replica most likely to have drifted.
///
/// Fails for the first client that does not: with the first tick they disagree on, or, if some
/// client sampled no tick in common with the host, saying so. An agreement check with nothing to
/// compare has checked nothing.
pub fn assert_all_peers_agree_since(host: &ChecksumLog, clients: &Vec<ChecksumLog>, since: u64) -> (
    verdict: Result<(), Disagreement>)
    ensures
        is_agreement_verdict(host.samples@, clients@, since, verdict),
{
    if clients.len() == 0 {
        return Err(Disagreement::NoClient);
    }
    let mut client: usize = 0;
    while client < clients.len()
        invariant
            0 < clients@.len(),
            client <= clients@.len(),
            forall|k: int|
                0 <= k < client ==> agrees(host.samples@, (#[trigger] clients@[k]).samples@, since),
        decreases clients@.len() - client,
    {
        let ghost h = host.samples@;
        let ghost c = clients@[client as int].samples@;
        let ticks = compared_ticks_since(host, &clients[client], since);
        if ticks.len() == 0 {
            assert forall|tick: u64| !#[trigger] is_compared(h, c, since, tick) by {
                assert(!ticks@.contains(tick));
            }
            return Err(Disagreement::NothingCompared { client });
        }
        assert(ticks@.contains(ticks@[0]));
        assert(is_compared(h, c, since, ticks@[0]));
        if let Some(divergence) = first_divergence_since(host, &clients[client], since) {
            let compared: usize = ticks.len();
            let from: u64 = ticks[0];
            let to: u64 = ticks[compared - 1];
            assert(spans_compared(h, c, since, compared as nat, from, to)) by {
                assert(lists_compared(h, c, since, ticks@));
            }
            return Err(Disagreement::Diverged { client, divergence, compared, from, to });
        }
        assert(agrees(h, c, since));
        client = client + 1;
    }
    Ok(())
}

/// Every client's log agrees with the host's on every tick both sampled.
pub fn assert_all_peers_agree(host: &ChecksumLog, clients: &Vec<ChecksumLog>) -> (verdict: Result<
    (),
    Disagreement,
>)
    ensures
        is_agreement_verdict(host.samples@, clients@, 0, verdict),
{
    assert_all_peers_agree_since(host, clients, 0)
}

// ---- ids -------------------------------------------------------------------------------------

/// Every tracked id in a world, ascending, from the entities themselves, so a duplicate is
/// visible.
pub fn tracked_ids(found: &Vec<u64>) -> (ids: Vec<u64>)
    ensures
        is_sorted(ids@),
        ids@.to_multiset() == found@.to_multiset(),
{
    sorted(found)
}

/// Why the ids of a session are not in order.
#[derive(Debug)]
pub enum IdFailure {
    /// Nobody noted which ids the host issued.
    NotRecorded,
    /// The client at this place holds ids that the host never issued.
    Unissued { client: usize, ids: Vec<u64> },
}

/// The ids of `held` that are not among `issued`.
pub open spec fn unissued_ids(issued: Set<u64>, held: Seq<u64>) -> Seq<u64> {
    held.filter(|id: u64| !issued.contains(id))
}

/// Every tracked id on every client is one the host has held since the ids were noted.
///
/// An id a client made up collides with the next one the host hands out, and the two entities are
/// merged into whichever the client happens to hold. Fails for the first client that holds one,
/// listing them.
pub fn assert_no_id_unissued(issued: Option<&BTreeSet<u64>>, clients: &Vec<Vec<u64>>) -> (verdict:
    Result<(), IdFailure>)
    ensures
        match verdict {
            Ok(()) => issued matches Some(set) && forall|k: int|
                0 <= k < clients@.len() ==> unissued_ids(
                    set@,
                    (#[trigger] clients@[k])@,
                ).len() == 0,
            Err(IdFailure::NotRecorded) => issued is None,
            Err(IdFailure::Unissued { client, ids }) => {
                &&& issued matches Some(set)
                &&& client < clients@.len()
                &&& ids@ == unissued_ids(set@, clients@[client as int]@)
                &&& ids@.len() > 0
                &&& forall|k: int|
                    0 <= k < client ==> unissued_ids(set@, (#[trigger] clients@[k])@).len() == 0
            },
        },
{
    let set = match issued {
        Some(set) => set,
        None => {
            return Err(IdFailure::NotRecorded);
        },
    };
    let mut client: usize = 0;
    while client < clients.len()
        invariant
            client <= clients@.len(),
            issued == Some(set),
            forall|k: int|
                0 <= k < client ==> unissued_ids(set@, (#[trigger] clients@[k])@).len() == 0,
        decreases clients@.len() - client,
    {
        let ids = find_unissued(set, &clients[client]);
        if ids.len() > 0 {
            return Err(IdFailure::Unissued { client, ids });
        }
        client = client + 1;
    }
    Ok(())
}

fn find_unissued(issued: &BTreeSet<u64>, held: &Vec<u64>) -> (ids: Vec<u64>)
    ensures
        ids@ == unissued_ids(issued@, held@),
{
    let mut ids: Vec<u64> = Vec::new();
    let mut index: usize = 0;
    let ghost made_up = |id: u64| !issued@.contains(id);
    reveal(Seq::filter);
    assert(ids@ =~= held@.take(0).filter(made_up));
    while index < held.len()
        invariant
            index <= held@.len(),
            made_up == (|id: u64| !issued@.contains(id)),
            ids@ == held@.take(index as int).filter(made_up),
        decreases held@.len() - index,
    {
        let ghost upto = held@.take(index + 1);
        assert(upto.drop_last() =~= held@.take(index as int));
        assert(upto.last() == held@[index as int]);
        reveal(Seq::filter);
        if !issued.contains(&held[index]) {
            ids.push(held[index]);
        }
        index = index + 1;
    }
    assert(held@.take(index as int) =~= held@);
    ids
}

/// The ids that are the same as the one before them.
pub open spec fn repeats(ids: Seq<u64>) -> Seq<u64>
    decreases ids.len(),
{
    if ids.len() < 2 {
        Seq::empty()
    } else if ids[ids.len() - 2] == ids.last() {
        repeats(ids.drop_last()).push(ids.last())
    } else {
        repeats(ids.drop_last())
    }
}

/// No tracked id is carried by two entities of a world, whose ids are given ascending. Fails
/// listing the ids that repeat the one before them.
pub fn assert_ids_unique(ids: &Vec<u64>) -> (verdict: Result<(), Vec<u64>>)
    requires
        is_sorted(ids@),
    ensures
        verdict is Ok == is_rising(ids@),
        verdict matches Err(duplicates) ==> duplicates@ == repeats(ids@) && duplicates@.len() > 0,
{
    let mut duplicates: Vec<u64> = Vec::new();
    let mut index: usize = 1;
    assert(ids@.take(1).len() < 2 || ids@.len() == 0);
    if ids.len() < 2 {
        return Ok(());
    }
    assert(repeats(ids@.take(1)) =~= Seq::empty());
    while index < ids.len()
        invariant
            1 <= index <= ids@.len(),
            is_sorted(ids@),
            duplicates@ == repeats(ids@.take(index as int)),
            duplicates@.len() == 0 <==> is_rising(ids@.take(index as int)),
        decreases ids@.len() - index,
    {
        let ghost upto = ids@.take(index + 1);
        let ghost less = ids@.take(index as int);
        assert(upto.drop_last() =~= less);
        assert(upto[upto.len() - 2] == ids@[index - 1]);
        assert(upto.last() == ids@[index as int]);
        assert(forall|k: int| 0 <= k < less.len() ==> less[k] == upto[k]);
        if ids[index - 1] == ids[index] {
            duplicates.push(ids[index]);
            assert(upto[index - 1] == upto[index as int]);
        } else {
            assert(ids@[index - 1] < ids@[index as int]);
            assert(is_rising(less) ==> is_rising(upto)) by {
                if is_rising(less) {
                assert forall|j: int, k: int| 0 <= j < k < upto.len() implies #[trigger] upto[j]
                    < #[trigger] upto[k] by {
                    if k < less.len() {
                        assert(less[j] < less[k]);
                    } else {
                        assert(ids@[j] <= ids@[index - 1]);
                    }
                }
                }
            }
            assert(is_rising(upto) ==> is_rising(less)) by {
                if is_rising(upto) {
                    assert forall|j: int, k: int| 0 <= j < k < less.len() implies #[trigger] less[j]
                        < #[trigger] less[k] by {
                        assert(upto[j] < upto[k]);
                    }
                }
            }
        }
        index = index + 1;
    }
    assert(ids@.take(index as int) =~= ids@);
    if duplicates.len() > 0 {
        return Err(duplicates);
    }
    Ok(())
}

// ---- budgets ---------------------------------------------------------------------------------

/// Why a peer is over its bandwidth.
#[derive(Clone, Copy, Debug, PartialEq, Eq, Structural)]
pub enum BandwidthFailure {
    /// The sender ran no tick, so there is no figure per tick.
    NoTick,
    /// It sent this much over this many ticks.
    TooMuch { bytes: u64, ticks: u64 },
}

/// A sender whose counters went from `before` to `after` sent no more than `max_bytes_per_tick`
/// bytes per tick it simulated; each is the bytes sent and the tick reached. Says how many bytes
/// it sent over how many ticks.
///
/// Per tick rather than per frame, so the budget survives a peer that runs two ticks in a frame.
pub fn assert_bandwidth_within(before: (u64, u64), after: (u64, u64), max_bytes_per_tick: usize) -> (
    verdict: Result<(u64, u64), BandwidthFailure>)
    requires
        before.0 <= after.0,
        before.1 <= after.1,
    ensures
        ({
            let bytes = after.0 - before.0;
            let ticks = after.1 - before.1;
            match verdict {
                Ok(sent) => ticks > 0 && bytes <= max_bytes_per_tick * ticks && sent.0 == bytes
                    && sent.1 == ticks,
                Err(BandwidthFailure::NoTick) => ticks == 0,
                Err(BandwidthFailure::TooMuch { bytes: sent, ticks: over }) => ticks > 0 && bytes
                    > max_bytes_per_tick * ticks && sent == bytes && over == ticks,
            }
        }),
{
    let bytes: u64 = after.0 - before.0;
    let ticks: u64 = after.1 - before.1;
    if ticks == 0 {
        return Err(BandwidthFailure::NoTick);
    }
    assert(max_bytes_per_tick * ticks <= 0xffff_ffff_ffff_ffff * 0xffff_ffff_ffff_ffff)
        by (nonlinear_arith)
        requires
            max_bytes_per_tick <= 0xffff_ffff_ffff_ffff,
            ticks <= 0xffff_ffff_ffff_ffff,
    ;
    let budget: u128 = (max_bytes_per_tick as u128) * (ticks as u128);
    if bytes as u128 > budget {
        return Err(BandwidthFailure::TooMuch { bytes, ticks });
    }
    Ok((bytes, ticks))
}

/// Why a client is over its budget of corrections.
#[derive(Clone, Copy, Debug, PartialEq, Eq, Structural)]
pub enum ReplayFailure {
    Rollbacks { count: u64, budget: u64 },
    TicksReplayed { count: u64, budget: u64 },
}

/// A client's rollback counters are within budget: no more than `max_rollbacks` corrections and
/// `max_ticks_replayed` ticks simulated again.
pub fn assert_replays_within(
    rollbacks: u64,
    ticks_replayed: u64,
    max_rollbacks: u64,
    max_ticks_replayed: u64,
) -> (verdict: Result<(), ReplayFailure>)
    ensures
        verdict == (if rollbacks > max_rollbacks {
            Err::<(), ReplayFailure>(
                ReplayFailure::Rollbacks { count: rollbacks, budget: max_rollbacks },
            )
        } else if ticks_replayed > max_ticks_replayed {
            Err(
                ReplayFailure::TicksReplayed {
                    count: ticks_replayed,
                    budget: max_ticks_replayed,
                },
            )
        } else {
            Ok(())
        }),
{
    if rollbacks > max_rollbacks {
        return Err(ReplayFailure::Rollbacks { count: rollbacks, budget: max_rollbacks });
    }
    if ticks_replayed > max_ticks_replayed {
        return Err(
            ReplayFailure::TicksReplayed { count: ticks_replayed, budget: max_ticks_replayed },
        );
    }
    Ok(())
}

/// Why clients have not converged on the host. A client is named by its place.
#[derive(Clone, Copy, Debug, PartialEq, Eq, Structural)]
pub enum ConvergeFailure {
    /// The host has nothing to converge to.
    NoTruth,
    /// This client has no replica.
    NoReplica { client: usize },
    /// This client's replica is further away than is tolerated.
    TooFar { client: usize },
}

/// Every client's replica is within tolerance of the host's truth. `replicas` says of each client
/// whether it has one, and if so whether it is near enough. Fails where the host has no truth,
/// since the check would be vacuous, and else for the first client that has no replica or one too
/// far away.
pub fn assert_converged(truth: bool, replicas: &Vec<Option<bool>>) -> (verdict: Result<
    (),
    ConvergeFailure,
>)
    ensures
        match verdict {
            Ok(()) => truth && forall|k: int|
                0 <= k < replicas@.len() ==> #[trigger] replicas@[k] == Some(true),
            Err(ConvergeFailure::NoTruth) => !truth,
            Err(ConvergeFailure::NoReplica { client }) => {
                &&& truth
                &&& client < replicas@.len()
                &&& replicas@[client as int] is None
                &&& forall|k: int| 0 <= k < client ==> #[trigger] replicas@[k] == Some(true)
            },
            Err(ConvergeFailure::TooFar { client }) => {
                &&& truth
                &&& client < replicas@.len()
                &&& replicas@[client as int] == Some(false)
                &&& forall|k: int| 0 <= k < client ==> #[trigger] replicas@[k] == Some(true)
            },
        },
{
    if !truth {
        return Err(ConvergeFailure::NoTruth);
    }
    let mut client: usize = 0;
    while client < replicas.len()
        invariant
            truth,
            client <= replicas@.len(),
            forall|k: int| 0 <= k < client ==> #[trigger] replicas@[k] == Some(true),
        decreases replicas@.len() - client,
    {
        match replicas[client] {
            None => {
                return Err(ConvergeFailure::NoReplica { client });
            },
            Some(near) => {
                if !near {
                    return Err(ConvergeFailure::TooFar { client });
                }
            },
        }
        client = client + 1;
    }
    Ok(())
}

// ---- laws ------------------------------------------------------------------------------------

/// Whether `log[at]` is the first sample that a peer recorded for its tick.
pub open spec fn is_first_sample(log: Seq<(u64, u64)>, at: int) -> bool {
    0 <= at < log.len() && forall|k: int| 0 <= k < at ==> (#[trigger] log[k]).0 != log[at].0
}

/// Whether two first samples are of the same tick, at or after `since`.
pub open spec fn are_paired(
    left: Seq<(u64, u64)>,
    right: Seq<(u64, u64)>,
    since: u64,
    i: int,
    j: int,
) -> bool {
    is_first_sample(left, i) && is_first_sample(right, j) && left[i].0 == right[j].0 && left[i].0
        >= since
}

proof fn lemma_first_sample_is_read(log: Seq<(u64, u64)>, at: int)
    requires
        is_first_sample(log, at),
    ensures
        has_sampled(log, log[at].0),
        sample_at(log, log[at].0) == log[at].1,
        first_place(log, log[at].0, 0) == at,
{
    lemma_first_place(log, log[at].0, 0);
    let place = first_place(log, log[at].0, 0);
    if place < at {
        assert(log[place].0 == log[at].0);
    }
}

proof fn lemma_sampled_tick_has_a_first(log: Seq<(u64, u64)>, tick: u64) -> (at: int)
    requires
        has_sampled(log, tick),
    ensures
        is_first_sample(log, at),
        log[at] == (tick, sample_at(log, tick)),
{
    lemma_sample_is_the_first(log, tick);
    first_place(log, tick, 0)
}

/// Two peers that recorded the same tick differently are found out: where a divergence is asked for,
/// the one that is given is a pair of first samples of one tick that differ, and no earlier pair
/// does; where none is given, no pair does.
pub proof fn lemma_first_divergence_is_the_earliest(
    left: Seq<(u64, u64)>,
    right: Seq<(u64, u64)>,
    since: u64,
    found: Option<Divergence>,
    i: int,
    j: int,
)
    requires
        is_first_divergence(left, right, since, found),
        are_paired(left, right, since, i, j),
        left[i].1 != right[j].1,
    ensures
        found matches Some(divergence) && {
            &&& since <= divergence.tick <= left[i].0
            &&& divergence.left != divergence.right
            &&& left.contains((divergence.tick, divergence.left))
            &&& right.contains((divergence.tick, divergence.right))
            &&& left[i].0 == divergence.tick ==> divergence.left == left[i].1 && divergence.right
                == right[j].1
        },
{
    lemma_first_sample_is_read(left, i);
    lemma_first_sample_is_read(right, j);
    assert(disagree_at(left, right, since, left[i].0));
    if let Some(divergence) = found {
        let a = lemma_sampled_tick_has_a_first(left, divergence.tick);
        let b = lemma_sampled_tick_has_a_first(right, divergence.tick);
        assert(left[a] == (divergence.tick, divergence.left));
        assert(right[b] == (divergence.tick, divergence.right));
    }
}

/// No divergence is made up: the one that is given is a pair of first samples of one tick that
/// differ.
pub proof fn lemma_divergence_is_there(
    left: Seq<(u64, u64)>,
    right: Seq<(u64, u64)>,
    since: u64,
    divergence: Divergence,
)
    requires
        is_first_divergence(left, right, since, Some(divergence)),
    ensures
        exists|i: int, j: int| #[trigger]
            are_paired(left, right, since, i, j) && left[i] == (divergence.tick, divergence.left)
                && right[j] == (divergence.tick, divergence.right) && divergence.left
                != divergence.right,
{
    let i = lemma_sampled_tick_has_a_first(left, divergence.tick);
    let j = lemma_sampled_tick_has_a_first(right, divergence.tick);
    assert(are_paired(left, right, since, i, j));
}

/// It does not matter which of two peers is asked first: the other way round the same tick is found,
/// with the samples swapped, and the same ticks are compared.
pub proof fn lemma_comparison_mirrors(
    left: Seq<(u64, u64)>,
    right: Seq<(u64, u64)>,
    since: u64,
    found: Option<Divergence>,
    ticks: Seq<u64>,
)
    requires
        is_first_divergence(left, right, since, found),
        lists_compared(left, right, since, ticks),
    ensures
        is_first_divergence(
            right,
            left,
            since,
            match found {
                Some(one) => Some(Divergence { tick: one.tick, left: one.right, right: one.left }),
                None => None,
            },
        ),
        lists_compared(right, left, since, ticks),
{
    assert forall|tick: u64| #[trigger]
        disagree_at(right, left, since, tick) == disagree_at(left, right, since, tick) by {}
    assert forall|tick: u64| ticks.contains(tick) <==> #[trigger] is_compared(
        right,
        left,
        since,
        tick,
    ) by {
        assert(is_compared(left, right, since, tick) == is_compared(right, left, since, tick));
    }
}

/// Which ticks are compared: those from `since` on that each of the two logs has a sample for,
/// whatever the samples are.
pub proof fn lemma_common_ticks_are_compared(
    left: Seq<(u64, u64)>,
    right: Seq<(u64, u64)>,
    since: u64,
    ticks: Seq<u64>,
    tick: u64,
)
    requires
        lists_compared(left, right, since, ticks),
    ensures
        ticks.contains(tick) <==> tick >= since && (exists|i: int|
            0 <= i < left.len() && (#[trigger] left[i]).0 == tick) && (exists|j: int|
            0 <= j < right.len() && (#[trigger] right[j]).0 == tick),
        forall|j: int, k: int| 0 <= j < k < ticks.len() ==> #[trigger] ticks[j] < #[trigger] ticks[k],
{
    assert(ticks.contains(tick) <==> is_compared(left, right, since, tick));
}

/// A later start leaves out the earlier ticks and nothing else: a divergence behind it stays the
/// first, and where there was none there is none.
pub proof fn lemma_later_start_leaves_out_earlier_ticks(
    left: Seq<(u64, u64)>,
    right: Seq<(u64, u64)>,
    since: u64,
    later: u64,
    found: Option<Divergence>,
)
    requires
        since <= later,
        is_first_divergence(left, right, since, found),
        found matches Some(divergence) ==> divergence.tick >= later,
    ensures
        is_first_divergence(left, right, later, found),
{
    assert forall|tick: u64| #[trigger]
        disagree_at(left, right, later, tick) implies disagree_at(left, right, since, tick) by {}
}

/// All peers agree exactly when there is a client, each client has a tick in common with the host,
/// and on no tick that a client has in common with it the first samples differ.
pub proof fn lemma_agreement_is_of_all_peers(
    host: Seq<(u64, u64)>,
    clients: Seq<ChecksumLog>,
    since: u64,
    verdict: Result<(), Disagreement>,
)
    requires
        is_agreement_verdict(host, clients, since, verdict),
    ensures
        verdict is Ok <==> {
            &&& clients.len() > 0
            &&& forall|k: int|
                0 <= k < clients.len() ==> has_pair(
                    host,
                    (#[trigger] clients[k]).samples@,
                    since,
                ) && !has_differing_pair(host, clients[k].samples@, since)
        },
        verdict matches Err(Disagreement::Diverged { client, divergence, .. }) ==> {
            &&& has_differing_pair(host, clients[client as int].samples@, since)
            &&& host.contains((divergence.tick, divergence.left))
            &&& clients[client as int].samples@.contains((divergence.tick, divergence.right))
            &&& divergence.left != divergence.right
        },
        verdict matches Err(Disagreement::NothingCompared { client }) ==> !has_pair(
            host,
            clients[client as int].samples@,
            since,
        ),
{
    assert forall|k: int| 0 <= k < clients.len() implies agrees(
        host,
        (#[trigger] clients[k]).samples@,
        since,
    ) == (has_pair(host, clients[k].samples@, since) && !has_differing_pair(
        host,
        clients[k].samples@,
        since,
    )) by {
        lemma_agreement_of_two(host, clients[k].samples@, since);
    }
    match verdict {
        Err(Disagreement::Diverged { client, divergence, .. }) => {
            let right = clients[client as int].samples@;
            lemma_divergence_is_there(host, right, since, divergence);
            let (i, j) = choose|i: int, j: int| #[trigger]
                are_paired(host, right, since, i, j) && host[i] == (
                    divergence.tick,
                    divergence.left,
                ) && right[j] == (divergence.tick, divergence.right) && divergence.left
                    != divergence.right;
            assert(are_paired(host, right, since, i, j) && host[i].1 != right[j].1);
            assert(host.contains(host[i]) && right.contains(right[j]));
        },
        Err(Disagreement::NothingCompared { client }) => {
            let right = clients[client as int].samples@;
            if has_pair(host, right, since) {
                let (i, j) = choose|i: int, j: int| are_paired(host, right, since, i, j);
                lemma_first_sample_is_read(host, i);
                lemma_first_sample_is_read(right, j);
                assert(is_compared(host, right, since, host[i].0));
            }
        },
        _ => {},
    }
}

/// Whether two peers have a tick in common, at or after `since`.
pub open spec fn has_pair(left: Seq<(u64, u64)>, right: Seq<(u64, u64)>, since: u64) -> bool {
    exists|i: int, j: int| are_paired(left, right, since, i, j)
}

/// Whether the first samples of two peers differ on a tick that they have in common.
pub open spec fn has_differing_pair(
    left: Seq<(u64, u64)>,
    right: Seq<(u64, u64)>,
    since: u64,
) -> bool {
    exists|i: int, j: int| #[trigger] are_paired(left, right, since, i, j) && left[i].1 != right[j].1
}

proof fn lemma_agreement_of_two(host: Seq<(u64, u64)>, client: Seq<(u64, u64)>, since: u64)
    ensures
        agrees(host, client, since) == (has_pair(host, client, since) && !has_differing_pair(
            host,
            client,
            since,
        )),
{
    if has_pair(host, client, since) {
        let (i, j) = choose|i: int, j: int| are_paired(host, client, since, i, j);
        lemma_first_sample_is_read(host, i);
        lemma_first_sample_is_read(client, j);
        assert(is_compared(host, client, since, host[i].0));
    }
    if has_differing_pair(host, client, since) {
        let (i, j) = choose|i: int, j: int| #[trigger]
            are_paired(host, client, since, i, j) && host[i].1 != client[j].1;
        lemma_first_sample_is_read(host, i);
        lemma_first_sample_is_read(client, j);
        assert(disagree_at(host, client, since, host[i].0));
    } else {
        assert forall|tick: u64| !#[trigger] disagree_at(host, client, since, tick) by {
            if disagree_at(host, client, since, tick) {
                let i = lemma_sampled_tick_has_a_first(host, tick);
                let j = lemma_sampled_tick_has_a_first(client, tick);
                assert(are_paired(host, client, since, i, j) && host[i].1 != client[j].1);
            }
        }
    }
    if exists|tick: u64| is_compared(host, client, since, tick) {
        let tick = choose|tick: u64| is_compared(host, client, since, tick);
        let i = lemma_sampled_tick_has_a_first(host, tick);
        let j = lemma_sampled_tick_has_a_first(client, tick);
        assert(are_paired(host, client, since, i, j));
    }
}

/// An id is reported as not issued exactly when it is held and was never issued, as often as it is
/// held and in the order in which it is.
pub proof fn lemma_unissued_are_the_held_and_not_issued(
    issued: Set<u64>,
    held: Seq<u64>,
    more: Seq<u64>,
    id: u64,
)
    ensures
        unissued_ids(issued, held).contains(id) <==> held.contains(id) && !issued.contains(id),
        unissued_ids(issued, held + more) == unissued_ids(issued, held) + unissued_ids(issued, more),
        unissued_ids(issued, seq![id]) == (if issued.contains(id) {
            Seq::empty()
        } else {
            seq![id]
        }),
        unissued_ids(issued, held).len() == 0 <==> forall|k: int|
            0 <= k < held.len() ==> issued.contains(#[trigger] held[k]),
{
    broadcast use vstd::seq_lib::group_filter_ensures;

    let missing = |one: u64| !issued.contains(one);
    Seq::filter_distributes_over_add(held, more, missing);
    let found = unissued_ids(issued, held);
    if found.contains(id) {
        let k = choose|k: int| 0 <= k < found.len() && found[k] == id;
        held.lemma_filter_pred(missing, k);
        held.lemma_filter_contains_rev(missing, id);
    }
    if held.contains(id) && !issued.contains(id) {
        let k = choose|k: int| 0 <= k < held.len() && held[k] == id;
        held.lemma_filter_contains(missing, k);
    }
    if found.len() == 0 {
        assert forall|k: int| 0 <= k < held.len() implies issued.contains(#[trigger] held[k]) by {
            if !issued.contains(held[k]) {
                held.lemma_filter_contains(missing, k);
            }
        }
    } else {
        held.lemma_filter_pred(missing, 0);
        held.lemma_filter_contains_rev(missing, found[0]);
        let k = choose|k: int| 0 <= k < held.len() && held[k] == found[0];
        assert(!issued.contains(held[k]));
    }
    assert(unissued_ids(issued, seq![id]) =~= (if issued.contains(id) {
        Seq::empty()
    } else {
        seq![id]
    })) by {
        reveal(Seq::filter);
        assert(seq![id].drop_last() =~= Seq::empty());
        assert(seq![id].drop_last().filter(missing) =~= Seq::empty());
    }
}

/// An id of an ordered list is reported as repeated exactly when it stands in two places, and once
/// for every place but the first: with what is reported left out, as many are left as there are
/// different ids.
pub proof fn lemma_repeats_are_all_but_the_first(ids: Seq<u64>)
    requires
        is_sorted(ids),
    ensures
        forall|id: u64| #[trigger]
            repeats(ids).contains(id) <==> exists|j: int, k: int|
                0 <= j < k < ids.len() && #[trigger] ids[j] == id && #[trigger] ids[k] == id,
        repeats(ids).len() + ids.to_set().len() == ids.len(),
        is_sorted(repeats(ids)),
    decreases ids.len(),
{
    broadcast use vstd::seq_lib::group_seq_properties;

    let found = repeats(ids);
    if ids.len() == 0 {
        assert(ids.to_set() =~= Set::empty());
    } else {
        let front = ids.drop_last();
        let last = ids.last();
        assert(is_sorted(front));
        lemma_repeats_are_all_but_the_first(front);
        let fewer = repeats(front);
        assert(front.push(last) =~= ids);
        assert(ids.to_set() =~= front.to_set().insert(last)) by {
            assert forall|id: u64| ids.to_set().contains(id) <==> front.to_set().insert(
                last,
            ).contains(id) by {
                if front.contains(id) {
                    let k = choose|k: int| 0 <= k < front.len() && front[k] == id;
                    assert(ids[k] == id);
                }
                if id == last {
                    assert(ids[ids.len() - 1] == id);
                }
                if ids.contains(id) && id != last {
                    let k = choose|k: int| 0 <= k < ids.len() && ids[k] == id;
                    assert(front[k] == id);
                }
            }
        }
        let again = ids.len() >= 2 && ids[ids.len() - 2] == last;
        if again {
            assert(front[front.len() - 1] == last);
            assert(front.contains(last));
            assert(found == fewer.push(last));
        } else {
            if front.contains(last) {
                let k = choose|k: int| 0 <= k < front.len() && front[k] == last;
                assert(ids[k] <= ids[ids.len() - 2]);
                assert(ids[ids.len() - 2] <= ids[ids.len() - 1]);
            }
            assert(!front.contains(last));
            assert(found == fewer);
        }
        assert(front.to_set().finite());
        assert forall|id: u64| #[trigger] found.contains(id) <==> exists|j: int, k: int|
            0 <= j < k < ids.len() && #[trigger] ids[j] == id && #[trigger] ids[k] == id by {
            if found.contains(id) {
                if fewer.contains(id) {
                    let (j, k) = choose|j: int, k: int|
                        0 <= j < k < front.len() && #[trigger] front[j] == id && #[trigger] front[k]
                            == id;
                    assert(ids[j] == id && ids[k] == id);
                } else {
                    let at = choose|at: int| 0 <= at < found.len() && found[at] == id;
                    if at < fewer.len() {
                        assert(fewer[at] == id);
                    }
                    assert(again && id == last);
                    assert(ids[ids.len() - 2] == id && ids[ids.len() - 1] == id);
                }
            }
            if exists|j: int, k: int|
                0 <= j < k < ids.len() && #[trigger] ids[j] == id && #[trigger] ids[k] == id {
                let (j, k) = choose|j: int, k: int|
                    0 <= j < k < ids.len() && #[trigger] ids[j] == id && #[trigger] ids[k] == id;
                if k < front.len() {
                    assert(front[j] == id && front[k] == id);
                    assert(fewer.contains(id));
                    let at = choose|at: int| 0 <= at < fewer.len() && fewer[at] == id;
                    assert(found[at] == id);
                } else {
                    assert(front[j] == last);
                    assert(front.contains(last));
                    assert(again);
                    assert(found[fewer.len() as int] == id);
                }
            }
        }
        assert forall|j: int, k: int| 0 <= j < k < found.len() implies #[trigger] found[j]
            <= #[trigger] found[k] by {
            if k < fewer.len() {
                assert(fewer[j] <= fewer[k]);
            } else {
                assert(fewer.contains(fewer[j]));
                let (a, b) = choose|a: int, b: int|
                    0 <= a < b < front.len() && #[trigger] front[a] == fewer[j]
                        && #[trigger] front[b] == fewer[j];
                assert(ids[a] == fewer[j]);
                assert(ids[a] <= ids[ids.len() - 1]);
            }
        }
    }
}

/// The stretch that was compared is told: its ends are compared ticks, every compared tick lies
/// between them, and the count is that of the compared ticks.
pub proof fn lemma_stretch_holds_all_compared_ticks(
    left: Seq<(u64, u64)>,
    right: Seq<(u64, u64)>,
    since: u64,
    count: nat,
    from: u64,
    to: u64,
    tick: u64,
    ticks: Seq<u64>,
)
    requires
        spans_compared(left, right, since, count, from, to),
        lists_compared(left, right, since, ticks),
    ensures
        has_sampled(left, from) && has_sampled(right, from) && from >= since,
        has_sampled(left, to) && has_sampled(right, to) && to >= since,
        has_sampled(left, tick) && has_sampled(right, tick) && tick >= since ==> from <= tick <= to,
        count == ticks.len(),
{
    let list = choose|list: Seq<u64>|
        {
            &&& #[trigger] lists_compared(left, right, since, list)
            &&& count == list.len()
            &&& count > 0
            &&& from == list[0]
            &&& to == list.last()
        };
    assert(list.contains(list[0]));
    assert(list.contains(list[list.len() - 1]));
    assert(is_compared(left, right, since, from));
    assert(is_compared(left, right, since, to));
    if is_compared(left, right, since, tick) {
        assert(list.contains(tick));
        let k = choose|k: int| 0 <= k < list.len() && list[k] == tick;
        if k > 0 {
            assert(list[0] < list[k]);
        }
        if k < list.len() - 1 {
            assert(list[k] < list[list.len() - 1]);
        }
    }
    assert forall|value: u64| ticks.contains(value) <==> list.contains(value) by {
        assert(ticks.contains(value) <==> is_compared(left, right, since, value));
    }
    lemma_rising_is_unique(ticks, list);
}

} // verus!
