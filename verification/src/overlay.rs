//! The ticked counters as lines for a debug overlay.
//!
//! Totals are shown as they are. Rates are refreshed now and then, from how far a counter has
//! moved since the last refresh. Keys are prefixed `ticked.` so a game's own lines never collide
//! with them.

use vstd::prelude::*;
use vstd::string::*;

use crate::number::{decimal, decimal_of};
use crate::text::{contains, lemma_contains_its_parts, lemma_contains_what_stands_in_it};

verus! {

/// How many ticks have run.
#[derive(Clone, Copy, Debug, PartialEq, Eq, Structural)]
pub struct TickCounters {
    pub ticks: u64,
}

/// What rollback has cost a client.
#[derive(Clone, Copy, Debug, PartialEq, Eq, Structural)]
pub struct ReplayCounters {
    pub rollbacks: u64,
    pub ticks_replayed: u64,
    pub last_replay_distance: u64,
    pub skipped_identical: u64,
    pub dropped_stale: u64,
}

/// What snapshots have gone out.
#[derive(Clone, Copy, Debug, PartialEq, Eq, Structural)]
pub struct SnapshotCounters {
    pub sent: u64,
    pub last_bytes: u64,
    pub max_bytes: u64,
    pub oversize: u64,
}

/// What inputs have come in.
#[derive(Clone, Copy, Debug, PartialEq, Eq, Structural)]
pub struct InputCounters {
    pub received: u64,
    pub late: u64,
    pub dropped_out_of_window: u64,
}

/// What has been noticed going wrong.
#[derive(Clone, Copy, Debug, PartialEq, Eq, Structural)]
pub struct HealthCounters {
    pub client_minted_tracked_id: u64,
    pub duplicate_ids_in_snapshot: u64,
    pub snapshot_older_than_history: u64,
}

/// The counters that there are.
#[derive(Clone, Copy, Debug, PartialEq, Eq, Structural)]
pub struct Counters {
    pub cost: Option<TickCounters>,
    pub replay: Option<ReplayCounters>,
    pub snapshots: Option<SnapshotCounters>,
    pub inputs: Option<InputCounters>,
    pub health: Option<HealthCounters>,
}

/// The counters at the last refresh.
#[derive(Clone, Copy, Debug, PartialEq, Eq, Structural)]
pub struct LastFrame {
    pub ticks: u64,
    pub rollbacks: u64,
    pub ticks_replayed: u64,
    pub snapshots: u64,
    pub inputs: u64,
}

/// One line to set. A number called `moved` is how far a counter has moved since the last refresh,
/// to be shown per second; `tail` is what the line says behind its rates.
pub enum OverlayLine {
    /// `ticked.tick`: what a tick costs, and how many have run.
    Tick { run: u64 },
    /// `ticked.rate`.
    Rate { moved: u64 },
    /// `ticked.replay`.
    Replay { rollbacks_moved: u64, ticks_moved: u64, tail: String },
    /// `ticked.snapshot`.
    Snapshot { moved: u64, tail: String },
    /// `ticked.input`.
    Input { moved: u64, tail: String },
    /// `ticked.health`.
    Health { text: String },
}

/// The contents of an [`OverlayLine`].
pub enum LineModel {
    Tick { run: u64 },
    Rate { moved: int },
    Replay { rollbacks_moved: int, ticks_moved: int, tail: Seq<char> },
    Snapshot { moved: int, tail: Seq<char> },
    Input { moved: int, tail: Seq<char> },
    Health { text: Seq<char> },
}

impl View for OverlayLine {
    type V = LineModel;

    open spec fn view(&self) -> LineModel {
        match *self {
            OverlayLine::Tick { run } => LineModel::Tick { run },
            OverlayLine::Rate { moved } => LineModel::Rate { moved: moved as int },
            OverlayLine::Replay { rollbacks_moved, ticks_moved, tail } => LineModel::Replay {
                rollbacks_moved: rollbacks_moved as int,
                ticks_moved: ticks_moved as int,
                tail: tail@,
            },
            OverlayLine::Snapshot { moved, tail } => LineModel::Snapshot {
                moved: moved as int,
                tail: tail@,
            },
            OverlayLine::Input { moved, tail } => LineModel::Input {
                moved: moved as int,
                tail: tail@,
            },
            OverlayLine::Health { text } => LineModel::Health { text: text@ },
        }
    }
}

/// The key that a line is set under.
pub open spec fn line_key(line: LineModel) -> Seq<char> {
    match line {
        LineModel::Tick { .. } => "ticked.tick"@,
        LineModel::Rate { .. } => "ticked.rate"@,
        LineModel::Replay { .. } => "ticked.replay"@,
        LineModel::Snapshot { .. } => "ticked.snapshot"@,
        LineModel::Input { .. } => "ticked.input"@,
        LineModel::Health { .. } => "ticked.health"@,
    }
}

impl OverlayLine {
    /// The key that the line is set under.
    pub fn key(&self) -> (key: &'static str)
        ensures
            key@ == line_key(self@),
    {
        match self {
            OverlayLine::Tick { .. } => "ticked.tick",
            OverlayLine::Rate { .. } => "ticked.rate",
            OverlayLine::Replay { .. } => "ticked.replay",
            OverlayLine::Snapshot { .. } => "ticked.snapshot",
            OverlayLine::Input { .. } => "ticked.input",
            OverlayLine::Health { .. } => "ticked.health",
        }
    }
}

/// Whether two lines are about the same thing.
pub open spec fn are_of_a_kind(left: LineModel, right: LineModel) -> bool {
    match left {
        LineModel::Tick { .. } => right is Tick,
        LineModel::Rate { .. } => right is Rate,
        LineModel::Replay { .. } => right is Replay,
        LineModel::Snapshot { .. } => right is Snapshot,
        LineModel::Input { .. } => right is Input,
        LineModel::Health { .. } => right is Health,
    }
}

/// Every line has a key under the prefix `ticked.`, so a game's own lines never collide with it, and
/// lines about different things have different keys.
pub proof fn lemma_keys_stay_apart(left: LineModel, right: LineModel)
    ensures
        "ticked."@.is_prefix_of(line_key(left)),
        line_key(left) == line_key(right) <==> are_of_a_kind(left, right),
{
    reveal_strlit("ticked.");
    reveal_strlit("ticked.tick");
    reveal_strlit("ticked.rate");
    reveal_strlit("ticked.replay");
    reveal_strlit("ticked.snapshot");
    reveal_strlit("ticked.input");
    reveal_strlit("ticked.health");
    assert("ticked."@ =~= line_key(left).subrange(0, 7));
    assert("ticked.tick"@[7] == 't' && "ticked.rate"@[7] == 'r' && "ticked.replay"@[7] == 'r');
    assert("ticked.rate"@[8] == 'a' && "ticked.replay"@[8] == 'e');
    assert("ticked.snapshot"@[7] == 's' && "ticked.input"@[7] == 'i' && "ticked.health"@[7]
        == 'h');
}

/// The contents of a list of lines.
pub open spec fn line_views(list: Seq<OverlayLine>) -> Seq<LineModel> {
    list.map_values(|line: OverlayLine| line@)
}

/// What the replay line says behind its rates.
pub open spec fn replay_tail(replay: ReplayCounters) -> Seq<char> {
    ", distance "@ + decimal(replay.last_replay_distance as nat) + ", "@ + decimal(
        replay.skipped_identical as nat,
    ) + " identical, "@ + decimal(replay.dropped_stale as nat) + " stale"@
}

/// What the snapshot line says behind its rate.
pub open spec fn snapshot_tail(snapshots: SnapshotCounters) -> Seq<char> {
    ", "@ + decimal(snapshots.last_bytes as nat) + " B last, "@ + decimal(
        snapshots.max_bytes as nat,
    ) + " B max, "@ + decimal(snapshots.oversize as nat) + " oversize"@
}

/// What the input line says behind its rate.
pub open spec fn input_tail(inputs: InputCounters) -> Seq<char> {
    ", "@ + decimal(inputs.late as nat) + " late, "@ + decimal(
        inputs.dropped_out_of_window as nat,
    ) + " out of window"@
}

/// The health line.
pub open spec fn health_text(health: HealthCounters) -> Seq<char> {
    "HEALTH: "@ + decimal(health.client_minted_tracked_id as nat) + " client-minted ids, "@
        + decimal(health.duplicate_ids_in_snapshot as nat) + " duplicate ids, "@ + decimal(
        health.snapshot_older_than_history as nat,
    ) + " snapshots older than history"@
}

/// Whether anything has gone wrong.
pub open spec fn is_unwell(health: HealthCounters) -> bool {
    health.client_minted_tracked_id + health.duplicate_ids_in_snapshot
        + health.snapshot_older_than_history > 0
}

/// The lines to set: a tick line whenever ticks are counted, rates only on a refresh, and a health
/// line only when something has gone wrong.
pub open spec fn lines_to_set(counters: Counters, refresh: bool, last: LastFrame) -> Seq<
    LineModel,
> {
    let none = Seq::<LineModel>::empty();
    (match counters.cost {
        Some(cost) => seq![LineModel::Tick { run: cost.ticks }] + (if refresh {
            seq![LineModel::Rate { moved: cost.ticks - last.ticks }]
        } else {
            none
        }),
        None => none,
    }) + (match counters.replay {
        Some(replay) if refresh => seq![
            LineModel::Replay {
                rollbacks_moved: replay.rollbacks - last.rollbacks,
                ticks_moved: replay.ticks_replayed - last.ticks_replayed,
                tail: replay_tail(replay),
            },
        ],
        _ => none,
    }) + (match counters.snapshots {
        Some(snapshots) if refresh => seq![
            LineModel::Snapshot {
                moved: snapshots.sent - last.snapshots,
                tail: snapshot_tail(snapshots),
            },
        ],
        _ => none,
    }) + (match counters.inputs {
        Some(inputs) if refresh => seq![
            LineModel::Input { moved: inputs.received - last.inputs, tail: input_tail(inputs) },
        ],
        _ => none,
    }) + (match counters.health {
        Some(health) if is_unwell(health) => seq![LineModel::Health { text: health_text(health) }],
        _ => none,
    })
}

/// The counters that the next refresh is measured from.
pub open spec fn last_after(counters: Counters, refresh: bool, last: LastFrame) -> LastFrame {
    if !refresh {
        last
    } else {
        LastFrame {
            ticks: match counters.cost {
                Some(cost) => cost.ticks,
                None => last.ticks,
            },
            rollbacks: match counters.replay {
                Some(replay) => replay.rollbacks,
                None => last.rollbacks,
            },
            ticks_replayed: match counters.replay {
                Some(replay) => replay.ticks_replayed,
                None => last.ticks_replayed,
            },
            snapshots: match counters.snapshots {
                Some(snapshots) => snapshots.sent,
                None => last.snapshots,
            },
            inputs: match counters.inputs {
                Some(inputs) => inputs.received,
                None => last.inputs,
            },
        }
    }
}

/// Whether no counter has gone backwards since the last refresh.
pub open spec fn has_advanced(counters: Counters, last: LastFrame) -> bool {
    &&& counters.cost matches Some(cost) ==> cost.ticks >= last.ticks
    &&& counters.replay matches Some(replay) ==> replay.rollbacks >= last.rollbacks
        && replay.ticks_replayed >= last.ticks_replayed
    &&& counters.snapshots matches Some(snapshots) ==> snapshots.sent >= last.snapshots
    &&& counters.inputs matches Some(inputs) ==> inputs.received >= last.inputs
}

impl LastFrame {
    /// Before the first refresh.
    pub fn new() -> (last: LastFrame)
        ensures
            last.ticks == 0 && last.rollbacks == 0 && last.ticks_replayed == 0 && last.snapshots
                == 0 && last.inputs == 0,
    {
        LastFrame { ticks: 0, rollbacks: 0, ticks_replayed: 0, snapshots: 0, inputs: 0 }
    }
}

fn replay_words(replay: &ReplayCounters) -> (text: String)
    ensures
        text@ == replay_tail(*replay),
{
    let mut text = String::from_str(", distance ");
    text.append(decimal_of(replay.last_replay_distance).as_str());
    text.append(", ");
    text.append(decimal_of(replay.skipped_identical).as_str());
    text.append(" identical, ");
    text.append(decimal_of(replay.dropped_stale).as_str());
    text.append(" stale");
    text
}

fn snapshot_words(snapshots: &SnapshotCounters) -> (text: String)
    ensures
        text@ == snapshot_tail(*snapshots),
{
    let mut text = String::from_str(", ");
    text.append(decimal_of(snapshots.last_bytes).as_str());
    text.append(" B last, ");
    text.append(decimal_of(snapshots.max_bytes).as_str());
    text.append(" B max, ");
    text.append(decimal_of(snapshots.oversize).as_str());
    text.append(" oversize");
    text
}

fn input_words(inputs: &InputCounters) -> (text: String)
    ensures
        text@ == input_tail(*inputs),
{
    let mut text = String::from_str(", ");
    text.append(decimal_of(inputs.late).as_str());
    text.append(" late, ");
    text.append(decimal_of(inputs.dropped_out_of_window).as_str());
    text.append(" out of window");
    text
}

fn health_words(health: &HealthCounters) -> (text: String)
    ensures
        text@ == health_text(*health),
{
    let mut text = String::from_str("HEALTH: ");
    text.append(decimal_of(health.client_minted_tracked_id).as_str());
    text.append(" client-minted ids, ");
    text.append(decimal_of(health.duplicate_ids_in_snapshot).as_str());
    text.append(" duplicate ids, ");
    text.append(decimal_of(health.snapshot_older_than_history).as_str());
    text.append(" snapshots older than history");
    text
}

/// The lines to set this frame, in order; on a refresh the counters are kept for the next one.
pub fn publish_ticked_lines(counters: &Counters, refresh: bool, last: &mut LastFrame) -> (list: Vec<
    OverlayLine,
>)
    requires
        refresh ==> has_advanced(*counters, *old(last)),
    ensures
        line_views(list@) == lines_to_set(*counters, refresh, *old(last)),
        *final(last) == last_after(*counters, refresh, *old(last)),
{
    let mut list: Vec<OverlayLine> = Vec::new();
    if let Some(cost) = counters.cost {
        list.push(OverlayLine::Tick { run: cost.ticks });
        if refresh {
            list.push(OverlayLine::Rate { moved: cost.ticks - last.ticks });
            last.ticks = cost.ticks;
        }
    }
    if let Some(replay) = counters.replay {
        if refresh {
            list.push(
                OverlayLine::Replay {
                    rollbacks_moved: replay.rollbacks - last.rollbacks,
                    ticks_moved: replay.ticks_replayed - last.ticks_replayed,
                    tail: replay_words(&replay),
                },
            );
            last.rollbacks = replay.rollbacks;
            last.ticks_replayed = replay.ticks_replayed;
        }
    }
    if let Some(snapshots) = counters.snapshots {
        if refresh {
            list.push(
                OverlayLine::Snapshot {
                    moved: snapshots.sent - last.snapshots,
                    tail: snapshot_words(&snapshots),
                },
            );
            last.snapshots = snapshots.sent;
        }
    }
    if let Some(inputs) = counters.inputs {
        if refresh {
            list.push(
                OverlayLine::Input {
                    moved: inputs.received - last.inputs,
                    tail: input_words(&inputs),
                },
            );
            last.inputs = inputs.received;
        }
    }
    if let Some(health) = counters.health {
        if health.client_minted_tracked_id > 0 || health.duplicate_ids_in_snapshot > 0
            || health.snapshot_older_than_history > 0 {
            list.push(OverlayLine::Health { text: health_words(&health) });
        }
    }
    assert(line_views(list@) =~= lines_to_set(*counters, refresh, *old(last)));
    list
}

/// Between refreshes the rates are left as they were: nothing is set but the tick line, where ticks
/// are counted, and the health line, where something has gone wrong. Whatever is set, and whenever,
/// is set under the prefix `ticked.`.
pub proof fn lemma_rates_wait_for_a_refresh(
    counters: Counters,
    refresh: bool,
    last: LastFrame,
    at: int,
)
    requires
        0 <= at < lines_to_set(counters, refresh, last).len(),
    ensures
        ({
            let line = lines_to_set(counters, refresh, last)[at];
            &&& "ticked."@.is_prefix_of(line_key(line))
            &&& !refresh ==> (line is Tick && counters.cost is Some) || (line is Health && (
            counters.health matches Some(health) && is_unwell(health)))
        }),
{
    let line = lines_to_set(counters, refresh, last)[at];
    lemma_keys_stay_apart(line, line);
}

/// Of every kind there is at most one line in a frame: the tick line whenever ticks are counted, the
/// rates of what is counted whenever they are due, each with how far its counter has moved since the
/// last time they were, and the health line exactly when something has gone wrong.
pub proof fn lemma_lines_of_a_frame(counters: Counters, refresh: bool, last: LastFrame)
    ensures
        ({
            let lines = lines_to_set(counters, refresh, last);
            &&& forall|j: int, k: int|
                0 <= j < k < lines.len() ==> !are_of_a_kind(#[trigger] lines[j], #[trigger] lines[k])
            &&& forall|k: int|
                0 <= k < lines.len() ==> match #[trigger] lines[k] {
                    LineModel::Tick { run } => counters.cost is Some && run == counters.cost->0.ticks,
                    LineModel::Rate { moved } => refresh && counters.cost is Some && last.ticks
                        + moved == counters.cost->0.ticks,
                    LineModel::Replay { rollbacks_moved, ticks_moved, .. } => refresh
                        && counters.replay is Some && last.rollbacks + rollbacks_moved
                        == counters.replay->0.rollbacks && last.ticks_replayed + ticks_moved
                        == counters.replay->0.ticks_replayed,
                    LineModel::Snapshot { moved, .. } => refresh && counters.snapshots is Some
                        && last.snapshots + moved == counters.snapshots->0.sent,
                    LineModel::Input { moved, .. } => refresh && counters.inputs is Some
                        && last.inputs + moved == counters.inputs->0.received,
                    LineModel::Health { .. } => counters.health matches Some(health) && (
                    health.client_minted_tracked_id > 0 || health.duplicate_ids_in_snapshot > 0
                        || health.snapshot_older_than_history > 0),
                }
            &&& lines.len() == (if counters.cost is Some {
                1int
            } else {
                0
            }) + (if counters.cost is Some && refresh {
                1int
            } else {
                0
            }) + (if counters.replay is Some && refresh {
                1int
            } else {
                0
            }) + (if counters.snapshots is Some && refresh {
                1int
            } else {
                0
            }) + (if counters.inputs is Some && refresh {
                1int
            } else {
                0
            }) + (if counters.health matches Some(health) && (health.client_minted_tracked_id > 0
                || health.duplicate_ids_in_snapshot > 0 || health.snapshot_older_than_history > 0) {
                1int
            } else {
                0
            })
        }),
{
}

/// Nothing that is counted is shown twice or left out: how far a counter has moved at two refreshes
/// in a row is together how far it has moved since before the first, frames between them that are
/// no refresh change nothing, and a counter that is missing keeps its place.
pub proof fn lemma_rates_add_up(one: Counters, between: Counters, other: Counters, last: LastFrame)
    ensures
        ({
            let first = last_after(one, true, last);
            let kept = last_after(between, false, first);
            let second = last_after(other, true, kept);
            &&& kept == first
            &&& other.cost is Some ==> second.ticks == other.cost->0.ticks
            &&& other.cost is None ==> second.ticks == first.ticks
            &&& other.replay is Some ==> second.rollbacks == other.replay->0.rollbacks
                && second.ticks_replayed == other.replay->0.ticks_replayed
            &&& other.replay is None ==> second.rollbacks == first.rollbacks
                && second.ticks_replayed == first.ticks_replayed
            &&& other.snapshots is Some ==> second.snapshots == other.snapshots->0.sent
            &&& other.snapshots is None ==> second.snapshots == first.snapshots
            &&& other.inputs is Some ==> second.inputs == other.inputs->0.received
            &&& other.inputs is None ==> second.inputs == first.inputs
            &&& last_after(one, true, first) == first
        }),
{
}

/// What a line says behind its rates shows every counter that it is about, and the lines of a frame
/// are seen as they are.
pub proof fn lemma_tails_show_their_counters(
    replay: ReplayCounters,
    snapshots: SnapshotCounters,
    inputs: InputCounters,
    health: HealthCounters,
    list: Seq<OverlayLine>,
)
    ensures
        contains(replay_tail(replay), decimal(replay.last_replay_distance as nat)),
        contains(replay_tail(replay), decimal(replay.skipped_identical as nat)),
        contains(replay_tail(replay), decimal(replay.dropped_stale as nat)),
        contains(snapshot_tail(snapshots), decimal(snapshots.last_bytes as nat)),
        contains(snapshot_tail(snapshots), decimal(snapshots.max_bytes as nat)),
        contains(snapshot_tail(snapshots), decimal(snapshots.oversize as nat)),
        contains(input_tail(inputs), decimal(inputs.late as nat)),
        contains(input_tail(inputs), decimal(inputs.dropped_out_of_window as nat)),
        contains(health_text(health), decimal(health.client_minted_tracked_id as nat)),
        contains(health_text(health), decimal(health.duplicate_ids_in_snapshot as nat)),
        contains(health_text(health), decimal(health.snapshot_older_than_history as nat)),
        line_views(list).len() == list.len(),
        forall|k: int| 0 <= k < list.len() ==> #[trigger] line_views(list)[k] == list[k]@,
{
    let a = decimal(replay.last_replay_distance as nat);
    let b = decimal(replay.skipped_identical as nat);
    let c = decimal(replay.dropped_stale as nat);
    let tail = " identical, "@ + c + " stale"@;
    lemma_contains_its_parts(", distance "@, a, ", "@, b, tail);
    assert(", distance "@ + a + ", "@ + b + tail =~= replay_tail(replay));
    let head = ", distance "@ + a + ", "@ + b + " identical, "@;
    lemma_contains_what_stands_in_it(c, c, head, " stale"@);
    let d = decimal(snapshots.last_bytes as nat);
    let e = decimal(snapshots.max_bytes as nat);
    let f = decimal(snapshots.oversize as nat);
    let more = " B max, "@ + f + " oversize"@;
    lemma_contains_its_parts(", "@, d, " B last, "@, e, more);
    assert(", "@ + d + " B last, "@ + e + more =~= snapshot_tail(snapshots));
    let start = ", "@ + d + " B last, "@ + e + " B max, "@;
    lemma_contains_what_stands_in_it(f, f, start, " oversize"@);
    lemma_contains_its_parts(
        ", "@,
        decimal(inputs.late as nat),
        " late, "@,
        decimal(inputs.dropped_out_of_window as nat),
        " out of window"@,
    );
    let g = decimal(health.client_minted_tracked_id as nat);
    let h = decimal(health.duplicate_ids_in_snapshot as nat);
    let i = decimal(health.snapshot_older_than_history as nat);
    let last = " duplicate ids, "@ + i + " snapshots older than history"@;
    lemma_contains_its_parts("HEALTH: "@, g, " client-minted ids, "@, h, last);
    assert("HEALTH: "@ + g + " client-minted ids, "@ + h + last =~= health_text(health));
    let first = "HEALTH: "@ + g + " client-minted ids, "@ + h + " duplicate ids, "@;
    lemma_contains_what_stands_in_it(i, i, first, " snapshots older than history"@);
}

} // verus!
