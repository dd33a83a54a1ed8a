//! Is a simulation a function of what rollback restores?
//!
//! Simulating some ticks, rolling back and simulating them again must produce the same samples at
//! every tick. [`ReplayCheck`] says what to do next, is told what came of it, and fails on the
//! first tick whose replay differs, or where agreement would be no evidence.

use vstd::prelude::*;
use vstd::string::*;

use crate::network::Role;
use crate::number::{decimal, decimal_of, hex16, hex16_of};
use crate::text::{
    contains, join, joined, lemma_contains_its_parts, lemma_contains_what_stands_in_it,
    lemma_joined_contains_its_parts, views,
};

verus! {

/// Why a simulation does not replay identically, or cannot be checked.
#[derive(Clone, Copy, Debug, PartialEq, Eq, Structural)]
pub enum ReplayProblem {
    /// A replay of fewer than two ticks cannot show a change.
    TooShort,
    /// A client applies snapshots between the ticks being recorded.
    OnClient,
    /// The peer is past the tick at which the check starts.
    AlreadyPast { tick: u64, from: u64 },
    /// The peer does not reach the tick at which the check starts.
    Stuck { frames: u64, tick: u64, from: u64 },
    /// One frame was not one tick.
    NotOneTick { tick: u64, expected: u64 },
    /// The samples never changed: nothing was simulated.
    NeverChanged { from: u64, ticks: u64 },
    /// The replay differs from the live run at this tick.
    Diverged { tick: u64, from: u64, live: u64, replayed: u64 },
}

/// A problem in words. What a divergence says of the samples is left to
/// [`divergence_text`].
pub open spec fn problem_text(problem: ReplayProblem) -> Seq<char> {
    match problem {
        ReplayProblem::TooShort => "a replay of fewer than two ticks cannot show a change"@,
        ReplayProblem::OnClient => "run the purity check on a host or solo peer: a client's PreTick applies snapshots between the ticks being recorded"@,
        ReplayProblem::AlreadyPast { tick, from } => "this peer is already at tick "@ + decimal(
            tick as nat,
        ) + " and the check starts at "@ + decimal(from as nat)
            + ": start it at or after the current tick"@,
        ReplayProblem::Stuck { frames, tick, from } => "after "@ + decimal(frames as nat)
            + " frames this peer is at tick "@ + decimal(tick as nat) + ", not "@ + decimal(
            from as nat,
        ) + ": is it paused, or on a source other than Hz fed one TICK per frame?"@,
        ReplayProblem::NotOneTick { tick, expected } => "one frame was not one tick: at tick "@
            + decimal(tick as nat) + ", expected "@ + decimal(expected as nat)
            + ". The purity check needs the Hz source fed exactly one TICK per frame and no rate dilation"@,
        ReplayProblem::NeverChanged { from, ticks } => "the hash never changed over ticks "@
            + decimal((from + 1) as nat) + "..="@ + decimal((from + ticks) as nat)
            + ": nothing was simulated, so a replay that agrees proves nothing"@,
        ReplayProblem::Diverged { tick, from, .. } => "the replay diverged at tick "@ + decimal(
            tick as nat,
        ) + " ("@ + decimal((tick - from) as nat) + " ticks into a replay from "@ + decimal(
            from as nat,
        ) + ")"@,
    }
}

/// Whether the numbers of a problem are those of a check that has run.
pub open spec fn is_reported(problem: ReplayProblem) -> bool {
    match problem {
        ReplayProblem::NeverChanged { from, ticks } => from + ticks <= u64::MAX && ticks >= 1,
        ReplayProblem::Diverged { tick, from, .. } => tick >= from,
        _ => true,
    }
}

impl ReplayProblem {
    /// The problem in words.
    pub fn message(&self) -> (text: String)
        requires
            is_reported(*self),
        ensures
            text@ == problem_text(*self),
    {
        let mut text = String::new();
        match self {
            ReplayProblem::TooShort => {
                text.append("a replay of fewer than two ticks cannot show a change");
            },
            ReplayProblem::OnClient => {
                text.append(
                    "run the purity check on a host or solo peer: a client's PreTick applies snapshots between the ticks being recorded",
                );
            },
            ReplayProblem::AlreadyPast { tick, from } => {
                text.append("this peer is already at tick ");
                text.append(decimal_of(*tick).as_str());
                text.append(" and the check starts at ");
                text.append(decimal_of(*from).as_str());
                text.append(": start it at or after the current tick");
            },
            ReplayProblem::Stuck { frames, tick, from } => {
                text.append("after ");
                text.append(decimal_of(*frames).as_str());
                text.append(" frames this peer is at tick ");
                text.append(decimal_of(*tick).as_str());
                text.append(", not ");
                text.append(decimal_of(*from).as_str());
                text.append(
                    ": is it paused, or on a source other than Hz fed one TICK per frame?",
                );
            },
            ReplayProblem::NotOneTick { tick, expected } => {
                text.append("one frame was not one tick: at tick ");
                text.append(decimal_of(*tick).as_str());
                text.append(", expected ");
                text.append(decimal_of(*expected).as_str());
                text.append(
                    ". The purity check needs the Hz source fed exactly one TICK per frame and no rate dilation",
                );
            },
            ReplayProblem::NeverChanged { from, ticks } => {
                text.append("the hash never changed over ticks ");
                text.append(decimal_of(*from + 1).as_str());
                text.append("..=");
                text.append(decimal_of(*from + *ticks).as_str());
                text.append(": nothing was simulated, so a replay that agrees proves nothing");
            },
            ReplayProblem::Diverged { tick, from, live: _, replayed: _ } => {
                text.append("the replay diverged at tick ");
                text.append(decimal_of(*tick).as_str());
                text.append(" (");
                text.append(decimal_of(*tick - *from).as_str());
                text.append(" ticks into a replay from ");
                text.append(decimal_of(*from).as_str());
                text.append(")");
            },
        }
        assert(text@ =~= problem_text(*self));
        text
    }
}

/// What a divergence says of the samples: the hash of each, and the sections in which they differ.
pub open spec fn divergence_text(live: u64, replayed: u64, sections: Seq<Seq<char>>) -> Seq<char> {
    ": live "@ + hex16(live as nat) + ", replayed "@ + hex16(replayed as nat)
        + ", differing in: "@ + (if sections.len() == 0 {
        "nothing identifiable"@
    } else {
        joined(sections, ", "@)
    }) + ". Something the simulation reads at that tick is not restored by rollback"@
}

/// What a divergence says of the samples.
pub fn divergence_words(live: u64, replayed: u64, sections: &Vec<String>) -> (text: String)
    ensures
        text@ == divergence_text(live, replayed, views(sections@)),
{
    let mut text = String::from_str(": live ");
    text.append(hex16_of(live).as_str());
    text.append(", replayed ");
    text.append(hex16_of(replayed).as_str());
    text.append(", differing in: ");
    assert(views(sections@).len() == sections@.len());
    if sections.len() == 0 {
        text.append("nothing identifiable");
    } else {
        text.append(join(sections, ", ").as_str());
    }
    text.append(". Something the simulation reads at that tick is not restored by rollback");
    text
}

/// How far a check has come.
#[derive(Clone, Copy, Debug, PartialEq, Eq, Structural)]
pub enum Phase {
    /// Running frames up to the tick at which the check starts.
    Reaching,
    /// Recording the live run, one tick per frame.
    Living,
    /// The live run is recorded; the world is to be rolled back.
    Recorded,
    /// Running the recorded ticks again; this many agree so far.
    Replaying { agreed: u64 },
    Finished,
}

/// A check under way. The samples of the live run are numbers: two samples are the same exactly
/// when their numbers are equal.
pub struct ReplayCheck {
    pub from: u64,
    pub ticks: u64,
    pub frames: u64,
    pub live: Vec<u64>,
    pub phase: Phase,
}

/// The contents of a [`ReplayCheck`].
#[verifier::ext_equal]
pub struct CheckModel {
    pub from: u64,
    pub ticks: u64,
    pub frames: u64,
    pub live: Seq<u64>,
    pub phase: Phase,
}

impl View for ReplayCheck {
    type V = CheckModel;

    open spec fn view(&self) -> CheckModel {
        CheckModel {
            from: self.from,
            ticks: self.ticks,
            frames: self.frames,
            live: self.live@,
            phase: self.phase,
        }
    }
}

/// What to do next.
#[derive(Clone, Copy, Debug, PartialEq, Eq, Structural)]
pub enum ReplayAction {
    /// Run one frame and say which tick the peer is at.
    Reach,
    /// Run one frame, take a sample, and say which tick the peer is at.
    Live,
    /// Roll the world back to this tick.
    Restore { tick: u64 },
    /// Run this tick again and take a sample.
    Replay { tick: u64 },
    Finish,
}

/// What came of it.
#[derive(Clone, Copy, Debug, PartialEq, Eq, Structural)]
pub enum ReplayEvent {
    Reached { tick: u64 },
    Lived { tick: u64, sample: u64 },
    Restored,
    Replayed { sample: u64 },
}

/// Whether two neighbours of the samples differ.
pub open spec fn ever_changes(samples: Seq<u64>) -> bool {
    exists|k: int| 0 <= k < samples.len() - 1 && #[trigger] samples[k] != samples[k + 1]
}

/// Whether the numbers of a check fit together.
pub open spec fn is_check(check: CheckModel) -> bool {
    &&& check.ticks >= 2
    &&& check.from + check.ticks <= u64::MAX
    &&& check.from + 64 < u64::MAX
    &&& check.frames <= check.from + 64
    &&& check.live.len() <= check.ticks
    &&& match check.phase {
        Phase::Reaching => check.live.len() == 0,
        Phase::Living => check.live.len() < check.ticks,
        Phase::Recorded => check.live.len() == check.ticks && ever_changes(check.live),
        Phase::Replaying { agreed } => check.live.len() == check.ticks && agreed < check.ticks
            && ever_changes(check.live),
        Phase::Finished => check.live.len() == check.ticks && ever_changes(check.live),
    }
}

/// What a check does next.
pub open spec fn next_action(check: CheckModel) -> ReplayAction {
    match check.phase {
        Phase::Reaching => ReplayAction::Reach,
        Phase::Living => ReplayAction::Live,
        Phase::Recorded => ReplayAction::Restore { tick: check.from },
        Phase::Replaying { agreed } => ReplayAction::Replay {
            tick: (check.from + agreed + 1) as u64,
        },
        Phase::Finished => ReplayAction::Finish,
    }
}

/// Whether `event` is what can come of what the check does next.
pub open spec fn answers(check: CheckModel, event: ReplayEvent) -> bool {
    match (check.phase, event) {
        (Phase::Reaching, ReplayEvent::Reached { .. }) => true,
        (Phase::Living, ReplayEvent::Lived { .. }) => true,
        (Phase::Recorded, ReplayEvent::Restored) => true,
        (Phase::Replaying { .. }, ReplayEvent::Replayed { .. }) => true,
        _ => false,
    }
}

/// A check once it has been told what came of what it did.
pub open spec fn told(check: CheckModel, event: ReplayEvent) -> Result<CheckModel, ReplayProblem> {
    match event {
        ReplayEvent::Reached { tick } => {
            let frames = (check.frames + 1) as u64;
            if frames > check.from + 64 {
                Err(ReplayProblem::Stuck { frames, tick, from: check.from })
            } else {
                Ok(
                    CheckModel {
                        frames,
                        phase: if tick < check.from {
                            Phase::Reaching
                        } else {
                            Phase::Living
                        },
                        ..check
                    },
                )
            }
        },
        ReplayEvent::Lived { tick, sample } => {
            let expected = (check.from + check.live.len() + 1) as u64;
            let live = check.live.push(sample);
            if tick != expected {
                Err(ReplayProblem::NotOneTick { tick, expected })
            } else if live.len() < check.ticks {
                Ok(CheckModel { live, ..check })
            } else if !ever_changes(live) {
                Err(ReplayProblem::NeverChanged { from: check.from, ticks: check.ticks })
            } else {
                Ok(CheckModel { live, phase: Phase::Recorded, ..check })
            }
        },
        ReplayEvent::Restored => Ok(
            CheckModel { phase: Phase::Replaying { agreed: 0 }, ..check },
        ),
        ReplayEvent::Replayed { sample } => {
            let agreed = check.phase->agreed;
            let live = check.live[agreed as int];
            if sample != live {
                Err(
                    ReplayProblem::Diverged {
                        tick: (check.from + agreed + 1) as u64,
                        from: check.from,
                        live,
                        replayed: sample,
                    },
                )
            } else if agreed + 1 < check.ticks {
                Ok(
                    CheckModel {
                        phase: Phase::Replaying { agreed: (agreed + 1) as u64 },
                        ..check
                    },
                )
            } else {
                Ok(CheckModel { phase: Phase::Finished, ..check })
            }
        },
    }
}

impl ReplayCheck {
    /// Whether the numbers of the check fit together.
    pub open spec fn wf(&self) -> bool {
        is_check(self@)
    }

    /// A check of `ticks` ticks from `from`, on a peer that holds `role` and is at `tick`.
    pub fn start(from: u64, ticks: u64, role: Role, tick: u64) -> (started: Result<
        ReplayCheck,
        ReplayProblem,
    >)
        requires
            from + ticks <= u64::MAX,
            from + 64 < u64::MAX,
        ensures
            match started {
                Ok(check) => {
                    &&& ticks >= 2
                    &&& role != Role::Client
                    &&& tick <= from
                    &&& check.wf()
                    &&& check@ == begun(from, ticks, tick)
                },
                Err(problem) => problem == (if ticks < 2 {
                    ReplayProblem::TooShort
                } else if role == Role::Client {
                    ReplayProblem::OnClient
                } else {
                    ReplayProblem::AlreadyPast { tick, from }
                }) && (ticks < 2 || role == Role::Client || tick > from),
            },
    {
        if ticks < 2 {
            return Err(ReplayProblem::TooShort);
        }
        if role == Role::Client {
            return Err(ReplayProblem::OnClient);
        }
        if tick > from {
            return Err(ReplayProblem::AlreadyPast { tick, from });
        }
        let phase = if tick < from {
            Phase::Reaching
        } else {
            Phase::Living
        };
        Ok(ReplayCheck { from, ticks, frames: 0, live: Vec::new(), phase })
    }

    /// What to do next.
    pub fn next(&self) -> (action: ReplayAction)
        requires
            self.wf(),
        ensures
            action == next_action(self@),
    {
        match self.phase {
            Phase::Reaching => ReplayAction::Reach,
            Phase::Living => ReplayAction::Live,
            Phase::Recorded => ReplayAction::Restore { tick: self.from },
            Phase::Replaying { agreed } => ReplayAction::Replay {
                tick: self.from + agreed + 1,
            },
            Phase::Finished => ReplayAction::Finish,
        }
    }

    fn live_changes(&self) -> (changes: bool)
        ensures
            changes == ever_changes(self.live@),
    {
        let mut index: usize = 1;
        while index < self.live.len()
            invariant
                1 <= index,
                forall|k: int|
                    0 <= k < index - 1 && k < self.live@.len() - 1 ==> #[trigger] self.live@[k]
                        == self.live@[k + 1],
            decreases self.live@.len() - index,
        {
            if self.live[index - 1] != self.live[index] {
                assert(self.live@[index - 1] != self.live@[index - 1 + 1]);
                return true;
            }
            index = index + 1;
        }
        false
    }

    /// Go on from what came of the last action.
    pub fn tell(&mut self, event: ReplayEvent) -> (verdict: Result<(), ReplayProblem>)
        requires
            old(self).wf(),
            answers(old(self)@, event),
        ensures
            match verdict {
                Ok(()) => told(old(self)@, event) == Ok::<CheckModel, ReplayProblem>(final(self)@)
                    && final(self).wf(),
                Err(problem) => told(old(self)@, event) == Err::<CheckModel, ReplayProblem>(problem)
                    && is_reported(problem),
            },
    {
        match event {
            ReplayEvent::Reached { tick } => {
                self.frames = self.frames + 1;
                if self.frames > self.from + 64 {
                    return Err(
                        ReplayProblem::Stuck { frames: self.frames, tick, from: self.from },
                    );
                }
                if tick >= self.from {
                    self.phase = Phase::Living;
                }
            },
            ReplayEvent::Lived { tick, sample } => {
                let expected: u64 = self.from + self.live.len() as u64 + 1;
                if tick != expected {
                    return Err(ReplayProblem::NotOneTick { tick, expected });
                }
                self.live.push(sample);
                if self.live.len() as u64 == self.ticks {
                    if !self.live_changes() {
                        return Err(
                            ReplayProblem::NeverChanged { from: self.from, ticks: self.ticks },
                        );
                    }
                    self.phase = Phase::Recorded;
                }
            },
            ReplayEvent::Restored => {
                self.phase = Phase::Replaying { agreed: 0 };
            },
            ReplayEvent::Replayed { sample } => {
                if let Phase::Replaying { agreed } = self.phase {
                    let total: usize = self.live.len();
                    assert(agreed < total);
                    let live: u64 = self.live[agreed as usize];
                    if sample != live {
                        return Err(
                            ReplayProblem::Diverged {
                                tick: self.from + agreed + 1,
                                from: self.from,
                                live,
                                replayed: sample,
                            },
                        );
                    }
                    if agreed + 1 < self.ticks {
                        self.phase = Phase::Replaying { agreed: agreed + 1 };
                    } else {
                        self.phase = Phase::Finished;
                    }
                }
            },
        }
        Ok(())
    }
}

// ---- laws ------------------------------------------------------------------------------------

/// A check that has been told of several replayed ticks in turn.
pub open spec fn told_all(check: CheckModel, samples: Seq<u64>) -> Result<
    CheckModel,
    ReplayProblem,
>
    decreases samples.len(),
{
    if samples.len() == 0 {
        Ok(check)
    } else {
        match told(check, ReplayEvent::Replayed { sample: samples[0] }) {
            Err(problem) => Err(problem),
            Ok(next) => told_all(next, samples.skip(1)),
        }
    }
}

/// A check that is told of as many replayed ticks as are left finishes exactly when each of them
/// is what the live run recorded, and else fails on the first that is not.
pub proof fn lemma_finishes_only_on_an_identical_replay(check: CheckModel, samples: Seq<u64>)
    requires
        is_check(check),
        check.phase is Replaying,
        samples.len() == check.ticks - check.phase->agreed,
    ensures
        ({
            let agreed = check.phase->agreed as int;
            match told_all(check, samples) {
                Ok(last) => last.phase == Phase::Finished && samples == check.live.skip(agreed),
                Err(problem) => samples != check.live.skip(agreed) && exists|k: int|
                    {
                        &&& 0 <= k < samples.len()
                        &&& samples.take(k) == check.live.subrange(agreed, agreed + k)
                        &&& #[trigger] samples[k] != check.live[agreed + k]
                        &&& problem == (ReplayProblem::Diverged {
                            tick: (check.from + agreed + k + 1) as u64,
                            from: check.from,
                            live: check.live[agreed + k],
                            replayed: samples[k],
                        })
                    },
            }
        }),
    decreases samples.len(),
{
    let agreed = check.phase->agreed as int;
    let rest = check.live.skip(agreed);
    assert(rest[0] == check.live[agreed]);
    if samples[0] != check.live[agreed] {
        assert(samples.take(0) =~= check.live.subrange(agreed, agreed));
        assert(samples[0] != check.live[agreed + 0]);
        assert(samples != rest);
    } else {
        let next = told(check, ReplayEvent::Replayed { sample: samples[0] })->Ok_0;
        let after = samples.skip(1);
        if samples.len() == 1 {
            assert(next.phase == Phase::Finished);
            assert(samples =~= rest);
            assert(told_all(next, after) == Ok::<CheckModel, ReplayProblem>(next));
        } else {
            assert(next.phase == Phase::Replaying { agreed: (agreed + 1) as u64 });
            lemma_finishes_only_on_an_identical_replay(next, after);
            assert(seq![samples[0]] + after =~= samples);
            assert(seq![check.live[agreed]] + check.live.skip(agreed + 1) =~= rest);
            if let Err(problem) = told_all(check, samples) {
                let k = choose|k: int|
                    {
                        &&& 0 <= k < after.len()
                        &&& after.take(k) == check.live.subrange(agreed + 1, agreed + 1 + k)
                        &&& #[trigger] after[k] != check.live[agreed + 1 + k]
                        &&& problem == (ReplayProblem::Diverged {
                            tick: (check.from + agreed + 1 + k + 1) as u64,
                            from: check.from,
                            live: check.live[agreed + 1 + k],
                            replayed: after[k],
                        })
                    };
                assert(samples[k + 1] == after[k]);
                assert(samples.take(k + 1) =~= seq![samples[0]] + after.take(k));
                assert(check.live.subrange(agreed, agreed + k + 1) =~= seq![check.live[agreed]]
                    + check.live.subrange(agreed + 1, agreed + 1 + k));
                if samples == rest {
                    assert(after =~= check.live.skip(agreed + 1));
                }
            }
        }
    }
}

/// The check that [`ReplayCheck::start`] begins.
pub open spec fn begun(from: u64, ticks: u64, tick: u64) -> CheckModel {
    CheckModel {
        from,
        ticks,
        frames: 0,
        live: Seq::empty(),
        phase: if tick < from {
            Phase::Reaching
        } else {
            Phase::Living
        },
    }
}

/// A check that has been told of several events in turn; `None` where one of them was no answer to
/// what it did, or made it fail.
pub open spec fn told_through(check: CheckModel, events: Seq<ReplayEvent>) -> Option<CheckModel>
    decreases events.len(),
{
    if events.len() == 0 {
        Some(check)
    } else {
        match told_through(check, events.drop_last()) {
            Some(last) => if answers(last, events.last()) {
                match told(last, events.last()) {
                    Ok(next) => Some(next),
                    Err(_) => None,
                }
            } else {
                None
            },
            None => None,
        }
    }
}

/// How many ticks have been replayed in a phase of a check of `ticks` ticks, or -1 where the world
/// has not been restored.
pub open spec fn replayed_in(phase: Phase, ticks: u64) -> int {
    match phase {
        Phase::Replaying { agreed } => agreed as int,
        Phase::Finished => ticks as int,
        _ => -1,
    }
}

/// Whether `events` are how a check came to where it is: `reached` frames up to the start, the live
/// run tick by tick from the one behind it, the restore, and the replay.
pub open spec fn is_history(check: CheckModel, events: Seq<ReplayEvent>, reached: int) -> bool {
    let lived = check.live.len() as int;
    let replayed = replayed_in(check.phase, check.ticks);
    &&& 0 <= reached
    &&& events.len() == reached + lived + 1 + replayed
    &&& forall|k: int| 0 <= k < reached ==> #[trigger] events[k] is Reached
    &&& forall|k: int|
        reached <= k < reached + lived ==> #[trigger] events[k] == (ReplayEvent::Lived {
            tick: (check.from + (k - reached) + 1) as u64,
            sample: check.live[k - reached],
        })
    &&& replayed >= 0 ==> events[reached + lived] == ReplayEvent::Restored
    &&& forall|k: int|
        reached + lived < k < events.len() ==> #[trigger] events[k] == (ReplayEvent::Replayed {
            sample: check.live[k - (reached + lived + 1)],
        })
}

/// Whether `events` are those of a whole check: frames up to the start, `ticks` ticks lived from the
/// one behind it, over which the samples changed, one restore, and the same samples again.
pub open spec fn is_whole_check(
    from: u64,
    ticks: u64,
    events: Seq<ReplayEvent>,
    reached: int,
    samples: Seq<u64>,
) -> bool {
    &&& 0 <= reached
    &&& samples.len() == ticks
    &&& ever_changes(samples)
    &&& events.len() == reached + ticks + 1 + ticks
    &&& forall|k: int| 0 <= k < reached ==> #[trigger] events[k] is Reached
    &&& forall|k: int|
        reached <= k < reached + ticks ==> #[trigger] events[k] == (ReplayEvent::Lived {
            tick: (from + (k - reached) + 1) as u64,
            sample: samples[k - reached],
        })
    &&& events[reached + ticks] == ReplayEvent::Restored
    &&& forall|k: int|
        reached + ticks < k < events.len() ==> #[trigger] events[k] == (ReplayEvent::Replayed {
            sample: samples[k - (reached + ticks + 1)],
        })
}

proof fn lemma_history(check: CheckModel, events: Seq<ReplayEvent>) -> (reached: int)
    requires
        is_check(check),
        check.live.len() == 0,
        check.phase is Reaching || check.phase is Living,
        told_through(check, events) is Some,
    ensures
        ({
            let last = told_through(check, events)->0;
            &&& is_check(last)
            &&& last.from == check.from && last.ticks == check.ticks
            &&& is_history(last, events, reached)
        }),
    decreases events.len(),
{
    if events.len() == 0 {
        0
    } else {
        let earlier = events.drop_last();
        let event = events.last();
        let reached = lemma_history(check, earlier);
        let before_last = told_through(check, earlier)->0;
        let last = told_through(check, events)->0;
        assert forall|k: int| 0 <= k < earlier.len() implies earlier[k] == events[k] by {}
        assert(events[events.len() - 1] == event);
        match event {
            ReplayEvent::Reached { .. } => reached + 1,
            ReplayEvent::Lived { sample, .. } => {
                assert(last.live == before_last.live.push(sample));
                reached
            },
            _ => reached,
        }
    }
}

/// A check that has come from its start to its finish has sampled at least two ticks in a row from
/// the one behind its start, seen the world change, restored it once, and sampled the same again on
/// every one of those ticks.
pub proof fn lemma_finish_means_an_identical_replay(
    from: u64,
    ticks: u64,
    tick: u64,
    events: Seq<ReplayEvent>,
)
    requires
        ticks >= 2,
        from + ticks <= u64::MAX,
        from + 64 < u64::MAX,
        told_through(begun(from, ticks, tick), events) matches Some(last) && next_action(last)
            == ReplayAction::Finish,
    ensures
        exists|reached: int, samples: Seq<u64>|
            is_whole_check(from, ticks, events, reached, samples),
{
    let reached = lemma_history(begun(from, ticks, tick), events);
    let last = told_through(begun(from, ticks, tick), events)->0;
    assert(last.phase is Finished);
    assert(is_whole_check(from, ticks, events, reached, last.live));
}

/// The events of a peer that comes to `reaches` in turn on its way to the start, lives through the
/// ticks behind `from` one by one and samples `samples`, is restored, and samples `again`.
pub open spec fn run_of(
    from: u64,
    reaches: Seq<u64>,
    samples: Seq<u64>,
    again: Seq<u64>,
) -> Seq<ReplayEvent> {
    reaches.map_values(|tick: u64| ReplayEvent::Reached { tick }) + lived_from(from, 0, samples)
        + seq![ReplayEvent::Restored] + again.map_values(
        |sample: u64| ReplayEvent::Replayed { sample },
    )
}

/// The events of consecutive ticks, the first of them `skipped` ticks behind `from + 1`.
pub open spec fn lived_from(from: u64, skipped: nat, samples: Seq<u64>) -> Seq<ReplayEvent> {
    Seq::new(
        samples.len(),
        |k: int|
            ReplayEvent::Lived { tick: (from + skipped + k + 1) as u64, sample: samples[k] },
    )
}

/// Whether a peer that is at `tick` comes to `from` by way of `reaches`: it is there already, or the
/// last frame of no more than `from + 64` brings it there and none before that does.
pub open spec fn comes_to(tick: u64, from: u64, reaches: Seq<u64>) -> bool {
    if tick == from {
        reaches.len() == 0
    } else {
        &&& tick < from
        &&& 1 <= reaches.len() <= from + 64
        &&& reaches.last() >= from
        &&& forall|k: int| 0 <= k < reaches.len() - 1 ==> #[trigger] reaches[k] < from
    }
}

proof fn lemma_told_in_turn(check: CheckModel, one: Seq<ReplayEvent>, other: Seq<ReplayEvent>)
    ensures
        told_through(check, one + other) == (match told_through(check, one) {
            Some(next) => told_through(next, other),
            None => None,
        }),
    decreases other.len(),
{
    if other.len() == 0 {
        assert(one + other =~= one);
    } else {
        lemma_told_in_turn(check, one, other.drop_last());
        assert((one + other).drop_last() =~= one + other.drop_last());
        assert((one + other).last() == other.last());
    }
}

proof fn lemma_told_once(check: CheckModel, event: ReplayEvent)
    requires
        answers(check, event),
    ensures
        told_through(check, seq![event]) == (match told(check, event) {
            Ok(next) => Some(next),
            Err(_) => None,
        }),
{
    assert(seq![event].drop_last() =~= Seq::empty());
    assert(seq![event].last() == event);
    assert(told_through(check, Seq::empty()) == Some(check));
}

proof fn lemma_still_reaching(check: CheckModel, reaches: Seq<u64>)
    requires
        is_check(check),
        check.phase is Reaching,
        check.frames + reaches.len() <= check.from + 64,
        forall|k: int| 0 <= k < reaches.len() ==> #[trigger] reaches[k] < check.from,
    ensures
        told_through(check, reaches.map_values(|tick: u64| ReplayEvent::Reached { tick })) == Some(
            CheckModel { frames: (check.frames + reaches.len()) as u64, ..check },
        ),
    decreases reaches.len(),
{
    let events = reaches.map_values(|tick: u64| ReplayEvent::Reached { tick });
    if reaches.len() > 0 {
        let earlier = reaches.drop_last();
        assert forall|k: int| 0 <= k < earlier.len() implies #[trigger] earlier[k] < check.from by {
            assert(earlier[k] == reaches[k]);
        }
        lemma_still_reaching(check, earlier);
        assert(events.drop_last() =~= earlier.map_values(
            |tick: u64| ReplayEvent::Reached { tick },
        ));
        assert(reaches[reaches.len() - 1] < check.from);
        assert(events.last() == ReplayEvent::Reached { tick: reaches.last() });
    }
}

proof fn lemma_still_living(check: CheckModel, samples: Seq<u64>)
    requires
        is_check(check),
        check.phase is Living,
        check.live.len() + samples.len() < check.ticks,
    ensures
        told_through(check, lived_from(check.from, check.live.len(), samples)) == Some(
            CheckModel { live: check.live + samples, ..check },
        ),
    decreases samples.len(),
{
    let events = lived_from(check.from, check.live.len(), samples);
    if samples.len() == 0 {
        assert(check.live + samples =~= check.live);
    } else {
        let earlier = samples.drop_last();
        lemma_still_living(check, earlier);
        assert(events.drop_last() =~= lived_from(check.from, check.live.len(), earlier));
        assert((check.live + earlier).push(samples.last()) =~= check.live + samples);
    }
}

proof fn lemma_still_replaying(check: CheckModel, samples: Seq<u64>)
    requires
        is_check(check),
        check.phase is Replaying,
        check.phase->agreed + samples.len() < check.ticks,
        forall|k: int|
            0 <= k < samples.len() ==> #[trigger] samples[k] == check.live[check.phase->agreed + k],
    ensures
        told_through(
            check,
            samples.map_values(|sample: u64| ReplayEvent::Replayed { sample }),
        ) == Some(
            CheckModel {
                phase: Phase::Replaying { agreed: (check.phase->agreed + samples.len()) as u64 },
                ..check
            },
        ),
    decreases samples.len(),
{
    let events = samples.map_values(|sample: u64| ReplayEvent::Replayed { sample });
    if samples.len() > 0 {
        let earlier = samples.drop_last();
        assert forall|k: int| 0 <= k < earlier.len() implies #[trigger] earlier[k]
            == check.live[check.phase->agreed + k] by {
            assert(earlier[k] == samples[k]);
        }
        lemma_still_replaying(check, earlier);
        assert(events.drop_last() =~= earlier.map_values(
            |sample: u64| ReplayEvent::Replayed { sample },
        ));
        assert(samples[samples.len() - 1] == samples.last());
        assert(events.last() == ReplayEvent::Replayed { sample: samples.last() });
    }
}

proof fn lemma_comes_to_its_start(from: u64, ticks: u64, tick: u64, reaches: Seq<u64>) -> (living:
    CheckModel)
    requires
        ticks >= 2,
        from + ticks <= u64::MAX,
        from + 64 < u64::MAX,
        comes_to(tick, from, reaches),
    ensures
        told_through(
            begun(from, ticks, tick),
            reaches.map_values(|at: u64| ReplayEvent::Reached { tick: at }),
        ) == Some(living),
        is_check(living),
        living == (CheckModel {
            from,
            ticks,
            frames: living.frames,
            live: Seq::empty(),
            phase: Phase::Living,
        }),
{
    let check = begun(from, ticks, tick);
    let events = reaches.map_values(|at: u64| ReplayEvent::Reached { tick: at });
    if tick == from {
        assert(told_through(check, events) == Some(check));
        check
    } else {
        let earlier = reaches.drop_last();
        assert forall|k: int| 0 <= k < earlier.len() implies #[trigger] earlier[k] < check.from by {
            assert(earlier[k] == reaches[k]);
        }
        lemma_still_reaching(check, earlier);
        assert(events.drop_last() =~= earlier.map_values(
            |at: u64| ReplayEvent::Reached { tick: at },
        ));
        assert(events.last() == ReplayEvent::Reached { tick: reaches.last() });
        CheckModel { frames: reaches.len() as u64, phase: Phase::Living, ..check }
    }
}

/// A check of a peer that comes to its start in time, lives through consecutive ticks one by one,
/// whose samples change between some two neighbours, and that samples the same again on every tick
/// once it has been restored, finishes without a problem.
pub proof fn lemma_identical_replay_finishes(
    from: u64,
    ticks: u64,
    tick: u64,
    reaches: Seq<u64>,
    samples: Seq<u64>,
    changed: int,
)
    requires
        ticks >= 2,
        from + ticks <= u64::MAX,
        from + 64 < u64::MAX,
        comes_to(tick, from, reaches),
        samples.len() == ticks,
        0 <= changed < samples.len() - 1,
        samples[changed] != samples[changed + 1],
    ensures
        told_through(begun(from, ticks, tick), run_of(from, reaches, samples, samples)) matches Some(
            last,
        ) && next_action(last) == ReplayAction::Finish,
{
    let check = begun(from, ticks, tick);
    let reached = reaches.map_values(|at: u64| ReplayEvent::Reached { tick: at });
    let lived = lived_from(from, 0, samples);
    let restored = seq![ReplayEvent::Restored];
    let replayed = samples.map_values(|sample: u64| ReplayEvent::Replayed { sample });
    let living = lemma_comes_to_its_start(from, ticks, tick, reaches);
    let earlier = samples.drop_last();
    lemma_still_living(living, earlier);
    assert(lived.drop_last() =~= lived_from(from, 0, earlier));
    assert(living.live + earlier =~= earlier);
    assert(earlier.push(samples.last()) =~= samples);
    let recorded = CheckModel { live: samples, phase: Phase::Recorded, ..living };
    assert(told_through(living, lived) == Some(recorded));
    lemma_told_once(recorded, ReplayEvent::Restored);
    let replaying = CheckModel { phase: Phase::Replaying { agreed: 0 }, ..recorded };
    lemma_still_replaying(replaying, earlier);
    assert(replayed.drop_last() =~= earlier.map_values(
        |sample: u64| ReplayEvent::Replayed { sample },
    ));
    assert(told_through(replaying, replayed) == Some(
        CheckModel { phase: Phase::Finished, ..replaying },
    ));
    lemma_told_in_turn(check, reached, lived);
    lemma_told_in_turn(check, reached + lived, restored);
    lemma_told_in_turn(check, reached + lived + restored, replayed);
    assert(reached =~= reaches.map_values(|tick: u64| ReplayEvent::Reached { tick }));
    assert(run_of(from, reaches, samples, samples) =~= reached + lived + restored + replayed);
}

/// A check fails because nothing changed exactly when its live run is complete and all its samples
/// are equal.
pub proof fn lemma_never_changed_only_where_all_are_equal(check: CheckModel, event: ReplayEvent)
    requires
        is_check(check),
        answers(check, event),
    ensures
        told(check, event) matches Err(ReplayProblem::NeverChanged { .. }) <==> {
            &&& event matches ReplayEvent::Lived { tick, sample } && {
                &&& tick == check.from + check.ticks
                &&& check.live.len() + 1 == check.ticks
                &&& forall|k: int| 0 <= k < check.live.len() ==> #[trigger] check.live[k] == sample
            }
        },
{
    if let ReplayEvent::Lived { tick, sample } = event {
        let live = check.live.push(sample);
        if !ever_changes(live) {
            assert forall|k: int| 0 <= k < check.live.len() implies #[trigger] check.live[k]
                == sample by {
                lemma_equal_to_the_last(live, k);
                assert(live[k] == check.live[k]);
            }
        } else {
            let k = choose|k: int| 0 <= k < live.len() - 1 && #[trigger] live[k] != live[k + 1];
            assert(live[k] == check.live[k]);
            if k + 1 < check.live.len() {
                assert(live[k + 1] == check.live[k + 1]);
            }
        }
    }
}

proof fn lemma_equal_to_the_last(samples: Seq<u64>, at: int)
    requires
        0 <= at < samples.len(),
        !ever_changes(samples),
    ensures
        samples[at] == samples.last(),
    decreases samples.len() - at,
{
    if at < samples.len() - 1 {
        lemma_equal_to_the_last(samples, at + 1);
        assert(samples[at] == samples[at + 1]);
    }
}

/// A check waits `from + 64` frames for its peer to come to its start, asking for one more after
/// each of them, and gives up on the next.
pub proof fn lemma_check_gives_up_on_a_stuck_peer(
    from: u64,
    ticks: u64,
    tick: u64,
    reaches: Seq<u64>,
    next: u64,
)
    requires
        ticks >= 2,
        from + ticks <= u64::MAX,
        from + 64 < u64::MAX,
        tick < from,
        reaches.len() <= from + 64,
        forall|k: int| 0 <= k < reaches.len() ==> #[trigger] reaches[k] < from,
    ensures
        ({
            let waiting = told_through(
                begun(from, ticks, tick),
                reaches.map_values(|at: u64| ReplayEvent::Reached { tick: at }),
            );
            &&& waiting is Some
            &&& next_action(waiting->0) == ReplayAction::Reach
            &&& told(waiting->0, ReplayEvent::Reached { tick: next }) is Err <==> reaches.len()
                == from + 64
        }),
{
    lemma_still_reaching(begun(from, ticks, tick), reaches);
    assert(reaches.map_values(|at: u64| ReplayEvent::Reached { tick: at }) =~= reaches.map_values(
        |tick: u64| ReplayEvent::Reached { tick },
    ));
}

/// A check that lives through its ticks takes the next one and no other.
pub proof fn lemma_one_frame_is_one_tick(check: CheckModel, tick: u64, sample: u64)
    requires
        is_check(check),
        check.phase is Living,
    ensures
        told(check, ReplayEvent::Lived { tick, sample }) matches Err(
            ReplayProblem::NotOneTick { .. },
        ) <==> tick != check.from + check.live.len() + 1,
{
}

/// A check asks for each thing in turn: for one frame more until its start, for each tick to be
/// lived, for the world to be rolled back to the start, and for each of the ticks again.
pub proof fn lemma_check_asks_for_each_tick_in_turn(
    from: u64,
    ticks: u64,
    tick: u64,
    reaches: Seq<u64>,
    samples: Seq<u64>,
    changed: int,
    lived: int,
    again: int,
)
    requires
        ticks >= 2,
        from + ticks <= u64::MAX,
        from + 64 < u64::MAX,
        comes_to(tick, from, reaches),
        samples.len() == ticks,
        0 <= changed < samples.len() - 1,
        samples[changed] != samples[changed + 1],
        0 <= lived < ticks,
        0 <= again < ticks,
    ensures
        ({
            let check = begun(from, ticks, tick);
            let reached = reaches.map_values(|at: u64| ReplayEvent::Reached { tick: at });
            let whole = run_of(from, reaches, samples, samples);
            let restored = reaches.len() + ticks + 1;
            &&& told_through(check, whole.take(reaches.len() + lived)) matches Some(living)
                && next_action(living) == ReplayAction::Live
            &&& told_through(check, whole.take(reaches.len() + ticks)) matches Some(recorded)
                && next_action(recorded) == (ReplayAction::Restore { tick: from })
            &&& told_through(check, whole.take(restored + again)) matches Some(replaying)
                && next_action(replaying) == (ReplayAction::Replay {
                tick: (from + again + 1) as u64,
            })
        }),
{
    let check = begun(from, ticks, tick);
    let whole = run_of(from, reaches, samples, samples);
    let reached = reaches.map_values(|at: u64| ReplayEvent::Reached { tick: at });
    let live = lived_from(from, 0, samples);
    let restored = seq![ReplayEvent::Restored];
    let living = lemma_comes_to_its_start(from, ticks, tick, reaches);
    let some = samples.take(lived);
    lemma_still_living(living, some);
    assert(lived_from(from, 0, some) =~= live.take(lived));
    lemma_told_in_turn(check, reached, live.take(lived));
    assert(reached + live.take(lived) =~= whole.take(reaches.len() + lived));
    let earlier = samples.drop_last();
    lemma_still_living(living, earlier);
    assert(live.drop_last() =~= lived_from(from, 0, earlier));
    assert(living.live + earlier =~= earlier);
    assert(earlier.push(samples.last()) =~= samples);
    let recorded = CheckModel { live: samples, phase: Phase::Recorded, ..living };
    assert(told_through(living, live) == Some(recorded));
    lemma_told_in_turn(check, reached, live);
    assert(reached + live =~= whole.take(reaches.len() + ticks));
    lemma_told_once(recorded, ReplayEvent::Restored);
    lemma_told_in_turn(check, reached + live, restored);
    let replaying = CheckModel { phase: Phase::Replaying { agreed: 0 }, ..recorded };
    let part = samples.take(again);
    lemma_still_replaying(replaying, part);
    let repeated = part.map_values(|sample: u64| ReplayEvent::Replayed { sample });
    lemma_told_in_turn(check, reached + live + restored, repeated);
    assert(reached + live + restored + repeated =~= whole.take(reaches.len() + ticks + 1 + again));
}

/// A replay that differs on a tick from the live run fails on that tick, with both samples, whatever
/// was to come behind it.
pub proof fn lemma_replay_fails_where_it_differs(
    from: u64,
    ticks: u64,
    tick: u64,
    reaches: Seq<u64>,
    samples: Seq<u64>,
    changed: int,
    again: int,
    sample: u64,
)
    requires
        ticks >= 2,
        from + ticks <= u64::MAX,
        from + 64 < u64::MAX,
        comes_to(tick, from, reaches),
        samples.len() == ticks,
        0 <= changed < samples.len() - 1,
        samples[changed] != samples[changed + 1],
        0 <= again < ticks,
        sample != samples[again],
    ensures
        ({
            let whole = run_of(from, reaches, samples, samples);
            let check = told_through(
                begun(from, ticks, tick),
                whole.take(reaches.len() + ticks + 1 + again),
            );
            &&& check is Some
            &&& told(check->0, ReplayEvent::Replayed { sample }) == Err::<CheckModel, ReplayProblem>(
                ReplayProblem::Diverged {
                    tick: (from + again + 1) as u64,
                    from,
                    live: samples[again],
                    replayed: sample,
                },
            )
        }),
{
    let check = begun(from, ticks, tick);
    let whole = run_of(from, reaches, samples, samples);
    let reached = reaches.map_values(|at: u64| ReplayEvent::Reached { tick: at });
    let live = lived_from(from, 0, samples);
    let restored = seq![ReplayEvent::Restored];
    let living = lemma_comes_to_its_start(from, ticks, tick, reaches);
    let earlier = samples.drop_last();
    lemma_still_living(living, earlier);
    assert(live.drop_last() =~= lived_from(from, 0, earlier));
    assert(living.live + earlier =~= earlier);
    assert(earlier.push(samples.last()) =~= samples);
    let recorded = CheckModel { live: samples, phase: Phase::Recorded, ..living };
    assert(told_through(living, live) == Some(recorded));
    lemma_told_in_turn(check, reached, live);
    lemma_told_once(recorded, ReplayEvent::Restored);
    lemma_told_in_turn(check, reached + live, restored);
    let replaying = CheckModel { phase: Phase::Replaying { agreed: 0 }, ..recorded };
    let part = samples.take(again);
    lemma_still_replaying(replaying, part);
    let repeated = part.map_values(|one: u64| ReplayEvent::Replayed { sample: one });
    assert(repeated =~= part.map_values(|sample: u64| ReplayEvent::Replayed { sample }));
    lemma_told_in_turn(check, reached + live + restored, repeated);
    assert(reached + live + restored + repeated =~= whole.take(reaches.len() + ticks + 1 + again));
}

/// A divergence in words names both samples, and every section that is given.
pub proof fn lemma_divergence_names_every_section(
    live: u64,
    replayed: u64,
    sections: Seq<Seq<char>>,
    at: int,
)
    requires
        0 <= at < sections.len(),
    ensures
        contains(divergence_text(live, replayed, sections), hex16(live as nat)),
        contains(divergence_text(live, replayed, sections), hex16(replayed as nat)),
        contains(divergence_text(live, replayed, sections), sections[at]),
{
    let end = ". Something the simulation reads at that tick is not restored by rollback"@;
    let list = joined(sections, ", "@);
    let text = divergence_text(live, replayed, sections);
    lemma_contains_its_parts(
        ": live "@,
        hex16(live as nat),
        ", replayed "@,
        hex16(replayed as nat),
        ", differing in: "@ + list + end,
    );
    assert(": live "@ + hex16(live as nat) + ", replayed "@ + hex16(replayed as nat) + (
    ", differing in: "@ + list + end) =~= text);
    lemma_joined_contains_its_parts(sections, ", "@, at);
    let start = ": live "@ + hex16(live as nat) + ", replayed "@ + hex16(replayed as nat)
        + ", differing in: "@;
    lemma_contains_what_stands_in_it(list, sections[at], start, end);
    assert(start + list + end =~= text);
}

/// A problem in words names the ticks that it is about.
pub proof fn lemma_problem_names_its_ticks(problem: ReplayProblem)
    requires
        is_reported(problem),
    ensures
        match problem {
            ReplayProblem::AlreadyPast { tick, from } => contains(
                problem_text(problem),
                decimal(tick as nat),
            ) && contains(problem_text(problem), decimal(from as nat)),
            ReplayProblem::Stuck { frames, tick, from } => contains(
                problem_text(problem),
                decimal(frames as nat),
            ) && contains(problem_text(problem), decimal(tick as nat)) && contains(
                problem_text(problem),
                decimal(from as nat),
            ),
            ReplayProblem::NotOneTick { tick, expected } => contains(
                problem_text(problem),
                decimal(tick as nat),
            ) && contains(problem_text(problem), decimal(expected as nat)),
            ReplayProblem::NeverChanged { from, ticks } => contains(
                problem_text(problem),
                decimal((from + 1) as nat),
            ) && contains(problem_text(problem), decimal((from + ticks) as nat)),
            ReplayProblem::Diverged { tick, from, .. } => contains(
                problem_text(problem),
                decimal(tick as nat),
            ) && contains(problem_text(problem), decimal(from as nat)) && contains(
                problem_text(problem),
                decimal((tick - from) as nat),
            ),
            _ => true,
        },
{
    match problem {
        ReplayProblem::AlreadyPast { tick, from } => {
            lemma_contains_its_parts(
                "this peer is already at tick "@,
                decimal(tick as nat),
                " and the check starts at "@,
                decimal(from as nat),
                ": start it at or after the current tick"@,
            );
        },
        ReplayProblem::Stuck { frames, tick, from } => {
            let start = "after "@ + decimal(frames as nat) + " frames this peer is at tick "@;
            let end = ": is it paused, or on a source other than Hz fed one TICK per frame?"@;
            lemma_contains_its_parts(
                start,
                decimal(tick as nat),
                ", not "@,
                decimal(from as nat),
                end,
            );
            let rest = ", not "@ + decimal(from as nat) + end;
            lemma_contains_its_parts(
                "after "@,
                decimal(frames as nat),
                " frames this peer is at tick "@,
                decimal(tick as nat),
                rest,
            );
            assert("after "@ + decimal(frames as nat) + " frames this peer is at tick "@ + decimal(
                tick as nat,
            ) + rest =~= problem_text(problem));
        },
        ReplayProblem::NotOneTick { tick, expected } => {
            lemma_contains_its_parts(
                "one frame was not one tick: at tick "@,
                decimal(tick as nat),
                ", expected "@,
                decimal(expected as nat),
                ". The purity check needs the Hz source fed exactly one TICK per frame and no rate dilation"@,
            );
        },
        ReplayProblem::NeverChanged { from, ticks } => {
            lemma_contains_its_parts(
                "the hash never changed over ticks "@,
                decimal((from + 1) as nat),
                "..="@,
                decimal((from + ticks) as nat),
                ": nothing was simulated, so a replay that agrees proves nothing"@,
            );
        },
        ReplayProblem::Diverged { tick, from, .. } => {
            let start = "the replay diverged at tick "@ + decimal(tick as nat) + " ("@;
            lemma_contains_its_parts(
                start,
                decimal((tick - from) as nat),
                " ticks into a replay from "@,
                decimal(from as nat),
                ")"@,
            );
            let rest = " ticks into a replay from "@ + decimal(from as nat) + ")"@;
            lemma_contains_its_parts(
                "the replay diverged at tick "@,
                decimal(tick as nat),
                " ("@,
                decimal((tick - from) as nat),
                rest,
            );
            assert("the replay diverged at tick "@ + decimal(tick as nat) + " ("@ + decimal(
                (tick - from) as nat,
            ) + rest =~= problem_text(problem));
        },
        _ => {},
    }
}

} // verus!
