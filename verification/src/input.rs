//! Queueing input for the tick about to run, and scripting it by frame.
//!
//! A simulation reads its inputs from *inside* the tick, after the counter has been incremented.
//! Between frames the counter is the tick that has already run, so input filed there lands where
//! nothing will ever read it.

use std::collections::BTreeMap;
use vstd::prelude::*;
use vstd::std_specs::btree::spec_btree_map_iter;
use vstd::std_specs::iter::IteratorSpec;
use vstd::string::*;

use crate::network::{is_owner, owns_any, PeerId, TickedNetwork};
use crate::number::{decimal, decimal_of, digits_of};
use crate::text::{contains, lemma_contains_its_parts};

verus! {

broadcast use vstd::laws_cmp::group_laws_cmp;

/// The tick to file an input for, on a peer whose last tick was `current`: the one it is about to
/// run.
pub fn queue_input(current: u64) -> (tick: u64)
    requires
        current < u64::MAX,
    ensures
        tick == current + 1,
{
    current + 1
}

/// Who presses what, on which frame, relative to the frame the script starts running on.
///
/// Frames rather than ticks, because a test controls frames.
#[derive(Clone, Debug)]
pub struct ActionScript<A: Clone> {
    frames: BTreeMap<u64, Vec<(u128, A)>>,
}

/// What a script has happen on a frame.
pub open spec fn scripted<A>(script: Map<u64, Seq<(u128, A)>>, frame: u64) -> Seq<(u128, A)> {
    if script.contains_key(frame) {
        script[frame]
    } else {
        Seq::empty()
    }
}

impl<A: Clone> View for ActionScript<A> {
    type V = Map<u64, Seq<(u128, A)>>;

    closed spec fn view(&self) -> Map<u64, Seq<(u128, A)>> {
        self.frames@.map_values(|list: Vec<(u128, A)>| list@)
    }
}

/// Whether `after` is `before` with one more action on the frames from `from` up to `to`, each a
/// clone of `action` by `player`, behind what those frames had.
pub open spec fn is_held<A: Clone>(
    before: Map<u64, Seq<(u128, A)>>,
    after: Map<u64, Seq<(u128, A)>>,
    from: u64,
    to: int,
    player: u128,
    action: A,
) -> bool {
    forall|frame: u64|
        #![trigger after.contains_key(frame)]
        #![trigger after[frame]]
        if from <= frame < to {
            &&& after.contains_key(frame)
            &&& after[frame].len() == scripted(before, frame).len() + 1
            &&& after[frame].drop_last() == scripted(before, frame)
            &&& after[frame].last().0 == player
            &&& cloned(action, after[frame].last().1)
        } else {
            &&& after.contains_key(frame) == before.contains_key(frame)
            &&& before.contains_key(frame) ==> after[frame] == before[frame]
        }
}

/// Why a script cannot be played.
#[derive(Clone, Copy, Debug, PartialEq, Eq, Structural)]
pub struct MissingPlayer {
    pub uuid: u128,
    pub frame: u64,
}

/// Why a script cannot be played, in words.
pub open spec fn missing_text(missing: MissingPlayer) -> Seq<char> {
    "the script has player "@ + decimal(missing.uuid as nat) + " pressing on frame "@ + decimal(
        missing.frame as nat,
    ) + ", but no peer on this network owns that uuid"@
}

impl MissingPlayer {
    /// Why the script cannot be played, in words.
    pub fn message(&self) -> (text: String)
        ensures
            text@ == missing_text(*self),
    {
        let mut text = String::from_str("the script has player ");
        text.append(digits_of(self.uuid, 10).as_str());
        text.append(" pressing on frame ");
        text.append(decimal_of(self.frame).as_str());
        text.append(", but no peer on this network owns that uuid");
        text
    }
}

impl<A: Clone> ActionScript<A> {
    /// A script in which nothing happens.
    pub fn new() -> (script: Self)
        ensures
            script@ == Map::<u64, Seq<(u128, A)>>::empty(),
    {
        let script = ActionScript { frames: BTreeMap::new() };
        assert(script@ =~= Map::<u64, Seq<(u128, A)>>::empty());
        script
    }

    /// Puts one action behind those of `frame`.
    fn add_action(&mut self, frame: u64, player: u128, action: A)
        ensures
            final(self)@ == old(self)@.insert(
                frame,
                scripted(old(self)@, frame).push((player, action)),
            ),
    {
        let ghost before_frame = self@;
        let mut list: Vec<(u128, A)> = match self.frames.remove(&frame) {
            Some(list) => list,
            None => Vec::new(),
        };
        assert(list@ == scripted(before_frame, frame));
        list.push((player, action));
        self.frames.insert(frame, list);
        assert(self@ =~= before_frame.insert(frame, list@));
    }

    /// `player` does `action` on `frame`.
    pub fn at(self, frame: u64, player: u128, action: A) -> (script: Self)
        ensures
            script@ == self@.insert(frame, scripted(self@, frame).push((player, action))),
    {
        let mut script = self;
        script.add_action(frame, player, action);
        script
    }

    /// `player` does `action` on every frame from `from` to `to`, inclusive: a held key.
    pub fn hold(self, from: u64, to: u64, player: u128, action: A) -> (script: Self)
        ensures
            is_held(self@, script@, from, to + 1, player, action),
    {
        let mut script = self;
        let ghost start = self@;
        if from > to {
            return script;
        }
        let mut frame: u64 = from;
        loop
            invariant
                from <= frame <= to,
                start == self@,
                is_held(start, script@, from, frame as int, player, action),
            decreases to - frame,
        {
            let ghost before_one = script@;
            let pressed = action.clone();
            script.add_action(frame, player, pressed);
            proof {
                let after = script@;
                assert(!before_one.contains_key(frame) || before_one[frame] == start[frame]);
                assert(before_one.contains_key(frame) == start.contains_key(frame));
                assert(scripted(before_one, frame) == scripted(start, frame));
                assert(after[frame].drop_last() =~= scripted(start, frame));
                assert forall|other: u64|
                    #![trigger after.contains_key(other)]
                    #![trigger after[other]]
                    if from <= other < frame + 1 {
                        &&& after.contains_key(other)
                        &&& after[other].len() == scripted(start, other).len() + 1
                        &&& after[other].drop_last() == scripted(start, other)
                        &&& after[other].last().0 == player
                        &&& cloned(action, after[other].last().1)
                    } else {
                        &&& after.contains_key(other) == start.contains_key(other)
                        &&& start.contains_key(other) ==> after[other] == start[other]
                    } by {
                    if other != frame {
                        assert(after.contains_key(other) == before_one.contains_key(other));
                        assert(before_one.contains_key(other) ==> after[other]
                            == before_one[other]);
                    }
                }
            }
            if frame == to {
                return script;
            }
            frame = frame + 1;
        }
    }

    /// Everything that happens on `frame`, in the order it was scripted.
    pub fn for_frame(&self, frame: u64) -> (actions: &[(u128, A)])
        ensures
            actions@ == scripted(self@, frame),
    {
        match self.frames.get(&frame) {
            Some(list) => list.as_slice(),
            None => &[],
        }
    }

    /// The last frame anything happens on.
    pub fn last_frame(&self) -> (last: Option<u64>)
        ensures
            match last {
                Some(frame) => self@.contains_key(frame) && forall|other: u64| #[trigger]
                    self@.contains_key(other) ==> other <= frame,
                None => forall|frame: u64| !#[trigger] self@.contains_key(frame),
            },
    {
        let mut last: Option<u64> = None;
        let all = self.frames.iter();
        let ghost entries = all.remaining();
        assert(entries == spec_btree_map_iter(&self.frames).remaining());
        for entry in it: all
            invariant
                it.seq() == entries,
                match last {
                    Some(frame) => {
                        &&& exists|k: int|
                            0 <= k < it.index() && *(#[trigger] entries[k]).0 == frame
                        &&& forall|k: int| 0 <= k < it.index() ==> *(#[trigger] entries[k]).0 <= frame
                    },
                    None => it.index() == 0,
                },
        {
            let ghost at = it.index() as int;
            assert(entries[at] == entry);
            match last {
                Some(frame) => {
                    if *entry.0 > frame {
                        last = Some(*entry.0);
                    }
                },
                None => {
                    last = Some(*entry.0);
                },
            }
        }
        proof {
            assert forall|frame: u64| #[trigger] self@.contains_key(frame) implies exists|k: int|
                0 <= k < entries.len() && *(#[trigger] entries[k]).0 == frame by {
                assert(self.frames@.contains_key(frame));
                assert(entries.contains((&frame, &self.frames@[frame])));
                let k = choose|k: int|
                    0 <= k < entries.len() && entries[k] == (&frame, &self.frames@[frame]);
                assert(*entries[k].0 == frame);
            }
            if let Some(frame) = last {
                let k = choose|k: int| 0 <= k < entries.len() && *(#[trigger] entries[k]).0 == frame;
                assert(self.frames@.contains_key(*entries[k].0));
                assert(self@.contains_key(frame));
            }
        }
        last
    }

    /// How many frames have something scripted.
    pub fn len(&self) -> (count: usize)
        ensures
            count == self@.dom().len(),
    {
        let count: usize = self.frames.len();
        assert(self@.dom() =~= self.frames@.dom());
        count
    }

    /// Whether nothing is scripted.
    pub fn is_empty(&self) -> (empty: bool)
        ensures
            empty == (self@.dom().len() == 0),
    {
        self.len() == 0
    }

    /// How many frames playing the script takes, with `trailing` more for the last of it to reach
    /// the host and come back.
    pub fn length(&self, trailing: usize) -> (frames: u128)
        ensures
            is_script_length(self@, trailing as int, frames as int),
    {
        match self.last_frame() {
            Some(last) => {
                assert(is_last(self@, last));
                last as u128 + 1 + trailing as u128
            },
            None => trailing as u128,
        }
    }
}

/// Whether `last` is the last frame anything happens on.
pub open spec fn is_last<A>(script: Map<u64, Seq<(u128, A)>>, last: u64) -> bool {
    script.contains_key(last) && forall|other: u64| #[trigger]
        script.contains_key(other) ==> other <= last
}

/// Whether playing a script and `trailing` more frames takes `frames` frames: as many as its last
/// one and those before it, or none of its own where nothing happens.
pub open spec fn is_script_length<A>(
    script: Map<u64, Seq<(u128, A)>>,
    trailing: int,
    frames: int,
) -> bool {
    ||| frames == trailing && forall|frame: u64| !#[trigger] script.contains_key(frame)
    ||| exists|last: u64| #[trigger] is_last(script, last) && frames == last + 1 + trailing
}

impl<A: Clone> Default for ActionScript<A> {
    fn default() -> (script: Self)
        ensures
            script@ == Map::<u64, Seq<(u128, A)>>::empty(),
    {
        ActionScript::new()
    }
}

/// What to do on one frame of playing a script.
pub enum ScriptStep {
    /// Queue the frame's actions, each on the peer at its place, and step.
    Press { peers: Vec<PeerId> },
    /// Step, for the last of the script to reach the host and come back.
    Trail,
    /// The script has been played.
    Over,
}

impl TickedNetwork {
    /// Play `script`: on each frame from 0, queue that frame's actions on the peer owning each
    /// player and step; then `trailing` more frames. Says what to do on frame `frame`, and fails
    /// for the first player of a frame that is not on the network.
    pub fn run_input_script<A: Clone>(
        &self,
        script: &ActionScript<A>,
        trailing: usize,
        frame: u64,
    ) -> (step: Result<ScriptStep, MissingPlayer>)
        ensures
            ({
                let actions = scripted(script@, frame);
                let pressing = exists|last: u64| #[trigger] is_last(script@, last) && frame <= last;
                match step {
                    Ok(ScriptStep::Press { peers }) => {
                        &&& pressing
                        &&& peers@.len() == actions.len()
                        &&& forall|k: int|
                            0 <= k < peers@.len() ==> is_owner(
                                self@,
                                #[trigger] peers@[k],
                                actions[k].0,
                            )
                    },
                    Ok(ScriptStep::Trail) => !pressing && exists|length: int| #[trigger]
                        is_script_length(script@, trailing as int, length) && frame < length,
                    Ok(ScriptStep::Over) => !pressing && exists|length: int| #[trigger]
                        is_script_length(script@, trailing as int, length) && frame >= length,
                    Err(missing) => {
                        &&& pressing
                        &&& missing.frame == frame
                        &&& exists|k: int|
                            {
                                &&& 0 <= k < actions.len()
                                &&& (#[trigger] actions[k]).0 == missing.uuid
                                &&& !owns_any(self@, missing.uuid)
                                &&& forall|i: int|
                                    0 <= i < k ==> owns_any(self@, (#[trigger] actions[i]).0)
                            }
                    },
                }
            }),
    {
        let pressing = match script.last_frame() {
            Some(last) => {
                assert(is_last(script@, last));
                frame <= last
            },
            None => false,
        };
        if !pressing {
            let length: u128 = script.length(trailing);
            assert(is_script_length(script@, trailing as int, length as int));
            if (frame as u128) < length {
                return Ok(ScriptStep::Trail);
            }
            return Ok(ScriptStep::Over);
        }
        let actions = script.for_frame(frame);
        let mut peers: Vec<PeerId> = Vec::new();
        let mut index: usize = 0;
        while index < actions.len()
            invariant
                index <= actions@.len(),
                actions@ == scripted(script@, frame),
                exists|last: u64| #[trigger] is_last(script@, last) && frame <= last,
                peers@.len() == index,
                forall|k: int|
                    0 <= k < peers@.len() ==> is_owner(
                        self@,
                        #[trigger] peers@[k],
                        actions@[k].0,
                    ),
                forall|i: int| 0 <= i < index ==> owns_any(self@, (#[trigger] actions@[i]).0),
            decreases actions@.len() - index,
        {
            let uuid: u128 = actions[index].0;
            assert(actions@[index as int].0 == uuid);
            match self.peer_by_uuid(uuid) {
                Some(peer) => {
                    assert(self@.roster[peer.0 as int].uuid == uuid);
                    peers.push(peer);
                },
                None => {
                    return Err(MissingPlayer { uuid, frame });
                },
            }
            index = index + 1;
        }
        Ok(ScriptStep::Press { peers })
    }

    /// What holding an input on `peer` files each frame: the player it is from, and the tick it is
    /// for, where the peer is at `current`.
    pub fn hold_input(&self, peer: PeerId, current: u64) -> (filed: (u128, u64))
        requires
            peer.0 < self@.roster.len(),
            current < u64::MAX,
        ensures
            filed.0 == self@.roster[peer.0 as int].uuid,
            filed.1 == current + 1,
    {
        (self.uuid(peer), queue_input(current))
    }
}

// ---- laws ------------------------------------------------------------------------------------

/// A held key is one action more on each frame from its first to its last, behind those the frame
/// had, and nothing on any other.
pub proof fn lemma_held_key_is_pressed_on_every_frame<A: Clone>(
    before: Map<u64, Seq<(u128, A)>>,
    after: Map<u64, Seq<(u128, A)>>,
    from: u64,
    to: int,
    player: u128,
    action: A,
    frame: u64,
)
    requires
        is_held(before, after, from, to, player, action),
    ensures
        from <= frame < to ==> {
            let had = scripted(before, frame);
            let has = scripted(after, frame);
            &&& has.len() == had.len() + 1
            &&& forall|k: int| 0 <= k < had.len() ==> #[trigger] has[k] == had[k]
            &&& has.last().0 == player
            &&& cloned(action, has.last().1)
        },
        !(from <= frame < to) ==> scripted(after, frame) == scripted(before, frame),
{
    assert(after.contains_key(frame) || !after.contains_key(frame));
    if from <= frame < to {
        let had = scripted(before, frame);
        let has = scripted(after, frame);
        assert(has == after[frame]);
        assert forall|k: int| 0 <= k < had.len() implies #[trigger] has[k] == had[k] by {
            assert(has.drop_last()[k] == had[k]);
        }
    }
}

/// A key that is held, and held on from where it was let go, is held over both stretches.
pub proof fn lemma_holds_follow_one_another<A: Clone>(
    before: Map<u64, Seq<(u128, A)>>,
    between: Map<u64, Seq<(u128, A)>>,
    after: Map<u64, Seq<(u128, A)>>,
    from: u64,
    middle: u64,
    to: int,
    player: u128,
    action: A,
)
    requires
        from <= middle <= to,
        is_held(before, between, from, middle as int, player, action),
        is_held(between, after, middle, to, player, action),
    ensures
        is_held(before, after, from, to, player, action),
{
    assert forall|frame: u64|
        #![trigger after.contains_key(frame)]
        #![trigger after[frame]]
        if from <= frame < to {
            &&& after.contains_key(frame)
            &&& after[frame].len() == scripted(before, frame).len() + 1
            &&& after[frame].drop_last() == scripted(before, frame)
            &&& after[frame].last().0 == player
            &&& cloned(action, after[frame].last().1)
        } else {
            &&& after.contains_key(frame) == before.contains_key(frame)
            &&& before.contains_key(frame) ==> after[frame] == before[frame]
        } by {
        assert(between.contains_key(frame) || !between.contains_key(frame));
        assert(after.contains_key(frame) || !after.contains_key(frame));
    }
}

/// A script is as long as its last frame says and what trails behind it: every frame that has an
/// action lies in it, and one more trailing frame makes it one longer.
pub proof fn lemma_script_ends_behind_its_last_frame<A>(
    script: Map<u64, Seq<(u128, A)>>,
    trailing: int,
    frames: int,
    frame: u64,
)
    requires
        trailing >= 0,
        is_script_length(script, trailing, frames),
    ensures
        script.contains_key(frame) ==> frame + trailing < frames,
        is_script_length(script, trailing + 1, frames + 1),
        frames >= trailing,
        (forall|other: u64| #[trigger] script.contains_key(other) ==> other < frame)
            && script.dom().len() > 0 ==> frames <= frame + trailing,
{
    if exists|last: u64| #[trigger] is_last(script, last) && frames == last + 1 + trailing {
        let last = choose|last: u64| #[trigger]
            is_last(script, last) && frames == last + 1 + trailing;
        assert(is_last(script, last) && frames + 1 == last + 1 + (trailing + 1));
        assert(script.contains_key(last));
    } else {
        assert(forall|one: u64| !#[trigger] script.contains_key(one));
        assert(script.dom() =~= Set::empty());
    }
}

/// A script that cannot be played says who is missing and on which frame.
pub proof fn lemma_missing_player_is_named(missing: MissingPlayer)
    ensures
        contains(missing_text(missing), decimal(missing.uuid as nat)),
        contains(missing_text(missing), decimal(missing.frame as nat)),
{
    lemma_contains_its_parts(
        "the script has player "@,
        decimal(missing.uuid as nat),
        " pressing on frame "@,
        decimal(missing.frame as nat),
        ", but no peer on this network owns that uuid"@,
    );
}

/// What is scripted for a frame is what was put there last, and putting something there changes no
/// other frame.
pub proof fn lemma_frames_are_scripted_apart<A>(
    script: Map<u64, Seq<(u128, A)>>,
    frame: u64,
    list: Seq<(u128, A)>,
    other: u64,
)
    ensures
        scripted(script.insert(frame, list), frame) == list,
        other != frame ==> scripted(script.insert(frame, list), other) == scripted(script, other),
        scripted(Map::<u64, Seq<(u128, A)>>::empty(), frame).len() == 0,
{
}

} // verus!
