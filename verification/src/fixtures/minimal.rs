//! One integer axis, one input, one body per player.
//!
//! The smallest game that exercises every path the harness asserts about. Integer positions, so two
//! peers that agree are bit-identical and a divergence is a fact rather than a tolerance.

use std::collections::BTreeMap;
use vstd::prelude::*;

verus! {

broadcast use vstd::laws_cmp::group_laws_cmp;

/// Position along the one axis.
#[derive(Clone, Copy, PartialEq, Eq, Structural, Debug)]
pub struct Pos(pub i64);

/// Velocity along the one axis, in units per tick; set from input.
#[derive(Clone, Copy, PartialEq, Eq, Structural, Debug)]
pub struct Vel(pub i64);

/// What kind of thing this is, so a client can tell a player from a pellet.
#[derive(Clone, Copy, PartialEq, Eq, Structural, Debug)]
pub struct EntityKind(pub u8);

/// A player's body.
pub const PLAYER: u8 = 1;

/// What a player fires.
pub const PELLET: u8 = 2;

/// What a player presses: a direction, or nothing, and whether they fire.
#[derive(Clone, Copy, PartialEq, Eq, Structural, Debug)]
pub struct Input {
    pub dx: i8,
    pub fire: bool,
}

impl Input {
    /// To the right.
    pub fn right() -> (input: Input)
        ensures
            input == (Input { dx: 1, fire: false }),
    {
        Input { dx: 1, fire: false }
    }

    /// To the left.
    pub fn left() -> (input: Input)
        ensures
            input == (Input { dx: (-1) as i8, fire: false }),
    {
        Input { dx: -1, fire: false }
    }

    /// Nothing.
    pub fn none() -> (input: Input)
        ensures
            input == (Input { dx: 0, fire: false }),
    {
        Input { dx: 0, fire: false }
    }

    /// Standing still and firing.
    pub fn fire() -> (input: Input)
        ensures
            input == (Input { dx: 0, fire: true }),
    {
        Input { dx: 0, fire: true }
    }
}

/// The slot a player's peer mints under, on their body, so every peer spawns that player's pellets
/// under the same ids.
#[derive(Clone, Copy, PartialEq, Eq, Structural, Debug)]
pub struct PlayerSlot(pub u8);

/// A pellet's remaining life in ticks; it is despawned at zero.
#[derive(Clone, Copy, PartialEq, Eq, Structural, Debug)]
pub struct Fuse(pub u8);

/// How long a pellet lives.
pub const PELLET_LIFE: u8 = 96;

/// A body, and the player that drives it where there is one.
#[derive(Clone, Copy, PartialEq, Eq, Structural, Debug)]
pub struct Body {
    pub owner: Option<u128>,
    pub pos: Pos,
    pub vel: Vel,
    pub kind: EntityKind,
    pub slot: Option<PlayerSlot>,
    pub fuse: Option<Fuse>,
}

// ---- the tick --------------------------------------------------------------------------------

/// A body whose owner's input has been applied: it moves as its owner presses, and goes on as it
/// was where the owner has pressed nothing at all.
pub open spec fn pressed(body: Body, inputs: Map<u128, Input>) -> Body {
    match body.owner {
        Some(uuid) => if inputs.contains_key(uuid) {
            Body { vel: Vel(inputs[uuid].dx as i64), ..body }
        } else {
            body
        },
        None => body,
    }
}

/// Set every body's velocity from its owner's input. `inputs` holds, for each player, the input
/// for this tick or the newest one before it: a player with no input filed for this tick keeps
/// pressing what they last pressed.
pub fn apply_inputs(bodies: &mut Vec<Body>, inputs: &BTreeMap<u128, Input>)
    ensures
        final(bodies)@ == old(bodies)@.map_values(|body: Body| pressed(body, inputs@)),
{
    let mut index: usize = 0;
    let ghost before_tick = bodies@;
    while index < bodies.len()
        invariant
            index <= bodies@.len(),
            bodies@.len() == before_tick.len(),
            forall|k: int|
                0 <= k < index ==> #[trigger] bodies@[k] == pressed(before_tick[k], inputs@),
            forall|k: int| index <= k < bodies@.len() ==> #[trigger] bodies@[k] == before_tick[k],
        decreases bodies@.len() - index,
    {
        let mut body = bodies[index];
        if let Some(uuid) = body.owner {
            if let Some(input) = inputs.get(&uuid) {
                body.vel = Vel(input.dx as i64);
            }
        }
        bodies.set(index, body);
        index = index + 1;
    }
    assert(bodies@ =~= before_tick.map_values(|body: Body| pressed(body, inputs@)));
}

/// A body one tick further along.
pub open spec fn moved(body: Body) -> Body {
    Body { pos: Pos((body.pos.0 + body.vel.0) as i64), ..body }
}

/// Whether a body's next position can be written down.
pub open spec fn can_move(body: Body) -> bool {
    i64::MIN <= body.pos.0 + body.vel.0 <= i64::MAX
}

/// `Pos += Vel`, once per tick.
pub fn integrate(bodies: &mut Vec<Body>)
    requires
        forall|k: int| 0 <= k < old(bodies)@.len() ==> can_move(#[trigger] old(bodies)@[k]),
    ensures
        final(bodies)@ == old(bodies)@.map_values(|body: Body| moved(body)),
{
    let mut index: usize = 0;
    let ghost before_tick = bodies@;
    while index < bodies.len()
        invariant
            index <= bodies@.len(),
            bodies@.len() == before_tick.len(),
            forall|k: int| 0 <= k < before_tick.len() ==> can_move(#[trigger] before_tick[k]),
            forall|k: int| 0 <= k < index ==> #[trigger] bodies@[k] == moved(before_tick[k]),
            forall|k: int| index <= k < bodies@.len() ==> #[trigger] bodies@[k] == before_tick[k],
        decreases bodies@.len() - index,
    {
        let mut body = bodies[index];
        assert(can_move(before_tick[index as int]));
        body.pos = Pos(body.pos.0 + body.vel.0);
        bodies.set(index, body);
        index = index + 1;
    }
    assert(bodies@ =~= before_tick.map_values(|body: Body| moved(body)));
}

/// Whether a body is a player's whose owner fires.
pub open spec fn fires(body: Body, inputs: Map<u128, Input>) -> bool {
    &&& body.slot is Some
    &&& body.owner matches Some(uuid)
    &&& inputs.contains_key(uuid)
    &&& inputs[uuid].fire
}

/// The slot and position of a shooter, as a row.
pub open spec fn shot(body: Body) -> (u64, i64, i64) {
    match body.slot {
        Some(slot) => (slot.0 as u64, body.pos.0, 0),
        None => (0, body.pos.0, 0),
    }
}

/// A pellet where a shooter stood.
pub open spec fn pellet_at(pos: i64) -> Body {
    Body {
        owner: None,
        pos: Pos(pos),
        vel: Vel(1),
        kind: EntityKind(PELLET),
        slot: None,
        fuse: Some(Fuse(PELLET_LIFE)),
    }
}

/// The shots of a tick, by slot and then by position.
pub open spec fn shots(bodies: Seq<Body>, inputs: Option<Map<u128, Input>>) -> Seq<
    (u64, i64, i64),
> {
    match inputs {
        Some(pressed) => sorted_rows(
            bodies.filter(|body: Body| fires(body, pressed)).map_values(|body: Body| shot(body)),
        ),
        None => Seq::empty(),
    }
}

/// A pellet for every player who fired this tick, with the slot to mint it under, so that the host
/// and every client mint the same id. By slot and then by position; nothing where no input was
/// filed for this very tick.
pub fn fire_pellets(bodies: &Vec<Body>, inputs: Option<&BTreeMap<u128, Input>>) -> (pellets: Vec<
    (u8, Body),
>)
    ensures
        ({
            let fired = shots(
                bodies@,
                match inputs {
                    Some(map) => Some(map@),
                    None => None,
                },
            );
            &&& pellets@.len() == fired.len()
            &&& forall|k: int|
                0 <= k < fired.len() ==> (#[trigger] pellets@[k]).0 as u64 == fired[k].0
                    && pellets@[k].1 == pellet_at(fired[k].1)
        }),
{
    let mut pellets: Vec<(u8, Body)> = Vec::new();
    let map = match inputs {
        Some(map) => map,
        None => {
            return pellets;
        },
    };
    let mut rows: Vec<(u64, i64, i64)> = Vec::new();
    let mut index: usize = 0;
    let ghost keep = |body: Body| fires(body, map@);
    let ghost row = |body: Body| shot(body);
    reveal(Seq::filter);
    assert(rows@ =~= bodies@.take(0).filter(keep).map_values(row));
    while index < bodies.len()
        invariant
            index <= bodies@.len(),
            keep == (|body: Body| fires(body, map@)),
            row == (|body: Body| shot(body)),
            rows@ == bodies@.take(index as int).filter(keep).map_values(row),
            forall|k: int| 0 <= k < rows@.len() ==> (#[trigger] rows@[k]).0 < 256,
        decreases bodies@.len() - index,
    {
        let ghost upto = bodies@.take(index + 1);
        assert(upto.drop_last() =~= bodies@.take(index as int));
        assert(upto.last() == bodies@[index as int]);
        reveal(Seq::filter);
        let body = bodies[index];
        if let Some(slot) = body.slot {
            if let Some(uuid) = body.owner {
                if let Some(input) = map.get(&uuid) {
                    if input.fire {
                        rows.push((slot.0 as u64, body.pos.0, 0));
                        assert(rows@ =~= upto.filter(keep).map_values(row));
                    }
                }
            }
        }
        index = index + 1;
    }
    assert(bodies@.take(index as int) =~= bodies@);
    let ordered = sort_rows(&rows);
    proof {
        lemma_sorted_rows(rows@);
    }
    let mut number: usize = 0;
    while number < ordered.len()
        invariant
            number <= ordered@.len(),
            ordered@ == sorted_rows(rows@),
            forall|k: int| 0 <= k < ordered@.len() ==> rows@.contains(#[trigger] ordered@[k]),
            forall|k: int| 0 <= k < rows@.len() ==> (#[trigger] rows@[k]).0 < 256,
            pellets@.len() == number,
            forall|k: int|
                0 <= k < number ==> (#[trigger] pellets@[k]).0 as u64 == ordered@[k].0
                    && pellets@[k].1 == pellet_at(ordered@[k].1),
        decreases ordered@.len() - number,
    {
        let one = ordered[number];
        assert(rows@.contains(ordered@[number as int]));
        assert(one.0 < 256);
        pellets.push(
            (
                one.0 as u8,
                Body {
                    owner: None,
                    pos: Pos(one.1),
                    vel: Vel(1),
                    kind: EntityKind(PELLET),
                    slot: None,
                    fuse: Some(Fuse(PELLET_LIFE)),
                },
            ),
        );
        number = number + 1;
    }
    pellets
}

/// A body whose fuse has burned for one tick.
pub open spec fn burned(body: Body) -> Body {
    match body.fuse {
        Some(fuse) => if fuse.0 == 0 {
            body
        } else {
            Body { fuse: Some(Fuse((fuse.0 - 1) as u8)), ..body }
        },
        None => body,
    }
}

/// Whether a body's fuse has burned out.
pub open spec fn burned_out(body: Body) -> bool {
    body.fuse == Some(Fuse(0))
}

/// Pellets burn down and are tombstoned, never destroyed. Says which bodies to tombstone.
pub fn burn_fuses(bodies: &mut Vec<Body>) -> (despawned: Vec<usize>)
    ensures
        final(bodies)@ == old(bodies)@.map_values(|body: Body| burned(body)),
        forall|k: int|
            0 <= k < despawned@.len() ==> #[trigger] despawned@[k] < old(bodies)@.len()
                && burned_out(old(bodies)@[despawned@[k] as int]),
        forall|at: int|
            0 <= at < old(bodies)@.len() && burned_out(#[trigger] old(bodies)@[at])
                ==> exists|k: int| 0 <= k < despawned@.len() && #[trigger] despawned@[k] == at,
        forall|j: int, k: int|
            0 <= j < k < despawned@.len() ==> #[trigger] despawned@[j] < #[trigger] despawned@[k],
{
    let mut despawned: Vec<usize> = Vec::new();
    let mut index: usize = 0;
    let ghost before_tick = bodies@;
    while index < bodies.len()
        invariant
            index <= bodies@.len(),
            bodies@.len() == before_tick.len(),
            forall|k: int| 0 <= k < index ==> #[trigger] bodies@[k] == burned(before_tick[k]),
            forall|k: int| index <= k < bodies@.len() ==> #[trigger] bodies@[k] == before_tick[k],
            forall|k: int|
                0 <= k < despawned@.len() ==> #[trigger] despawned@[k] < index && burned_out(
                    before_tick[despawned@[k] as int],
                ),
            forall|at: int|
                0 <= at < index && burned_out(#[trigger] before_tick[at]) ==> exists|k: int|
                    0 <= k < despawned@.len() && #[trigger] despawned@[k] == at,
            forall|j: int, k: int|
                0 <= j < k < despawned@.len() ==> #[trigger] despawned@[j]
                    < #[trigger] despawned@[k],
        decreases bodies@.len() - index,
    {
        let mut body = bodies[index];
        let ghost had = despawned@;
        if let Some(fuse) = body.fuse {
            if fuse.0 == 0 {
                despawned.push(index);
                assert(despawned@[had.len() as int] == index);
            } else {
                body.fuse = Some(Fuse(fuse.0 - 1));
            }
        }
        bodies.set(index, body);
        assert forall|at: int|
            0 <= at < index + 1 && burned_out(#[trigger] before_tick[at]) implies exists|k: int|
            0 <= k < despawned@.len() && #[trigger] despawned@[k] == at by {
            if at < index {
                let k = choose|k: int| 0 <= k < had.len() && #[trigger] had[k] == at;
                assert(despawned@[k] == at);
            }
        }
        index = index + 1;
    }
    assert(bodies@ =~= before_tick.map_values(|body: Body| burned(body)));
    despawned
}

/// A body's fuse after `ticks` ticks.
pub open spec fn burned_for(body: Body, ticks: nat) -> Body
    decreases ticks,
{
    if ticks == 0 {
        body
    } else {
        burned(burned_for(body, (ticks - 1) as nat))
    }
}

/// A pellet lives exactly as long as it should: its fuse has burned out after that many ticks, and
/// not before.
pub proof fn lemma_pellet_lives_its_life(pos: i64, ticks: nat)
    requires
        ticks <= PELLET_LIFE,
    ensures
        burned_for(pellet_at(pos), ticks).fuse == Some(Fuse((PELLET_LIFE - ticks) as u8)),
        burned_out(burned_for(pellet_at(pos), ticks)) <==> ticks == PELLET_LIFE,
    decreases ticks,
{
    if ticks > 0 {
        lemma_pellet_lives_its_life(pos, (ticks - 1) as nat);
    }
}

// ---- seating ---------------------------------------------------------------------------------

/// A player's body where it starts.
pub open spec fn new_player(uuid: u128) -> Body {
    Body {
        owner: Some(uuid),
        pos: Pos(0),
        vel: Vel(0),
        kind: EntityKind(PLAYER),
        slot: None,
        fuse: None,
    }
}

/// A body for `uuid`. On a host, or on a solo peer; a client doing this mints an id that the host
/// never issued.
pub fn spawn_player(uuid: u128) -> (body: Body)
    ensures
        body == new_player(uuid),
{
    Body {
        owner: Some(uuid),
        pos: Pos(0),
        vel: Vel(0),
        kind: EntityKind(PLAYER),
        slot: None,
        fuse: None,
    }
}

/// The slot of a peer: 0 where it has been given none.
pub open spec fn seat_slot(slot: Option<u8>) -> u8 {
    match slot {
        Some(given) => given,
        None => 0,
    }
}

/// Every peer's body, in peer order: `peers` are the uuids and the slots they were given.
pub fn seat_everyone(peers: &Vec<(u128, Option<u8>)>) -> (bodies: Vec<Body>)
    ensures
        bodies@ == peers@.map_values(
            |peer: (u128, Option<u8>)| Body {
                slot: Some(PlayerSlot(seat_slot(peer.1))),
                ..new_player(peer.0)
            },
        ),
{
    let mut bodies: Vec<Body> = Vec::new();
    let mut index: usize = 0;
    while index < peers.len()
        invariant
            index <= peers@.len(),
            bodies@.len() == index,
            forall|k: int|
                0 <= k < index ==> #[trigger] bodies@[k] == (Body {
                    slot: Some(PlayerSlot(seat_slot(peers@[k].1))),
                    ..new_player(peers@[k].0)
                }),
        decreases peers@.len() - index,
    {
        let peer = peers[index];
        let slot: u8 = match peer.1 {
            Some(given) => given,
            None => 0,
        };
        let mut body = spawn_player(peer.0);
        body.slot = Some(PlayerSlot(slot));
        bodies.push(body);
        index = index + 1;
    }
    assert(bodies@ =~= peers@.map_values(
        |peer: (u128, Option<u8>)| Body {
            slot: Some(PlayerSlot(seat_slot(peer.1))),
            ..new_player(peer.0)
        },
    ));
    bodies
}

// ---- rows in order ---------------------------------------------------------------------------

/// Whether one row comes before another: by the first number, then by the second, then by the
/// third.
pub open spec fn row_before(left: (u64, i64, i64), right: (u64, i64, i64)) -> bool {
    left.0 < right.0 || (left.0 == right.0 && (left.1 < right.1 || (left.1 == right.1 && left.2
        < right.2)))
}

/// `ordered` with `row` behind all rows that do not come after it.
pub open spec fn with_row(ordered: Seq<(u64, i64, i64)>, row: (u64, i64, i64)) -> Seq<
    (u64, i64, i64),
>
    decreases ordered.len(),
{
    if ordered.len() == 0 || !row_before(row, ordered.last()) {
        ordered.push(row)
    } else {
        with_row(ordered.drop_last(), row).push(ordered.last())
    }
}

/// Rows in order.
pub open spec fn sorted_rows(rows: Seq<(u64, i64, i64)>) -> Seq<(u64, i64, i64)>
    decreases rows.len(),
{
    if rows.len() == 0 {
        rows
    } else {
        with_row(sorted_rows(rows.drop_last()), rows.last())
    }
}

fn is_before(left: (u64, i64, i64), right: (u64, i64, i64)) -> (less: bool)
    ensures
        less == row_before(left, right),
{
    left.0 < right.0 || (left.0 == right.0 && (left.1 < right.1 || (left.1 == right.1 && left.2
        < right.2)))
}

/// Rows in order.
fn sort_rows(rows: &Vec<(u64, i64, i64)>) -> (ordered: Vec<(u64, i64, i64)>)
    ensures
        ordered@ == sorted_rows(rows@),
{
    let mut ordered: Vec<(u64, i64, i64)> = Vec::new();
    let mut index: usize = 0;
    assert(rows@.take(0) =~= Seq::<(u64, i64, i64)>::empty());
    while index < rows.len()
        invariant
            index <= rows@.len(),
            ordered@ == sorted_rows(rows@.take(index as int)),
        decreases rows@.len() - index,
    {
        let row = rows[index];
        let ghost upto = rows@.take(index + 1);
        assert(upto.drop_last() =~= rows@.take(index as int));
        assert(upto.last() == row);
        let ghost list = ordered@;
        let mut end: usize = ordered.len();
        assert(list.take(end as int) =~= list);
        assert(with_row(list, row) + list.skip(end as int) =~= with_row(list, row));
        while end > 0 && is_before(row, ordered[end - 1])
            invariant
                end <= ordered@.len(),
                list == ordered@,
                with_row(list, row) == with_row(list.take(end as int), row) + list.skip(
                    end as int,
                ),
            decreases end,
        {
            let ghost front = list.take(end as int);
            assert(front.drop_last() =~= list.take(end - 1));
            assert(front.last() == list[end - 1]);
            assert(with_row(list.take(end - 1), row).push(list[end - 1]) + list.skip(end as int)
                =~= with_row(list.take(end - 1), row) + list.skip(end - 1));
            end = end - 1;
        }
        let ghost front = list.take(end as int);
        assert(end > 0 ==> front.last() == list[end - 1]);
        ordered.insert(end, row);
        assert(ordered@ =~= front.push(row) + list.skip(end as int));
        index = index + 1;
    }
    assert(rows@.take(index as int) =~= rows@);
    ordered
}

/// Whether no row comes before one that stands in front of it.
pub open spec fn are_sorted(rows: Seq<(u64, i64, i64)>) -> bool {
    forall|j: int, k: int|
        0 <= j < k < rows.len() ==> !row_before(#[trigger] rows[k], #[trigger] rows[j])
}

proof fn lemma_with_row(ordered: Seq<(u64, i64, i64)>, row: (u64, i64, i64))
    requires
        are_sorted(ordered),
    ensures
        are_sorted(with_row(ordered, row)),
        with_row(ordered, row).to_multiset() == ordered.to_multiset().insert(row),
        forall|k: int|
            0 <= k < with_row(ordered, row).len() ==> #[trigger] with_row(ordered, row)[k] == row
                || ordered.contains(with_row(ordered, row)[k]),
    decreases ordered.len(),
{
    broadcast use vstd::seq_lib::group_to_multiset_ensures;

    let result = with_row(ordered, row);
    if ordered.len() == 0 || !row_before(row, ordered.last()) {
        assert forall|j: int, k: int| 0 <= j < k < result.len() implies !row_before(
            #[trigger] result[k],
            #[trigger] result[j],
        ) by {
            if k == ordered.len() && j < ordered.len() - 1 {
                assert(!row_before(ordered[ordered.len() - 1], ordered[j]));
            }
        }
        assert forall|k: int| 0 <= k < result.len() implies #[trigger] result[k] == row
            || ordered.contains(result[k]) by {
            if k < ordered.len() {
                assert(ordered[k] == result[k]);
            }
        }
    } else {
        let last = ordered.last();
        let front = ordered.drop_last();
        lemma_with_row(front, row);
        let rest = with_row(front, row);
        assert(front.push(last) =~= ordered);
        assert(ordered.to_multiset() == front.to_multiset().insert(last));
        assert forall|k: int| 0 <= k < result.len() implies #[trigger] result[k] == row
            || ordered.contains(result[k]) by {
            if k < rest.len() {
                assert(result[k] == rest[k]);
                if rest[k] != row {
                    let i = choose|i: int| 0 <= i < front.len() && front[i] == rest[k];
                    assert(ordered[i] == rest[k]);
                }
            } else {
                assert(ordered[ordered.len() - 1] == result[k]);
            }
        }
        assert forall|j: int, k: int| 0 <= j < k < result.len() implies !row_before(
            #[trigger] result[k],
            #[trigger] result[j],
        ) by {
            assert(result[j] == rest[j]);
            if k < rest.len() {
                assert(result[k] == rest[k]);
            } else if rest[j] != row {
                let i = choose|i: int| 0 <= i < front.len() && front[i] == rest[j];
                assert(ordered[i] == rest[j]);
                assert(!row_before(ordered[ordered.len() - 1], ordered[i]));
            }
        }
        assert(result.to_multiset() =~= ordered.to_multiset().insert(row));
    }
}

/// Sorting puts rows in order, and neither adds nor loses any.
pub proof fn lemma_sorted_rows(rows: Seq<(u64, i64, i64)>)
    ensures
        are_sorted(sorted_rows(rows)),
        sorted_rows(rows).to_multiset() == rows.to_multiset(),
        forall|k: int|
            0 <= k < sorted_rows(rows).len() ==> rows.contains(#[trigger] sorted_rows(rows)[k]),
    decreases rows.len(),
{
    broadcast use vstd::seq_lib::group_to_multiset_ensures;

    if rows.len() > 0 {
        let front = rows.drop_last();
        lemma_sorted_rows(front);
        lemma_with_row(sorted_rows(front), rows.last());
        assert(front.push(rows.last()) =~= rows);
        let result = sorted_rows(rows);
        assert forall|k: int| 0 <= k < result.len() implies rows.contains(#[trigger] result[k]) by {
            if result[k] == rows.last() {
                assert(rows[rows.len() - 1] == result[k]);
            } else {
                assert(sorted_rows(front).contains(result[k]));
                let i = choose|i: int|
                    0 <= i < sorted_rows(front).len() && sorted_rows(front)[i] == result[k];
                assert(front.contains(sorted_rows(front)[i]));
                let j = choose|j: int| 0 <= j < front.len() && front[j] == result[k];
                assert(rows[j] == result[k]);
            }
        }
    }
}

proof fn lemma_one_order(left: Seq<(u64, i64, i64)>, right: Seq<(u64, i64, i64)>)
    requires
        are_sorted(left),
        are_sorted(right),
        left.to_multiset() == right.to_multiset(),
    ensures
        left == right,
    decreases left.len(),
{
    broadcast use vstd::seq_lib::group_to_multiset_ensures;

    assert(left.to_multiset().len() == left.len());
    assert(right.to_multiset().len() == right.len());
    if left.len() > 0 {
        let last = left.last();
        let other = right.last();
        assert(left.contains(last) && right.contains(other));
        assert(right.to_multiset().count(last) > 0);
        assert(left.to_multiset().count(other) > 0);
        assert(right.contains(last) && left.contains(other));
        let i = choose|i: int| 0 <= i < right.len() && right[i] == last;
        let j = choose|j: int| 0 <= j < left.len() && left[j] == other;
        if i < right.len() - 1 {
            assert(!row_before(right[right.len() - 1], right[i]));
        }
        if j < left.len() - 1 {
            assert(!row_before(left[left.len() - 1], left[j]));
        }
        assert(last == other);
        let a = left.drop_last();
        let b = right.drop_last();
        assert(a.push(last) =~= left);
        assert(b.push(other) =~= right);
        assert(a.to_multiset() =~= left.to_multiset().remove(last));
        assert(b.to_multiset() =~= right.to_multiset().remove(last));
        lemma_one_order(a, b);
    } else {
        assert(left =~= right);
    }
}

// ---- the hash --------------------------------------------------------------------------------

/// The world reduced to three numbers: how many bodies, where they are, how fast they move.
///
/// Sections rather than one hash, so a divergence report can say *what* differed. Sorted by tracked
/// id before folding, because a hash over query order is a hash over an order that two peers do not
/// share.
#[derive(Clone, Copy, PartialEq, Eq, Structural, Debug)]
pub struct MinimalHash {
    pub bodies: u64,
    pub positions: u64,
    pub velocities: u64,
}

/// Where a hash starts.
pub const FNV_OFFSET: u64 = 0xcbf2_9ce4_8422_2325;

/// What a hash is multiplied by for each byte.
pub const FNV_PRIME: u64 = 0x0100_0000_01b3;

/// FNV-1a over `count` bytes of `value`, lowest first.
pub open spec fn folded(hash: u64, value: u64, count: nat) -> u64
    decreases count,
{
    if count == 0 {
        hash
    } else {
        folded(
            vstd::wrapping::u64_specs::wrapping_mul(hash ^ (value % 256) as u64, FNV_PRIME),
            value / 256,
            (count - 1) as nat,
        )
    }
}

/// FNV-1a over the eight bytes of `value`, lowest first.
pub open spec fn fold_value(hash: u64, value: u64) -> u64 {
    folded(hash, value, 8)
}

/// A signed number in two's complement.
pub open spec fn as_bits(value: i64) -> u64 {
    if value >= 0 {
        value as u64
    } else {
        (value + 0x1_0000_0000_0000_0000) as u64
    }
}

/// The hash of rows in the order they are in.
pub open spec fn hash_of(rows: Seq<(u64, i64, i64)>) -> MinimalHash
    decreases rows.len(),
{
    if rows.len() == 0 {
        MinimalHash { bodies: FNV_OFFSET, positions: FNV_OFFSET, velocities: FNV_OFFSET }
    } else {
        let before_last = hash_of(rows.drop_last());
        let (id, pos, vel) = rows.last();
        MinimalHash {
            bodies: fold_value(before_last.bodies, id),
            positions: fold_value(fold_value(before_last.positions, id), as_bits(pos)),
            velocities: fold_value(fold_value(before_last.velocities, id), as_bits(vel)),
        }
    }
}

fn fold(acc: u64, value: u64) -> (hash: u64)
    ensures
        hash == fold_value(acc, value),
{
    let mut hash: u64 = acc;
    let mut rest: u64 = value;
    let mut left: u64 = 8;
    while left > 0
        invariant
            left <= 8,
            fold_value(acc, value) == folded(hash, rest, left as nat),
        decreases left,
    {
        hash = (hash ^ (rest % 256)).wrapping_mul(FNV_PRIME);
        rest = rest / 256;
        left = left - 1;
    }
    hash
}

fn bits_of(value: i64) -> (bits: u64)
    ensures
        bits == as_bits(value),
{
    if value >= 0 {
        value as u64
    } else {
        (value as i128 + 0x1_0000_0000_0000_0000) as u64
    }
}

/// `value` with its bits moved `by` places up and the uppermost coming back in below.
pub open spec fn rotated(value: u64, by: u64) -> u64 {
    (value << by) | (value >> ((64 - by) as u64))
}

impl MinimalHash {
    /// The hash of a world whose bodies are `rows`: id, position and velocity of each, in any
    /// order.
    pub fn sample(rows: &Vec<(u64, i64, i64)>) -> (hash: Self)
        ensures
            hash == hash_of(sorted_rows(rows@)),
    {
        let ordered = sort_rows(rows);
        let mut bodies: u64 = FNV_OFFSET;
        let mut positions: u64 = FNV_OFFSET;
        let mut velocities: u64 = FNV_OFFSET;
        let mut index: usize = 0;
        assert(ordered@.take(0) =~= Seq::<(u64, i64, i64)>::empty());
        while index < ordered.len()
            invariant
                index <= ordered@.len(),
                ordered@ == sorted_rows(rows@),
                (MinimalHash { bodies, positions, velocities }) == hash_of(
                    ordered@.take(index as int),
                ),
            decreases ordered@.len() - index,
        {
            let ghost upto = ordered@.take(index + 1);
            assert(upto.drop_last() =~= ordered@.take(index as int));
            assert(upto.last() == ordered@[index as int]);
            let (id, pos, vel) = ordered[index];
            bodies = fold(bodies, id);
            positions = fold(fold(positions, id), bits_of(pos));
            velocities = fold(fold(velocities, id), bits_of(vel));
            index = index + 1;
        }
        assert(ordered@.take(index as int) =~= ordered@);
        MinimalHash { bodies, positions, velocities }
    }

    /// The hash as one number.
    pub fn value(&self) -> (number: u64)
        ensures
            number == self.bodies ^ rotated(self.positions, 21) ^ rotated(self.velocities, 42),
    {
        let positions: u64 = (self.positions << 21) | (self.positions >> 43);
        let velocities: u64 = (self.velocities << 42) | (self.velocities >> 22);
        self.bodies ^ positions ^ velocities
    }

    /// The sections in which two hashes differ.
    pub fn differences(&self, other: &Self) -> (sections: Vec<&'static str>)
        ensures
            crate::text::str_views(sections@) == section_names(*self, *other),
    {
        let mut sections: Vec<&'static str> = Vec::new();
        if self.bodies != other.bodies {
            sections.push("bodies");
        }
        if self.positions != other.positions {
            sections.push("positions");
        }
        if self.velocities != other.velocities {
            sections.push("velocities");
        }
        assert(crate::text::str_views(sections@) =~= section_names(*self, *other));
        sections
    }
}

/// The sections in which two hashes differ.
pub open spec fn section_names(left: MinimalHash, right: MinimalHash) -> Seq<Seq<char>> {
    (if left.bodies != right.bodies {
        seq!["bodies"@]
    } else {
        Seq::empty()
    }) + (if left.positions != right.positions {
        seq!["positions"@]
    } else {
        Seq::empty()
    }) + (if left.velocities != right.velocities {
        seq!["velocities"@]
    } else {
        Seq::empty()
    })
}

/// Two peers that hold the same bodies hash them alike, whatever order each finds them in.
pub proof fn lemma_hash_ignores_order(left: Seq<(u64, i64, i64)>, right: Seq<(u64, i64, i64)>)
    requires
        left.to_multiset() == right.to_multiset(),
    ensures
        hash_of(sorted_rows(left)) == hash_of(sorted_rows(right)),
{
    lemma_sorted_rows(left);
    lemma_sorted_rows(right);
    lemma_one_order(sorted_rows(left), sorted_rows(right));
}

/// Two hashes are the same exactly when no section differs.
pub proof fn lemma_sections_tell_hashes_apart(left: MinimalHash, right: MinimalHash)
    ensures
        section_names(left, right).len() == 0 <==> left == right,
{
}

// ---- laws ------------------------------------------------------------------------------------

/// A tick moves a body by what its owner presses, or goes on as it was where nothing was pressed;
/// nothing else about it changes, and nobody else's input counts.
pub proof fn lemma_body_moves_as_pressed(
    body: Body,
    inputs: Map<u128, Input>,
    uuid: u128,
    input: Input,
)
    requires
        can_move(pressed(body, inputs)),
    ensures
        ({
            let next = moved(pressed(body, inputs));
            &&& body.owner is Some && inputs.contains_key(body.owner->0) ==> next.pos.0
                == body.pos.0 + inputs[body.owner->0].dx && next.vel.0 == inputs[body.owner->0].dx
            &&& body.owner is None || !inputs.contains_key(body.owner->0) ==> next.pos.0
                == body.pos.0 + body.vel.0 && next.vel == body.vel
            &&& next.owner == body.owner && next.kind == body.kind
            &&& next.slot == body.slot && next.fuse == body.fuse
            &&& body.owner != Some(uuid) ==> pressed(body, inputs.insert(uuid, input)) == pressed(
                body,
                inputs,
            )
            &&& pressed(pressed(body, inputs), inputs) == pressed(body, inputs)
        }),
{
}

/// Fuses burn by one tick and no further than out, and burning changes nothing else.
pub proof fn lemma_fuses_burn_by_one(body: Body)
    ensures
        ({
            let next = burned(body);
            &&& body.fuse is None ==> next == body && !burned_out(body)
            &&& body.fuse matches Some(fuse) ==> next.fuse matches Some(left) && (if fuse.0 > 0 {
                left.0 == fuse.0 - 1 && !burned_out(body)
            } else {
                left.0 == 0 && burned_out(body)
            })
            &&& next == (Body { fuse: next.fuse, ..body })
        }),
{
}

/// Every player who fires in a tick shoots once, from where they stand, and nobody else does: not a
/// body without a slot or an owner, nor one whose owner has pressed nothing or does not fire.
pub proof fn lemma_everyone_who_fires_shoots_once(bodies: Seq<Body>, inputs: Map<u128, Input>)
    ensures
        shots(bodies, Some(inputs)).len() == bodies.filter(
            |body: Body|
                body.slot is Some && body.owner is Some && inputs.contains_key(body.owner->0)
                    && inputs[body.owner->0].fire,
        ).len(),
        shots(bodies, Some(inputs)).to_multiset() == bodies.filter(
            |body: Body| fires(body, inputs),
        ).map_values(|body: Body| shot(body)).to_multiset(),
        are_sorted(shots(bodies, Some(inputs))),
        shots(bodies, None).len() == 0,
{
    broadcast use vstd::seq_lib::group_to_multiset_ensures;

    let firing = bodies.filter(|body: Body| fires(body, inputs));
    let same = bodies.filter(
        |body: Body|
            body.slot is Some && body.owner is Some && inputs.contains_key(body.owner->0)
                && inputs[body.owner->0].fire,
    );
    lemma_same_filter(
        bodies,
        |body: Body| fires(body, inputs),
        |body: Body|
            body.slot is Some && body.owner is Some && inputs.contains_key(body.owner->0)
                && inputs[body.owner->0].fire,
    );
    let rows = firing.map_values(|body: Body| shot(body));
    lemma_sorted_rows(rows);
    assert(sorted_rows(rows).to_multiset().len() == rows.to_multiset().len());
}

proof fn lemma_same_filter(
    bodies: Seq<Body>,
    one: spec_fn(Body) -> bool,
    other: spec_fn(Body) -> bool,
)
    requires
        forall|body: Body| #[trigger] one(body) == other(body),
    ensures
        bodies.filter(one) == bodies.filter(other),
    decreases bodies.len(),
{
    reveal(Seq::filter);
    if bodies.len() > 0 {
        lemma_same_filter(bodies.drop_last(), one, other);
    }
}

/// Rows are ordered by id, then by position, then by velocity.
pub proof fn lemma_rows_are_ordered_by_id_first(
    left: (u64, i64, i64),
    right: (u64, i64, i64),
)
    ensures
        left.0 < right.0 ==> row_before(left, right),
        left.0 == right.0 && left.1 < right.1 ==> row_before(left, right),
        left.0 == right.0 && left.1 == right.1 ==> (row_before(left, right) <==> left.2 < right.2),
        row_before(left, right) || row_before(right, left) <==> left != right,
        !(row_before(left, right) && row_before(right, left)),
{
}

/// What one section of a hash says does not depend on the others: worlds with the same ids have the
/// same `bodies`, with the same positions too the same `positions`, and with the same velocities too
/// the same `velocities`.
pub proof fn lemma_sections_are_apart(left: Seq<(u64, i64, i64)>, right: Seq<(u64, i64, i64)>)
    requires
        left.len() == right.len(),
        forall|k: int| 0 <= k < left.len() ==> (#[trigger] left[k]).0 == right[k].0,
    ensures
        hash_of(left).bodies == hash_of(right).bodies,
        (forall|k: int| 0 <= k < left.len() ==> (#[trigger] left[k]).1 == right[k].1) ==> hash_of(
            left,
        ).positions == hash_of(right).positions,
        (forall|k: int| 0 <= k < left.len() ==> (#[trigger] left[k]).2 == right[k].2) ==> hash_of(
            left,
        ).velocities == hash_of(right).velocities,
    decreases left.len(),
{
    if left.len() > 0 {
        let a = left.drop_last();
        let b = right.drop_last();
        assert forall|k: int| 0 <= k < a.len() implies (#[trigger] a[k]).0 == b[k].0 by {
            assert(left[k] == a[k]);
        }
        lemma_sections_are_apart(a, b);
        let end = left.len() - 1;
        assert(left[end].0 == right[end].0);
        if forall|k: int| 0 <= k < left.len() ==> (#[trigger] left[k]).1 == right[k].1 {
            assert forall|k: int| 0 <= k < a.len() implies (#[trigger] a[k]).1 == b[k].1 by {
                assert(left[k] == a[k]);
            }
            assert(left[end].1 == right[end].1);
        }
        if forall|k: int| 0 <= k < left.len() ==> (#[trigger] left[k]).2 == right[k].2 {
            assert forall|k: int| 0 <= k < a.len() implies (#[trigger] a[k]).2 == b[k].2 by {
                assert(left[k] == a[k]);
            }
            assert(left[end].2 == right[end].2);
        }
    }
}

/// A number is hashed byte by byte, the lowest first: each byte is mixed in and the whole multiplied.
pub proof fn lemma_bytes_are_folded_in_turn(hash: u64, value: u64, count: nat)
    ensures
        folded(hash, value, 0) == hash,
        folded(hash, value, count + 1) == folded(
            ((hash ^ (value % 256)) * FNV_PRIME % 0x1_0000_0000_0000_0000) as u64,
            value / 256,
            count,
        ),
{
}

/// A signed number keeps its value up to a multiple of the word: no two have the same bits.
pub proof fn lemma_bits_tell_numbers_apart(left: i64, right: i64)
    ensures
        as_bits(left) == as_bits(right) <==> left == right,
        left >= 0 ==> as_bits(left) == left,
        left < 0 ==> as_bits(left) == left + 0x1_0000_0000_0000_0000,
{
}

/// Rotating loses nothing: going on to a whole turn gives the number back.
pub proof fn lemma_whole_turn_changes_nothing(value: u64)
    ensures
        rotated(rotated(value, 21), 43) == value,
        rotated(rotated(value, 42), 22) == value,
{
    assert((((value << 21u64) | (value >> 43u64)) << 43u64) | (((value << 21u64) | (value
        >> 43u64)) >> 21u64) == value) by (bit_vector);
    assert((((value << 42u64) | (value >> 22u64)) << 22u64) | (((value << 42u64) | (value
        >> 22u64)) >> 42u64) == value) by (bit_vector);
}

/// A section is named exactly when it differs.
pub proof fn lemma_sections_that_differ_are_named(left: MinimalHash, right: MinimalHash)
    ensures
        section_names(left, right).contains("bodies"@) <==> left.bodies != right.bodies,
        section_names(left, right).contains("positions"@) <==> left.positions != right.positions,
        section_names(left, right).contains("velocities"@) <==> left.velocities
            != right.velocities,
        section_names(left, right) == section_names(right, left),
{
    reveal_strlit("bodies");
    reveal_strlit("positions");
    reveal_strlit("velocities");
    let names = section_names(left, right);
    assert("bodies"@.len() == 6 && "positions"@.len() == 9 && "velocities"@.len() == 10);
    if left.bodies != right.bodies {
        assert(names[0] == "bodies"@);
    }
    if left.positions != right.positions {
        let at: int = if left.bodies != right.bodies {
            1
        } else {
            0
        };
        assert(names[at] == "positions"@);
    }
    if left.velocities != right.velocities {
        assert(names[names.len() - 1] == "velocities"@);
    }
}

/// A player starts at rest where the axis begins, owned by whoever it is for, under the slot of
/// their peer or the host's where it was given none.
pub proof fn lemma_player_starts_at_rest(uuid: u128, slot: Option<u8>)
    ensures
        new_player(uuid).owner == Some(uuid),
        new_player(uuid).pos.0 == 0 && new_player(uuid).vel.0 == 0,
        new_player(uuid).kind.0 == PLAYER && new_player(uuid).fuse is None,
        slot matches Some(given) ==> seat_slot(slot) == given,
        slot is None ==> seat_slot(slot) == 0,
        PLAYER != PELLET,
{
}

/// A pellet starts where its shooter stood, belongs to nobody, and has its whole life before it.
pub proof fn lemma_pellet_starts_where_it_was_shot(body: Body)
    ensures
        body.slot matches Some(slot) ==> shot(body) == (slot.0 as u64, body.pos.0, 0i64),
        pellet_at(body.pos.0).pos == body.pos,
        pellet_at(body.pos.0).owner is None && pellet_at(body.pos.0).slot is None,
        pellet_at(body.pos.0).kind.0 == PELLET,
        pellet_at(body.pos.0).fuse == Some(Fuse(PELLET_LIFE)),
{
}

/// One body more is folded in behind the others: its id into each section, and its position and its
/// velocity into the one that is about them.
pub proof fn lemma_bodies_are_hashed_in_turn(rows: Seq<(u64, i64, i64)>, id: u64, pos: i64, vel: i64)
    ensures
        ({
            let had = hash_of(rows);
            let has = hash_of(rows.push((id, pos, vel)));
            &&& has.bodies == fold_value(had.bodies, id)
            &&& has.positions == fold_value(fold_value(had.positions, id), as_bits(pos))
            &&& has.velocities == fold_value(fold_value(had.velocities, id), as_bits(vel))
        }),
        hash_of(Seq::empty()).bodies == 0xcbf2_9ce4_8422_2325,
        hash_of(Seq::empty()).positions == 0xcbf2_9ce4_8422_2325,
        hash_of(Seq::empty()).velocities == 0xcbf2_9ce4_8422_2325,
{
    assert(rows.push((id, pos, vel)).drop_last() =~= rows);
}

/// All eight bytes of a number are hashed: the lower four and, behind them, the upper four.
pub proof fn lemma_all_eight_bytes_are_folded(hash: u64, value: u64)
    ensures
        fold_value(hash, value) == folded(folded(hash, value, 4), value / 0x1_0000_0000, 4),
{
    reveal_with_fuel(folded, 9);
    assert(value / 256 / 256 / 256 / 256 == value / 0x1_0000_0000);
}

} // verus!
