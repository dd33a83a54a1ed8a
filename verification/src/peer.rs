//! One headless peer that behaves like a shipped one.

use vstd::prelude::*;

verus! {

/// One tick at 64 Hz in nanoseconds: 15.625 ms, exactly, so a frame of this length is one tick
/// with no remainder and no drift.
pub const TICK: u64 = 15_625_000;

/// The uuid every network gives its host. Clients are numbered from 2.
pub const HOST_UUID: u128 = 1;

/// What advances a peer's tick clock.
#[derive(Clone, Copy, Debug, PartialEq, Eq, Structural)]
pub enum TickSource {
    /// This many ticks a second: the only source under which a client can steer its lead.
    Hz(u32),
    /// The fixed step of the engine.
    FixedUpdate,
}

/// What one peer is made of, where the defaults are not the only sensible choice.
#[derive(Clone, Copy, Debug, PartialEq, Eq, Structural)]
pub struct PeerRecipe {
    /// The identity a real backend would learn from its signalling server.
    pub uuid: u128,
    pub source: TickSource,
    /// How much virtual time one frame represents, in nanoseconds.
    pub frame: u64,
    /// The history window in ticks, where it is not left to the peer's parts.
    pub history: Option<u64>,
    /// Whether a simulated network is added.
    pub netsim: bool,
}

/// A recipe that leaves everything at its default but the identity.
pub open spec fn plain_recipe(uuid: u128) -> PeerRecipe {
    PeerRecipe { uuid, source: TickSource::Hz(64), frame: TICK, history: None, netsim: false }
}

impl Default for PeerRecipe {
    fn default() -> (recipe: Self)
        ensures
            recipe == plain_recipe(HOST_UUID),
    {
        PeerRecipe::for_uuid(HOST_UUID)
    }
}

impl PeerRecipe {
    /// The defaults with this identity.
    pub fn for_uuid(uuid: u128) -> (recipe: Self)
        ensures
            recipe == plain_recipe(uuid),
    {
        PeerRecipe { uuid, source: TickSource::Hz(64), frame: TICK, history: None, netsim: false }
    }
}

/// 64 frames of one tick are one second.
pub proof fn lemma_tick_divides_a_second()
    ensures
        64 * TICK == 1_000_000_000,
{
}

/// What a peer is built with, in the order it is added: a game's own parts come behind the
/// stack's, and before the peer is finished.
#[derive(Clone, Copy, Debug, PartialEq, Eq, Structural)]
pub enum PeerPart {
    /// The engine's minimal set, transforms and diagnostics.
    Engine,
    /// A clock that advances by exactly this many nanoseconds per frame.
    ManualClock { frame: u64 },
    /// The tick loop.
    TickLoop { source: TickSource },
    /// The lobby and the loopback transport.
    Lobby,
    /// A simulated network.
    NetSim,
    /// The local player's identity.
    Identity { uuid: u128 },
    /// A history window.
    History { ticks: u64 },
    /// Both roles, the bridge and the session: the same binary hosts or joins.
    Roles,
    /// The game's own parts.
    Game,
    /// What only runs once everything has been added.
    Finish,
}

/// The parts of a peer made to `recipe`, in order.
pub open spec fn peer_parts(recipe: PeerRecipe, roles: bool) -> Seq<PeerPart> {
    seq![
        PeerPart::Engine,
        PeerPart::ManualClock { frame: recipe.frame },
        PeerPart::TickLoop { source: recipe.source },
        PeerPart::Lobby,
    ] + (if recipe.netsim {
        seq![PeerPart::NetSim]
    } else {
        Seq::empty()
    }) + seq![PeerPart::Identity { uuid: recipe.uuid }] + (match recipe.history {
        Some(ticks) => seq![PeerPart::History { ticks }],
        None => Seq::empty(),
    }) + (if roles {
        seq![PeerPart::Roles]
    } else {
        Seq::empty()
    }) + seq![PeerPart::Game, PeerPart::Finish]
}

/// The parts of a peer made to `recipe`, in order: with both roles where it is to host or join a
/// client/server session.
pub fn peer_app_with(recipe: PeerRecipe, roles: bool) -> (parts: Vec<PeerPart>)
    ensures
        parts@ == peer_parts(recipe, roles),
{
    let mut parts: Vec<PeerPart> = Vec::new();
    parts.push(PeerPart::Engine);
    parts.push(PeerPart::ManualClock { frame: recipe.frame });
    parts.push(PeerPart::TickLoop { source: recipe.source });
    parts.push(PeerPart::Lobby);
    if recipe.netsim {
        parts.push(PeerPart::NetSim);
    }
    parts.push(PeerPart::Identity { uuid: recipe.uuid });
    if let Some(ticks) = recipe.history {
        parts.push(PeerPart::History { ticks });
    }
    if roles {
        parts.push(PeerPart::Roles);
    }
    parts.push(PeerPart::Game);
    parts.push(PeerPart::Finish);
    assert(parts@ =~= peer_parts(recipe, roles));
    parts
}

/// A peer is put together from the engine to the game: first the engine, its clock and its tick loop
/// with the recipe's frame and source, and the lobby; then the simulated network where the recipe
/// asks for it, who the peer is, as much history as the recipe asks for, and the roles where they are
/// wanted; and the game and the finish last.
pub proof fn lemma_peer_is_put_together_in_order(recipe: PeerRecipe, roles: bool)
    ensures
        ({
            let parts = peer_parts(recipe, roles);
            let simulated: int = if recipe.netsim {
                1
            } else {
                0
            };
            let remembered: int = if recipe.history is Some {
                1
            } else {
                0
            };
            let ruled: int = if roles {
                1
            } else {
                0
            };
            &&& parts.len() == 7 + simulated + remembered + ruled
            &&& parts[0] == PeerPart::Engine
            &&& parts[1] == (PeerPart::ManualClock { frame: recipe.frame })
            &&& parts[2] == (PeerPart::TickLoop { source: recipe.source })
            &&& parts[3] == PeerPart::Lobby
            &&& recipe.netsim ==> parts[4] == PeerPart::NetSim
            &&& parts[4 + simulated] == (PeerPart::Identity { uuid: recipe.uuid })
            &&& recipe.history matches Some(ticks) ==> parts[5 + simulated] == (PeerPart::History {
                ticks,
            })
            &&& roles ==> parts[5 + simulated + remembered] == PeerPart::Roles
            &&& parts[parts.len() - 2] == PeerPart::Game
            &&& parts[parts.len() - 1] == PeerPart::Finish
        }),
{
}

/// A plain peer runs at 64 ticks a second, fed one tick a frame, under the uuid it is given.
pub proof fn lemma_plain_peer_runs_one_tick_a_frame(uuid: u128)
    ensures
        plain_recipe(uuid).uuid == uuid,
        plain_recipe(uuid).frame == TICK,
        plain_recipe(uuid).source == TickSource::Hz(64),
        plain_recipe(uuid).history is None,
        !plain_recipe(uuid).netsim,
{
}

} // verus!
