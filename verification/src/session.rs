//! Becoming a host, becoming a client, and stopping being either.
//!
//! A lobby has participants and a local uuid; a ticked world has a host role and a client role.
//! Mapping the first onto the second is what turns the two into a session.
//!
//! - **When to adopt.** [`adopt_role`] keys off the local player's identity, which appears before
//!   any peer connection can exist, and not off the lobby, which is promoted later.
//! - **What to tear down.** A body left standing from a solo world is a duplicate the instant the
//!   host's world arrives, so adopting a role ends the solo world.
//! - **The window in between.** Between a lobby appearing and a role being adopted, anything that
//!   mints a tracked entity is doing a client-side spawn. [`may_spawn_tracked`] is the guard, and
//!   it is strictly stricter than "am I the authority".

use vstd::prelude::*;

use crate::handshake::{
    HandshakeTimedOut, LocalSpawnerSlot, MismatchModel, RegistryMismatch, RegistryVerified,
};
use crate::slots::{are_valid, SpawnerSlots};

verus! {

/// What a peer knows about its session.
pub struct Session {
    /// The player that this peer hosts as.
    pub server: Option<u128>,
    /// The player that this peer is a client as.
    pub client: Option<u128>,
    pub mismatch: Option<RegistryMismatch>,
    pub timed_out: Option<HandshakeTimedOut>,
    pub verified: Option<RegistryVerified>,
    pub spawner_slot: Option<LocalSpawnerSlot>,
    /// How many ticks behind the host remote bodies are drawn.
    pub interpolation_delay: Option<u64>,
    /// On a host: the slots of its clients.
    pub slots: SpawnerSlots,
    /// How long this peer has been a client without hearing its host's registries, in
    /// nanoseconds.
    pub waited: u128,
    /// Whether the prediction buffer has been sized from the link.
    pub seeded: bool,
    /// On a host: the clients that a snapshot goes to.
    pub recipients: Vec<u128>,
}

/// The contents of a [`Session`].
pub struct SessionModel {
    pub server: Option<u128>,
    pub client: Option<u128>,
    pub mismatch: Option<MismatchModel>,
    pub timed_out: Option<HandshakeTimedOut>,
    pub verified: Option<RegistryVerified>,
    pub spawner_slot: Option<LocalSpawnerSlot>,
    pub interpolation_delay: Option<u64>,
    pub slots: Map<u128, u8>,
    pub waited: u128,
    pub seeded: bool,
    pub recipients: Seq<u128>,
}

impl View for Session {
    type V = SessionModel;

    open spec fn view(&self) -> SessionModel {
        SessionModel {
            server: self.server,
            client: self.client,
            mismatch: match self.mismatch {
                Some(mismatch) => Some(mismatch@),
                None => None,
            },
            timed_out: self.timed_out,
            verified: self.verified,
            spawner_slot: self.spawner_slot,
            interpolation_delay: self.interpolation_delay,
            slots: self.slots@,
            waited: self.waited,
            seeded: self.seeded,
            recipients: self.recipients@,
        }
    }
}

/// Whether a peer holds at most one role, and its clients hold distinct slots.
pub open spec fn is_consistent(session: SessionModel) -> bool {
    &&& session.server is None || session.client is None
    &&& are_valid(session.slots)
}

/// A peer that is in no session.
pub open spec fn fresh_session() -> SessionModel {
    SessionModel {
        server: None,
        client: None,
        mismatch: None,
        timed_out: None,
        verified: None,
        spawner_slot: None,
        interpolation_delay: None,
        slots: Map::empty(),
        waited: 0,
        seeded: false,
        recipients: Seq::empty(),
    }
}

impl Session {
    /// Whether a peer holds at most one role, and its clients hold distinct slots.
    pub open spec fn wf(&self) -> bool {
        is_consistent(self@)
    }

    /// A peer that is in no session.
    pub fn new() -> (session: Session)
        ensures
            session.wf(),
            session@ == fresh_session(),
    {
        Session {
            server: None,
            client: None,
            mismatch: None,
            timed_out: None,
            verified: None,
            spawner_slot: None,
            interpolation_delay: None,
            slots: SpawnerSlots::new(),
            waited: 0,
            seeded: false,
            recipients: Vec::new(),
        }
    }
}

/// Which lobbies there are around a peer, those not promoted yet among them.
#[derive(Clone, Copy, Debug, PartialEq, Eq, Structural)]
pub struct Lobbies {
    /// There is one that this peer hosts.
    pub hosting: bool,
    /// There is one that this peer does not host.
    pub joined: bool,
}

/// Whether there is no lobby of any kind.
pub open spec fn no_lobby(lobbies: Lobbies) -> bool {
    !lobbies.hosting && !lobbies.joined
}

impl Lobbies {
    /// Whether there is no lobby of any kind.
    pub fn is_empty(self) -> (empty: bool)
        ensures
            empty == no_lobby(self),
    {
        !self.hosting && !self.joined
    }
}

// ---- what a peer may do ----------------------------------------------------------------------

/// True when this peer holds neither role: playing alone, or not in a session yet.
pub fn is_solo(server: Option<u128>, client: Option<u128>) -> (solo: bool)
    ensures
        solo == (server is None && client is None),
{
    server.is_none() && client.is_none()
}

/// True when this peer decides what is true: a host, or a solo player.
///
/// The opposite of "is a client", rather than "is a server", because a peer with no lobby at all
/// is the authority over its own world.
pub fn is_authoritative(client: Option<u128>) -> (authoritative: bool)
    ensures
        authoritative == client is None,
{
    client.is_none()
}

/// Whether a peer may mint a tracked entity: a host always may, a client never may, and a peer
/// with no role may only while there is no lobby of any kind.
pub open spec fn may_spawn(server: Option<u128>, client: Option<u128>, lobbies: Lobbies) -> bool {
    client is None && (server is Some || no_lobby(lobbies))
}

/// True when this peer may mint a tracked entity **right now**.
///
/// Stricter than [`is_authoritative`], and the difference is the join window: a solo peer with a
/// lobby forming around it is about to stop being the authority, and anything it spawns in the
/// meantime is a client-side spawn that rollback cannot undo.
pub fn may_spawn_tracked(server: Option<u128>, client: Option<u128>, lobbies: Lobbies) -> (may:
    bool)
    ensures
        may == may_spawn(server, client, lobbies),
{
    if client.is_some() {
        return false;
    }
    if server.is_some() {
        return true;
    }
    lobbies.is_empty()
}

// ---- roles -----------------------------------------------------------------------------------

/// A role that a peer has just taken.
#[derive(Clone, Copy, Debug, PartialEq, Eq, Structural)]
pub enum Adopted {
    /// The host role. The host's clock is the session's clock, so it runs at once.
    Host,
    /// The client role. The clock stays paused until there is a tick to sync to.
    Client,
}

/// The role that a peer takes, if any: as soon as it knows which body is its own and there is a
/// lobby, unless it has a role already or its last session ended for good.
pub open spec fn role_to_adopt(
    session: SessionModel,
    local_player: Option<u128>,
    lobbies: Lobbies,
) -> Option<Adopted> {
    if session.server is Some || session.client is Some || session.mismatch is Some
        || session.timed_out is Some || local_player is None || no_lobby(lobbies) {
        None
    } else if lobbies.hosting {
        Some(Adopted::Host)
    } else {
        Some(Adopted::Client)
    }
}

/// A session in which a role has been taken where there was one to take.
pub open spec fn adopted(
    session: SessionModel,
    local_player: Option<u128>,
    lobbies: Lobbies,
) -> SessionModel {
    match role_to_adopt(session, local_player, lobbies) {
        Some(Adopted::Host) => SessionModel {
            server: local_player,
            spawner_slot: Some(LocalSpawnerSlot(0)),
            ..session
        },
        Some(Adopted::Client) => SessionModel { client: local_player, ..session },
        None => session,
    }
}

/// Take the host or client role as soon as this peer knows which body is its own.
///
/// Where a role is taken the solo world ends, and every tracked entity with it.
pub fn adopt_role(session: &mut Session, local_player: Option<u128>, lobbies: Lobbies) -> (role:
    Option<Adopted>)
    requires
        old(session).wf(),
    ensures
        final(session).wf(),
        final(session)@ == adopted(old(session)@, local_player, lobbies),
        role == role_to_adopt(old(session)@, local_player, lobbies),
{
    if session.server.is_some() || session.client.is_some() {
        return None;
    }
    // A session this peer cannot speak the language of does not get retried at frame rate.
    if session.mismatch.is_some() || session.timed_out.is_some() {
        return None;
    }
    match local_player {
        None => None,
        Some(uuid) => {
            if lobbies.is_empty() {
                return None;
            }
            if lobbies.hosting {
                session.server = Some(uuid);
                session.spawner_slot = Some(LocalSpawnerSlot(0));
                Some(Adopted::Host)
            } else {
                session.client = Some(uuid);
                Some(Adopted::Client)
            }
        },
    }
}

/// A session whose role has been given back where its lobby has gone.
pub open spec fn released(session: SessionModel, lobbies: Lobbies) -> SessionModel {
    if (session.server is Some || session.client is Some) && no_lobby(lobbies) {
        SessionModel { server: None, client: None, verified: None, spawner_slot: None, ..session }
    } else {
        session
    }
}

/// Give the role back when the lobby goes, however it went.
pub fn release_role(session: &mut Session, lobbies: Lobbies)
    requires
        old(session).wf(),
    ensures
        final(session).wf(),
        final(session)@ == released(old(session)@, lobbies),
{
    if session.server.is_none() && session.client.is_none() {
        return;
    }
    if !lobbies.is_empty() {
        return;
    }
    session.server = None;
    session.client = None;
    session.verified = None;
    session.spawner_slot = None;
}

/// A session that has forgotten why it ended where its lobby has gone.
pub open spec fn forgotten(session: SessionModel, lobbies: Lobbies) -> SessionModel {
    if no_lobby(lobbies) {
        SessionModel { mismatch: None, timed_out: None, ..session }
    } else {
        session
    }
}

/// Forget a registry mismatch, or a handshake that never came, once the lobby it belonged to is
/// gone.
///
/// Joining a *different* lobby is allowed to try again: the peer on the other end of that one may
/// well have been built from the same commit as this.
pub fn forget_mismatch(session: &mut Session, lobbies: Lobbies)
    requires
        old(session).wf(),
    ensures
        final(session).wf(),
        final(session)@ == forgotten(old(session)@, lobbies),
{
    if lobbies.is_empty() {
        session.mismatch = None;
        session.timed_out = None;
    }
}

/// Whether the prediction buffer is to be sized from the link now.
pub open spec fn seeds(session: SessionModel, paused: bool, sampled: bool) -> bool {
    session.client is Some && !session.seeded && paused && sampled
}

/// Whether to size the client's prediction buffer from the connection now, before the first input
/// has made the trip that would let it measure itself.
///
/// Once per join, and only while the client is still waiting for its first snapshot, which is the
/// span its clock is `paused`: after that the buffer holds measurements, and a seed would be
/// overwriting them. `sampled` says whether a ping has come back yet.
pub fn seed_tick_buffer(session: &mut Session, paused: bool, sampled: bool) -> (seed: bool)
    requires
        old(session).wf(),
    ensures
        final(session).wf(),
        seed == seeds(old(session)@, paused, sampled),
        final(session)@ == (SessionModel {
            seeded: old(session)@.client is Some && (old(session)@.seeded || seed),
            ..old(session)@
        }),
{
    if session.client.is_none() {
        // Not a client, or no longer one: the next join gets a fresh seed.
        session.seeded = false;
        return false;
    }
    if session.seeded || !paused {
        return false;
    }
    if !sampled {
        // No ping has come back yet. Try again next frame, until the first snapshot closes the
        // window.
        return false;
    }
    session.seeded = true;
    true
}

/// A client in a host's lobby.
#[derive(Clone, Copy, Debug, PartialEq, Eq, Structural)]
pub struct LobbyPeer {
    pub uuid: u128,
    /// Whether its registries have been matched.
    pub verified: bool,
}

/// The clients that are told the world, in the order of the lobby.
pub open spec fn verified_peers(clients: Seq<LobbyPeer>) -> Seq<u128> {
    clients.filter(|peer: LobbyPeer| peer.verified).map_values(|peer: LobbyPeer| peer.uuid)
}

/// A player is told the world exactly when a client of theirs in the lobby has been verified.
pub proof fn lemma_recipients_are_the_verified(clients: Seq<LobbyPeer>, uuid: u128)
    ensures
        verified_peers(clients).contains(uuid) <==> exists|k: int|
            0 <= k < clients.len() && (#[trigger] clients[k]).verified && clients[k].uuid == uuid,
{
    broadcast use vstd::seq_lib::group_filter_ensures;

    let good = |peer: LobbyPeer| peer.verified;
    let kept = clients.filter(good);
    if verified_peers(clients).contains(uuid) {
        let j = choose|j: int|
            0 <= j < verified_peers(clients).len() && verified_peers(clients)[j] == uuid;
        clients.lemma_filter_pred(good, j);
        clients.lemma_filter_contains_rev(good, kept[j]);
        let k = choose|k: int| 0 <= k < clients.len() && clients[k] == kept[j];
        assert(clients[k].verified && clients[k].uuid == uuid);
    }
    if exists|k: int|
        0 <= k < clients.len() && (#[trigger] clients[k]).verified && clients[k].uuid == uuid {
        let k = choose|k: int|
            0 <= k < clients.len() && (#[trigger] clients[k]).verified && clients[k].uuid == uuid;
        assert(kept.contains(clients[k]));
        let j = choose|j: int| 0 <= j < kept.len() && kept[j] == clients[k];
        assert(verified_peers(clients)[j] == uuid);
    }
}

/// Keep the list of peers that a snapshot goes to. Says whether it has changed.
pub fn count_recipients(session: &mut Session, clients: &Vec<LobbyPeer>) -> (changed: bool)
    requires
        old(session).wf(),
    ensures
        final(session).wf(),
        final(session)@ == (SessionModel {
            recipients: verified_peers(clients@),
            ..old(session)@
        }),
        changed == (old(session)@.recipients != verified_peers(clients@)),
{
    let mut list: Vec<u128> = Vec::new();
    let mut index: usize = 0;
    let ghost keep = |peer: LobbyPeer| peer.verified;
    let ghost name = |peer: LobbyPeer| peer.uuid;
    reveal(Seq::filter);
    assert(list@ =~= clients@.take(0).filter(keep).map_values(name));
    while index < clients.len()
        invariant
            index <= clients@.len(),
            keep == (|peer: LobbyPeer| peer.verified),
            name == (|peer: LobbyPeer| peer.uuid),
            list@ == clients@.take(index as int).filter(keep).map_values(name),
        decreases clients@.len() - index,
    {
        let ghost upto = clients@.take(index + 1);
        assert(upto.drop_last() =~= clients@.take(index as int));
        assert(upto.last() == clients@[index as int]);
        reveal(Seq::filter);
        if clients[index].verified {
            list.push(clients[index].uuid);
            assert(list@ =~= upto.filter(keep).map_values(name));
        }
        index = index + 1;
    }
    assert(clients@.take(index as int) =~= clients@);
    let changed = !same_peers(&session.recipients, &list);
    session.recipients = list;
    changed
}

fn same_peers(left: &Vec<u128>, right: &Vec<u128>) -> (same: bool)
    ensures
        same == (left@ == right@),
{
    if left.len() != right.len() {
        return false;
    }
    let mut index: usize = 0;
    while index < left.len()
        invariant
            index <= left@.len() == right@.len(),
            forall|k: int| 0 <= k < index ==> left@[k] == right@[k],
        decreases left@.len() - index,
    {
        if left[index] != right[index] {
            return false;
        }
        index = index + 1;
    }
    assert(left@ =~= right@);
    true
}

// ---- laws ------------------------------------------------------------------------------------

/// Clients are looked at one by one: those of two lists, one behind the other, are told the world as
/// those of each are, in the order of the lobby, and one alone exactly when it has been verified.
pub proof fn lemma_clients_are_counted_alone(
    one: Seq<LobbyPeer>,
    other: Seq<LobbyPeer>,
    peer: LobbyPeer,
)
    ensures
        verified_peers(one + other) == verified_peers(one) + verified_peers(other),
        verified_peers(seq![peer]) == (if peer.verified {
            seq![peer.uuid]
        } else {
            Seq::empty()
        }),
{
    let good = |each: LobbyPeer| each.verified;
    Seq::filter_distributes_over_add(one, other, good);
    assert(verified_peers(one + other) =~= verified_peers(one) + verified_peers(other));
    reveal(Seq::filter);
    let alone = seq![peer];
    assert(alone.drop_last() =~= Seq::empty());
    assert(alone.drop_last().filter(good) =~= Seq::empty());
    assert(verified_peers(alone) =~= (if peer.verified {
        seq![peer.uuid]
    } else {
        Seq::empty()
    }));
}

/// A fresh session holds nothing and is kept from nothing: it takes a role as soon as there is a
/// player and a lobby.
pub proof fn lemma_fresh_session_is_free(uuid: u128, lobbies: Lobbies)
    ensures
        ({
            let session = fresh_session();
            &&& is_consistent(session)
            &&& session.server is None && session.client is None
            &&& session.mismatch is None && session.timed_out is None && session.verified is None
            &&& session.spawner_slot is None && session.interpolation_delay is None
            &&& session.waited == 0 && !session.seeded
            &&& session.slots == Map::<u128, u8>::empty() && session.recipients.len() == 0
            &&& lobbies.hosting ==> adopted(session, Some(uuid), lobbies).server == Some(uuid)
            &&& !lobbies.hosting && lobbies.joined ==> adopted(session, Some(uuid), lobbies).client
                == Some(uuid)
        }),
{
}

} // verus!
