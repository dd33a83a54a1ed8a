//! The registry handshake of a session: comparing what arrives, verifying or refusing, waiting and
//! giving up.

use vstd::prelude::*;
use vstd::string::*;

use crate::handshake::{
    agree, announcement, difference_text, HandshakeModel, HandshakeTimedOut, HandshakeTimeout,
    LocalSpawnerSlot, MismatchModel, RegistryMismatch, RegistryShape, RegistryVerified,
    TickedRegistryHandshake, TickedSessionWelcome, DEFAULT_HANDSHAKE_TIMEOUT,
};
use crate::number::{hex, hex_of};
use crate::session::{
    adopted, forgotten, is_consistent, may_spawn, no_lobby, released, role_to_adopt, seeds, Adopted,
    Lobbies, Session, SessionModel,
};
use crate::slots::{
    are_valid, lemma_assignment, lemma_lowest_free_slot_is_given, lemma_next_slot_is_assigned,
    lemma_refused_only_when_full, lemma_with_slot_is_valid, next_slot, with_slot,
};
use crate::text::{contains, lemma_contains_its_parts, lemma_contains_what_stands_in_it};

verus! {

// ---- announcing ------------------------------------------------------------------------------

/// Whom an announcement goes to.
#[derive(Clone, Copy, Debug, PartialEq, Eq, Structural)]
pub enum Address {
    /// On a host: the client that the transport has verified.
    Client,
    /// On a client: its lobby, and so its host.
    Lobby,
}

/// Tell a peer what our registries look like, the moment the transport has verified it. Says what
/// to send and to whom; nothing, where there is no component registry.
///
/// Per recipient, not per lobby: a host's lobby exists before any client has connected, so a
/// single broadcast there goes to nobody.
pub fn announce_registry(
    components: Option<&RegistryShape>,
    resources: Option<&RegistryShape>,
    verified_is_client: bool,
) -> (sent: Option<(Address, TickedRegistryHandshake)>)
    ensures
        match components {
            None => sent is None,
            Some(registry) => {
                &&& sent matches Some((address, handshake))
                &&& address == (if verified_is_client {
                    Address::Client
                } else {
                    Address::Lobby
                })
                &&& handshake@ == announcement(
                    *registry,
                    match resources {
                        Some(other) => Some(*other),
                        None => None,
                    },
                )
            },
        },
{
    match TickedRegistryHandshake::of(components, resources) {
        None => None,
        Some(ours) => {
            if verified_is_client {
                Some((Address::Client, ours))
            } else {
                Some((Address::Lobby, ours))
            }
        },
    }
}

// ---- comparing -------------------------------------------------------------------------------

/// What a host brings to the comparison.
pub struct HostSide {
    /// Whether this peer hosts a lobby, promoted or not.
    pub hosting: bool,
    /// The players of its clients, in the order of the lobby.
    pub clients: Vec<u128>,
    pub server_tick: Option<u64>,
    pub send_every: Option<u64>,
}

/// What comes of one announcement, for the rest of the peer to act on.
pub enum HandshakeEvent {
    /// The client at this place of the lobby is verified, and is to be sent the welcome.
    Verified { client: usize, welcome: TickedSessionWelcome },
    /// A client is refused: its registries do not match.
    Refused { peer: u128, difference: String },
    /// A client is refused: every spawner slot is taken.
    SlotsTaken { uuid: u128 },
    /// The session is ended: the host's registries do not match.
    Ended { peer: u128, difference: String },
}

/// The contents of a [`HandshakeEvent`].
pub enum EventModel {
    Verified { client: int, welcome: TickedSessionWelcome },
    Refused { peer: u128, difference: Seq<char> },
    SlotsTaken { uuid: u128 },
    Ended { peer: u128, difference: Seq<char> },
}

impl View for HandshakeEvent {
    type V = EventModel;

    open spec fn view(&self) -> EventModel {
        match *self {
            HandshakeEvent::Verified { client, welcome } => EventModel::Verified {
                client: client as int,
                welcome,
            },
            HandshakeEvent::Refused { peer, difference } => EventModel::Refused {
                peer,
                difference: difference@,
            },
            HandshakeEvent::SlotsTaken { uuid } => EventModel::SlotsTaken { uuid },
            HandshakeEvent::Ended { peer, difference } => EventModel::Ended {
                peer,
                difference: difference@,
            },
        }
    }
}

/// The contents of a list of events.
pub open spec fn event_views(events: Seq<HandshakeEvent>) -> Seq<EventModel> {
    events.map_values(|event: HandshakeEvent| event@)
}

/// What an event says to whoever reads the log: nothing, where all is well.
pub open spec fn event_text(event: EventModel) -> Seq<char> {
    match event {
        EventModel::Verified { .. } => Seq::empty(),
        EventModel::Refused { peer, difference } => "refusing client "@ + hex(peer as nat)
            + ": its registries do not match this build's ("@ + difference
            + "). It will get no snapshot from this host. Build both peers from the same commit."@,
        EventModel::SlotsTaken { uuid } => "refusing client "@ + hex(uuid as nat)
            + ": every spawner slot is taken"@,
        EventModel::Ended { peer, difference } => "registry mismatch with the host "@ + hex(
            peer as nat,
        ) + ": "@ + difference
            + ". Every wire index from the first difference onward means something else on the other machine, so the session is being ended rather than played out. Build both peers from the same commit."@,
    }
}

impl HandshakeEvent {
    /// What the event says to whoever reads the log: nothing, where all is well.
    pub fn message(&self) -> (text: String)
        ensures
            text@ == event_text(self@),
    {
        let mut text = String::new();
        match self {
            HandshakeEvent::Verified { client: _, welcome: _ } => {},
            HandshakeEvent::Refused { peer, difference } => {
                text.append("refusing client ");
                text.append(hex_of(*peer).as_str());
                text.append(": its registries do not match this build's (");
                text.append(difference.as_str());
                text.append(
                    "). It will get no snapshot from this host. Build both peers from the same commit.",
                );
            },
            HandshakeEvent::SlotsTaken { uuid } => {
                text.append("refusing client ");
                text.append(hex_of(*uuid).as_str());
                text.append(": every spawner slot is taken");
            },
            HandshakeEvent::Ended { peer, difference } => {
                text.append("registry mismatch with the host ");
                text.append(hex_of(*peer).as_str());
                text.append(": ");
                text.append(difference.as_str());
                text.append(
                    ". Every wire index from the first difference onward means something else on the other machine, so the session is being ended rather than played out. Build both peers from the same commit.",
                );
            },
        }
        assert(text@ =~= event_text(self@));
        text
    }
}

/// The place of the first client at or after `from` that is `uuid`, or the number of clients.
pub open spec fn client_place(clients: Seq<u128>, uuid: u128, from: int) -> int
    decreases clients.len() - from,
{
    if from < 0 || from >= clients.len() || clients[from] == uuid {
        from
    } else {
        client_place(clients, uuid, from + 1)
    }
}

/// What `option` holds, or `otherwise`.
pub open spec fn or_else(option: Option<u64>, otherwise: u64) -> u64 {
    match option {
        Some(value) => value,
        None => otherwise,
    }
}

/// What comes of a client whose registries match: it is given a slot and welcomed, where it is
/// still in the lobby and a slot is free.
pub open spec fn client_verified(session: SessionModel, host: HostSide, uuid: u128) -> (
    SessionModel,
    Seq<EventModel>,
) {
    let place = client_place(host.clients@, uuid, 0);
    if place >= host.clients@.len() {
        (session, Seq::empty())
    } else {
        match next_slot(session.slots, uuid) {
            None => (session, seq![EventModel::SlotsTaken { uuid }]),
            Some(slot) => (
                SessionModel { slots: with_slot(session.slots, uuid), ..session },
                seq![
                    EventModel::Verified {
                        client: place,
                        welcome: TickedSessionWelcome {
                            slot,
                            server_tick: or_else(host.server_tick, 0),
                            send_every: or_else(host.send_every, 1),
                        },
                    },
                ],
            ),
        }
    }
}

/// A session whose roles, and what came with them, have been dropped.
pub open spec fn client_session_ended(session: SessionModel) -> SessionModel {
    SessionModel { server: None, client: None, verified: None, spawner_slot: None, ..session }
}

/// What comes of one announcement.
///
/// On a host a mismatch refuses *that client*; the host's own session is untouched. On a client a
/// mismatch is the end: the role is dropped, and the mismatch keeps it from being taken back.
pub open spec fn announcement_checked(
    session: SessionModel,
    ours: HandshakeModel,
    host: HostSide,
    sender: Option<u128>,
    theirs: HandshakeModel,
) -> (SessionModel, Seq<EventModel>) {
    let peer = match sender {
        Some(uuid) => uuid,
        None => 0,
    };
    let difference = difference_text(ours, theirs);
    if agree(ours, theirs) {
        if host.hosting {
            client_verified(session, host, peer)
        } else {
            (SessionModel { verified: Some(RegistryVerified), ..session }, Seq::empty())
        }
    } else if host.hosting {
        (session, seq![EventModel::Refused { peer, difference }])
    } else {
        (
            client_session_ended(
                SessionModel {
                    mismatch: Some(MismatchModel { peer, ours, theirs, difference }),
                    ..session
                },
            ),
            seq![EventModel::Ended { peer, difference }],
        )
    }
}

/// The contents of a list of announcements.
pub open spec fn arrival_views(
    arrivals: Seq<(Option<u128>, TickedRegistryHandshake)>,
) -> Seq<(Option<u128>, HandshakeModel)> {
    arrivals.map_values(|arrival: (Option<u128>, TickedRegistryHandshake)| (arrival.0, arrival.1@))
}

/// What comes of announcements in their order of arrival. Nothing more comes of them once a
/// mismatch has latched, nor where this peer has no registries to compare.
pub open spec fn registry_checked(
    session: SessionModel,
    ours: Option<HandshakeModel>,
    host: HostSide,
    arrivals: Seq<(Option<u128>, HandshakeModel)>,
) -> (SessionModel, Seq<EventModel>)
    decreases arrivals.len(),
{
    if arrivals.len() == 0 || session.mismatch is Some || ours is None {
        (session, Seq::empty())
    } else {
        let (next, events) = announcement_checked(
            session,
            ours->0,
            host,
            arrivals[0].0,
            arrivals[0].1,
        );
        let (last, more) = registry_checked(next, ours, host, arrivals.skip(1));
        (last, events + more)
    }
}

/// The host's side of a match: mark the client, give it a slot, tell it where the clock is.
fn verify_client(session: &mut Session, host: &HostSide, uuid: u128) -> (event: Option<
    HandshakeEvent,
>)
    requires
        old(session).wf(),
    ensures
        final(session).wf(),
        ({
            let (next, events) = client_verified(old(session)@, *host, uuid);
            &&& final(session)@ == next
            &&& events == (match event {
                Some(one) => seq![one@],
                None => Seq::empty(),
            })
        }),
{
    let mut place: usize = 0;
    while place < host.clients.len() && host.clients[place] != uuid
        invariant
            place <= host.clients@.len(),
            client_place(host.clients@, uuid, 0) == client_place(
                host.clients@,
                uuid,
                place as int,
            ),
        decreases host.clients@.len() - place,
    {
        place = place + 1;
    }
    if place >= host.clients.len() {
        // Verified and gone in the same frame. Nothing to mark; a rejoin announces again.
        return None;
    }
    let ghost had = session.slots@;
    let given = session.slots.assign(uuid);
    proof {
        lemma_assignment(had, uuid, session.slots@, given);
    }
    match given {
        None => {
            let event = HandshakeEvent::SlotsTaken { uuid };
            Some(event)
        },
        Some(slot) => {
            let server_tick: u64 = match host.server_tick {
                Some(tick) => tick,
                None => 0,
            };
            let send_every: u64 = match host.send_every {
                Some(every) => every,
                None => 1,
            };
            let welcome = TickedSessionWelcome { slot, server_tick, send_every };
            let event = HandshakeEvent::Verified { client: place, welcome };
            Some(event)
        },
    }
}

/// Dropping the roles is what actually ends it: everything that the wrong-shaped snapshots built
/// goes with them.
fn end_client_session(session: &mut Session)
    requires
        old(session).wf(),
    ensures
        final(session).wf(),
        final(session)@ == client_session_ended(old(session)@),
{
    session.server = None;
    session.client = None;
    session.verified = None;
    session.spawner_slot = None;
}

/// Compare what arrived against what we hold; verify on a match, end the session otherwise.
pub fn check_registry(
    session: &mut Session,
    ours: Option<&TickedRegistryHandshake>,
    host: &HostSide,
    arrivals: &Vec<(Option<u128>, TickedRegistryHandshake)>,
) -> (events: Vec<HandshakeEvent>)
    requires
        old(session).wf(),
    ensures
        final(session).wf(),
        ({
            let known = match ours {
                Some(handshake) => Some(handshake@),
                None => None,
            };
            let (next, told) = registry_checked(
                old(session)@,
                known,
                *host,
                arrival_views(arrivals@),
            );
            final(session)@ == next && event_views(events@) == told
        }),
{
    let mut events: Vec<HandshakeEvent> = Vec::new();
    let ghost known = match ours {
        Some(handshake) => Some(handshake@),
        None => None,
    };
    let ghost all = arrival_views(arrivals@);
    let ghost start = session@;
    let ghost whole = registry_checked(start, known, *host, all);
    assert(event_views(events@) =~= Seq::<EventModel>::empty());
    let mine = match ours {
        Some(handshake) => handshake,
        None => {
            return events;
        },
    };
    let mut index: usize = 0;
    assert(all.skip(0) =~= all);
    assert(Seq::<EventModel>::empty() + whole.1 =~= whole.1);
    while index < arrivals.len() && session.mismatch.is_none()
        invariant
            index <= arrivals@.len(),
            all == arrival_views(arrivals@),
            known == Some(mine@),
            session.wf(),
            whole.0 == registry_checked(session@, known, *host, all.skip(index as int)).0,
            whole.1 == event_views(events@) + registry_checked(
                session@,
                known,
                *host,
                all.skip(index as int),
            ).1,
        decreases arrivals@.len() - index,
    {
        let ghost had = event_views(events@);
        let ghost rest = all.skip(index as int);
        let ghost before_one = session@;
        let arrival = &arrivals[index];
        assert(rest[0] == (arrival.0, arrival.1@));
        assert(rest.skip(1) =~= all.skip(index as int + 1));
        let ghost step = announcement_checked(before_one, mine@, *host, arrival.0, arrival.1@);
        let peer: u128 = match arrival.0 {
            Some(uuid) => uuid,
            None => 0,
        };
        let theirs = &arrival.1;
        if mine.matches(theirs) {
            if host.hosting {
                if let Some(event) = verify_client(session, host, peer) {
                    events.push(event);
                    assert(event_views(events@) =~= had + seq![event@]);
                }
            } else {
                session.verified = Some(RegistryVerified);
            }
        } else {
            let difference = mine.difference(theirs);
            if host.hosting {
                let event = HandshakeEvent::Refused { peer, difference };
                events.push(event);
                assert(event_views(events@) =~= had + seq![event@]);
            } else {
                let shown = difference.clone();
                session.mismatch = Some(
                    RegistryMismatch { peer, ours: mine.copy(), theirs: theirs.copy(), difference },
                );
                end_client_session(session);
                let event = HandshakeEvent::Ended { peer, difference: shown };
                events.push(event);
                assert(event_views(events@) =~= had + seq![event@]);
            }
        }
        assert(session@ == step.0);
        assert(event_views(events@) =~= had + step.1);
        let ghost more = registry_checked(session@, known, *host, rest.skip(1)).1;
        assert((had + step.1) + more =~= had + (step.1 + more));
        index = index + 1;
    }
    assert(event_views(events@) + Seq::<EventModel>::empty() =~= event_views(events@));
    events
}

// ---- the welcome, the departure, the wait ----------------------------------------------------

/// How many ticks behind the host remote bodies are drawn when snapshots come `send_every` ticks
/// apart: far enough that there is always a next state to blend toward.
pub open spec fn drawing_delay(send_every: u64) -> int {
    if 2 * send_every >= 2 {
        2 * send_every as int
    } else {
        2
    }
}

/// A session that has been welcomed.
pub open spec fn welcomed(session: SessionModel, welcome: TickedSessionWelcome) -> SessionModel {
    SessionModel {
        spawner_slot: Some(LocalSpawnerSlot(welcome.slot)),
        interpolation_delay: Some(drawing_delay(welcome.send_every) as u64),
        ..session
    }
}

/// A client keeps the slot its host gave it, and draws remote bodies far enough behind the host's
/// send rate that there is always a next state to blend toward. The last welcome counts.
pub fn receive_welcome(session: &mut Session, welcomes: &Vec<TickedSessionWelcome>)
    requires
        old(session).wf(),
        forall|k: int|
            0 <= k < welcomes@.len() ==> 2 * (#[trigger] welcomes@[k]).send_every <= u64::MAX,
    ensures
        final(session).wf(),
        final(session)@ == (if welcomes@.len() == 0 {
            old(session)@
        } else {
            welcomed(old(session)@, welcomes@.last())
        }),
{
    let mut index: usize = 0;
    while index < welcomes.len()
        invariant
            index <= welcomes@.len(),
            session.wf(),
            forall|k: int|
                0 <= k < welcomes@.len() ==> 2 * (#[trigger] welcomes@[k]).send_every <= u64::MAX,
            session@ == (if index == 0 {
                old(session)@
            } else {
                welcomed(old(session)@, welcomes@[index - 1])
            }),
        decreases welcomes@.len() - index,
    {
        let welcome = welcomes[index];
        assert(2 * welcomes@[index as int].send_every <= u64::MAX);
        let doubled: u64 = 2 * welcome.send_every;
        session.spawner_slot = Some(LocalSpawnerSlot(welcome.slot));
        session.interpolation_delay = Some(
            if doubled >= 2 {
                doubled
            } else {
                2
            },
        );
        index = index + 1;
    }
}

/// Give a slot back the moment its client goes, whichever way it went. Says which player has
/// left, where the client that went had been given one.
pub fn free_departed_slot(session: &mut Session, uuid: Option<u128>) -> (left: Option<u128>)
    requires
        old(session).wf(),
    ensures
        final(session).wf(),
        left == uuid,
        final(session)@ == (match uuid {
            Some(player) => SessionModel {
                slots: old(session)@.slots.remove(player),
                ..old(session)@
            },
            None => old(session)@,
        }),
{
    if let Some(player) = uuid {
        session.slots.free(player);
    }
    uuid
}

/// How long a client waits.
pub open spec fn patience(timeout: Option<HandshakeTimeout>) -> u128 {
    match timeout {
        Some(given) => given.0,
        None => DEFAULT_HANDSHAKE_TIMEOUT,
    }
}

/// A session after one more frame of `delta` nanoseconds without the host's registries.
pub open spec fn waited_on(
    session: SessionModel,
    delta: u128,
    timeout: Option<HandshakeTimeout>,
) -> SessionModel {
    if session.client is None || session.verified is Some {
        SessionModel { waited: 0, ..session }
    } else if session.waited + delta < patience(timeout) {
        SessionModel { waited: (session.waited + delta) as u128, ..session }
    } else {
        client_session_ended(
            SessionModel {
                waited: 0,
                timed_out: Some(HandshakeTimedOut { waited: (session.waited + delta) as u128 }),
                ..session
            },
        )
    }
}

/// A client that has held its role for [`HandshakeTimeout`] without hearing its host's registries
/// gives up, loudly. Says how long it has waited when it does.
///
/// `delta` is the length of this frame in nanoseconds: it is the player's wait that is being
/// bounded.
pub fn refuse_after_timeout(
    session: &mut Session,
    delta: u128,
    timeout: Option<HandshakeTimeout>,
) -> (gave_up: Option<u128>)
    requires
        old(session).wf(),
        old(session)@.waited + delta <= u128::MAX,
    ensures
        final(session).wf(),
        final(session)@ == waited_on(old(session)@, delta, timeout),
        gave_up == (if old(session)@.client is Some && old(session)@.verified is None
            && old(session)@.waited + delta >= patience(timeout) {
            Some((old(session)@.waited + delta) as u128)
        } else {
            None
        }),
{
    if session.client.is_none() || session.verified.is_some() {
        session.waited = 0;
        return None;
    }
    session.waited = session.waited + delta;
    let bound: u128 = match timeout {
        Some(given) => given.0,
        None => DEFAULT_HANDSHAKE_TIMEOUT,
    };
    if session.waited < bound {
        return None;
    }
    let waited: u128 = session.waited;
    session.waited = 0;
    session.timed_out = Some(HandshakeTimedOut { waited });
    end_client_session(session);
    Some(waited)
}

// ---- laws ------------------------------------------------------------------------------------

/// Something that happens to a session while it has a lobby.
pub enum Happening {
    /// The local player's identity is looked at for a role to take.
    Adopt { local_player: Option<u128>, lobbies: Lobbies },
    Release { lobbies: Lobbies },
    Forget { lobbies: Lobbies },
    Seed { paused: bool, sampled: bool },
    Check {
        ours: Option<HandshakeModel>,
        host: HostSide,
        arrivals: Seq<(Option<u128>, HandshakeModel)>,
    },
    Welcome { welcome: TickedSessionWelcome },
    Depart { uuid: u128 },
    Wait { delta: u128, timeout: Option<HandshakeTimeout> },
}

/// A session after something has happened to it.
pub open spec fn after_one(session: SessionModel, happening: Happening) -> SessionModel {
    match happening {
        Happening::Adopt { local_player, lobbies } => adopted(session, local_player, lobbies),
        Happening::Release { lobbies } => released(session, lobbies),
        Happening::Forget { lobbies } => forgotten(session, lobbies),
        Happening::Seed { paused, sampled } => SessionModel {
            seeded: session.client is Some && (session.seeded || seeds(session, paused, sampled)),
            ..session
        },
        Happening::Check { ours, host, arrivals } => registry_checked(
            session,
            ours,
            host,
            arrivals,
        ).0,
        Happening::Welcome { welcome } => welcomed(session, welcome),
        Happening::Depart { uuid } => SessionModel {
            slots: session.slots.remove(uuid),
            ..session
        },
        Happening::Wait { delta, timeout } => waited_on(session, delta, timeout),
    }
}

/// A session after several things have happened to it.
pub open spec fn after_all(session: SessionModel, happenings: Seq<Happening>) -> SessionModel
    decreases happenings.len(),
{
    if happenings.len() == 0 {
        session
    } else {
        after_all(after_one(session, happenings[0]), happenings.skip(1))
    }
}

/// Whether there is a lobby while this happens.
pub open spec fn has_lobby(happening: Happening) -> bool {
    match happening {
        Happening::Adopt { lobbies, .. } => !no_lobby(lobbies),
        Happening::Release { lobbies } => !no_lobby(lobbies),
        Happening::Forget { lobbies } => !no_lobby(lobbies),
        _ => true,
    }
}

/// Whether a session is over for good: it holds no role, and it is kept from taking one.
pub open spec fn is_over(session: SessionModel) -> bool {
    &&& session.server is None
    &&& session.client is None
    &&& session.mismatch is Some || session.timed_out is Some
}

/// Whether a session is over for good because the registries differ.
pub open spec fn is_mismatched(session: SessionModel) -> bool {
    is_over(session) && session.mismatch is Some
}

proof fn lemma_check_keeps_over(
    session: SessionModel,
    ours: Option<HandshakeModel>,
    host: HostSide,
    arrivals: Seq<(Option<u128>, HandshakeModel)>,
)
    requires
        is_over(session),
    ensures
        is_over(registry_checked(session, ours, host, arrivals).0),
        session.mismatch is Some ==> registry_checked(session, ours, host, arrivals).0 == session,
    decreases arrivals.len(),
{
    if arrivals.len() > 0 && session.mismatch is None && ours is Some {
        let (next, events) = announcement_checked(
            session,
            ours->0,
            host,
            arrivals[0].0,
            arrivals[0].1,
        );
        lemma_check_keeps_over(next, ours, host, arrivals.skip(1));
    }
}

/// A session that is over, because the registries differ or because the host was never heard,
/// holds no role and takes none back for as long as its lobby is there, whatever else happens.
pub proof fn lemma_end_latches(session: SessionModel, happenings: Seq<Happening>)
    requires
        is_over(session),
        forall|k: int| 0 <= k < happenings.len() ==> has_lobby(#[trigger] happenings[k]),
    ensures
        is_over(after_all(session, happenings)),
        is_mismatched(session) ==> after_all(session, happenings).mismatch == session.mismatch,
    decreases happenings.len(),
{
    if happenings.len() > 0 {
        let next = after_one(session, happenings[0]);
        assert(has_lobby(happenings[0]));
        if let Happening::Check { ours, host, arrivals } = happenings[0] {
            lemma_check_keeps_over(session, ours, host, arrivals);
        }
        assert forall|k: int| 0 <= k < happenings.skip(1).len() implies has_lobby(
            #[trigger] happenings.skip(1)[k],
        ) by {
            assert(happenings.skip(1)[k] == happenings[k + 1]);
        }
        lemma_end_latches(next, happenings.skip(1));
    }
}

/// A session that ended may start again once its lobby has gone: nothing that ended it is left.
pub proof fn lemma_new_lobby_tries_again(session: SessionModel, uuid: u128, lobbies: Lobbies)
    requires
        is_over(session),
        !no_lobby(lobbies),
    ensures
        ({
            let gone = Lobbies { hosting: false, joined: false };
            role_to_adopt(forgotten(session, gone), Some(uuid), lobbies) is Some
        }),
{
}

proof fn lemma_check_keeps_consistent(
    session: SessionModel,
    ours: Option<HandshakeModel>,
    host: HostSide,
    arrivals: Seq<(Option<u128>, HandshakeModel)>,
)
    requires
        is_consistent(session),
    ensures
        is_consistent(registry_checked(session, ours, host, arrivals).0),
    decreases arrivals.len(),
{
    if arrivals.len() > 0 && session.mismatch is None && ours is Some {
        let (next, events) = announcement_checked(
            session,
            ours->0,
            host,
            arrivals[0].0,
            arrivals[0].1,
        );
        let peer = match arrivals[0].0 {
            Some(uuid) => uuid,
            None => 0,
        };
        lemma_with_slot_is_valid(session.slots, peer);
        lemma_check_keeps_consistent(next, ours, host, arrivals.skip(1));
    }
}

/// Whatever happens to a session, its peer holds at most one role and no two of its clients hold
/// the same slot.
pub proof fn lemma_session_stays_consistent(session: SessionModel, happenings: Seq<Happening>)
    requires
        is_consistent(session),
    ensures
        is_consistent(after_all(session, happenings)),
    decreases happenings.len(),
{
    if happenings.len() > 0 {
        if let Happening::Check { ours, host, arrivals } = happenings[0] {
            lemma_check_keeps_consistent(session, ours, host, arrivals);
        }
        if let Happening::Depart { uuid } = happenings[0] {
            assert(are_valid(session.slots.remove(uuid)));
        }
        lemma_session_stays_consistent(after_one(session, happenings[0]), happenings.skip(1));
    }
}

/// What announcements do to a host's own session: nothing but to hand out slots. Players on the
/// right build do not lose their game because another is on the wrong one.
pub proof fn lemma_host_is_untouched(
    session: SessionModel,
    ours: Option<HandshakeModel>,
    host: HostSide,
    arrivals: Seq<(Option<u128>, HandshakeModel)>,
)
    requires
        host.hosting,
    ensures
        ({
            let next = registry_checked(session, ours, host, arrivals).0;
            next == (SessionModel { slots: next.slots, ..session })
        }),
    decreases arrivals.len(),
{
    if arrivals.len() > 0 && session.mismatch is None && ours is Some {
        let (next, events) = announcement_checked(
            session,
            ours->0,
            host,
            arrivals[0].0,
            arrivals[0].1,
        );
        lemma_host_is_untouched(next, ours, host, arrivals.skip(1));
    }
}

/// A client counts its host as verified only where an announcement has agreed with its own.
pub proof fn lemma_verified_only_on_a_match(
    session: SessionModel,
    ours: Option<HandshakeModel>,
    host: HostSide,
    arrivals: Seq<(Option<u128>, HandshakeModel)>,
)
    requires
        session.verified is None,
        registry_checked(session, ours, host, arrivals).0.verified is Some,
    ensures
        ours matches Some(mine) && exists|k: int|
            0 <= k < arrivals.len() && agree(mine, (#[trigger] arrivals[k]).1),
    decreases arrivals.len(),
{
    if arrivals.len() > 0 && session.mismatch is None && ours is Some {
        let (next, events) = announcement_checked(
            session,
            ours->0,
            host,
            arrivals[0].0,
            arrivals[0].1,
        );
        if agree(ours->0, arrivals[0].1) {
            assert(agree(ours->0, arrivals[0].1));
        } else {
            let rest = arrivals.skip(1);
            lemma_verified_only_on_a_match(next, ours, host, rest);
            let k = choose|k: int| 0 <= k < rest.len() && agree(ours->0, (#[trigger] rest[k]).1);
            assert(arrivals[k + 1] == rest[k]);
        }
    }
}

/// Comparing announcements takes no slot away from a client.
proof fn lemma_check_keeps_slots(
    session: SessionModel,
    ours: Option<HandshakeModel>,
    host: HostSide,
    arrivals: Seq<(Option<u128>, HandshakeModel)>,
    uuid: u128,
)
    requires
        session.slots.contains_key(uuid),
    ensures
        ({
            let next = registry_checked(session, ours, host, arrivals).0;
            next.slots.contains_key(uuid) && next.slots[uuid] == session.slots[uuid]
        }),
    decreases arrivals.len(),
{
    if arrivals.len() > 0 && session.mismatch is None && ours is Some {
        let (next, events) = announcement_checked(
            session,
            ours->0,
            host,
            arrivals[0].0,
            arrivals[0].1,
        );
        lemma_check_keeps_slots(next, ours, host, arrivals.skip(1), uuid);
    }
}

/// A host welcomes only clients of its lobby whose registries agree with its own, each with the
/// slot that it holds from then on.
pub proof fn lemma_welcomed_only_on_a_match(
    session: SessionModel,
    ours: Option<HandshakeModel>,
    host: HostSide,
    arrivals: Seq<(Option<u128>, HandshakeModel)>,
    at: int,
)
    requires
        is_consistent(session),
        0 <= at < registry_checked(session, ours, host, arrivals).1.len(),
    ensures
        registry_checked(session, ours, host, arrivals).1[at] matches EventModel::Verified {
            client,
            welcome,
        } ==> {
            let holders = registry_checked(session, ours, host, arrivals).0.slots;
            &&& host.hosting
            &&& 0 <= client < host.clients@.len()
            &&& welcome.slot >= 1
            &&& holders.contains_key(host.clients@[client])
            &&& holders[host.clients@[client]] == welcome.slot
            &&& ours matches Some(mine) && exists|k: int|
                0 <= k < arrivals.len() && agree(mine, (#[trigger] arrivals[k]).1) && (
                arrivals[k].0 == Some(host.clients@[client]) || (arrivals[k].0 is None
                    && host.clients@[client] == 0))
        },
    decreases arrivals.len(),
{
    if arrivals.len() > 0 && session.mismatch is None && ours is Some {
        let (next, events) = announcement_checked(
            session,
            ours->0,
            host,
            arrivals[0].0,
            arrivals[0].1,
        );
        let rest = arrivals.skip(1);
        let more = registry_checked(next, ours, host, rest).1;
        let all = registry_checked(session, ours, host, arrivals).1;
        let peer = match arrivals[0].0 {
            Some(uuid) => uuid,
            None => 0,
        };
        lemma_with_slot_is_valid(session.slots, peer);
        if at < events.len() {
            assert(all[at] == events[at]);
            lemma_client_place(host.clients@, peer, 0);
            if all[at] is Verified {
                lemma_check_keeps_slots(next, ours, host, rest, peer);
            }
        } else {
            assert(all[at] == more[at - events.len()]);
            lemma_welcomed_only_on_a_match(next, ours, host, rest, at - events.len());
            if let EventModel::Verified { client, welcome } = all[at] {
                let mine = ours->0;
                let k = choose|k: int|
                    0 <= k < rest.len() && agree(mine, (#[trigger] rest[k]).1) && (rest[k].0
                        == Some(host.clients@[client]) || (rest[k].0 is None
                        && host.clients@[client] == 0));
                assert(arrivals[k + 1] == rest[k]);
            }
        }
    }
}

/// No two clients are welcomed with the same slot.
pub proof fn lemma_welcomed_slots_differ(
    session: SessionModel,
    ours: Option<HandshakeModel>,
    host: HostSide,
    arrivals: Seq<(Option<u128>, HandshakeModel)>,
    one: int,
    other: int,
)
    requires
        is_consistent(session),
        ({
            let told = registry_checked(session, ours, host, arrivals).1;
            &&& 0 <= one < told.len()
            &&& 0 <= other < told.len()
            &&& told[one] is Verified && told[other] is Verified
            &&& host.clients@[told[one]->client] != host.clients@[told[other]->client]
        }),
    ensures
        ({
            let told = registry_checked(session, ours, host, arrivals).1;
            told[one]->welcome.slot != told[other]->welcome.slot
        }),
{
    lemma_check_keeps_consistent(session, ours, host, arrivals);
    lemma_welcomed_only_on_a_match(session, ours, host, arrivals, one);
    lemma_welcomed_only_on_a_match(session, ours, host, arrivals, other);
}

proof fn lemma_client_place(clients: Seq<u128>, uuid: u128, from: int)
    requires
        0 <= from <= clients.len(),
    ensures
        from <= client_place(clients, uuid, from) <= clients.len(),
        client_place(clients, uuid, from) < clients.len() ==> clients[client_place(
            clients,
            uuid,
            from,
        )] == uuid,
    decreases clients.len() - from,
{
    if from < clients.len() && clients[from] != uuid {
        lemma_client_place(clients, uuid, from + 1);
    }
}

/// A peer that may mint a tracked entity decides what is true; a client never may and a host
/// always may.
pub proof fn lemma_spawning_is_stricter_than_authority(session: SessionModel, lobbies: Lobbies)
    requires
        is_consistent(session),
    ensures
        may_spawn(session.server, session.client, lobbies) ==> session.client is None,
        session.client is Some ==> !may_spawn(session.server, session.client, lobbies),
        session.server is Some ==> may_spawn(session.server, session.client, lobbies),
{
}

/// In the window between a lobby appearing and a role being taken, nobody may mint.
pub proof fn lemma_nobody_spawns_in_the_window(
    session: SessionModel,
    local_player: Option<u128>,
    lobbies: Lobbies,
)
    requires
        session.server is None,
        session.client is None,
        !no_lobby(lobbies),
    ensures
        !may_spawn(session.server, session.client, lobbies),
        ({
            let next = adopted(session, local_player, lobbies);
            may_spawn(next.server, next.client, lobbies) ==> next.server is Some
        }),
{
}

// ---- what becomes of every announcement ------------------------------------------------------

/// Announcements are looked at one by one: what comes of two lists of them, one behind the other,
/// is what comes of the first and, on what it leaves, of the second. Whatever an announcement was,
/// the ones behind it are looked at like any others.
pub proof fn lemma_announcements_are_checked_in_turn(
    session: SessionModel,
    ours: Option<HandshakeModel>,
    host: HostSide,
    one: Seq<(Option<u128>, HandshakeModel)>,
    other: Seq<(Option<u128>, HandshakeModel)>,
)
    ensures
        ({
            let (between, told) = registry_checked(session, ours, host, one);
            let (last, more) = registry_checked(between, ours, host, other);
            registry_checked(session, ours, host, one + other) == (last, told + more)
        }),
    decreases one.len(),
{
    let (between, told) = registry_checked(session, ours, host, one);
    let (last, more) = registry_checked(between, ours, host, other);
    if one.len() == 0 || session.mismatch is Some || ours is None {
        if one.len() == 0 {
            assert(one + other =~= other);
        }
        assert(told + more =~= more);
    } else {
        let (next, events) = announcement_checked(session, ours->0, host, one[0].0, one[0].1);
        lemma_announcements_are_checked_in_turn(next, ours, host, one.skip(1), other);
        assert((one + other).skip(1) =~= one.skip(1) + other);
        assert((one + other)[0] == one[0]);
        assert(registry_checked(session, ours, host, one + other).1 =~= told + more);
    }
}

/// Whoever announces: its player, or nobody's.
pub open spec fn announcer(sender: Option<u128>) -> u128 {
    if sender is Some {
        sender->0
    } else {
        0
    }
}

/// What a host answers an announcement with, given the slots that were held before and behind it.
pub open spec fn is_answer(
    had: Map<u128, u8>,
    have: Map<u128, u8>,
    mine: HandshakeModel,
    host: HostSide,
    arrival: (Option<u128>, HandshakeModel),
    answer: Seq<EventModel>,
) -> bool {
    let peer = announcer(arrival.0);
    if mine.components != arrival.1.components || mine.resources != arrival.1.resources {
        // Refused, with the difference, and nobody's slot changes.
        &&& answer == seq![
            EventModel::Refused { peer, difference: difference_text(mine, arrival.1) },
        ]
        &&& have == had
    } else if !host.clients@.contains(peer) {
        // Verified and gone: there is nobody to answer.
        answer.len() == 0 && have == had
    } else if had.len() == 255 && !had.contains_key(peer) {
        answer == seq![EventModel::SlotsTaken { uuid: peer }] && have == had
    } else {
        // Verified: it holds a slot that nobody else does, the one it had if it had one.
        &&& answer.len() == 1
        &&& answer[0] matches EventModel::Verified { client, welcome } && {
            &&& 0 <= client < host.clients@.len()
            &&& host.clients@[client] == peer
            &&& forall|k: int| 0 <= k < client ==> #[trigger] host.clients@[k] != peer
            &&& have.contains_key(peer) && have[peer] == welcome.slot
            &&& welcome.slot >= 1
            &&& had.contains_key(peer) ==> welcome.slot == had[peer]
            &&& forall|other: u128|
                other != peer && had.contains_key(other) ==> #[trigger] had[other] != welcome.slot
            &&& host.server_tick is Some ==> welcome.server_tick == host.server_tick->0
            &&& host.server_tick is None ==> welcome.server_tick == 0
            &&& host.send_every is Some ==> welcome.send_every == host.send_every->0
            &&& host.send_every is None ==> welcome.send_every == 1
        }
        &&& forall|other: u128| other != peer ==> (have.contains_key(other) <==> had.contains_key(
            other,
        )) && (had.contains_key(other) ==> #[trigger] have[other] == had[other])
    }
}

proof fn lemma_one_answer(
    session: SessionModel,
    mine: HandshakeModel,
    host: HostSide,
    arrival: (Option<u128>, HandshakeModel),
)
    requires
        is_consistent(session),
        session.mismatch is None,
        host.hosting,
    ensures
        ({
            let (next, told) = registry_checked(session, Some(mine), host, seq![arrival]);
            is_answer(session.slots, next.slots, mine, host, arrival, told)
        }),
{
    let alone = seq![arrival];
    let peer = announcer(arrival.0);
    assert(alone.skip(1) =~= Seq::empty());
    let (next, events) = announcement_checked(session, mine, host, arrival.0, arrival.1);
    assert(registry_checked(next, Some(mine), host, alone.skip(1)).1 =~= Seq::empty());
    let told = registry_checked(session, Some(mine), host, alone).1;
    assert(told =~= events);
    let clients = host.clients@;
    lemma_client_place(clients, peer, 0);
    lemma_place_is_the_first(clients, peer, 0);
    let place = client_place(clients, peer, 0);
    if agree(mine, arrival.1) && place < clients.len() {
        assert(clients.contains(clients[place]));
        lemma_next_slot_is_assigned(session.slots, peer);
        lemma_refused_only_when_full(
            session.slots,
            peer,
            with_slot(session.slots, peer),
            next_slot(session.slots, peer),
        );
        lemma_lowest_free_slot_is_given(
            session.slots,
            peer,
            with_slot(session.slots, peer),
            next_slot(session.slots, peer),
        );
        lemma_with_slot_is_valid(session.slots, peer);
    } else if clients.contains(peer) {
        let k = choose|k: int| 0 <= k < clients.len() && clients[k] == peer;
        assert(place <= k);
    }
}

proof fn lemma_place_is_the_first(clients: Seq<u128>, uuid: u128, from: int)
    requires
        0 <= from <= clients.len(),
    ensures
        forall|k: int|
            from <= k < client_place(clients, uuid, from) ==> #[trigger] clients[k] != uuid,
    decreases clients.len() - from,
{
    if from < clients.len() && clients[from] != uuid {
        lemma_place_is_the_first(clients, uuid, from + 1);
    }
}

/// On a host that has compared nothing wrong for itself, every announcement has its own answer,
/// whatever the others are, and the answers come in the order of arrival: a client that disagrees is
/// refused with the difference, and one of the lobby that agrees is verified with a slot, or told
/// that all are taken where 255 others hold one.
pub proof fn lemma_every_announcement_is_answered(
    session: SessionModel,
    mine: HandshakeModel,
    host: HostSide,
    arrivals: Seq<(Option<u128>, HandshakeModel)>,
    at: int,
)
    requires
        is_consistent(session),
        session.mismatch is None,
        host.hosting,
        0 <= at < arrivals.len(),
    ensures
        ({
            let told = registry_checked(session, Some(mine), host, arrivals).1;
            let (before_it, earlier) = registry_checked(
                session,
                Some(mine),
                host,
                arrivals.take(at),
            );
            let (behind_it, upto) = registry_checked(
                session,
                Some(mine),
                host,
                arrivals.take(at + 1),
            );
            &&& 0 <= earlier.len() <= upto.len() <= told.len()
            &&& earlier == told.take(earlier.len() as int)
            &&& is_answer(
                before_it.slots,
                behind_it.slots,
                mine,
                host,
                arrivals[at],
                told.subrange(earlier.len() as int, upto.len() as int),
            )
        }),
{
    let ours = Some(mine);
    let alone = seq![arrivals[at]];
    let (between, earlier) = registry_checked(session, ours, host, arrivals.take(at));
    lemma_check_keeps_consistent(session, ours, host, arrivals.take(at));
    lemma_host_is_untouched(session, ours, host, arrivals.take(at));
    lemma_one_answer(between, mine, host, arrivals[at]);
    lemma_announcements_are_checked_in_turn(session, ours, host, arrivals.take(at), alone);
    lemma_announcements_are_checked_in_turn(
        session,
        ours,
        host,
        arrivals.take(at + 1),
        arrivals.skip(at + 1),
    );
    assert(arrivals.take(at) + alone =~= arrivals.take(at + 1));
    assert(arrivals.take(at + 1) + arrivals.skip(at + 1) =~= arrivals);
    let (behind, answer) = registry_checked(between, ours, host, alone);
    let upto = registry_checked(session, ours, host, arrivals.take(at + 1)).1;
    let told = registry_checked(session, ours, host, arrivals).1;
    assert(upto == earlier + answer);
    assert(told.subrange(earlier.len() as int, upto.len() as int) =~= answer);
    assert(told.take(earlier.len() as int) =~= earlier);
}

/// The announcements that disagree with ours, in their order of arrival.
pub open spec fn disagreeing(
    mine: HandshakeModel,
    arrivals: Seq<(Option<u128>, HandshakeModel)>,
) -> Seq<(Option<u128>, HandshakeModel)> {
    arrivals.filter(
        |arrival: (Option<u128>, HandshakeModel)|
            mine.components != arrival.1.components || mine.resources != arrival.1.resources,
    )
}

/// The refusals among events, in order.
pub open spec fn refusals(events: Seq<EventModel>) -> Seq<EventModel> {
    events.filter(|event: EventModel| event is Refused)
}

/// The refusals of a host are exactly those of the announcements that disagree with its own, one
/// for each and in their order of arrival.
pub proof fn lemma_everyone_who_disagrees_is_refused(
    session: SessionModel,
    mine: HandshakeModel,
    host: HostSide,
    arrivals: Seq<(Option<u128>, HandshakeModel)>,
)
    requires
        is_consistent(session),
        session.mismatch is None,
        host.hosting,
    ensures
        refusals(registry_checked(session, Some(mine), host, arrivals).1) == disagreeing(
            mine,
            arrivals,
        ).map_values(
            |arrival: (Option<u128>, HandshakeModel)|
                EventModel::Refused {
                    peer: announcer(arrival.0),
                    difference: difference_text(mine, arrival.1),
                },
        ),
    decreases arrivals.len(),
{
    reveal(Seq::filter);
    let told = registry_checked(session, Some(mine), host, arrivals).1;
    let refusal = |arrival: (Option<u128>, HandshakeModel)|
        EventModel::Refused {
            peer: announcer(arrival.0),
            difference: difference_text(mine, arrival.1),
        };
    if arrivals.len() > 0 {
        let front = arrivals.drop_last();
        let last = arrivals.last();
        let at = arrivals.len() - 1;
        assert(arrivals.take(at) =~= front);
        assert(arrivals.take(at + 1) =~= arrivals);
        lemma_everyone_who_disagrees_is_refused(session, mine, host, front);
        lemma_every_announcement_is_answered(session, mine, host, arrivals, at);
        let earlier = registry_checked(session, Some(mine), host, front).1;
        let answer = told.subrange(earlier.len() as int, told.len() as int);
        assert(told =~= earlier + answer);
        Seq::filter_distributes_over_add(earlier, answer, |event: EventModel| event is Refused);
        if answer.len() > 0 {
            assert(answer.drop_last() =~= Seq::empty());
            assert(answer.drop_last().filter(|event: EventModel| event is Refused)
                =~= Seq::empty());
        }
        if mine.components != last.1.components || mine.resources != last.1.resources {
            assert(refusals(answer) =~= seq![refusal(last)]);
            assert(disagreeing(mine, arrivals) =~= disagreeing(mine, front).push(last));
            assert(disagreeing(mine, arrivals).map_values(refusal) =~= disagreeing(
                mine,
                front,
            ).map_values(refusal) + seq![refusal(last)]);
        } else {
            assert(refusals(answer) =~= Seq::empty());
            assert(disagreeing(mine, arrivals) =~= disagreeing(mine, front));
        }
    }
    assert(refusals(told) =~= disagreeing(mine, arrivals).map_values(refusal));
}

/// What one announcement is to a client whose session has no mismatch: the host's registries are
/// verified where both hashes are equal, and else the session is over, with what differed kept and
/// told.
pub proof fn lemma_announcement_to_a_client(
    session: SessionModel,
    mine: HandshakeModel,
    host: HostSide,
    arrival: (Option<u128>, HandshakeModel),
)
    requires
        session.mismatch is None,
        !host.hosting,
    ensures
        ({
            let (next, told) = registry_checked(session, Some(mine), host, seq![arrival]);
            let difference = difference_text(mine, arrival.1);
            if mine.components == arrival.1.components && mine.resources == arrival.1.resources {
                &&& told.len() == 0
                &&& next.verified is Some
                &&& next == (SessionModel { verified: next.verified, ..session })
            } else {
                &&& told == seq![EventModel::Ended { peer: announcer(arrival.0), difference }]
                &&& next.mismatch == Some(
                    MismatchModel {
                        peer: announcer(arrival.0),
                        ours: mine,
                        theirs: arrival.1,
                        difference,
                    },
                )
                &&& next.server is None && next.client is None
                &&& next.verified is None && next.spawner_slot is None
                &&& next.slots == session.slots && next.recipients == session.recipients
                &&& next.timed_out == session.timed_out && next.waited == session.waited
                &&& next.seeded == session.seeded && next.interpolation_delay
                    == session.interpolation_delay
            }
        }),
{
    let alone = seq![arrival];
    assert(alone.skip(1) =~= Seq::empty());
    let (next, events) = announcement_checked(session, mine, host, arrival.0, arrival.1);
    assert(registry_checked(next, Some(mine), host, alone.skip(1)) == (
        next,
        Seq::<EventModel>::empty(),
    ));
    assert(registry_checked(session, Some(mine), host, alone).1 =~= events);
}

/// A client ends its session exactly when one of the announcements disagrees with its own, whatever
/// the others are; and counts its host as verified exactly when there was one and all agreed.
pub proof fn lemma_client_ends_exactly_on_a_mismatch(
    session: SessionModel,
    mine: HandshakeModel,
    host: HostSide,
    arrivals: Seq<(Option<u128>, HandshakeModel)>,
)
    requires
        session.mismatch is None,
        session.verified is None,
        !host.hosting,
    ensures
        ({
            let next = registry_checked(session, Some(mine), host, arrivals).0;
            &&& next.mismatch is Some <==> disagreeing(mine, arrivals).len() > 0
            &&& next.verified is Some <==> arrivals.len() > 0 && disagreeing(mine, arrivals).len()
                == 0
            &&& next.mismatch is Some ==> next.client is None && next.server is None
        }),
    decreases arrivals.len(),
{
    reveal(Seq::filter);
    if arrivals.len() > 0 {
        let front = arrivals.drop_last();
        let alone = seq![arrivals.last()];
        lemma_client_ends_exactly_on_a_mismatch(session, mine, host, front);
        lemma_announcements_are_checked_in_turn(session, Some(mine), host, front, alone);
        assert(front + alone =~= arrivals);
        let between = registry_checked(session, Some(mine), host, front).0;
        if between.mismatch is None {
            lemma_announcement_to_a_client(between, mine, host, arrivals.last());
        }
    }
}

// ---- the welcome and the wait ----------------------------------------------------------------

/// A welcome gives its slot, and a delay of two of the host's sends and never less than two ticks;
/// nothing else changes, and only the last of several counts.
pub proof fn lemma_last_welcome_counts(
    session: SessionModel,
    one: TickedSessionWelcome,
    other: TickedSessionWelcome,
)
    requires
        2 * other.send_every <= u64::MAX,
    ensures
        welcomed(welcomed(session, one), other) == welcomed(session, other),
        ({
            let next = welcomed(session, other);
            &&& next.spawner_slot == Some(LocalSpawnerSlot(other.slot))
            &&& next.interpolation_delay matches Some(delay) && {
                &&& delay >= 2
                &&& delay >= other.send_every + other.send_every
                &&& other.send_every >= 1 ==> delay == other.send_every + other.send_every
                &&& other.send_every == 0 ==> delay == 2
            }
            &&& next == (SessionModel {
                spawner_slot: next.spawner_slot,
                interpolation_delay: next.interpolation_delay,
                ..session
            })
        }),
{
}

/// A client that has not heard its host's registries waits as long as its frames take together: two
/// frames count like one that is as long as both. It gives up in the frame in which its wait is as
/// long as it has patience for, and not before; it then holds no role, and says how long it waited.
pub proof fn lemma_wait_adds_up(
    session: SessionModel,
    one: u128,
    other: u128,
    timeout: Option<HandshakeTimeout>,
)
    requires
        session.client is Some,
        session.verified is None,
        session.waited + one + other <= u128::MAX,
    ensures
        ({
            let bound = match timeout {
                Some(given) => given.0,
                None => DEFAULT_HANDSHAKE_TIMEOUT,
            };
            let next = waited_on(session, one, timeout);
            &&& session.waited + one < bound ==> {
                &&& next == (SessionModel { waited: (session.waited + one) as u128, ..session })
                &&& waited_on(next, other, timeout) == waited_on(
                    session,
                    (one + other) as u128,
                    timeout,
                )
            }
            &&& session.waited + one >= bound ==> {
                &&& next.timed_out == Some(
                    HandshakeTimedOut { waited: (session.waited + one) as u128 },
                )
                &&& next.client is None && next.server is None
                &&& next.verified is None && next.spawner_slot is None
                &&& next.waited == 0
                &&& next.slots == session.slots && next.mismatch == session.mismatch
                &&& next.seeded == session.seeded && next.recipients == session.recipients
                &&& next.interpolation_delay == session.interpolation_delay
            }
        }),
{
}

/// Nobody but a client that has not heard its host's registries waits for them: anybody else only
/// starts to count anew.
pub proof fn lemma_only_unverified_clients_wait(
    session: SessionModel,
    delta: u128,
    timeout: Option<HandshakeTimeout>,
)
    requires
        session.client is None || session.verified is Some,
    ensures
        waited_on(session, delta, timeout) == (SessionModel { waited: 0, ..session }),
{
}

/// A longer timeout never makes a client give up that a shorter one would not.
pub proof fn lemma_patience_is_monotone(
    session: SessionModel,
    delta: u128,
    shorter: HandshakeTimeout,
    longer: HandshakeTimeout,
)
    requires
        shorter.0 <= longer.0,
        session.timed_out is None,
    ensures
        waited_on(session, delta, Some(longer)).timed_out is Some ==> waited_on(
            session,
            delta,
            Some(shorter),
        ).timed_out is Some,
{
}

// ---- roles -----------------------------------------------------------------------------------

/// A peer that holds no role, and is not kept from one, takes one in the first frame in which it has
/// a player and a lobby: the host's where it hosts, a client's where it has joined. Whoever holds
/// one, is kept from it or lacks either takes none, and nothing changes.
pub proof fn lemma_role_is_taken_once(
    session: SessionModel,
    local_player: Option<u128>,
    lobbies: Lobbies,
)
    ensures
        ({
            let next = adopted(session, local_player, lobbies);
            let free = session.server is None && session.client is None && session.mismatch is None
                && session.timed_out is None;
            &&& !free || local_player is None || !(lobbies.hosting || lobbies.joined) ==> next
                == session
            &&& free && local_player is Some && lobbies.hosting ==> next == (SessionModel {
                server: local_player,
                spawner_slot: Some(LocalSpawnerSlot(0)),
                ..session
            })
            &&& free && local_player is Some && !lobbies.hosting && lobbies.joined ==> next == (
            SessionModel { client: local_player, ..session })
            &&& adopted(next, local_player, lobbies) == next
            &&& role_to_adopt(session, local_player, lobbies) == (if next.server is Some
                && session.server is None {
                Some(Adopted::Host)
            } else if next.client is Some && session.client is None {
                Some(Adopted::Client)
            } else {
                None
            })
        }),
{
}

/// A peer keeps its role, and is kept from one, for as long as it has a lobby; without one it holds
/// none, nor anything that came with it, and nothing keeps it from the next.
pub proof fn lemma_role_goes_with_the_lobby(session: SessionModel, lobbies: Lobbies)
    ensures
        lobbies.hosting || lobbies.joined ==> released(session, lobbies) == session && forgotten(
            session,
            lobbies,
        ) == session,
        !lobbies.hosting && !lobbies.joined ==> {
            let next = released(session, lobbies);
            &&& next.server is None && next.client is None
            &&& session.server is Some || session.client is Some ==> next.verified is None
                && next.spawner_slot is None
            &&& session.server is None && session.client is None ==> next == session
            &&& next == (SessionModel {
                server: None,
                client: None,
                verified: next.verified,
                spawner_slot: next.spawner_slot,
                ..session
            })
            &&& forgotten(session, lobbies) == (SessionModel {
                mismatch: None,
                timed_out: None,
                ..session
            })
        },
{
}

/// A client seeds its buffer once: in the first frame in which it is paused and has sampled.
pub proof fn lemma_buffer_is_seeded_once(session: SessionModel, paused: bool, sampled: bool)
    ensures
        seeds(session, paused, sampled) ==> session.client is Some && paused && sampled,
        ({
            let next = after_one(session, Happening::Seed { paused, sampled });
            &&& session.client is Some && paused && sampled ==> seeds(session, paused, sampled)
                != session.seeded && next.seeded
            &&& session.client is Some && session.seeded ==> next.seeded
            &&& session.client is None ==> !next.seeded
            &&& next.seeded ==> !seeds(next, true, true)
            &&& next == (SessionModel { seeded: next.seeded, ..session })
        }),
{
}

/// Whoever reads the log is told of every client that is refused and of every session that ends: who
/// it is, and what differed; and of nothing where all is well.
pub proof fn lemma_event_says_who_and_why(event: EventModel)
    ensures
        match event {
            EventModel::Verified { .. } => event_text(event).len() == 0,
            EventModel::Refused { peer, difference } => contains(event_text(event), hex(peer as nat))
                && contains(event_text(event), difference),
            EventModel::SlotsTaken { uuid } => contains(event_text(event), hex(uuid as nat)),
            EventModel::Ended { peer, difference } => contains(event_text(event), hex(peer as nat))
                && contains(event_text(event), difference),
        },
{
    match event {
        EventModel::Verified { .. } => {},
        EventModel::Refused { peer, difference } => {
            lemma_contains_its_parts(
                "refusing client "@,
                hex(peer as nat),
                ": its registries do not match this build's ("@,
                difference,
                "). It will get no snapshot from this host. Build both peers from the same commit."@,
            );
        },
        EventModel::SlotsTaken { uuid } => {
            lemma_contains_what_stands_in_it(
                hex(uuid as nat),
                hex(uuid as nat),
                "refusing client "@,
                ": every spawner slot is taken"@,
            );
        },
        EventModel::Ended { peer, difference } => {
            lemma_contains_its_parts(
                "registry mismatch with the host "@,
                hex(peer as nat),
                ": "@,
                difference,
                ". Every wire index from the first difference onward means something else on the other machine, so the session is being ended rather than played out. Build both peers from the same commit."@,
            );
        },
    }
}

/// Announcements and events are seen as they are, one for one.
pub proof fn lemma_arrivals_and_events_are_seen_one_for_one(
    arrivals: Seq<(Option<u128>, TickedRegistryHandshake)>,
    events: Seq<HandshakeEvent>,
)
    ensures
        arrival_views(arrivals).len() == arrivals.len(),
        forall|k: int|
            0 <= k < arrivals.len() ==> #[trigger] arrival_views(arrivals)[k] == (
                arrivals[k].0,
                arrivals[k].1@,
            ),
        event_views(events).len() == events.len(),
        forall|k: int| 0 <= k < events.len() ==> #[trigger] event_views(events)[k] == events[k]@,
{
}

/// An event is seen with all that it carries.
pub proof fn lemma_event_is_seen_whole(event: HandshakeEvent)
    ensures
        match event {
            HandshakeEvent::Verified { client, welcome } => event@ == (EventModel::Verified {
                client: client as int,
                welcome,
            }),
            HandshakeEvent::Refused { peer, difference } => event@ == (EventModel::Refused {
                peer,
                difference: difference@,
            }),
            HandshakeEvent::SlotsTaken { uuid } => event@ == (EventModel::SlotsTaken { uuid }),
            HandshakeEvent::Ended { peer, difference } => event@ == (EventModel::Ended {
                peer,
                difference: difference@,
            }),
        },
{
}

} // verus!
