//! The registry handshake, the roles around it, and who is told the world.

use ticked_session::bridge::{
    copy_bytes, forward_outgoing_inputs, forward_outgoing_snapshots, forward_received_inputs,
    forward_received_snapshots, EnsembleInputMessage, EnsembleSnapshotMessage,
    NetworkInputPayload, Recipients,
};
use ticked_session::handshake::{
    HandshakeInstalled, HandshakeTimeout, LocalSpawnerSlot, RegistryMismatch, RegistryShape,
    RegistryVerified, TickedRegistryHandshake, TickedSessionWelcome, DEFAULT_HANDSHAKE_TIMEOUT,
};
use ticked_session::join::{
    announce_registry, check_registry, free_departed_slot, receive_welcome, refuse_after_timeout,
    Address, HandshakeEvent, HostSide,
};
use ticked_session::network::{role, Role};
use ticked_session::session::{
    adopt_role, count_recipients, forget_mismatch, is_authoritative, is_solo, may_spawn_tracked,
    release_role, seed_tick_buffer, Adopted, Lobbies, LobbyPeer, Session,
};
use ticked_session::slots::SpawnerSlots;

const MILLISECOND: u128 = 1_000_000;

const NO_LOBBY: Lobbies = Lobbies {
    hosting: false,
    joined: false,
};
const HOSTING: Lobbies = Lobbies {
    hosting: true,
    joined: false,
};
const JOINED: Lobbies = Lobbies {
    hosting: false,
    joined: true,
};

fn owned(names: &[&str]) -> Vec<String> {
    names.iter().map(|name| (*name).to_owned()).collect()
}

fn shape(hash: u64, names: &[&str]) -> RegistryShape {
    RegistryShape {
        wire_hash: hash,
        wire_names: owned(names),
    }
}

/// A peer mid-session, holding a client role and a one-entry registry.
struct Peer {
    session: Session,
    ours: TickedRegistryHandshake,
}

impl Peer {
    fn joined_client() -> Peer {
        let mut session = Session::new();
        session.client = Some(7);
        let mut peer = Peer {
            session,
            ours: TickedRegistryHandshake::from_registries(&shape(0x51, &["Pos"]), None),
        };
        peer.update(&[], 0, None);
        peer
    }

    /// One frame in a lobby this peer has joined.
    fn update(
        &mut self,
        arrivals: &[(Option<u128>, TickedRegistryHandshake)],
        delta: u128,
        timeout: Option<HandshakeTimeout>,
    ) -> Vec<HandshakeEvent> {
        adopt_role(&mut self.session, Some(7), JOINED);
        release_role(&mut self.session, JOINED);
        forget_mismatch(&mut self.session, JOINED);
        let side = HostSide {
            hosting: false,
            clients: Vec::new(),
            server_tick: None,
            send_every: None,
        };
        let events = check_registry(
            &mut self.session,
            Some(&self.ours),
            &side,
            &arrivals.to_vec(),
        );
        refuse_after_timeout(&mut self.session, delta, timeout);
        events
    }

    fn deliver(&mut self, theirs: TickedRegistryHandshake) -> Vec<HandshakeEvent> {
        self.update(&[(Some(9), theirs)], 0, None)
    }
}

fn handshake(components: &[&str], resources: &[&str]) -> TickedRegistryHandshake {
    TickedRegistryHandshake {
        components: components.len() as u64,
        resources: resources.len() as u64,
        component_names: owned(components),
        resource_names: owned(resources),
    }
}

#[test]
fn a_peer_with_the_same_registries_is_verified() {
    let mut app = Peer::joined_client();
    let same = app.ours.clone();
    app.deliver(same);

    assert!(
        app.session.mismatch.is_none(),
        "agreement is the common case and must cost nothing"
    );
    assert!(
        app.session.client.is_some(),
        "and must not disturb the session"
    );
    assert!(
        app.session.verified.is_some(),
        "a match is what lets the world in"
    );
}

#[test]
fn a_peer_with_a_different_component_registry_ends_the_session() {
    let mut app = Peer::joined_client();
    let mut theirs = app.ours.clone();
    theirs.components ^= 1;
    theirs.component_names.push("Health".to_owned());
    app.deliver(theirs);

    let mismatch = app.session.mismatch.as_ref().expect("latched");
    assert_eq!(
        mismatch.difference,
        "the peer registers component \"Health\" which this build does not"
    );
    assert!(
        app.session.client.is_none(),
        "the role is dropped, which is what clears the wrong-shaped world"
    );
    assert!(app.session.verified.is_none());
}

#[test]
fn a_peer_with_a_different_resource_registry_ends_the_session() {
    let mut app = Peer::joined_client();
    let mut theirs = app.ours.clone();
    theirs.resources ^= 1;
    app.deliver(theirs);

    assert!(app.session.mismatch.is_some());
    assert!(app.session.client.is_none());
}

#[test]
fn a_mismatch_is_not_retried_every_frame() {
    let mut app = Peer::joined_client();
    let mut theirs = app.ours.clone();
    theirs.components ^= 1;
    app.deliver(theirs);

    for _ in 0..8 {
        app.update(&[], 0, None);
    }
    assert!(
        app.session.mismatch.is_some(),
        "the two builds still differ eight frames later"
    );
    assert!(app.session.client.is_none());
}

#[test]
fn the_difference_names_the_first_registration_that_differs() {
    let ours = handshake(&["Health", "Pos"], &["Round"]);
    let theirs = handshake(&["Pos", "WeaponState"], &["Round"]);
    assert_eq!(
        ours.difference(&theirs),
        "component \"Health\" is registered on this build and not on the peer's"
    );
    assert_eq!(
        theirs.difference(&ours),
        "component \"WeaponState\" is registered on this build and not on the peer's"
    );
    let same_components = handshake(&["Pos"], &["Round"]);
    let extra_resource = handshake(&["Pos"], &["Round", "Score"]);
    assert_eq!(
        same_components.difference(&extra_resource),
        "the peer registers resource \"Score\" which this build does not"
    );
}

#[test]
fn a_one_sided_difference_mirrors() {
    let less = handshake(&["Pos"], &["Round"]);
    let more = handshake(&["Armour", "Pos"], &["Round"]);
    assert_eq!(
        less.difference(&more),
        "the peer registers component \"Armour\" which this build does not"
    );
    assert_eq!(
        more.difference(&less),
        "component \"Armour\" is registered on this build and not on the peer's"
    );
}

#[test]
fn a_version_difference_is_named_when_the_names_agree() {
    let ours = handshake(&["Pos"], &[]);
    let mut theirs = ours.clone();
    theirs.components ^= 1;
    assert!(ours.difference(&theirs).contains("protocol version"));
}

#[test]
fn a_handshake_is_read_off_the_registries() {
    let components = shape(5, &["Pos", "Vel"]);
    let resources = shape(6, &["Round"]);
    assert_eq!(
        TickedRegistryHandshake::from_registries(&components, Some(&resources)),
        TickedRegistryHandshake {
            components: 5,
            resources: 6,
            component_names: owned(&["Pos", "Vel"]),
            resource_names: owned(&["Round"]),
        }
    );
    let alone = TickedRegistryHandshake::of(Some(&components), None).expect("a registry");
    assert_eq!((alone.resources, alone.resource_names.len()), (0, 0));
    assert!(alone.matches(&alone.copy()));
    assert_eq!(alone.copy(), alone);
    assert!(TickedRegistryHandshake::of(None, Some(&resources)).is_none());

    let (to, sent) = announce_registry(Some(&components), None, true).expect("a registry");
    assert_eq!((to, sent), (Address::Client, alone.copy()));
    let (to, _) = announce_registry(Some(&components), None, false).expect("a registry");
    assert_eq!(to, Address::Lobby);
    assert!(announce_registry(None, None, true).is_none());
}

#[test]
fn slots_are_handed_out_lowest_free_first_and_given_back() {
    let mut slots = SpawnerSlots::default();
    assert_eq!(slots.assign(10), Some(1));
    assert_eq!(slots.assign(11), Some(2));
    assert_eq!(slots.assign(10), Some(1), "asking twice is the same slot");
    slots.free(10);
    assert_eq!(
        slots.assign(12),
        Some(1),
        "a freed slot is reused before a new one"
    );
    assert_eq!(slots.slot_of(11), Some(2));
    assert_eq!(slots.slot_of(10), None);
}

#[test]
fn slots_are_listed_and_counted() {
    let mut slots = SpawnerSlots::new();
    assert!(slots.is_empty());
    slots.assign(30);
    slots.assign(20);
    slots.assign(20);
    assert_eq!(slots.iter(), [(20, 2), (30, 1)]);
    assert_eq!(slots.len(), 2);
    slots.free(99);
    slots.free(30);
    assert_eq!(slots.iter(), [(20, 2)]);
    assert_eq!(slots.assign(30), Some(1), "a rejoin gets the lowest again");
    assert!(!slots.is_empty());
}

#[test]
fn the_two_hundred_and_fifty_sixth_client_is_refused() {
    let mut slots = SpawnerSlots::default();
    for uuid in 0..255u128 {
        assert!(slots.assign(uuid + 1000).is_some());
    }
    assert_eq!(slots.assign(5000), None);
}

#[test]
fn a_silent_host_is_given_up_on_after_the_timeout() {
    let mut app = Peer::joined_client();
    let timeout = Some(HandshakeTimeout(50 * MILLISECOND));
    // The first frame of a manual clock has no delta, so four updates are 30 ms.
    app.update(&[], 0, timeout);
    for _ in 0..3 {
        app.update(&[], 10 * MILLISECOND, timeout);
    }
    assert!(
        app.session.timed_out.is_none(),
        "not yet: 30 ms of a 50 ms timeout"
    );
    for _ in 0..3 {
        app.update(&[], 10 * MILLISECOND, timeout);
    }
    assert!(app.session.timed_out.is_some());
    assert!(app.session.client.is_none());
}

#[test]
fn the_wait_is_reset_and_its_length_is_told() {
    let mut session = Session::new();
    assert_eq!(refuse_after_timeout(&mut session, 7, None), None);
    assert_eq!(session.waited, 0, "nobody waits without a client role");

    session.client = Some(3);
    assert_eq!(
        refuse_after_timeout(&mut session, DEFAULT_HANDSHAKE_TIMEOUT - 1, None),
        None
    );
    session.verified = Some(RegistryVerified);
    assert_eq!(refuse_after_timeout(&mut session, 1, None), None);
    assert_eq!(session.waited, 0, "a match ends the wait");

    session.verified = None;
    session.spawner_slot = Some(LocalSpawnerSlot(4));
    assert_eq!(
        refuse_after_timeout(&mut session, DEFAULT_HANDSHAKE_TIMEOUT + 1, None),
        Some(DEFAULT_HANDSHAKE_TIMEOUT + 1)
    );
    assert_eq!(
        session.timed_out.expect("latched").waited,
        5_000_000_001,
        "what was waited is kept"
    );
    assert_eq!((session.client, session.spawner_slot), (None, None));
    assert_eq!(adopt_role(&mut session, Some(3), JOINED), None);
    forget_mismatch(&mut session, JOINED);
    assert!(session.timed_out.is_some());
    forget_mismatch(&mut session, NO_LOBBY);
    assert!(session.timed_out.is_none());
    assert_eq!(
        adopt_role(&mut session, Some(3), JOINED),
        Some(Adopted::Client)
    );
}

#[test]
fn a_client_that_never_completes_the_handshake_is_refused_after_the_timeout() {
    const FRAME: u128 = 15_625_000;
    let mut app = Peer::joined_client();
    let timeout = Some(HandshakeTimeout(500 * MILLISECOND));

    for _ in 0..16 {
        app.update(&[], FRAME, timeout);
    }
    assert_eq!(
        role(app.session.server, app.session.client),
        Role::Client,
        "a quarter of a second in, the client is still waiting"
    );
    assert!(
        app.session.timed_out.is_none(),
        "the timeout fired early"
    );

    for _ in 0..48 {
        app.update(&[], FRAME, timeout);
    }
    let timed_out = app
        .session
        .timed_out
        .expect("a second in, the client has given up");
    assert!(timed_out.waited >= 500 * MILLISECOND);
    assert_eq!(
        role(app.session.server, app.session.client),
        Role::Solo,
        "the role is dropped and not taken back"
    );
    assert!(app.session.verified.is_none());
}

// ---- the host's side -------------------------------------------------------------------------

fn host_side(clients: &[u128]) -> HostSide {
    HostSide {
        hosting: true,
        clients: clients.to_vec(),
        server_tick: Some(640),
        send_every: Some(3),
    }
}

#[test]
fn a_mismatched_client_is_told_which_registration_differs() {
    let theirs = handshake(
        &[
            "EntityKind",
            "Fuse",
            "PlayerSlot",
            "Pos",
            "Vel",
            "bevy_ticked::Owner",
        ],
        &[],
    );
    let ours = handshake(
        &[
            "EntityKind",
            "Fuse",
            "PlayerSlot",
            "Vel",
            "bevy_ticked::Owner",
        ],
        &[],
    );
    let mut bad = Peer::joined_client();
    bad.ours = ours.clone();
    let told = bad.update(&[(Some(1), theirs.clone())], 0, None);

    let mismatch: RegistryMismatch = bad.session.mismatch.clone().expect("found");
    assert_eq!(
        mismatch.difference,
        "the peer registers component \"Pos\" which this build does not"
    );
    assert_eq!(mismatch.peer, 1);
    assert_eq!(
        mismatch.theirs.component_names,
        [
            "EntityKind",
            "Fuse",
            "PlayerSlot",
            "Pos",
            "Vel",
            "bevy_ticked::Owner"
        ],
        "the host's sorted names travel with the handshake"
    );
    assert_eq!(
        mismatch.ours.component_names,
        [
            "EntityKind",
            "Fuse",
            "PlayerSlot",
            "Vel",
            "bevy_ticked::Owner"
        ]
    );
    assert_eq!(told.len(), 1);
    assert_eq!(
        told[0].message(),
        "registry mismatch with the host 0x1: the peer registers component \"Pos\" which this build \
         does not. Every wire index from the first difference onward means something else on the \
         other machine, so the session is being ended rather than played out. Build both peers \
         from the same commit."
    );

    // The host's side of the same story names the same registration.
    let mut host = Session::new();
    host.server = Some(1);
    let events = check_registry(
        &mut host,
        Some(&theirs),
        &host_side(&[0xA1]),
        &vec![(Some(0xA1), ours)],
    );
    let errors: Vec<String> = events.iter().map(|event| event.message()).collect();
    assert!(
        errors
            .iter()
            .any(|line| line.contains("refusing client") && line.contains("\"Pos\"")),
        "the host did not say which registration differs: {errors:?}"
    );
    assert_eq!(
        errors,
        [
            "refusing client 0xa1: its registries do not match this build's (component \"Pos\" is \
             registered on this build and not on the peer's). It will get no snapshot from this \
             host. Build both peers from the same commit."
        ]
    );
    assert_eq!(host.server, Some(1), "the host's own session is untouched");
    assert!(host.mismatch.is_none() && host.slots.is_empty());
}

#[test]
fn a_verified_client_gets_a_welcome_with_a_slot() {
    let registries = handshake(&["Pos"], &[]);
    let (first_uuid, second_uuid) = (2u128, 3u128);
    let mut host = Session::new();
    assert_eq!(
        adopt_role(&mut host, Some(1), HOSTING),
        Some(Adopted::Host)
    );
    let mut clients = [Session::new(), Session::new()];
    for client in &mut clients {
        adopt_role(client, Some(9), JOINED);
    }
    let side = host_side(&[first_uuid, second_uuid]);
    let events = check_registry(
        &mut host,
        Some(&registries),
        &side,
        &vec![
            (Some(first_uuid), registries.clone()),
            (Some(second_uuid), registries.clone()),
        ],
    );
    assert_eq!(events.len(), 2);
    for event in events {
        match event {
            HandshakeEvent::Verified { client, welcome } => {
                assert_eq!((welcome.server_tick, welcome.send_every), (640, 3));
                receive_welcome(&mut clients[client], &vec![welcome]);
            }
            _ => panic!("a matching client was refused"),
        }
    }
    let slot_on = |session: &Session| session.spawner_slot.map(|slot| slot.0);

    let first_slot = slot_on(&clients[0]).expect("the first client was welcomed");
    let second_slot = slot_on(&clients[1]).expect("the second client was welcomed");
    assert_ne!(
        first_slot, second_slot,
        "two clients were given the same slot"
    );
    assert!((1..=255).contains(&first_slot) && (1..=255).contains(&second_slot));
    assert_eq!(slot_on(&host), Some(0), "the host mints as the authority");
    assert_eq!(
        clients[0].interpolation_delay,
        Some(6),
        "remote bodies are drawn two sends behind"
    );

    assert_eq!(host.slots.slot_of(first_uuid), Some(first_slot));
    assert_eq!(host.slots.slot_of(second_uuid), Some(second_slot));
    assert_eq!(host.slots.len(), 2);

    // A slot goes back when its client does, and a rejoin is welcomed again.
    assert_eq!(
        free_departed_slot(&mut host, Some(first_uuid)),
        Some(first_uuid)
    );
    release_role(&mut clients[0], NO_LOBBY);
    assert_eq!(
        host.slots.slot_of(first_uuid),
        None,
        "the slot was not freed when the client left"
    );
    assert_eq!(
        slot_on(&clients[0]),
        None,
        "the client kept a slot from a session it is no longer in"
    );
    assert_eq!(free_departed_slot(&mut host, None), None);

    adopt_role(&mut clients[0], Some(9), JOINED);
    let events = check_registry(
        &mut host,
        Some(&registries),
        &side,
        &vec![(Some(first_uuid), registries.clone())],
    );
    let again = match &events[..] {
        [HandshakeEvent::Verified { welcome, .. }] => welcome.slot,
        _ => panic!("the rejoined client was never welcomed again"),
    };
    assert_eq!(host.slots.slot_of(first_uuid), Some(again));
    assert_ne!(again, second_slot);
}

#[test]
fn the_new_host_hands_out_spawner_slots_from_one() {
    let b_uuid = 3u128;
    let registries = handshake(&["Pos"], &[]);
    // A peer that was a client, and holds its old slot, becomes the host of the next session.
    let mut a = Session::new();
    adopt_role(&mut a, Some(2), JOINED);
    let welcome = TickedSessionWelcome {
        slot: 2,
        server_tick: 5,
        send_every: 1,
    };
    receive_welcome(&mut a, &vec![welcome]);
    release_role(&mut a, NO_LOBBY);
    adopt_role(&mut a, Some(2), HOSTING);
    let mut b = Session::new();
    adopt_role(&mut b, Some(b_uuid), JOINED);
    let events = check_registry(
        &mut a,
        Some(&registries),
        &host_side(&[b_uuid]),
        &vec![(Some(b_uuid), registries.clone())],
    );
    if let [HandshakeEvent::Verified { welcome, .. }] = &events[..] {
        receive_welcome(&mut b, &vec![*welcome]);
    }
    assert_eq!(
        a.slots.iter(),
        [(b_uuid, 1)],
        "only b holds a slot, and the old session's assignments are gone"
    );
    assert_eq!(b.spawner_slot.map(|slot| slot.0), Some(1));
}

#[test]
fn a_full_house_and_a_departed_client_are_not_welcomed() {
    let registries = handshake(&["Pos"], &[]);
    let mut host = Session::new();
    host.server = Some(1);
    for uuid in 1000..1255u128 {
        host.slots.assign(uuid);
    }
    let events = check_registry(
        &mut host,
        Some(&registries),
        &host_side(&[5000]),
        &vec![
            (Some(5000), registries.clone()),
            (Some(6000), registries.clone()),
        ],
    );
    assert_eq!(events.len(), 1, "nobody is told of a client that has gone");
    assert_eq!(
        events[0].message(),
        "refusing client 0x1388: every spawner slot is taken"
    );
    assert_eq!(host.slots.len(), 255);

    // Without registries of its own a peer compares nothing.
    assert!(check_registry(
        &mut host,
        None,
        &host_side(&[5000]),
        &vec![(Some(5000), registries)]
    )
    .is_empty());
}

#[test]
fn a_welcome_without_a_clock_takes_the_defaults() {
    let registries = handshake(&["Pos"], &[]);
    let mut host = Session::new();
    let side = HostSide {
        hosting: true,
        clients: vec![0],
        server_tick: None,
        send_every: None,
    };
    let events = check_registry(
        &mut host,
        Some(&registries),
        &side,
        &vec![(None, registries.clone())],
    );
    match &events[..] {
        [HandshakeEvent::Verified { client: 0, welcome }] => assert_eq!(
            *welcome,
            TickedSessionWelcome {
                slot: 1,
                server_tick: 0,
                send_every: 1
            }
        ),
        _ => panic!("a sender without a name is player zero"),
    }
    assert_eq!(events[0].message(), "");

    let mut client = Session::new();
    receive_welcome(&mut client, &vec![]);
    assert_eq!(client.interpolation_delay, None);
    let welcome = |slot, send_every| TickedSessionWelcome {
        slot,
        server_tick: 0,
        send_every,
    };
    receive_welcome(&mut client, &vec![welcome(4, 9), welcome(5, 0)]);
    assert_eq!(client.interpolation_delay, Some(2), "the last one counts");
    assert_eq!(client.spawner_slot, Some(LocalSpawnerSlot(5)));
}

// ---- roles -----------------------------------------------------------------------------------

#[test]
fn a_host_is_adopted_from_the_backend_identity_and_not_the_placeholder() {
    let mut app = Session::new();
    for _ in 0..3 {
        assert_eq!(
            adopt_role(&mut app, None, HOSTING),
            None,
            "until the backend knows the identity, there is none"
        );
    }
    assert_eq!(app.server, None, "and no role is taken from that");

    let roster_uuid = 0xDEAD_BEEF;
    for _ in 0..3 {
        adopt_role(&mut app, Some(roster_uuid), HOSTING);
    }
    assert_eq!(
        app.server,
        Some(roster_uuid),
        "and so does the role: it carries the backend's uuid"
    );
}

#[test]
fn a_session_that_is_never_given_a_new_host_ends_with_its_lobby() {
    let mut client = Session::new();
    adopt_role(&mut client, Some(2), JOINED);
    client.verified = Some(RegistryVerified);
    release_role(&mut client, JOINED);
    assert_eq!(role(client.server, client.client), Role::Client);
    release_role(&mut client, NO_LOBBY);
    assert_eq!(role(client.server, client.client), Role::Solo);
    assert!(client.verified.is_none() && client.spawner_slot.is_none());
}

#[test]
fn spawning_is_stricter_than_authority() {
    for (server, client, lobbies, solo, authoritative, may) in [
        (None, None, NO_LOBBY, true, true, true),
        (None, None, JOINED, true, true, false),
        (None, None, HOSTING, true, true, false),
        (Some(1), None, HOSTING, false, true, true),
        (Some(1), None, NO_LOBBY, false, true, true),
        (None, Some(2), JOINED, false, false, false),
        (None, Some(2), NO_LOBBY, false, false, false),
    ] {
        assert_eq!(is_solo(server, client), solo);
        assert_eq!(is_authoritative(client), authoritative);
        assert_eq!(may_spawn_tracked(server, client, lobbies), may);
    }
}

#[test]
fn the_buffer_is_seeded_once_a_join() {
    let mut session = Session::new();
    assert!(!seed_tick_buffer(&mut session, true, true), "not a client");
    session.client = Some(4);
    assert!(!seed_tick_buffer(&mut session, true, false), "no ping yet");
    assert!(!seed_tick_buffer(&mut session, false, true), "too late");
    assert!(seed_tick_buffer(&mut session, true, true));
    assert!(!seed_tick_buffer(&mut session, true, true), "once");
    session.client = None;
    assert!(!seed_tick_buffer(&mut session, true, true));
    session.client = Some(4);
    assert!(
        seed_tick_buffer(&mut session, true, true),
        "the next join gets a fresh seed"
    );
}

// ---- the bridge ------------------------------------------------------------------------------

#[test]
fn snapshots_go_to_verified_clients_only() {
    let (good, bad, pending) = (2u128, 3u128, 4u128);
    let mut host = Session::new();
    let peer = |uuid, verified| LobbyPeer { uuid, verified };
    assert!(count_recipients(
        &mut host,
        &vec![peer(good, true), peer(bad, false)]
    ));
    assert_eq!(host.recipients, [good]);
    assert!(!count_recipients(
        &mut host,
        &vec![peer(good, true), peer(bad, false), peer(pending, false)]
    ));
    assert_eq!(host.recipients, [good]);

    // Finishing the join is what earns a snapshot.
    assert!(count_recipients(
        &mut host,
        &vec![peer(good, true), peer(bad, false), peer(pending, true)]
    ));
    assert_eq!(host.recipients, [good, pending]);

    let sent = forward_outgoing_snapshots(true, Some(&host.recipients), &vec![7, 8])
        .expect("there is a lobby");
    assert_eq!(sent.to, Recipients::These(vec![good, pending]));
    assert_eq!(sent.times, 2, "counted once for each of them");
}

#[test]
fn no_snapshot_is_applied_before_the_registry_handshake_matches() {
    let message = |byte| EnsembleSnapshotMessage { bytes: vec![byte] };
    let messages = vec![message(1), message(2)];
    let held = forward_received_snapshots(Some(HandshakeInstalled), None, &messages);
    assert!(held.packets.is_empty());
    assert_eq!(held.dropped_before_handshake, 2);

    let let_in = forward_received_snapshots(
        Some(HandshakeInstalled),
        Some(RegistryVerified),
        &messages,
    );
    assert_eq!(let_in.packets, [vec![1], vec![2]]);
    assert_eq!(let_in.dropped_before_handshake, 0);

    let unguarded = forward_received_snapshots(None, None, &messages);
    assert_eq!(unguarded.packets.len(), 2, "no handshake is going to come");
}

#[test]
fn an_outgoing_snapshot_is_measured_as_it_is_packed() {
    assert!(forward_outgoing_snapshots(false, None, &vec![1]).is_none());
    let bytes: Vec<u8> = (0..300).map(|n| (n % 251) as u8).collect();
    let sent = forward_outgoing_snapshots(true, None, &bytes).expect("there is a lobby");
    assert_eq!(sent.message.bytes, bytes);
    assert_eq!(copy_bytes(&bytes), bytes);
    let packed = postcard::to_allocvec(&bytes).expect("plain bytes");
    assert_eq!(sent.size, packed.len());
    assert_eq!(sent.size, 302, "two bytes of length come in front");
    assert_eq!(sent.to, Recipients::Everyone, "nobody keeps a list");
    assert_eq!(sent.times, 1);
    let none = forward_outgoing_snapshots(true, Some(&vec![]), &bytes).expect("there is a lobby");
    assert_eq!((none.to, none.times), (Recipients::These(vec![]), 1));
}

#[test]
fn the_inputs_of_a_message_come_in_tick_order() {
    let payload = |inputs: Vec<(u64, char)>| EnsembleInputMessage {
        payload: NetworkInputPayload { inputs },
    };
    let forwarded = forward_received_inputs(vec![
        (Some(5), payload(vec![(9, 'a'), (7, 'b'), (9, 'e'), (8, 'f')])),
        (None, payload(vec![(8, 'c')])),
        (Some(6), payload(vec![(7, 'd')])),
    ]);
    let list: Vec<(u64, u128, char)> = forwarded
        .inputs
        .iter()
        .map(|input| (input.tick, input.sender, input.input))
        .collect();
    assert_eq!(list, [(7, 5, 'b'), (8, 5, 'f'), (9, 5, 'a'), (9, 5, 'e'), (7, 6, 'd')]);
    assert_eq!(forwarded.skipped, 1);

    assert!(forward_outgoing_inputs(false, vec![(1u64, 'x')]).is_none());
    let sent = forward_outgoing_inputs(true, vec![(1u64, 'x')]).expect("there is a lobby");
    assert_eq!(sent.payload.inputs, [(1, 'x')]);
}
