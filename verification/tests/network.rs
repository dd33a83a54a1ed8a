//! The network of a test: its peers, its frames, its packets, and what is said of them.

use std::collections::{BTreeMap, BTreeSet};

use ticked_session::agreement::{
    assert_all_peers_agree, assert_all_peers_agree_since, assert_bandwidth_within,
    assert_converged, assert_ids_unique, assert_no_id_unissued, assert_replays_within,
    compared_ticks, compared_ticks_since, first_divergence, first_divergence_since, tracked_ids,
    BandwidthFailure, ChecksumLog, ConvergeFailure, Disagreement, Divergence, IdFailure,
    ReplayFailure,
};
use ticked_session::fixtures::minimal::{
    apply_inputs, burn_fuses, fire_pellets, integrate, seat_everyone, spawn_player, Body,
    EntityKind, Fuse, Input, MinimalHash, PlayerSlot, Pos, Vel, PELLET, PELLET_LIFE, PLAYER,
};
use ticked_session::input::{queue_input, ActionScript, ScriptStep};
use ticked_session::input_queue::InputQueueView;
use ticked_session::measure::{
    measure_input_latency, measure_snapshot_size, measure_tick_cost, measure_tick_rate,
    AlreadyMoved, TickCostReport,
};
use ticked_session::network::{
    lead, role, trails_host_by, FrameLength, PeerId, PeerView, Role, TickedNetwork,
};
use ticked_session::packets::{PacketFate, SentPacket, SnapshotOnWire, WireMessage};
use ticked_session::peer::{
    peer_app_with, PeerPart, PeerRecipe, TickSource, HOST_UUID, TICK,
};
use ticked_session::replay_check::{
    divergence_words, ReplayAction, ReplayCheck, ReplayEvent, ReplayProblem,
};

// ---- peers -----------------------------------------------------------------------------------

#[test]
fn peers_are_numbered_and_come_and_go() {
    let mut net = TickedNetwork::client_server(2);
    assert_eq!(net.host(), PeerId(0));
    assert_eq!(net.uuid(net.host()), HOST_UUID);
    assert_eq!(net.peers(), [PeerId(0), PeerId(1), PeerId(2)]);
    assert_eq!(net.clients(), [PeerId(1), PeerId(2)]);
    assert_eq!(net.client(), Some(PeerId(1)));
    assert_eq!(net.uuid(PeerId(2)), 3);
    assert_eq!(net.peer_by_uuid(3), Some(PeerId(2)));
    assert_eq!(net.peer_by_uuid(9), None);
    assert_eq!(TickedNetwork::client_server(0).client(), None);

    let pending = net.add_pending_client();
    let late = net.add_client();
    assert_eq!((pending, late), (PeerId(3), PeerId(4)));
    assert_eq!((net.uuid(pending), net.uuid(late)), (4, 5));
    net.promote(pending);
    net.leave(PeerId(1));
    net.disconnect(PeerId(2));
    net.half_open(late);
    assert!(!net.attached().contains(&PeerId(1)));
    net.rejoin(PeerId(1));
    net.reconnect(PeerId(2));
    assert_eq!(net.attached(), net.peers()[..4], "who is not heard is left out");
    net.reconnect(late);
    assert_eq!(net.attached(), net.peers());
    assert_eq!(net.uuid(PeerId(1)), 2, "a rejoin keeps its uuid");
    net.rehost(PeerId(1));
    assert_eq!(net.host(), PeerId(1));
}

#[test]
fn roles_and_leads_are_read_off_a_peer() {
    assert_eq!(role(Some(1), None), Role::Host);
    assert_eq!(role(None, Some(2)), Role::Client);
    assert_eq!(role(None, None), Role::Solo);
    assert_eq!(lead(17, 12), 5);
    assert_eq!(lead(12, 17), -5);
    assert_eq!(lead(u64::MAX, u64::MAX - 3), 3);
    assert_eq!(trails_host_by(17, 12), 5);
    assert_eq!(trails_host_by(12, 17), -lead(17, 12));
}

#[test]
fn a_peer_is_built_in_order() {
    let recipe = PeerRecipe::default();
    assert_eq!(recipe, PeerRecipe::for_uuid(HOST_UUID));
    assert_eq!(
        peer_app_with(recipe, false),
        [
            PeerPart::Engine,
            PeerPart::ManualClock { frame: 15_625_000 },
            PeerPart::TickLoop {
                source: TickSource::Hz(64)
            },
            PeerPart::Lobby,
            PeerPart::Identity { uuid: 1 },
            PeerPart::Game,
            PeerPart::Finish,
        ]
    );
    let recipe = PeerRecipe {
        history: Some(64),
        netsim: true,
        ..PeerRecipe::for_uuid(7)
    };
    let parts = peer_app_with(recipe, true);
    assert_eq!(parts.len(), 10);
    assert_eq!(
        parts[4..8],
        [
            PeerPart::NetSim,
            PeerPart::Identity { uuid: 7 },
            PeerPart::History { ticks: 64 },
            PeerPart::Roles,
        ]
    );
    assert_eq!(64 * TICK, 1_000_000_000);
}

// ---- frames ----------------------------------------------------------------------------------

#[test]
fn one_step_is_exactly_one_tick() {
    let mut net = TickedNetwork::client_server(0);
    let plan = net.step();
    assert_eq!(
        plan.updates,
        [1],
        "one frame of TICK on a 64 Hz source must be exactly one tick"
    );
    assert_eq!(measure_tick_rate(40, 40 + 32), 32, "one a frame over 32 frames");
}

#[test]
fn a_slow_and_a_fast_peer_keep_wall_time() {
    let mut net = TickedNetwork::client_server(2);
    net.set_ticks_per_frame(PeerId(1), 3, 1);
    net.set_ticks_per_frame(PeerId(2), 1, 2);
    let mut runs = [0u32; 3];
    let mut first = Vec::new();
    for frame in 0..12 {
        let plan = net.step();
        if frame < 4 {
            first.push(plan.updates[1]);
        }
        for (peer, updates) in plan.updates.iter().enumerate() {
            runs[peer] += updates;
        }
    }
    assert_eq!(first, [1, 0, 0, 1]);
    assert_eq!(runs, [12, 4, 24]);

    net.set_ticks_per_frame(PeerId(1), 1, 1);
    net.step();
    assert_eq!(net.updates_for(PeerId(1)), 1, "back to the network's rate");
    assert_eq!(net.updates_for(PeerId(2)), 2);
}

#[test]
fn a_frozen_peer_has_one_long_frame_behind_it() {
    let mut net = TickedNetwork::client_server(2);
    let plan = net.freeze(PeerId(1), 15_625_000, 64);
    assert_eq!(plan.others, [PeerId(0), PeerId(2)]);
    assert_eq!(plan.long_frame, 1_000_000_000);
    assert_eq!(
        net.step().restore,
        [FrameLength {
            peer: PeerId(1),
            frame: 15_625_000
        }]
    );
    assert!(net.step().restore.is_empty(), "put back once");

    // A freeze is no frame of the cadences: a slow peer goes on where it stood.
    let mut net = TickedNetwork::client_server(2);
    net.set_ticks_per_frame(PeerId(2), 3, 1);
    assert_eq!(net.step().updates[2], 1);
    net.freeze(PeerId(1), 15_625_000, 5);
    let runs: Vec<u32> = (0..4).map(|_| net.step().updates[2]).collect();
    assert_eq!(runs, [0, 0, 1, 0]);

    let lengths = vec![FrameLength {
        peer: PeerId(0),
        frame: 5,
    }];
    let long = TickedNetwork::step_frame_with_ticks(&lengths, 8);
    assert_eq!(long.length, 125_000_000);
    assert_eq!(long.restore, lengths);
}

#[test]
fn waits_end() {
    assert_eq!(TickedNetwork::run_until(3, 0, false), None);
    assert_eq!(TickedNetwork::run_until(3, 2, true), Some(true));
    assert_eq!(TickedNetwork::run_until(3, 3, false), Some(false));
    assert_eq!(TickedNetwork::run_until_tick(3, 1, 9, 10), None);
    assert_eq!(TickedNetwork::run_until_tick(3, 1, 10, 10), Some(true));
    assert_eq!(
        TickedNetwork::adopt_roles(5, 0, &vec![Role::Host, Role::Solo]),
        None
    );
    assert_eq!(
        TickedNetwork::adopt_roles(5, 0, &vec![Role::Host, Role::Client]),
        Some(true)
    );
}

#[test]
fn a_settled_client_leads_its_host() {
    let host = PeerView {
        role: Role::Host,
        tick: 50,
        applied: None,
    };
    let client = |tick, applied| PeerView {
        role: Role::Client,
        tick,
        applied,
    };
    let settle = |peer| TickedNetwork::settle(400, 9, 50, &vec![host, peer]);
    assert_eq!(settle(client(51, Some(48))), Some(true));
    assert_eq!(settle(client(50, Some(48))), None, "it does not lead");
    assert_eq!(settle(client(60, None)), None, "nothing has been applied");
    let solo = PeerView {
        role: Role::Solo,
        ..client(60, Some(1))
    };
    assert_eq!(settle(solo), None);
    assert_eq!(
        TickedNetwork::settle(400, 400, 50, &vec![solo]),
        Some(false)
    );
}

// ---- packets ---------------------------------------------------------------------------------

const SNAPSHOT: Option<u16> = Some(3);
const INPUT: Option<u16> = Some(5);

fn message(index: u16, body: Vec<u8>) -> WireMessage {
    WireMessage {
        index: Some(index),
        body,
    }
}

fn packet(from: usize, to: usize, frame: u64, messages: Vec<WireMessage>) -> SentPacket {
    let bytes = messages.iter().map(|one| one.body.len() + 2).sum();
    SentPacket {
        from: PeerId(from),
        to: PeerId(to),
        frame,
        bytes,
        messages,
        fate: PacketFate::Delivered { at_frame: frame + 2 },
    }
}

#[test]
fn traced_packets_are_found_by_what_they_carry() {
    let envelope = |bytes: &[u8]| postcard::to_allocvec(&bytes.to_vec()).expect("plain bytes");
    let mut net = TickedNetwork::client_server(1);
    let (host, client) = (PeerId(0), PeerId(1));
    net.note_packet(packet(0, 1, 1, vec![message(3, envelope(&[9]))]));
    assert!(net.trace().is_empty(), "nothing is recorded until asked for");

    net.trace_packets();
    net.note_packet(packet(
        0,
        1,
        2,
        vec![message(3, envelope(&[1, 2, 3])), message(5, vec![7])],
    ));
    net.note_packet(packet(1, 0, 3, vec![message(5, vec![8])]));
    let mut lost = packet(0, 1, 4, vec![message(3, envelope(&[4]))]);
    lost.fate = PacketFate::Lost;
    net.note_packet(lost.clone());
    // Cut short inside its bytes: it does not unpack.
    net.note_packet(packet(0, 1, 5, vec![message(3, vec![4, 1])]));
    let mut twice = packet(
        0,
        1,
        6,
        vec![
            message(3, envelope(&[5, 6])),
            WireMessage {
                index: None,
                body: vec![1],
            },
        ],
    );
    twice.fate = PacketFate::Duplicated {
        first: 8,
        second: 9,
    };
    net.note_packet(twice.clone());

    assert!(!lost.was_delivered() && twice.was_delivered());
    assert!(twice.carries(3) && !twice.carries(5));
    assert_eq!(net.snapshot_packets(host, client, SNAPSHOT).len(), 4);
    assert_eq!(net.snapshot_packets(host, client, SNAPSHOT)[1], lost);
    assert!(net.snapshot_packets(host, client, None).is_empty());
    assert_eq!(net.input_packets(client, host, INPUT).len(), 1);

    let sent = net.snapshots_sent(host, client, SNAPSHOT);
    assert_eq!(
        sent[0],
        SnapshotOnWire {
            frame: 2,
            bytes: 9,
            delivered: true
        }
    );
    assert!(!sent[1].delivered);
    let inputs = net.inputs_sent(host, client, INPUT);
    assert_eq!((inputs.len(), inputs[0].frame, inputs[0].bytes), (1, 2, 9));

    assert_eq!(
        net.decode_snapshots(host, client, SNAPSHOT),
        [vec![1, 2, 3], vec![4], vec![5, 6]],
        "what was sent is what is read back, and what does not unpack is skipped"
    );
    assert_eq!(
        net.decode_messages(host, client, INPUT),
        [vec![7]],
        "a message comes without its index"
    );
    let traced = net.decode_messages_traced(host, client, SNAPSHOT);
    let when: Vec<(u64, Option<u64>)> = traced
        .iter()
        .map(|one| (one.sent_frame, one.arrived_frame))
        .collect();
    assert_eq!(
        when,
        [(2, Some(4)), (4, None), (5, Some(7)), (6, Some(8))]
    );

    let totals = measure_snapshot_size(&sent, 2);
    assert_eq!(
        (totals.total_bytes, totals.max_bytes, totals.packets),
        (4 + 4 + 8, 8, 3)
    );
    assert_eq!(measure_snapshot_size(&sent, 100).packets, 0);

    assert_eq!(net.take_trace().len(), 5);
    assert!(net.trace().is_empty());
}

// ---- ids -------------------------------------------------------------------------------------

#[test]
fn assert_no_id_unissued_fails_when_a_client_mints() {
    let mut net = TickedNetwork::client_server(1);
    net.record_issued_ids(&vec![]);
    for _ in 0..20 {
        net.step();
        net.after_frame(&vec![1, 2]);
    }
    assert!(assert_no_id_unissued(net.issued_ids(), &vec![vec![1, 2]]).is_ok());

    match assert_no_id_unissued(net.issued_ids(), &vec![vec![1, 2], vec![1, 10_001]]) {
        Err(IdFailure::Unissued { client, ids }) => {
            assert_eq!((client, ids), (1, vec![10_001]), "the minted id is named")
        }
        other => panic!("a minted id went unnoticed: {other:?}"),
    }
}

#[test]
fn ids_are_noted_and_compared() {
    let mut net = TickedNetwork::client_server(1);
    assert!(net.issued_ids().is_none());
    assert!(matches!(
        assert_no_id_unissued(net.issued_ids(), &vec![]),
        Err(IdFailure::NotRecorded)
    ));
    net.after_frame(&vec![8]);
    assert!(net.issued_ids().is_none(), "noting starts when it is asked for");
    net.record_issued_ids(&vec![4]);
    net.after_frame(&vec![6, 4]);
    assert_eq!(net.issued_ids(), Some(&BTreeSet::from([4, 6])));

    assert_eq!(tracked_ids(&vec![5, 1, 5, 3]), [1, 3, 5, 5]);
    assert_eq!(assert_ids_unique(&vec![1, 3, 5, 5, 5, 9, 9]), Err(vec![5, 5, 9]));
    assert_eq!(assert_ids_unique(&vec![1, 3, 5]), Ok(()));
    assert_eq!(assert_ids_unique(&vec![]), Ok(()));
}

// ---- agreement -------------------------------------------------------------------------------

fn log(samples: &[(u64, u64)]) -> ChecksumLog {
    ChecksumLog {
        samples: samples.to_vec(),
    }
}

#[test]
fn assert_all_peers_agree_fails_on_a_corrupted_replica() {
    let sample = |tick: u64, pos: i64| MinimalHash::sample(&vec![(1, pos, 0), (2, tick as i64, 1)]);
    let record = |corrupted_from: u64| {
        let samples: Vec<(u64, MinimalHash)> = (10..80)
            .map(|tick| (tick, sample(tick, if tick > corrupted_from { 1000 } else { 0 })))
            .collect();
        samples
    };
    let numbered = |samples: &[(u64, MinimalHash)]| ChecksumLog {
        samples: samples
            .iter()
            .map(|(tick, hash)| (*tick, hash.value()))
            .collect(),
    };
    let (host, fine) = (record(u64::MAX), record(u64::MAX));
    let since = 12;
    assert!(
        assert_all_peers_agree_since(&numbered(&host), &vec![numbered(&fine)], since).is_ok()
    );
    assert!(
        !compared_ticks_since(&numbered(&host), &numbered(&fine), since).is_empty(),
        "nothing was compared, so the agreement above was vacuous"
    );

    let at = 40;
    let wrong = record(at);
    match assert_all_peers_agree_since(&numbered(&host), &vec![numbered(&wrong)], since) {
        Err(Disagreement::Diverged {
            client,
            divergence,
            compared,
            from,
            to,
        }) => {
            assert_eq!(client, 0);
            assert_eq!(
                divergence.tick,
                at + 1,
                "the failure did not name the first corrupted tick"
            );
            assert_eq!((compared, from, to), (68, 12, 79));
        }
        other => panic!("the corruption went unnoticed: {other:?}"),
    }
    assert_eq!(
        sample(at + 1, 0).differences(&sample(at + 1, 1000)),
        ["positions"],
        "the differing section is named"
    );
}

#[test]
fn the_first_sample_of_a_tick_counts() {
    let host = log(&[(3, 30), (1, 10), (2, 20), (2, 99)]);
    let client = log(&[(2, 20), (2, 21), (4, 40), (3, 31)]);
    assert_eq!(host.at(2), Some(20));
    assert_eq!(host.at(7), None);
    assert_eq!(compared_ticks(&host, &client), [2, 3]);
    assert_eq!(compared_ticks_since(&host, &client, 3), [3]);
    assert_eq!(
        first_divergence(&host, &client),
        Some(Divergence {
            tick: 3,
            left: 30,
            right: 31
        })
    );
    assert_eq!(first_divergence_since(&host, &client, 4), None);
}

#[test]
fn agreement_is_not_vacuous() {
    let host = log(&[(1, 10)]);
    assert!(matches!(
        assert_all_peers_agree(&host, &vec![]),
        Err(Disagreement::NoClient)
    ));
    assert!(matches!(
        assert_all_peers_agree(&host, &vec![log(&[(1, 10)]), log(&[(2, 20)])]),
        Err(Disagreement::NothingCompared { client: 1 })
    ));
    assert!(assert_all_peers_agree(&host, &vec![log(&[(1, 10)])]).is_ok());
}

#[test]
fn dropping_a_component_from_the_registry_fails_convergence() {
    assert_eq!(
        assert_converged(true, &vec![None]),
        Err(ConvergeFailure::NoReplica { client: 0 }),
        "it cannot converge on a peer that has none"
    );
}

#[test]
fn convergence_is_checked_on_every_client() {
    assert_eq!(
        assert_converged(false, &vec![]),
        Err(ConvergeFailure::NoTruth)
    );
    assert_eq!(
        assert_converged(true, &vec![Some(true), Some(false), None]),
        Err(ConvergeFailure::TooFar { client: 1 })
    );
    assert_eq!(assert_converged(true, &vec![Some(true)]), Ok(()));
}

#[test]
fn budgets_are_held() {
    assert_eq!(
        assert_bandwidth_within((100, 10), (700, 13), 200),
        Ok((600, 3))
    );
    assert_eq!(
        assert_bandwidth_within((100, 10), (701, 13), 200),
        Err(BandwidthFailure::TooMuch {
            bytes: 601,
            ticks: 3
        })
    );
    assert_eq!(
        assert_bandwidth_within((0, 5), (9, 5), 200),
        Err(BandwidthFailure::NoTick)
    );
    assert_eq!(assert_replays_within(2, 9, 2, 9), Ok(()));
    assert_eq!(
        assert_replays_within(3, 10, 2, 9),
        Err(ReplayFailure::Rollbacks {
            count: 3,
            budget: 2
        })
    );
    assert_eq!(
        assert_replays_within(2, 10, 2, 9),
        Err(ReplayFailure::TicksReplayed {
            count: 10,
            budget: 9
        })
    );
}

// ---- replays ---------------------------------------------------------------------------------

/// Runs a check of a simulation whose sample at a tick is `live`, and `replayed` the second time.
fn replay(
    live: &dyn Fn(u64) -> u64,
    replayed: &dyn Fn(u64) -> u64,
    from: u64,
    ticks: u64,
) -> Result<(), ReplayProblem> {
    let mut tick = from - 2;
    let mut check = ReplayCheck::start(from, ticks, Role::Host, tick)?;
    loop {
        let event = match check.next() {
            ReplayAction::Finish => return Ok(()),
            ReplayAction::Reach => {
                tick += 1;
                ReplayEvent::Reached { tick }
            }
            ReplayAction::Live => {
                tick += 1;
                ReplayEvent::Lived {
                    tick,
                    sample: live(tick),
                }
            }
            ReplayAction::Restore { tick } => {
                assert_eq!(tick, from);
                ReplayEvent::Restored
            }
            ReplayAction::Replay { tick } => ReplayEvent::Replayed {
                sample: replayed(tick),
            },
        };
        check.tell(event)?;
    }
}

#[test]
fn a_pure_simulation_replays_and_an_impure_one_does_not() {
    assert_eq!(replay(&|tick| tick * 3, &|tick| tick * 3, 10, 5), Ok(()));
    let problem = replay(
        &|tick| tick,
        &|tick| if tick == 13 { 99 } else { tick },
        10,
        5,
    )
    .unwrap_err();
    assert_eq!(
        problem,
        ReplayProblem::Diverged {
            tick: 13,
            from: 10,
            live: 13,
            replayed: 99
        }
    );
    assert_eq!(
        problem.message(),
        "the replay diverged at tick 13 (3 ticks into a replay from 10)"
    );
    assert_eq!(
        divergence_words(13, 99, &vec!["bodies".to_string(), "positions".to_string()]),
        ": live 0x000000000000000d, replayed 0x0000000000000063, differing in: bodies, positions. \
         Something the simulation reads at that tick is not restored by rollback"
    );
    assert!(divergence_words(1, 2, &vec![]).contains("differing in: nothing identifiable"));
    let idle = replay(&|_| 7, &|_| 7, 10, 5).unwrap_err();
    assert_eq!(
        idle.message(),
        "the hash never changed over ticks 11..=15: nothing was simulated, so a replay that \
         agrees proves nothing"
    );
}

#[test]
fn a_replay_that_shows_nothing_is_refused() {
    let start = |ticks, role, tick| ReplayCheck::start(10, ticks, role, tick).err();
    assert_eq!(
        start(1, Role::Host, 10).expect("refused").message(),
        "a replay of fewer than two ticks cannot show a change"
    );
    assert_eq!(start(2, Role::Client, 10), Some(ReplayProblem::OnClient));
    assert_eq!(
        start(2, Role::Solo, 11).expect("refused").message(),
        "this peer is already at tick 11 and the check starts at 10: start it at or after the \
         current tick"
    );

    let mut check = ReplayCheck::start(10, 2, Role::Solo, 10).unwrap_or_else(|_| panic!("begun"));
    assert_eq!(check.next(), ReplayAction::Live);
    let problem = check
        .tell(ReplayEvent::Lived {
            tick: 12,
            sample: 0,
        })
        .unwrap_err();
    assert_eq!(
        problem,
        ReplayProblem::NotOneTick {
            tick: 12,
            expected: 11
        }
    );

    let mut check = ReplayCheck::start(3, 2, Role::Solo, 0).unwrap_or_else(|_| panic!("begun"));
    let mut stuck = Ok(());
    let mut frames = 0;
    while stuck.is_ok() {
        stuck = check.tell(ReplayEvent::Reached { tick: 0 });
        frames += 1;
    }
    assert_eq!(frames, 68);
    assert_eq!(
        stuck.unwrap_err(),
        ReplayProblem::Stuck {
            frames: 68,
            tick: 0,
            from: 3
        }
    );
}

// ---- input -----------------------------------------------------------------------------------

#[test]
fn a_script_is_played_by_frames() {
    let script = ActionScript::new()
        .at(5, 2, 'x')
        .hold(0, 2, 2, 'a')
        .at(1, 3, 'b');
    assert_eq!(script.for_frame(1), [(2, 'a'), (3, 'b')]);
    assert_eq!(script.for_frame(2), [(2, 'a')], "the last frame is held too");
    assert!(script.for_frame(3).is_empty());
    assert_eq!(script.last_frame(), Some(5));
    assert_eq!((script.len(), script.is_empty()), (4, false));
    assert_eq!(script.length(10), 16);
    let empty: ActionScript<char> = ActionScript::default();
    assert!(empty.is_empty() && empty.last_frame().is_none());
    assert_eq!(empty.length(10), 10);

    let net = TickedNetwork::client_server(2);
    let step = |frame| net.run_input_script(&script, 10, frame);
    match step(1) {
        Ok(ScriptStep::Press { peers }) => assert_eq!(peers, [PeerId(1), PeerId(2)]),
        _ => panic!("two players press"),
    }
    match step(3) {
        Ok(ScriptStep::Press { peers }) => assert!(peers.is_empty()),
        _ => panic!("the script is not over"),
    }
    assert!(matches!(step(6), Ok(ScriptStep::Trail)));
    assert!(matches!(step(15), Ok(ScriptStep::Trail)));
    assert!(matches!(step(16), Ok(ScriptStep::Over)));
    let stranger = ActionScript::new().at(0, 2, 'x').at(0, 77, 'y');
    assert_eq!(
        net.run_input_script(&stranger, 0, 0)
            .err()
            .expect("nobody owns 77")
            .message(),
        "the script has player 77 pressing on frame 0, but no peer on this network owns that uuid"
    );
    assert_eq!(queue_input(41), 42);
    assert_eq!(net.hold_input(PeerId(2), 41), (3, 42));
}

#[test]
fn not_sending_client_input_fails_the_latency_measurement() {
    let nothing = measure_input_latency(&vec![false; 121]);
    assert_eq!(
        nothing,
        Ok(None),
        "a press that changes nothing must not measure as latency"
    );
    let mut moved = vec![false; 121];
    for shown in &mut moved[7..] {
        *shown = true;
    }
    assert_eq!(
        measure_input_latency(&moved),
        Ok(Some(7)),
        "a real press shows on the host within 120 frames"
    );
    assert_eq!(measure_input_latency(&vec![true]), Err(AlreadyMoved));
    assert_eq!(
        measure_tick_cost(None),
        TickCostReport {
            ticks: 0,
            mean: 0,
            worst: 0
        }
    );
}

#[test]
fn an_input_queue_is_read_by_tick_and_player() {
    let queue = InputQueueView::new(BTreeMap::from([
        (7, BTreeMap::from([(2, 'a')])),
        (9, BTreeMap::from([(3, 'b'), (2, 'c')])),
        (11, BTreeMap::from([(3, 'd')])),
    ]));
    assert_eq!(queue.ticks(), [7, 9, 11]);
    assert_eq!(queue.at(9), BTreeMap::from([(2, 'c'), (3, 'b')]));
    assert!(queue.at(8).is_empty());
    assert_eq!(queue.newest_for(2), Some(9));
    assert_eq!(queue.newest_for(3), Some(11));
    assert_eq!(queue.newest_for(4), None, "the input was lost");
    assert_eq!((queue.len(), queue.is_empty()), (3, false));
}

// ---- the integer game ------------------------------------------------------------------------

#[test]
fn bodies_move_as_their_owners_press() {
    let mut bodies = seat_everyone(&vec![(1, Some(0)), (2, Some(4)), (3, None)]);
    assert_eq!(bodies[1].slot, Some(PlayerSlot(4)));
    assert_eq!(bodies[2].slot, Some(PlayerSlot(0)));
    assert_eq!(spawn_player(9).slot, None);
    assert_eq!(spawn_player(9).kind, EntityKind(PLAYER));
    apply_inputs(
        &mut bodies,
        &BTreeMap::from([(1, Input::right()), (2, Input::left())]),
    );
    integrate(&mut bodies);
    apply_inputs(&mut bodies, &BTreeMap::from([(2, Input::none())]));
    integrate(&mut bodies);
    let at: Vec<i64> = bodies.iter().map(|body| body.pos.0).collect();
    assert_eq!(at, [2, -1, 0], "who presses nothing new goes on as before");
}

#[test]
fn a_pellet_lives_its_life() {
    let mut bodies = seat_everyone(&vec![(1, Some(3)), (2, Some(1)), (3, Some(2))]);
    bodies[0].pos = Pos(10);
    bodies[1].pos = Pos(20);
    let inputs = BTreeMap::from([(1, Input::fire()), (2, Input::fire()), (3, Input::none())]);
    assert!(fire_pellets(&bodies, None).is_empty());
    let fired = fire_pellets(&bodies, Some(&inputs));
    let slots: Vec<(u8, i64)> = fired.iter().map(|(slot, body)| (*slot, body.pos.0)).collect();
    assert_eq!(slots, [(1, 20), (3, 10)]);
    assert_eq!(
        fired[0].1,
        Body {
            owner: None,
            pos: Pos(20),
            vel: Vel(1),
            kind: EntityKind(PELLET),
            slot: None,
            fuse: Some(Fuse(PELLET_LIFE)),
        }
    );
    let mut world = vec![bodies[0], fired[0].1];
    for _ in 0..PELLET_LIFE {
        assert!(burn_fuses(&mut world).is_empty());
    }
    assert_eq!(burn_fuses(&mut world), [1], "tombstoned at zero");
}

#[test]
fn a_world_hashes_alike_in_any_order() {
    let rows = vec![(1, -3, 4), (2, 10, 0)];
    let hash = MinimalHash::sample(&rows);
    assert_eq!(hash.bodies, 0x7717_9803_63c8_e066);
    assert_eq!(hash.positions, 0xd044_b800_a724_4116);
    assert_eq!(hash.velocities, 0x0a86_e432_db17_3c22);
    assert_eq!(hash.value(), 0x2bf3_f4a1_5a82_239d);
    let turned = MinimalHash::sample(&vec![rows[1], rows[0]]);
    assert_eq!(turned, hash);
    assert!(hash.differences(&turned).is_empty());
    let other = MinimalHash::sample(&vec![(1, -3, 5), (3, 10, 0)]);
    assert_eq!(
        hash.differences(&other),
        ["bodies", "positions", "velocities"]
    );
}
