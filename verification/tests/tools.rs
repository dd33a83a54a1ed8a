//! Faults, logs, pinned names, the overlay, and a session of local processes.

use ticked_session::fault::{bit_flips, garbage, truncations};
use ticked_session::handshake::RegistryShape;
use ticked_session::local_session::{
    child_variables, drive_auto_role, is_launcher, peer_count, plan_local_session, signalling_url, AutoAction,
    AutoRole, SignallingUrl,
};
use ticked_session::log::{
    assert_no_warnings, assert_no_warnings_matching, errors_since, mark, on_event, records_since,
    warnings_since, Level, LogEvent, LogRecord, MessageVisitor,
};
use ticked_session::number::{
    decimal_of, digits_of, hex16_of, hex_of, pad_zeros, parse_number, NumberError,
};
use ticked_session::overlay::{
    publish_ticked_lines, Counters, HealthCounters, InputCounters, LastFrame, OverlayLine,
    ReplayCounters, SnapshotCounters, TickCounters,
};
use ticked_session::path::{is_rust_file, join_path, lies_under};
use ticked_session::wire::{
    assert_ensemble_wire_names, assert_resource_wire_names, assert_resource_wire_order,
    assert_wire_names, assert_wire_order, changed_words, no_registry_words, resource_wire_hash, wire_hash,
    WireKind,
};

// ---- faults ----------------------------------------------------------------------------------

#[test]
fn truncations_are_every_proper_prefix() {
    let packet = [1u8, 2, 3];
    let prefixes = truncations(&packet);
    assert_eq!(prefixes, vec![&[][..], &[1][..], &[1, 2][..]]);
}

#[test]
fn a_bit_flip_changes_exactly_one_bit() {
    let packet = vec![0u8; 8];
    let bits: Vec<u64> = (0..20).map(|n| (n * 13 + 3) % 64).collect();
    for flipped in bit_flips(&packet, &bits) {
        let ones: u32 = flipped.iter().map(|byte| byte.count_ones()).sum();
        assert_eq!(ones, 1, "{flipped:?}");
    }
}

#[test]
fn a_flip_is_counted_from_the_lowest_bit_and_undoes_itself() {
    assert_eq!(
        bit_flips(&vec![0b1000_0001, 0], &vec![0, 7, 8, 15]),
        [
            vec![0b1000_0000, 0],
            vec![0b0000_0001, 0],
            vec![0b1000_0001, 1],
            vec![0b1000_0001, 128]
        ]
    );
    let packet = vec![7u8, 9];
    let once = &bit_flips(&packet, &vec![10])[0];
    assert_eq!(bit_flips(once, &vec![10])[0], packet);
    assert!(bit_flips(&vec![], &vec![1, 2]).is_empty());
    assert!(truncations(&[]).is_empty());
}

#[test]
fn the_fuzzers_replay_from_their_seed() {
    let draws = |seed: u64| -> Vec<Vec<u64>> {
        (0..10)
            .map(|packet| (0..32).map(|n| seed * 7 + packet * 31 + n).collect())
            .collect()
    };
    assert_eq!(garbage(&draws(9)), garbage(&draws(9)));
    assert_ne!(garbage(&draws(9)), garbage(&draws(10)));
    assert_eq!(
        garbage(&vec![vec![0x1ff, 0x100], vec![]]),
        [vec![255, 0], vec![]],
        "the lowest byte of each draw"
    );
}

// ---- logs ------------------------------------------------------------------------------------

fn event<'a>(
    level: Level,
    message: &str,
    thread: u64,
    thread_name: Option<&'a str>,
) -> LogEvent<'a> {
    LogEvent {
        level,
        target: "ticked::log::test",
        message: message.to_string(),
        thread,
        thread_name,
    }
}

#[test]
fn a_warning_provoked_on_purpose_is_seen_and_an_earlier_one_is_not() {
    let me = Some("main");
    let mut log: Vec<LogRecord> = Vec::new();
    on_event(&mut log, event(Level::Warn, "before the mark", 1, me));
    let mark = mark(&log);
    on_event(&mut log, event(Level::Warn, "after the mark", 1, me));
    on_event(&mut log, event(Level::Info, "not a warning", 1, me));

    let warnings = warnings_since(&log, &mark, 1);
    assert!(
        warnings.iter().any(|line| line.contains("after the mark")),
        "the warning after the mark was not captured: {warnings:?}"
    );
    assert!(
        !warnings.iter().any(|line| line.contains("before the mark")),
        "a warning from before the mark leaked through: {warnings:?}"
    );
    assert!(
        !warnings.iter().any(|line| line.contains("not a warning")),
        "an info line was reported as a warning"
    );
}

#[test]
fn records_are_attributed_to_their_thread_or_the_pool() {
    let mut log: Vec<LogRecord> = Vec::new();
    let start = mark(&log);
    on_event(&mut log, event(Level::Warn, "mine", 1, Some("main")));
    on_event(&mut log, event(Level::Warn, "theirs", 2, Some("other")));
    on_event(
        &mut log,
        event(Level::Error, "pooled", 3, Some("Compute Task Pool (0)")),
    );
    on_event(
        &mut log,
        event(Level::Warn, "small", 5, Some("async task pool")),
    );
    on_event(&mut log, event(Level::Error, "nameless", 4, None));
    let found: Vec<String> = records_since(&log, &start, 1)
        .iter()
        .map(|record| record.message.clone())
        .collect();
    assert_eq!(found, ["mine", "pooled", "small", "nameless"]);
    assert_eq!(
        errors_since(&log, &start, 1),
        ["ticked::log::test: pooled", "ticked::log::test: nameless"]
    );
    assert_eq!(
        errors_since(&log, &start, 1).len() + warnings_since(&log, &start, 1).len(),
        records_since(&log, &start, 1).len(),
        "a record is a warning or an error"
    );
    let failure = assert_no_warnings(&log, &start, 1).unwrap_err();
    assert_eq!(
        failure.message(),
        "4 unexpected warning(s) since the mark:\n  ticked::log::test: mine\n  ticked::log::test: \
         small\n  ticked::log::test: pooled\n  ticked::log::test: nameless"
    );
    let rest = assert_no_warnings_matching(&log, &start, 1, &["mine", "pool", "name"]).unwrap_err();
    assert_eq!(rest.lines, ["ticked::log::test: small"]);
    assert!(assert_no_warnings_matching(&log, &start, 1, &["test"]).is_ok());
    assert!(assert_no_warnings(&log, &mark(&log), 1).is_ok());
}

#[test]
fn an_event_is_put_into_words() {
    let mut visitor = MessageVisitor::new();
    visitor.record("message", "late input");
    let plain = MessageVisitor::new();
    assert_eq!(plain.finish(), "");
    visitor.record("tick", "7");
    visitor.record("player", "\"a\"");
    assert_eq!(visitor.finish(), "late input tick=7 player=\"a\"");
}

// ---- pinned names ----------------------------------------------------------------------------

fn shape(names: &[&str]) -> RegistryShape {
    RegistryShape {
        wire_hash: 77,
        wire_names: names.iter().map(|name| name.to_string()).collect(),
    }
}

#[test]
fn pinned_names_are_a_set() {
    let registry = shape(&["EntityKind", "Pos", "Vel"]);
    assert!(assert_wire_names(&registry, &["Vel", "Pos", "EntityKind"]).is_ok());
    assert!(assert_wire_order(&registry.wire_names, &["Pos", "Vel", "EntityKind"]).is_ok());
    let failure = assert_wire_names(&registry, &["Pos", "Vel"]).unwrap_err();
    assert!(failure
        .message()
        .starts_with("the set of networked components changed"));
    assert!(failure.message().ends_with(
        "\n     found: [\"EntityKind\", \"Pos\", \"Vel\"]\n  expected: [\"Pos\", \"Vel\"]"
    ));
    assert!(changed_words(WireKind::Resources, "these", "those")
        .ends_with("say so in the commit.\n     found: these\n  expected: those"));
    let failure = assert_resource_wire_order(&registry.wire_names, &["Pos"]).unwrap_err();
    assert!(failure
        .message()
        .starts_with("the set of networked resources changed"));
    assert_eq!(wire_hash(&registry), 77);
    assert_eq!(resource_wire_hash(Some(&registry)), 77);
    assert_eq!(resource_wire_hash(None), 0);
}

#[test]
fn a_missing_resource_registry_has_no_names() {
    assert!(assert_resource_wire_names(None, &[]).is_ok());
    assert_eq!(
        assert_resource_wire_names(None, &["Round", "a\"b"])
            .unwrap_err()
            .message(),
        "the app has no TickedResourceRegistry, so no resource is on the wire; expected \
         [\"Round\", \"a\\\"b\"]"
    );
    assert_eq!(
        no_registry_words("these"),
        "the app has no TickedResourceRegistry, so no resource is on the wire; expected these"
    );
    assert!(assert_resource_wire_names(Some(&shape(&["Round"])), &["Round"]).is_ok());
    assert!(assert_resource_wire_names(Some(&shape(&["Round"])), &["Score"]).is_err());
}

#[test]
fn message_names_are_pinned_in_order() {
    let names = shape(&["Handshake", "Snapshot"]).wire_names;
    assert!(assert_ensemble_wire_names(&names, &["Handshake", "Snapshot"]).is_ok());
    let failure = assert_ensemble_wire_names(&names, &["Snapshot", "Handshake"]).unwrap_err();
    assert!(failure
        .message()
        .starts_with("the set of ensemble messages changed"));
    assert!(assert_ensemble_wire_names(&names, &["Handshake"]).is_err());
}

// ---- the overlay -----------------------------------------------------------------------------

#[test]
fn the_overlay_shows_totals_rates_and_trouble() {
    let mut counters = Counters {
        cost: Some(TickCounters { ticks: 640 }),
        replay: Some(ReplayCounters {
            rollbacks: 3,
            ticks_replayed: 12,
            last_replay_distance: 4,
            skipped_identical: 9,
            dropped_stale: 1,
        }),
        snapshots: Some(SnapshotCounters {
            sent: 100,
            last_bytes: 210,
            max_bytes: 900,
            oversize: 0,
        }),
        inputs: Some(InputCounters {
            received: 50,
            late: 2,
            dropped_out_of_window: 1,
        }),
        health: Some(HealthCounters {
            client_minted_tracked_id: 0,
            duplicate_ids_in_snapshot: 0,
            snapshot_older_than_history: 0,
        }),
    };
    let mut last = LastFrame::new();
    let lines = publish_ticked_lines(&counters, false, &mut last);
    assert!(matches!(&lines[..], [OverlayLine::Tick { run: 640 }]));
    assert_eq!(last, LastFrame::new());

    let lines = publish_ticked_lines(&counters, true, &mut last);
    let keys: Vec<&str> = lines.iter().map(OverlayLine::key).collect();
    assert_eq!(
        keys,
        [
            "ticked.tick",
            "ticked.rate",
            "ticked.replay",
            "ticked.snapshot",
            "ticked.input"
        ]
    );
    match &lines[..] {
        [OverlayLine::Tick { run: 640 }, OverlayLine::Rate { moved: 640 }, OverlayLine::Replay {
            rollbacks_moved: 3,
            ticks_moved: 12,
            tail: replay,
        }, OverlayLine::Snapshot {
            moved: 100,
            tail: snapshot,
        }, OverlayLine::Input {
            moved: 50,
            tail: input,
        }] => {
            assert_eq!(replay, ", distance 4, 9 identical, 1 stale");
            assert_eq!(snapshot, ", 210 B last, 900 B max, 0 oversize");
            assert_eq!(input, ", 2 late, 1 out of window");
        }
        _ => panic!("five lines, none about health"),
    }

    counters.cost = Some(TickCounters { ticks: 704 });
    counters.replay = None;
    counters.snapshots = None;
    counters.inputs = None;
    counters.health = Some(HealthCounters {
        client_minted_tracked_id: 1,
        duplicate_ids_in_snapshot: 0,
        snapshot_older_than_history: 2,
    });
    let lines = publish_ticked_lines(&counters, true, &mut last);
    match &lines[..] {
        [OverlayLine::Tick { .. }, OverlayLine::Rate { moved: 64 }, OverlayLine::Health { text }] => {
            assert_eq!(
                text,
                "HEALTH: 1 client-minted ids, 0 duplicate ids, 2 snapshots older than history"
            )
        }
        _ => panic!("a rate since the last refresh, and what went wrong"),
    }
    assert_eq!(lines[2].key(), "ticked.health");
    assert_eq!((last.ticks, last.inputs), (704, 50));
}

// ---- local processes -------------------------------------------------------------------------

#[test]
fn a_process_is_told_what_to_be() {
    assert_eq!(peer_count(Some("3")), Some(3));
    for text in ["0", "", "three", "-1", "4294967296"] {
        assert_eq!(peer_count(Some(text)), None);
    }
    assert_eq!(peer_count(None), None);
    assert!(is_launcher(Some("2"), None));
    assert!(!is_launcher(Some("2"), Some("client")));
    assert!(!is_launcher(None, None));

    let plan = plan_local_session(Some("3"), None);
    assert_eq!(plan.role, Some(AutoRole::Host));
    assert_eq!(plan.children, Some(vec![1, 2]));
    let plan = plan_local_session(Some("3"), Some("client"));
    assert_eq!(plan.role, Some(AutoRole::Client { joined: false }));
    assert_eq!(plan.children, None);
    let plan = plan_local_session(None, Some("host"));
    assert_eq!((plan.role, plan.ignored), (Some(AutoRole::Host), false));
    let plan = plan_local_session(None, Some("umpire"));
    assert_eq!((plan.role, plan.ignored), (None, true));
    let text = |name: &str| name.to_string();
    assert_eq!(
        child_variables("ws://x"),
        [
            (text("TICKED_ROLE"), Some(text("client"))),
            (text("SIGNALLING_SERVER_URL"), Some(text("ws://x"))),
            (text("TICKED_LOCAL_SESSION"), None),
        ]
    );
    let plan = plan_local_session(None, None);
    assert_eq!((plan.role, plan.ignored), (None, false));
}

#[test]
fn a_process_finds_its_signalling_server() {
    let url = |url, peers, role| match signalling_url(url, peers, role) {
        SignallingUrl::At(text) => text,
        SignallingUrl::Own => "own".to_string(),
    };
    assert_eq!(url(Some("ws://x"), Some("2"), None), "ws://x");
    assert_eq!(url(None, Some("2"), None), "own");
    assert_eq!(url(None, Some("2"), Some("client")), "ws://localhost:9090/ws");
    assert_eq!(url(None, None, None), "ws://localhost:9090/ws");
}

#[test]
fn a_process_hosts_or_joins_once() {
    let mut nobody = None;
    assert!(drive_auto_role(&mut nobody, false, Some(1), true).is_none());

    let mut host = Some(AutoRole::Host);
    assert!(matches!(
        drive_auto_role::<u8>(&mut host, false, None, false),
        Some(AutoAction::StartHosting)
    ));
    assert!(drive_auto_role(&mut host, false, Some(1), true).is_none());

    let mut client = Some(AutoRole::Client { joined: false });
    assert!(drive_auto_role::<u8>(&mut client, false, None, false).is_none());
    assert!(matches!(
        drive_auto_role::<u8>(&mut client, false, None, true),
        Some(AutoAction::Refresh)
    ));
    assert!(drive_auto_role(&mut client, true, Some(1), true).is_none());
    assert!(matches!(
        drive_auto_role(&mut client, false, Some(4), true),
        Some(AutoAction::Join(4))
    ));
    assert!(
        drive_auto_role(&mut client, false, Some(5), true).is_none(),
        "a lobby that ended is not joined again behind the player's back"
    );
}

// ---- numbers and paths -----------------------------------------------------------------------

#[test]
fn numbers_are_written_and_read_back() {
    assert_eq!(decimal_of(0), "0");
    assert_eq!(decimal_of(u64::MAX), "18446744073709551615");
    assert_eq!(hex_of(0xDEAD_BEEF), "0xdeadbeef");
    assert_eq!(hex16_of(0x1234), "0x0000000000001234");
    assert_eq!(digits_of(u128::MAX, 16), "f".repeat(32));
    assert_eq!(pad_zeros("7", 2), "07");
    for value in [0u64, 9, 10, 0xffff, u64::MAX] {
        assert_eq!(
            parse_number(decimal_of(value).as_str(), 10, u64::MAX),
            Ok(value)
        );
    }
    assert_eq!(parse_number("fF", 16, 255), Ok(255));
    assert_eq!(parse_number("+12", 10, 100), Ok(12));
    for (text, error, words) in [
        ("", NumberError::Empty, "cannot parse integer from empty string"),
        ("+", NumberError::InvalidDigit, "invalid digit found in string"),
        ("1a", NumberError::InvalidDigit, "invalid digit found in string"),
        (
            "101",
            NumberError::TooLarge,
            "number too large to fit in target type",
        ),
    ] {
        assert_eq!(parse_number(text, 10, 100), Err(error));
        assert_eq!(error.words(), words);
    }
}

#[test]
fn paths_are_compared_part_by_part() {
    assert!(lies_under("/work/game/src/sim.rs", "/work/game/src"));
    assert!(lies_under("/work/game/src/", "/work//game/./src"));
    assert!(!lies_under("/work/game/srcs/sim.rs", "/work/game/src"));
    assert!(!lies_under("work/game", "/work"));
    assert_eq!(join_path("/work/game", "src"), "/work/game/src");
    assert_eq!(join_path("/work/game/", "src"), "/work/game/src");
    assert_eq!(join_path("/work", "/abs"), "/abs");
    assert!(is_rust_file("/work/a.b.rs"));
    assert!(!is_rust_file("/work/.rs"));
    assert!(!is_rust_file("/work/rs"));
    assert!(!is_rust_file("/work/a.rs.md"));
}
