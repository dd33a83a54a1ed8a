//! Checking the checks: the source guard and the golden helper fail when they should.

use ticked_session::date::{civil_from_days, is_iso_date, today};
use ticked_session::golden::{
    check_golden, from_hex, is_sampled, record_trace, rerecorded_notice, to_hex, Fixture,
    GoldenFailure, GoldenOutcome, HashTrace, Trace,
};
use ticked_session::source_guard::assertions::stale_list_words;
use ticked_session::source_guard::{
    code_only, default_needles, rust_files, Exception, GuardFailure, Needle, SourceFile,
    SourceGuard,
};

const SLEEP: Needle = Needle {
    needle: "sleep(",
    reason: "a tick does not wait",
};

fn tree(files: &[(&str, &str)]) -> Vec<SourceFile> {
    files
        .iter()
        .map(|(path, text)| SourceFile {
            path: format!("/work/game/{path}"),
            text: text.to_string(),
        })
        .collect()
}

fn scratch_guard() -> SourceGuard {
    SourceGuard::new("/work/game")
}

/// What came of reading each of the guard's exception files in `tree`.
fn readings(guard: &SourceGuard, tree: &[SourceFile]) -> Vec<Result<String, String>> {
    guard
        .exception_files()
        .iter()
        .map(|path| {
            tree.iter()
                .find(|file| &file.path == path)
                .map(|file| file.text.clone())
                .ok_or_else(|| "No such file or directory (os error 2)".to_string())
        })
        .collect()
}

fn existing(guard: &SourceGuard, tree: &[SourceFile]) -> Vec<bool> {
    guard
        .excluded_files()
        .iter()
        .map(|path| tree.iter().any(|file| &file.path == path))
        .collect()
}

fn hold(verdict: Result<(), GuardFailure>) {
    if let Err(failure) = verdict {
        panic!("{}", failure.message());
    }
}

#[test]
fn dates_convert() {
    assert_eq!(civil_from_days(0), (1970, 1, 1));
    assert_eq!(civil_from_days(19_723), (2024, 1, 1));
    assert_eq!(civil_from_days(20_707), (2026, 9, 11));
    assert!(is_iso_date("2026-12-31"));
    assert!(!is_iso_date("2026-12-3"));
    assert!(!is_iso_date("2026/12/31"));
}

#[test]
fn dates_before_the_epoch_and_leap_days_convert() {
    assert_eq!(civil_from_days(-1), (1969, 12, 31));
    assert_eq!(civil_from_days(-719_468), (0, 3, 1));
    assert_eq!(civil_from_days(-719_469), (0, 2, 29));
    assert_eq!(civil_from_days(11_016), (2000, 2, 29));
    assert_eq!(civil_from_days(47_540), (2100, 2, 28));
    assert_eq!(civil_from_days(47_541), (2100, 3, 1));
    assert_eq!(today(0), "1970-01-01");
    assert_eq!(today(86_399), "1970-01-01");
    assert_eq!(today(20_707 * 86_400), "2026-09-11");
    assert!(!is_iso_date("2026-12-é"));
    assert!(!is_iso_date(""));
}

#[test]
fn earlier_dates_sort_first() {
    let days = [-719_162i64, 0, 1, 58, 59, 60, 19_723, 20_707, 2_932_896];
    let texts: Vec<String> = days
        .iter()
        .map(|day| {
            let (year, month, day) = civil_from_days(*day);
            format!("{year:04}-{month:02}-{day:02}")
        })
        .collect();
    for pair in texts.windows(2) {
        assert!(pair[0] < pair[1], "{pair:?}");
    }
}

#[test]
fn the_source_guard_bites() {
    hold(
        SourceGuard::new("/work/ticked")
            .ban(&default_needles())
            .assert_it_bites(),
    );
}

#[test]
fn a_guard_that_cannot_bite_says_so() {
    let nothing = scratch_guard().assert_it_bites().unwrap_err();
    assert_eq!(
        nothing.message(),
        "the source guard bans nothing; add default_needles()"
    );

    let quoted = scratch_guard()
        .ban(&[
            SLEEP,
            Needle {
                needle: "\"text\"",
                reason: "a needle in quotes is stripped with them",
            },
        ])
        .assert_it_bites()
        .unwrap_err();
    assert_eq!(
        quoted.message(),
        "the source guard did not bite on `\"text\"` at code.rs:2; it guards nothing"
    );

    let common = scratch_guard()
        .ban(&[Needle {
            needle: "let",
            reason: "too common",
        }])
        .assert_it_bites()
        .unwrap_err();
    assert_eq!(
        common.message(),
        "a comment or string mentioning a needle tripped the source guard:\n  prose.rs:2: `let` — \
         too common\n      let _ = ;"
    );
}

#[test]
fn the_default_needles_catch_every_known_reach() {
    // One reach per line, written the way it would be in a real system, so the needle spelling
    // is tested against the code it is meant to match and not against itself.
    let reaches: &[(&str, &str)] = &[
        ("Res<Time<Virtual>", "fn s(time: Res<Time<Virtual>>) {}"),
        ("Res<Time<Real>", "fn s(time: Res<Time<Real>>) {}"),
        ("Res<Time<Fixed>", "fn s(time: Res<Time<Fixed>>) {}"),
        ("ResMut<Time<", "fn s(mut time: ResMut<Time<Virtual>>) {}"),
        (
            "Time<Virtual>",
            "let delta = world.resource::<Time<Virtual>>().delta();",
        ),
        (
            "Time<Real>",
            "let delta = world.resource::<Time<Real>>().delta();",
        ),
        ("ButtonInput", "fn s(keys: Res<ButtonInput<KeyCode>>) {}"),
        ("rand::", "let x: u32 = rand::random();"),
        ("thread_rng", "let mut rng = thread_rng();"),
        ("rand::rng(", "let mut rng = rand::rng();"),
        ("SystemTime", "let now = SystemTime::now();"),
        ("Instant::now", "let now = Instant::now();"),
        (
            "Gizmos<",
            "fn s(mut gizmos: Gizmos<DefaultGizmoConfigGroup>) {}",
        ),
        (
            "Sprite",
            "commands.spawn(Sprite::from_color(Color::WHITE, Vec2::ONE));",
        ),
        ("AssetServer", "fn s(assets: Res<AssetServer>) {}"),
        (
            "SECONDS_PER_TICK",
            "velocity.0 += acceleration * SECONDS_PER_TICK;",
        ),
    ];
    for needle in default_needles() {
        assert!(
            reaches.iter().any(|(name, _)| name == &needle.needle),
            "the default needles gained `{}`; add a reach for it to this test",
            needle.needle
        );
    }

    let source = reaches
        .iter()
        .map(|(_, line)| *line)
        .collect::<Vec<_>>()
        .join("\n");
    let tree = tree(&[("src/sim.rs", &source)]);

    let violations = scratch_guard()
        .sources(&["src"])
        .ban(&default_needles())
        .violations(&tree);
    for (index, (needle, line)) in reaches.iter().enumerate() {
        let found = violations
            .iter()
            .find(|violation| violation.needle == *needle && violation.line == index + 1)
            .unwrap_or_else(|| panic!("`{needle}` did not catch `{line}`"));
        assert_eq!(found.path, "src/sim.rs");
        assert!(
            !found.reason.is_empty(),
            "`{needle}` has no reason; the violation would not say what to do instead"
        );
    }
}

#[test]
fn code_only_strips_comments_and_strings_but_keeps_lines() {
    let source = "let a = 1; // Instant::now() in a comment\n\
                  let b = \"Instant::now() in a string\";\n\
                  /* a block comment\n   spanning lines, with Instant::now()\n   and /* nested */ still a comment */ let c = 2;\n\
                  let quote = '\"'; let d = \"escaped \\\" quote, Instant::now()\";\n\
                  let url = \"http://not.a.comment\"; let now = Instant::now();\n\
                  let multi = \"a string\n   over two lines with Instant::now()\";\n";
    let code = code_only(source);

    assert_eq!(
        code.lines().count(),
        source.lines().count(),
        "code_only must keep the line count so violations carry the right line number"
    );
    let stripped: Vec<&str> = code.lines().collect();
    assert_eq!(stripped[0].trim(), "let a = 1;");
    assert_eq!(stripped[1].trim(), "let b = ;");
    assert_eq!(stripped[2].trim(), "");
    assert_eq!(stripped[3].trim(), "");
    assert_eq!(stripped[4].trim(), "let c = 2;");
    assert_eq!(stripped[5].trim(), "let quote = '\"'; let d = ;");
    assert_eq!(
        stripped[6].trim(),
        "let url = ; let now = Instant::now();",
        "a `//` inside a string is not a comment, and the code after the string is still code"
    );
    assert_eq!(stripped[7].trim(), "let multi =");
    assert_eq!(stripped[8].trim(), ";");

    assert_eq!(
        code.matches("Instant::now").count(),
        1,
        "only the real call survives"
    );
}

#[test]
fn code_only_handles_the_edges() {
    assert_eq!(code_only(""), "");
    assert_eq!(code_only("a / b"), "a / b");
    assert_eq!(code_only("a /"), "a /");
    assert_eq!(code_only("// never ends"), "");
    assert_eq!(code_only("x /* never /* ends */ y\nz"), "x \n");
    assert_eq!(code_only("\"never ends\nx"), "\n");
    assert_eq!(code_only("\"a\\\nb\" c"), "\n c");
    assert_eq!(code_only("'a' '\\'' '\"'"), "'a' '\\'' '\"'");
    assert_eq!(code_only("\"ends in a backslash\\"), "");
}

#[test]
fn a_char_literal_opens_no_string() {
    for source in [
        "let q = '\\\"'; Instant::now();",
        "let q = '\"'; Instant::now();",
        "let q = b'\"'; Instant::now();",
        "let q = ['\\'', '\\\\', '\\x22', '\\u{22}', '/', '*']; Instant::now();",
        "fn f<'a, 'r>(x: &'a str) -> &'r str { a / b }",
    ] {
        assert_eq!(code_only(source), source);
    }
    // No char literal crosses a line end.
    for source in ["'\n'\"'", "'\\\n'\"'", "'\n'\"'; now();"] {
        assert_eq!(code_only(source), source);
    }
    // Right behind a char literal a string is a string.
    assert_eq!(code_only("m!('a'\"'\"); now();"), "m!('a'); now();");
    // In a raw string a backslash is a character like any other.
    assert_eq!(code_only("let p = r\"C:\\\"; now();"), "let p = r; now();");
    assert_eq!(code_only("br\"\n\" x"), "br\n x");
    assert_eq!(code_only("cr\"\\\" x"), "cr x");
    // Only a word of its own makes a string raw.
    assert_eq!(code_only("ar\"\\\"\";x"), "ar;x");
    assert_eq!(
        code_only("bar\"x\\\"y\"; Instant::now()"),
        "bar; Instant::now()"
    );
    assert_eq!(code_only("_br\"\\\"\";x"), "_br;x");
}

#[test]
fn lines_are_stripped_alone() {
    let lines = [
        "let a = 'x'; // it's \u{e9}",
        "'",
        "'\\",
        "a / b // c",
        "&'a str",
        "r",
        "/",
        "",
    ];
    let rests = ["'\"'; now();", "\"text\" x", "r\"\\\" x", "/* c */ x", "*/ x"];
    for line in lines {
        for rest in rests {
            assert_eq!(
                code_only(&format!("{line}\n{rest}")),
                format!("{}\n{}", code_only(line), code_only(rest)),
                "{line:?} {rest:?}"
            );
        }
    }
}

#[test]
fn an_exception_removes_what_it_names() {
    let wait = Needle {
        needle: "wait",
        reason: "nor does it wait",
    };
    let guard = scratch_guard().sources(&["src"]).ban(&[SLEEP, wait]);
    let tree = tree(&[
        ("src/a.rs", "sleep(1); wait();\nsleep(2);"),
        ("src/b.rs", "wait(); sleep(3);"),
    ]);
    let before = guard.violations(&tree);
    let excused = Exception {
        path: "src/a.rs",
        needle: "sleep(",
        reason: "for now",
        expires: None,
    };
    let after = guard.clone().allow(&[excused]).violations(&tree);
    let kept: Vec<_> = before
        .into_iter()
        .filter(|violation| violation.path != "src/a.rs" || violation.needle != "sleep(")
        .collect();
    assert_eq!(after, kept);
    assert_eq!(after.len(), 3);
}

#[test]
#[should_panic(expected = "expired")]
fn an_expired_exception_fails() {
    let tree = tree(&[("src/sim.rs", "std::thread::sleep(d);\n")]);
    let pending = Exception {
        path: "src/sim.rs",
        needle: "sleep(",
        reason: "until the tick stops waiting",
        expires: Some("2026-12-31"),
    };
    let guard = scratch_guard()
        .sources(&["src"])
        .ban(&[SLEEP])
        .allow(&[pending]);

    // Before the date it is a licence; the guard is clean and the exception is not expired.
    hold(guard.assert_no_exception_has_expired_on("2026-09-11"));
    hold(guard.assert_clean(&tree));

    // The day after, it is a broken promise.
    hold(guard.assert_no_exception_has_expired_on("2027-01-01"));
}

#[test]
fn an_expiry_is_reported_in_words() {
    let exception = |expires| Exception {
        path: "src/sim.rs",
        needle: "sleep(",
        reason: "pending",
        expires,
    };
    let guard = scratch_guard().ban(&[SLEEP]).allow(&[
        exception(Some("2026-01-01")),
        exception(None),
        exception(Some("2026-09-11")),
        exception(Some("2025-05-05")),
    ]);
    assert_eq!(
        guard
            .assert_no_exception_has_expired_on("2026-09-11")
            .unwrap_err()
            .message(),
        "2 exception(s) have expired (today is 2026-09-11):\n  src/sim.rs: `sleep(` expired on \
         2026-01-01 — pending\n  src/sim.rs: `sleep(` expired on 2025-05-05 — pending\n\n\
         Fix the reach, or renew the date with a reason it is still pending."
    );
    assert!(guard.assert_no_exception_has_expired_on("2025-05-05").is_ok());
    // Today is what the environment says, and else what the clock says.
    assert!(guard
        .assert_no_exception_has_expired(Some("2025-01-01"), 20_707 * 86_400)
        .is_ok());
    assert!(guard
        .assert_no_exception_has_expired(None, 20_707 * 86_400)
        .is_err());
    assert!(guard.assert_no_exception_has_expired(None, 0).is_ok());

    assert_eq!(
        guard
            .assert_no_exception_has_expired_on("tomorrow")
            .unwrap_err()
            .message(),
        "today's date must be `YYYY-MM-DD`, got `tomorrow`"
    );
    let bad = scratch_guard()
        .ban(&[SLEEP])
        .allow(&[exception(Some("2020-01-01")), exception(Some("soon"))]);
    assert_eq!(
        bad.assert_no_exception_has_expired_on("2026-09-11")
            .unwrap_err()
            .message(),
        "the exception for `sleep(` in `src/sim.rs` expires on `soon`, which is not `YYYY-MM-DD`"
    );
}

#[test]
#[should_panic(expected = "delete the exception")]
fn a_stale_exception_fails() {
    let tree = tree(&[
        ("src/sim.rs", "std::thread::sleep(d);\n"),
        ("src/fixed.rs", "// sleep( used to be here\n"),
    ]);
    let used = Exception {
        path: "src/sim.rs",
        needle: "sleep(",
        reason: "still there",
        expires: None,
    };
    let stale = Exception {
        path: "src/fixed.rs",
        needle: "sleep(",
        reason: "was fixed, exception forgotten",
        expires: None,
    };

    // A used exception excuses the reach and is still needed.
    let guard = scratch_guard()
        .sources(&["src"])
        .ban(&[SLEEP])
        .allow(&[used]);
    hold(guard.assert_every_exception_is_still_needed(&readings(&guard, &tree)));
    hold(guard.assert_clean(&tree));

    // A stale one, whose file only mentions the needle in a comment, must be deleted.
    let guard = scratch_guard()
        .sources(&["src"])
        .ban(&[SLEEP])
        .allow(&[used, stale]);
    hold(guard.assert_every_exception_is_still_needed(&readings(&guard, &tree)));
}

#[test]
fn every_kind_of_stale_exception_is_told_apart() {
    let tree = tree(&[("src/fixed.rs", "// sleep( used to be here\n")]);
    let exception = |path, needle| Exception {
        path,
        needle,
        reason: "was fixed",
        expires: None,
    };
    let failure = |exceptions: &[Exception]| {
        let guard = scratch_guard().ban(&[SLEEP]).allow(exceptions);
        guard
            .assert_every_exception_is_still_needed(&readings(&guard, &tree))
            .unwrap_err()
            .message()
    };
    assert_eq!(
        failure(&[exception("src/fixed.rs", "Sprite")]),
        "the exception for `Sprite` in `src/fixed.rs` names a needle this guard does not ban"
    );
    assert_eq!(
        failure(&[exception("src/gone.rs", "sleep(")]),
        "the exception for `sleep(` names `src/gone.rs`, which cannot be read (No such file or \
         directory (os error 2)); delete the exception"
    );
    assert_eq!(
        failure(&[exception("src/fixed.rs", "sleep(")]),
        "`src/fixed.rs` no longer contains `sleep(` (was fixed); delete the exception"
    );
}

#[test]
#[should_panic(expected = "no longer exists")]
fn a_stale_exclusion_fails() {
    let tree = tree(&[
        ("src/sim.rs", "fn tick() {}\n"),
        ("src/visuals.rs", "std::thread::sleep(d);\n"),
    ]);

    let guard = scratch_guard()
        .sources(&["src"])
        .not_ticked(&["src/visuals.rs"])
        .ban(&[SLEEP]);
    hold(guard.assert_excluded_paths_exist(&existing(&guard, &tree)));
    hold(guard.assert_clean(&tree));

    let guard = scratch_guard()
        .sources(&["src"])
        .not_ticked(&["src/renamed.rs"])
        .ban(&[SLEEP]);
    hold(guard.assert_excluded_paths_exist(&existing(&guard, &tree)));
}

#[test]
#[should_panic(expected = "gone stale")]
fn a_stale_source_list_fails() {
    // A guard over a directory that no longer exists finds nothing, and nothing is clean.
    let tree = tree(&[("src/sim.rs", "fn tick() {}\n")]);
    hold(
        scratch_guard()
            .sources(&["src"])
            .ban(&[SLEEP])
            .min_files(1)
            .assert_clean(&tree),
    );
    hold(
        scratch_guard()
            .sources(&["simulation"])
            .ban(&[SLEEP])
            .assert_clean(&tree),
    );
}

#[test]
fn a_stale_source_list_and_a_reach_are_reported_in_words() {
    let tree = tree(&[("src/sim.rs", "fn tick() {}\n    std::thread::sleep(d); // wait\n")]);
    assert_eq!(
        scratch_guard()
            .sources(&["simulation", "say \"hi\""])
            .ban(&[SLEEP])
            .min_files(3)
            .assert_clean(&tree)
            .unwrap_err()
            .message(),
        "the source guard found 0 ticked file(s) under [\"simulation\", \"say \\\"hi\\\"\"] but \
         expected at least 3; the source list has gone stale"
    );
    assert_eq!(
        stale_list_words(4, "these", 5),
        "the source guard found 4 ticked file(s) under these but expected at least 5; the source \
         list has gone stale"
    );
    assert_eq!(
        scratch_guard()
            .sources(&["src"])
            .ban(&[SLEEP])
            .assert_clean(&tree)
            .unwrap_err()
            .message(),
        "the tick simulation reaches outside the tick (1 violation(s)):\n  src/sim.rs:2: `sleep(` \
         — a tick does not wait\n      std::thread::sleep(d);\n\n\
         Fix the reach, or add an `Exception` with a reason if it is genuinely right."
    );
}

#[test]
fn files_are_listed_once_sorted_and_without_exclusions() {
    let listing: Vec<String> = [
        "/work/game/src/z.rs",
        "/work/game/src/a.rs",
        "/work/game/./src/a.rs",
        "/work/game/src/visuals/draw.rs",
        "/work/game/src/visuals.rs",
        "/work/game/src/a/deep.rs",
        "/work/game/src/notes.md",
        "/work/game/src/.rs",
        "/work/game/srcs/other.rs",
        "/work/game/examples/demo.rs",
    ]
    .iter()
    .map(|path| path.to_string())
    .collect();
    let guard = scratch_guard()
        .sources(&["src", "examples/demo.rs", "src"])
        .not_ticked(&["src/visuals/"]);
    assert_eq!(
        guard.roots(),
        ["/work/game/src", "/work/game/examples/demo.rs", "/work/game/src"]
    );
    let files = guard.files(&listing);
    assert_eq!(
        files,
        [
            "/work/game/examples/demo.rs",
            "/work/game/src/a/deep.rs",
            "/work/game/src/a.rs",
            "/work/game/src/visuals.rs",
            "/work/game/src/z.rs",
        ]
    );
    // Asked about the files it has named, a guard names them again.
    assert_eq!(guard.files(&files), files);
    assert_eq!(guard.relative("/work/game/src/a.rs"), "src/a.rs");
    assert_eq!(guard.relative("/work/game/./src\\b.rs"), "src/b.rs");
    assert_eq!(guard.relative("/elsewhere/c.rs"), "/elsewhere/c.rs");

    assert_eq!(
        rust_files("/work/game/src", &listing).len(),
        6,
        "a listing is filtered and keeps its order"
    );
    assert_eq!(
        rust_files("/work/game/examples/demo.rs", &listing),
        ["/work/game/examples/demo.rs"]
    );
    assert!(rust_files("/work/missing", &listing).is_empty());
}

#[test]
fn violations_come_by_line_and_then_by_needle() {
    let guard = scratch_guard()
        .ban(&[
            SLEEP,
            Needle {
                needle: "wait",
                reason: "nor does it wait",
            },
        ])
        .allow(&[Exception {
            path: "src/ok.rs",
            needle: "wait",
            reason: "named so",
            expires: None,
        }]);
    let source = "wait(); sleep(1);\n\nsleep(2);";
    let found: Vec<(usize, &str)> = guard
        .violations_in("src/sim.rs", source)
        .iter()
        .map(|violation| (violation.line, violation.needle))
        .collect();
    assert_eq!(found, [(1, "sleep("), (1, "wait"), (3, "sleep(")]);
    assert_eq!(guard.violations_in("src/ok.rs", source).len(), 2);
    assert!(guard.is_allowed("src/ok.rs", "wait"));
    assert!(!guard.is_allowed("src/sim.rs", "wait"));
}

// ---- the guard over a session crate ----------------------------------------------------------

/// The shape of a transport crate and its examples: each file with the reaches it has.
fn session_crate() -> Vec<SourceFile> {
    tree(&[
        (
            "src/lib.rs",
            "fn fake_transport(world: &mut World) {\n    received_at: bevy_ensemble::Instant::now(),\n}\n",
        ),
        (
            "src/handshake.rs",
            "// Measured on the frame clock.\nfn deliver(app: &mut App) {\n    received_at: bevy_ensemble::Instant::now(),\n}\n",
        ),
        (
            "src/overlay.rs",
            "fn publish_ticked_lines(\n    time: Res<Time<Real>>,\n) {\n    let now = time.elapsed_secs_f64();\n}\n",
        ),
        (
            "src/local_session.rs",
            "fn drive_auto_role(\n    time: Res<Time<Real>>,\n) {\n    let now = time.elapsed_secs();\n}\n",
        ),
        (
            "src/session.rs",
            "fn seed_tick_buffer(\n    ticked: Res<Time<Ticked>>,\n) {}\n",
        ),
        (
            "examples/netpeer.rs",
            "fn main() {\n    let started = Instant::now();\n}\n",
        ),
        (
            "examples/fps_shooter.rs",
            "fn capture_local_input(keys: Res<ButtonInput<KeyCode>>) {}\nfn integrate(time: Res<Time>) { let dt = time.delta_secs(); }\n",
        ),
        (
            "examples/top_down_shooter.rs",
            "fn capture_local_input(keys: Res<ButtonInput<KeyCode>>) {}\nfn setup() { commands.spawn(Sprite::default()); }\n",
        ),
        ("README.md", "Instant::now is not code here\n"),
    ])
}

fn session_guard() -> SourceGuard {
    scratch_guard()
        .sources(&["src", "examples"])
        .ban(&default_needles())
        .allow(&[
            Exception {
                path: "src/lib.rs",
                needle: "Instant::now",
                reason: "a #[cfg(test)] helper stamps `received_at` on a synthetic snapshot \
                         packet; the stamp is transport metadata and never enters the tick",
                expires: None,
            },
            Exception {
                path: "src/handshake.rs",
                needle: "Instant::now",
                reason: "a #[cfg(test)] helper stamps `received_at` on a synthetic handshake \
                         message; the stamp is transport metadata and never enters the tick",
                expires: None,
            },
            Exception {
                path: "src/overlay.rs",
                needle: "Res<Time<Real>",
                reason: "`publish_ticked_lines` runs in PostUpdate and turns the tick counters \
                         into per-second rates for the net-debug overlay; a rate is a \
                         wall-clock quantity and nothing here is read back by the tick",
                expires: None,
            },
            Exception {
                path: "src/overlay.rs",
                needle: "Time<Real>",
                reason: "the same PostUpdate overlay system; see the `Res<Time<Real>` entry",
                expires: None,
            },
            Exception {
                path: "src/local_session.rs",
                needle: "Res<Time<Real>",
                reason: "`drive_auto_role` runs in Update and refreshes the lobby list once a \
                         second of wall clock until a lobby is listed; it never runs in the tick",
                expires: None,
            },
            Exception {
                path: "src/local_session.rs",
                needle: "Time<Real>",
                reason: "the same Update system; see the `Res<Time<Real>` entry",
                expires: None,
            },
            Exception {
                path: "examples/netpeer.rs",
                needle: "Instant::now",
                reason: "the process runner paces `update()` to a tick's worth of wall clock, \
                         bounds the session by a deadline and stamps the pulse; all of it is \
                         outside `TickedLoop`, and the simulation is the fixture's",
                expires: None,
            },
            Exception {
                path: "examples/fps_shooter.rs",
                needle: "ButtonInput",
                reason: "the lobby keys and `capture_local_input` run in Update; the tick \
                         receives a PlayerInput component, never the keyboard",
                expires: None,
            },
            Exception {
                path: "examples/top_down_shooter.rs",
                needle: "ButtonInput",
                reason: "the lobby keys and `capture_local_input` run in Update; the tick \
                         receives a PlayerInput component, never the keyboard",
                expires: None,
            },
            Exception {
                path: "examples/top_down_shooter.rs",
                needle: "Sprite",
                reason: "sprites are spawned by `setup` and the `on_entity_spawned` observer \
                         and moved by `sync_visuals`, all on the frame side; the tick moves \
                         Position, not Transform",
                expires: None,
            },
        ])
        .min_files(5)
}

#[test]
fn the_guardrail_bites() {
    hold(session_guard().assert_it_bites());
}

#[test]
fn the_tick_does_not_read_the_frame() {
    hold(session_guard().assert_clean(&session_crate()));
}

#[test]
fn every_exception_is_still_needed() {
    let guard = session_guard();
    hold(guard.assert_every_exception_is_still_needed(&readings(&guard, &session_crate())));
}

#[test]
fn no_exception_has_expired() {
    hold(session_guard().assert_no_exception_has_expired(None, 1_800_000_000));
}

// ---- golden traces ---------------------------------------------------------------------------

fn check<T: Trace>(text: &str, actual: &T) -> Result<(), GoldenFailure> {
    let fixture = Fixture::Recorded {
        text: text.to_string(),
    };
    match check_golden("fixtures/trace.golden", &fixture, actual)? {
        GoldenOutcome::Matches => Ok(()),
        GoldenOutcome::Write { .. } => unreachable!("nothing was to be recorded"),
    }
}

#[test]
fn a_golden_trace_round_trips() {
    let trace = HashTrace {
        samples: vec![(1, 0x1234), (2, 0xdead_beef), (64, u64::MAX)],
    };

    // The text form is what a person diffs, so it is pinned here as well as round-tripped.
    let text = trace.encode();
    assert_eq!(
        text,
        "1 0x0000000000001234\n2 0x00000000deadbeef\n64 0xffffffffffffffff\n"
    );
    assert_eq!(HashTrace::decode(&text).expect("decodes"), trace);

    // Written the way a re-recording would write it, then checked the way CI checks it.
    match check_golden("fixtures/trace.golden", &Fixture::Rerecord, &trace) {
        Ok(GoldenOutcome::Write { text: written }) => assert_eq!(written, text),
        _ => panic!("a re-recording is written"),
    }
    assert_eq!(
        rerecorded_notice("fixtures/trace.golden"),
        "re-recorded `fixtures/trace.golden` — review the diff before committing it"
    );
    assert!(check(&text, &trace).is_ok());

    // A trace that takes the bytes-in-hex form round-trips too.
    let positions: Vec<(u64, i32, i32)> = vec![(1, -3, 4), (2, 0, 0)];
    let bytes = postcard::to_allocvec(&positions).expect("plain data");
    let text = to_hex(&bytes);
    assert!(
        text.trim().chars().all(|c| c.is_ascii_hexdigit()),
        "the default file form is hex: {text}"
    );
    let read = from_hex(text.trim()).expect("decodes");
    assert_eq!(read, bytes);
    assert_eq!(
        postcard::from_bytes::<Vec<(u64, i32, i32)>>(&read).expect("decodes"),
        positions
    );
}

#[test]
#[should_panic(expected = "tick 7")]
fn a_golden_difference_names_the_tick() {
    let recorded = HashTrace {
        samples: vec![(5, 1), (6, 2), (7, 3), (8, 4)],
    };
    let mut now = recorded.clone();
    now.samples[2].1 = 99;

    assert_eq!(recorded.first_difference(&recorded), None);
    let difference = now.first_difference(&recorded).expect("they differ");
    assert!(difference.starts_with("tick 7:"), "{difference}");

    // Length differences name the first tick one side does not have.
    let mut shorter = recorded.clone();
    shorter.samples.pop();
    let difference = shorter.first_difference(&recorded).expect("they differ");
    assert!(difference.starts_with("tick 8:"), "{difference}");
    let difference = recorded.first_difference(&shorter).expect("they differ");
    assert!(difference.starts_with("tick 8:"), "{difference}");

    // And check_golden says the same thing when it fails.
    if let Err(failure) = check(&recorded.encode(), &now) {
        panic!("{}", failure.message());
    }
}

#[test]
fn golden_differences_are_described_in_full() {
    let trace = |samples: &[(u64, u64)]| HashTrace {
        samples: samples.to_vec(),
    };
    assert_eq!(
        trace(&[(1, 1), (2, 0xff)]).first_difference(&trace(&[(1, 1), (2, 0xfe)])),
        Some(
            "tick 2: this trace has 0x00000000000000ff, the other has 0x00000000000000fe"
                .to_string()
        )
    );
    assert_eq!(
        trace(&[(1, 1), (2, 5)]).first_difference(&trace(&[(1, 1), (3, 5)])),
        Some(
            "sample 1: this trace sampled tick 2, the other sampled tick 3; the traces were not \
             recorded on the same schedule"
                .to_string()
        )
    );
    assert_eq!(
        trace(&[(1, 1), (2, 5)]).first_difference(&trace(&[(1, 1)])),
        Some(
            "tick 2: this trace continues (2 samples) where the other ends (1 samples)"
                .to_string()
        )
    );
    assert_eq!(
        trace(&[]).first_difference(&trace(&[(4, 1)])),
        Some(
            "tick 4: the other trace continues (1 samples) where this one ends (0 samples)"
                .to_string()
        )
    );
}

#[test]
fn golden_text_that_does_not_decode_says_where() {
    let error = |text: &str| HashTrace::decode(text).unwrap_err();
    assert_eq!(
        HashTrace::decode("\n  7 0x0x1f \r\n\n+8 FF").expect("decodes"),
        HashTrace {
            samples: vec![(7, 0x1f), (8, 0xff)],
        }
    );
    assert_eq!(
        error("1 0x1\n\nnonsense"),
        "line 3: expected `tick hash`, got `nonsense`"
    );
    assert_eq!(
        error("one 0x1"),
        "line 1: bad tick `one`: invalid digit found in string"
    );
    assert_eq!(
        error("18446744073709551616 0x1"),
        "line 1: bad tick `18446744073709551616`: number too large to fit in target type"
    );
    assert_eq!(
        error("1 0x"),
        "line 1: bad hash `0x`: cannot parse integer from empty string"
    );
    assert_eq!(
        error("1  0x1"),
        "line 1: bad hash ` 0x1`: invalid digit found in string"
    );

    assert_eq!(from_hex("abc").unwrap_err(), "odd number of hex digits");
    assert_eq!(
        from_hex("00zz").unwrap_err(),
        "bad hex at byte 1: invalid digit found in string"
    );
    assert_eq!(
        from_hex("0é0").unwrap_err(),
        "bad hex at byte 0: invalid digit found in string"
    );
    assert_eq!(from_hex("+f0A").expect("decodes"), [15, 10]);
    assert_eq!(from_hex("").expect("decodes"), Vec::<u8>::new());
    assert_eq!(to_hex(&vec![0, 10, 255]), "000aff\n");
}

#[test]
fn golden_failures_say_how_to_record() {
    let trace = HashTrace {
        samples: vec![(1, 2)],
    };
    let missing = Fixture::Missing {
        error: "not found".to_string(),
    };
    let failure = check_golden("a.golden", &missing, &trace).err().expect("missing");
    assert_eq!(
        failure.message(),
        "no golden trace at `a.golden` (not found).\nRecord one with:\n    UPDATE_GOLDEN=1 cargo \
         test\nand commit it, having read it."
    );
    assert_eq!(
        check("x", &trace).unwrap_err().message(),
        "the golden trace at `fixtures/trace.golden` could not be read: line 1: expected `tick \
         hash`, got `x`\nRe-record it with:\n    UPDATE_GOLDEN=1 cargo test"
    );
    assert_eq!(
        check("", &trace).unwrap_err().message(),
        "the simulation no longer does what `fixtures/trace.golden` recorded.\n\n  tick 1: this \
         trace continues (1 samples) where the other ends (0 samples)\n\nIf that change is \
         intended, re-record with:\n    UPDATE_GOLDEN=1 cargo test\nand read the diff to the \
         fixture before committing it."
    );
}

#[test]
fn a_trace_is_recorded_on_its_schedule() {
    let sampled: Vec<u64> = (1..=10).filter(|frame| is_sampled(*frame, 3)).collect();
    assert_eq!(sampled, [3, 6, 9]);
    let trace = record_trace(10, 3, &vec![(Some(4), 7), (None, 8), (Some(9), 9)]);
    assert_eq!(trace.samples, [(4, 7), (6, 8), (9, 9)]);
    assert!(record_trace(2, 3, &vec![]).samples.is_empty());
}
