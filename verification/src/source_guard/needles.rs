//! What a ticked simulation reaches for by reflex.

use vstd::prelude::*;

use crate::source_code::{
    code_of, is_plain, lemma_line_comment_is_removed, lemma_plain_code_is_kept,
    lemma_plain_string_content, lemma_sign_makes_nothing_raw, lemma_string_is_removed,
};
use crate::text::{
    contains, joined, lemma_first_line, lemma_joined_from_front, lines_of, occurs_at,
};

use super::assertions::{
    bare_guard, bites, bites_on, code_line, code_naming, found_in_code, found_in_prose,
    prose_lines, prose_naming,
};
use super::{found_in, found_in_line, found_in_lines, is_excused, GuardModel, Needle, ViolationModel};

verus! {

/// What a ticked simulation reaches for by reflex, and must not.
///
/// The frame clock, the keyboard, the thread's randomness, the wall clock, and rendering. Each
/// needle is spelled to match a *read* of the thing, `Time<Virtual>` and not `Time`, because the
/// point is to catch the reach without flagging the tick stamps and tick-clock reads that are
/// exactly right. `Res<Time>` is not here on purpose: inside a tick it is the tick clock, and
/// reading it is the sanctioned way to know how long a tick is.
pub open spec fn default_needle_list() -> Seq<Needle> {
    seq![
        Needle {
            needle: "Res<Time<Virtual>",
            reason: "reads the frame clock inside a tick; use Res<Time>, which bevy_ticked sets to the tick clock",
        },
        Needle {
            needle: "Res<Time<Real>",
            reason: "reads the wall clock inside a tick; use Res<Time>, which bevy_ticked sets to the tick clock",
        },
        Needle {
            needle: "Res<Time<Fixed>",
            reason: "reads the fixed-step clock inside a tick; use Res<Time>, which bevy_ticked sets to the tick clock",
        },
        Needle {
            needle: "ResMut<Time<",
            reason: "writes a clock; only bevy_ticked's own driver may do that",
        },
        Needle {
            needle: "Time<Virtual>",
            reason: "names the frame clock; a tick advances by exactly one tick, not by the frame's delta",
        },
        Needle {
            needle: "Time<Real>",
            reason: "names the wall clock; wall-clock time is not simulation state",
        },
        Needle {
            needle: "ButtonInput",
            reason: "input belongs outside the tick, captured once and handed to the tick as data",
        },
        Needle {
            needle: "rand::",
            reason: "randomness in a tick must be seeded from the tick and the world, not from the thread",
        },
        Needle {
            needle: "thread_rng",
            reason: "the thread's randomness differs on every peer; seed a generator from the tick",
        },
        Needle {
            needle: "rand::rng(",
            reason: "the thread's randomness differs on every peer; seed a generator from the tick",
        },
        Needle {
            needle: "SystemTime",
            reason: "wall-clock time is not simulation state",
        },
        Needle {
            needle: "Instant::now",
            reason: "wall-clock time is not simulation state",
        },
        Needle {
            needle: "Gizmos<",
            reason: "drawing is not simulation; draw from a frame system that reads the tick's state",
        },
        Needle {
            needle: "Sprite",
            reason: "rendering is not simulation; a headless peer has no sprites and must tick identically",
        },
        Needle {
            needle: "AssetServer",
            reason: "assets load asynchronously and differ per peer; the tick may not depend on one",
        },
        Needle {
            needle: "SECONDS_PER_TICK",
            reason: "a second source of truth for the tick length that Time<Fixed> can disagree with; read Res<Time>::delta() inside the tick",
        },
    ]
}

/// The needles of [`default_needle_list`].
pub fn default_needles() -> (needles: Vec<Needle>)
    ensures
        needles@ == default_needle_list(),
{
    let needles: Vec<Needle> = vec![
        Needle {
            needle: "Res<Time<Virtual>",
            reason: "reads the frame clock inside a tick; use Res<Time>, which bevy_ticked sets to the tick clock",
        },
        Needle {
            needle: "Res<Time<Real>",
            reason: "reads the wall clock inside a tick; use Res<Time>, which bevy_ticked sets to the tick clock",
        },
        Needle {
            needle: "Res<Time<Fixed>",
            reason: "reads the fixed-step clock inside a tick; use Res<Time>, which bevy_ticked sets to the tick clock",
        },
        Needle {
            needle: "ResMut<Time<",
            reason: "writes a clock; only bevy_ticked's own driver may do that",
        },
        Needle {
            needle: "Time<Virtual>",
            reason: "names the frame clock; a tick advances by exactly one tick, not by the frame's delta",
        },
        Needle {
            needle: "Time<Real>",
            reason: "names the wall clock; wall-clock time is not simulation state",
        },
        Needle {
            needle: "ButtonInput",
            reason: "input belongs outside the tick, captured once and handed to the tick as data",
        },
        Needle {
            needle: "rand::",
            reason: "randomness in a tick must be seeded from the tick and the world, not from the thread",
        },
        Needle {
            needle: "thread_rng",
            reason: "the thread's randomness differs on every peer; seed a generator from the tick",
        },
        Needle {
            needle: "rand::rng(",
            reason: "the thread's randomness differs on every peer; seed a generator from the tick",
        },
        Needle {
            needle: "SystemTime",
            reason: "wall-clock time is not simulation state",
        },
        Needle {
            needle: "Instant::now",
            reason: "wall-clock time is not simulation state",
        },
        Needle {
            needle: "Gizmos<",
            reason: "drawing is not simulation; draw from a frame system that reads the tick's state",
        },
        Needle {
            needle: "Sprite",
            reason: "rendering is not simulation; a headless peer has no sprites and must tick identically",
        },
        Needle {
            needle: "AssetServer",
            reason: "assets load asynchronously and differ per peer; the tick may not depend on one",
        },
        Needle {
            needle: "SECONDS_PER_TICK",
            reason: "a second source of truth for the tick length that Time<Fixed> can disagree with; read Res<Time>::delta() inside the tick",
        },
    ];
    assert(needles@ =~= default_needle_list());
    needles
}

// ---- what a guard finds ----------------------------------------------------------------------

/// Whether `violation` is a line of `code`, the code of the file at `path`, that contains one of
/// the needles and is not excused.
pub open spec fn is_violation(
    guard: GuardModel,
    path: Seq<char>,
    code: Seq<Seq<char>>,
    violation: ViolationModel,
) -> bool {
    &&& violation.path == path
    &&& 1 <= violation.line <= code.len()
    &&& violation.text == code[violation.line - 1]
    &&& contains(violation.text, violation.needle)
    &&& !is_excused(guard, path, violation.needle)
    &&& exists|k: int|
        0 <= k < guard.needles.len() && (#[trigger] guard.needles[k]).needle@ == violation.needle
            && guard.needles[k].reason@ == violation.reason
}

/// Whether line `line` of `code`, counted from zero, contains the needle at `k`, unexcused.
pub open spec fn is_reach(
    guard: GuardModel,
    path: Seq<char>,
    code: Seq<Seq<char>>,
    line: int,
    k: int,
) -> bool {
    &&& 0 <= line < code.len()
    &&& 0 <= k < guard.needles.len()
    &&& contains(code[line], guard.needles[k].needle@)
    &&& !is_excused(guard, path, guard.needles[k].needle@)
}

proof fn lemma_found_in_line(
    guard: GuardModel,
    path: Seq<char>,
    code: Seq<Seq<char>>,
    line: int,
    count: nat,
)
    requires
        0 <= line < code.len(),
        count <= guard.needles.len(),
    ensures
        ({
            let found = found_in_line(guard, path, (line + 1) as nat, code[line], count);
            &&& forall|j: int|
                0 <= j < found.len() ==> is_violation(guard, path, code, #[trigger] found[j])
                    && found[j].line == line + 1
            &&& forall|k: int|
                0 <= k < count && #[trigger] is_reach(guard, path, code, line, k) ==> bites(
                    found,
                    guard.needles[k].needle@,
                    (line + 1) as nat,
                )
        }),
    decreases count,
{
    let number = (line + 1) as nat;
    let found = found_in_line(guard, path, number, code[line], count);
    if count > 0 {
        let last = count - 1;
        lemma_found_in_line(guard, path, code, line, last as nat);
        let earlier = found_in_line(guard, path, number, code[line], last as nat);
        assert forall|k: int|
            0 <= k < count && #[trigger] is_reach(guard, path, code, line, k) implies bites(
            found,
            guard.needles[k].needle@,
            number,
        ) by {
            if k < last {
                assert(bites(earlier, guard.needles[k].needle@, number));
                let j = choose|j: int|
                    0 <= j < earlier.len() && (#[trigger] earlier[j]).needle
                        == guard.needles[k].needle@ && earlier[j].line == number;
                assert(found[j] == earlier[j]);
            } else {
                assert(found[earlier.len() as int].needle == guard.needles[k].needle@);
            }
        }
        assert forall|j: int| 0 <= j < found.len() implies is_violation(
            guard,
            path,
            code,
            #[trigger] found[j],
        ) && found[j].line == line + 1 by {
            if j < earlier.len() {
                assert(found[j] == earlier[j]);
            } else {
                assert(guard.needles[last].needle@ == found[j].needle);
            }
        }
    }
}

proof fn lemma_found_in_lines(
    guard: GuardModel,
    path: Seq<char>,
    code: Seq<Seq<char>>,
    count: nat,
)
    requires
        count <= code.len(),
    ensures
        ({
            let found = found_in_lines(guard, path, code, count);
            &&& forall|j: int|
                0 <= j < found.len() ==> is_violation(guard, path, code, #[trigger] found[j])
            &&& forall|line: int, k: int|
                0 <= line < count && #[trigger] is_reach(guard, path, code, line, k) ==> bites(
                    found,
                    guard.needles[k].needle@,
                    (line + 1) as nat,
                )
        }),
    decreases count,
{
    let found = found_in_lines(guard, path, code, count);
    if count > 0 {
        let last = count - 1;
        let earlier = found_in_lines(guard, path, code, last as nat);
        let new = found_in_line(guard, path, count, code[last], guard.needles.len());
        lemma_found_in_lines(guard, path, code, last as nat);
        lemma_found_in_line(guard, path, code, last, guard.needles.len());
        assert forall|line: int, k: int|
            0 <= line < count && #[trigger] is_reach(guard, path, code, line, k) implies bites(
            found,
            guard.needles[k].needle@,
            (line + 1) as nat,
        ) by {
            let needle = guard.needles[k].needle@;
            if line < last {
                assert(bites(earlier, needle, (line + 1) as nat));
                let j = choose|j: int|
                    0 <= j < earlier.len() && (#[trigger] earlier[j]).needle == needle
                        && earlier[j].line == line + 1;
                assert(found[j] == earlier[j]);
            } else {
                assert(bites(new, needle, count));
                let j = choose|j: int|
                    0 <= j < new.len() && (#[trigger] new[j]).needle == needle && new[j].line
                        == count;
                assert(found[earlier.len() + j] == new[j]);
            }
        }
        assert forall|j: int| 0 <= j < found.len() implies is_violation(
            guard,
            path,
            code,
            #[trigger] found[j],
        ) by {
            if j < earlier.len() {
                assert(found[j] == earlier[j]);
            } else {
                assert(found[j] == new[j - earlier.len()]);
            }
        }
    }
}

/// A guard reports nothing but lines of code that contain a needle and are not excused, and it
/// reports every one of them under its line number.
pub proof fn lemma_found_in(guard: GuardModel, path: Seq<char>, source: Seq<char>)
    ensures
        forall|j: int|
            0 <= j < found_in(guard, path, source).len() ==> is_violation(
                guard,
                path,
                lines_of(code_of(source)),
                #[trigger] found_in(guard, path, source)[j],
            ),
        forall|line: int, k: int|
            #[trigger] is_reach(guard, path, lines_of(code_of(source)), line, k) ==> bites(
                found_in(guard, path, source),
                guard.needles[k].needle@,
                (line + 1) as nat,
            ),
{
    let code = lines_of(code_of(source));
    lemma_found_in_lines(guard, path, code, code.len());
}

/// A guard is clean on a file exactly when no line of its code reaches for a banned needle
/// without an excuse.
pub proof fn lemma_clean_means_no_reach(guard: GuardModel, path: Seq<char>, source: Seq<char>)
    ensures
        found_in(guard, path, source).len() == 0 <==> forall|line: int, k: int|
            !#[trigger] is_reach(guard, path, lines_of(code_of(source)), line, k),
{
    let code = lines_of(code_of(source));
    let found = found_in(guard, path, source);
    lemma_found_in(guard, path, source);
    if found.len() > 0 {
        assert(is_violation(guard, path, code, found[0]));
        let k = choose|k: int|
            0 <= k < guard.needles.len() && (#[trigger] guard.needles[k]).needle@ == found[0].needle
                && guard.needles[k].reason@ == found[0].reason;
        assert(is_reach(guard, path, code, found[0].line - 1, k));
    }
}

// ---- checking the check ----------------------------------------------------------------------

/// Whether a needle is spelled so that a guard can be shown to bite on it: it opens no comment and
/// no literal, it lies on one line, and the code around it does not contain it anyway.
pub open spec fn is_spelled_to_bite(needle: Seq<char>) -> bool {
    &&& is_plain(needle)
    &&& !needle.contains('\n')
    &&& !needle.contains('\\')
    &&& !contains("let _ = ;"@, needle)
}

proof fn lemma_code_line(needle: Seq<char>)
    requires
        is_spelled_to_bite(needle),
    ensures
        is_plain(code_line(needle)),
        !code_line(needle).contains('\n'),
        code_line(needle).len() > 0,
        code_line(needle).last() == ';',
        contains(code_line(needle), needle),
{
    reveal_strlit("let _ = ");
    reveal_strlit(";");
    let line = code_line(needle);
    assert forall|k: int| 0 <= k < line.len() implies {
        &&& #[trigger] line[k] != '"'
        &&& line[k] != '/'
        &&& line[k] != '\''
        &&& line[k] != '\n'
    } by {
        if 8 <= k < 8 + needle.len() {
            assert(line[k] == needle[k - 8]);
            assert(needle.contains(needle[k - 8]));
        }
    }
    assert(line.subrange(8, 8 + needle.len() as int) =~= needle);
    assert(occurs_at(line, needle, 8));
}

/// Plain lines joined by line ends are plain, and those are their lines.
proof fn lemma_joined_lines(parts: Seq<Seq<char>>)
    requires
        parts.len() > 0,
        forall|k: int|
            0 <= k < parts.len() ==> {
                &&& is_plain(#[trigger] parts[k])
                &&& !parts[k].contains('\n')
                &&& parts[k].len() > 0
                &&& parts[k].last() != '\r'
            },
    ensures
        is_plain(joined(parts, "\n"@)),
        lines_of(joined(parts, "\n"@)) == parts,
    decreases parts.len(),
{
    reveal_strlit("\n");
    assert("\n"@ =~= seq!['\n']);
    if parts.len() == 1 {
        lemma_first_line(parts[0], Seq::empty());
        assert(parts =~= seq![parts[0]]);
    } else {
        lemma_joined_from_front(parts, "\n"@);
        let rest = parts.skip(1);
        assert forall|k: int| 0 <= k < rest.len() implies {
            &&& is_plain(#[trigger] rest[k])
            &&& !rest[k].contains('\n')
            &&& rest[k].len() > 0
            &&& rest[k].last() != '\r'
        } by {
            assert(rest[k] == parts[k + 1]);
        }
        lemma_joined_lines(rest);
        lemma_first_line(parts[0], joined(rest, "\n"@));
        let whole = joined(parts, "\n"@);
        let tail = joined(rest, "\n"@);
        assert forall|k: int| 0 <= k < whole.len() implies {
            &&& #[trigger] whole[k] != '"'
            &&& whole[k] != '/'
            &&& whole[k] != '\''
        } by {
            if k < parts[0].len() {
                assert(whole[k] == parts[0][k]);
            } else if k > parts[0].len() {
                assert(whole[k] == tail[k - parts[0].len() - 1]);
            }
        }
        assert(seq![parts[0]] + rest =~= parts);
    }
}

proof fn lemma_bites_code(needles: Seq<Needle>)
    requires
        needles.len() > 0,
        forall|k: int|
            0 <= k < needles.len() ==> is_spelled_to_bite((#[trigger] needles[k]).needle@),
    ensures
        forall|k: int| 0 <= k < needles.len() ==> #[trigger] bites_on(needles, k),
{
    let parts = needles.map_values(|needle: Needle| code_line(needle.needle@));
    let text = code_naming(needles);
    assert forall|k: int| 0 <= k < parts.len() implies {
        &&& is_plain(#[trigger] parts[k])
        &&& !parts[k].contains('\n')
        &&& parts[k].len() > 0
        &&& parts[k].last() != '\r'
    } by {
        lemma_code_line(needles[k].needle@);
    }
    lemma_joined_lines(parts);
    lemma_plain_code_is_kept(text, Seq::empty());
    assert(text + Seq::<char>::empty() =~= text);
    assert(code_of(Seq::<char>::empty()) =~= Seq::<char>::empty());
    assert(code_of(text) =~= text);
    let guard = bare_guard(needles);
    lemma_found_in(guard, "code.rs"@, text);
    assert forall|k: int| 0 <= k < needles.len() implies #[trigger] bites_on(needles, k) by {
        lemma_code_line(needles[k].needle@);
        assert(parts[k] == code_line(needles[k].needle@));
        assert(is_reach(guard, "code.rs"@, lines_of(code_of(text)), k, k));
    }
}

/// What is left of the mention of a needle in a comment and in a string.
proof fn lemma_prose_lines(needle: Seq<char>, tail: Seq<char>)
    requires
        is_spelled_to_bite(needle),
    ensures
        code_of(prose_lines(needle) + tail) == seq!['\n'] + "let _ = ;"@ + code_of(tail),
{
    reveal_strlit("// ");
    reveal_strlit("\nlet _ = \"");
    reveal_strlit("\";");
    reveal_strlit("let _ = ;");
    let comment = seq![' '] + needle;
    let head = seq!['l', 'e', 't', ' ', '_', ' ', '=', ' '];
    let after = seq!['"'] + needle + seq!['"'] + (seq![';'] + tail);
    assert(prose_lines(needle) + tail =~= seq!['/', '/'] + comment + seq!['\n'] + (head + after));
    assert forall|k: int| 0 <= k < comment.len() implies comment[k] != '\n' by {
        if k > 0 {
            assert(needle.contains(needle[k - 1]));
        }
    }
    assert forall|k: int| 0 <= k < needle.len() implies {
        &&& #[trigger] needle[k] != '"'
        &&& needle[k] != '\\'
        &&& needle[k] != '\n'
    } by {
        assert(needle.contains(needle[k]));
    }
    lemma_line_comment_is_removed(comment, head + after);
    lemma_sign_makes_nothing_raw(head, after);
    lemma_plain_code_is_kept(head, after);
    lemma_plain_string_content(needle);
    lemma_string_is_removed(needle, seq![';'] + tail);
    lemma_sign_makes_nothing_raw(seq![';'], tail);
    lemma_plain_code_is_kept(seq![';'], tail);
    assert(code_of(prose_lines(needle) + tail) =~= seq!['\n'] + "let _ = ;"@ + code_of(tail));
}

/// Whether every line of `text` is empty or `let _ = ;`.
spec fn is_only_lets(text: Seq<char>) -> bool {
    forall|k: int|
        0 <= k < lines_of(text).len() ==> #[trigger] lines_of(text)[k] == Seq::<char>::empty()
            || lines_of(text)[k] == "let _ = ;"@
}

proof fn lemma_prose_leaves_only_lets(parts: Seq<Seq<char>>, needles: Seq<Needle>)
    requires
        needles.len() > 0,
        parts == needles.map_values(|needle: Needle| prose_lines(needle.needle@)),
        forall|k: int|
            0 <= k < needles.len() ==> is_spelled_to_bite((#[trigger] needles[k]).needle@),
    ensures
        is_only_lets(code_of(joined(parts, "\n"@))),
    decreases parts.len(),
{
    reveal_strlit("\n");
    reveal_strlit("let _ = ;");
    let none = Seq::<char>::empty();
    let let_line = "let _ = ;"@;
    assert("\n"@ =~= seq!['\n']);
    assert(!let_line.contains('\n'));
    assert(!none.contains('\n'));
    let first = needles[0].needle@;
    assert(is_spelled_to_bite(first));
    assert(parts[0] == prose_lines(first));
    if parts.len() == 1 {
        lemma_prose_lines(first, none);
        assert(prose_lines(first) + none =~= prose_lines(first));
        assert(code_of(none) =~= none);
        let code = code_of(joined(parts, "\n"@));
        assert(code =~= none + seq!['\n'] + let_line);
        lemma_first_line(none, let_line);
        lemma_first_line(let_line, none);
        assert(lines_of(code) =~= seq![none, let_line]);
    } else {
        let rest = joined(parts.skip(1), "\n"@);
        lemma_joined_from_front(parts, "\n"@);
        assert(parts.skip(1) =~= needles.skip(1).map_values(
            |needle: Needle| prose_lines(needle.needle@),
        ));
        assert forall|k: int| 0 <= k < needles.skip(1).len() implies is_spelled_to_bite(
            (#[trigger] needles.skip(1)[k]).needle@,
        ) by {
            assert(needles.skip(1)[k] == needles[k + 1]);
        }
        lemma_prose_leaves_only_lets(parts.skip(1), needles.skip(1));
        assert(joined(parts, "\n"@) =~= prose_lines(first) + (seq!['\n'] + rest));
        lemma_prose_lines(first, seq!['\n'] + rest);
        lemma_sign_makes_nothing_raw(seq!['\n'], rest);
        lemma_plain_code_is_kept(seq!['\n'], rest);
        let code = code_of(joined(parts, "\n"@));
        let tail = let_line + seq!['\n'] + code_of(rest);
        assert(code =~= none + seq!['\n'] + tail);
        lemma_first_line(none, tail);
        lemma_first_line(let_line, code_of(rest));
        assert(lines_of(code) =~= seq![none, let_line] + lines_of(code_of(rest)));
        assert forall|k: int| 0 <= k < lines_of(code).len() implies #[trigger] lines_of(code)[k]
            == none || lines_of(code)[k] == let_line by {
            if k >= 2 {
                assert(lines_of(code)[k] == lines_of(code_of(rest))[k - 2]);
            }
        }
    }
}

/// A guard with at least one needle, all of them spelled to bite, bites: it finds each needle in
/// its line of code, and none of them in comments and strings.
pub proof fn lemma_spelled_needles_bite(needles: Seq<Needle>)
    requires
        needles.len() > 0,
        forall|k: int|
            0 <= k < needles.len() ==> is_spelled_to_bite((#[trigger] needles[k]).needle@),
    ensures
        forall|k: int| 0 <= k < needles.len() ==> #[trigger] bites_on(needles, k),
        found_in_prose(needles).len() == 0,
{
    lemma_bites_code(needles);
    let guard = bare_guard(needles);
    let text = prose_naming(needles);
    let code = lines_of(code_of(text));
    lemma_prose_leaves_only_lets(
        needles.map_values(|needle: Needle| prose_lines(needle.needle@)),
        needles,
    );
    lemma_clean_means_no_reach(guard, "prose.rs"@, text);
    assert forall|line: int, k: int| !#[trigger] is_reach(guard, "prose.rs"@, code, line, k) by {
        if is_reach(guard, "prose.rs"@, code, line, k) {
            let needle = needles[k].needle@;
            assert(is_spelled_to_bite(needle));
            if code[line] == Seq::<char>::empty() {
                let at = choose|at: int| occurs_at(code[line], needle, at);
                assert(needle.len() == 0);
                assert("let _ = ;"@.subrange(0, 0) =~= needle);
                assert(occurs_at("let _ = ;"@, needle, 0));
            }
        }
    }
}

/// A text with a character that `let _ = ;` does not have does not stand in it.
proof fn lemma_not_in_let(needle: Seq<char>, at: int)
    requires
        0 <= at < needle.len(),
        ({
            let c = needle[at];
            c != 'l' && c != 'e' && c != 't' && c != ' ' && c != '_' && c != '=' && c != ';'
        }),
    ensures
        !contains("let _ = ;"@, needle),
{
    reveal_strlit("let _ = ;");
    let text = "let _ = ;"@;
    assert forall|from: int| !occurs_at(text, needle, from) by {
        if occurs_at(text, needle, from) {
            assert(text.subrange(from, from + needle.len())[at] == text[from + at]);
        }
    }
}

/// The default needles are spelled to bite.
pub proof fn lemma_default_needles_bite()
    ensures
        forall|k: int|
            0 <= k < default_needle_list().len() ==> #[trigger] bites_on(default_needle_list(), k),
        found_in_prose(default_needle_list()).len() == 0,
{
    assert(is_spelled_to_bite("Res<Time<Virtual>"@)) by {
        reveal_strlit("Res<Time<Virtual>");
        lemma_not_in_let("Res<Time<Virtual>"@, 0);
    }
    assert(is_spelled_to_bite("Res<Time<Real>"@)) by {
        reveal_strlit("Res<Time<Real>");
        lemma_not_in_let("Res<Time<Real>"@, 0);
    }
    assert(is_spelled_to_bite("Res<Time<Fixed>"@)) by {
        reveal_strlit("Res<Time<Fixed>");
        lemma_not_in_let("Res<Time<Fixed>"@, 0);
    }
    assert(is_spelled_to_bite("ResMut<Time<"@)) by {
        reveal_strlit("ResMut<Time<");
        lemma_not_in_let("ResMut<Time<"@, 0);
    }
    assert(is_spelled_to_bite("Time<Virtual>"@)) by {
        reveal_strlit("Time<Virtual>");
        lemma_not_in_let("Time<Virtual>"@, 0);
    }
    assert(is_spelled_to_bite("Time<Real>"@)) by {
        reveal_strlit("Time<Real>");
        lemma_not_in_let("Time<Real>"@, 0);
    }
    assert(is_spelled_to_bite("ButtonInput"@)) by {
        reveal_strlit("ButtonInput");
        lemma_not_in_let("ButtonInput"@, 0);
    }
    assert(is_spelled_to_bite("rand::"@)) by {
        reveal_strlit("rand::");
        lemma_not_in_let("rand::"@, 0);
    }
    assert(is_spelled_to_bite("thread_rng"@)) by {
        reveal_strlit("thread_rng");
        lemma_not_in_let("thread_rng"@, 1);
    }
    assert(is_spelled_to_bite("rand::rng("@)) by {
        reveal_strlit("rand::rng(");
        lemma_not_in_let("rand::rng("@, 0);
    }
    assert(is_spelled_to_bite("SystemTime"@)) by {
        reveal_strlit("SystemTime");
        lemma_not_in_let("SystemTime"@, 0);
    }
    assert(is_spelled_to_bite("Instant::now"@)) by {
        reveal_strlit("Instant::now");
        lemma_not_in_let("Instant::now"@, 0);
    }
    assert(is_spelled_to_bite("Gizmos<"@)) by {
        reveal_strlit("Gizmos<");
        lemma_not_in_let("Gizmos<"@, 0);
    }
    assert(is_spelled_to_bite("Sprite"@)) by {
        reveal_strlit("Sprite");
        lemma_not_in_let("Sprite"@, 0);
    }
    assert(is_spelled_to_bite("AssetServer"@)) by {
        reveal_strlit("AssetServer");
        lemma_not_in_let("AssetServer"@, 0);
    }
    assert(is_spelled_to_bite("SECONDS_PER_TICK"@)) by {
        reveal_strlit("SECONDS_PER_TICK");
        lemma_not_in_let("SECONDS_PER_TICK"@, 0);
    }
    let needles = default_needle_list();
    assert forall|k: int| 0 <= k < needles.len() implies is_spelled_to_bite(
        (#[trigger] needles[k]).needle@,
    ) by {}
    lemma_spelled_needles_bite(needles);
}

} // verus!
