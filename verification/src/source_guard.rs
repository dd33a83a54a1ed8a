//! The grep-the-source guardrail: a ticked simulation may not reach for the frame.
//!
//! A ticked system must be a pure function of the tick and its inputs, and nothing in the language
//! enforces that. So a guard reads the source of the files that run inside the tick and looks for
//! substrings, with comments and string literals already stripped by [`code_only`].
//!
//! A guard works on files that somebody else has listed and read: [`SourceGuard::roots`],
//! [`SourceGuard::exception_files`] and [`SourceGuard::excluded_files`] say which to look at.

use vstd::prelude::*;
use vstd::string::*;

pub mod assertions;
pub mod needles;

pub use crate::source_code::code_only;
pub use assertions::GuardFailure;
pub use needles::default_needles;

use crate::number::{decimal, decimal_of};
use crate::path::{
    components, inside, is_relative, is_rust, is_rust_file, is_trim, is_under, join_path,
    joined_path, lemma_components_add_up, lemma_path_before_total, lemma_path_before_transitive,
    lemma_relative_path_reads_back, lies_under, path_before, place_of, relative_path, relative_to,
    same_path, Place,
};
use crate::source_code::code_of;
use crate::text::{
    chars_of, contains, first_index, has_text, join, joined, lemma_contains_its_parts,
    lemma_contains_what_stands_in_it, lemma_joins_are_joined, lines, lines_of, occurs_at, same,
    stands_at, str_views, trim, trimmed, views, without_return,
};

verus! {

// ---- needles, exceptions, violations ---------------------------------------------------------

/// A substring that may not appear in ticked source, and why.
#[derive(Clone, Copy, Debug, PartialEq, Eq)]
pub struct Needle {
    /// The substring, spelled to match the *reach* and not merely the word.
    pub needle: &'static str,
    /// One line, printed next to every violation. Say what to do instead.
    pub reason: &'static str,
}

/// One file that is allowed one needle, with the reason and, if the reason is temporary, the
/// date by which it should have gone.
#[derive(Clone, Copy, Debug, PartialEq, Eq)]
pub struct Exception {
    /// Relative to the manifest directory, with forward slashes: `src/lib.rs`.
    pub path: &'static str,
    /// Exactly one of the guard's needles.
    pub needle: &'static str,
    /// Why this file is allowed this reach. Written for the person who finds it in a year.
    pub reason: &'static str,
    /// `YYYY-MM-DD`, or `None` for an exception that is right rather than pending.
    pub expires: Option<&'static str>,
}

/// One banned substring found in one line of ticked source.
#[derive(Clone, Debug, PartialEq, Eq)]
pub struct Violation {
    /// Relative to the manifest directory, with forward slashes.
    pub path: String,
    /// One-based, as an editor counts.
    pub line: usize,
    pub needle: &'static str,
    pub reason: &'static str,
    /// The offending line, with comments and string literals already stripped.
    pub text: String,
}

/// A file of a source tree and what it holds.
#[derive(Clone, Debug, PartialEq, Eq)]
pub struct SourceFile {
    pub path: String,
    pub text: String,
}

/// The contents of a [`Violation`].
pub struct ViolationModel {
    pub path: Seq<char>,
    pub line: nat,
    pub needle: Seq<char>,
    pub reason: Seq<char>,
    pub text: Seq<char>,
}

impl View for Violation {
    type V = ViolationModel;

    open spec fn view(&self) -> ViolationModel {
        ViolationModel {
            path: self.path@,
            line: self.line as nat,
            needle: self.needle@,
            reason: self.reason@,
            text: self.text@,
        }
    }
}

/// The contents of a list of violations.
pub open spec fn violation_views(list: Seq<Violation>) -> Seq<ViolationModel> {
    list.map_values(|violation: Violation| violation@)
}

/// A violation in words.
pub open spec fn violation_text(violation: ViolationModel) -> Seq<char> {
    violation.path + ":"@ + decimal(violation.line) + ": `"@ + violation.needle + "` — "@
        + violation.reason + "\n      "@ + trimmed(violation.text)
}

/// Violations in words, one below the other.
pub open spec fn violations_text(list: Seq<ViolationModel>) -> Seq<char> {
    joined(list.map_values(|violation: ViolationModel| violation_text(violation)), "\n  "@)
}

impl Violation {
    /// The violation in words.
    pub fn message(&self) -> (text: String)
        ensures
            text@ == violation_text(self@),
    {
        let mut text: String = self.path.clone();
        text.append(":");
        text.append(decimal_of(self.line as u64).as_str());
        text.append(": `");
        text.append(self.needle);
        text.append("` — ");
        text.append(self.reason);
        text.append("\n      ");
        text.append(trim(self.text.as_str()).as_str());
        text
    }
}

/// Violations in words, one below the other.
pub(crate) fn list_violations(list: &Vec<Violation>) -> (text: String)
    ensures
        text@ == violations_text(violation_views(list@)),
{
    let mut parts: Vec<String> = Vec::new();
    let mut index: usize = 0;
    while index < list.len()
        invariant
            index <= list@.len(),
            parts@.len() == index,
            forall|k: int| 0 <= k < index ==> (#[trigger] parts@[k])@ == violation_text(list@[k]@),
        decreases list@.len() - index,
    {
        parts.push(list[index].message());
        index = index + 1;
    }
    assert(views(parts@) =~= violation_views(list@).map_values(
        |violation: ViolationModel| violation_text(violation),
    ));
    join(&parts, "\n  ")
}

// ---- the guard -------------------------------------------------------------------------------

/// A source guard: which files are ticked, what they may not contain, and who is excused.
#[derive(Clone, Debug)]
pub struct SourceGuard {
    manifest_dir: String,
    sources: Vec<String>,
    not_ticked: Vec<String>,
    needles: Vec<Needle>,
    exceptions: Vec<Exception>,
    min_files: usize,
}

/// The contents of a [`SourceGuard`].
pub struct GuardModel {
    pub manifest_dir: Seq<char>,
    pub sources: Seq<Seq<char>>,
    pub not_ticked: Seq<Seq<char>>,
    pub needles: Seq<Needle>,
    pub exceptions: Seq<Exception>,
    pub min_files: nat,
}

impl View for SourceGuard {
    type V = GuardModel;

    closed spec fn view(&self) -> GuardModel {
        GuardModel {
            manifest_dir: self.manifest_dir@,
            sources: views(self.sources@),
            not_ticked: views(self.not_ticked@),
            needles: self.needles@,
            exceptions: self.exceptions@,
            min_files: self.min_files as nat,
        }
    }
}

/// Whether an exception lets the file at `path` contain `needle`.
pub open spec fn is_excused(guard: GuardModel, path: Seq<char>, needle: Seq<char>) -> bool {
    exists|k: int|
        0 <= k < guard.exceptions.len() && (#[trigger] guard.exceptions[k]).path@ == path
            && guard.exceptions[k].needle@ == needle
}

/// What the first `count` needles find in line `line` of the file at `path`, which reads `text`.
pub open spec fn found_in_line(
    guard: GuardModel,
    path: Seq<char>,
    line: nat,
    text: Seq<char>,
    count: nat,
) -> Seq<ViolationModel>
    decreases count,
{
    if count == 0 {
        Seq::empty()
    } else {
        let needle = guard.needles[count - 1];
        let earlier = found_in_line(guard, path, line, text, (count - 1) as nat);
        if contains(text, needle.needle@) && !is_excused(guard, path, needle.needle@) {
            earlier.push(
                ViolationModel { path, line, needle: needle.needle@, reason: needle.reason@, text },
            )
        } else {
            earlier
        }
    }
}

/// What the needles find in the first `count` lines of the code `code` of the file at `path`.
pub open spec fn found_in_lines(
    guard: GuardModel,
    path: Seq<char>,
    code: Seq<Seq<char>>,
    count: nat,
) -> Seq<ViolationModel>
    decreases count,
{
    if count == 0 {
        Seq::empty()
    } else {
        found_in_lines(guard, path, code, (count - 1) as nat) + found_in_line(
            guard,
            path,
            count,
            code[count - 1],
            guard.needles.len(),
        )
    }
}

/// What the needles find in the file at `path`, which reads `source`: by line, and within a line
/// in the order of the needles.
pub open spec fn found_in(guard: GuardModel, path: Seq<char>, source: Seq<char>) -> Seq<
    ViolationModel,
> {
    let code = lines_of(code_of(source));
    found_in_lines(guard, path, code, code.len())
}

impl SourceGuard {
    /// Whether an exception lets the file at `path` contain `needle`.
    pub fn is_allowed(&self, path: &str, needle: &str) -> (allowed: bool)
        ensures
            allowed == is_excused(self@, path@, needle@),
    {
        let mut index: usize = 0;
        while index < self.exceptions.len()
            invariant
                index <= self.exceptions@.len(),
                forall|k: int|
                    0 <= k < index ==> !((#[trigger] self.exceptions@[k]).path@ == path@
                        && self.exceptions@[k].needle@ == needle@),
            decreases self.exceptions@.len() - index,
        {
            let exception = &self.exceptions[index];
            if same(exception.path, path) && same(exception.needle, needle) {
                assert(self@.exceptions[index as int].path@ == path@);
                return true;
            }
            index = index + 1;
        }
        false
    }

    /// Every banned needle in every line of the file at `path`, which reads `source`, minus the
    /// exceptions.
    pub fn violations_in(&self, path: &str, source: &str) -> (found: Vec<Violation>)
        ensures
            violation_views(found@) == found_in(self@, path@, source@),
    {
        let code = code_only(source);
        let all = lines(code.as_str());
        let ghost code_lines = lines_of(code_of(source@));
        let mut found: Vec<Violation> = Vec::new();
        let mut index: usize = 0;
        let total: usize = all.len();
        assert(violation_views(found@) =~= Seq::<ViolationModel>::empty());
        while index < total
            invariant
                index <= total == all@.len(),
                views(all@) == code_lines,
                violation_views(found@) == found_in_lines(self@, path@, code_lines, index as nat),
            decreases all@.len() - index,
        {
            let ghost had = violation_views(found@);
            let ghost text = all@[index as int]@;
            let ghost line = (index + 1) as nat;
            let mut number: usize = 0;
            assert(text == code_lines[index as int]);
            assert(had + Seq::<ViolationModel>::empty() =~= had);
            while number < self.needles.len()
                invariant
                    number <= self.needles@.len(),
                    index < total == all@.len(),
                    text == all@[index as int]@,
                    line == index + 1,
                    violation_views(found@) == had + found_in_line(
                        self@,
                        path@,
                        line,
                        text,
                        number as nat,
                    ),
                decreases self.needles@.len() - number,
            {
                let ghost before_needle = violation_views(found@);
                let needle = &self.needles[number];
                assert(self@.needles[number as int] == *needle);
                if has_text(all[index].as_str(), needle.needle) && !self.is_allowed(
                    path,
                    needle.needle,
                ) {
                    let violation = Violation {
                        path: String::from_str(path),
                        line: index + 1,
                        needle: needle.needle,
                        reason: needle.reason,
                        text: all[index].clone(),
                    };
                    found.push(violation);
                    assert(violation_views(found@) =~= before_needle.push(violation@));
                    assert(violation_views(found@) =~= had + found_in_line(
                        self@,
                        path@,
                        line,
                        text,
                        (number + 1) as nat,
                    ));
                }
                number = number + 1;
            }
            index = index + 1;
        }
        assert(views(all@).len() == all@.len());
        found
    }

    // ---- building ----------------------------------------------------------------------------

    /// A guard over nothing, rooted at `manifest_dir`.
    ///
    /// Starts with no needles: add [`default_needles`] with [`ban`](Self::ban).
    pub fn new(manifest_dir: &str) -> (guard: Self)
        ensures
            guard@ == (GuardModel {
                manifest_dir: manifest_dir@,
                sources: Seq::empty(),
                not_ticked: Seq::empty(),
                needles: Seq::empty(),
                exceptions: Seq::empty(),
                min_files: 1,
            }),
    {
        let guard = SourceGuard {
            manifest_dir: String::from_str(manifest_dir),
            sources: Vec::new(),
            not_ticked: Vec::new(),
            needles: Vec::new(),
            exceptions: Vec::new(),
            min_files: 1,
        };
        assert(views(guard.sources@) =~= Seq::<Seq<char>>::empty());
        guard
    }

    /// Files or directories whose systems run inside the tick, relative to the manifest
    /// directory. A directory stands for the `.rs` files under it.
    pub fn sources(self, sources: &[&str]) -> (guard: Self)
        ensures
            guard@ == (GuardModel { sources: self@.sources + str_views(sources@), ..self@ }),
    {
        let mut guard = self;
        push_all(&mut guard.sources, sources);
        guard
    }

    /// Paths inside [`sources`](Self::sources) that are *not* part of the tick, relative to the
    /// manifest directory. A file or a directory; a directory excludes everything under it.
    pub fn not_ticked(self, paths: &[&str]) -> (guard: Self)
        ensures
            guard@ == (GuardModel { not_ticked: self@.not_ticked + str_views(paths@), ..self@ }),
    {
        let mut guard = self;
        push_all(&mut guard.not_ticked, paths);
        guard
    }

    /// Add needles. Usually [`default_needles`], plus the game's own.
    pub fn ban(self, needles: &[Needle]) -> (guard: Self)
        ensures
            guard@ == (GuardModel { needles: self@.needles + needles@, ..self@ }),
    {
        let mut guard = self;
        let mut index: usize = 0;
        while index < needles.len()
            invariant
                index <= needles@.len(),
                guard@ == (GuardModel {
                    needles: self@.needles + needles@.take(index as int),
                    ..self@
                }),
            decreases needles@.len() - index,
        {
            guard.needles.push(needles[index]);
            index = index + 1;
            assert(guard@.needles =~= self@.needles + needles@.take(index as int));
        }
        assert(needles@.take(index as int) =~= needles@);
        guard
    }

    /// Add exceptions. A file and needle listed here pass; anything else does not.
    pub fn allow(self, exceptions: &[Exception]) -> (guard: Self)
        ensures
            guard@ == (GuardModel { exceptions: self@.exceptions + exceptions@, ..self@ }),
    {
        let mut guard = self;
        let mut index: usize = 0;
        while index < exceptions.len()
            invariant
                index <= exceptions@.len(),
                guard@ == (GuardModel {
                    exceptions: self@.exceptions + exceptions@.take(index as int),
                    ..self@
                }),
            decreases exceptions@.len() - index,
        {
            guard.exceptions.push(exceptions[index]);
            index = index + 1;
            assert(guard@.exceptions =~= self@.exceptions + exceptions@.take(index as int));
        }
        assert(exceptions@.take(index as int) =~= exceptions@);
        guard
    }

    /// Fail [`assert_clean`](Self::assert_clean) if fewer than `n` files were found, which is
    /// what a stale [`sources`](Self::sources) list looks like. Defaults to 1.
    pub fn min_files(self, n: usize) -> (guard: Self)
        ensures
            guard@ == (GuardModel { min_files: n as nat, ..self@ }),
    {
        let mut guard = self;
        guard.min_files = n;
        guard
    }
}

/// Appends copies of `paths` to `list`.
fn push_all(list: &mut Vec<String>, paths: &[&str])
    ensures
        views(final(list)@) == views(old(list)@) + str_views(paths@),
{
    let mut index: usize = 0;
    let ghost had = views(list@);
    assert(had + str_views(paths@.take(0)) =~= had);
    while index < paths.len()
        invariant
            index <= paths@.len(),
            views(list@) == had + str_views(paths@.take(index as int)),
        decreases paths@.len() - index,
    {
        let ghost now = views(list@);
        list.push(String::from_str(paths[index]));
        index = index + 1;
        assert(views(list@) =~= now.push(paths@[index - 1]@));
        assert(views(list@) =~= had + str_views(paths@.take(index as int)));
    }
    assert(paths@.take(index as int) =~= paths@);
}

// ---- files -----------------------------------------------------------------------------------

/// `path` without the slashes it ends with.
pub open spec fn without_slashes(path: Seq<char>) -> Seq<char>
    decreases path.len(),
{
    if path.len() > 0 && path.last() == '/' {
        without_slashes(path.drop_last())
    } else {
        path
    }
}

/// Whether the relative path `path` is `excluded`, or lies in the directory `excluded`.
pub open spec fn is_within(path: Seq<char>, excluded: Seq<char>) -> bool {
    let name = without_slashes(excluded);
    path == name || (name + seq!['/']).is_prefix_of(path)
}

/// Whether the file at `path` is at or below one of the sources.
pub open spec fn is_source(guard: GuardModel, path: Seq<char>) -> bool {
    exists|k: int|
        0 <= k < guard.sources.len() && is_under(
            path,
            joined_path(guard.manifest_dir, #[trigger] guard.sources[k]),
        )
}

/// Whether the file at `path` is excluded from the tick.
pub open spec fn is_excluded(guard: GuardModel, path: Seq<char>) -> bool {
    exists|k: int|
        0 <= k < guard.not_ticked.len() && is_within(
            relative_path(path, guard.manifest_dir),
            #[trigger] guard.not_ticked[k],
        )
}

/// Whether the file at `path` runs inside the tick.
#[verifier::opaque]
pub open spec fn is_ticked(guard: GuardModel, path: Seq<char>) -> bool {
    is_rust(path) && is_source(guard, path) && !is_excluded(guard, path)
}

/// The ordered list `chosen` of places in `paths`, with the place `at` where its path belongs,
/// unless the list has that path already.
pub open spec fn placed(paths: Seq<Seq<char>>, chosen: Seq<int>, at: int) -> Seq<int>
    decreases chosen.len(),
{
    if chosen.len() == 0 {
        seq![at]
    } else if same_path(paths[chosen.last()], paths[at]) {
        chosen
    } else if path_before(paths[chosen.last()], paths[at]) {
        chosen.push(at)
    } else {
        placed(paths, chosen.drop_last(), at).push(chosen.last())
    }
}

/// Which of the first `count` of `paths` run inside the tick, in the order of paths and each
/// path once.
pub open spec fn ticked_places(guard: GuardModel, paths: Seq<Seq<char>>, count: nat) -> Seq<int>
    decreases count,
{
    if count == 0 {
        Seq::empty()
    } else {
        let earlier = ticked_places(guard, paths, (count - 1) as nat);
        if is_ticked(guard, paths[count - 1]) {
            placed(paths, earlier, count - 1)
        } else {
            earlier
        }
    }
}

/// The ticked files among `paths`, sorted.
pub open spec fn ticked_files(guard: GuardModel, paths: Seq<Seq<char>>) -> Seq<Seq<char>> {
    ticked_places(guard, paths, paths.len()).map_values(|at: int| paths[at])
}

/// Places in machine integers.
pub open spec fn places(list: Seq<usize>) -> Seq<int> {
    list.map_values(|at: usize| at as int)
}

/// Whether the places lie in `paths`, which they list in strictly rising order.
pub open spec fn is_rising(paths: Seq<Seq<char>>, chosen: Seq<int>) -> bool {
    &&& forall|k: int| 0 <= k < chosen.len() ==> 0 <= #[trigger] chosen[k] < paths.len()
    &&& forall|j: int, k: int|
        0 <= j < k < chosen.len() ==> path_before(
            paths[#[trigger] chosen[j]],
            paths[#[trigger] chosen[k]],
        )
}

/// Whether one of the places holds `path`.
pub open spec fn lists_path(paths: Seq<Seq<char>>, chosen: Seq<int>, path: Seq<char>) -> bool {
    exists|k: int| 0 <= k < chosen.len() && same_path(paths[#[trigger] chosen[k]], path)
}

/// Whether every place of `chosen` but `at` is a place of `from`.
spec fn adds_only(chosen: Seq<int>, from: Seq<int>, at: int) -> bool {
    forall|k: int| 0 <= k < chosen.len() ==> #[trigger] chosen[k] == at || from.contains(chosen[k])
}

/// Whether every place of `from` is one of `chosen`.
spec fn keeps_all(chosen: Seq<int>, from: Seq<int>) -> bool {
    forall|k: int| 0 <= k < from.len() ==> chosen.contains(#[trigger] from[k])
}

/// Placing a path keeps a rising list rising, keeps what it lists, adds nothing else, and leaves
/// it listing that path.
proof fn lemma_placed(paths: Seq<Seq<char>>, chosen: Seq<int>, at: int)
    requires
        is_rising(paths, chosen),
        0 <= at < paths.len(),
    ensures
        is_rising(paths, placed(paths, chosen, at)),
        keeps_all(placed(paths, chosen, at), chosen),
        adds_only(placed(paths, chosen, at), chosen, at),
        lists_path(paths, placed(paths, chosen, at), paths[at]),
    decreases chosen.len(),
{
    let result = placed(paths, chosen, at);
    if chosen.len() == 0 {
        assert(result[0] == at);
    } else {
        let last = chosen.last();
        let front = chosen.drop_last();
        lemma_path_before_total(paths[last], paths[at]);
        if same_path(paths[last], paths[at]) {
            assert(result[result.len() - 1] == last);
            assert forall|k: int| 0 <= k < chosen.len() implies result.contains(
                #[trigger] chosen[k],
            ) by {
                assert(result[k] == chosen[k]);
            }
        } else if path_before(paths[last], paths[at]) {
            assert(result[chosen.len() as int] == at);
            assert forall|k: int| 0 <= k < chosen.len() implies result.contains(
                #[trigger] chosen[k],
            ) by {
                assert(result[k] == chosen[k]);
            }
            assert forall|j: int, k: int| 0 <= j < k < result.len() implies path_before(
                paths[#[trigger] result[j]],
                paths[#[trigger] result[k]],
            ) by {
                if k == chosen.len() && j < chosen.len() - 1 {
                    lemma_path_before_transitive(paths[chosen[j]], paths[last], paths[at]);
                }
            }
            assert forall|k: int| 0 <= k < result.len() implies #[trigger] result[k] == at
                || chosen.contains(result[k]) by {
                if k < chosen.len() {
                    assert(chosen[k] == result[k]);
                }
            }
        } else {
            assert(is_rising(paths, front));
            lemma_placed(paths, front, at);
            let rest = placed(paths, front, at);
            assert(result[rest.len() as int] == last);
            assert forall|k: int| 0 <= k < chosen.len() implies result.contains(
                #[trigger] chosen[k],
            ) by {
                if k < front.len() {
                    assert(rest.contains(front[k]));
                    let place = choose|i: int| 0 <= i < rest.len() && rest[i] == front[k];
                    assert(result[place] == chosen[k]);
                }
            }
            assert forall|k: int| 0 <= k < result.len() implies #[trigger] result[k] == at
                || chosen.contains(result[k]) by {
                if k < rest.len() {
                    assert(rest[k] == result[k]);
                    if rest[k] != at {
                        let place = choose|i: int| 0 <= i < front.len() && front[i] == rest[k];
                        assert(chosen[place] == result[k]);
                    }
                } else {
                    assert(chosen[chosen.len() - 1] == result[k]);
                }
            }
            assert forall|j: int, k: int| 0 <= j < k < result.len() implies path_before(
                paths[#[trigger] result[j]],
                paths[#[trigger] result[k]],
            ) by {
                assert(result[j] == rest[j]);
                if k < rest.len() {
                    assert(result[k] == rest[k]);
                } else if rest[j] != at {
                    let place = choose|i: int| 0 <= i < front.len() && front[i] == rest[j];
                    assert(chosen[place] == rest[j]);
                }
            }
            let place = choose|k: int|
                0 <= k < rest.len() && same_path(paths[#[trigger] rest[k]], paths[at]);
            assert(result[place] == rest[place]);
        }
    }
}

proof fn lemma_ticked_places(guard: GuardModel, paths: Seq<Seq<char>>, count: nat)
    requires
        count <= paths.len(),
    ensures
        is_rising(paths, ticked_places(guard, paths, count)),
        forall|k: int|
            0 <= k < ticked_places(guard, paths, count).len() ==> 0
                <= #[trigger] ticked_places(guard, paths, count)[k] < count && is_ticked(
                guard,
                paths[ticked_places(guard, paths, count)[k]],
            ),
    decreases count,
{
    if count > 0 {
        let last = count - 1;
        let earlier = ticked_places(guard, paths, last as nat);
        let result = ticked_places(guard, paths, count);
        lemma_ticked_places(guard, paths, last as nat);
        if is_ticked(guard, paths[last]) {
            lemma_placed(paths, earlier, last);
            assert forall|k: int| 0 <= k < result.len() implies 0 <= #[trigger] result[k] < count
                && is_ticked(guard, paths[result[k]]) by {
                if result[k] != last {
                    assert(earlier.contains(result[k]));
                }
            }
        }
    }
}

proof fn lemma_ticked_path_is_listed(
    guard: GuardModel,
    paths: Seq<Seq<char>>,
    count: nat,
    at: int,
)
    requires
        0 <= at < count <= paths.len(),
        is_ticked(guard, paths[at]),
    ensures
        lists_path(paths, ticked_places(guard, paths, count), paths[at]),
    decreases count,
{
    let last = count - 1;
    let earlier = ticked_places(guard, paths, last as nat);
    lemma_ticked_places(guard, paths, last as nat);
    if is_ticked(guard, paths[last]) {
        lemma_placed(paths, earlier, last);
    }
    if at < last {
        lemma_ticked_path_is_listed(guard, paths, last as nat, at);
        if is_ticked(guard, paths[last]) {
            let result = placed(paths, earlier, last);
            let place = choose|k: int|
                0 <= k < earlier.len() && same_path(paths[#[trigger] earlier[k]], paths[at]);
            assert(result.contains(earlier[place]));
            let new = choose|k: int| 0 <= k < result.len() && result[k] == earlier[place];
            assert(same_path(paths[result[new]], paths[at]));
        }
    }
}

/// The ticked files among `paths` come in strictly rising order, so none is listed twice. Each of
/// them is one of `paths` and runs inside the tick, and every one of `paths` that does is listed.
pub proof fn lemma_ticked_files(guard: GuardModel, paths: Seq<Seq<char>>)
    ensures
        forall|j: int, k: int|
            0 <= j < k < ticked_files(guard, paths).len() ==> path_before(
                #[trigger] ticked_files(guard, paths)[j],
                #[trigger] ticked_files(guard, paths)[k],
            ),
        forall|k: int|
            0 <= k < ticked_files(guard, paths).len() ==> is_ticked(
                guard,
                #[trigger] ticked_files(guard, paths)[k],
            ) && paths.contains(ticked_files(guard, paths)[k]),
        forall|at: int|
            0 <= at < paths.len() && is_ticked(guard, #[trigger] paths[at]) ==> exists|k: int|
                0 <= k < ticked_files(guard, paths).len() && same_path(
                    #[trigger] ticked_files(guard, paths)[k],
                    paths[at],
                ),
{
    lemma_ticked_places(guard, paths, paths.len());
    let chosen = ticked_places(guard, paths, paths.len());
    let files = ticked_files(guard, paths);
    assert forall|j: int, k: int| 0 <= j < k < files.len() implies path_before(
        #[trigger] files[j],
        #[trigger] files[k],
    ) by {
        assert(files[j] == paths[chosen[j]]);
        assert(files[k] == paths[chosen[k]]);
    }
    assert forall|k: int| 0 <= k < files.len() implies is_ticked(guard, #[trigger] files[k])
        && paths.contains(files[k]) by {
        assert(files[k] == paths[chosen[k]]);
    }
    assert forall|at: int| 0 <= at < paths.len() && is_ticked(guard, #[trigger] paths[at]) implies
        exists|k: int| 0 <= k < files.len() && same_path(#[trigger] files[k], paths[at]) by {
        lemma_ticked_path_is_listed(guard, paths, paths.len(), at);
        let place = choose|k: int|
            0 <= k < chosen.len() && same_path(paths[#[trigger] chosen[k]], paths[at]);
        assert(files[place] == paths[chosen[place]]);
    }
}

/// The rust files among `listing` that are `root` or lie below it, in the order of the listing.
pub open spec fn rust_files_under(listing: Seq<Seq<char>>, root: Seq<char>) -> Seq<Seq<char>> {
    listing.filter(|path: Seq<char>| is_rust(path) && is_under(path, root))
}

/// Every `.rs` file at or under `root` among the files of `listing`, unsorted. A file is returned
/// as itself; a missing path is empty.
pub fn rust_files(root: &str, listing: &Vec<String>) -> (found: Vec<String>)
    ensures
        views(found@) == rust_files_under(views(listing@), root@),
{
    let mut found: Vec<String> = Vec::new();
    let mut index: usize = 0;
    let ghost keep = |path: Seq<char>| is_rust(path) && is_under(path, root@);
    reveal(Seq::filter);
    assert(views(found@) =~= views(listing@).take(0).filter(keep));
    while index < listing.len()
        invariant
            index <= listing@.len(),
            keep == (|path: Seq<char>| is_rust(path) && is_under(path, root@)),
            views(found@) == views(listing@).take(index as int).filter(keep),
        decreases listing@.len() - index,
    {
        let ghost had = views(found@);
        let ghost upto = views(listing@).take(index + 1);
        assert(upto.drop_last() =~= views(listing@).take(index as int));
        assert(upto.last() == listing@[index as int]@);
        reveal(Seq::filter);
        if is_rust_file(listing[index].as_str()) && lies_under(listing[index].as_str(), root) {
            found.push(listing[index].clone());
            assert(views(found@) =~= had.push(listing@[index as int]@));
        }
        index = index + 1;
    }
    assert(views(listing@).take(index as int) =~= views(listing@));
    found
}

/// Whether the relative path `path` is `excluded`, or lies in the directory `excluded`.
fn lies_within(path: &str, excluded: &str) -> (within: bool)
    ensures
        within == is_within(path@, excluded@),
{
    let mut name = chars_of(excluded);
    while name.len() > 0 && name[name.len() - 1] == '/'
        invariant
            without_slashes(name@) == without_slashes(excluded@),
        decreases name@.len(),
    {
        name.pop();
    }
    let chars = chars_of(path);
    let ghost bare = name@;
    if chars.len() == name.len() && stands_at(&chars, &name, 0) {
        assert(chars@.subrange(0, name@.len() as int) =~= chars@);
        return true;
    }
    assert(chars@.len() == name@.len() ==> chars@.subrange(0, name@.len() as int) =~= chars@);
    name.push('/');
    let within = stands_at(&chars, &name, 0);
    assert(name@ =~= bare + seq!['/']);
    within
}

// ---- laws of exclusion -----------------------------------------------------------------------

proof fn lemma_without_slashes(path: Seq<char>, slashes: nat)
    ensures
        path.len() == 0 || path.last() != '/' ==> without_slashes(
            path + Seq::new(slashes, |k: int| '/'),
        ) == path,
    decreases slashes,
{
    let whole = path + Seq::new(slashes, |k: int| '/');
    if path.len() == 0 || path.last() != '/' {
        if slashes == 0 {
            assert(whole =~= path);
        } else {
            lemma_without_slashes(path, (slashes - 1) as nat);
            assert(whole.drop_last() =~= path + Seq::new((slashes - 1) as nat, |k: int| '/'));
        }
    }
}

/// A directory that is excluded is excluded with everything below it, however deep: the directory
/// itself and every path that goes on behind it with a slash, whether or not the directory was
/// listed with slashes at its end. A path that goes on behind it with anything else is another one.
pub proof fn lemma_exclusion_goes_all_the_way_down(
    directory: Seq<char>,
    slashes: nat,
    rest: Seq<char>,
    other: char,
)
    requires
        directory.len() > 0,
        directory.last() != '/',
        other != '/',
    ensures
        ({
            let listed = directory + Seq::new(slashes, |k: int| '/');
            &&& is_within(directory, listed)
            &&& is_within(directory + seq!['/'] + rest, listed)
            &&& !is_within(directory + seq![other] + rest, listed)
        }),
{
    lemma_without_slashes(directory, slashes);
    let inside = directory + seq!['/'];
    assert(inside.is_prefix_of(inside + rest));
    let beside = directory + seq![other] + rest;
    assert(beside[directory.len() as int] == other);
    assert(inside[directory.len() as int] == '/');
    if inside.is_prefix_of(beside) {
        assert(beside.subrange(0, inside.len() as int)[directory.len() as int] == '/');
    }
    assert(beside.len() > directory.len());
}

/// Whatever excludes a path excludes every path below it.
pub proof fn lemma_exclusion_is_inherited(path: Seq<char>, excluded: Seq<char>, rest: Seq<char>)
    requires
        is_within(path, excluded),
    ensures
        is_within(path + seq!['/'] + rest, excluded),
{
    let inside = without_slashes(excluded) + seq!['/'];
    let deeper = path + seq!['/'] + rest;
    if path == without_slashes(excluded) {
        assert(inside.is_prefix_of(inside + rest));
    } else {
        assert(inside =~= deeper.subrange(0, inside.len() as int)) by {
            assert(inside =~= path.subrange(0, inside.len() as int));
        }
    }
}

/// No file at or below a path that is listed as not ticked runs inside the tick.
pub proof fn lemma_nothing_below_an_excluded_path_is_ticked(
    guard: GuardModel,
    at: int,
    path: Seq<char>,
    directory: Seq<char>,
    slashes: nat,
    rest: Seq<char>,
)
    requires
        0 <= at < guard.not_ticked.len(),
        directory.len() > 0,
        directory.last() != '/',
        guard.not_ticked[at] == directory + Seq::new(slashes, |k: int| '/'),
        relative_path(path, guard.manifest_dir) == directory || relative_path(
            path,
            guard.manifest_dir,
        ) == directory + seq!['/'] + rest,
    ensures
        !is_ticked(guard, path),
        forall|listing: Seq<Seq<char>>| !#[trigger] ticked_files(guard, listing).contains(path),
{
    reveal(is_ticked);
    lemma_exclusion_goes_all_the_way_down(directory, slashes, rest, 'a');
    assert(is_within(relative_path(path, guard.manifest_dir), guard.not_ticked[at]));
    assert forall|listing: Seq<Seq<char>>| !#[trigger]
        ticked_files(guard, listing).contains(path) by {
        lemma_ticked_files(guard, listing);
        if ticked_files(guard, listing).contains(path) {
            let k = choose|k: int|
                0 <= k < ticked_files(guard, listing).len() && ticked_files(guard, listing)[k]
                    == path;
            assert(is_ticked(guard, ticked_files(guard, listing)[k]));
        }
    }
}

/// A path that is excluded is one of the listed, or goes on behind one of them with a slash: nothing
/// else is left out of the tick.
pub proof fn lemma_only_the_listed_are_excluded(guard: GuardModel, path: Seq<char>)
    requires
        is_rust(path),
        is_source(guard, path),
        !is_ticked(guard, path),
    ensures
        exists|at: int|
            0 <= at < guard.not_ticked.len() && is_listed_or_below(
                relative_path(path, guard.manifest_dir),
                #[trigger] guard.not_ticked[at],
            ),
{
    reveal(is_ticked);
    let relative = relative_path(path, guard.manifest_dir);
    let at = choose|at: int|
        0 <= at < guard.not_ticked.len() && is_within(relative, #[trigger] guard.not_ticked[at]);
    let listed = guard.not_ticked[at];
    lemma_without_slashes_is_a_start(listed);
    let name = without_slashes(listed);
    if relative != name {
        let inside = name + seq!['/'];
        let rest = relative.skip(inside.len() as int);
        assert(relative =~= name + seq!['/'] + rest);
        assert(relative.len() > name.len());
        assert(relative.take(name.len() as int) =~= name);
        assert(relative[name.len() as int] == '/');
    } else {
        assert(relative.take(relative.len() as int) =~= name);
    }
    assert(is_listed_or_below(relative, guard.not_ticked[at]));
}

/// Whether a path begins with the listed one, up to the slashes at the end of that, and ends there
/// or goes on with a slash.
pub open spec fn is_listed_or_below(path: Seq<char>, listed: Seq<char>) -> bool {
    exists|length: int|
        {
            &&& 0 <= length <= listed.len()
            &&& length <= path.len()
            &&& #[trigger] path.take(length) == listed.take(length)
            &&& forall|k: int| length <= k < listed.len() ==> #[trigger] listed[k] == '/'
            &&& path.len() > length ==> path[length] == '/'
        }
}

proof fn lemma_without_slashes_is_a_start(path: Seq<char>)
    ensures
        ({
            let name = without_slashes(path);
            &&& name.len() <= path.len()
            &&& name == path.take(name.len() as int)
            &&& forall|k: int| name.len() <= k < path.len() ==> #[trigger] path[k] == '/'
        }),
    decreases path.len(),
{
    let name = without_slashes(path);
    if path.len() > 0 && path.last() == '/' {
        let front = path.drop_last();
        lemma_without_slashes_is_a_start(front);
        assert(name =~= path.take(name.len() as int));
        assert forall|k: int| name.len() <= k < path.len() implies #[trigger] path[k] == '/' by {
            if k < front.len() {
                assert(front[k] == path[k]);
            }
        }
    } else {
        assert(path.take(path.len() as int) =~= path);
    }
}

/// What the needles find in the files at the places `chosen` of a tree, in that order.
pub open spec fn found_at(
    guard: GuardModel,
    paths: Seq<Seq<char>>,
    texts: Seq<Seq<char>>,
    chosen: Seq<int>,
) -> Seq<ViolationModel>
    decreases chosen.len(),
{
    if chosen.len() == 0 {
        Seq::empty()
    } else {
        found_at(guard, paths, texts, chosen.drop_last()) + found_in(
            guard,
            relative_path(paths[chosen.last()], guard.manifest_dir),
            texts[chosen.last()],
        )
    }
}

/// The paths of a tree.
pub open spec fn tree_paths(tree: Seq<SourceFile>) -> Seq<Seq<char>> {
    tree.map_values(|file: SourceFile| file.path@)
}

/// The texts of a tree.
pub open spec fn tree_texts(tree: Seq<SourceFile>) -> Seq<Seq<char>> {
    tree.map_values(|file: SourceFile| file.text@)
}

/// What the needles find in the ticked files of a tree, sorted by path.
pub open spec fn found_in_tree(guard: GuardModel, tree: Seq<SourceFile>) -> Seq<ViolationModel> {
    let paths = tree_paths(tree);
    found_at(guard, paths, tree_texts(tree), ticked_places(guard, paths, paths.len()))
}

/// The ticked files of a list in rising order are the list itself.
proof fn lemma_rising_files_stay(guard: GuardModel, paths: Seq<Seq<char>>, count: nat)
    requires
        count <= paths.len(),
        forall|k: int| 0 <= k < paths.len() ==> is_ticked(guard, #[trigger] paths[k]),
        forall|j: int, k: int|
            0 <= j < k < paths.len() ==> path_before(#[trigger] paths[j], #[trigger] paths[k]),
    ensures
        ticked_places(guard, paths, count) == Seq::new(count, |k: int| k),
    decreases count,
{
    if count > 0 {
        let last = count - 1;
        lemma_rising_files_stay(guard, paths, last as nat);
        let earlier = ticked_places(guard, paths, last as nat);
        if last > 0 {
            assert(earlier.last() == last - 1);
            lemma_path_before_total(paths[last - 1], paths[last]);
            assert(path_before(paths[last - 1], paths[last]));
        }
        assert(ticked_places(guard, paths, count) =~= earlier.push(last));
    }
    assert(ticked_places(guard, paths, count) =~= Seq::new(count, |k: int| k));
}

/// Asked about the files it has named, a guard names them again.
pub proof fn lemma_files_are_stable(guard: GuardModel, paths: Seq<Seq<char>>)
    ensures
        ticked_files(guard, ticked_files(guard, paths)) == ticked_files(guard, paths),
{
    let files = ticked_files(guard, paths);
    lemma_ticked_files(guard, paths);
    lemma_rising_files_stay(guard, files, files.len());
    assert(ticked_files(guard, files) =~= files);
}

impl SourceGuard {
    /// The manifest directory joined with each of `paths`.
    fn from_manifest_dir(&self, paths: &Vec<String>) -> (list: Vec<String>)
        ensures
            views(list@) == views(paths@).map_values(
                |path: Seq<char>| joined_path(self@.manifest_dir, path),
            ),
    {
        let mut list: Vec<String> = Vec::new();
        let mut index: usize = 0;
        while index < paths.len()
            invariant
                index <= paths@.len(),
                list@.len() == index,
                forall|k: int|
                    0 <= k < index ==> (#[trigger] list@[k])@ == joined_path(
                        self@.manifest_dir,
                        paths@[k]@,
                    ),
            decreases paths@.len() - index,
        {
            list.push(join_path(self.manifest_dir.as_str(), paths[index].as_str()));
            index = index + 1;
        }
        assert(views(list@) =~= views(paths@).map_values(
            |path: Seq<char>| joined_path(self@.manifest_dir, path),
        ));
        list
    }

    /// Where the sources are: the files and directories to list for [`files`](Self::files).
    pub fn roots(&self) -> (list: Vec<String>)
        ensures
            views(list@) == self@.sources.map_values(
                |path: Seq<char>| joined_path(self@.manifest_dir, path),
            ),
    {
        self.from_manifest_dir(&self.sources)
    }

    /// Where the paths that are not part of the tick are.
    pub fn excluded_files(&self) -> (list: Vec<String>)
        ensures
            views(list@) == self@.not_ticked.map_values(
                |path: Seq<char>| joined_path(self@.manifest_dir, path),
            ),
    {
        self.from_manifest_dir(&self.not_ticked)
    }

    /// Where the files that have an exception are, one for each exception.
    pub fn exception_files(&self) -> (list: Vec<String>)
        ensures
            views(list@) == self@.exceptions.map_values(
                |exception: Exception| joined_path(self@.manifest_dir, exception.path@),
            ),
    {
        let mut list: Vec<String> = Vec::new();
        let mut index: usize = 0;
        while index < self.exceptions.len()
            invariant
                index <= self.exceptions@.len(),
                list@.len() == index,
                forall|k: int|
                    0 <= k < index ==> (#[trigger] list@[k])@ == joined_path(
                        self@.manifest_dir,
                        self@.exceptions[k].path@,
                    ),
            decreases self.exceptions@.len() - index,
        {
            list.push(join_path(self.manifest_dir.as_str(), self.exceptions[index].path));
            index = index + 1;
        }
        assert(views(list@) =~= self@.exceptions.map_values(
            |exception: Exception| joined_path(self@.manifest_dir, exception.path@),
        ));
        list
    }

    /// `file` relative to the manifest directory, with forward slashes.
    pub fn relative(&self, file: &str) -> (path: String)
        ensures
            path@ == relative_path(file@, self@.manifest_dir),
    {
        relative_to(file, self.manifest_dir.as_str())
    }

    /// Whether the file at `path` runs inside the tick.
    fn ticks(&self, path: &str) -> (ticked: bool)
        ensures
            ticked == is_ticked(self@, path@),
    {
        reveal(is_ticked);
        if !is_rust_file(path) {
            return false;
        }
        let mut index: usize = 0;
        let mut sourced: bool = false;
        while index < self.sources.len()
            invariant
                index <= self.sources@.len(),
                sourced == exists|k: int|
                    0 <= k < index && is_under(
                        path@,
                        joined_path(self@.manifest_dir, #[trigger] self@.sources[k]),
                    ),
            decreases self.sources@.len() - index,
        {
            assert(self@.sources[index as int] == self.sources@[index as int]@);
            let root = join_path(self.manifest_dir.as_str(), self.sources[index].as_str());
            if lies_under(path, root.as_str()) {
                sourced = true;
            }
            index = index + 1;
        }
        assert(self@.sources.len() == self.sources@.len());
        assert(sourced == is_source(self@, path@));
        if !sourced {
            return false;
        }
        let relative = self.relative(path);
        let mut number: usize = 0;
        while number < self.not_ticked.len()
            invariant
                number <= self.not_ticked@.len(),
                relative@ == relative_path(path@, self@.manifest_dir),
                forall|k: int|
                    0 <= k < number ==> !is_within(relative@, #[trigger] self@.not_ticked[k]),
            decreases self.not_ticked@.len() - number,
        {
            assert(self@.not_ticked[number as int] == self.not_ticked@[number as int]@);
            if lies_within(relative.as_str(), self.not_ticked[number].as_str()) {
                reveal(is_ticked);
                assert(is_excluded(self@, path@));
                return false;
            }
            number = number + 1;
        }
        assert(self@.not_ticked.len() == self.not_ticked@.len());
        assert(!is_excluded(self@, path@));
        true
    }

    /// Which of `paths` run inside the tick, in the order of paths and each path once.
    fn file_places(&self, paths: &Vec<String>) -> (chosen: Vec<usize>)
        ensures
            places(chosen@) == ticked_places(self@, views(paths@), paths@.len()),
    {
        let mut chosen: Vec<usize> = Vec::new();
        let ghost all = views(paths@);
        let mut index: usize = 0;
        assert(places(chosen@) =~= Seq::<int>::empty());
        while index < paths.len()
            invariant
                index <= paths@.len(),
                all == views(paths@),
                places(chosen@) == ticked_places(self@, all, index as nat),
            decreases paths@.len() - index,
        {
            assert(all[index as int] == paths@[index as int]@);
            if self.ticks(paths[index].as_str()) {
                proof {
                    lemma_ticked_places(self@, all, index as nat);
                }
                place(paths, &mut chosen, index);
            }
            index = index + 1;
        }
        chosen
    }

    /// Every `.rs` file of `listing` under the sources, minus the exclusions, sorted.
    pub fn files(&self, listing: &Vec<String>) -> (files: Vec<String>)
        ensures
            views(files@) == ticked_files(self@, views(listing@)),
    {
        let chosen = self.file_places(listing);
        let ghost all = views(listing@);
        proof {
            lemma_ticked_places(self@, all, all.len());
        }
        let ghost wanted = ticked_places(self@, all, all.len());
        let mut files: Vec<String> = Vec::new();
        let mut index: usize = 0;
        while index < chosen.len()
            invariant
                index <= chosen@.len(),
                all == views(listing@),
                wanted == places(chosen@),
                is_rising(all, wanted),
                files@.len() == index,
                forall|k: int| 0 <= k < index ==> (#[trigger] files@[k])@ == all[wanted[k]],
            decreases chosen@.len() - index,
        {
            assert(wanted[index as int] == chosen@[index as int]);
            assert(all[wanted[index as int]] == listing@[chosen@[index as int] as int]@);
            files.push(listing[chosen[index]].clone());
            index = index + 1;
        }
        assert(views(files@) =~= ticked_files(self@, all));
        files
    }

    /// Every banned needle in every line of the ticked files of `tree`, minus the exceptions.
    pub fn violations(&self, tree: &Vec<SourceFile>) -> (found: Vec<Violation>)
        ensures
            violation_views(found@) == found_in_tree(self@, tree@),
    {
        let paths = paths_of(tree);
        let chosen = self.file_places(&paths);
        let ghost all = tree_paths(tree@);
        let ghost texts = tree_texts(tree@);
        proof {
            lemma_ticked_places(self@, all, all.len());
        }
        let ghost wanted = ticked_places(self@, all, all.len());
        let mut found: Vec<Violation> = Vec::new();
        let mut index: usize = 0;
        assert(wanted.take(0) =~= Seq::<int>::empty());
        assert(violation_views(found@) =~= Seq::<ViolationModel>::empty());
        while index < chosen.len()
            invariant
                index <= chosen@.len(),
                all == tree_paths(tree@),
                texts == tree_texts(tree@),
                wanted == places(chosen@),
                is_rising(all, wanted),
                violation_views(found@) == found_at(
                    self@,
                    all,
                    texts,
                    wanted.take(index as int),
                ),
            decreases chosen@.len() - index,
        {
            let ghost had = violation_views(found@);
            let ghost upto = wanted.take(index + 1);
            assert(upto.drop_last() =~= wanted.take(index as int));
            assert(upto.last() == chosen@[index as int]);
            assert(wanted[index as int] == chosen@[index as int]);
            let file = &tree[chosen[index]];
            assert(all[chosen@[index as int] as int] == file.path@);
            assert(texts[chosen@[index as int] as int] == file.text@);
            let path = self.relative(file.path.as_str());
            let mut more = self.violations_in(path.as_str(), file.text.as_str());
            let ghost new = violation_views(more@);
            found.append(&mut more);
            assert(violation_views(found@) =~= had + new);
            index = index + 1;
        }
        assert(wanted.take(index as int) =~= wanted);
        found
    }
}

/// Puts the place `at` into the ordered list `chosen` where its path belongs, unless the list has
/// that path already.
fn place(paths: &Vec<String>, chosen: &mut Vec<usize>, at: usize)
    requires
        at < paths@.len(),
        forall|k: int|
            0 <= k < old(chosen)@.len() ==> #[trigger] places(old(chosen)@)[k] < paths@.len(),
    ensures
        places(final(chosen)@) == placed(views(paths@), places(old(chosen)@), at as int),
{
    let ghost all = views(paths@);
    let ghost list = places(chosen@);
    let mut end: usize = chosen.len();
    assert(list.take(end as int) =~= list);
    assert(list.skip(end as int) =~= Seq::<int>::empty());
    assert(placed(all, list, at as int) + list.skip(end as int) =~= placed(all, list, at as int));
    while end > 0
        invariant
            end <= chosen@.len(),
            at < paths@.len(),
            all == views(paths@),
            list == places(chosen@),
            chosen@ == old(chosen)@,
            forall|k: int| 0 <= k < list.len() ==> #[trigger] list[k] < paths@.len(),
            placed(all, list, at as int) == placed(all, list.take(end as int), at as int)
                + list.skip(end as int),
        decreases end,
    {
        let ghost upto = list.take(end as int);
        assert(upto.drop_last() =~= list.take(end - 1));
        assert(upto.last() == list[end - 1]);
        assert(list[end - 1] == chosen@[end - 1]);
        assert(all[chosen@[end - 1] as int] == paths@[chosen@[end - 1] as int]@);
        assert(all[at as int] == paths@[at as int]@);
        proof {
            lemma_path_before_total(all[list[end - 1]], all[at as int]);
        }
        match place_of(paths[chosen[end - 1]].as_str(), paths[at].as_str()) {
            Place::Same => {
                assert(upto + list.skip(end as int) =~= list);
                return;
            },
            Place::Before => {
                chosen.insert(end, at);
                assert(places(chosen@) =~= upto.push(at as int) + list.skip(end as int));
                return;
            },
            Place::After => {
                assert(placed(all, upto, at as int) == placed(
                    all,
                    list.take(end - 1),
                    at as int,
                ).push(list[end - 1]));
                assert(placed(all, list.take(end - 1), at as int).push(list[end - 1]) + list.skip(
                    end as int,
                ) =~= placed(all, list.take(end - 1), at as int) + list.skip(end - 1));
            },
        }
        end = end - 1;
    }
    chosen.insert(0, at);
    assert(list.take(0) =~= Seq::<int>::empty());
    assert(places(chosen@) =~= seq![at as int] + list.skip(0));
}

/// The paths of a tree.
pub(crate) fn paths_of(tree: &Vec<SourceFile>) -> (paths: Vec<String>)
    ensures
        views(paths@) == tree_paths(tree@),
{
    let mut paths: Vec<String> = Vec::new();
    let mut index: usize = 0;
    while index < tree.len()
        invariant
            index <= tree@.len(),
            paths@.len() == index,
            forall|k: int| 0 <= k < index ==> (#[trigger] paths@[k])@ == tree@[k].path@,
        decreases tree@.len() - index,
    {
        paths.push(tree[index].path.clone());
        index = index + 1;
    }
    assert(views(paths@) =~= tree_paths(tree@));
    paths
}

// ---- what an exception changes ---------------------------------------------------------------

/// Whether one of `list` lets the file at `path` contain `needle`.
pub open spec fn excused_by(list: Seq<Exception>, path: Seq<char>, needle: Seq<char>) -> bool {
    exists|k: int|
        0 <= k < list.len() && (#[trigger] list[k]).path@ == path && list[k].needle@ == needle
}

/// A guard with more exceptions.
pub open spec fn with_exceptions(guard: GuardModel, added: Seq<Exception>) -> GuardModel {
    GuardModel { exceptions: guard.exceptions + added, ..guard }
}

/// The violations of `list` that none of `added` names, in the order they have there.
pub open spec fn without_excused(list: Seq<ViolationModel>, added: Seq<Exception>) -> Seq<
    ViolationModel,
> {
    list.filter(|violation: ViolationModel| !excused_by(added, violation.path, violation.needle))
}

proof fn lemma_excuses_add_up(
    guard: GuardModel,
    added: Seq<Exception>,
    path: Seq<char>,
    needle: Seq<char>,
)
    ensures
        is_excused(with_exceptions(guard, added), path, needle) == (is_excused(guard, path, needle)
            || excused_by(added, path, needle)),
{
    let all = guard.exceptions + added;
    if is_excused(guard, path, needle) {
        let k = choose|k: int|
            0 <= k < guard.exceptions.len() && (#[trigger] guard.exceptions[k]).path@ == path
                && guard.exceptions[k].needle@ == needle;
        assert(all[k] == guard.exceptions[k]);
    }
    if excused_by(added, path, needle) {
        let k = choose|k: int|
            0 <= k < added.len() && (#[trigger] added[k]).path@ == path && added[k].needle@
                == needle;
        assert(all[guard.exceptions.len() + k] == added[k]);
    }
    if is_excused(with_exceptions(guard, added), path, needle) {
        let k = choose|k: int|
            0 <= k < all.len() && (#[trigger] all[k]).path@ == path && all[k].needle@ == needle;
        if k < guard.exceptions.len() {
            assert(all[k] == guard.exceptions[k]);
        } else {
            assert(all[k] == added[k - guard.exceptions.len()]);
        }
    }
}

proof fn lemma_exceptions_in_line(
    guard: GuardModel,
    added: Seq<Exception>,
    path: Seq<char>,
    line: nat,
    text: Seq<char>,
    count: nat,
)
    ensures
        found_in_line(with_exceptions(guard, added), path, line, text, count) == without_excused(
            found_in_line(guard, path, line, text, count),
            added,
        ),
    decreases count,
{
    reveal(Seq::filter);
    let next = with_exceptions(guard, added);
    if count > 0 {
        let earlier = (count - 1) as nat;
        let needle = guard.needles[count - 1];
        lemma_exceptions_in_line(guard, added, path, line, text, earlier);
        lemma_excuses_add_up(guard, added, path, needle.needle@);
        let before_last = found_in_line(guard, path, line, text, earlier);
        let all = found_in_line(guard, path, line, text, count);
        if all != before_last {
            assert(all.drop_last() =~= before_last);
        }
    }
}

proof fn lemma_exceptions_in_lines(
    guard: GuardModel,
    added: Seq<Exception>,
    path: Seq<char>,
    code: Seq<Seq<char>>,
    count: nat,
)
    ensures
        found_in_lines(with_exceptions(guard, added), path, code, count) == without_excused(
            found_in_lines(guard, path, code, count),
            added,
        ),
    decreases count,
{
    reveal(Seq::filter);
    if count > 0 {
        let earlier = (count - 1) as nat;
        lemma_exceptions_in_lines(guard, added, path, code, earlier);
        lemma_exceptions_in_line(
            guard,
            added,
            path,
            count,
            code[count - 1],
            guard.needles.len(),
        );
        Seq::filter_distributes_over_add(
            found_in_lines(guard, path, code, earlier),
            found_in_line(guard, path, count, code[count - 1], guard.needles.len()),
            |violation: ViolationModel| !excused_by(added, violation.path, violation.needle),
        );
    }
}

proof fn lemma_exceptions_leave_files(
    guard: GuardModel,
    added: Seq<Exception>,
    paths: Seq<Seq<char>>,
    count: nat,
)
    requires
        count <= paths.len(),
    ensures
        ticked_places(with_exceptions(guard, added), paths, count) == ticked_places(
            guard,
            paths,
            count,
        ),
    decreases count,
{
    reveal(is_ticked);
    if count > 0 {
        let next = with_exceptions(guard, added);
        let path = paths[count - 1];
        lemma_exceptions_leave_files(guard, added, paths, (count - 1) as nat);
        assert(is_source(next, path) == is_source(guard, path));
        assert(is_excluded(next, path) == is_excluded(guard, path));
        assert(is_ticked(next, path) == is_ticked(guard, path));
    }
}

proof fn lemma_exceptions_at(
    guard: GuardModel,
    added: Seq<Exception>,
    paths: Seq<Seq<char>>,
    texts: Seq<Seq<char>>,
    chosen: Seq<int>,
)
    ensures
        found_at(with_exceptions(guard, added), paths, texts, chosen) == without_excused(
            found_at(guard, paths, texts, chosen),
            added,
        ),
    decreases chosen.len(),
{
    reveal(Seq::filter);
    if chosen.len() > 0 {
        let path = relative_path(paths[chosen.last()], guard.manifest_dir);
        let source = texts[chosen.last()];
        let code = lines_of(code_of(source));
        lemma_exceptions_at(guard, added, paths, texts, chosen.drop_last());
        lemma_exceptions_in_lines(guard, added, path, code, code.len());
        Seq::filter_distributes_over_add(
            found_at(guard, paths, texts, chosen.drop_last()),
            found_in(guard, path, source),
            |violation: ViolationModel| !excused_by(added, violation.path, violation.needle),
        );
    }
}

/// Added exceptions remove exactly the violations that they name, leave the others as they were and
/// in their order, and change nothing about which files are looked at.
pub proof fn lemma_exceptions_remove_what_they_name(
    guard: GuardModel,
    added: Seq<Exception>,
    path: Seq<char>,
    source: Seq<char>,
    tree: Seq<SourceFile>,
)
    ensures
        ({
            let next = with_exceptions(guard, added);
            &&& found_in(next, path, source) == without_excused(
                found_in(guard, path, source),
                added,
            )
            &&& found_in_tree(next, tree) == without_excused(found_in_tree(guard, tree), added)
            &&& ticked_files(next, tree_paths(tree)) == ticked_files(guard, tree_paths(tree))
        }),
{
    let code = lines_of(code_of(source));
    let paths = tree_paths(tree);
    lemma_exceptions_in_lines(guard, added, path, code, code.len());
    lemma_exceptions_leave_files(guard, added, paths, paths.len());
    lemma_exceptions_at(
        guard,
        added,
        paths,
        tree_texts(tree),
        ticked_places(guard, paths, paths.len()),
    );
}

// ---- laws of what is ticked and found --------------------------------------------------------

/// A source stands for itself and for everything below it, however deep.
pub proof fn lemma_source_holds_all_below(guard: GuardModel, at: int, rest: Seq<char>)
    requires
        0 <= at < guard.sources.len(),
        joined_path(guard.manifest_dir, guard.sources[at]).len() > 0,
        is_relative(rest),
    ensures
        is_source(guard, joined_path(guard.manifest_dir, guard.sources[at])),
        is_source(guard, inside(joined_path(guard.manifest_dir, guard.sources[at]), rest)),
{
    let root = joined_path(guard.manifest_dir, guard.sources[at]);
    lemma_components_add_up(root, rest);
    assert(components(root).is_prefix_of(components(root)));
    assert(components(root) =~= components(inside(root, rest)).subrange(
        0,
        components(root).len() as int,
    ));
    assert(is_under(root, joined_path(guard.manifest_dir, guard.sources[at])));
    assert(is_under(inside(root, rest), joined_path(guard.manifest_dir, guard.sources[at])));
}

/// Nothing in a directory that is listed as not ticked runs inside the tick, however deep it lies.
pub proof fn lemma_excluded_directory_is_never_ticked(
    guard: GuardModel,
    at: int,
    directory: Seq<char>,
    slashes: nat,
    rest: Seq<char>,
)
    requires
        guard.manifest_dir.len() > 0,
        0 <= at < guard.not_ticked.len(),
        directory.len() > 0,
        directory.last() != '/',
        guard.not_ticked[at] == directory + Seq::new(slashes, |k: int| '/'),
        is_relative(inside(directory, rest)),
        is_trim(inside(directory, rest)),
        !inside(directory, rest).contains('\\'),
    ensures
        !is_ticked(guard, inside(guard.manifest_dir, inside(directory, rest))),
{
    let path = inside(guard.manifest_dir, inside(directory, rest));
    lemma_relative_path_reads_back(guard.manifest_dir, inside(directory, rest));
    lemma_nothing_below_an_excluded_path_is_ticked(
        guard,
        at,
        path,
        directory,
        slashes,
        rest,
    );
}

/// What is reported of the needles in one line: each needle that the line contains and that no
/// exception lets the file contain, once for each time it is banned and in the order of the ban.
pub open spec fn reported_of(
    needles: Seq<Needle>,
    exceptions: Seq<Exception>,
    path: Seq<char>,
    line: nat,
    text: Seq<char>,
) -> Seq<ViolationModel> {
    needles.filter(
        |needle: Needle|
            contains(text, needle.needle@) && !excused_by(exceptions, path, needle.needle@),
    ).map_values(
        |needle: Needle|
            ViolationModel { path, line, needle: needle.needle@, reason: needle.reason@, text },
    )
}

proof fn lemma_reported_of(
    guard: GuardModel,
    path: Seq<char>,
    line: nat,
    text: Seq<char>,
    count: nat,
)
    requires
        count <= guard.needles.len(),
    ensures
        found_in_line(guard, path, line, text, count) == reported_of(
            guard.needles.take(count as int),
            guard.exceptions,
            path,
            line,
            text,
        ),
    decreases count,
{
    reveal(Seq::filter);
    let some = guard.needles.take(count as int);
    let all = reported_of(some, guard.exceptions, path, line, text);
    if count == 0 {
        assert(some =~= Seq::empty());
        assert(all =~= Seq::empty());
    } else {
        lemma_reported_of(guard, path, line, text, (count - 1) as nat);
        let fewer = guard.needles.take(count - 1);
        let earlier = reported_of(fewer, guard.exceptions, path, line, text);
        assert(some.drop_last() =~= fewer);
        let last = guard.needles[count - 1];
        assert(some.last() == last);
        assert(is_excused(guard, path, last.needle@) == excused_by(
            guard.exceptions,
            path,
            last.needle@,
        ));
        if contains(text, last.needle@) && !excused_by(guard.exceptions, path, last.needle@) {
            assert(all =~= earlier.push(
                ViolationModel { path, line, needle: last.needle@, reason: last.reason@, text },
            ));
        } else {
            assert(all =~= earlier);
        }
    }
}

/// What a guard finds in a file is what it reports of each line of its code, line by line from the
/// first, with the number of the line as an editor counts.
pub proof fn lemma_every_line_is_reported(guard: GuardModel, path: Seq<char>, source: Seq<char>)
    ensures
        ({
            let code = lines_of(code_of(source));
            found_in(guard, path, source) == Seq::new(
                code.len(),
                |k: int| reported_of(guard.needles, guard.exceptions, path, (k + 1) as nat, code[k]),
            ).flatten()
        }),
{
    let code = lines_of(code_of(source));
    lemma_lines_reported(guard, path, code, code.len());
}

proof fn lemma_lines_reported(
    guard: GuardModel,
    path: Seq<char>,
    code: Seq<Seq<char>>,
    count: nat,
)
    requires
        count <= code.len(),
    ensures
        found_in_lines(guard, path, code, count) == Seq::new(
            count,
            |k: int| reported_of(guard.needles, guard.exceptions, path, (k + 1) as nat, code[k]),
        ).flatten(),
    decreases count,
{
    let lists = Seq::new(
        count,
        |k: int| reported_of(guard.needles, guard.exceptions, path, (k + 1) as nat, code[k]),
    );
    lists.lemma_flatten_and_flatten_alt_are_equivalent();
    if count > 0 {
        lemma_lines_reported(guard, path, code, (count - 1) as nat);
        let fewer = Seq::new(
            (count - 1) as nat,
            |k: int| reported_of(guard.needles, guard.exceptions, path, (k + 1) as nat, code[k]),
        );
        fewer.lemma_flatten_and_flatten_alt_are_equivalent();
        assert(lists.drop_last() =~= fewer);
        lemma_reported_of(guard, path, count, code[count - 1], guard.needles.len());
        assert(guard.needles.take(guard.needles.len() as int) =~= guard.needles);
        assert(lists.last() == reported_of(
            guard.needles,
            guard.exceptions,
            path,
            count,
            code[count - 1],
        ));
    }
}

/// A banned needle in a line of the code of a file is reported, unless an exception lets the file
/// contain it; and nothing is reported that is not there.
pub proof fn lemma_found_is_what_is_there(guard: GuardModel, path: Seq<char>, source: Seq<char>)
    ensures
        ({
            let code = lines_of(code_of(source));
            let found = found_in(guard, path, source);
            &&& forall|line: int, number: int|
                0 <= line < code.len() && 0 <= number < guard.needles.len() && contains(
                    #[trigger] code[line],
                    (#[trigger] guard.needles[number]).needle@,
                ) && !is_excused(guard, path, guard.needles[number].needle@) ==> found.contains(
                    ViolationModel {
                        path,
                        line: (line + 1) as nat,
                        needle: guard.needles[number].needle@,
                        reason: guard.needles[number].reason@,
                        text: code[line],
                    },
                )
            &&& forall|at: int|
                0 <= at < found.len() ==> {
                    let one = #[trigger] found[at];
                    &&& one.path == path
                    &&& 1 <= one.line <= code.len()
                    &&& one.text == code[one.line - 1]
                    &&& contains(one.text, one.needle)
                    &&& !is_excused(guard, path, one.needle)
                    &&& exists|number: int|
                        0 <= number < guard.needles.len() && (
                        #[trigger] guard.needles[number]).needle@ == one.needle
                            && guard.needles[number].reason@ == one.reason
                }
            &&& forall|i: int, j: int|
                0 <= i < j < found.len() ==> (#[trigger] found[i]).line <= (
                #[trigger] found[j]).line
        }),
{
    let code = lines_of(code_of(source));
    lemma_lines_hold(guard, path, code, code.len());
}

proof fn lemma_line_holds(
    guard: GuardModel,
    path: Seq<char>,
    line: nat,
    text: Seq<char>,
    count: nat,
)
    requires
        count <= guard.needles.len(),
    ensures
        ({
            let found = found_in_line(guard, path, line, text, count);
            &&& forall|number: int|
                0 <= number < count && contains(
                    text,
                    (#[trigger] guard.needles[number]).needle@,
                ) && !is_excused(guard, path, guard.needles[number].needle@) ==> found.contains(
                    ViolationModel {
                        path,
                        line,
                        needle: guard.needles[number].needle@,
                        reason: guard.needles[number].reason@,
                        text,
                    },
                )
            &&& forall|at: int|
                0 <= at < found.len() ==> {
                    let one = #[trigger] found[at];
                    &&& one.path == path && one.line == line && one.text == text
                    &&& contains(text, one.needle)
                    &&& !is_excused(guard, path, one.needle)
                    &&& exists|number: int|
                        0 <= number < guard.needles.len() && (
                        #[trigger] guard.needles[number]).needle@ == one.needle
                            && guard.needles[number].reason@ == one.reason
                }
        }),
    decreases count,
{
    if count > 0 {
        lemma_line_holds(guard, path, line, text, (count - 1) as nat);
        let earlier = found_in_line(guard, path, line, text, (count - 1) as nat);
        let found = found_in_line(guard, path, line, text, count);
        let last = guard.needles[count - 1];
        assert forall|number: int|
            0 <= number < count && contains(text, (#[trigger] guard.needles[number]).needle@)
                && !is_excused(guard, path, guard.needles[number].needle@) implies found.contains(
            ViolationModel {
                path,
                line,
                needle: guard.needles[number].needle@,
                reason: guard.needles[number].reason@,
                text,
            },
        ) by {
            let wanted = ViolationModel {
                path,
                line,
                needle: guard.needles[number].needle@,
                reason: guard.needles[number].reason@,
                text,
            };
            if number < count - 1 {
                assert(earlier.contains(wanted));
                let k = choose|k: int| 0 <= k < earlier.len() && earlier[k] == wanted;
                assert(found[k] == wanted);
            } else {
                assert(found[earlier.len() as int] == wanted);
            }
        }
        assert forall|at: int| 0 <= at < found.len() implies {
            let one = #[trigger] found[at];
            &&& one.path == path && one.line == line && one.text == text
            &&& contains(text, one.needle)
            &&& !is_excused(guard, path, one.needle)
            &&& exists|number: int|
                0 <= number < guard.needles.len() && (#[trigger] guard.needles[number]).needle@
                    == one.needle && guard.needles[number].reason@ == one.reason
        } by {
            if at < earlier.len() {
                assert(found[at] == earlier[at]);
            } else {
                assert(guard.needles[count - 1].needle@ == found[at].needle);
            }
        }
    }
}

proof fn lemma_lines_hold(guard: GuardModel, path: Seq<char>, code: Seq<Seq<char>>, count: nat)
    requires
        count <= code.len(),
    ensures
        ({
            let found = found_in_lines(guard, path, code, count);
            &&& forall|line: int, number: int|
                0 <= line < count && 0 <= number < guard.needles.len() && contains(
                    #[trigger] code[line],
                    (#[trigger] guard.needles[number]).needle@,
                ) && !is_excused(guard, path, guard.needles[number].needle@) ==> found.contains(
                    ViolationModel {
                        path,
                        line: (line + 1) as nat,
                        needle: guard.needles[number].needle@,
                        reason: guard.needles[number].reason@,
                        text: code[line],
                    },
                )
            &&& forall|at: int|
                0 <= at < found.len() ==> {
                    let one = #[trigger] found[at];
                    &&& one.path == path
                    &&& 1 <= one.line <= count
                    &&& one.text == code[one.line - 1]
                    &&& contains(one.text, one.needle)
                    &&& !is_excused(guard, path, one.needle)
                    &&& exists|number: int|
                        0 <= number < guard.needles.len() && (
                        #[trigger] guard.needles[number]).needle@ == one.needle
                            && guard.needles[number].reason@ == one.reason
                }
            &&& forall|i: int, j: int|
                0 <= i < j < found.len() ==> (#[trigger] found[i]).line <= (
                #[trigger] found[j]).line
        }),
    decreases count,
{
    if count > 0 {
        lemma_lines_hold(guard, path, code, (count - 1) as nat);
        lemma_line_holds(guard, path, count, code[count - 1], guard.needles.len());
        let earlier = found_in_lines(guard, path, code, (count - 1) as nat);
        let last = found_in_line(guard, path, count, code[count - 1], guard.needles.len());
        let found = found_in_lines(guard, path, code, count);
        assert(found == earlier + last);
        assert forall|line: int, number: int|
            0 <= line < count && 0 <= number < guard.needles.len() && contains(
                #[trigger] code[line],
                (#[trigger] guard.needles[number]).needle@,
            ) && !is_excused(guard, path, guard.needles[number].needle@) implies found.contains(
            ViolationModel {
                path,
                line: (line + 1) as nat,
                needle: guard.needles[number].needle@,
                reason: guard.needles[number].reason@,
                text: code[line],
            },
        ) by {
            let wanted = ViolationModel {
                path,
                line: (line + 1) as nat,
                needle: guard.needles[number].needle@,
                reason: guard.needles[number].reason@,
                text: code[line],
            };
            if line < count - 1 {
                assert(earlier.contains(wanted));
                let k = choose|k: int| 0 <= k < earlier.len() && earlier[k] == wanted;
                assert(found[k] == wanted);
            } else {
                assert(last.contains(wanted));
                let k = choose|k: int| 0 <= k < last.len() && last[k] == wanted;
                assert(found[earlier.len() + k] == wanted);
            }
        }
        assert forall|at: int| 0 <= at < found.len() implies {
            let one = #[trigger] found[at];
            &&& one.path == path
            &&& 1 <= one.line <= count
            &&& one.text == code[one.line - 1]
            &&& contains(one.text, one.needle)
            &&& !is_excused(guard, path, one.needle)
            &&& exists|number: int|
                0 <= number < guard.needles.len() && (#[trigger] guard.needles[number]).needle@
                    == one.needle && guard.needles[number].reason@ == one.reason
        } by {
            if at < earlier.len() {
                assert(found[at] == earlier[at]);
            } else {
                assert(found[at] == last[at - earlier.len()]);
            }
        }
        assert forall|i: int, j: int| 0 <= i < j < found.len() implies (#[trigger] found[i]).line
            <= (#[trigger] found[j]).line by {
            if i < earlier.len() {
                assert(found[i] == earlier[i]);
            } else {
                assert(found[i] == last[i - earlier.len()]);
            }
            if j < earlier.len() {
                assert(found[j] == earlier[j]);
            } else {
                assert(found[j] == last[j - earlier.len()]);
            }
        }
    }
}

/// What a guard finds in a tree in which no path stands twice is what it finds in its files: all
/// that is in a file which runs inside the tick, and nothing that is in none. So a tree is clean
/// exactly when each of those files is.
pub proof fn lemma_tree_is_searched_file_by_file(guard: GuardModel, tree: Seq<SourceFile>)
    requires
        forall|j: int, k: int|
            0 <= j < k < tree.len() ==> !same_path(
                (#[trigger] tree[j]).path@,
                (#[trigger] tree[k]).path@,
            ),
    ensures
        ({
            let found = found_in_tree(guard, tree);
            &&& forall|at: int, one: ViolationModel|
                0 <= at < tree.len() && is_ticked(guard, (#[trigger] tree[at]).path@)
                    && #[trigger] found_in_file(guard, tree[at]).contains(one) ==> found.contains(
                    one,
                )
            &&& forall|k: int|
                0 <= k < found.len() ==> exists|at: int|
                    0 <= at < tree.len() && is_ticked(guard, (#[trigger] tree[at]).path@)
                        && found_in_file(guard, tree[at]).contains(#[trigger] found[k])
            &&& found.len() == 0 <==> forall|at: int|
                0 <= at < tree.len() && is_ticked(guard, (#[trigger] tree[at]).path@)
                    ==> found_in_file(guard, tree[at]).len() == 0
        }),
{
    let paths = tree_paths(tree);
    let texts = tree_texts(tree);
    let chosen = ticked_places(guard, paths, paths.len());
    let found = found_in_tree(guard, tree);
    lemma_ticked_places(guard, paths, paths.len());
    lemma_found_at(guard, tree, chosen);
    assert forall|at: int, one: ViolationModel|
        0 <= at < tree.len() && is_ticked(guard, (#[trigger] tree[at]).path@)
            && #[trigger] found_in_file(guard, tree[at]).contains(one) implies found.contains(
        one,
    ) by {
        lemma_ticked_path_is_listed(guard, paths, paths.len(), at);
        let place = choose|k: int|
            0 <= k < chosen.len() && same_path(paths[#[trigger] chosen[k]], paths[at]);
        let other = chosen[place];
        assert(paths[other] == tree[other].path@);
        assert(paths[at] == tree[at].path@);
        if other < at {
            assert(!same_path(tree[other].path@, tree[at].path@));
        }
        if at < other {
            assert(!same_path(tree[at].path@, tree[other].path@));
        }
        assert(found_in_file(guard, tree[chosen[place]]).contains(one));
    }
    assert forall|k: int| 0 <= k < found.len() implies exists|at: int|
        0 <= at < tree.len() && is_ticked(guard, (#[trigger] tree[at]).path@) && found_in_file(
            guard,
            tree[at],
        ).contains(#[trigger] found[k]) by {
        let place = choose|place: int|
            0 <= place < chosen.len() && found_in_file(
                guard,
                tree[#[trigger] chosen[place]],
            ).contains(found[k]);
        let at = chosen[place];
        assert(paths[at] == tree[at].path@);
        assert(is_ticked(guard, tree[at].path@));
    }
    if found.len() == 0 {
        assert forall|at: int|
            0 <= at < tree.len() && is_ticked(guard, (#[trigger] tree[at]).path@) implies
            found_in_file(guard, tree[at]).len() == 0 by {
            if found_in_file(guard, tree[at]).len() > 0 {
                let one = found_in_file(guard, tree[at])[0];
                assert(found_in_file(guard, tree[at]).contains(one));
                assert(found.contains(one));
            }
        }
    } else {
        assert(found.contains(found[0]));
        let at = choose|at: int|
            0 <= at < tree.len() && is_ticked(guard, (#[trigger] tree[at]).path@) && found_in_file(
                guard,
                tree[at],
            ).contains(found[0]);
        assert(found_in_file(guard, tree[at]).len() > 0);
    }
}

/// What a guard finds in one file, shown under its path below the manifest directory.
pub open spec fn found_in_file(guard: GuardModel, file: SourceFile) -> Seq<ViolationModel> {
    found_in(guard, relative_path(file.path@, guard.manifest_dir), file.text@)
}

proof fn lemma_found_at(guard: GuardModel, tree: Seq<SourceFile>, chosen: Seq<int>)
    requires
        forall|k: int| 0 <= k < chosen.len() ==> 0 <= #[trigger] chosen[k] < tree.len(),
    ensures
        ({
            let found = found_at(guard, tree_paths(tree), tree_texts(tree), chosen);
            &&& forall|k: int, one: ViolationModel|
                0 <= k < chosen.len() && #[trigger] found_in_file(
                    guard,
                    tree[#[trigger] chosen[k]],
                ).contains(one) ==> found.contains(one)
            &&& forall|at: int|
                0 <= at < found.len() ==> exists|k: int|
                    0 <= k < chosen.len() && found_in_file(
                        guard,
                        tree[#[trigger] chosen[k]],
                    ).contains(#[trigger] found[at])
        }),
    decreases chosen.len(),
{
    let paths = tree_paths(tree);
    let texts = tree_texts(tree);
    let found = found_at(guard, paths, texts, chosen);
    if chosen.len() > 0 {
        let front = chosen.drop_last();
        let last = chosen.last();
        assert forall|k: int| 0 <= k < front.len() implies 0 <= #[trigger] front[k]
            < tree.len() by {
            assert(front[k] == chosen[k]);
        }
        lemma_found_at(guard, tree, front);
        let earlier = found_at(guard, paths, texts, front);
        assert(0 <= chosen[chosen.len() - 1] < tree.len());
        assert(paths[last] == tree[last].path@ && texts[last] == tree[last].text@);
        let own = found_in_file(guard, tree[last]);
        assert(found == earlier + own);
        assert forall|k: int, one: ViolationModel|
            0 <= k < chosen.len() && #[trigger] found_in_file(
                guard,
                tree[#[trigger] chosen[k]],
            ).contains(one) implies found.contains(one) by {
            if k < front.len() {
                assert(front[k] == chosen[k]);
                assert(found_in_file(guard, tree[front[k]]).contains(one));
                assert(earlier.contains(one));
                let i = choose|i: int| 0 <= i < earlier.len() && earlier[i] == one;
                assert(found[i] == one);
            } else {
                let i = choose|i: int| 0 <= i < own.len() && own[i] == one;
                assert(found[earlier.len() + i] == one);
            }
        }
        assert forall|at: int| 0 <= at < found.len() implies exists|k: int|
            0 <= k < chosen.len() && found_in_file(
                guard,
                tree[#[trigger] chosen[k]],
            ).contains(#[trigger] found[at]) by {
            if at < earlier.len() {
                assert(found[at] == earlier[at]);
                let k = choose|k: int|
                    0 <= k < front.len() && found_in_file(
                        guard,
                        tree[#[trigger] front[k]],
                    ).contains(earlier[at]);
                assert(chosen[k] == front[k]);
                assert(found_in_file(guard, tree[chosen[k]]).contains(found[at]));
            } else {
                assert(found[at] == own[at - earlier.len()]);
                assert(chosen[chosen.len() - 1] == last);
                assert(found_in_file(guard, tree[chosen[chosen.len() - 1]]).contains(found[at]));
            }
        }
    }
}

/// Violations are told one below the other: those of two lists as each is, and every one with its
/// path, its line, its needle and why.
pub proof fn lemma_every_violation_is_told(
    one: Seq<ViolationModel>,
    other: Seq<ViolationModel>,
    violation: ViolationModel,
)
    ensures
        one.len() > 0 && other.len() > 0 ==> violations_text(one + other) == violations_text(one)
            + "\n  "@ + violations_text(other),
        violations_text(seq![violation]) == violation_text(violation),
        contains(violation_text(violation), violation.path),
        contains(violation_text(violation), decimal(violation.line)),
        contains(violation_text(violation), violation.needle),
        contains(violation_text(violation), violation.reason),
        contains(violation_text(violation), trimmed(violation.text)),
{
    let shown = |each: ViolationModel| violation_text(each);
    if one.len() > 0 && other.len() > 0 {
        assert((one + other).map_values(shown) =~= one.map_values(shown) + other.map_values(shown));
        lemma_joins_are_joined(one.map_values(shown), other.map_values(shown), "\n  "@);
    }
    assert(seq![violation].map_values(shown) =~= seq![violation_text(violation)]);
    let text = violation_text(violation);
    let line = decimal(violation.line);
    let tail = "` — "@ + violation.reason + "\n      "@ + trimmed(violation.text);
    lemma_contains_its_parts(
        Seq::empty(),
        violation.path,
        ":"@,
        line,
        ": `"@ + violation.needle + tail,
    );
    assert(Seq::empty() + violation.path + ":"@ + line + (": `"@ + violation.needle + tail)
        =~= text);
    let head = violation.path + ":"@ + line + ": `"@;
    lemma_contains_its_parts(
        head,
        violation.needle,
        "` — "@,
        violation.reason,
        "\n      "@ + trimmed(violation.text),
    );
    assert(head + violation.needle + "` — "@ + violation.reason + ("\n      "@ + trimmed(
        violation.text,
    )) =~= text);
    let before_text = head + violation.needle + "` — "@ + violation.reason + "\n      "@;
    lemma_contains_what_stands_in_it(
        trimmed(violation.text),
        trimmed(violation.text),
        before_text,
        Seq::empty(),
    );
    assert(before_text + trimmed(violation.text) + Seq::empty() =~= text);
}

/// The rust files under a root are those of a listing that lie there, one by one and in its order.
pub proof fn lemma_rust_files_are_listed_alone(
    one: Seq<Seq<char>>,
    other: Seq<Seq<char>>,
    path: Seq<char>,
    root: Seq<char>,
)
    ensures
        rust_files_under(one + other, root) == rust_files_under(one, root) + rust_files_under(
            other,
            root,
        ),
        rust_files_under(seq![path], root) == (if is_rust(path) && components(root).is_prefix_of(
            components(path),
        ) {
            seq![path]
        } else {
            Seq::empty()
        }),
{
    let keep = |each: Seq<char>| is_rust(each) && is_under(each, root);
    Seq::filter_distributes_over_add(one, other, keep);
    reveal(Seq::filter);
    let alone = seq![path];
    assert(alone.drop_last() =~= Seq::empty());
    assert(alone.drop_last().filter(keep) =~= Seq::empty());
    assert(rust_files_under(alone, root) =~= (if keep(path) {
        alone
    } else {
        Seq::empty()
    }));
}

/// A line of a text stands in it, and what stands in a text without breaking a line stands in one of
/// its lines.
pub proof fn lemma_lines_hold_what_the_text_does(text: Seq<char>, needle: Seq<char>)
    requires
        needle.len() > 0,
        !needle.contains('\n'),
        !needle.contains('\r'),
    ensures
        contains(text, needle) <==> exists|k: int|
            0 <= k < lines_of(text).len() && contains(#[trigger] lines_of(text)[k], needle),
    decreases text.len(),
{
    let list = lines_of(text);
    if text.len() == 0 {
        if contains(text, needle) {
            let at = choose|at: int| occurs_at(text, needle, at);
            assert(occurs_at(text, needle, at));
        }
    } else {
        let end = first_index(text, '\n') as int;
        lemma_first_index(text, '\n');
        if end >= text.len() {
            assert(list[0] == text);
            assert(list =~= seq![text]);
        } else {
            let head = text.take(end);
            let line = without_return(head);
            let tail = text.skip(end + 1);
            lemma_lines_hold_what_the_text_does(tail, needle);
            let rest = lines_of(tail);
            assert(list =~= seq![line] + rest);
            assert(text =~= head + seq!['\n'] + tail);
            if contains(text, needle) {
                let at = choose|at: int| occurs_at(text, needle, at);
                let until = at + needle.len();
                if until <= end {
                    if line != head && until == end {
                        assert(text.subrange(at, until)[needle.len() - 1] == text[end - 1]);
                        assert(head.last() == text[end - 1]);
                        assert(needle.contains(needle[needle.len() - 1]));
                    }
                    assert(line.subrange(at, until) =~= needle);
                    assert(occurs_at(line, needle, at));
                    assert(contains(list[0], needle));
                } else if at > end {
                    assert(tail.subrange(at - end - 1, until - end - 1) =~= needle);
                    assert(occurs_at(tail, needle, at - end - 1));
                    let k = choose|k: int|
                        0 <= k < rest.len() && contains(#[trigger] rest[k], needle);
                    assert(list[k + 1] == rest[k]);
                } else {
                    assert(text.subrange(at, until)[end - at] == '\n');
                    assert(needle.contains(needle[end - at]));
                }
            }
            if exists|k: int| 0 <= k < list.len() && contains(#[trigger] list[k], needle) {
                let k = choose|k: int| 0 <= k < list.len() && contains(#[trigger] list[k], needle);
                if k == 0 {
                    let more = text.skip(line.len() as int);
                    lemma_contains_what_stands_in_it(line, needle, Seq::empty(), more);
                    assert(Seq::empty() + line + more =~= text);
                } else {
                    assert(rest[k - 1] == list[k]);
                    lemma_contains_what_stands_in_it(
                        tail,
                        needle,
                        head + seq!['\n'],
                        Seq::empty(),
                    );
                    assert((head + seq!['\n']) + tail + Seq::empty() =~= text);
                }
            }
        }
    }
}

proof fn lemma_first_index(text: Seq<char>, wanted: char)
    ensures
        0 <= first_index(text, wanted) <= text.len(),
        first_index(text, wanted) < text.len() ==> text[first_index(text, wanted) as int] == wanted,
        forall|k: int| 0 <= k < first_index(text, wanted) ==> #[trigger] text[k] != wanted,
    decreases text.len(),
{
    if text.len() > 0 && text[0] != wanted {
        let rest = text.skip(1);
        lemma_first_index(rest, wanted);
        assert forall|k: int| 0 <= k < first_index(text, wanted) implies #[trigger] text[k]
            != wanted by {
            if k > 0 {
                assert(rest[k - 1] == text[k]);
            }
        }
    }
}

/// Violations and files are seen with all that they hold, one for one.
pub proof fn lemma_violations_are_seen_whole(list: Seq<Violation>, tree: Seq<SourceFile>)
    ensures
        violation_views(list).len() == list.len(),
        forall|k: int|
            0 <= k < list.len() ==> {
                let seen = #[trigger] violation_views(list)[k];
                &&& seen.path == list[k].path@
                &&& seen.line == list[k].line
                &&& seen.needle == list[k].needle@
                &&& seen.reason == list[k].reason@
                &&& seen.text == list[k].text@
            },
        tree_paths(tree).len() == tree.len(),
        tree_texts(tree).len() == tree.len(),
        forall|k: int| 0 <= k < tree.len() ==> #[trigger] tree_paths(tree)[k] == tree[k].path@,
        forall|k: int| 0 <= k < tree.len() ==> #[trigger] tree_texts(tree)[k] == tree[k].text@,
{
}

} // verus!
