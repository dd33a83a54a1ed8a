//! The questions a source guard is asked, and its answers in words.

use vstd::prelude::*;
use vstd::string::*;

use crate::date::{
    date_text, day_number, days_before_month, days_before_year, has_date_shape, is_date, is_iso_date,
    lemma_date_text, lemma_day_numbers_differ, lemma_earlier_date_sorts_first, today,
};
use crate::number::{decimal, decimal_of};
use crate::source_code::{
    code_of, code_only, is_plain, lemma_line_comment_is_removed, lemma_plain_code_is_kept,
    lemma_plain_string_content, lemma_sign_makes_nothing_raw, lemma_string_is_removed,
};
use crate::text::{
    before, comes_before, contains, debug_list, debug_of, has_text, join, joined,
    lemma_before_total, lemma_contains_its_parts, lemma_contains_what_stands_in_it, lemma_first_line,
    lemma_joined_from_front, lemma_joins_are_joined, lines_of, occurs_at, same, views,
};

use super::{
    found_in, found_in_tree, is_excused, lemma_found_is_what_is_there,
    lemma_lines_hold_what_the_text_does, list_violations, paths_of, ticked_files, tree_paths,
    violation_views, violations_text, Exception, GuardModel, Needle, SourceFile, SourceGuard,
    Violation, ViolationModel,
};

verus! {

// ---- failures --------------------------------------------------------------------------------

/// Why a source guard fails.
#[derive(Debug)]
pub enum GuardFailure {
    /// Fewer ticked files than expected: the source list has gone stale.
    TooFewFiles { found: usize, sources: Vec<String>, expected: usize },
    /// The tick reaches for what it may not.
    Reaches { violations: Vec<Violation> },
    /// An exception names a needle that the guard does not ban.
    UnknownNeedle { exception: Exception },
    /// The file of an exception cannot be read.
    Unreadable { exception: Exception, error: String },
    /// The file of an exception no longer contains its needle.
    Unused { exception: Exception },
    /// Today's date is not `YYYY-MM-DD`.
    BadToday { today: String },
    /// The date an exception expires on is not `YYYY-MM-DD`.
    BadExpiry { exception: Exception },
    /// Exceptions have expired.
    Expired { today: String, exceptions: Vec<Exception> },
    /// An excluded path does not exist.
    ExcludedMissing { path: String },
    /// The guard has no needles.
    BansNothing,
    /// The guard does not find a needle in code.
    NoBite { needle: &'static str, line: usize },
    /// The guard finds a needle in a comment or a string.
    BitesProse { violations: Vec<Violation> },
}

/// An exception that has expired, in words.
pub open spec fn expiry_text(exception: Exception) -> Seq<char> {
    let expires = match exception.expires {
        Some(date) => date@,
        None => Seq::empty(),
    };
    exception.path@ + ": `"@ + exception.needle@ + "` expired on "@ + expires + " — "@
        + exception.reason@
}

/// Exceptions that have expired in words, one below the other.
pub open spec fn expiries_text(list: Seq<Exception>) -> Seq<char> {
    joined(list.map_values(|exception: Exception| expiry_text(exception)), "\n  "@)
}

/// A source list that has gone stale in words, where `shown` is the list.
pub open spec fn stale_list_text(found: nat, shown: Seq<char>, expected: nat) -> Seq<char> {
    "the source guard found "@ + decimal(found) + " ticked file(s) under "@ + shown
        + " but expected at least "@ + decimal(expected) + "; the source list has gone stale"@
}

/// A failure in words.
pub open spec fn failure_text(failure: GuardFailure) -> Seq<char> {
    match failure {
        GuardFailure::TooFewFiles { found, sources, expected } => stale_list_text(
            found as nat,
            debug_list(views(sources@)),
            expected as nat,
        ),
        GuardFailure::Reaches { violations } => "the tick simulation reaches outside the tick ("@
            + decimal(violations@.len()) + " violation(s)):\n  "@ + violations_text(
            violation_views(violations@),
        )
            + "\n\nFix the reach, or add an `Exception` with a reason if it is genuinely right."@,
        GuardFailure::UnknownNeedle { exception } => "the exception for `"@ + exception.needle@
            + "` in `"@ + exception.path@ + "` names a needle this guard does not ban"@,
        GuardFailure::Unreadable { exception, error } => "the exception for `"@ + exception.needle@
            + "` names `"@ + exception.path@ + "`, which cannot be read ("@ + error@
            + "); delete the exception"@,
        GuardFailure::Unused { exception } => "`"@ + exception.path@ + "` no longer contains `"@
            + exception.needle@ + "` ("@ + exception.reason@ + "); delete the exception"@,
        GuardFailure::BadToday { today } => "today's date must be `YYYY-MM-DD`, got `"@ + today@
            + "`"@,
        GuardFailure::BadExpiry { exception } => "the exception for `"@ + exception.needle@
            + "` in `"@ + exception.path@ + "` expires on `"@ + (match exception.expires {
            Some(date) => date@,
            None => Seq::empty(),
        }) + "`, which is not `YYYY-MM-DD`"@,
        GuardFailure::Expired { today, exceptions } => decimal(exceptions@.len())
            + " exception(s) have expired (today is "@ + today@ + "):\n  "@ + expiries_text(
            exceptions@,
        ) + "\n\nFix the reach, or renew the date with a reason it is still pending."@,
        GuardFailure::ExcludedMissing { path } => "`"@ + path@
            + "` is excluded from the source guard but no longer exists"@,
        GuardFailure::BansNothing => "the source guard bans nothing; add default_needles()"@,
        GuardFailure::NoBite { needle, line } => "the source guard did not bite on `"@ + needle@
            + "` at code.rs:"@ + decimal(line as nat) + "; it guards nothing"@,
        GuardFailure::BitesProse {
            violations,
        } => "a comment or string mentioning a needle tripped the source guard:\n  "@
            + violations_text(violation_views(violations@)),
    }
}

/// An exception that has expired, in words.
fn describe_expiry(exception: &Exception) -> (text: String)
    ensures
        text@ == expiry_text(*exception),
{
    let mut text = String::from_str(exception.path);
    text.append(": `");
    text.append(exception.needle);
    text.append("` expired on ");
    if let Some(date) = exception.expires {
        text.append(date);
    }
    text.append(" — ");
    text.append(exception.reason);
    assert(text@ =~= expiry_text(*exception));
    text
}

/// Exceptions that have expired in words, one below the other.
fn list_expiries(list: &Vec<Exception>) -> (text: String)
    ensures
        text@ == expiries_text(list@),
{
    let mut parts: Vec<String> = Vec::new();
    let mut index: usize = 0;
    while index < list.len()
        invariant
            index <= list@.len(),
            parts@.len() == index,
            forall|k: int| 0 <= k < index ==> (#[trigger] parts@[k])@ == expiry_text(list@[k]),
        decreases list@.len() - index,
    {
        parts.push(describe_expiry(&list[index]));
        index = index + 1;
    }
    assert(views(parts@) =~= list@.map_values(|exception: Exception| expiry_text(exception)));
    join(&parts, "\n  ")
}

/// A source list that has gone stale in words, where `shown` is the list.
pub fn stale_list_words(found: usize, shown: &str, expected: usize) -> (text: String)
    ensures
        text@ == stale_list_text(found as nat, shown@, expected as nat),
{
    let mut text = String::from_str("the source guard found ");
    text.append(decimal_of(found as u64).as_str());
    text.append(" ticked file(s) under ");
    text.append(shown);
    text.append(" but expected at least ");
    text.append(decimal_of(expected as u64).as_str());
    text.append("; the source list has gone stale");
    text
}

impl GuardFailure {
    /// The failure in words.
    pub fn message(&self) -> (text: String)
        ensures
            text@ == failure_text(*self),
    {
        let mut text = String::new();
        match self {
            GuardFailure::TooFewFiles { found, sources, expected } => {
                let shown = debug_of(sources);
                text = stale_list_words(*found, shown.as_str(), *expected);
            },
            GuardFailure::Reaches { violations } => {
                text.append("the tick simulation reaches outside the tick (");
                text.append(decimal_of(violations.len() as u64).as_str());
                text.append(" violation(s)):\n  ");
                text.append(list_violations(violations).as_str());
                text.append(
                    "\n\nFix the reach, or add an `Exception` with a reason if it is genuinely right.",
                );
            },
            GuardFailure::UnknownNeedle { exception } => {
                text.append("the exception for `");
                text.append(exception.needle);
                text.append("` in `");
                text.append(exception.path);
                text.append("` names a needle this guard does not ban");
            },
            GuardFailure::Unreadable { exception, error } => {
                text.append("the exception for `");
                text.append(exception.needle);
                text.append("` names `");
                text.append(exception.path);
                text.append("`, which cannot be read (");
                text.append(error.as_str());
                text.append("); delete the exception");
            },
            GuardFailure::Unused { exception } => {
                text.append("`");
                text.append(exception.path);
                text.append("` no longer contains `");
                text.append(exception.needle);
                text.append("` (");
                text.append(exception.reason);
                text.append("); delete the exception");
            },
            GuardFailure::BadToday { today } => {
                text.append("today's date must be `YYYY-MM-DD`, got `");
                text.append(today.as_str());
                text.append("`");
            },
            GuardFailure::BadExpiry { exception } => {
                text.append("the exception for `");
                text.append(exception.needle);
                text.append("` in `");
                text.append(exception.path);
                text.append("` expires on `");
                if let Some(date) = exception.expires {
                    text.append(date);
                }
                text.append("`, which is not `YYYY-MM-DD`");
            },
            GuardFailure::Expired { today, exceptions } => {
                text.append(decimal_of(exceptions.len() as u64).as_str());
                text.append(" exception(s) have expired (today is ");
                text.append(today.as_str());
                text.append("):\n  ");
                text.append(list_expiries(exceptions).as_str());
                text.append(
                    "\n\nFix the reach, or renew the date with a reason it is still pending.",
                );
            },
            GuardFailure::ExcludedMissing { path } => {
                text.append("`");
                text.append(path.as_str());
                text.append("` is excluded from the source guard but no longer exists");
            },
            GuardFailure::BansNothing => {
                text.append("the source guard bans nothing; add default_needles()");
            },
            GuardFailure::NoBite { needle, line } => {
                text.append("the source guard did not bite on `");
                text.append(needle);
                text.append("` at code.rs:");
                text.append(decimal_of(*line as u64).as_str());
                text.append("; it guards nothing");
            },
            GuardFailure::BitesProse { violations } => {
                text.append(
                    "a comment or string mentioning a needle tripped the source guard:\n  ",
                );
                text.append(list_violations(violations).as_str());
            },
        }
        assert(text@ =~= failure_text(*self));
        text
    }
}

// ---- the questions ---------------------------------------------------------------------------

/// Whether the guard bans `needle`.
pub open spec fn bans(guard: GuardModel, needle: Seq<char>) -> bool {
    exists|k: int| 0 <= k < guard.needles.len() && (#[trigger] guard.needles[k]).needle@ == needle
}

/// Whether the exception is for a banned needle that its file, read as `reading`, contains.
pub open spec fn is_needed(
    guard: GuardModel,
    exception: Exception,
    reading: Result<String, String>,
) -> bool {
    &&& bans(guard, exception.needle@)
    &&& reading matches Ok(text) && contains(code_of(text@), exception.needle@)
}

/// Whether the exception at `at` is the first that is not needed.
pub open spec fn is_first_unneeded(
    guard: GuardModel,
    readings: Seq<Result<String, String>>,
    at: int,
) -> bool {
    &&& 0 <= at < guard.exceptions.len()
    &&& !is_needed(guard, guard.exceptions[at], readings[at])
    &&& forall|k: int| 0 <= k < at ==> is_needed(guard, #[trigger] guard.exceptions[k], readings[k])
}

/// Whether the exception gives a date that is not `YYYY-MM-DD`.
pub open spec fn expires_badly(exception: Exception) -> bool {
    exception.expires matches Some(date) && !has_date_shape(date@)
}

/// Whether the exception has expired by `today`.
pub open spec fn has_expired(exception: Exception, today: Seq<char>) -> bool {
    exception.expires matches Some(date) && before(date@, today)
}

/// The exceptions that have expired by `today`.
pub open spec fn expired_by(exceptions: Seq<Exception>, today: Seq<char>) -> Seq<Exception> {
    exceptions.filter(|exception: Exception| has_expired(exception, today))
}

/// A line of code that names `needle`.
pub open spec fn code_line(needle: Seq<char>) -> Seq<char> {
    "let _ = "@ + needle + ";"@
}

/// A comment and a string that mention `needle`.
pub open spec fn prose_lines(needle: Seq<char>) -> Seq<char> {
    "// "@ + needle + "\nlet _ = \""@ + needle + "\";"@
}

/// A file whose lines each name one needle.
pub open spec fn code_naming(needles: Seq<Needle>) -> Seq<char> {
    joined(needles.map_values(|needle: Needle| code_line(needle.needle@)), "\n"@)
}

/// A file that mentions every needle in a comment and in a string.
pub open spec fn prose_naming(needles: Seq<Needle>) -> Seq<char> {
    joined(needles.map_values(|needle: Needle| prose_lines(needle.needle@)), "\n"@)
}

/// A guard with needles and nothing else.
pub open spec fn bare_guard(needles: Seq<Needle>) -> GuardModel {
    GuardModel {
        manifest_dir: Seq::empty(),
        sources: Seq::empty(),
        not_ticked: Seq::empty(),
        needles,
        exceptions: Seq::empty(),
        min_files: 1,
    }
}

/// What a guard with these needles finds in [`code_naming`] them.
pub open spec fn found_in_code(needles: Seq<Needle>) -> Seq<ViolationModel> {
    found_in(bare_guard(needles), "code.rs"@, code_naming(needles))
}

/// What a guard with these needles finds in [`prose_naming`] them.
pub open spec fn found_in_prose(needles: Seq<Needle>) -> Seq<ViolationModel> {
    found_in(bare_guard(needles), "prose.rs"@, prose_naming(needles))
}

/// Whether `found` has `needle` in line `line`.
pub open spec fn bites(found: Seq<ViolationModel>, needle: Seq<char>, line: nat) -> bool {
    exists|k: int|
        0 <= k < found.len() && (#[trigger] found[k]).needle == needle && found[k].line == line
}

/// Whether the needle at `at` is found in its line of code.
pub open spec fn bites_on(needles: Seq<Needle>, at: int) -> bool {
    bites(found_in_code(needles), needles[at].needle@, (at + 1) as nat)
}

fn finds(found: &Vec<Violation>, needle: &str, line: usize) -> (bitten: bool)
    ensures
        bitten == bites(violation_views(found@), needle@, line as nat),
{
    let mut index: usize = 0;
    while index < found.len()
        invariant
            index <= found@.len(),
            forall|k: int|
                0 <= k < index ==> !((#[trigger] violation_views(found@)[k]).needle == needle@
                    && violation_views(found@)[k].line == line),
        decreases found@.len() - index,
    {
        assert(violation_views(found@)[index as int] == found@[index as int]@);
        if found[index].line == line && same(found[index].needle, needle) {
            return true;
        }
        index = index + 1;
    }
    false
}

impl SourceGuard {
    /// The tick reaches for nothing it may not. Fails listing every violation as `path:line`.
    ///
    /// Also fails when fewer than [`min_files`](Self::min_files) files were found, which is what
    /// a renamed directory looks like from here: a guard over nothing passes.
    pub fn assert_clean(&self, tree: &Vec<SourceFile>) -> (verdict: Result<(), GuardFailure>)
        ensures
            ({
                let files = ticked_files(self@, tree_paths(tree@));
                let found = found_in_tree(self@, tree@);
                match verdict {
                    Ok(()) => files.len() >= self@.min_files && found.len() == 0,
                    Err(GuardFailure::TooFewFiles { found, sources, expected }) => {
                        &&& files.len() < self@.min_files
                        &&& found == files.len()
                        &&& views(sources@) == self@.sources
                        &&& expected == self@.min_files
                    },
                    Err(GuardFailure::Reaches { violations }) => {
                        &&& files.len() >= self@.min_files
                        &&& found.len() > 0
                        &&& violation_views(violations@) == found
                    },
                    Err(_) => false,
                }
            }),
    {
        let paths = paths_of(tree);
        let files = self.files(&paths);
        assert(views(files@).len() == files@.len());
        if files.len() < self.min_files {
            let sources = copied(&self.sources);
            return Err(
                GuardFailure::TooFewFiles {
                    found: files.len(),
                    sources,
                    expected: self.min_files,
                },
            );
        }
        let violations = self.violations(tree);
        assert(violation_views(violations@).len() == violations@.len());
        if violations.len() > 0 {
            return Err(GuardFailure::Reaches { violations });
        }
        Ok(())
    }

    /// Whether the guard bans `needle`.
    fn has_needle(&self, needle: &str) -> (banned: bool)
        ensures
            banned == bans(self@, needle@),
    {
        let mut index: usize = 0;
        while index < self.needles.len()
            invariant
                index <= self.needles@.len(),
                forall|k: int| 0 <= k < index ==> (#[trigger] self@.needles[k]).needle@ != needle@,
            decreases self.needles@.len() - index,
        {
            assert(self@.needles[index as int] == self.needles@[index as int]);
            if same(self.needles[index].needle, needle) {
                return true;
            }
            index = index + 1;
        }
        false
    }

    /// Every exception is for a banned needle and names a file that can be read and still contains
    /// its needle. `readings` holds what came of reading each of
    /// [`exception_files`](Self::exception_files): the text, or why there is none.
    ///
    /// An exception that no longer applies is worse than no exception: it is a licence nobody is
    /// using and everybody has to reason about. The list has to shrink as reaches are fixed, and
    /// this fails if it has not.
    pub fn assert_every_exception_is_still_needed(
        &self,
        readings: &Vec<Result<String, String>>,
    ) -> (verdict: Result<(), GuardFailure>)
        requires
            readings@.len() == self@.exceptions.len(),
        ensures
            match verdict {
                Ok(()) => forall|k: int|
                    0 <= k < readings@.len() ==> is_needed(
                        self@,
                        #[trigger] self@.exceptions[k],
                        readings@[k],
                    ),
                Err(failure) => exists|at: int|
                    #[trigger] is_first_unneeded(self@, readings@, at) && {
                        let unneeded = self@.exceptions[at];
                        match failure {
                            GuardFailure::UnknownNeedle { exception } => {
                                &&& exception == unneeded
                                &&& !bans(self@, unneeded.needle@)
                            },
                            GuardFailure::Unreadable { exception, error } => {
                                &&& exception == unneeded
                                &&& bans(self@, unneeded.needle@)
                                &&& readings@[at] matches Err(reason) && reason@ == error@
                            },
                            GuardFailure::Unused { exception } => {
                                &&& exception == unneeded
                                &&& bans(self@, unneeded.needle@)
                                &&& readings@[at] is Ok
                            },
                            _ => false,
                        }
                    },
            },
    {
        let mut index: usize = 0;
        while index < self.exceptions.len()
            invariant
                index <= self.exceptions@.len(),
                readings@.len() == self@.exceptions.len(),
                self.exceptions@ == self@.exceptions,
                forall|k: int|
                    0 <= k < index ==> is_needed(
                        self@,
                        #[trigger] self@.exceptions[k],
                        readings@[k],
                    ),
            decreases self.exceptions@.len() - index,
        {
            let exception = self.exceptions[index];
            assert(self@.exceptions[index as int] == exception);
            if !self.has_needle(exception.needle) {
                assert(is_first_unneeded(self@, readings@, index as int));
                return Err(GuardFailure::UnknownNeedle { exception });
            }
            match &readings[index] {
                Ok(text) => {
                    let code = code_only(text.as_str());
                    if !has_text(code.as_str(), exception.needle) {
                        assert(is_first_unneeded(self@, readings@, index as int));
                        return Err(GuardFailure::Unused { exception });
                    }
                },
                Err(reason) => {
                    assert(is_first_unneeded(self@, readings@, index as int));
                    return Err(GuardFailure::Unreadable { exception, error: reason.clone() });
                },
            }
            index = index + 1;
        }
        Ok(())
    }

    /// No exception's `expires` date is in the past.
    ///
    /// "Today" is `date_today` when it is given (`YYYY-MM-DD`), else the date in UTC on which the
    /// clock stands at `seconds` seconds after the start of 1970.
    pub fn assert_no_exception_has_expired(
        &self,
        date_today: Option<&str>,
        seconds: u64,
    ) -> (verdict: Result<(), GuardFailure>)
        ensures
            match date_today {
                Some(date) => is_expiry_verdict(self@, date@, verdict),
                None => exists|date: Seq<char>|
                    #[trigger] is_day_of(date, seconds) && is_expiry_verdict(self@, date, verdict),
            },
    {
        match date_today {
            Some(date) => self.assert_no_exception_has_expired_on(date),
            None => {
                let date = today(seconds);
                assert(is_day_of(date@, seconds));
                self.assert_no_exception_has_expired_on(date.as_str())
            },
        }
    }

    /// [`assert_no_exception_has_expired`](Self::assert_no_exception_has_expired) against a
    /// given `YYYY-MM-DD`.
    pub fn assert_no_exception_has_expired_on(&self, today: &str) -> (verdict: Result<
        (),
        GuardFailure,
    >)
        ensures
            is_expiry_verdict(self@, today@, verdict),
    {
        if !is_iso_date(today) {
            return Err(GuardFailure::BadToday { today: String::from_str(today) });
        }
        let mut expired: Vec<Exception> = Vec::new();
        let mut index: usize = 0;
        let ghost late = |exception: Exception| has_expired(exception, today@);
        reveal(Seq::filter);
        assert(expired@ =~= self@.exceptions.take(0).filter(late));
        while index < self.exceptions.len()
            invariant
                index <= self.exceptions@.len(),
                self.exceptions@ == self@.exceptions,
                has_date_shape(today@),
                late == (|exception: Exception| has_expired(exception, today@)),
                forall|k: int| 0 <= k < index ==> !expires_badly(#[trigger] self@.exceptions[k]),
                expired@ == self@.exceptions.take(index as int).filter(late),
            decreases self.exceptions@.len() - index,
        {
            let exception = self.exceptions[index];
            let ghost upto = self@.exceptions.take(index + 1);
            assert(upto.drop_last() =~= self@.exceptions.take(index as int));
            assert(upto.last() == exception);
            reveal(Seq::filter);
            if let Some(expires) = exception.expires {
                if !is_iso_date(expires) {
                    assert(is_first_bad_expiry(self@, index as int));
                    return Err(GuardFailure::BadExpiry { exception });
                }
                // Dates of this shape sort as strings.
                if comes_before(expires, today) {
                    expired.push(exception);
                }
            }
            index = index + 1;
        }
        assert(self@.exceptions.take(index as int) =~= self@.exceptions);
        if expired.len() > 0 {
            return Err(
                GuardFailure::Expired { today: String::from_str(today), exceptions: expired },
            );
        }
        Ok(())
    }

    /// Every [`not_ticked`](Self::not_ticked) path still exists. `existing` says of each of
    /// [`excluded_files`](Self::excluded_files) whether it does.
    ///
    /// A stale entry there is a hole: it excuses whatever is created at that path next.
    pub fn assert_excluded_paths_exist(&self, existing: &Vec<bool>) -> (verdict: Result<
        (),
        GuardFailure,
    >)
        requires
            existing@.len() == self@.not_ticked.len(),
        ensures
            match verdict {
                Ok(()) => forall|k: int| 0 <= k < existing@.len() ==> existing@[k],
                Err(GuardFailure::ExcludedMissing { path }) => exists|at: int|
                    {
                        &&& 0 <= at < existing@.len()
                        &&& !(#[trigger] existing@[at])
                        &&& forall|k: int| 0 <= k < at ==> existing@[k]
                        &&& path@ == self@.not_ticked[at]
                    },
                Err(_) => false,
            },
    {
        let mut index: usize = 0;
        assert(self.not_ticked@.len() == self@.not_ticked.len());
        while index < self.not_ticked.len()
            invariant
                index <= self.not_ticked@.len() == existing@.len(),
                forall|k: int| 0 <= k < index ==> existing@[k],
            decreases self.not_ticked@.len() - index,
        {
            if !existing[index] {
                let path = self.not_ticked[index].clone();
                assert(path@ == self@.not_ticked[index as int]);
                assert(!existing@[index as int]);
                return Err(GuardFailure::ExcludedMissing { path });
            }
            index = index + 1;
        }
        Ok(())
    }

    /// The guard fails on a file that contains every banned needle, and passes on one that only
    /// mentions them in comments and strings.
    ///
    /// Call it before anything is asserted with the guard: checking the check is the only evidence
    /// a passing guard is worth having.
    pub fn assert_it_bites(&self) -> (verdict: Result<(), GuardFailure>)
        ensures
            ({
                let needles = self@.needles;
                let in_prose = found_in_prose(needles);
                match verdict {
                    Ok(()) => {
                        &&& needles.len() > 0
                        &&& forall|k: int| 0 <= k < needles.len() ==> #[trigger] bites_on(needles, k)
                        &&& in_prose.len() == 0
                    },
                    Err(GuardFailure::BansNothing) => needles.len() == 0,
                    Err(GuardFailure::NoBite { needle, line }) => {
                        &&& 1 <= line <= needles.len()
                        &&& !bites_on(needles, line - 1)
                        &&& forall|k: int| 0 <= k < line - 1 ==> #[trigger] bites_on(needles, k)
                        &&& needle@ == needles[line - 1].needle@
                    },
                    Err(GuardFailure::BitesProse { violations }) => {
                        &&& needles.len() > 0
                        &&& forall|k: int| 0 <= k < needles.len() ==> #[trigger] bites_on(needles, k)
                        &&& in_prose.len() > 0
                        &&& violation_views(violations@) == in_prose
                    },
                    Err(_) => false,
                }
            }),
    {
        if self.needles.len() == 0 {
            return Err(GuardFailure::BansNothing);
        }
        let total: usize = self.needles.len();
        let ghost needles = self@.needles;
        let mut code_parts: Vec<String> = Vec::new();
        let mut prose_parts: Vec<String> = Vec::new();
        let mut index: usize = 0;
        while index < total
            invariant
                index <= total == self.needles@.len(),
                needles == self.needles@,
                code_parts@.len() == index,
                prose_parts@.len() == index,
                forall|k: int|
                    0 <= k < index ==> (#[trigger] code_parts@[k])@ == code_line(needles[k].needle@),
                forall|k: int|
                    0 <= k < index ==> (#[trigger] prose_parts@[k])@ == prose_lines(
                        needles[k].needle@,
                    ),
            decreases total - index,
        {
            let needle = self.needles[index].needle;
            let mut code = String::from_str("let _ = ");
            code.append(needle);
            code.append(";");
            code_parts.push(code);
            let mut prose = String::from_str("// ");
            prose.append(needle);
            prose.append("\nlet _ = \"");
            prose.append(needle);
            prose.append("\";");
            prose_parts.push(prose);
            index = index + 1;
        }
        assert(views(code_parts@) =~= needles.map_values(
            |needle: Needle| code_line(needle.needle@),
        ));
        assert(views(prose_parts@) =~= needles.map_values(
            |needle: Needle| prose_lines(needle.needle@),
        ));
        let code = join(&code_parts, "\n");
        let prose = join(&prose_parts, "\n");

        let guard = SourceGuard::new("").ban(self.needles.as_slice());
        assert(""@ =~= Seq::<char>::empty()) by {
            reveal_strlit("");
        }
        assert(Seq::<Needle>::empty() + needles =~= needles);
        assert(guard@ == bare_guard(needles));
        let found = guard.violations_in("code.rs", code.as_str());
        let mut number: usize = 0;
        while number < total
            invariant
                number <= total == self.needles@.len(),
                needles == self.needles@,
                needles == self@.needles,
                total > 0,
                violation_views(found@) == found_in_code(needles),
                forall|k: int| 0 <= k < number ==> #[trigger] bites_on(needles, k),
            decreases total - number,
        {
            if !finds(&found, self.needles[number].needle, number + 1) {
                assert(!bites_on(needles, number as int));
                return Err(
                    GuardFailure::NoBite { needle: self.needles[number].needle, line: number + 1 },
                );
            }
            assert(bites_on(needles, number as int));
            number = number + 1;
        }
        let violations = guard.violations_in("prose.rs", prose.as_str());
        assert(violation_views(violations@).len() == violations@.len());
        if violations.len() > 0 {
            return Err(GuardFailure::BitesProse { violations });
        }
        Ok(())
    }
}

/// A copy of a list of strings.
fn copied(list: &Vec<String>) -> (copy: Vec<String>)
    ensures
        views(copy@) == views(list@),
{
    let mut copy: Vec<String> = Vec::new();
    let mut index: usize = 0;
    while index < list.len()
        invariant
            index <= list@.len(),
            copy@.len() == index,
            forall|k: int| 0 <= k < index ==> (#[trigger] copy@[k])@ == list@[k]@,
        decreases list@.len() - index,
    {
        copy.push(list[index].clone());
        index = index + 1;
    }
    assert(views(copy@) =~= views(list@));
    copy
}

/// Whether `date` is the text of the day on which the clock stands at `seconds` seconds after the
/// start of 1970.
pub open spec fn is_day_of(date: Seq<char>, seconds: u64) -> bool {
    exists|year: nat, month: nat, day: nat|
        {
            &&& is_date(year as int, month as int, day as int)
            &&& day_number(year as int, month as int, day as int) == seconds as int / 86_400
            &&& date == #[trigger] date_text(year, month, day)
        }
}

/// Whether the exception at `at` is the first with a date that is not `YYYY-MM-DD`.
pub open spec fn is_first_bad_expiry(guard: GuardModel, at: int) -> bool {
    &&& 0 <= at < guard.exceptions.len()
    &&& expires_badly(guard.exceptions[at])
    &&& forall|k: int| 0 <= k < at ==> !expires_badly(#[trigger] guard.exceptions[k])
}

/// Whether `verdict` is what the guard answers when asked on `today` which exceptions have
/// expired.
pub open spec fn is_expiry_verdict(
    guard: GuardModel,
    today: Seq<char>,
    verdict: Result<(), GuardFailure>,
) -> bool {
    let all_good = forall|k: int|
        0 <= k < guard.exceptions.len() ==> !expires_badly(#[trigger] guard.exceptions[k]);
    let expired = expired_by(guard.exceptions, today);
    match verdict {
        Ok(()) => has_date_shape(today) && all_good && expired.len() == 0,
        Err(GuardFailure::BadToday { today: shown }) => !has_date_shape(today) && shown@ == today,
        Err(GuardFailure::BadExpiry { exception }) => has_date_shape(today) && exists|at: int|
            #[trigger] is_first_bad_expiry(guard, at) && exception == guard.exceptions[at],
        Err(GuardFailure::Expired { today: shown, exceptions }) => {
            &&& has_date_shape(today)
            &&& all_good
            &&& expired.len() > 0
            &&& shown@ == today
            &&& exceptions@ == expired
        },
        Err(_) => false,
    }
}

// ---- laws ------------------------------------------------------------------------------------

/// An exception lasts through the day it expires on and has expired on every later one; one without
/// a date never does.
pub proof fn lemma_exception_lasts_through_its_day(
    exception: Exception,
    year: nat,
    month: nat,
    day: nat,
    other_year: nat,
    other_month: nat,
    other_day: nat,
)
    requires
        is_date(year as int, month as int, day as int),
        is_date(other_year as int, other_month as int, other_day as int),
        year < 10_000,
        other_year < 10_000,
        exception.expires matches Some(date) ==> date@ == date_text(year, month, day),
    ensures
        has_expired(exception, date_text(other_year, other_month, other_day)) <==> exception.expires
            is Some && day_number(year as int, month as int, day as int) < day_number(
            other_year as int,
            other_month as int,
            other_day as int,
        ),
        !expires_badly(exception),
{
    lemma_earlier_date_sorts_first(year, month, day, other_year, other_month, other_day);
    lemma_date_text(year, month, day);
}

/// Every exception that has expired is named, and no other, in the order in which they were allowed.
pub proof fn lemma_all_expired_are_named(
    one: Seq<Exception>,
    other: Seq<Exception>,
    today: Seq<char>,
    exception: Exception,
)
    ensures
        expired_by(one + other, today) == expired_by(one, today) + expired_by(other, today),
        expired_by(seq![exception], today) == (if exception.expires matches Some(date) && before(
            date@,
            today,
        ) {
            seq![exception]
        } else {
            Seq::empty()
        }),
{
    let late = |each: Exception| has_expired(each, today);
    Seq::filter_distributes_over_add(one, other, late);
    reveal(Seq::filter);
    let alone = seq![exception];
    assert(alone.drop_last() =~= Seq::empty());
    assert(alone.drop_last().filter(late) =~= Seq::empty());
    assert(expired_by(alone, today) =~= (if has_expired(exception, today) {
        alone
    } else {
        Seq::empty()
    }));
}

/// The verdict on the expiries of a guard is good exactly when today is a date, every expiry is one,
/// and none of them comes before today.
pub proof fn lemma_good_verdict_means_nothing_expired(
    guard: GuardModel,
    today: Seq<char>,
    verdict: Result<(), GuardFailure>,
)
    requires
        is_expiry_verdict(guard, today, verdict),
    ensures
        verdict is Ok <==> {
            &&& has_date_shape(today)
            &&& forall|k: int|
                0 <= k < guard.exceptions.len() ==> ((#[trigger] guard.exceptions[k]).expires
                    matches Some(date) ==> has_date_shape(date@) && !before(date@, today))
        },
{
    let late = |each: Exception| has_expired(each, today);
    let all = guard.exceptions;
    let expired = expired_by(all, today);
    if expired.len() > 0 {
        all.lemma_filter_pred(late, 0);
        all.lemma_filter_contains_rev(late, expired[0]);
        let k = choose|k: int| 0 <= k < all.len() && all[k] == expired[0];
        assert(has_expired(all[k], today));
    } else {
        assert forall|k: int| 0 <= k < all.len() implies !has_expired(#[trigger] all[k], today) by {
            if has_expired(all[k], today) {
                all.lemma_filter_contains(late, k);
            }
        }
    }
    if verdict is Ok {
        assert forall|k: int| 0 <= k < all.len() implies ((#[trigger] all[k]).expires matches Some(
            date,
        ) ==> has_date_shape(date@) && !before(date@, today)) by {
            assert(!expires_badly(all[k]));
            assert(!has_expired(all[k], today));
        }
    } else if let Err(GuardFailure::BadExpiry { exception }) = verdict {
        let at = choose|at: int| #[trigger]
            is_first_bad_expiry(guard, at) && exception == guard.exceptions[at];
        assert(expires_badly(all[at]));
    }
}

/// An exception is needed exactly when a guard without exceptions would find its needle in the file.
/// One for a file that cannot be read is not.
pub proof fn lemma_needed_means_found_without(
    guard: GuardModel,
    exception: Exception,
    text: String,
)
    requires
        exception.needle@.len() > 0,
        !exception.needle@.contains('\n'),
        !exception.needle@.contains('\r'),
    ensures
        ({
            let found = found_in(
                GuardModel { exceptions: Seq::empty(), ..guard },
                exception.path@,
                text@,
            );
            is_needed(guard, exception, Ok(text)) <==> exists|k: int|
                0 <= k < found.len() && (#[trigger] found[k]).needle == exception.needle@
        }),
        forall|why: String| !#[trigger] is_needed(guard, exception, Err(why)),
{
    let bare = GuardModel { exceptions: Seq::empty(), ..guard };
    let path = exception.path@;
    let needle = exception.needle@;
    let code = lines_of(code_of(text@));
    let found = found_in(bare, path, text@);
    lemma_found_is_what_is_there(bare, path, text@);
    lemma_lines_hold_what_the_text_does(code_of(text@), needle);
    if is_needed(guard, exception, Ok(text)) {
        let number = choose|number: int|
            0 <= number < guard.needles.len() && (#[trigger] guard.needles[number]).needle@
                == needle;
        let line = choose|line: int| 0 <= line < code.len() && contains(#[trigger] code[line], needle);
        assert(bare.needles[number] == guard.needles[number]);
        assert(!is_excused(bare, path, needle));
        let wanted = ViolationModel {
            path,
            line: (line + 1) as nat,
            needle: bare.needles[number].needle@,
            reason: bare.needles[number].reason@,
            text: code[line],
        };
        assert(contains(code[line], bare.needles[number].needle@));
        assert(found.contains(wanted));
        let k = choose|k: int| 0 <= k < found.len() && found[k] == wanted;
        assert(found[k].needle == needle);
    }
    if exists|k: int| 0 <= k < found.len() && (#[trigger] found[k]).needle == needle {
        let k = choose|k: int| 0 <= k < found.len() && (#[trigger] found[k]).needle == needle;
        let number = choose|number: int|
            0 <= number < bare.needles.len() && (#[trigger] bare.needles[number]).needle@
                == found[k].needle && bare.needles[number].reason@ == found[k].reason;
        assert(guard.needles[number].needle@ == needle);
        assert(contains(code[found[k].line - 1], needle));
    }
}

/// Whether a needle is a stretch of code that opens neither a comment nor a literal and does not
/// break the line.
pub open spec fn is_plain_needle(needle: Seq<char>) -> bool {
    &&& needle.len() > 0
    &&& forall|k: int|
        0 <= k < needle.len() ==> {
            let c = #[trigger] needle[k];
            c != '"' && c != '/' && c != '\'' && c != '\\' && c != '\n'
        }
}

/// A guard bites: whatever plain needles it bans, it finds each of them in the line of code that
/// names it; and it bites on nothing but code: a comment and a string that name them are passed
/// over, unless a needle stands in the line that is left.
pub proof fn lemma_guard_bites_on_code_alone(needles: Seq<Needle>, at: int)
    requires
        0 <= at < needles.len(),
        forall|k: int| 0 <= k < needles.len() ==> is_plain_needle((#[trigger] needles[k]).needle@),
    ensures
        bites_on(needles, at),
        (forall|k: int|
            0 <= k < needles.len() ==> !contains(
                "let _ = ;"@,
                (#[trigger] needles[k]).needle@,
            )) ==> found_in_prose(needles).len() == 0,
{
    lemma_bites_on_code(needles, at);
    if forall|k: int|
        0 <= k < needles.len() ==> !contains("let _ = ;"@, (#[trigger] needles[k]).needle@) {
        let guard = bare_guard(needles);
        let source = prose_naming(needles);
        let found = found_in_prose(needles);
        let code = lines_of(code_of(source));
        lemma_found_is_what_is_there(guard, "prose.rs"@, source);
        lemma_prose_leaves_nothing(needles);
        if found.len() > 0 {
            let one = found[0];
            let number = choose|number: int|
                0 <= number < guard.needles.len() && (#[trigger] guard.needles[number]).needle@
                    == one.needle && guard.needles[number].reason@ == one.reason;
            assert(needles[number].needle@ == one.needle);
            let line = code[one.line - 1];
            assert(line.len() == 0 || line == "let _ = ;"@);
            assert(contains(line, one.needle));
            if line.len() == 0 {
                let place = choose|place: int| occurs_at(line, one.needle, place);
                assert(occurs_at(line, one.needle, place));
            }
        }
    }
}

proof fn lemma_code_line_is_plain(needle: Seq<char>)
    requires
        is_plain_needle(needle),
    ensures
        is_plain(code_line(needle)),
        !code_line(needle).contains('\n'),
        code_line(needle).len() > 0,
        code_line(needle).last() == ';',
        contains(code_line(needle), needle),
{
    reveal_strlit("let _ = ");
    reveal_strlit(";");
    let line = code_line(needle);
    let head = "let _ = "@;
    assert forall|k: int| 0 <= k < line.len() implies {
        &&& #[trigger] line[k] != '"'
        &&& line[k] != '/'
        &&& line[k] != '\''
        &&& line[k] != '\n'
    } by {
        if k < head.len() {
            assert(line[k] == head[k]);
        } else if k < head.len() + needle.len() {
            assert(line[k] == needle[k - head.len()]);
        } else {
            assert(line[k] == ';');
        }
    }
    lemma_contains_what_stands_in_it(needle, needle, head, ";"@);
}

proof fn lemma_code_naming(needles: Seq<Needle>)
    requires
        forall|k: int| 0 <= k < needles.len() ==> is_plain_needle((#[trigger] needles[k]).needle@),
    ensures
        is_plain(code_naming(needles)),
        lines_of(code_naming(needles)) == needles.map_values(
            |needle: Needle| code_line(needle.needle@),
        ),
    decreases needles.len(),
{
    reveal_strlit("\n");
    let shown = |needle: Needle| code_line(needle.needle@);
    let parts = needles.map_values(shown);
    let text = code_naming(needles);
    if needles.len() == 0 {
        assert(lines_of(text) =~= parts);
    } else {
        let first = code_line(needles[0].needle@);
        lemma_code_line_is_plain(needles[0].needle@);
        assert(parts[0] == first);
        if needles.len() == 1 {
            lemma_first_line(first, Seq::empty());
            assert(lines_of(text) =~= parts);
        } else {
            let rest = needles.skip(1);
            assert forall|k: int| 0 <= k < rest.len() implies is_plain_needle(
                (#[trigger] rest[k]).needle@,
            ) by {
                assert(rest[k] == needles[k + 1]);
            }
            lemma_code_naming(rest);
            assert(parts.skip(1) =~= rest.map_values(shown));
            lemma_joined_from_front(parts, "\n"@);
            let tail = code_naming(rest);
            assert("\n"@ =~= seq!['\n']);
            assert(text =~= first + seq!['\n'] + tail);
            lemma_first_line(first, tail);
            assert(seq![first] + parts.skip(1) =~= parts);
            assert forall|k: int| 0 <= k < text.len() implies {
                &&& #[trigger] text[k] != '"'
                &&& text[k] != '/'
                &&& text[k] != '\''
            } by {
                if k < first.len() {
                    assert(text[k] == first[k]);
                } else if k > first.len() {
                    assert(text[k] == tail[k - first.len() - 1]);
                }
            }
        }
    }
}

proof fn lemma_bites_on_code(needles: Seq<Needle>, at: int)
    requires
        0 <= at < needles.len(),
        forall|k: int| 0 <= k < needles.len() ==> is_plain_needle((#[trigger] needles[k]).needle@),
    ensures
        bites_on(needles, at),
{
    let guard = bare_guard(needles);
    let source = code_naming(needles);
    let found = found_in_code(needles);
    let needle = needles[at].needle@;
    lemma_code_naming(needles);
    lemma_plain_code_is_kept(source, Seq::empty());
    assert(source + Seq::empty() =~= source);
    assert(code_of(Seq::empty()) =~= Seq::<char>::empty());
    assert(code_of(source) =~= source);
    lemma_found_is_what_is_there(guard, "code.rs"@, source);
    let code = lines_of(code_of(source));
    lemma_code_line_is_plain(needle);
    assert(code[at] == code_line(needle));
    assert(!is_excused(guard, "code.rs"@, needle));
    let wanted = ViolationModel {
        path: "code.rs"@,
        line: (at + 1) as nat,
        needle: guard.needles[at].needle@,
        reason: guard.needles[at].reason@,
        text: code[at],
    };
    assert(contains(code[at], guard.needles[at].needle@));
    assert(found.contains(wanted));
    let k = choose|k: int| 0 <= k < found.len() && found[k] == wanted;
    assert(found[k].needle == needle && found[k].line == (at + 1) as nat);
}

proof fn lemma_prose_of_one(needle: Seq<char>, tail: Seq<char>)
    requires
        is_plain_needle(needle),
    ensures
        code_of(prose_lines(needle) + tail) == seq!['\n'] + "let _ = ;"@ + code_of(tail),
{
    reveal_strlit("// ");
    reveal_strlit("\nlet _ = \"");
    reveal_strlit("\";");
    reveal_strlit("let _ = ;");
    let start = seq!['l', 'e', 't', ' ', '_', ' ', '=', ' '];
    let quoted = seq!['"'] + needle + seq!['"'];
    let end = seq![';'] + tail;
    let comment = seq![' '] + needle;
    let whole = prose_lines(needle) + tail;
    assert(whole =~= seq!['/', '/'] + comment + seq!['\n'] + (start + (quoted + end)));
    assert forall|k: int| 0 <= k < comment.len() implies comment[k] != '\n' by {
        if k > 0 {
            assert(comment[k] == needle[k - 1]);
        }
    }
    assert(!comment.contains('\n'));
    lemma_line_comment_is_removed(comment, start + (quoted + end));
    lemma_sign_makes_nothing_raw(start, quoted + end);
    lemma_plain_code_is_kept(start, quoted + end);
    assert forall|k: int| 0 <= k < needle.len() implies {
        &&& #[trigger] needle[k] != '"'
        &&& needle[k] != '\\'
        &&& needle[k] != '\n'
    } by {}
    lemma_plain_string_content(needle);
    lemma_string_is_removed(needle, end);
    lemma_sign_makes_nothing_raw(seq![';'], tail);
    lemma_plain_code_is_kept(seq![';'], tail);
    assert(code_of(whole) =~= seq!['\n'] + "let _ = ;"@ + code_of(tail));
}

proof fn lemma_prose_of_several(needles: Seq<Needle>)
    requires
        needles.len() > 0,
        is_plain_needle(needles[0].needle@),
    ensures
        code_of(prose_naming(needles)) == seq!['\n'] + "let _ = ;"@ + (if needles.len() == 1 {
            Seq::empty()
        } else {
            seq!['\n'] + code_of(prose_naming(needles.skip(1)))
        }),
{
    reveal_strlit("\n");
    let shown = |needle: Needle| prose_lines(needle.needle@);
    let parts = needles.map_values(shown);
    let text = prose_naming(needles);
    let needle = needles[0].needle@;
    assert(parts[0] == prose_lines(needle));
    if needles.len() == 1 {
        let none = Seq::<char>::empty();
        lemma_prose_of_one(needle, none);
        assert(prose_lines(needle) + none =~= text);
        assert(code_of(none) =~= none);
    } else {
        let rest = needles.skip(1);
        assert(parts.skip(1) =~= rest.map_values(shown));
        lemma_joined_from_front(parts, "\n"@);
        assert("\n"@ =~= seq!['\n']);
        let more = prose_naming(rest);
        let tail = seq!['\n'] + more;
        assert(text =~= prose_lines(needle) + tail);
        lemma_prose_of_one(needle, tail);
        lemma_sign_makes_nothing_raw(seq!['\n'], more);
        lemma_plain_code_is_kept(seq!['\n'], more);
    }
}

proof fn lemma_lines_that_are_left(code: Seq<char>)
    ensures
        lines_of(seq!['\n'] + "let _ = ;"@ + Seq::empty()) == seq![Seq::empty(), "let _ = ;"@],
        lines_of(seq!['\n'] + "let _ = ;"@ + (seq!['\n'] + code)) == seq![
            Seq::empty(),
            "let _ = ;"@,
        ] + lines_of(code),
{
    reveal_strlit("let _ = ;");
    let left = "let _ = ;"@;
    let none = Seq::<char>::empty();
    assert(!none.contains('\n'));
    assert(!left.contains('\n'));
    lemma_first_line(none, left);
    lemma_first_line(left, none);
    assert(seq!['\n'] + left + none =~= none + seq!['\n'] + left);
    assert(seq![none] + seq![left] =~= seq![none, left]);
    lemma_first_line(none, left + seq!['\n'] + code);
    lemma_first_line(left, code);
    assert(seq!['\n'] + left + (seq!['\n'] + code) =~= none + seq!['\n'] + (left + seq!['\n']
        + code));
    assert(seq![none] + (seq![left] + lines_of(code)) =~= seq![none, left] + lines_of(code));
}

proof fn lemma_prose_leaves_nothing(needles: Seq<Needle>)
    requires
        forall|k: int| 0 <= k < needles.len() ==> is_plain_needle((#[trigger] needles[k]).needle@),
    ensures
        ({
            let code = lines_of(code_of(prose_naming(needles)));
            forall|k: int|
                0 <= k < code.len() ==> (#[trigger] code[k]).len() == 0 || code[k] == "let _ = ;"@
        }),
    decreases needles.len(),
{
    let text = prose_naming(needles);
    let left = "let _ = ;"@;
    let list = lines_of(code_of(text));
    if needles.len() == 0 {
        assert(code_of(text) =~= Seq::<char>::empty());
        assert(list =~= Seq::<Seq<char>>::empty());
    } else {
        assert(is_plain_needle(needles[0].needle@));
        lemma_prose_of_several(needles);
        let rest = needles.skip(1);
        let code = code_of(prose_naming(rest));
        lemma_lines_that_are_left(code);
        if needles.len() > 1 {
            assert forall|k: int| 0 <= k < rest.len() implies is_plain_needle(
                (#[trigger] rest[k]).needle@,
            ) by {
                assert(rest[k] == needles[k + 1]);
            }
            lemma_prose_leaves_nothing(rest);
            assert forall|k: int| 0 <= k < list.len() implies (#[trigger] list[k]).len() == 0
                || list[k] == left by {
                if k >= 2 {
                    assert(list[k] == lines_of(code)[k - 2]);
                }
            }
        }
    }
}

/// Exceptions that have expired are told one below the other, each with its file, its needle, its
/// date and why it was allowed.
pub proof fn lemma_every_expiry_is_told(
    one: Seq<Exception>,
    other: Seq<Exception>,
    exception: Exception,
)
    ensures
        one.len() > 0 && other.len() > 0 ==> expiries_text(one + other) == expiries_text(one)
            + "\n  "@ + expiries_text(other),
        expiries_text(seq![exception]) == expiry_text(exception),
        contains(expiry_text(exception), exception.path@),
        contains(expiry_text(exception), exception.needle@),
        contains(expiry_text(exception), exception.reason@),
        exception.expires matches Some(date) ==> contains(expiry_text(exception), date@),
{
    let shown = |each: Exception| expiry_text(each);
    if one.len() > 0 && other.len() > 0 {
        assert((one + other).map_values(shown) =~= one.map_values(shown) + other.map_values(shown));
        lemma_joins_are_joined(one.map_values(shown), other.map_values(shown), "\n  "@);
    }
    assert(seq![exception].map_values(shown) =~= seq![expiry_text(exception)]);
    let expires = match exception.expires {
        Some(date) => date@,
        None => Seq::empty(),
    };
    let text = expiry_text(exception);
    let tail = "` expired on "@ + expires + " — "@ + exception.reason@;
    lemma_contains_its_parts(Seq::empty(), exception.path@, ": `"@, exception.needle@, tail);
    assert(Seq::empty() + exception.path@ + ": `"@ + exception.needle@ + tail =~= text);
    let head = exception.path@ + ": `"@ + exception.needle@ + "` expired on "@;
    lemma_contains_its_parts(head, expires, " — "@, exception.reason@, Seq::empty());
    assert(head + expires + " — "@ + exception.reason@ + Seq::empty() =~= text);
}

/// A failure that comes of violations or expired exceptions tells all of them.
pub proof fn lemma_failure_tells_everything(failure: GuardFailure)
    ensures
        match failure {
            GuardFailure::Reaches { violations } => contains(
                failure_text(failure),
                violations_text(violation_views(violations@)),
            ) && contains(failure_text(failure), decimal(violations@.len())),
            GuardFailure::BitesProse { violations } => contains(
                failure_text(failure),
                violations_text(violation_views(violations@)),
            ),
            GuardFailure::Expired { today, exceptions } => contains(
                failure_text(failure),
                expiries_text(exceptions@),
            ) && contains(failure_text(failure), today@),
            GuardFailure::ExcludedMissing { path } => contains(failure_text(failure), path@),
            GuardFailure::Unused { exception } => contains(failure_text(failure), exception.path@)
                && contains(failure_text(failure), exception.needle@),
            GuardFailure::UnknownNeedle { exception } => contains(
                failure_text(failure),
                exception.path@,
            ) && contains(failure_text(failure), exception.needle@),
            GuardFailure::NoBite { needle, line } => contains(failure_text(failure), needle@)
                && contains(failure_text(failure), decimal(line as nat)),
            GuardFailure::TooFewFiles { found, sources, expected } => contains(
                failure_text(failure),
                decimal(found as nat),
            ) && contains(failure_text(failure), debug_list(views(sources@))) && contains(
                failure_text(failure),
                decimal(expected as nat),
            ),
            GuardFailure::Unreadable { exception, error } => contains(
                failure_text(failure),
                exception.path@,
            ) && contains(failure_text(failure), exception.needle@) && contains(
                failure_text(failure),
                error@,
            ),
            GuardFailure::BadToday { today } => contains(failure_text(failure), today@),
            GuardFailure::BadExpiry { exception } => contains(
                failure_text(failure),
                exception.path@,
            ) && contains(failure_text(failure), exception.needle@),
            GuardFailure::BansNothing => failure_text(failure).len() > 0,
        },
{
    let none = Seq::<char>::empty();
    match failure {
        GuardFailure::Reaches { violations } => {
            lemma_contains_its_parts(
                "the tick simulation reaches outside the tick ("@,
                decimal(violations@.len()),
                " violation(s)):\n  "@,
                violations_text(violation_views(violations@)),
                "\n\nFix the reach, or add an `Exception` with a reason if it is genuinely right."@,
            );
        },
        GuardFailure::BitesProse { violations } => {
            let list = violations_text(violation_views(violations@));
            let start = "a comment or string mentioning a needle tripped the source guard:\n  "@;
            lemma_contains_what_stands_in_it(list, list, start, none);
            assert(start + list + none =~= failure_text(failure));
        },
        GuardFailure::Expired { today, exceptions } => {
            let start = decimal(exceptions@.len()) + " exception(s) have expired (today is "@;
            lemma_contains_its_parts(
                start,
                today@,
                "):\n  "@,
                expiries_text(exceptions@),
                "\n\nFix the reach, or renew the date with a reason it is still pending."@,
            );
        },
        GuardFailure::ExcludedMissing { path } => {
            lemma_contains_what_stands_in_it(
                path@,
                path@,
                "`"@,
                "` is excluded from the source guard but no longer exists"@,
            );
        },
        GuardFailure::Unused { exception } => {
            let end = "` ("@ + exception.reason@ + "); delete the exception"@;
            lemma_contains_its_parts(
                "`"@,
                exception.path@,
                "` no longer contains `"@,
                exception.needle@,
                end,
            );
            assert("`"@ + exception.path@ + "` no longer contains `"@ + exception.needle@ + end
                =~= failure_text(failure));
        },
        GuardFailure::UnknownNeedle { exception } => {
            lemma_contains_its_parts(
                "the exception for `"@,
                exception.needle@,
                "` in `"@,
                exception.path@,
                "` names a needle this guard does not ban"@,
            );
        },
        GuardFailure::NoBite { needle, line } => {
            let end = "` at code.rs:"@ + decimal(line as nat) + "; it guards nothing"@;
            lemma_contains_what_stands_in_it(
                needle@,
                needle@,
                "the source guard did not bite on `"@,
                end,
            );
            assert("the source guard did not bite on `"@ + needle@ + end =~= failure_text(failure));
            let start = "the source guard did not bite on `"@ + needle@ + "` at code.rs:"@;
            lemma_contains_what_stands_in_it(
                decimal(line as nat),
                decimal(line as nat),
                start,
                "; it guards nothing"@,
            );
        },
        GuardFailure::TooFewFiles { found, sources, expected } => {
            let shown = debug_list(views(sources@));
            let end = "; the source list has gone stale"@;
            let tail = " but expected at least "@ + decimal(expected as nat) + end;
            lemma_contains_its_parts(
                "the source guard found "@,
                decimal(found as nat),
                " ticked file(s) under "@,
                shown,
                tail,
            );
            assert("the source guard found "@ + decimal(found as nat) + " ticked file(s) under "@
                + shown + tail =~= failure_text(failure));
            let start = "the source guard found "@ + decimal(found as nat)
                + " ticked file(s) under "@ + shown + " but expected at least "@;
            lemma_contains_what_stands_in_it(
                decimal(expected as nat),
                decimal(expected as nat),
                start,
                end,
            );
        },
        GuardFailure::Unreadable { exception, error } => {
            let end = "); delete the exception"@;
            let tail = "`, which cannot be read ("@ + error@ + end;
            lemma_contains_its_parts(
                "the exception for `"@,
                exception.needle@,
                "` names `"@,
                exception.path@,
                tail,
            );
            assert("the exception for `"@ + exception.needle@ + "` names `"@ + exception.path@ + tail
                =~= failure_text(failure));
            let start = "the exception for `"@ + exception.needle@ + "` names `"@ + exception.path@
                + "`, which cannot be read ("@;
            lemma_contains_what_stands_in_it(error@, error@, start, end);
        },
        GuardFailure::BadToday { today } => {
            lemma_contains_what_stands_in_it(
                today@,
                today@,
                "today's date must be `YYYY-MM-DD`, got `"@,
                "`"@,
            );
        },
        GuardFailure::BadExpiry { exception } => {
            let date = match exception.expires {
                Some(date) => date@,
                None => Seq::empty(),
            };
            let tail = "` expires on `"@ + date + "`, which is not `YYYY-MM-DD`"@;
            lemma_contains_its_parts(
                "the exception for `"@,
                exception.needle@,
                "` in `"@,
                exception.path@,
                tail,
            );
            assert("the exception for `"@ + exception.needle@ + "` in `"@ + exception.path@ + tail
                =~= failure_text(failure));
        },
        GuardFailure::BansNothing => {
            reveal_strlit("the source guard bans nothing; add default_needles()");
        },
    }
}

proof fn lemma_year_is_written_in_four_digits(year: nat, month: nat, day: nat, seconds: u64)
    requires
        is_date(year as int, month as int, day as int),
        day_number(year as int, month as int, day as int) == seconds as int / 86_400,
        seconds < 253_402_300_800,
    ensures
        year < 10_000,
{
    if year >= 10_000 {
        lemma_months_are_not_negative(year as int, month as int);
        assert(days_before_year(year as int) >= days_before_year(10_000));
    }
}

proof fn lemma_months_are_not_negative(year: int, month: int)
    ensures
        days_before_month(year, month) >= 0,
    decreases month,
{
    if month > 1 {
        lemma_months_are_not_negative(year, month - 1);
    }
}

/// The date changes at midnight and only then: two moments have the same date exactly when they are
/// of the same day, and the date of the later day comes behind the other.
pub proof fn lemma_date_changes_at_midnight(
    date: Seq<char>,
    seconds: u64,
    other: Seq<char>,
    later: u64,
)
    requires
        is_day_of(date, seconds),
        is_day_of(other, later),
        seconds < 253_402_300_800,
        later < 253_402_300_800,
    ensures
        has_date_shape(date),
        date == other <==> seconds / 86_400 == later / 86_400,
        before(date, other) <==> seconds / 86_400 < later / 86_400,
{
    let (year, month, day) = choose|year: nat, month: nat, day: nat|
        {
            &&& is_date(year as int, month as int, day as int)
            &&& day_number(year as int, month as int, day as int) == seconds as int / 86_400
            &&& date == #[trigger] date_text(year, month, day)
        };
    let (y, m, d) = choose|y: nat, m: nat, d: nat|
        {
            &&& is_date(y as int, m as int, d as int)
            &&& day_number(y as int, m as int, d as int) == later as int / 86_400
            &&& other == #[trigger] date_text(y, m, d)
        };
    lemma_year_is_written_in_four_digits(year, month, day, seconds);
    lemma_year_is_written_in_four_digits(y, m, d, later);
    lemma_date_text(year, month, day);
    lemma_earlier_date_sorts_first(year, month, day, y, m, d);
    lemma_earlier_date_sorts_first(y, m, d, year, month, day);
    lemma_before_total(date, other);
    if seconds / 86_400 == later / 86_400 {
        lemma_day_numbers_differ(
            year as int,
            month as int,
            day as int,
            y as int,
            m as int,
            d as int,
        );
    }
}

} // verus!
