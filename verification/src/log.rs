//! Capturing what peers log, so a test can assert that they said nothing alarming.
//!
//! Every warning and error is recorded with the thread it was emitted on, and a test reads what
//! came after a [`LogMark`] it took. A record from a task-pool thread cannot be attributed to a
//! test, so it is returned to whichever test asks.

use vstd::prelude::*;
use vstd::string::*;

use crate::number::{decimal, decimal_of};
use crate::text::{
    contains, has_text, join, joined, lemma_contains_what_stands_in_it,
    lemma_joined_contains_its_parts, same, str_views, views,
};

verus! {

/// How grave a record is.
#[derive(Clone, Copy, Debug, PartialEq, Eq, Structural)]
pub enum Level {
    Error,
    Warn,
    Info,
    Debug,
    Trace,
}

/// One captured warning or error.
#[derive(Clone, Debug)]
pub struct LogRecord {
    /// The thread it was emitted on.
    pub thread: u64,
    /// Whether the thread was a task-pool worker, whose records cannot be attributed to a test.
    pub pooled: bool,
    pub level: Level,
    pub target: String,
    pub message: String,
}

/// The contents of a [`LogRecord`].
pub struct RecordModel {
    pub thread: u64,
    pub pooled: bool,
    pub level: Level,
    pub target: Seq<char>,
    pub message: Seq<char>,
}

impl View for LogRecord {
    type V = RecordModel;

    open spec fn view(&self) -> RecordModel {
        RecordModel {
            thread: self.thread,
            pooled: self.pooled,
            level: self.level,
            target: self.target@,
            message: self.message@,
        }
    }
}

/// The contents of a list of records.
pub open spec fn record_views(list: Seq<LogRecord>) -> Seq<RecordModel> {
    list.map_values(|record: LogRecord| record@)
}

/// `target: message`.
pub open spec fn record_line(record: RecordModel) -> Seq<char> {
    record.target + ": "@ + record.message
}

impl LogRecord {
    /// `target: message`, which is what the assertions print.
    pub fn line(&self) -> (text: String)
        ensures
            text@ == record_line(self@),
    {
        let mut text = self.target.clone();
        text.append(": ");
        text.append(self.message.as_str());
        text
    }

    fn copy(&self) -> (copy: LogRecord)
        ensures
            copy@ == self@,
    {
        LogRecord {
            thread: self.thread,
            pooled: self.pooled,
            level: self.level,
            target: self.target.clone(),
            message: self.message.clone(),
        }
    }
}

// ---- capturing -------------------------------------------------------------------------------

/// What an event says: its message, and its other fields as `name=value`.
pub struct MessageVisitor {
    message: String,
    fields: Vec<String>,
}

impl MessageVisitor {
    /// The message so far.
    pub closed spec fn said(&self) -> Seq<char> {
        self.message@
    }

    /// The fields so far.
    pub closed spec fn listed(&self) -> Seq<Seq<char>> {
        views(self.fields@)
    }

    /// Nothing has been said yet.
    pub fn new() -> (visitor: MessageVisitor)
        ensures
            visitor.said() == Seq::<char>::empty(),
            visitor.listed() == Seq::<Seq<char>>::empty(),
    {
        let visitor = MessageVisitor { message: String::new(), fields: Vec::new() };
        assert(visitor.listed() =~= Seq::<Seq<char>>::empty());
        visitor
    }

    /// Take in one field as it is shown: the message, or another one.
    pub fn record(&mut self, name: &str, shown: &str)
        ensures
            final(self).said() == (if name@ == "message"@ {
                shown@
            } else {
                old(self).said()
            }),
            final(self).listed() == (if name@ == "message"@ {
                old(self).listed()
            } else {
                old(self).listed().push(name@ + "="@ + shown@)
            }),
    {
        if same(name, "message") {
            self.message = String::from_str(shown);
        } else {
            let ghost had = self.listed();
            let mut field = String::from_str(name);
            field.append("=");
            field.append(shown);
            self.fields.push(field);
            assert(self.listed() =~= had.push(name@ + "="@ + shown@));
        }
    }

    /// The message with the fields behind it.
    pub fn finish(self) -> (text: String)
        ensures
            text@ == finished(self.said(), self.listed()),
    {
        assert(self.listed().len() == self.fields@.len());
        if self.fields.len() == 0 {
            return self.message;
        }
        let fields = join(&self.fields, " ");
        let empty = same(self.message.as_str(), "");
        assert(""@ =~= Seq::<char>::empty()) by {
            reveal_strlit("");
        }
        if empty {
            return fields;
        }
        let mut text = self.message.clone();
        text.append(" ");
        text.append(fields.as_str());
        assert(self.said().len() > 0) by {
            if self.said().len() == 0 {
                assert(self.said() =~= Seq::<char>::empty());
            }
        }
        text
    }
}

/// A message with its fields behind it.
pub open spec fn finished(message: Seq<char>, fields: Seq<Seq<char>>) -> Seq<char> {
    if fields.len() == 0 {
        message
    } else if message.len() == 0 {
        joined(fields, " "@)
    } else {
        message + " "@ + joined(fields, " "@)
    }
}

/// Whether a record of this level is captured: a warning or an error.
pub open spec fn is_captured(level: Level) -> bool {
    level == Level::Warn || level == Level::Error
}

/// Whether every record is a warning or an error, as a log that [`on_event`] keeps has it.
pub open spec fn are_captured(records: Seq<RecordModel>) -> bool {
    forall|k: int| 0 <= k < records.len() ==> is_captured((#[trigger] records[k]).level)
}

/// Whether a thread of this name is taken for a task-pool worker.
pub open spec fn is_pooled(name: Option<&str>) -> bool {
    match name {
        None => true,
        Some(text) => contains(text@, "Task Pool"@) || contains(text@, "task pool"@),
    }
}

/// Something that was logged.
pub struct LogEvent<'a> {
    pub level: Level,
    pub target: &'a str,
    pub message: String,
    pub thread: u64,
    pub thread_name: Option<&'a str>,
}

/// The record of an event.
pub open spec fn recorded(event: LogEvent<'_>) -> RecordModel {
    RecordModel {
        thread: event.thread,
        pooled: is_pooled(event.thread_name),
        level: event.level,
        target: event.target@,
        message: event.message@,
    }
}

/// Record an event, if it is a warning or an error. A log of nothing but warnings and errors stays
/// one.
pub fn on_event(records: &mut Vec<LogRecord>, event: LogEvent<'_>)
    ensures
        record_views(final(records)@) == (if is_captured(event.level) {
            record_views(old(records)@).push(recorded(event))
        } else {
            record_views(old(records)@)
        }),
        are_captured(record_views(old(records)@)) ==> are_captured(record_views(final(records)@)),
{
    let captured = match event.level {
        Level::Error => true,
        Level::Warn => true,
        _ => false,
    };
    if !captured {
        return;
    }
    let pooled = match event.thread_name {
        None => true,
        Some(name) => has_text(name, "Task Pool") || has_text(name, "task pool"),
    };
    let ghost had = record_views(records@);
    records.push(
        LogRecord {
            thread: event.thread,
            pooled,
            level: event.level,
            target: String::from_str(event.target),
            message: event.message,
        },
    );
    assert(record_views(records@) =~= had.push(recorded(event)));
}

// ---- reading ---------------------------------------------------------------------------------

/// A point in the log. Everything a test cares about comes after one.
#[derive(Clone, Copy, Debug, PartialEq, Eq, Structural)]
pub struct LogMark {
    index: usize,
}

impl LogMark {
    /// How many records come before the mark.
    pub closed spec fn place(self) -> nat {
        self.index as nat
    }
}

/// Take a mark at the current end of the log.
pub fn mark(records: &Vec<LogRecord>) -> (taken: LogMark)
    ensures
        taken.place() == records@.len(),
{
    LogMark { index: records.len() }
}

/// The records behind the first `place` that the thread `me` can be held responsible for.
pub open spec fn attributed(records: Seq<RecordModel>, place: nat, me: u64) -> Seq<RecordModel> {
    (if place <= records.len() {
        records.skip(place as int)
    } else {
        Seq::empty()
    }).filter(|record: RecordModel| record.thread == me || record.pooled)
}

/// The lines of the records of one level.
pub open spec fn lines_of_level(records: Seq<RecordModel>, level: Level) -> Seq<Seq<char>> {
    records.filter(|record: RecordModel| record.level == level).map_values(
        |record: RecordModel| record_line(record),
    )
}

/// Every record since `mark` that the thread `me` can be held responsible for: emitted on it, or on
/// a task-pool thread.
pub fn records_since(records: &Vec<LogRecord>, mark: &LogMark, me: u64) -> (found: Vec<LogRecord>)
    ensures
        record_views(found@) == attributed(record_views(records@), mark.place(), me),
{
    let mut found: Vec<LogRecord> = Vec::new();
    let ghost keep = |record: RecordModel| record.thread == me || record.pooled;
    let ghost all = record_views(records@);
    let ghost empty = Seq::<RecordModel>::empty();
    reveal(Seq::filter);
    assert(record_views(found@) =~= empty);
    assert(empty.filter(keep) =~= empty);
    if mark.index > records.len() {
        return found;
    }
    let start: usize = mark.index;
    let ghost rest = all.skip(start as int);
    let mut index: usize = start;
    assert(rest.take(0) =~= empty);
    while index < records.len()
        invariant
            start <= index <= records@.len(),
            keep == (|record: RecordModel| record.thread == me || record.pooled),
            all == record_views(records@),
            rest == all.skip(start as int),
            record_views(found@) == rest.take(index - start).filter(keep),
        decreases records@.len() - index,
    {
        let ghost upto = rest.take(index - start + 1);
        let ghost had = record_views(found@);
        assert(upto.drop_last() =~= rest.take(index - start));
        assert(upto.last() == records@[index as int]@);
        reveal(Seq::filter);
        if records[index].thread == me || records[index].pooled {
            found.push(records[index].copy());
            assert(record_views(found@) =~= had.push(records@[index as int]@));
        }
        index = index + 1;
    }
    assert(rest.take(index - start) =~= rest);
    found
}

/// The lines of the records of one level since `mark`.
fn level_since(records: &Vec<LogRecord>, mark: &LogMark, me: u64, level: Level) -> (list: Vec<
    String,
>)
    ensures
        views(list@) == lines_of_level(
            attributed(record_views(records@), mark.place(), me),
            level,
        ),
{
    let found = records_since(records, mark, me);
    let ghost all = record_views(found@);
    let ghost keep = |record: RecordModel| record.level == level;
    let ghost show = |record: RecordModel| record_line(record);
    let mut list: Vec<String> = Vec::new();
    let mut index: usize = 0;
    reveal(Seq::filter);
    assert(views(list@) =~= all.take(0).filter(keep).map_values(show));
    while index < found.len()
        invariant
            index <= found@.len(),
            all == record_views(found@),
            keep == (|record: RecordModel| record.level == level),
            show == (|record: RecordModel| record_line(record)),
            views(list@) == all.take(index as int).filter(keep).map_values(show),
        decreases found@.len() - index,
    {
        let ghost upto = all.take(index + 1);
        let ghost had = views(list@);
        assert(upto.drop_last() =~= all.take(index as int));
        assert(upto.last() == found@[index as int]@);
        reveal(Seq::filter);
        if found[index].level == level {
            list.push(found[index].line());
            assert(views(list@) =~= had.push(record_line(found@[index as int]@)));
            assert(views(list@) =~= upto.filter(keep).map_values(show));
        }
        index = index + 1;
    }
    assert(all.take(index as int) =~= all);
    list
}

/// The warnings since `mark`, as `target: message` lines.
pub fn warnings_since(records: &Vec<LogRecord>, mark: &LogMark, me: u64) -> (list: Vec<String>)
    ensures
        views(list@) == lines_of_level(
            attributed(record_views(records@), mark.place(), me),
            Level::Warn,
        ),
{
    level_since(records, mark, me, Level::Warn)
}

/// The errors since `mark`, as `target: message` lines.
pub fn errors_since(records: &Vec<LogRecord>, mark: &LogMark, me: u64) -> (list: Vec<String>)
    ensures
        views(list@) == lines_of_level(
            attributed(record_views(records@), mark.place(), me),
            Level::Error,
        ),
{
    level_since(records, mark, me, Level::Error)
}

// ---- asserting -------------------------------------------------------------------------------

/// Whether a line contains one of `allow`.
pub open spec fn is_allowed_line(line: Seq<char>, allow: Seq<Seq<char>>) -> bool {
    exists|k: int| 0 <= k < allow.len() && contains(line, #[trigger] allow[k])
}

/// The warnings and then the errors since the mark, but for the lines that are allowed.
pub open spec fn unexpected_lines(
    records: Seq<RecordModel>,
    place: nat,
    me: u64,
    allow: Seq<Seq<char>>,
) -> Seq<Seq<char>> {
    let found = attributed(records, place, me);
    (lines_of_level(found, Level::Warn) + lines_of_level(found, Level::Error)).filter(
        |line: Seq<char>| !is_allowed_line(line, allow),
    )
}

/// Lines that were not to be logged.
#[derive(Debug)]
pub struct UnexpectedWarnings {
    pub lines: Vec<String>,
}

/// Lines that were not to be logged, in words.
pub open spec fn unexpected_text(lines: Seq<Seq<char>>) -> Seq<char> {
    decimal(lines.len()) + " unexpected warning(s) since the mark:\n  "@ + joined(lines, "\n  "@)
}

impl UnexpectedWarnings {
    /// The lines in words.
    pub fn message(&self) -> (text: String)
        ensures
            text@ == unexpected_text(views(self.lines@)),
    {
        assert(views(self.lines@).len() == self.lines@.len());
        let mut text = decimal_of(self.lines.len() as u64);
        text.append(" unexpected warning(s) since the mark:\n  ");
        text.append(join(&self.lines, "\n  ").as_str());
        text
    }
}

fn allowed_line(line: &str, allow: &[&str]) -> (allowed: bool)
    ensures
        allowed == is_allowed_line(line@, str_views(allow@)),
{
    let mut index: usize = 0;
    while index < allow.len()
        invariant
            index <= allow@.len(),
            forall|k: int|
                0 <= k < index ==> !contains(line@, #[trigger] str_views(allow@)[k]),
        decreases allow@.len() - index,
    {
        assert(str_views(allow@)[index as int] == allow@[index as int]@);
        if has_text(line, allow[index]) {
            return true;
        }
        index = index + 1;
    }
    assert(str_views(allow@).len() == allow@.len());
    false
}

/// Nothing has been logged as a warning or an error since `mark`, apart from lines containing one
/// of `allow`. Fails listing what was.
pub fn assert_no_warnings_matching(
    records: &Vec<LogRecord>,
    mark: &LogMark,
    me: u64,
    allow: &[&str],
) -> (verdict: Result<(), UnexpectedWarnings>)
    ensures
        ({
            let unexpected = unexpected_lines(
                record_views(records@),
                mark.place(),
                me,
                str_views(allow@),
            );
            match verdict {
                Ok(()) => unexpected.len() == 0,
                Err(failure) => unexpected.len() > 0 && views(failure.lines@) == unexpected,
            }
        }),
{
    let mut all = warnings_since(records, mark, me);
    let ghost warned = views(all@);
    let mut errors = errors_since(records, mark, me);
    let ghost failed = views(errors@);
    all.append(&mut errors);
    let ghost both = warned + failed;
    assert(views(all@) =~= both);
    let ghost keep = |line: Seq<char>| !is_allowed_line(line, str_views(allow@));
    let mut lines: Vec<String> = Vec::new();
    let mut index: usize = 0;
    reveal(Seq::filter);
    assert(views(lines@) =~= both.take(0).filter(keep));
    while index < all.len()
        invariant
            index <= all@.len(),
            views(all@) == both,
            keep == (|line: Seq<char>| !is_allowed_line(line, str_views(allow@))),
            views(lines@) == both.take(index as int).filter(keep),
        decreases all@.len() - index,
    {
        let ghost upto = both.take(index + 1);
        let ghost had = views(lines@);
        assert(upto.drop_last() =~= both.take(index as int));
        assert(upto.last() == all@[index as int]@);
        reveal(Seq::filter);
        if !allowed_line(all[index].as_str(), allow) {
            lines.push(all[index].clone());
            assert(views(lines@) =~= had.push(all@[index as int]@));
        }
        index = index + 1;
    }
    assert(both.take(index as int) =~= both);
    assert(views(lines@).len() == lines@.len());
    if lines.len() > 0 {
        return Err(UnexpectedWarnings { lines });
    }
    Ok(())
}

/// Nothing has been logged as a warning or an error since `mark`.
pub fn assert_no_warnings(records: &Vec<LogRecord>, mark: &LogMark, me: u64) -> (verdict: Result<
    (),
    UnexpectedWarnings,
>)
    ensures
        ({
            let unexpected = unexpected_lines(
                record_views(records@),
                mark.place(),
                me,
                Seq::empty(),
            );
            match verdict {
                Ok(()) => unexpected.len() == 0,
                Err(failure) => unexpected.len() > 0 && views(failure.lines@) == unexpected,
            }
        }),
{
    let none: [&str; 0] = [];
    assert(str_views(none@) =~= Seq::<Seq<char>>::empty());
    assert_no_warnings_matching(records, mark, me, &none)
}

/// What was logged before a mark is not seen, and what this thread logs as a warning or an error
/// after it is.
pub proof fn lemma_mark_divides_the_log(
    earlier: Seq<RecordModel>,
    later: Seq<RecordModel>,
    me: u64,
)
    ensures
        attributed(earlier + later, earlier.len(), me) == later.filter(
            |record: RecordModel| record.thread == me || record.pooled,
        ),
{
    assert((earlier + later).skip(earlier.len() as int) =~= later);
}

/// What a test reads of the log since its mark is what its own thread and the task pool logged,
/// all of it and nothing else: tests that run beside each other do not hear each other.
pub proof fn lemma_only_own_and_pooled_records_are_heard(
    records: Seq<RecordModel>,
    place: nat,
    me: u64,
    record: RecordModel,
)
    requires
        place <= records.len(),
    ensures
        attributed(records, place, me).contains(record) <==> (record.thread == me || record.pooled)
            && exists|k: int| place <= k < records.len() && #[trigger] records[k] == record,
{
    let heard = |one: RecordModel| one.thread == me || one.pooled;
    let since = records.skip(place as int);
    let found = since.filter(heard);
    if found.contains(record) {
        let j = choose|j: int| 0 <= j < found.len() && found[j] == record;
        since.lemma_filter_pred(heard, j);
        since.lemma_filter_contains_rev(heard, record);
        let i = choose|i: int| 0 <= i < since.len() && since[i] == record;
        assert(records[place + i] == record);
    }
    if heard(record) && exists|k: int|
        place <= k < records.len() && #[trigger] records[k] == record {
        let k = choose|k: int| place <= k < records.len() && #[trigger] records[k] == record;
        assert(since[k - place] == record);
        since.lemma_filter_contains(heard, k - place);
    }
}

proof fn lemma_levels_split(records: Seq<RecordModel>)
    requires
        are_captured(records),
    ensures
        lines_of_level(records, Level::Warn).len() + lines_of_level(records, Level::Error).len()
            == records.len(),
    decreases records.len(),
{
    reveal(Seq::filter);
    if records.len() > 0 {
        let front = records.drop_last();
        assert(are_captured(front)) by {
            assert forall|k: int| 0 <= k < front.len() implies is_captured(
                (#[trigger] front[k]).level,
            ) by {
                assert(front[k] == records[k]);
            }
        }
        lemma_levels_split(front);
        assert(is_captured(records[records.len() - 1].level));
    }
}

/// The warnings and the errors since a mark split the records since it without overlap or loss:
/// each record is one or the other, and there are as many lines in the two lists together as there
/// are records.
pub proof fn lemma_warnings_and_errors_are_all(records: Seq<RecordModel>, place: nat, me: u64)
    requires
        are_captured(records),
    ensures
        ({
            let found = attributed(records, place, me);
            &&& are_captured(found)
            &&& lines_of_level(found, Level::Warn).len() + lines_of_level(found, Level::Error).len()
                == found.len()
        }),
{
    let heard = |one: RecordModel| one.thread == me || one.pooled;
    let since = if place <= records.len() {
        records.skip(place as int)
    } else {
        Seq::empty()
    };
    let found = attributed(records, place, me);
    assert(found == since.filter(heard));
    assert forall|k: int| 0 <= k < found.len() implies is_captured((#[trigger] found[k]).level) by {
        assert(found.contains(found[k]));
        since.lemma_filter_contains_rev(heard, found[k]);
        let i = choose|i: int| 0 <= i < since.len() && since[i] == found[k];
        assert(since[i] == records[place + i]);
    }
    lemma_levels_split(found);
}

/// Nothing unexpected was logged exactly when every warning and every error since the mark, of the
/// asking thread or of a pooled one, contains one of the texts that are allowed.
pub proof fn lemma_unexpected_is_what_is_not_allowed(
    records: Seq<RecordModel>,
    place: nat,
    me: u64,
    allow: Seq<Seq<char>>,
)
    requires
        place <= records.len(),
    ensures
        unexpected_lines(records, place, me, allow).len() == 0 <==> forall|k: int|
            place <= k < records.len() && ((#[trigger] records[k]).thread == me
                || records[k].pooled) && (records[k].level == Level::Warn || records[k].level
                == Level::Error) ==> exists|i: int|
                0 <= i < allow.len() && contains(record_line(records[k]), #[trigger] allow[i]),
{
    let found = attributed(records, place, me);
    let lines = lines_of_level(found, Level::Warn) + lines_of_level(found, Level::Error);
    let odd = |line: Seq<char>| !is_allowed_line(line, allow);
    let unexpected = unexpected_lines(records, place, me, allow);
    if unexpected.len() == 0 {
        assert forall|k: int|
            place <= k < records.len() && ((#[trigger] records[k]).thread == me
                || records[k].pooled) && (records[k].level == Level::Warn || records[k].level
                == Level::Error) implies exists|i: int|
            0 <= i < allow.len() && contains(record_line(records[k]), #[trigger] allow[i]) by {
            lemma_only_own_and_pooled_records_are_heard(records, place, me, records[k]);
            assert(found.contains(records[k]));
            lemma_line_of_level(found, records[k]);
            let line = record_line(records[k]);
            let at = if records[k].level == Level::Warn {
                let list = lines_of_level(found, Level::Warn);
                choose|i: int| 0 <= i < list.len() && list[i] == line
            } else {
                let list = lines_of_level(found, Level::Error);
                let i = choose|i: int| 0 <= i < list.len() && list[i] == line;
                lines_of_level(found, Level::Warn).len() + i
            };
            assert(lines[at] == line);
            if !is_allowed_line(line, allow) {
                lines.lemma_filter_contains(odd, at);
                assert(unexpected.contains(line));
            }
        }
    } else {
        lines.lemma_filter_pred(odd, 0);
        lines.lemma_filter_contains_rev(odd, unexpected[0]);
        let at = choose|i: int| 0 <= i < lines.len() && lines[i] == unexpected[0];
        let warned = lines_of_level(found, Level::Warn);
        let (level, from) = if at < warned.len() {
            (Level::Warn, at)
        } else {
            (Level::Error, at - warned.len())
        };
        let grave = |record: RecordModel| record.level == level;
        let kept = found.filter(grave);
        assert(lines_of_level(found, level)[from] == unexpected[0]);
        found.lemma_filter_pred(grave, from);
        found.lemma_filter_contains_rev(grave, kept[from]);
        lemma_only_own_and_pooled_records_are_heard(records, place, me, kept[from]);
        let k = choose|k: int| place <= k < records.len() && #[trigger] records[k] == kept[from];
        assert(record_line(records[k]) == unexpected[0]);
        assert(!is_allowed_line(record_line(records[k]), allow));
    }
}

proof fn lemma_line_of_level(found: Seq<RecordModel>, record: RecordModel)
    requires
        found.contains(record),
    ensures
        lines_of_level(found, record.level).contains(record_line(record)),
{
    let grave = |one: RecordModel| one.level == record.level;
    let k = choose|k: int| 0 <= k < found.len() && found[k] == record;
    found.lemma_filter_contains(grave, k);
    let kept = found.filter(grave);
    let i = choose|i: int| 0 <= i < kept.len() && kept[i] == record;
    assert(lines_of_level(found, record.level)[i] == record_line(record));
}

/// Records are heard one by one: a log that goes on is heard as before and behind it what is new,
/// and its lines likewise, each once.
pub proof fn lemma_log_goes_on(
    records: Seq<RecordModel>,
    more: Seq<RecordModel>,
    record: RecordModel,
    place: nat,
    me: u64,
    level: Level,
)
    requires
        place <= records.len(),
    ensures
        attributed(records + more, place, me) == attributed(records, place, me) + attributed(
            more,
            0,
            me,
        ),
        lines_of_level(records + more, level) == lines_of_level(records, level) + lines_of_level(
            more,
            level,
        ),
        attributed(seq![record], 0, me) == (if record.thread == me || record.pooled {
            seq![record]
        } else {
            Seq::empty()
        }),
        lines_of_level(seq![record], level) == (if record.level == level {
            seq![record.target + ": "@ + record.message]
        } else {
            Seq::empty()
        }),
{
    let heard = |one: RecordModel| one.thread == me || one.pooled;
    let grave = |one: RecordModel| one.level == level;
    let rest = records.skip(place as int);
    assert((records + more).skip(place as int) =~= rest + more);
    assert(more.skip(0) =~= more);
    Seq::filter_distributes_over_add(rest, more, heard);
    Seq::filter_distributes_over_add(records, more, grave);
    assert(lines_of_level(records + more, level) =~= lines_of_level(records, level)
        + lines_of_level(more, level));
    let alone = seq![record];
    assert(alone.skip(0) =~= alone);
    assert(alone.drop_last() =~= Seq::empty());
    reveal(Seq::filter);
    assert(alone.drop_last().filter(heard) =~= Seq::empty());
    assert(alone.drop_last().filter(grave) =~= Seq::empty());
    assert(attributed(alone, 0, me) =~= (if record.thread == me || record.pooled {
        alone
    } else {
        Seq::empty()
    }));
    assert(lines_of_level(alone, level) =~= (if record.level == level {
        seq![record.target + ": "@ + record.message]
    } else {
        Seq::empty()
    }));
}

/// What an event says is its message, and behind it every field in the order they came in, one space
/// before each but where nothing stands in front.
pub proof fn lemma_fields_follow_the_message(
    message: Seq<char>,
    fields: Seq<Seq<char>>,
    field: Seq<char>,
)
    ensures
        finished(message, Seq::empty()) == message,
        finished(message, fields.push(field)) == (if message.len() == 0 && fields.len() == 0 {
            field
        } else {
            finished(message, fields) + " "@ + field
        }),
{
    let longer = fields.push(field);
    assert(longer.drop_last() =~= fields);
    assert(longer.last() == field);
    if fields.len() == 0 {
        assert(longer =~= seq![field]);
        assert(joined(longer, " "@) == field);
    }
    assert(finished(message, longer) =~= (if message.len() == 0 && fields.len() == 0 {
        field
    } else {
        finished(message, fields) + " "@ + field
    }));
}

/// A thread counts as pooled exactly when it has no name or its name says that it is of a task pool.
pub proof fn lemma_pooled_threads_say_so(name: &str, front: Seq<char>, back: Seq<char>)
    ensures
        is_pooled(None),
        name@ == front + "Task Pool"@ + back ==> is_pooled(Some(name)),
        name@ == front + "task pool"@ + back ==> is_pooled(Some(name)),
        is_pooled(Some(name)) ==> contains(name@, "Task Pool"@) || contains(name@, "task pool"@),
{
    lemma_contains_what_stands_in_it(name@, "Task Pool"@, front, back);
    lemma_contains_what_stands_in_it(name@, "task pool"@, front, back);
}

/// What is unexpected is told whole: how many lines there are, and every one of them.
pub proof fn lemma_unexpected_lines_are_all_told(lines: Seq<Seq<char>>, at: int)
    requires
        0 <= at < lines.len(),
    ensures
        contains(unexpected_text(lines), decimal(lines.len())),
        contains(unexpected_text(lines), lines[at]),
{
    let start = decimal(lines.len()) + " unexpected warning(s) since the mark:\n  "@;
    let list = joined(lines, "\n  "@);
    lemma_joined_contains_its_parts(lines, "\n  "@, at);
    lemma_contains_what_stands_in_it(list, lines[at], start, Seq::empty());
    assert(start + list + Seq::empty() =~= unexpected_text(lines));
    lemma_contains_what_stands_in_it(
        decimal(lines.len()),
        decimal(lines.len()),
        Seq::empty(),
        " unexpected warning(s) since the mark:\n  "@ + list,
    );
    assert(Seq::empty() + decimal(lines.len()) + (" unexpected warning(s) since the mark:\n  "@
        + list) =~= unexpected_text(lines));
}

/// Every warning and every error is captured, and nothing below them.
pub proof fn lemma_warnings_and_errors_are_captured(level: Level, list: Seq<LogRecord>)
    ensures
        level == Level::Warn || level == Level::Error <==> is_captured(level),
        record_views(list).len() == list.len(),
        forall|k: int| 0 <= k < list.len() ==> #[trigger] record_views(list)[k] == list[k]@,
{
}

/// A record is seen with all that it holds.
pub proof fn lemma_record_is_seen_whole(record: LogRecord)
    ensures
        record@.thread == record.thread,
        record@.pooled == record.pooled,
        record@.level == record.level,
        record@.target == record.target@,
        record@.message == record.message@,
{
}

} // verus!
