//! Source text reduced to its code: comments and string literals removed, lines kept.

use vstd::prelude::*;

use crate::text::chars_of;

verus! {

/// What the characters from some point on are part of.
pub enum Mode {
    Code,
    LineComment,
    /// A block comment, and how many of them are open.
    BlockComment(nat),
    /// A string literal.
    Quoted,
    /// A raw string literal, in which a backslash is a character like any other.
    RawQuoted,
}

/// One step through source text: how many characters it takes, the positions it keeps, and what
/// the text after it is part of.
pub struct Step {
    pub taken: nat,
    pub kept: Seq<int>,
    pub next: Mode,
}

/// Whether `wanted` is the character at `at`.
pub open spec fn is_at(source: Seq<char>, at: int, wanted: char) -> bool {
    0 <= at < source.len() && source[at] == wanted
}

/// The position `at`, if a line ends there.
pub open spec fn line_end_at(source: Seq<char>, at: int) -> Seq<int> {
    if is_at(source, at, '\n') {
        seq![at]
    } else {
        Seq::empty()
    }
}

/// Whether `c` can stand in an escape such as `\x7f` or `\u{1f600}`, behind its first character.
pub open spec fn is_escape_char(c: char) -> bool {
    '0' <= c <= '9' || 'a' <= c <= 'z' || 'A' <= c <= 'Z' || c == '{' || c == '}' || c == '_'
}

/// Where the characters of an escape end that starts before `at`.
pub open spec fn escape_end(source: Seq<char>, at: int) -> int
    decreases source.len() - at,
{
    if 0 <= at < source.len() && is_escape_char(source[at]) {
        escape_end(source, at + 1)
    } else {
        at
    }
}

/// How long the char literal at `at` is, or 0 where there is none: one character between single
/// quotes, or a backslash and an escape between them, on one line.
pub open spec fn literal_length(source: Seq<char>, at: int) -> int {
    if !is_at(source, at, '\'') || at + 1 >= source.len() {
        0
    } else if source[at + 1] == '\\' {
        let end = escape_end(source, at + 3);
        if !is_at(source, at + 2, '\n') && is_at(source, end, '\'') {
            end + 1 - at
        } else {
            0
        }
    } else if source[at + 1] != '\'' && source[at + 1] != '\n' && is_at(source, at + 2, '\'') {
        3
    } else {
        0
    }
}

/// Whether `c` can stand in a word: an identifier, a keyword or a number.
pub open spec fn is_word_char(c: char) -> bool {
    '0' <= c <= '9' || 'a' <= c <= 'z' || 'A' <= c <= 'Z' || c == '_' || '\u{7f}' < c
}

/// Where the word ends that `at` stands in or behind.
pub open spec fn word_end(source: Seq<char>, at: int) -> int
    decreases source.len() - at,
{
    if 0 <= at < source.len() && is_word_char(source[at]) {
        word_end(source, at + 1)
    } else {
        at
    }
}

/// Whether `word` makes the string literal behind it raw.
pub open spec fn is_raw_prefix(word: Seq<char>) -> bool {
    word == seq!['r'] || word == seq!['b', 'r'] || word == seq!['c', 'r']
}

/// `count` positions from `at` on.
pub open spec fn run_of(at: int, count: int) -> Seq<int> {
    Seq::new(count as nat, |k: int| at + k)
}

/// The step at `at`, where the text is part of `mode`.
///
/// Code is kept, up to a comment or a string literal; a char literal is code and opens neither.
/// Words are taken whole, so that only a word of its own makes a string raw. Block comments nest.
/// A backslash in a string takes the character after it along, unless the string is raw. Inside
/// comments and strings the line ends are kept and nothing else.
pub open spec fn step_at(mode: Mode, source: Seq<char>, at: int) -> Step {
    match mode {
        Mode::Code => if is_at(source, at, '/') && is_at(source, at + 1, '/') {
            Step { taken: 2, kept: Seq::empty(), next: Mode::LineComment }
        } else if is_at(source, at, '/') && is_at(source, at + 1, '*') {
            Step { taken: 2, kept: Seq::empty(), next: Mode::BlockComment(1) }
        } else if literal_length(source, at) > 0 {
            Step {
                taken: literal_length(source, at) as nat,
                kept: run_of(at, literal_length(source, at)),
                next: Mode::Code,
            }
        } else if 0 <= at < source.len() && is_word_char(source[at]) {
            let end = word_end(source, at);
            if is_raw_prefix(source.subrange(at, end)) && is_at(source, end, '"') {
                Step {
                    taken: (end + 1 - at) as nat,
                    kept: run_of(at, end - at),
                    next: Mode::RawQuoted,
                }
            } else {
                Step { taken: (end - at) as nat, kept: run_of(at, end - at), next: Mode::Code }
            }
        } else if is_at(source, at, '"') {
            Step { taken: 1, kept: Seq::empty(), next: Mode::Quoted }
        } else {
            Step { taken: 1, kept: seq![at], next: Mode::Code }
        },
        Mode::LineComment => Step {
            taken: 1,
            kept: line_end_at(source, at),
            next: if is_at(source, at, '\n') {
                Mode::Code
            } else {
                Mode::LineComment
            },
        },
        Mode::BlockComment(open) => if is_at(source, at, '/') && is_at(source, at + 1, '*') {
            Step { taken: 2, kept: Seq::empty(), next: Mode::BlockComment(open + 1) }
        } else if is_at(source, at, '*') && is_at(source, at + 1, '/') {
            Step {
                taken: 2,
                kept: Seq::empty(),
                next: if open <= 1 {
                    Mode::Code
                } else {
                    Mode::BlockComment((open - 1) as nat)
                },
            }
        } else {
            Step { taken: 1, kept: line_end_at(source, at), next: Mode::BlockComment(open) }
        },
        Mode::Quoted => if is_at(source, at, '\\') && at + 1 < source.len() {
            Step { taken: 2, kept: line_end_at(source, at + 1), next: Mode::Quoted }
        } else if is_at(source, at, '"') {
            Step { taken: 1, kept: Seq::empty(), next: Mode::Code }
        } else {
            Step { taken: 1, kept: line_end_at(source, at), next: Mode::Quoted }
        },
        Mode::RawQuoted => if is_at(source, at, '"') {
            Step { taken: 1, kept: Seq::empty(), next: Mode::Code }
        } else {
            Step { taken: 1, kept: line_end_at(source, at), next: Mode::RawQuoted }
        },
    }
}

/// The positions kept from `at` on, where the text is part of `mode`.
pub open spec fn kept_from(mode: Mode, source: Seq<char>, at: int) -> Seq<int>
    decreases source.len() - at,
{
    if at < 0 || at >= source.len() {
        Seq::empty()
    } else {
        proof {
            lemma_word_end(source, at);
        }
        let step = step_at(mode, source, at);
        step.kept + kept_from(step.next, source, at + step.taken)
    }
}

/// A word ends inside its text, and behind its start where there is one.
pub proof fn lemma_word_end(source: Seq<char>, at: int)
    requires
        0 <= at,
    ensures
        at <= word_end(source, at),
        at <= source.len() ==> word_end(source, at) <= source.len(),
        at < source.len() && is_word_char(source[at]) ==> at < word_end(source, at),
        forall|k: int| at <= k < word_end(source, at) ==> is_word_char(#[trigger] source[k]),
        word_end(source, at) < source.len() ==> !is_word_char(source[word_end(source, at)]),
    decreases source.len() - at,
{
    if at < source.len() && is_word_char(source[at]) {
        lemma_word_end(source, at + 1);
    }
}

/// The characters of `source` at `positions`.
pub open spec fn chars_at(source: Seq<char>, positions: Seq<int>) -> Seq<char> {
    positions.map_values(|at: int| source[at])
}

/// The code of `source`: its characters outside comments and string literals, and every line end.
pub open spec fn code_of(source: Seq<char>) -> Seq<char> {
    chars_at(source, kept_from(Mode::Code, source, 0))
}

/// What `code_only` is reading.
enum State {
    Code,
    LineComment,
    BlockComment(usize),
    Str,
    RawStr,
}

impl State {
    spec fn mode(self) -> Mode {
        match self {
            State::Code => Mode::Code,
            State::LineComment => Mode::LineComment,
            State::BlockComment(depth) => Mode::BlockComment(depth as nat),
            State::Str => Mode::Quoted,
            State::RawStr => Mode::RawQuoted,
        }
    }
}

/// Whether `wanted` is the character at `at`.
fn stands(characters: &Vec<char>, at: usize, wanted: char) -> (found: bool)
    ensures
        found == is_at(characters@, at as int, wanted),
{
    at < characters.len() && characters[at] == wanted
}

/// How long the char literal at `at` is, or 0 where there is none.
fn literal_at(characters: &Vec<char>, at: usize) -> (length: usize)
    requires
        at < characters@.len(),
    ensures
        length == literal_length(characters@, at as int),
        at + length <= characters@.len(),
{
    let total: usize = characters.len();
    let left: usize = total - at;
    if characters[at] != '\'' || left < 3 {
        proof {
            if left == 2 {
                assert(escape_end(characters@, at + 3) == at + 3);
            }
        }
        return 0;
    }
    if characters[at + 1] == '\\' {
        let mut end: usize = at + 3;
        while end < total && may_escape(characters[end])
            invariant
                at + 3 <= end <= total == characters@.len(),
                escape_end(characters@, at + 3) == escape_end(characters@, end as int),
            decreases total - end,
        {
            end = end + 1;
        }
        if characters[at + 2] != '\n' && stands(characters, end, '\'') {
            return end + 1 - at;
        }
        return 0;
    }
    if characters[at + 1] != '\'' && characters[at + 1] != '\n' && characters[at + 2] == '\'' {
        3
    } else {
        0
    }
}

fn may_escape(c: char) -> (may: bool)
    ensures
        may == is_escape_char(c),
{
    ('0' <= c && c <= '9') || ('a' <= c && c <= 'z') || ('A' <= c && c <= 'Z') || c == '{' || c
        == '}' || c == '_'
}

fn is_in_word(c: char) -> (within: bool)
    ensures
        within == is_word_char(c),
{
    ('0' <= c && c <= '9') || ('a' <= c && c <= 'z') || ('A' <= c && c <= 'Z') || c == '_'
        || '\u{7f}' < c
}

/// Where the word at `at` ends.
fn end_of_word(characters: &Vec<char>, at: usize) -> (end: usize)
    requires
        at <= characters@.len(),
    ensures
        end == word_end(characters@, at as int),
        at <= end <= characters@.len(),
{
    let mut end: usize = at;
    while end < characters.len() && is_in_word(characters[end])
        invariant
            at <= end <= characters@.len(),
            word_end(characters@, at as int) == word_end(characters@, end as int),
        decreases characters@.len() - end,
    {
        end = end + 1;
    }
    end
}

/// Whether the word from `from` to `to` makes the string literal behind it raw.
fn makes_string_raw(characters: &Vec<char>, from: usize, to: usize) -> (raw: bool)
    requires
        from < to <= characters@.len(),
    ensures
        raw == is_raw_prefix(characters@.subrange(from as int, to as int)),
{
    let ghost word = characters@.subrange(from as int, to as int);
    let length: usize = to - from;
    let first = characters[from];
    let last = characters[to - 1];
    assert(word.len() == length && word[0] == first && word[length - 1] == last);
    assert(length == 1 && last == 'r' ==> word =~= seq!['r']);
    assert(length == 2 && first == 'b' && last == 'r' ==> word =~= seq!['b', 'r']);
    assert(length == 2 && first == 'c' && last == 'r' ==> word =~= seq!['c', 'r']);
    assert(seq!['b', 'r'][0] == 'b' && seq!['b', 'r'][1] == 'r');
    assert(seq!['c', 'r'][0] == 'c' && seq!['c', 'r'][1] == 'r');
    last == 'r' && (length == 1 || (length == 2 && (first == 'b' || first == 'c')))
}

/// Appends the characters from `from` to `to`.
fn push_range(out: &mut String, characters: &Vec<char>, from: usize, to: usize)
    requires
        from <= to <= characters@.len(),
    ensures
        final(out)@ == old(out)@ + characters@.subrange(from as int, to as int),
{
    let mut index: usize = from;
    assert(out@ =~= old(out)@ + characters@.subrange(from as int, from as int));
    while index < to
        invariant
            from <= index <= to <= characters@.len(),
            out@ == old(out)@ + characters@.subrange(from as int, index as int),
        decreases to - index,
    {
        out.push(characters[index]);
        index = index + 1;
        assert(out@ =~= old(out)@ + characters@.subrange(from as int, index as int));
    }
}

/// `source` with `//` comments, `/* */` comments and string literals removed, and every line
/// still on its own line, so a line number in the result is a line number in the file.
///
/// Deliberately simple. It nests block comments, honours `\"` inside a string and knows that
/// `'"'` and `'\"'` are chars and not the start of one, but it does not understand raw strings with
/// hashes (`r#"..."#` containing a `"`). A guardrail that is wrong in the paranoid direction is
/// fine: but for raw strings with hashes, this errs by keeping too much, never by dropping code.
pub fn code_only(source: &str) -> (code: String)
    ensures
        code@ == code_of(source@),
{
    let mut out: String = String::new();
    let mut state = State::Code;
    let characters = chars_of(source);
    let total: usize = characters.len();
    let mut index: usize = 0;
    assert(out@ =~= chars_at(source@, Seq::empty()));
    let ghost mut done: Seq<int> = Seq::empty();
    while index < total
        invariant
            characters@ == source@,
            total == characters@.len(),
            index <= total,
            state matches State::BlockComment(depth) ==> depth <= index,
            out@ == chars_at(source@, done),
            done + kept_from(state.mode(), source@, index as int) == kept_from(
                Mode::Code,
                source@,
                0,
            ),
        decreases total - index,
    {
        let character = characters[index];
        let ghost step = step_at(state.mode(), source@, index as int);
        let ghost rest = kept_from(step.next, source@, index + step.taken);
        let left: usize = total - index;
        let slash_next = left > 1 && stands(&characters, index + 1, '/');
        let star_next = left > 1 && stands(&characters, index + 1, '*');
        match state {
            State::Code => {
                if character == '/' && slash_next {
                    state = State::LineComment;
                    index = index + 2;
                } else if character == '/' && star_next {
                    state = State::BlockComment(1);
                    index = index + 2;
                } else {
                    let literal: usize = literal_at(&characters, index);
                    if literal > 0 {
                        push_range(&mut out, &characters, index, index + literal);
                        index = index + literal;
                    } else if is_in_word(character) {
                        let end: usize = end_of_word(&characters, index);
                        proof {
                            lemma_word_end(source@, index as int);
                        }
                        push_range(&mut out, &characters, index, end);
                        if makes_string_raw(&characters, index, end) && stands(
                            &characters,
                            end,
                            '"',
                        ) {
                            state = State::RawStr;
                            index = end + 1;
                        } else {
                            index = end;
                        }
                    } else if character == '"' {
                        state = State::Str;
                        index = index + 1;
                    } else {
                        out.push(character);
                        index = index + 1;
                    }
                }
            },
            State::LineComment => {
                if character == '\n' {
                    out.push('\n');
                    state = State::Code;
                }
                index = index + 1;
            },
            State::BlockComment(depth) => {
                if character == '/' && star_next {
                    state = State::BlockComment(depth + 1);
                    index = index + 2;
                } else if character == '*' && slash_next {
                    state =
                    if depth <= 1 {
                        State::Code
                    } else {
                        State::BlockComment(depth - 1)
                    };
                    index = index + 2;
                } else {
                    if character == '\n' {
                        out.push('\n');
                    }
                    index = index + 1;
                }
            },
            State::Str => {
                if character == '\\' && left > 1 {
                    if stands(&characters, index + 1, '\n') {
                        out.push('\n');
                    }
                    index = index + 2;
                } else if character == '"' {
                    state = State::Code;
                    index = index + 1;
                } else {
                    if character == '\n' {
                        out.push('\n');
                    }
                    index = index + 1;
                }
            },
            State::RawStr => {
                if character == '"' {
                    state = State::Code;
                } else if character == '\n' {
                    out.push('\n');
                }
                index = index + 1;
            },
        }
        proof {
            assert(done + (step.kept + rest) =~= (done + step.kept) + rest);
            done = done + step.kept;
            assert(out@ =~= chars_at(source@, done));
        }
    }
    assert(done + Seq::<int>::empty() =~= done);
    out
}

// ---- laws ------------------------------------------------------------------------------------

/// How many lines end in `text`.
pub open spec fn line_ends(text: Seq<char>) -> nat
    decreases text.len(),
{
    if text.len() == 0 {
        0
    } else {
        line_ends(text.drop_last()) + (if text.last() == '\n' {
            1nat
        } else {
            0nat
        })
    }
}

/// Whether the positions increase from each to the next.
pub open spec fn increasing(positions: Seq<int>) -> bool {
    forall|i: int, j: int| 0 <= i < j < positions.len() ==> positions[i] < positions[j]
}

proof fn lemma_escape_end(source: Seq<char>, at: int)
    requires
        0 <= at,
    ensures
        at <= escape_end(source, at),
        escape_end(source, at) <= source.len() || escape_end(source, at) == at,
    decreases source.len() - at,
{
    if at < source.len() && is_escape_char(source[at]) {
        lemma_escape_end(source, at + 1);
    }
}

/// A char literal is at least three characters long and lies inside its text.
proof fn lemma_literal_length(source: Seq<char>, at: int)
    requires
        0 <= at,
    ensures
        literal_length(source, at) == 0 || (3 <= literal_length(source, at) && at + literal_length(
            source,
            at,
        ) <= source.len()),
{
    lemma_escape_end(source, at + 3);
}

proof fn lemma_kept_from(mode: Mode, source: Seq<char>, at: int)
    requires
        0 <= at,
    ensures
        increasing(kept_from(mode, source, at)),
        forall|k: int|
            0 <= k < kept_from(mode, source, at).len() ==> at <= #[trigger] kept_from(
                mode,
                source,
                at,
            )[k] < source.len(),
        forall|q: int|
            at <= q < source.len() && source[q] == '\n' ==> #[trigger] kept_from(
                mode,
                source,
                at,
            ).contains(q),
    decreases source.len() - at,
{
    if at < source.len() {
        lemma_literal_length(source, at);
        lemma_word_end(source, at);
        let step = step_at(mode, source, at);
        let here = step.kept;
        let rest = kept_from(step.next, source, at + step.taken);
        lemma_kept_from(step.next, source, at + step.taken);
        let all = kept_from(mode, source, at);
        assert(all == here + rest);
        assert forall|i: int, j: int| 0 <= i < j < all.len() implies all[i] < all[j] by {
            if i < here.len() && j >= here.len() {
                assert(all[j] == rest[j - here.len()]);
            } else if i >= here.len() {
                assert(all[i] == rest[i - here.len()]);
                assert(all[j] == rest[j - here.len()]);
            }
        }
        assert forall|k: int| 0 <= k < all.len() implies at <= #[trigger] all[k] < source.len() by {
            if k >= here.len() {
                assert(all[k] == rest[k - here.len()]);
            }
        }
        assert forall|q: int| at <= q < source.len() && source[q] == '\n' implies #[trigger] all.contains(
            q,
        ) by {
            if q >= at + step.taken {
                assert(rest.contains(q));
                let k = choose|k: int| 0 <= k < rest.len() && rest[k] == q;
                assert(all[k + here.len()] == q);
            } else {
                assert(here.contains(q)) by {
                    assert(here[0] == q || here[q - at] == q);
                }
                let k = choose|k: int| 0 <= k < here.len() && here[k] == q;
                assert(all[k] == q);
            }
        }
    }
}

/// No line ends between `from` and `to`, so as many end before either.
proof fn lemma_no_line_end_between(text: Seq<char>, from: int, to: int)
    requires
        0 <= from <= to <= text.len(),
        forall|q: int| from <= q < to ==> text[q] != '\n',
    ensures
        line_ends(text.take(from)) == line_ends(text.take(to)),
    decreases to - from,
{
    if from < to {
        lemma_no_line_end_between(text, from, to - 1);
        assert(text.take(to).drop_last() =~= text.take(to - 1));
        assert(text.take(to).last() == text[to - 1]);
    }
}

proof fn lemma_line_of(source: Seq<char>, kept: Seq<int>, j: int)
    requires
        increasing(kept),
        forall|k: int| 0 <= k < kept.len() ==> 0 <= #[trigger] kept[k] < source.len(),
        forall|q: int|
            0 <= q < source.len() && source[q] == '\n' ==> #[trigger] kept.contains(q),
        0 <= j <= kept.len(),
    ensures
        line_ends(chars_at(source, kept).take(j)) == line_ends(
            source.take(
                if j < kept.len() {
                    kept[j]
                } else {
                    source.len() as int
                },
            ),
        ),
    decreases j,
{
    let code = chars_at(source, kept);
    let upto = if j < kept.len() {
        kept[j]
    } else {
        source.len() as int
    };
    if j == 0 {
        assert(code.take(0).len() == 0);
        assert(source.take(0).len() == 0);
        assert forall|q: int| 0 <= q < upto implies source[q] != '\n' by {
            if source[q] == '\n' {
                assert(kept.contains(q));
            }
        }
        lemma_no_line_end_between(source, 0, upto);
    } else {
        let last = kept[j - 1];
        lemma_line_of(source, kept, j - 1);
        assert(code.take(j).drop_last() =~= code.take(j - 1));
        assert(code.take(j).last() == source[last]);
        assert(source.take(last + 1).drop_last() =~= source.take(last));
        assert(source.take(last + 1).last() == source[last]);
        assert forall|q: int| last + 1 <= q < upto implies source[q] != '\n' by {
            if source[q] == '\n' {
                assert(kept.contains(q));
                let k = choose|k: int| 0 <= k < kept.len() && kept[k] == q;
                if k < j - 1 {
                    assert(kept[k] < kept[j - 1]);
                }
                if k > j {
                    assert(kept[j] < kept[k]);
                }
            }
        }
        lemma_no_line_end_between(source, last + 1, upto);
    }
}

/// Every character of the code stands in the source, in the same order and on a line of the same
/// number: as many lines end before it in the code as in the source. Every line end is kept, so
/// the code has as many as the source.
pub proof fn lemma_code_keeps_lines(source: Seq<char>)
    ensures
        ({
            let kept = kept_from(Mode::Code, source, 0);
            let code = code_of(source);
            &&& code.len() == kept.len()
            &&& increasing(kept)
            &&& forall|j: int|
                0 <= j < code.len() ==> {
                    &&& 0 <= #[trigger] kept[j] < source.len()
                    &&& code[j] == source[kept[j]]
                    &&& line_ends(code.take(j)) == line_ends(source.take(kept[j]))
                }
            &&& line_ends(code) == line_ends(source)
        }),
{
    let kept = kept_from(Mode::Code, source, 0);
    let code = code_of(source);
    lemma_kept_from(Mode::Code, source, 0);
    assert forall|j: int| 0 <= j < code.len() implies {
        &&& 0 <= #[trigger] kept[j] < source.len()
        &&& code[j] == source[kept[j]]
        &&& line_ends(code.take(j)) == line_ends(source.take(kept[j]))
    } by {
        lemma_line_of(source, kept, j);
    }
    lemma_line_of(source, kept, kept.len() as int);
    assert(code.take(kept.len() as int) =~= code);
    assert(source.take(source.len() as int) =~= source);
}

/// What is left of `source` when it starts as part of `mode`.
pub open spec fn left_of(mode: Mode, source: Seq<char>) -> Seq<char> {
    chars_at(source, kept_from(mode, source, 0))
}

proof fn lemma_escape_shift(head: Seq<char>, tail: Seq<char>, at: int)
    requires
        0 <= at,
    ensures
        escape_end(head + tail, head.len() + at) == head.len() + escape_end(tail, at),
    decreases tail.len() - at,
{
    if at < tail.len() && is_escape_char(tail[at]) {
        assert((head + tail)[head.len() + at] == tail[at]);
        lemma_escape_shift(head, tail, at + 1);
    }
}

proof fn lemma_word_shift(head: Seq<char>, tail: Seq<char>, at: int)
    requires
        0 <= at,
    ensures
        word_end(head + tail, head.len() + at) == head.len() + word_end(tail, at),
    decreases tail.len() - at,
{
    if at < tail.len() && is_word_char(tail[at]) {
        assert((head + tail)[head.len() + at] == tail[at]);
        lemma_word_shift(head, tail, at + 1);
    }
}

proof fn lemma_literal_shift(head: Seq<char>, tail: Seq<char>, at: int)
    requires
        0 <= at,
    ensures
        literal_length(head + tail, head.len() + at) == literal_length(tail, at),
{
    let whole = head + tail;
    lemma_escape_shift(head, tail, at + 3);
    lemma_escape_end(tail, at + 3);
    assert forall|k: int, c: char| 0 <= k implies is_at(whole, head.len() + k, c) == is_at(
        tail,
        k,
        c,
    ) by {}
    let end = escape_end(tail, at + 3);
    assert(is_at(whole, head.len() + end, '\'') == is_at(tail, end, '\''));
    assert(is_at(whole, head.len() + at, '\'') == is_at(tail, at, '\''));
    assert(is_at(whole, head.len() + (at + 2), '\'') == is_at(tail, at + 2, '\''));
    assert(is_at(whole, head.len() + (at + 2), '\n') == is_at(tail, at + 2, '\n'));
    if at + 1 < tail.len() {
        assert(whole[head.len() + at + 1] == tail[at + 1]);
    }
}

proof fn lemma_kept_shift(mode: Mode, head: Seq<char>, tail: Seq<char>, at: int)
    requires
        0 <= at,
    ensures
        kept_from(mode, head + tail, head.len() + at) == kept_from(mode, tail, at).map_values(
            |p: int| p + head.len(),
        ),
    decreases tail.len() - at,
{
    let whole = head + tail;
    let moved = |p: int| p + head.len();
    if at < tail.len() {
        let step = step_at(mode, tail, at);
        let far = step_at(mode, whole, head.len() + at);
        lemma_literal_shift(head, tail, at);
        lemma_literal_length(tail, at);
        lemma_word_shift(head, tail, at);
        lemma_word_end(tail, at);
        let end = word_end(tail, at);
        assert(whole.subrange(head.len() + at, head.len() + end) =~= tail.subrange(at, end));
        assert(whole[head.len() + at] == tail[at]);
        assert forall|k: int, c: char| at <= k implies is_at(whole, head.len() + k, c) == is_at(
            tail,
            k,
            c,
        ) by {}
        assert(is_at(whole, head.len() + at + 1, '/') == is_at(tail, at + 1, '/'));
        assert(is_at(whole, head.len() + at + 1, '*') == is_at(tail, at + 1, '*'));
        assert(is_at(whole, head.len() + end, '"') == is_at(tail, end, '"'));
        assert(is_at(whole, head.len() + at + 1, '\n') == is_at(tail, at + 1, '\n'));
        assert(far.taken == step.taken && far.next == step.next);
        assert(far.kept =~= step.kept.map_values(moved));
        lemma_kept_shift(step.next, head, tail, at + step.taken);
        assert(kept_from(mode, whole, head.len() + at) =~= kept_from(mode, tail, at).map_values(
            moved,
        ));
    } else {
        assert(kept_from(mode, whole, head.len() + at) =~= kept_from(mode, tail, at).map_values(
            moved,
        ));
    }
}

/// A step that takes all of `head` and keeps `kept` of it leaves `kept` and what is left of the
/// text after it.
proof fn lemma_step_over(mode: Mode, head: Seq<char>, tail: Seq<char>)
    requires
        0 < head.len(),
        step_at(mode, head + tail, 0).taken == head.len(),
    ensures
        left_of(mode, head + tail) == chars_at(head + tail, step_at(mode, head + tail, 0).kept)
            + left_of(step_at(mode, head + tail, 0).next, tail),
{
    let whole = head + tail;
    let step = step_at(mode, whole, 0);
    lemma_kept_shift(step.next, head, tail, 0);
    lemma_kept_from(step.next, tail, 0);
    let rest = kept_from(step.next, tail, 0);
    assert(kept_from(mode, whole, 0) == step.kept + kept_from(
        step.next,
        whole,
        head.len() as int,
    ));
    assert(left_of(mode, whole) =~= chars_at(whole, step.kept) + left_of(step.next, tail));
}

/// Whether `text` holds no character that opens a comment or a literal.
pub open spec fn is_plain(text: Seq<char>) -> bool {
    forall|k: int|
        0 <= k < text.len() ==> {
            &&& #[trigger] text[k] != '"'
            &&& text[k] != '/'
            &&& text[k] != '\''
        }
}

/// Whether `text` ends in `word`, and `word` is a word of its own there.
pub open spec fn ends_with_word(text: Seq<char>, word: Seq<char>) -> bool {
    let start = text.len() - word.len();
    &&& start >= 0
    &&& text.skip(start) == word
    &&& start == 0 || !is_word_char(text[start - 1])
}

/// Whether `head` ends in a word that makes the string literal at the start of `tail` raw.
pub open spec fn makes_raw(head: Seq<char>, tail: Seq<char>) -> bool {
    is_at(tail, 0, '"') && (ends_with_word(head, seq!['r']) || ends_with_word(head, seq!['b', 'r'])
        || ends_with_word(head, seq!['c', 'r']))
}

/// Code that does not end in a word makes no string raw.
pub proof fn lemma_sign_makes_nothing_raw(head: Seq<char>, tail: Seq<char>)
    requires
        head.len() > 0,
        !is_word_char(head.last()),
    ensures
        !makes_raw(head, tail),
{
    let last = head.len() - 1;
    assert(seq!['b', 'r'][1] == 'r' && seq!['c', 'r'][1] == 'r');
    if ends_with_word(head, seq!['r']) {
        assert(head.skip(last)[0] == head[last]);
    }
    if ends_with_word(head, seq!['b', 'r']) || ends_with_word(head, seq!['c', 'r']) {
        assert(head.skip(last - 1)[1] == head[last]);
    }
}

/// Whether a word begins in `head` and goes on in `tail`.
pub open spec fn splits_word(head: Seq<char>, tail: Seq<char>) -> bool {
    head.len() > 0 && tail.len() > 0 && is_word_char(head.last()) && is_word_char(tail[0])
}

proof fn lemma_word_ends_early(head: Seq<char>, tail: Seq<char>, at: int)
    requires
        0 <= at <= head.len(),
        !splits_word(head, tail) || at == head.len(),
        at < head.len() || tail.len() == 0 || !is_word_char(tail[0]),
    ensures
        word_end(head + tail, at) == word_end(head, at),
    decreases head.len() - at,
{
    if at < head.len() {
        assert((head + tail)[at] == head[at]);
        if is_word_char(head[at]) {
            lemma_word_ends_early(head, tail, at + 1);
        }
    } else if tail.len() > 0 {
        assert((head + tail)[at] == tail[0]);
    }
}

proof fn lemma_shorter_ends_with_word(text: Seq<char>, taken: int, word: Seq<char>)
    requires
        0 < taken <= text.len(),
        word.len() > 0,
        is_word_char(word[0]),
        !is_word_char(text[taken - 1]) || taken == text.len() || !is_word_char(text[taken]),
        ends_with_word(text.skip(taken), word),
    ensures
        ends_with_word(text, word),
{
    let after = text.skip(taken);
    let start = text.len() - word.len();
    assert(text.skip(start) =~= after.skip(after.len() - word.len()));
    if start == taken {
        assert(word[0] == text[taken]);
    } else {
        assert(after[start - taken - 1] == text[start - 1]);
    }
}

/// Code that opens no comment and no literal is kept as it stands.
pub proof fn lemma_plain_code_is_kept(head: Seq<char>, tail: Seq<char>)
    requires
        is_plain(head),
        !makes_raw(head, tail),
        !splits_word(head, tail),
    ensures
        code_of(head + tail) == head + code_of(tail),
    decreases head.len(),
{
    let whole = head + tail;
    if head.len() == 0 {
        assert(whole =~= tail);
        assert(head + code_of(tail) =~= code_of(tail));
    } else {
        assert(whole[0] == head[0]);
        let taken: int = if is_word_char(head[0]) {
            word_end(head, 0)
        } else {
            1
        };
        lemma_word_end(head, 0);
        if is_word_char(head[0]) {
            lemma_word_ends_early(head, tail, 0);
            assert(whole.subrange(0, taken) =~= head.take(taken));
            if taken < head.len() {
                assert(whole[taken] == head[taken]);
            } else if is_at(whole, taken, '"') {
                assert(whole[taken] == tail[0]);
                assert(head.skip(0) =~= head);
                assert(head.take(taken) =~= head);
            }
        }
        let first = head.take(taken);
        let after = head.skip(taken);
        assert(first + (after + tail) =~= whole);
        assert(is_plain(after)) by {
            assert forall|k: int| 0 <= k < after.len() implies {
                &&& #[trigger] after[k] != '"'
                &&& after[k] != '/'
                &&& after[k] != '\''
            } by {
                assert(after[k] == head[taken + k]);
            }
        }
        if makes_raw(after, tail) {
            if ends_with_word(after, seq!['r']) {
                lemma_shorter_ends_with_word(head, taken, seq!['r']);
            } else if ends_with_word(after, seq!['b', 'r']) {
                lemma_shorter_ends_with_word(head, taken, seq!['b', 'r']);
            } else {
                lemma_shorter_ends_with_word(head, taken, seq!['c', 'r']);
            }
        }
        lemma_plain_code_is_kept(after, tail);
        assert(step_at(Mode::Code, whole, 0).taken == taken);
        lemma_step_over(Mode::Code, first, after + tail);
        assert(chars_at(whole, step_at(Mode::Code, whole, 0).kept) =~= first);
        assert(first + (after + code_of(tail)) =~= head + code_of(tail));
    }
}

proof fn lemma_rest_of_comment(comment: Seq<char>, tail: Seq<char>)
    requires
        forall|k: int| 0 <= k < comment.len() ==> comment[k] != '\n',
    ensures
        left_of(Mode::LineComment, comment + seq!['\n'] + tail) == seq!['\n'] + code_of(tail),
        left_of(Mode::LineComment, comment) == Seq::<char>::empty(),
    decreases comment.len(),
{
    let whole = comment + seq!['\n'] + tail;
    if comment.len() == 0 {
        assert(whole =~= seq!['\n'] + tail);
        lemma_step_over(Mode::LineComment, seq!['\n'], tail);
        assert(chars_at(whole, seq![0int]) =~= seq!['\n']);
        assert(left_of(Mode::LineComment, comment) =~= Seq::<char>::empty());
    } else {
        let first = comment.take(1);
        let after = comment.skip(1);
        assert(first + (after + seq!['\n'] + tail) =~= whole);
        assert(first + after =~= comment);
        assert(whole[0] == comment[0]);
        lemma_rest_of_comment(after, tail);
        lemma_step_over(Mode::LineComment, first, after + seq!['\n'] + tail);
        lemma_step_over(Mode::LineComment, first, after);
        assert(chars_at(whole, Seq::empty()) =~= Seq::<char>::empty());
        assert(chars_at(comment, Seq::empty()) =~= Seq::<char>::empty());
        assert(left_of(Mode::LineComment, whole) =~= seq!['\n'] + code_of(tail));
        assert(left_of(Mode::LineComment, comment) =~= Seq::<char>::empty());
    }
}

/// A `//` comment is removed up to the end of its line, and the line end is kept.
pub proof fn lemma_line_comment_is_removed(comment: Seq<char>, tail: Seq<char>)
    requires
        forall|k: int| 0 <= k < comment.len() ==> comment[k] != '\n',
    ensures
        code_of(seq!['/', '/'] + comment + seq!['\n'] + tail) == seq!['\n'] + code_of(tail),
        code_of(seq!['/', '/'] + comment) == Seq::<char>::empty(),
{
    let opener = seq!['/', '/'];
    lemma_rest_of_comment(comment, tail);
    lemma_step_over(Mode::Code, opener, comment + seq!['\n'] + tail);
    lemma_step_over(Mode::Code, opener, comment);
    assert(opener + comment + seq!['\n'] + tail =~= opener + (comment + seq!['\n'] + tail));
    assert(code_of(opener + comment + seq!['\n'] + tail) =~= seq!['\n'] + code_of(tail));
    assert(code_of(opener + comment) =~= Seq::<char>::empty());
}

/// The line ends of `text`.
pub open spec fn just_line_ends(text: Seq<char>) -> Seq<char>
    decreases text.len(),
{
    if text.len() == 0 {
        Seq::empty()
    } else {
        (if text[0] == '\n' {
            seq!['\n']
        } else {
            Seq::empty()
        }) + just_line_ends(text.skip(1))
    }
}

/// Whether `content` can stand between the quotes of a string literal: every double quote in it
/// has a backslash before it, and it does not end in a backslash of its own.
pub open spec fn is_string_content(content: Seq<char>) -> bool
    decreases content.len(),
{
    if content.len() == 0 {
        true
    } else if content[0] == '\\' {
        content.len() > 1 && is_string_content(content.skip(2))
    } else {
        content[0] != '"' && is_string_content(content.skip(1))
    }
}

proof fn lemma_rest_of_string(content: Seq<char>, tail: Seq<char>)
    requires
        is_string_content(content),
    ensures
        left_of(Mode::Quoted, content + seq!['"'] + tail) == just_line_ends(content) + code_of(
            tail,
        ),
    decreases content.len(),
{
    let whole = content + seq!['"'] + tail;
    if content.len() == 0 {
        assert(whole =~= seq!['"'] + tail);
        lemma_step_over(Mode::Quoted, seq!['"'], tail);
    } else {
        let taken: int = if content[0] == '\\' {
            2
        } else {
            1
        };
        let first = content.take(taken);
        let after = content.skip(taken);
        assert(first + (after + seq!['"'] + tail) =~= whole);
        assert(whole[0] == content[0]);
        lemma_rest_of_string(after, tail);
        lemma_step_over(Mode::Quoted, first, after + seq!['"'] + tail);
        if taken == 2 {
            assert(whole[1] == content[1]);
            assert(content.skip(1)[0] == content[1]);
            assert(content.skip(1).skip(1) =~= after);
        }
        assert(chars_at(whole, step_at(Mode::Quoted, whole, 0).kept) + just_line_ends(after)
            =~= just_line_ends(content)) by {
            reveal_with_fuel(just_line_ends, 3);
        }
    }
    assert(left_of(Mode::Quoted, whole) =~= just_line_ends(content) + code_of(tail));
}

/// A string literal is removed with its quotes, escapes and all, and only its line ends are kept.
pub proof fn lemma_string_is_removed(content: Seq<char>, tail: Seq<char>)
    requires
        is_string_content(content),
    ensures
        code_of(seq!['"'] + content + seq!['"'] + tail) == just_line_ends(content) + code_of(tail),
{
    let opener = seq!['"'];
    lemma_rest_of_string(content, tail);
    lemma_step_over(Mode::Code, opener, content + seq!['"'] + tail);
    assert(opener + content + seq!['"'] + tail =~= opener + (content + seq!['"'] + tail));
    assert(code_of(opener + content + seq!['"'] + tail) =~= just_line_ends(content) + code_of(tail));
}

/// Text on one line, without quotes or backslashes, can stand in a string literal.
pub proof fn lemma_plain_string_content(content: Seq<char>)
    requires
        forall|k: int|
            0 <= k < content.len() ==> {
                &&& #[trigger] content[k] != '"'
                &&& content[k] != '\\'
                &&& content[k] != '\n'
            },
    ensures
        is_string_content(content),
        just_line_ends(content) == Seq::<char>::empty(),
    decreases content.len(),
{
    if content.len() > 0 {
        lemma_plain_string_content(content.skip(1));
    }
}

/// Whether `content` closes `open` block comments and ends where the last of them does. Those that
/// it opens itself count with the others.
pub open spec fn closes_comments(content: Seq<char>, open: nat) -> bool
    decreases content.len(),
{
    if content.len() < 2 {
        false
    } else if content[0] == '/' && content[1] == '*' {
        closes_comments(content.skip(2), open + 1)
    } else if content[0] == '*' && content[1] == '/' {
        if open <= 1 {
            content.len() == 2
        } else {
            closes_comments(content.skip(2), (open - 1) as nat)
        }
    } else {
        closes_comments(content.skip(1), open)
    }
}

proof fn lemma_rest_of_block_comment(content: Seq<char>, open: nat, tail: Seq<char>)
    requires
        closes_comments(content, open),
    ensures
        left_of(Mode::BlockComment(open), content + tail) == just_line_ends(content) + code_of(
            tail,
        ),
    decreases content.len(),
{
    let whole = content + tail;
    let mode = Mode::BlockComment(open);
    let step = step_at(mode, whole, 0);
    let first = content.take(step.taken as int);
    let after = content.skip(step.taken as int);
    assert(whole[0] == content[0] && whole[1] == content[1]);
    assert(first + (after + tail) =~= whole);
    lemma_step_over(mode, first, after + tail);
    match step.next {
        Mode::BlockComment(more) => {
            lemma_rest_of_block_comment(after, more, tail);
        },
        _ => {
            assert(after + tail =~= tail);
        },
    }
    if step.taken == 2 {
        assert(content.skip(1)[0] == content[1]);
        assert(content.skip(1).skip(1) =~= after);
    }
    assert(chars_at(whole, step.kept) + just_line_ends(after) =~= just_line_ends(content)) by {
        reveal_with_fuel(just_line_ends, 3);
    }
    assert(left_of(mode, whole) =~= just_line_ends(content) + code_of(tail));
}

/// A block comment is removed up to where it closes, those nested in it with it, and only its line
/// ends are kept.
pub proof fn lemma_block_comment_is_removed(content: Seq<char>, tail: Seq<char>)
    requires
        closes_comments(content, 1),
    ensures
        code_of(seq!['/', '*'] + content + tail) == just_line_ends(content) + code_of(tail),
{
    let opener = seq!['/', '*'];
    lemma_rest_of_block_comment(content, 1, tail);
    lemma_step_over(Mode::Code, opener, content + tail);
    assert(opener + content + tail =~= opener + (content + tail));
    assert(code_of(opener + content + tail) =~= just_line_ends(content) + code_of(tail));
}

/// Whether `text` is a char literal.
pub open spec fn is_char_literal(text: Seq<char>) -> bool {
    text.len() > 0 && literal_length(text, 0) == text.len()
}

proof fn lemma_escape_ends_early(head: Seq<char>, tail: Seq<char>, at: int)
    requires
        0 <= at,
        escape_end(head, at) < head.len(),
    ensures
        escape_end(head + tail, at) == escape_end(head, at),
    decreases head.len() - at,
{
    lemma_escape_end(head, at);
    assert((head + tail)[at] == head[at]);
    if is_escape_char(head[at]) {
        lemma_escape_ends_early(head, tail, at + 1);
    }
}

/// A char literal is kept as it stands, whatever it holds and whatever follows it: it opens neither
/// a string nor a comment.
pub proof fn lemma_char_literal_is_kept(literal: Seq<char>, tail: Seq<char>)
    requires
        is_char_literal(literal),
    ensures
        code_of(literal + tail) == literal + code_of(tail),
{
    let whole = literal + tail;
    lemma_literal_length(literal, 0);
    lemma_escape_end(literal, 3);
    assert(whole[0] == literal[0] && whole[1] == literal[1] && whole[2] == literal[2]);
    if literal[1] == '\\' {
        lemma_escape_ends_early(literal, tail, 3);
        assert(whole[escape_end(literal, 3)] == literal[escape_end(literal, 3)]);
    }
    assert(literal_length(whole, 0) == literal.len());
    lemma_step_over(Mode::Code, literal, tail);
    assert(chars_at(whole, step_at(Mode::Code, whole, 0).kept) =~= literal);
}

proof fn lemma_rest_of_raw_string(content: Seq<char>, tail: Seq<char>)
    requires
        !content.contains('"'),
    ensures
        left_of(Mode::RawQuoted, content + seq!['"'] + tail) == just_line_ends(content) + code_of(
            tail,
        ),
    decreases content.len(),
{
    let whole = content + seq!['"'] + tail;
    if content.len() == 0 {
        assert(whole =~= seq!['"'] + tail);
        lemma_step_over(Mode::RawQuoted, seq!['"'], tail);
    } else {
        let first = content.take(1);
        let after = content.skip(1);
        assert(first + (after + seq!['"'] + tail) =~= whole);
        assert(whole[0] == content[0]);
        assert(content.contains(content[0]));
        assert(!after.contains('"')) by {
            assert forall|k: int| 0 <= k < after.len() implies after[k] != '"' by {
                assert(content.contains(content[k + 1]));
            }
        }
        lemma_rest_of_raw_string(after, tail);
        lemma_step_over(Mode::RawQuoted, first, after + seq!['"'] + tail);
        assert(chars_at(whole, step_at(Mode::RawQuoted, whole, 0).kept) + just_line_ends(after)
            =~= just_line_ends(content));
    }
    assert(left_of(Mode::RawQuoted, whole) =~= just_line_ends(content) + code_of(tail));
}

/// A raw string literal without hashes is removed with its quotes, whatever backslashes it holds.
pub proof fn lemma_raw_string_is_removed(prefix: Seq<char>, content: Seq<char>, tail: Seq<char>)
    requires
        is_raw_prefix(prefix),
        !content.contains('"'),
    ensures
        code_of(prefix + seq!['"'] + content + seq!['"'] + tail) == prefix + just_line_ends(content)
            + code_of(tail),
{
    let opener = prefix + seq!['"'];
    let rest = content + seq!['"'] + tail;
    let whole = opener + content + seq!['"'] + tail;
    lemma_rest_of_raw_string(content, tail);
    assert(whole =~= opener + rest);
    assert(whole =~= prefix + (seq!['"'] + rest));
    assert((seq!['"'] + rest)[0] == '"');
    lemma_word_ends_early(prefix, seq!['"'] + rest, 0);
    reveal_with_fuel(word_end, 4);
    assert(word_end(prefix, 0) == prefix.len());
    assert(whole[0] == prefix[0]);
    assert(whole[prefix.len() as int] == '"');
    assert(whole.subrange(0, prefix.len() as int) =~= prefix);
    lemma_step_over(Mode::Code, opener, rest);
    assert(chars_at(whole, run_of(0, prefix.len() as int)) =~= prefix);
    assert(code_of(whole) =~= prefix + just_line_ends(content) + code_of(tail));
}

/// A piece of source text.
pub enum Piece {
    /// Code that holds no quote and no slash.
    Code(Seq<char>),
    /// A slash that opens no comment, or the quote of a lifetime.
    Sign(char),
    CharLiteral(Seq<char>),
    /// A string literal, by what stands between its quotes.
    Text(Seq<char>),
    /// A raw string literal without hashes, by what stands before and between its quotes.
    RawText(Seq<char>, Seq<char>),
    /// A `//` comment, by what stands between its opener and the end of its line.
    LineComment(Seq<char>),
    /// A block comment, by all that stands behind its opener.
    BlockComment(Seq<char>),
}

/// A piece as it is written.
pub open spec fn written(piece: Piece) -> Seq<char> {
    match piece {
        Piece::Code(text) => text,
        Piece::Sign(sign) => seq![sign],
        Piece::CharLiteral(text) => text,
        Piece::Text(content) => seq!['"'] + content + seq!['"'],
        Piece::RawText(prefix, content) => prefix + seq!['"'] + content + seq!['"'],
        Piece::LineComment(comment) => seq!['/', '/'] + comment + seq!['\n'],
        Piece::BlockComment(content) => seq!['/', '*'] + content,
    }
}

/// The code of a piece, and its line ends.
pub open spec fn code_in(piece: Piece) -> Seq<char> {
    match piece {
        Piece::Code(text) => text,
        Piece::Sign(sign) => seq![sign],
        Piece::CharLiteral(text) => text,
        Piece::Text(content) => just_line_ends(content),
        Piece::RawText(prefix, content) => prefix + just_line_ends(content),
        Piece::LineComment(_) => seq!['\n'],
        Piece::BlockComment(content) => just_line_ends(content),
    }
}

/// Whether a piece is what it says it is, where `tail` follows it.
pub open spec fn is_piece(piece: Piece, tail: Seq<char>) -> bool {
    match piece {
        Piece::Code(text) => {
            &&& is_plain(text)
            &&& !makes_raw(text, tail)
            &&& !splits_word(text, tail)
        },
        Piece::Sign(sign) => {
            ||| sign == '/' && !is_at(tail, 0, '/') && !is_at(tail, 0, '*')
            ||| sign == '\'' && literal_length(seq![sign] + tail, 0) == 0
        },
        Piece::CharLiteral(text) => is_char_literal(text),
        Piece::Text(content) => is_string_content(content),
        Piece::RawText(prefix, content) => is_raw_prefix(prefix) && !content.contains('"'),
        Piece::LineComment(comment) => !comment.contains('\n'),
        Piece::BlockComment(content) => closes_comments(content, 1),
    }
}

/// Source text in pieces.
pub open spec fn all_written(pieces: Seq<Piece>) -> Seq<char>
    decreases pieces.len(),
{
    if pieces.len() == 0 {
        Seq::empty()
    } else {
        written(pieces[0]) + all_written(pieces.skip(1))
    }
}

/// The code of source text in pieces.
pub open spec fn all_code(pieces: Seq<Piece>) -> Seq<char>
    decreases pieces.len(),
{
    if pieces.len() == 0 {
        Seq::empty()
    } else {
        code_in(pieces[0]) + all_code(pieces.skip(1))
    }
}

/// Whether each piece is what it says it is, where it stands.
pub open spec fn are_pieces(pieces: Seq<Piece>) -> bool
    decreases pieces.len(),
{
    pieces.len() > 0 ==> is_piece(pieces[0], all_written(pieces.skip(1))) && are_pieces(
        pieces.skip(1),
    )
}

proof fn lemma_piece(piece: Piece, tail: Seq<char>)
    requires
        is_piece(piece, tail),
    ensures
        code_of(written(piece) + tail) == code_in(piece) + code_of(tail),
{
    match piece {
        Piece::Code(text) => lemma_plain_code_is_kept(text, tail),
        Piece::Sign(sign) => {
            let whole = seq![sign] + tail;
            if tail.len() > 0 {
                assert(whole[1] == tail[0]);
            }
            assert(literal_length(whole, 0) == 0);
            lemma_step_over(Mode::Code, seq![sign], tail);
            assert(chars_at(whole, seq![0int]) =~= seq![sign]);
        },
        Piece::CharLiteral(text) => lemma_char_literal_is_kept(text, tail),
        Piece::Text(content) => lemma_string_is_removed(content, tail),
        Piece::RawText(prefix, content) => lemma_raw_string_is_removed(prefix, content, tail),
        Piece::LineComment(comment) => {
            assert forall|k: int| 0 <= k < comment.len() implies comment[k] != '\n' by {
                assert(comment.contains(comment[k]));
            }
            lemma_line_comment_is_removed(comment, tail);
        },
        Piece::BlockComment(content) => lemma_block_comment_is_removed(content, tail),
    }
}

/// Source text that is made of code, char literals, comments and string literals, none of them raw
/// with hashes, is reduced to all of its code and char literals and every line end, in order, and
/// to nothing else: no code is dropped.
pub proof fn lemma_no_code_is_dropped(pieces: Seq<Piece>)
    requires
        are_pieces(pieces),
    ensures
        code_of(all_written(pieces)) == all_code(pieces),
    decreases pieces.len(),
{
    if pieces.len() == 0 {
        assert(code_of(all_written(pieces)) =~= all_code(pieces));
    } else {
        lemma_no_code_is_dropped(pieces.skip(1));
        lemma_piece(pieces[0], all_written(pieces.skip(1)));
    }
}

/// Whether a block comment opens at `at`.
pub open spec fn opens_block(text: Seq<char>, at: int) -> bool {
    is_at(text, at, '/') && is_at(text, at + 1, '*')
}

proof fn lemma_line_step(a: Seq<char>, b: Seq<char>, mode: Mode, at: int)
    requires
        mode is Code || mode is LineComment,
        0 <= at < a.len(),
        !a.contains('"'),
        forall|k: int| !#[trigger] opens_block(a, k),
    ensures
        ({
            let step = step_at(mode, a, at);
            &&& step_at(mode, a + seq!['\n'] + b, at) == step
            &&& step.next is Code || step.next is LineComment
            &&& 1 <= step.taken
            &&& at + step.taken <= a.len()
        }),
{
    let whole = a + seq!['\n'] + b;
    let tail = seq!['\n'] + b;
    assert(whole =~= a + tail);
    assert(tail[0] == '\n');
    assert(whole[a.len() as int] == '\n');
    assert forall|k: int| 0 <= k < a.len() implies whole[k] == a[k] && a[k] != '"' by {
        assert(a.contains(a[k]));
    }
    assert(!opens_block(a, at));
    lemma_word_end(a, at);
    lemma_word_ends_early(a, tail, at);
    let end = word_end(a, at);
    assert(whole.subrange(at, end) =~= a.subrange(at, end));
    assert(!is_at(a, end, '"') && !is_at(whole, end, '"'));
    lemma_literal_length(a, at);
    lemma_escape_end(a, at + 3);
    if at + 3 <= a.len() {
        lemma_escape_before_line_end(a, b, at + 3);
    }
    assert(literal_length(whole, at) == literal_length(a, at));
}

proof fn lemma_escape_before_line_end(a: Seq<char>, b: Seq<char>, at: int)
    requires
        0 <= at <= a.len(),
    ensures
        escape_end(a + seq!['\n'] + b, at) == escape_end(a, at),
    decreases a.len() - at,
{
    let whole = a + seq!['\n'] + b;
    if at < a.len() {
        assert(whole[at] == a[at]);
        if is_escape_char(a[at]) {
            lemma_escape_before_line_end(a, b, at + 1);
        }
    } else {
        assert(whole[at] == '\n');
    }
}

proof fn lemma_rest_of_line(a: Seq<char>, b: Seq<char>, mode: Mode, at: int)
    requires
        mode is Code || mode is LineComment,
        0 <= at <= a.len(),
        !a.contains('"'),
        forall|k: int| !#[trigger] opens_block(a, k),
    ensures
        ({
            let whole = a + seq!['\n'] + b;
            chars_at(whole, kept_from(mode, whole, at)) == chars_at(a, kept_from(mode, a, at))
                + seq!['\n'] + code_of(b)
        }),
    decreases a.len() - at,
{
    let whole = a + seq!['\n'] + b;
    let head = a + seq!['\n'];
    if at == a.len() {
        assert(whole[at] == '\n');
        let step = step_at(mode, whole, at);
        lemma_kept_shift(Mode::Code, head, b, 0);
        lemma_kept_from(Mode::Code, b, 0);
        let rest = kept_from(Mode::Code, b, 0);
        assert(step.kept =~= seq![at] && step.next is Code && step.taken == 1);
        assert(kept_from(mode, whole, at) == seq![at] + kept_from(Mode::Code, whole, at + 1));
        assert forall|k: int| 0 <= k < rest.len() implies whole[rest[k] + head.len()] == b[rest[k]]
            by {}
        assert(chars_at(whole, kept_from(mode, whole, at)) =~= chars_at(a, kept_from(mode, a, at))
            + seq!['\n'] + code_of(b));
    } else {
        lemma_line_step(a, b, mode, at);
        let step = step_at(mode, a, at);
        lemma_rest_of_line(a, b, step.next, at + step.taken);
        lemma_kept_from(mode, a, at);
        let here = step.kept;
        let rest = kept_from(step.next, a, at + step.taken);
        assert(kept_from(mode, a, at) == here + rest);
        assert forall|k: int| 0 <= k < here.len() implies whole[here[k]] == a[here[k]] by {
            assert((here + rest)[k] == here[k]);
        }
        assert(chars_at(whole, here) =~= chars_at(a, here));
        let far = kept_from(step.next, whole, at + step.taken);
        assert(chars_at(whole, here + far) =~= chars_at(whole, here) + chars_at(whole, far));
        assert(chars_at(a, here + rest) =~= chars_at(a, here) + chars_at(a, rest));
        assert(chars_at(whole, kept_from(mode, whole, at)) =~= chars_at(a, kept_from(mode, a, at))
            + seq!['\n'] + code_of(b));
    }
}

/// Lines are stripped one by one: where nothing on a line opens a string or a block comment, a line
/// comment or whatever else is on it ends with it, and nothing of it leaks into the text behind.
pub proof fn lemma_lines_are_stripped_alone(a: Seq<char>, b: Seq<char>)
    requires
        !a.contains('"'),
        forall|k: int| !#[trigger] opens_block(a, k),
    ensures
        code_of(a + seq!['\n'] + b) == code_of(a) + seq!['\n'] + code_of(b),
{
    lemma_rest_of_line(a, b, Mode::Code, 0);
}

// ---- what a literal is -----------------------------------------------------------------------

proof fn lemma_escape_ends_at(source: Seq<char>, at: int, end: int)
    requires
        0 <= at <= end <= source.len(),
        forall|k: int| at <= k < end ==> is_escape_char(#[trigger] source[k]),
        end == source.len() || !is_escape_char(source[end]),
    ensures
        escape_end(source, at) == end,
    decreases end - at,
{
    if at < end {
        assert(is_escape_char(source[at]));
        lemma_escape_ends_at(source, at + 1, end);
    }
}

/// One sign between two quotes is a literal, whatever the sign is but a quote, a backslash or a line
/// end: it is kept with its quotes, opens nothing, and what follows is read as if it stood alone.
pub proof fn lemma_quoted_sign_is_kept(sign: char, tail: Seq<char>)
    requires
        sign != '\'',
        sign != '\\',
        sign != '\n',
    ensures
        code_of(seq!['\'', sign, '\''] + tail) == seq!['\'', sign, '\''] + code_of(tail),
{
    let text = seq!['\'', sign, '\''];
    assert(literal_length(text, 0) == 3);
    assert(is_char_literal(text));
    lemma_char_literal_is_kept(text, tail);
}

/// So is an escape: a backslash, one sign that is no line end, and any digits, letters, braces and
/// underscores behind it.
pub proof fn lemma_quoted_escape_is_kept(sign: char, more: Seq<char>, tail: Seq<char>)
    requires
        sign != '\n',
        forall|k: int|
            0 <= k < more.len() ==> {
                let c = #[trigger] more[k];
                '0' <= c <= '9' || 'a' <= c <= 'z' || 'A' <= c <= 'Z' || c == '{' || c == '}' || c
                    == '_'
            },
    ensures
        code_of(seq!['\'', '\\', sign] + more + seq!['\''] + tail) == seq!['\'', '\\', sign] + more
            + seq!['\''] + code_of(tail),
{
    let text = seq!['\'', '\\', sign] + more + seq!['\''];
    let end = 3 + more.len();
    assert forall|k: int| 3 <= k < end implies is_escape_char(#[trigger] text[k]) by {
        assert(text[k] == more[k - 3]);
    }
    assert(text[end as int] == '\'');
    lemma_escape_ends_at(text, 3, end as int);
    assert(literal_length(text, 0) == text.len());
    lemma_char_literal_is_kept(text, tail);
}

/// A quote that no literal begins with is a sign like any other: a lifetime leaves what follows it
/// code.
pub proof fn lemma_lifetime_is_no_literal(name: char, tail: Seq<char>)
    requires
        name != '\\',
        tail.len() > 0 ==> tail[0] != '\'',
    ensures
        literal_length(seq!['\'', name] + tail, 0) == 0,
{
    let text = seq!['\'', name] + tail;
    assert(text[0] == '\'' && text[1] == name);
    if tail.len() > 0 {
        assert(text[2] == tail[0]);
    }
}

/// What makes a string raw is a word of its own, and only these three.
pub proof fn lemma_raw_prefixes_are_these(word: Seq<char>)
    ensures
        is_raw_prefix(seq!['r']),
        is_raw_prefix(seq!['b', 'r']),
        is_raw_prefix(seq!['c', 'r']),
        is_raw_prefix(word) ==> word.last() == 'r' && (word.len() == 1 || word.len() == 2 && (
        word[0] == 'b' || word[0] == 'c')),
        forall|c: char| #[trigger]
            is_word_char(c) <==> 'a' <= c <= 'z' || 'A' <= c <= 'Z' || '0' <= c <= '9' || c == '_'
                || '\u{80}' <= c,
{
}

// ---- what is never closed --------------------------------------------------------------------

proof fn lemma_rest_of_open_string(content: Seq<char>)
    requires
        is_string_content(content),
    ensures
        left_of(Mode::Quoted, content) == just_line_ends(content),
    decreases content.len(),
{
    if content.len() == 0 {
        assert(left_of(Mode::Quoted, content) =~= Seq::<char>::empty());
    } else {
        let taken: int = if content[0] == '\\' {
            2
        } else {
            1
        };
        let first = content.take(taken);
        let after = content.skip(taken);
        assert(first + after =~= content);
        lemma_rest_of_open_string(after);
        lemma_step_over(Mode::Quoted, first, after);
        if taken == 2 {
            assert(content.skip(1)[0] == content[1]);
            assert(content.skip(1).skip(1) =~= after);
        }
        assert(chars_at(content, step_at(Mode::Quoted, content, 0).kept) + just_line_ends(after)
            =~= just_line_ends(content)) by {
            reveal_with_fuel(just_line_ends, 3);
        }
    }
}

/// Whether `content` leaves `open` block comments open to its end. Those that it opens itself count
/// with the others.
pub open spec fn leaves_open(content: Seq<char>, open: nat) -> bool
    decreases content.len(),
{
    if content.len() < 2 {
        true
    } else if content[0] == '/' && content[1] == '*' {
        leaves_open(content.skip(2), open + 1)
    } else if content[0] == '*' && content[1] == '/' {
        open > 1 && leaves_open(content.skip(2), (open - 1) as nat)
    } else {
        leaves_open(content.skip(1), open)
    }
}

proof fn lemma_rest_of_open_comment(content: Seq<char>, open: nat)
    requires
        leaves_open(content, open),
    ensures
        left_of(Mode::BlockComment(open), content) == just_line_ends(content),
    decreases content.len(),
{
    let mode = Mode::BlockComment(open);
    if content.len() == 0 {
        assert(left_of(mode, content) =~= Seq::<char>::empty());
    } else {
        let step = step_at(mode, content, 0);
        let first = content.take(step.taken as int);
        let after = content.skip(step.taken as int);
        assert(first + after =~= content);
        lemma_step_over(mode, first, after);
        match step.next {
            Mode::BlockComment(more) => {
                lemma_rest_of_open_comment(after, more);
            },
            _ => {},
        }
        if step.taken == 2 {
            assert(content.skip(1)[0] == content[1]);
            assert(content.skip(1).skip(1) =~= after);
        }
        assert(chars_at(content, step.kept) + just_line_ends(after) =~= just_line_ends(content))
            by {
            reveal_with_fuel(just_line_ends, 3);
        }
    }
}

/// What is opened and never closed goes to the end of the source: of a string and of a block comment
/// only the line ends are left.
pub proof fn lemma_unclosed_goes_to_the_end(text: Seq<char>, comment: Seq<char>)
    requires
        is_string_content(text),
        leaves_open(comment, 1),
    ensures
        code_of(seq!['"'] + text) == just_line_ends(text),
        code_of(seq!['/', '*'] + comment) == just_line_ends(comment),
{
    lemma_rest_of_open_string(text);
    lemma_step_over(Mode::Code, seq!['"'], text);
    assert(chars_at(seq!['"'] + text, Seq::empty()) =~= Seq::<char>::empty());
    assert(code_of(seq!['"'] + text) =~= just_line_ends(text));
    lemma_rest_of_open_comment(comment, 1);
    lemma_step_over(Mode::Code, seq!['/', '*'], comment);
    assert(chars_at(seq!['/', '*'] + comment, Seq::empty()) =~= Seq::<char>::empty());
    assert(code_of(seq!['/', '*'] + comment) =~= just_line_ends(comment));
}

} // verus!
