//! Strings as sequences of characters: searching, splitting, trimming and joining.

use vstd::prelude::*;
use vstd::string::*;

verus! {

/// `String::push` appends one character at the end of the string.
pub assume_specification[ String::push ](text: &mut String, character: char)
    ensures
        final(text)@ == old(text)@.push(character),
;

/// What `format!("{list:?}")` makes of a list of strings.
pub uninterp spec fn debug_list(list: Seq<Seq<char>>) -> Seq<char>;

/// `Debug` of a `Vec<String>`: a text that depends on the strings of the list alone. How it quotes
/// them and which characters it escapes is left unsaid.
#[verifier::external_body]
pub(crate) fn debug_of(list: &Vec<String>) -> (text: String)
    ensures
        text@ == debug_list(views(list@)),
{
    format!("{list:?}")
}

// ---- models ----------------------------------------------------------------------------------

/// Whether `needle` stands in `text` at character `at`.
pub open spec fn occurs_at(text: Seq<char>, needle: Seq<char>, at: int) -> bool {
    &&& 0 <= at
    &&& at + needle.len() <= text.len()
    &&& text.subrange(at, at + needle.len()) == needle
}

/// Whether `needle` stands somewhere in `text`.
pub open spec fn contains(text: Seq<char>, needle: Seq<char>) -> bool {
    exists|at: int| occurs_at(text, needle, at)
}

/// The contents of a list of strings.
pub open spec fn views(list: Seq<String>) -> Seq<Seq<char>> {
    list.map_values(|s: String| s@)
}

/// The contents of a list of string slices.
pub open spec fn str_views(list: Seq<&str>) -> Seq<Seq<char>> {
    list.map_values(|s: &str| s@)
}

/// The position of the first `wanted` in `text`, or its length when there is none.
pub open spec fn first_index(text: Seq<char>, wanted: char) -> nat
    decreases text.len(),
{
    if text.len() == 0 {
        0
    } else if text[0] == wanted {
        0
    } else {
        1 + first_index(text.skip(1), wanted)
    }
}

/// `line` without the carriage return at its end, if it has one.
pub open spec fn without_return(line: Seq<char>) -> Seq<char> {
    if line.len() > 0 && line.last() == '\r' {
        line.drop_last()
    } else {
        line
    }
}

/// The lines of `text`. A line ends in a line feed or in a carriage return and a line feed; the
/// last one may end with the text.
pub open spec fn lines_of(text: Seq<char>) -> Seq<Seq<char>>
    decreases text.len(),
{
    if text.len() == 0 {
        Seq::empty()
    } else {
        let end = first_index(text, '\n');
        if end >= text.len() {
            seq![text]
        } else {
            seq![without_return(text.take(end as int))] + lines_of(text.skip(end as int + 1))
        }
    }
}

/// The characters with Unicode's `White_Space` property.
pub open spec fn is_space(c: char) -> bool {
    ||| '\u{9}' <= c <= '\u{d}'
    ||| c == ' '
    ||| c == '\u{85}'
    ||| c == '\u{a0}'
    ||| c == '\u{1680}'
    ||| '\u{2000}' <= c <= '\u{200a}'
    ||| c == '\u{2028}'
    ||| c == '\u{2029}'
    ||| c == '\u{202f}'
    ||| c == '\u{205f}'
    ||| c == '\u{3000}'
}

/// `text` without the white space it starts with.
pub open spec fn trimmed_start(text: Seq<char>) -> Seq<char>
    decreases text.len(),
{
    if text.len() > 0 && is_space(text[0]) {
        trimmed_start(text.skip(1))
    } else {
        text
    }
}

/// `text` without the white space it ends with.
pub open spec fn trimmed_end(text: Seq<char>) -> Seq<char>
    decreases text.len(),
{
    if text.len() > 0 && is_space(text.last()) {
        trimmed_end(text.drop_last())
    } else {
        text
    }
}

/// `text` without the white space at either end.
pub open spec fn trimmed(text: Seq<char>) -> Seq<char> {
    trimmed_end(trimmed_start(text))
}

/// The parts in order, with `separator` between neighbours.
pub open spec fn joined(parts: Seq<Seq<char>>, separator: Seq<char>) -> Seq<char>
    decreases parts.len(),
{
    if parts.len() == 0 {
        Seq::empty()
    } else if parts.len() == 1 {
        parts[0]
    } else {
        joined(parts.drop_last(), separator) + separator + parts.last()
    }
}

/// Whether `left` comes before `right` in the order of strings: by the first character that
/// differs, or by length when one is the start of the other.
pub open spec fn before(left: Seq<char>, right: Seq<char>) -> bool
    decreases left.len(),
{
    if right.len() == 0 {
        false
    } else if left.len() == 0 {
        true
    } else if left[0] != right[0] {
        left[0] < right[0]
    } else {
        before(left.skip(1), right.skip(1))
    }
}

// ---- functions -------------------------------------------------------------------------------

/// The characters of `text`.
pub fn chars_of(text: &str) -> (chars: Vec<char>)
    ensures
        chars@ == text@,
{
    let mut chars: Vec<char> = Vec::new();
    for c in it: text.chars()
        invariant
            it.seq() == text@,
            chars@ == text@.take(it.index() as int),
    {
        chars.push(c);
    }
    chars
}


/// The characters of `chars` from `from` up to `to`, as a string.
pub fn slice_of(chars: &Vec<char>, from: usize, to: usize) -> (text: String)
    requires
        from <= to <= chars@.len(),
    ensures
        text@ == chars@.subrange(from as int, to as int),
{
    let mut text: String = String::new();
    let mut index: usize = from;
    while index < to
        invariant
            from <= index <= to <= chars@.len(),
            text@ == chars@.subrange(from as int, index as int),
        decreases to - index,
    {
        text.push(chars[index]);
        index = index + 1;
        assert(text@ =~= chars@.subrange(from as int, index as int));
    }
    text
}

/// `chars` as a string.
pub fn string_of(chars: &Vec<char>) -> (text: String)
    ensures
        text@ == chars@,
{
    let text = slice_of(chars, 0, chars.len());
    assert(chars@.subrange(0, chars@.len() as int) =~= chars@);
    text
}

/// Whether `needle` stands in `text` at character `at`.
pub fn stands_at(text: &Vec<char>, needle: &Vec<char>, at: usize) -> (found: bool)
    ensures
        found == occurs_at(text@, needle@, at as int),
{
    if at > text.len() || needle.len() > text.len() - at {
        return false;
    }
    let total: usize = text.len();
    let mut index: usize = 0;
    while index < needle.len()
        invariant
            index <= needle@.len(),
            at + needle@.len() <= total == text@.len(),
            forall|k: int| 0 <= k < index ==> text@[at + k] == needle@[k],
        decreases needle@.len() - index,
    {
        if text[at + index] != needle[index] {
            assert(text@.subrange(at as int, at + needle@.len())[index as int] != needle@[index as int]);
            return false;
        }
        index = index + 1;
    }
    assert(text@.subrange(at as int, at + needle@.len()) =~= needle@);
    true
}

/// Whether `needle` stands somewhere in `text`.
pub fn has_chars(text: &Vec<char>, needle: &Vec<char>) -> (found: bool)
    ensures
        found == contains(text@, needle@),
{
    let mut at: usize = 0;
    loop
        invariant
            at <= text@.len(),
            forall|k: int| 0 <= k < at ==> !occurs_at(text@, needle@, k),
        decreases text@.len() - at,
    {
        if stands_at(text, needle, at) {
            return true;
        }
        if at >= text.len() {
            assert forall|k: int| !occurs_at(text@, needle@, k) by {
                if occurs_at(text@, needle@, k) {
                    assert(0 <= k <= at);
                }
            }
            return false;
        }
        at = at + 1;
    }
}

/// Whether `needle` stands somewhere in `text`.
pub fn has_text(text: &str, needle: &str) -> (found: bool)
    ensures
        found == contains(text@, needle@),
{
    has_chars(&chars_of(text), &chars_of(needle))
}

/// Whether the two strings hold the same characters.
pub fn same(left: &str, right: &str) -> (equal: bool)
    ensures
        equal == (left@ == right@),
{
    let a = chars_of(left);
    let b = chars_of(right);
    if a.len() != b.len() {
        return false;
    }
    let equal = stands_at(&a, &b, 0);
    assert(a@.subrange(0, b@.len() as int) =~= a@);
    equal
}

/// Whether `list` holds `wanted`.
pub fn lists(list: &Vec<String>, wanted: &str) -> (found: bool)
    ensures
        found == views(list@).contains(wanted@),
{
    let mut index: usize = 0;
    while index < list.len()
        invariant
            index <= list@.len(),
            forall|k: int| 0 <= k < index ==> list@[k]@ != wanted@,
        decreases list@.len() - index,
    {
        if same(list[index].as_str(), wanted) {
            assert(views(list@)[index as int] == wanted@);
            return true;
        }
        index = index + 1;
    }
    assert forall|k: int| 0 <= k < views(list@).len() implies views(list@)[k] != wanted@ by {
        assert(list@[k]@ != wanted@);
    }
    false
}

/// Whether `list` holds `wanted`.
pub fn lists_str(list: &[&str], wanted: &str) -> (found: bool)
    ensures
        found == str_views(list@).contains(wanted@),
{
    let mut index: usize = 0;
    while index < list.len()
        invariant
            index <= list@.len(),
            forall|k: int| 0 <= k < index ==> list@[k]@ != wanted@,
        decreases list@.len() - index,
    {
        if same(list[index], wanted) {
            assert(str_views(list@)[index as int] == wanted@);
            return true;
        }
        index = index + 1;
    }
    assert forall|k: int| 0 <= k < str_views(list@).len() implies str_views(list@)[k] != wanted@ by {
        assert(list@[k]@ != wanted@);
    }
    false
}

/// The position of the first `wanted` at or after `from`, or the length of `chars`.
fn find_from(chars: &Vec<char>, wanted: char, from: usize) -> (at: usize)
    requires
        from <= chars@.len(),
    ensures
        from <= at <= chars@.len(),
        at == from + first_index(chars@.skip(from as int), wanted),
{
    let mut at: usize = from;
    while at < chars.len()
        invariant
            from <= at <= chars@.len(),
            from + first_index(chars@.skip(from as int), wanted) == at + first_index(
                chars@.skip(at as int),
                wanted,
            ),
        decreases chars@.len() - at,
    {
        assert(chars@.skip(at as int)[0] == chars@[at as int]);
        if chars[at] == wanted {
            return at;
        }
        assert(chars@.skip(at as int).skip(1) =~= chars@.skip(at as int + 1));
        at = at + 1;
    }
    assert(chars@.skip(at as int).len() == 0);
    at
}

/// The lines of `text`.
pub fn lines(text: &str) -> (list: Vec<String>)
    ensures
        views(list@) == lines_of(text@),
{
    let chars = chars_of(text);
    let mut list: Vec<String> = Vec::new();
    let mut start: usize = 0;
    assert(chars@.skip(0) =~= chars@);
    assert(views(list@) =~= Seq::<Seq<char>>::empty());
    while start < chars.len()
        invariant
            chars@ == text@,
            start <= chars@.len(),
            lines_of(text@) == views(list@) + lines_of(chars@.skip(start as int)),
        decreases chars@.len() - start,
    {
        let ghost rest = chars@.skip(start as int);
        let ghost had = views(list@);
        let end = find_from(&chars, '\n', start);
        let ghost line_end = first_index(rest, '\n');
        if end >= chars.len() {
            let line = slice_of(&chars, start, end);
            assert(line@ =~= rest);
            list.push(line);
            assert(views(list@) =~= had.push(rest));
            assert(lines_of(rest) == seq![rest]);
            assert(views(list@) =~= lines_of(text@));
            return list;
        }
        let mut stop: usize = end;
        if end > start && chars[end - 1] == '\r' {
            stop = end - 1;
        }
        let line = slice_of(&chars, start, stop);
        assert(rest.take(line_end as int).len() == end - start);
        assert(line@ =~= without_return(rest.take(line_end as int)));
        list.push(line);
        assert(views(list@) =~= had.push(without_return(rest.take(line_end as int))));
        assert(rest.skip(line_end as int + 1) =~= chars@.skip(end as int + 1));
        start = end + 1;
        assert(views(list@) + lines_of(chars@.skip(start as int)) =~= had + lines_of(rest));
    }
    assert(chars@.skip(start as int).len() == 0);
    assert(views(list@) =~= lines_of(text@));
    list
}

/// Whether `c` is white space.
pub fn is_white(c: char) -> (space: bool)
    ensures
        space == is_space(c),
{
    let code: u32 = c as u32;
    (0x9 <= code && code <= 0xd) || code == 0x20 || code == 0x85 || code == 0xa0 || code == 0x1680
        || (0x2000 <= code && code <= 0x200a) || code == 0x2028 || code == 0x2029 || code == 0x202f
        || code == 0x205f || code == 0x3000
}

/// `text` without the white space at either end.
pub fn trim(text: &str) -> (inner: String)
    ensures
        inner@ == trimmed(text@),
{
    let chars = chars_of(text);
    let mut from: usize = 0;
    assert(chars@.skip(0) =~= chars@);
    while from < chars.len() && is_white(chars[from])
        invariant
            from <= chars@.len(),
            trimmed_start(chars@) == trimmed_start(chars@.skip(from as int)),
        decreases chars@.len() - from,
    {
        assert(chars@.skip(from as int).skip(1) =~= chars@.skip(from as int + 1));
        from = from + 1;
    }
    let ghost kept = chars@.skip(from as int);
    assert(trimmed_start(chars@) == kept);
    let mut to: usize = chars.len();
    assert(chars@.subrange(from as int, to as int) =~= kept);
    while to > from && is_white(chars[to - 1])
        invariant
            from <= to <= chars@.len(),
            trimmed_end(kept) == trimmed_end(chars@.subrange(from as int, to as int)),
        decreases to,
    {
        assert(chars@.subrange(from as int, to as int).drop_last() =~= chars@.subrange(
            from as int,
            to - 1,
        ));
        to = to - 1;
    }
    slice_of(&chars, from, to)
}

/// The parts in order, with `separator` between neighbours.
pub fn join(parts: &Vec<String>, separator: &str) -> (text: String)
    ensures
        text@ == joined(views(parts@), separator@),
{
    let mut text: String = String::new();
    let mut index: usize = 0;
    assert(views(parts@).take(0) =~= Seq::<Seq<char>>::empty());
    while index < parts.len()
        invariant
            index <= parts@.len(),
            text@ == joined(views(parts@).take(index as int), separator@),
        decreases parts@.len() - index,
    {
        if index > 0 {
            text.append(separator);
        }
        text.append(parts[index].as_str());
        let ghost upto = views(parts@).take(index + 1);
        assert(upto.drop_last() =~= views(parts@).take(index as int));
        assert(upto.last() == parts@[index as int]@);
        index = index + 1;
        assert(text@ =~= joined(upto, separator@));
    }
    assert(views(parts@).take(index as int) =~= views(parts@));
    text
}

/// Whether `left` comes before `right` in the order of strings.
pub fn comes_before(left: &str, right: &str) -> (less: bool)
    ensures
        less == before(left@, right@),
{
    let a = chars_of(left);
    let b = chars_of(right);
    let mut index: usize = 0;
    assert(a@.skip(0) =~= a@);
    assert(b@.skip(0) =~= b@);
    while index < a.len() && index < b.len() && a[index] == b[index]
        invariant
            index <= a@.len(),
            index <= b@.len(),
            before(a@, b@) == before(a@.skip(index as int), b@.skip(index as int)),
        decreases a@.len() - index,
    {
        assert(a@.skip(index as int).skip(1) =~= a@.skip(index as int + 1));
        assert(b@.skip(index as int).skip(1) =~= b@.skip(index as int + 1));
        index = index + 1;
    }
    if index >= b.len() {
        return false;
    }
    if index >= a.len() {
        return true;
    }
    assert(a@.skip(index as int)[0] == a@[index as int]);
    assert(b@.skip(index as int)[0] == b@[index as int]);
    a[index] < b[index]
}

// ---- the order of strings --------------------------------------------------------------------

/// Of two strings one comes before the other, unless they are the same.
pub proof fn lemma_before_total(left: Seq<char>, right: Seq<char>)
    ensures
        !(before(left, right) && before(right, left)),
        before(left, right) || before(right, left) <==> left != right,
    decreases left.len(),
{
    if left.len() > 0 && right.len() > 0 && left[0] == right[0] {
        lemma_before_total(left.skip(1), right.skip(1));
        assert(seq![left[0]] + left.skip(1) =~= left);
        assert(seq![right[0]] + right.skip(1) =~= right);
    } else if left.len() == 0 && right.len() == 0 {
        assert(left =~= right);
    }
}

/// A string that comes before another comes before all that the other comes before.
pub proof fn lemma_before_transitive(left: Seq<char>, middle: Seq<char>, right: Seq<char>)
    requires
        before(left, middle),
        before(middle, right),
    ensures
        before(left, right),
    decreases left.len(),
{
    if left.len() > 0 && left[0] == middle[0] && middle[0] == right[0] {
        lemma_before_transitive(left.skip(1), middle.skip(1), right.skip(1));
    }
}

/// The characters of `text`, with `to` wherever `from` stands.
pub open spec fn with_replaced(text: Seq<char>, from: char, to: char) -> Seq<char> {
    text.map_values(
        |c: char|
            if c == from {
                to
            } else {
                c
            },
    )
}

/// `text`, with `to` wherever `from` stands.
pub fn replace(text: &str, from: char, to: char) -> (changed: String)
    ensures
        changed@ == with_replaced(text@, from, to),
{
    let mut changed: String = String::new();
    for c in it: text.chars()
        invariant
            it.seq() == text@,
            changed@ == with_replaced(text@.take(it.index() as int), from, to),
    {
        let ghost at = it.index() as int;
        assert(text@.take(at + 1) =~= text@.take(at).push(text@[at]));
        if c == from {
            changed.push(to);
        } else {
            changed.push(c);
        }
        assert(changed@ =~= with_replaced(text@.take(at + 1), from, to));
    }
    assert(text@.take(text@.len() as int) =~= text@);
    changed
}

// ---- lines and parts -------------------------------------------------------------------------

/// Joined parts begin with the first of them.
pub proof fn lemma_joined_from_front(parts: Seq<Seq<char>>, separator: Seq<char>)
    requires
        parts.len() >= 2,
    ensures
        joined(parts, separator) == parts[0] + separator + joined(parts.skip(1), separator),
    decreases parts.len(),
{
    if parts.len() == 2 {
        reveal_with_fuel(joined, 2);
        assert(parts.skip(1).len() == 1);
        assert(parts.drop_last().len() == 1);
        assert(joined(parts, separator) =~= parts[0] + separator + joined(
            parts.skip(1),
            separator,
        ));
    } else {
        lemma_joined_from_front(parts.drop_last(), separator);
        assert(parts.drop_last().skip(1) =~= parts.skip(1).drop_last());
        assert(joined(parts, separator) =~= parts[0] + separator + joined(
            parts.skip(1),
            separator,
        ));
    }
}

/// The first line end of a line, a line end and more is where the line ends.
proof fn lemma_first_line_end(line: Seq<char>, tail: Seq<char>)
    requires
        !line.contains('\n'),
    ensures
        first_index(line + seq!['\n'] + tail, '\n') == line.len(),
        first_index(line, '\n') == line.len(),
    decreases line.len(),
{
    let whole = line + seq!['\n'] + tail;
    if line.len() == 0 {
        assert(whole[0] == '\n');
    } else {
        assert(whole[0] == line[0]);
        assert(line.contains(line[0]));
        assert(whole.skip(1) =~= line.skip(1) + seq!['\n'] + tail);
        assert forall|k: int| 0 <= k < line.skip(1).len() implies line.skip(1)[k] != '\n' by {
            assert(line.contains(line[k + 1]));
        }
        lemma_first_line_end(line.skip(1), tail);
    }
}

/// A line without a line end in it, before a line end, is the first of the lines.
pub proof fn lemma_first_line(line: Seq<char>, tail: Seq<char>)
    requires
        !line.contains('\n'),
        line.len() > 0 ==> line.last() != '\r',
    ensures
        lines_of(line + seq!['\n'] + tail) == seq![line] + lines_of(tail),
        line.len() > 0 ==> lines_of(line) == seq![line],
{
    let whole = line + seq!['\n'] + tail;
    lemma_first_line_end(line, tail);
    assert(whole.take(line.len() as int) =~= line);
    assert(whole.skip(line.len() as int + 1) =~= tail);
}

// ---- laws ------------------------------------------------------------------------------------

/// A text contains whatever stands in it with anything before and behind, and nothing else.
pub proof fn lemma_contains_what_stands_in_it(
    text: Seq<char>,
    needle: Seq<char>,
    front: Seq<char>,
    back: Seq<char>,
)
    ensures
        contains(front + needle + back, needle),
        contains(text, needle) ==> exists|start: Seq<char>, end: Seq<char>| #[trigger]
            (start + needle + end) == text,
        contains(text, needle) ==> contains(front + text + back, needle),
{
    assert((front + needle + back).subrange(
        front.len() as int,
        front.len() as int + needle.len(),
    ) =~= needle);
    assert(occurs_at(front + needle + back, needle, front.len() as int));
    if contains(text, needle) {
        let at = choose|at: int| occurs_at(text, needle, at);
        let start = text.take(at);
        let end = text.skip(at + needle.len());
        assert(start + needle + end =~= text);
        let longer = front + text + back;
        assert(longer.subrange(front.len() + at, front.len() + at + needle.len())
            =~= text.subrange(at, at + needle.len()));
        assert(occurs_at(longer, needle, front.len() + at));
    }
}

/// A line that ends in a carriage return and a line feed is given without either.
pub proof fn lemma_first_line_without_return(line: Seq<char>, tail: Seq<char>)
    requires
        !line.contains('\n'),
    ensures
        lines_of(line + seq!['\r', '\n'] + tail) == seq![line] + lines_of(tail),
{
    let whole = line + seq!['\r', '\n'] + tail;
    let head = line + seq!['\r'];
    assert(whole =~= head + seq!['\n'] + tail);
    assert(!head.contains('\n')) by {
        if head.contains('\n') {
            let k = choose|k: int| 0 <= k < head.len() && head[k] == '\n';
            if k < line.len() {
                assert(line[k] == '\n');
            }
        }
    }
    lemma_index_behind(head, tail);
    assert(whole.take(head.len() as int) =~= head);
    assert(whole.skip(head.len() as int + 1) =~= tail);
    assert(without_return(head) =~= line);
}

proof fn lemma_index_behind(head: Seq<char>, tail: Seq<char>)
    requires
        !head.contains('\n'),
    ensures
        first_index(head + seq!['\n'] + tail, '\n') == head.len(),
    decreases head.len(),
{
    let whole = head + seq!['\n'] + tail;
    if head.len() > 0 {
        let rest = head.skip(1);
        assert(!rest.contains('\n')) by {
            if rest.contains('\n') {
                let k = choose|k: int| 0 <= k < rest.len() && rest[k] == '\n';
                assert(head[k + 1] == '\n');
            }
        }
        lemma_index_behind(rest, tail);
        assert(head[0] != '\n') by {
            if head[0] == '\n' {
                assert(head.contains('\n'));
            }
        }
        assert(whole.skip(1) =~= rest + seq!['\n'] + tail);
    }
}

/// What trimming takes away is space at either end, and it takes all of it: what is left neither
/// begins nor ends with space, and stands in the text with nothing but space around it.
pub proof fn lemma_trimming_takes_the_space_around(text: Seq<char>)
    ensures
        ({
            let inner = trimmed(text);
            &&& inner.len() > 0 ==> !is_space(inner[0]) && !is_space(inner.last())
            &&& exists|from: int, to: int|
                {
                    &&& 0 <= from <= to <= text.len()
                    &&& inner == #[trigger] text.subrange(from, to)
                    &&& forall|k: int|
                        0 <= k < text.len() && !(from <= k < to) ==> is_space(#[trigger] text[k])
                }
        }),
{
    let start = trimmed_start(text);
    let inner = trimmed(text);
    lemma_trimmed_start(text);
    lemma_trimmed_end(start);
    let from = text.len() - start.len();
    let to = from + inner.len();
    assert(inner =~= text.subrange(from, to));
    assert forall|k: int| 0 <= k < text.len() && !(from <= k < to) implies is_space(
        #[trigger] text[k],
    ) by {
        if k >= to {
            assert(start[k - from] == text[k]);
        }
    }
    if inner.len() > 0 {
        assert(inner[0] == start[0]);
    }
}

proof fn lemma_trimmed_start(text: Seq<char>)
    ensures
        ({
            let start = trimmed_start(text);
            &&& start.len() <= text.len()
            &&& start == text.skip(text.len() - start.len())
            &&& start.len() > 0 ==> !is_space(start[0])
            &&& forall|k: int| 0 <= k < text.len() - start.len() ==> is_space(#[trigger] text[k])
        }),
    decreases text.len(),
{
    let start = trimmed_start(text);
    if text.len() > 0 && is_space(text[0]) {
        let rest = text.skip(1);
        lemma_trimmed_start(rest);
        assert(start =~= text.skip(text.len() - start.len()));
        assert forall|k: int| 0 <= k < text.len() - start.len() implies is_space(
            #[trigger] text[k],
        ) by {
            if k > 0 {
                assert(rest[k - 1] == text[k]);
            }
        }
    } else {
        assert(text.skip(0) =~= text);
    }
}

proof fn lemma_trimmed_end(text: Seq<char>)
    ensures
        ({
            let end = trimmed_end(text);
            &&& end.len() <= text.len()
            &&& end == text.take(end.len() as int)
            &&& end.len() > 0 ==> !is_space(end.last())
            &&& forall|k: int| end.len() <= k < text.len() ==> is_space(#[trigger] text[k])
        }),
    decreases text.len(),
{
    let end = trimmed_end(text);
    if text.len() > 0 && is_space(text.last()) {
        let rest = text.drop_last();
        lemma_trimmed_end(rest);
        assert(end =~= text.take(end.len() as int));
        assert forall|k: int| end.len() <= k < text.len() implies is_space(#[trigger] text[k]) by {
            if k < rest.len() {
                assert(rest[k] == text[k]);
            }
        }
    } else {
        assert(text.take(text.len() as int) =~= text);
    }
}

/// Parts are joined in order with one separator between neighbours: two lists of parts are joined as
/// their joins are.
pub proof fn lemma_joins_are_joined(
    one: Seq<Seq<char>>,
    other: Seq<Seq<char>>,
    separator: Seq<char>,
)
    requires
        one.len() > 0,
        other.len() > 0,
    ensures
        joined(one + other, separator) == joined(one, separator) + separator + joined(
            other,
            separator,
        ),
        one.len() == 1 ==> joined(one, separator) == one[0],
    decreases other.len(),
{
    let whole = one + other;
    assert(whole.last() == other.last());
    assert(whole.drop_last() =~= one + other.drop_last());
    if other.len() == 1 {
        assert(whole.drop_last() =~= one);
    } else {
        lemma_joins_are_joined(one, other.drop_last(), separator);
        assert(joined(whole, separator) =~= joined(one, separator) + separator + joined(
            other,
            separator,
        ));
    }
}

/// Texts are ordered by the first place at which they differ, and a text comes before whatever goes
/// on behind it.
pub proof fn lemma_first_difference_decides(
    common: Seq<char>,
    one: char,
    other: char,
    left: Seq<char>,
    right: Seq<char>,
)
    ensures
        one != other ==> (before(common + seq![one] + left, common + seq![other] + right) <==> one
            < other),
        before(common, common + seq![other] + right),
        !before(common, common),
        !before(common + seq![other] + right, common),
    decreases common.len(),
{
    let a = common + seq![one] + left;
    let b = common + seq![other] + right;
    if common.len() > 0 {
        lemma_first_difference_decides(common.skip(1), one, other, left, right);
        assert(a.skip(1) =~= common.skip(1) + seq![one] + left);
        assert(b.skip(1) =~= common.skip(1) + seq![other] + right);
        assert(a[0] == common[0] && b[0] == common[0]);
    } else {
        assert(a[0] == one && b[0] == other);
    }
}

/// Replacing one sign by another leaves none of the first, and every other sign where it was.
pub proof fn lemma_every_sign_is_replaced(text: Seq<char>, from: char, to: char)
    ensures
        with_replaced(text, from, to).len() == text.len(),
        forall|k: int|
            0 <= k < text.len() ==> (text[k] == from ==> #[trigger] with_replaced(
                text,
                from,
                to,
            )[k] == to) && (text[k] != from ==> with_replaced(text, from, to)[k] == text[k]),
        from != to ==> !with_replaced(text, from, to).contains(from),
{
    let changed = with_replaced(text, from, to);
    if from != to && changed.contains(from) {
        let k = choose|k: int| 0 <= k < changed.len() && changed[k] == from;
        assert(text[k] == from || text[k] != from);
    }
}

/// A text that goes on from one part to the next contains each of them.
pub proof fn lemma_contains_its_parts(
    first: Seq<char>,
    one: Seq<char>,
    second: Seq<char>,
    other: Seq<char>,
    third: Seq<char>,
)
    ensures
        contains(first + one + second + other + third, one),
        contains(first + one + second + other + third, other),
{
    let whole = first + one + second + other + third;
    lemma_contains_what_stands_in_it(one, one, first, second + other + third);
    assert(first + one + (second + other + third) =~= whole);
    lemma_contains_what_stands_in_it(other, other, first + one + second, third);
    assert((first + one + second) + other + third =~= whole);
}

/// What is joined contains every part.
pub proof fn lemma_joined_contains_its_parts(
    parts: Seq<Seq<char>>,
    separator: Seq<char>,
    at: int,
)
    requires
        0 <= at < parts.len(),
    ensures
        contains(joined(parts, separator), parts[at]),
    decreases parts.len(),
{
    let whole = joined(parts, separator);
    if parts.len() == 1 {
        lemma_contains_what_stands_in_it(parts[0], parts[0], Seq::empty(), Seq::empty());
        assert(Seq::empty() + parts[0] + Seq::empty() =~= whole);
    } else if at == parts.len() - 1 {
        let front = joined(parts.drop_last(), separator) + separator;
        lemma_contains_what_stands_in_it(parts[at], parts[at], front, Seq::empty());
        assert(front + parts[at] + Seq::empty() =~= whole);
    } else {
        let front = joined(parts.drop_last(), separator);
        lemma_joined_contains_its_parts(parts.drop_last(), separator, at);
        lemma_contains_what_stands_in_it(
            front,
            parts[at],
            Seq::empty(),
            separator + parts.last(),
        );
        assert(Seq::empty() + front + (separator + parts.last()) =~= whole);
    }
}

/// A text without a line end is one line as it stands, and an empty one has none.
pub proof fn lemma_last_line_needs_no_end(text: Seq<char>)
    requires
        !text.contains('\n'),
    ensures
        text.len() > 0 ==> lines_of(text) == seq![text],
        text.len() == 0 ==> lines_of(text).len() == 0,
{
    lemma_no_index(text);
}

proof fn lemma_no_index(text: Seq<char>)
    requires
        !text.contains('\n'),
    ensures
        first_index(text, '\n') == text.len(),
    decreases text.len(),
{
    if text.len() > 0 {
        let rest = text.skip(1);
        assert(!rest.contains('\n')) by {
            if rest.contains('\n') {
                let k = choose|k: int| 0 <= k < rest.len() && rest[k] == '\n';
                assert(text[k + 1] == '\n');
            }
        }
        assert(text.contains(text[0]));
        lemma_no_index(rest);
    }
}

/// Which signs are white space, by their numbers.
pub proof fn lemma_white_space_by_number(c: char)
    ensures
        is_space(c) <==> {
            let number = c as u32;
            ||| 9 <= number <= 13
            ||| number == 32
            ||| number == 133
            ||| number == 160
            ||| number == 5760
            ||| 8192 <= number <= 8202
            ||| number == 8232
            ||| number == 8233
            ||| number == 8239
            ||| number == 8287
            ||| number == 12288
        },
{
}

/// Lists of texts are seen as they are, one for one.
pub proof fn lemma_texts_are_seen_one_for_one(list: Seq<String>, others: Seq<&str>)
    ensures
        views(list).len() == list.len(),
        forall|k: int| 0 <= k < list.len() ==> #[trigger] views(list)[k] == list[k]@,
        str_views(others).len() == others.len(),
        forall|k: int| 0 <= k < others.len() ==> #[trigger] str_views(others)[k] == others[k]@,
{
}

} // verus!
