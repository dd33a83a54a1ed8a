//! Is this still the same game it was? Record a trace, and hold it against a recorded copy.
//!
//! A golden trace compares against **what this world used to do**. The file is written once, on
//! request, reviewed as a diff and committed; from then on every run is a claim that nothing
//! changed.
//!
//! A [`HashTrace`] is written as text, one `tick value` per line with the value in hex, so the
//! diff of a re-recording reads as "tick 640 changed" in review. Any other [`Trace`] may be
//! written as bytes in hex, one line, by [`to_hex`] and [`from_hex`].

use vstd::prelude::*;
use vstd::string::*;
use vstd::utf8::encode_utf8;

use crate::number::{
    continued, decimal, decimal_of, digit_value, digits, digits_of, error_text, hex16, hex16_of,
    lemma_decimal_reads_back, lemma_hex16_reads_back, lemma_read_text_is_digits, number_in,
    pad_zeros, parse_number, zero_padded, NumberError,
};
use crate::text::{
    chars_of, contains, first_index, is_space, lemma_contains_its_parts, lemma_first_line, lines,
    lines_of, slice_of, trim, trimmed, trimmed_end, trimmed_start, views,
};

verus! {

// ---- traces ----------------------------------------------------------------------------------

/// Something that can be recorded, written to a file, read back, and compared sample by sample.
pub trait Trace: Sized {
    /// The file form.
    spec fn encoded(&self) -> Seq<char>;

    /// Whether `outcome` is what reading the file form `text` gives.
    spec fn is_decoding(text: Seq<char>, outcome: Result<Self, String>) -> bool;

    /// The first place the two disagree, described for a person.
    spec fn difference(&self, other: &Self) -> Option<Seq<char>>;

    /// The first place `self` and `other` disagree, described for a person: which tick, and
    /// what each side has there. `None` when they agree.
    fn first_difference(&self, other: &Self) -> (difference: Option<String>)
        ensures
            match difference {
                Some(text) => self.difference(other) == Some(text@),
                None => self.difference(other) is None,
            },
    ;

    /// The file form.
    fn encode(&self) -> (text: String)
        ensures
            text@ == self.encoded(),
    ;

    /// The inverse of [`encode`](Self::encode). `Err` describes what was wrong with the text.
    fn decode(text: &str) -> (outcome: Result<Self, String>)
        ensures
            Self::is_decoding(text@, outcome),
    ;
}

/// `(tick, hash)` samples in tick order.
#[derive(Clone, Debug, Default, PartialEq, Eq)]
pub struct HashTrace {
    pub samples: Vec<(u64, u64)>,
}

/// The first place at or after `from` where the lists differ or one of them ends.
pub open spec fn first_mismatch(
    left: Seq<(u64, u64)>,
    right: Seq<(u64, u64)>,
    from: int,
) -> int
    decreases left.len() - from,
{
    if from < 0 || from >= left.len() || from >= right.len() || left[from] != right[from] {
        from
    } else {
        first_mismatch(left, right, from + 1)
    }
}

/// The first sample whose tick or hash differs, or the point where one trace ends and the other
/// does not, in words.
pub open spec fn mismatch_text(left: Seq<(u64, u64)>, right: Seq<(u64, u64)>) -> Option<Seq<char>> {
    let at = first_mismatch(left, right, 0);
    if at < left.len() && at < right.len() {
        if left[at].0 == right[at].0 {
            Some(
                "tick "@ + decimal(left[at].0 as nat) + ": this trace has "@ + hex16(
                    left[at].1 as nat,
                ) + ", the other has "@ + hex16(right[at].1 as nat),
            )
        } else {
            Some(
                "sample "@ + decimal(at as nat) + ": this trace sampled tick "@ + decimal(
                    left[at].0 as nat,
                ) + ", the other sampled tick "@ + decimal(right[at].0 as nat)
                    + "; the traces were not recorded on the same schedule"@,
            )
        }
    } else if at < left.len() {
        Some(
            "tick "@ + decimal(left[at].0 as nat) + ": this trace continues ("@ + decimal(
                left.len(),
            ) + " samples) where the other ends ("@ + decimal(right.len()) + " samples)"@,
        )
    } else if at < right.len() {
        Some(
            "tick "@ + decimal(right[at].0 as nat) + ": the other trace continues ("@ + decimal(
                right.len(),
            ) + " samples) where this one ends ("@ + decimal(left.len()) + " samples)"@,
        )
    } else {
        None
    }
}

/// One sample as a line of text, without its line end.
pub open spec fn sample_text(sample: (u64, u64)) -> Seq<char> {
    decimal(sample.0 as nat) + seq![' '] + hex16(sample.1 as nat)
}

/// Samples as text, one per line.
pub open spec fn samples_text(samples: Seq<(u64, u64)>) -> Seq<char>
    decreases samples.len(),
{
    if samples.len() == 0 {
        Seq::empty()
    } else {
        sample_text(samples[0]) + seq!['\n'] + samples_text(samples.skip(1))
    }
}

/// `text` without every `0x` that it starts with.
pub open spec fn without_prefixes(text: Seq<char>) -> Seq<char>
    decreases text.len(),
{
    if text.len() >= 2 && text[0] == '0' && text[1] == 'x' {
        without_prefixes(text.skip(2))
    } else {
        text
    }
}

/// The sample that `line`, without white space at its ends, writes; `number` is its line number.
pub open spec fn sample_in(line: Seq<char>, number: nat) -> Result<(u64, u64), Seq<char>> {
    let space = first_index(line, ' ');
    if space >= line.len() {
        Err("line "@ + decimal(number) + ": expected `tick hash`, got `"@ + line + "`"@)
    } else {
        let tick = line.take(space as int);
        let hash = line.skip(space as int + 1);
        match number_in(tick, 10, u64::MAX as nat) {
            Err(error) => Err(
                "line "@ + decimal(number) + ": bad tick `"@ + tick + "`: "@ + error_text(error),
            ),
            Ok(at) => match number_in(without_prefixes(hash), 16, u64::MAX as nat) {
                Err(error) => Err(
                    "line "@ + decimal(number) + ": bad hash `"@ + hash + "`: "@ + error_text(
                        error,
                    ),
                ),
                Ok(value) => Ok((at as u64, value as u64)),
            },
        }
    }
}

/// The samples that `list` writes, from line `from` on; the first line that writes none and is not
/// blank decides the error.
pub open spec fn samples_in(list: Seq<Seq<char>>, from: nat) -> Result<Seq<(u64, u64)>, Seq<char>>
    decreases list.len() - from,
{
    if from >= list.len() {
        Ok(Seq::empty())
    } else {
        let line = trimmed(list[from as int]);
        if line.len() == 0 {
            samples_in(list, from + 1)
        } else {
            match sample_in(line, from + 1) {
                Err(error) => Err(error),
                Ok(sample) => match samples_in(list, from + 1) {
                    Err(error) => Err(error),
                    Ok(rest) => Ok(seq![sample] + rest),
                },
            }
        }
    }
}

/// The position of the first space, or the length of `chars`.
fn find_space(chars: &Vec<char>) -> (at: usize)
    ensures
        at == first_index(chars@, ' '),
        at <= chars@.len(),
{
    let mut at: usize = 0;
    assert(chars@.skip(0) =~= chars@);
    while at < chars.len()
        invariant
            at <= chars@.len(),
            first_index(chars@, ' ') == at + first_index(chars@.skip(at as int), ' '),
        decreases chars@.len() - at,
    {
        assert(chars@.skip(at as int)[0] == chars@[at as int]);
        if chars[at] == ' ' {
            return at;
        }
        assert(chars@.skip(at as int).skip(1) =~= chars@.skip(at as int + 1));
        at = at + 1;
    }
    assert(chars@.skip(at as int).len() == 0);
    at
}

/// `text` from `from` on, without every `0x` that it starts with.
fn strip_prefixes(chars: &Vec<char>, from: usize) -> (text: String)
    requires
        from <= chars@.len(),
    ensures
        text@ == without_prefixes(chars@.skip(from as int)),
{
    let mut at: usize = from;
    let total: usize = chars.len();
    while total - at >= 2 && chars[at] == '0' && chars[at + 1] == 'x'
        invariant
            from <= at <= total == chars@.len(),
            without_prefixes(chars@.skip(from as int)) == without_prefixes(chars@.skip(at as int)),
        decreases total - at,
    {
        assert(chars@.skip(at as int)[0] == chars@[at as int]);
        assert(chars@.skip(at as int)[1] == chars@[at + 1]);
        assert(chars@.skip(at as int).skip(2) =~= chars@.skip(at + 2));
        at = at + 2;
    }
    let ghost rest = chars@.skip(at as int);
    assert(rest.len() >= 2 ==> rest[0] == chars@[at as int] && rest[1] == chars@[at + 1]);
    assert(chars@.subrange(at as int, total as int) =~= rest);
    slice_of(chars, at, total)
}

/// The sample that `line` writes, or what is wrong with it.
fn read_sample(line: &str, number: usize) -> (outcome: Result<(u64, u64), String>)
    ensures
        match outcome {
            Ok(sample) => sample_in(line@, number as nat) == Ok::<(u64, u64), Seq<char>>(sample),
            Err(error) => sample_in(line@, number as nat) == Err::<(u64, u64), Seq<char>>(error@),
        },
{
    let chars = chars_of(line);
    let space: usize = find_space(&chars);
    let mut complaint = String::from_str("line ");
    complaint.append(decimal_of(number as u64).as_str());
    if space >= chars.len() {
        complaint.append(": expected `tick hash`, got `");
        complaint.append(line);
        complaint.append("`");
        return Err(complaint);
    }
    let tick = slice_of(&chars, 0, space);
    let hash = slice_of(&chars, space + 1, chars.len());
    assert(tick@ =~= line@.take(space as int));
    assert(hash@ =~= line@.skip(space as int + 1));
    match parse_number(tick.as_str(), 10, 0xffff_ffff_ffff_ffff) {
        Err(error) => {
            complaint.append(": bad tick `");
            complaint.append(tick.as_str());
            complaint.append("`: ");
            complaint.append(error.words());
            Err(complaint)
        },
        Ok(at) => {
            let bare = strip_prefixes(&chars, space + 1);
            match parse_number(bare.as_str(), 16, 0xffff_ffff_ffff_ffff) {
                Err(error) => {
                    complaint.append(": bad hash `");
                    complaint.append(hash.as_str());
                    complaint.append("`: ");
                    complaint.append(error.words());
                    Err(complaint)
                },
                Ok(value) => Ok((at, value)),
            }
        },
    }
}

impl Trace for HashTrace {
    open spec fn encoded(&self) -> Seq<char> {
        samples_text(self.samples@)
    }

    open spec fn is_decoding(text: Seq<char>, outcome: Result<Self, String>) -> bool {
        match outcome {
            Ok(trace) => samples_in(lines_of(text), 0) == Ok::<Seq<(u64, u64)>, Seq<char>>(
                trace.samples@,
            ),
            Err(error) => samples_in(lines_of(text), 0) == Err::<Seq<(u64, u64)>, Seq<char>>(
                error@,
            ),
        }
    }

    open spec fn difference(&self, other: &Self) -> Option<Seq<char>> {
        mismatch_text(self.samples@, other.samples@)
    }

    /// The first sample whose tick or hash differs, or the point where one trace ends and the
    /// other does not.
    fn first_difference(&self, other: &Self) -> (difference: Option<String>) {
        let ghost left = self.samples@;
        let ghost right = other.samples@;
        let mut index: usize = 0;
        while index < self.samples.len() && index < other.samples.len() && self.samples[index].0
            == other.samples[index].0 && self.samples[index].1 == other.samples[index].1
            invariant
                left == self.samples@,
                right == other.samples@,
                index <= left.len(),
                index <= right.len(),
                first_mismatch(left, right, 0) == first_mismatch(left, right, index as int),
            decreases left.len() - index,
        {
            index = index + 1;
        }
        let mut text = String::new();
        if index < self.samples.len() {
            let mine = self.samples[index];
            if index < other.samples.len() {
                let theirs = other.samples[index];
                if mine.0 == theirs.0 {
                    text.append("tick ");
                    text.append(decimal_of(mine.0).as_str());
                    text.append(": this trace has ");
                    text.append(hex16_of(mine.1).as_str());
                    text.append(", the other has ");
                    text.append(hex16_of(theirs.1).as_str());
                } else {
                    text.append("sample ");
                    text.append(decimal_of(index as u64).as_str());
                    text.append(": this trace sampled tick ");
                    text.append(decimal_of(mine.0).as_str());
                    text.append(", the other sampled tick ");
                    text.append(decimal_of(theirs.0).as_str());
                    text.append("; the traces were not recorded on the same schedule");
                }
            } else {
                text.append("tick ");
                text.append(decimal_of(mine.0).as_str());
                text.append(": this trace continues (");
                text.append(decimal_of(self.samples.len() as u64).as_str());
                text.append(" samples) where the other ends (");
                text.append(decimal_of(other.samples.len() as u64).as_str());
                text.append(" samples)");
            }
        } else if index < other.samples.len() {
            text.append("tick ");
            text.append(decimal_of(other.samples[index].0).as_str());
            text.append(": the other trace continues (");
            text.append(decimal_of(other.samples.len() as u64).as_str());
            text.append(" samples) where this one ends (");
            text.append(decimal_of(self.samples.len() as u64).as_str());
            text.append(" samples)");
        } else {
            return None;
        }
        assert(Some(text@) == mismatch_text(left, right));
        Some(text)
    }

    fn encode(&self) -> (text: String) {
        let mut text = String::new();
        let mut index: usize = 0;
        let ghost all = self.samples@;
        assert(all.skip(0) =~= all);
        while index < self.samples.len()
            invariant
                all == self.samples@,
                index <= all.len(),
                samples_text(all) == text@ + samples_text(all.skip(index as int)),
            decreases all.len() - index,
        {
            let ghost had = text@;
            let ghost rest = all.skip(index as int);
            let sample = self.samples[index];
            assert(rest[0] == sample);
            assert(rest.skip(1) =~= all.skip(index as int + 1));
            text.append(decimal_of(sample.0).as_str());
            text.push(' ');
            text.append(hex16_of(sample.1).as_str());
            text.push('\n');
            index = index + 1;
            assert(text@ =~= had + (sample_text(sample) + seq!['\n']));
            assert(text@ + samples_text(rest.skip(1)) =~= had + samples_text(rest));
        }
        assert(all.skip(index as int).len() == 0);
        assert(text@ + samples_text(all.skip(index as int)) =~= text@);
        text
    }

    fn decode(text: &str) -> (outcome: Result<Self, String>) {
        let list = lines(text);
        let ghost all = lines_of(text@);
        let mut samples: Vec<(u64, u64)> = Vec::new();
        let mut index: usize = 0;
        let total: usize = list.len();
        assert(all.len() == total);
        let ghost whole = samples_in(all, 0);
        while index < total
            invariant
                index <= total == list@.len(),
                views(list@) == all,
                all == lines_of(text@),
                whole == samples_in(all, 0),
                match samples_in(all, index as nat) {
                    Ok(rest) => whole == Ok::<Seq<(u64, u64)>, Seq<char>>(samples@ + rest),
                    Err(error) => whole == Err::<Seq<(u64, u64)>, Seq<char>>(error),
                },
            decreases total - index,
        {
            assert(all[index as int] == list@[index as int]@);
            let line = trim(list[index].as_str());
            let empty = chars_of(line.as_str()).len() == 0;
            if !empty {
                match read_sample(line.as_str(), index + 1) {
                    Err(error) => {
                        return Err(error);
                    },
                    Ok(sample) => {
                        proof {
                            if let Ok(rest) = samples_in(all, (index + 1) as nat) {
                                assert(samples@ + (seq![sample] + rest) =~= samples@.push(sample)
                                    + rest);
                            }
                        }
                        samples.push(sample);
                    },
                }
            }
            index = index + 1;
        }
        assert(samples@ + Seq::<(u64, u64)>::empty() =~= samples@);
        Ok(HashTrace { samples })
    }
}

/// Two traces agree exactly when their samples are the same.
pub proof fn lemma_no_difference_means_same(left: Seq<(u64, u64)>, right: Seq<(u64, u64)>)
    ensures
        mismatch_text(left, right) is None <==> left == right,
{
    lemma_first_mismatch(left, right, 0);
    let at = first_mismatch(left, right, 0);
    if at >= left.len() && at >= right.len() {
        assert(left =~= right);
    }
}

proof fn lemma_first_mismatch(left: Seq<(u64, u64)>, right: Seq<(u64, u64)>, from: int)
    requires
        0 <= from <= left.len(),
        from <= right.len(),
    ensures
        from <= first_mismatch(left, right, from) <= left.len(),
        first_mismatch(left, right, from) <= right.len(),
        forall|k: int| from <= k < first_mismatch(left, right, from) ==> left[k] == right[k],
        ({
            let at = first_mismatch(left, right, from);
            at < left.len() && at < right.len() ==> left[at] != right[at]
        }),
    decreases left.len() - from,
{
    if from < left.len() && from < right.len() && left[from] == right[from] {
        lemma_first_mismatch(left, right, from + 1);
    }
}

/// The first sample that differs is the one a difference speaks of: all before it are the same.
pub proof fn lemma_difference_is_the_first(left: Seq<(u64, u64)>, right: Seq<(u64, u64)>)
    ensures
        ({
            let at = first_mismatch(left, right, 0);
            &&& 0 <= at <= left.len()
            &&& at <= right.len()
            &&& left.take(at) == right.take(at)
            &&& at < left.len() && at < right.len() ==> left[at] != right[at]
        }),
{
    lemma_first_mismatch(left, right, 0);
    let at = first_mismatch(left, right, 0);
    assert(left.take(at) =~= right.take(at));
}

proof fn lemma_first_space(head: Seq<char>, tail: Seq<char>)
    requires
        forall|k: int| 0 <= k < head.len() ==> !is_space(#[trigger] head[k]),
    ensures
        first_index(head + seq![' '] + tail, ' ') == head.len(),
    decreases head.len(),
{
    let whole = head + seq![' '] + tail;
    if head.len() == 0 {
        assert(whole[0] == ' ');
    } else {
        assert(whole[0] == head[0]);
        assert(whole.skip(1) =~= head.skip(1) + seq![' '] + tail);
        lemma_first_space(head.skip(1), tail);
    }
}

/// A sample reads back from its line of text.
proof fn lemma_sample_reads_back(sample: (u64, u64), number: nat)
    ensures
        ({
            let line = sample_text(sample);
            &&& sample_in(line, number) == Ok::<(u64, u64), Seq<char>>(sample)
            &&& trimmed(line) == line
            &&& line.len() > 0
            &&& !line.contains('\n')
            &&& line.last() != '\r'
        }),
{
    let tick = decimal(sample.0 as nat);
    let bare = zero_padded(digits(sample.1 as nat, 16), 16);
    let hash = hex16(sample.1 as nat);
    let line = sample_text(sample);
    lemma_decimal_reads_back(sample.0 as nat, u64::MAX as nat);
    lemma_hex16_reads_back(sample.1 as nat);
    lemma_read_text_is_digits(0, bare, 16, u64::MAX as nat);
    lemma_first_space(tick, hash);
    assert(line =~= tick + seq![' '] + hash);
    assert(line.take(tick.len() as int) =~= tick);
    assert(line.skip(tick.len() as int + 1) =~= hash);
    assert(hash.skip(2) =~= bare);
    assert(bare.len() >= 2 ==> bare[1] != 'x') by {
        if bare.len() >= 2 {
            assert(digit_value(bare[1], 16) is Some);
        }
    }
    assert(without_prefixes(bare) == bare);
    assert(without_prefixes(hash) == bare);
    assert(line[0] == tick[0]);
    assert(line.last() == bare.last());
    assert(!is_space(bare[bare.len() - 1]));
    assert(trimmed_start(line) == line);
    assert(trimmed_end(line) == line);
    assert forall|k: int| 0 <= k < line.len() implies line[k] != '\n' by {
        if k < tick.len() {
            assert(line[k] == tick[k]);
        } else if k > tick.len() + 2 {
            assert(line[k] == bare[k - tick.len() - 3]);
        }
    }
}

proof fn lemma_samples_read_back(samples: Seq<(u64, u64)>, list: Seq<Seq<char>>, from: nat)
    requires
        from + samples.len() == list.len(),
        forall|k: int|
            0 <= k < samples.len() ==> #[trigger] list[from + k] == sample_text(samples[k]),
    ensures
        samples_in(list, from) == Ok::<Seq<(u64, u64)>, Seq<char>>(samples),
    decreases samples.len(),
{
    if samples.len() > 0 {
        assert(list[from as int + 0] == sample_text(samples[0]));
        lemma_sample_reads_back(samples[0], from + 1);
        let rest = samples.skip(1);
        assert forall|k: int| 0 <= k < rest.len() implies #[trigger] list[from + 1 + k]
            == sample_text(rest[k]) by {
            assert(list[from + (k + 1)] == sample_text(samples[k + 1]));
        }
        lemma_samples_read_back(rest, list, from + 1);
        assert(seq![samples[0]] + rest =~= samples);
    } else {
        assert(samples =~= Seq::empty());
    }
}

proof fn lemma_lines_of_samples(samples: Seq<(u64, u64)>)
    ensures
        lines_of(samples_text(samples)) == samples.map_values(|s: (u64, u64)| sample_text(s)),
    decreases samples.len(),
{
    let wanted = samples.map_values(|s: (u64, u64)| sample_text(s));
    if samples.len() > 0 {
        let rest = samples.skip(1);
        lemma_sample_reads_back(samples[0], 1);
        lemma_first_line(sample_text(samples[0]), samples_text(rest));
        lemma_lines_of_samples(rest);
        assert(seq![sample_text(samples[0])] + rest.map_values(|s: (u64, u64)| sample_text(s))
            =~= wanted);
    } else {
        assert(lines_of(samples_text(samples)) =~= wanted);
    }
}

/// A trace reads back from its file form.
pub proof fn lemma_trace_round_trips(samples: Seq<(u64, u64)>)
    ensures
        samples_in(lines_of(samples_text(samples)), 0) == Ok::<Seq<(u64, u64)>, Seq<char>>(samples),
{
    lemma_lines_of_samples(samples);
    lemma_samples_read_back(samples, lines_of(samples_text(samples)), 0);
}

// ---- bytes in hex ----------------------------------------------------------------------------

/// A byte as two hexadecimal digits.
pub open spec fn byte_text(byte: u8) -> Seq<char> {
    zero_padded(digits(byte as nat, 16), 2)
}

/// Bytes as hexadecimal digits, two for each.
pub open spec fn bytes_text(bytes: Seq<u8>) -> Seq<char>
    decreases bytes.len(),
{
    if bytes.len() == 0 {
        Seq::empty()
    } else {
        byte_text(bytes[0]) + bytes_text(bytes.skip(1))
    }
}

/// Bytes as one line of lowercase hex.
pub fn to_hex(bytes: &Vec<u8>) -> (text: String)
    ensures
        text@ == bytes_text(bytes@) + seq!['\n'],
{
    let mut text = String::new();
    let mut index: usize = 0;
    assert(bytes@.skip(0) =~= bytes@);
    while index < bytes.len()
        invariant
            index <= bytes@.len(),
            bytes_text(bytes@) == text@ + bytes_text(bytes@.skip(index as int)),
        decreases bytes@.len() - index,
    {
        let ghost had = text@;
        let ghost rest = bytes@.skip(index as int);
        assert(rest[0] == bytes@[index as int]);
        assert(rest.skip(1) =~= bytes@.skip(index as int + 1));
        text.append(pad_zeros(digits_of(bytes[index] as u128, 16).as_str(), 2).as_str());
        index = index + 1;
        assert(text@ + bytes_text(rest.skip(1)) =~= had + bytes_text(rest));
    }
    assert(bytes@.skip(index as int).len() == 0);
    assert(text@ =~= bytes_text(bytes@));
    text.push('\n');
    text
}

/// The character whose code is `byte`.
pub open spec fn byte_char(byte: u8) -> char {
    byte as char
}

/// The bytes that the digits `digits` write, two for each, from byte `from` on; the first pair
/// that writes none decides the error.
pub open spec fn bytes_from(pairs: Seq<u8>, from: nat) -> Result<Seq<u8>, Seq<char>>
    decreases pairs.len() - from,
{
    if from + 1 >= pairs.len() {
        Ok(Seq::empty())
    } else {
        let pair = seq![byte_char(pairs[from as int]), byte_char(pairs[from as int + 1])];
        match number_in(pair, 16, 255) {
            Err(error) => Err(
                "bad hex at byte "@ + decimal((from / 2) as nat) + ": "@ + error_text(error),
            ),
            Ok(value) => match bytes_from(pairs, from + 2) {
                Err(error) => Err(error),
                Ok(rest) => Ok(seq![value as u8] + rest),
            },
        }
    }
}

/// The bytes that `text` writes in hex.
pub open spec fn bytes_in(text: Seq<char>) -> Result<Seq<u8>, Seq<char>> {
    let pairs = encode_utf8(text);
    if pairs.len() % 2 != 0 {
        Err("odd number of hex digits"@)
    } else {
        bytes_from(pairs, 0)
    }
}

/// The bytes that `text` writes in hex. `Err` describes what is wrong with the text.
pub fn from_hex(text: &str) -> (outcome: Result<Vec<u8>, String>)
    ensures
        match outcome {
            Ok(bytes) => bytes_in(text@) == Ok::<Seq<u8>, Seq<char>>(bytes@),
            Err(error) => bytes_in(text@) == Err::<Seq<u8>, Seq<char>>(error@),
        },
{
    let pairs = text.as_bytes();
    let total: usize = pairs.len();
    if total % 2 != 0 {
        return Err(String::from_str("odd number of hex digits"));
    }
    let mut bytes: Vec<u8> = Vec::new();
    let mut index: usize = 0;
    let ghost all = pairs@;
    let ghost whole = bytes_from(all, 0);
    while index < total
        invariant
            index <= total == pairs@.len(),
            all == pairs@,
            all == encode_utf8(text@),
            total % 2 == 0,
            index % 2 == 0,
            whole == bytes_from(all, 0),
            match bytes_from(all, index as nat) {
                Ok(rest) => whole == Ok::<Seq<u8>, Seq<char>>(bytes@ + rest),
                Err(error) => whole == Err::<Seq<u8>, Seq<char>>(error),
            },
        decreases total - index,
    {
        let mut pair = String::new();
        pair.push(pairs[index] as char);
        pair.push(pairs[index + 1] as char);
        assert(pair@ =~= seq![byte_char(all[index as int]), byte_char(all[index + 1])]);
        match parse_number(pair.as_str(), 16, 255) {
            Err(error) => {
                let mut complaint = String::from_str("bad hex at byte ");
                complaint.append(decimal_of((index / 2) as u64).as_str());
                complaint.append(": ");
                complaint.append(error.words());
                return Err(complaint);
            },
            Ok(value) => {
                proof {
                    if let Ok(rest) = bytes_from(all, (index + 2) as nat) {
                        assert(bytes@ + (seq![value as u8] + rest) =~= bytes@.push(value as u8)
                            + rest);
                    }
                }
                bytes.push(value as u8);
            },
        }
        index = index + 2;
    }
    assert(bytes@ + Seq::<u8>::empty() =~= bytes@);
    Ok(bytes)
}

/// A byte reads back from its two digits, which are plain ASCII.
proof fn lemma_byte_reads_back(byte: u8)
    ensures
        byte_text(byte).len() == 2,
        number_in(byte_text(byte), 16, 255) == Ok::<nat, NumberError>(byte as nat),
        forall|k: int|
            0 <= k < 2 ==> {
                &&& '\0' <= #[trigger] byte_text(byte)[k] <= '\u{7f}'
                &&& !is_space(byte_text(byte)[k])
            },
{
    let value = byte as nat;
    let high = value / 16;
    let low = value % 16;
    reveal_with_fuel(digits, 2);
    reveal_with_fuel(zero_padded, 2);
    reveal_with_fuel(continued, 3);
    let text = byte_text(byte);
    assert(text =~= seq![crate::number::digit(high), crate::number::digit(low)]);
    assert(digit_value(text[0], 16) == Some(high));
    assert(digit_value(text[1], 16) == Some(low));
    assert(text.skip(1)[0] == text[1]);
    assert(text[0] != '+');
    assert(continued(high, text.skip(1), 16, 255) == Ok::<nat, NumberError>(value)) by {
        assert(text.skip(1).skip(1).len() == 0);
    }
}

proof fn lemma_bytes_text(bytes: Seq<u8>)
    ensures
        bytes_text(bytes).len() == 2 * bytes.len(),
        forall|k: int|
            0 <= k < bytes.len() ==> {
                &&& bytes_text(bytes)[2 * k] == (#[trigger] byte_text(bytes[k]))[0]
                &&& bytes_text(bytes)[2 * k + 1] == byte_text(bytes[k])[1]
            },
    decreases bytes.len(),
{
    if bytes.len() > 0 {
        let first = byte_text(bytes[0]);
        let rest = bytes.skip(1);
        let text = bytes_text(bytes);
        lemma_byte_reads_back(bytes[0]);
        lemma_bytes_text(rest);
        assert forall|k: int| 0 <= k < bytes.len() implies {
            &&& text[2 * k] == (#[trigger] byte_text(bytes[k]))[0]
            &&& text[2 * k + 1] == byte_text(bytes[k])[1]
        } by {
            if k > 0 {
                assert(bytes[k] == rest[k - 1]);
                assert(byte_text(rest[k - 1]) == byte_text(bytes[k]));
                assert(text[2 * k] == bytes_text(rest)[2 * (k - 1)]);
                assert(text[2 * k + 1] == bytes_text(rest)[2 * (k - 1) + 1]);
            }
        }
    }
}

proof fn lemma_bytes_from(bytes: Seq<u8>, pairs: Seq<u8>, from: nat)
    requires
        pairs.len() == 2 * bytes.len(),
        from <= bytes.len(),
        forall|k: int|
            0 <= k < bytes.len() ==> {
                &&& byte_char(pairs[2 * k]) == (#[trigger] byte_text(bytes[k]))[0]
                &&& byte_char(pairs[2 * k + 1]) == byte_text(bytes[k])[1]
            },
    ensures
        bytes_from(pairs, 2 * from) == Ok::<Seq<u8>, Seq<char>>(bytes.skip(from as int)),
    decreases bytes.len() - from,
{
    if from < bytes.len() {
        let byte = bytes[from as int];
        lemma_byte_reads_back(byte);
        lemma_bytes_from(bytes, pairs, from + 1);
        let pair = seq![byte_char(pairs[2 * from as int]), byte_char(pairs[2 * from as int + 1])];
        assert(pair =~= byte_text(byte));
        assert(2 * (from + 1) == 2 * from + 2);
        assert(seq![byte] + bytes.skip(from as int + 1) =~= bytes.skip(from as int));
    } else {
        assert(bytes.skip(from as int) =~= Seq::empty());
    }
}

/// Bytes read back from their line of hex, once the white space around it is gone.
pub proof fn lemma_hex_round_trips(bytes: Seq<u8>)
    ensures
        bytes_in(trimmed(bytes_text(bytes) + seq!['\n'])) == Ok::<Seq<u8>, Seq<char>>(bytes),
{
    let text = bytes_text(bytes);
    let line = text + seq!['\n'];
    lemma_bytes_text(bytes);
    assert forall|k: int| 0 <= k < text.len() implies '\0' <= #[trigger] text[k] <= '\u{7f}'
        && !is_space(text[k]) by {
        let at = k / 2;
        lemma_byte_reads_back(bytes[at]);
        assert(text[2 * at] == byte_text(bytes[at])[0]);
        assert(text[2 * at + 1] == byte_text(bytes[at])[1]);
        assert(k == 2 * at || k == 2 * at + 1);
    }
    assert(trimmed(line) == text) by {
        reveal_with_fuel(trimmed_end, 2);
        reveal_with_fuel(trimmed_start, 2);
        assert(line.drop_last() =~= text);
        if text.len() > 0 {
            assert(line[0] == text[0]);
            assert(!is_space(text[text.len() - 1]));
        } else {
            assert(line.skip(1) =~= text);
            assert(text =~= Seq::<char>::empty());
        }
    }
    vstd::utf8::is_ascii_chars_encode_utf8(text);
    let pairs = encode_utf8(text);
    assert forall|k: int| 0 <= k < bytes.len() implies {
        &&& byte_char(pairs[2 * k]) == (#[trigger] byte_text(bytes[k]))[0]
        &&& byte_char(pairs[2 * k + 1]) == byte_text(bytes[k])[1]
    } by {
        assert(text[2 * k] as u8 == pairs[2 * k]);
        assert(text[2 * k + 1] as u8 == pairs[2 * k + 1]);
        assert('\0' <= text[2 * k] <= '\u{7f}');
        assert('\0' <= text[2 * k + 1] <= '\u{7f}');
    }
    lemma_bytes_from(bytes, pairs, 0);
    assert(bytes.skip(0) =~= bytes);
}

// ---- recording -------------------------------------------------------------------------------

/// Whether a trace that samples every `every`th frame samples frame `frame`.
pub fn is_sampled(frame: u64, every: u64) -> (sampled: bool)
    requires
        every > 0,
    ensures
        sampled == (frame as int % every as int == 0),
{
    frame % every == 0
}

/// The sample of the `at`th sampled frame, counted from zero: labelled with the tick that the
/// frame left, or with the number of the frame where there is no tick.
pub open spec fn sample_of(reading: (Option<u64>, u64), at: int, every: int) -> (u64, u64) {
    match reading.0 {
        Some(tick) => (tick, reading.1),
        None => (((at + 1) * every) as u64, reading.1),
    }
}

/// The trace of `ticks` frames, sampled after every `every`th one. `readings` holds, for each
/// sampled frame, the tick it left, where there is one, and the hash.
pub fn record_trace(ticks: u64, every: u64, readings: &Vec<(Option<u64>, u64)>) -> (trace:
    HashTrace)
    requires
        every > 0,
        readings@.len() == ticks as int / every as int,
    ensures
        trace.samples@.len() == readings@.len(),
        forall|k: int|
            0 <= k < readings@.len() ==> #[trigger] trace.samples@[k] == sample_of(
                readings@[k],
                k,
                every as int,
            ),
{
    let mut samples: Vec<(u64, u64)> = Vec::new();
    let mut index: usize = 0;
    let mut frame: u64 = 0;
    while index < readings.len()
        invariant
            index <= readings@.len(),
            every > 0,
            readings@.len() == ticks as int / every as int,
            frame == index * every,
            samples@.len() == index,
            forall|k: int|
                0 <= k < index ==> #[trigger] samples@[k] == sample_of(
                    readings@[k],
                    k,
                    every as int,
                ),
        decreases readings@.len() - index,
    {
        assert((index + 1) * every <= ticks && (index + 1) * every == index * every + every)
            by (nonlinear_arith)
            requires
                index + 1 <= ticks as int / every as int,
                every > 0,
        ;
        frame = frame + every;
        let reading = readings[index];
        match reading.0 {
            Some(tick) => {
                samples.push((tick, reading.1));
            },
            None => {
                samples.push((frame, reading.1));
            },
        }
        index = index + 1;
    }
    HashTrace { samples }
}

// ---- checking --------------------------------------------------------------------------------

/// What stands where a trace is recorded, or that it is to be recorded anew.
pub enum Fixture {
    Rerecord,
    Missing { error: String },
    Recorded { text: String },
}

/// What came of holding a trace against its recording.
pub enum GoldenOutcome {
    /// The recording is to be written.
    Write { text: String },
    /// The trace is the recorded one.
    Matches,
}

/// Why a trace is not the recorded one.
pub enum GoldenFailure {
    Missing { path: String, error: String },
    Unreadable { path: String, error: String },
    Different { path: String, difference: String },
}

/// A failure in words.
pub open spec fn golden_failure_text(failure: GoldenFailure) -> Seq<char> {
    match failure {
        GoldenFailure::Missing { path, error } => "no golden trace at `"@ + path@ + "` ("@ + error@
            + ").\nRecord one with:\n    UPDATE_GOLDEN=1 cargo test\nand commit it, having read it."@,
        GoldenFailure::Unreadable { path, error } => "the golden trace at `"@ + path@
            + "` could not be read: "@ + error@
            + "\nRe-record it with:\n    UPDATE_GOLDEN=1 cargo test"@,
        GoldenFailure::Different {
            path,
            difference,
        } => "the simulation no longer does what `"@ + path@ + "` recorded.\n\n  "@ + difference@
            + "\n\nIf that change is intended, re-record with:\n    UPDATE_GOLDEN=1 cargo test\nand read the diff to the fixture before committing it."@,
    }
}

impl GoldenFailure {
    /// The failure in words.
    pub fn message(&self) -> (text: String)
        ensures
            text@ == golden_failure_text(*self),
    {
        let mut text = String::new();
        match self {
            GoldenFailure::Missing { path, error } => {
                text.append("no golden trace at `");
                text.append(path.as_str());
                text.append("` (");
                text.append(error.as_str());
                text.append(
                    ").\nRecord one with:\n    UPDATE_GOLDEN=1 cargo test\nand commit it, having read it.",
                );
            },
            GoldenFailure::Unreadable { path, error } => {
                text.append("the golden trace at `");
                text.append(path.as_str());
                text.append("` could not be read: ");
                text.append(error.as_str());
                text.append("\nRe-record it with:\n    UPDATE_GOLDEN=1 cargo test");
            },
            GoldenFailure::Different { path, difference } => {
                text.append("the simulation no longer does what `");
                text.append(path.as_str());
                text.append("` recorded.\n\n  ");
                text.append(difference.as_str());
                text.append(
                    "\n\nIf that change is intended, re-record with:\n    UPDATE_GOLDEN=1 cargo test\nand read the diff to the fixture before committing it.",
                );
            },
        }
        assert(text@ =~= golden_failure_text(*self));
        text
    }
}

/// What is said when a trace has been recorded anew at `path`.
pub open spec fn rerecorded_text(path: Seq<char>) -> Seq<char> {
    "re-recorded `"@ + path + "` — review the diff before committing it"@
}

/// What is said when a trace has been recorded anew at `path`.
pub fn rerecorded_notice(path: &str) -> (text: String)
    ensures
        text@ == rerecorded_text(path@),
{
    let mut text = String::from_str("re-recorded `");
    text.append(path);
    text.append("` — review the diff before committing it");
    text
}

/// Whether `outcome` is what holding `actual` against `fixture` gives.
pub open spec fn is_golden_verdict<T: Trace>(
    path: Seq<char>,
    fixture: Fixture,
    actual: T,
    outcome: Result<GoldenOutcome, GoldenFailure>,
) -> bool {
    match fixture {
        Fixture::Rerecord => outcome matches Ok(GoldenOutcome::Write { text }) && text@
            == actual.encoded(),
        Fixture::Missing { error } => outcome matches Err(
            GoldenFailure::Missing { path: shown, error: why },
        ) && shown@ == path && why@ == error@,
        Fixture::Recorded { text } => {
            ||| exists|error: String|
                {
                    &&& #[trigger] T::is_decoding(text@, Err(error))
                    &&& outcome matches Err(GoldenFailure::Unreadable { path: shown, error: why })
                        && shown@ == path && why@ == error@
                }
            ||| exists|golden: T|
                {
                    &&& #[trigger] T::is_decoding(text@, Ok(golden))
                    &&& match actual.difference(&golden) {
                        None => outcome matches Ok(GoldenOutcome::Matches),
                        Some(words) => outcome matches Err(
                            GoldenFailure::Different { path: shown, difference },
                        ) && shown@ == path && difference@ == words,
                    }
                }
        },
    }
}

/// `actual` matches the trace recorded at `path`, or is to be recorded there.
///
/// Fails naming the first difference and the command to re-record with, or, when there is no
/// file yet, the command to record one. The diff to the fixture is the only review the new
/// behaviour gets.
pub fn check_golden<T: Trace>(path: &str, fixture: &Fixture, actual: &T) -> (outcome: Result<
    GoldenOutcome,
    GoldenFailure,
>)
    ensures
        is_golden_verdict(path@, *fixture, *actual, outcome),
{
    match fixture {
        Fixture::Rerecord => Ok(GoldenOutcome::Write { text: actual.encode() }),
        Fixture::Missing { error } => Err(
            GoldenFailure::Missing { path: String::from_str(path), error: error.clone() },
        ),
        Fixture::Recorded { text } => {
            match T::decode(text.as_str()) {
                Err(error) => {
                    assert(T::is_decoding(text@, Err(error)));
                    Err(GoldenFailure::Unreadable { path: String::from_str(path), error })
                },
                Ok(golden) => {
                    assert(T::is_decoding(text@, Ok(golden)));
                    match actual.first_difference(&golden) {
                        None => Ok(GoldenOutcome::Matches),
                        Some(difference) => Err(
                            GoldenFailure::Different { path: String::from_str(path), difference },
                        ),
                    }
                },
            }
        },
    }
}

/// Held against a recording of itself a trace matches; held against a recording of another it
/// fails and names the first difference.
pub proof fn lemma_golden_tells_traces_apart(
    path: Seq<char>,
    recorded: HashTrace,
    text: String,
    actual: HashTrace,
    outcome: Result<GoldenOutcome, GoldenFailure>,
)
    requires
        text@ == recorded.encoded(),
        is_golden_verdict(path, Fixture::Recorded { text }, actual, outcome),
    ensures
        outcome == Ok::<GoldenOutcome, GoldenFailure>(GoldenOutcome::Matches) <==> actual.samples@
            == recorded.samples@,
        actual.samples@ != recorded.samples@ ==> (outcome matches Err(
            GoldenFailure::Different { path: shown, difference },
        ) && shown@ == path && mismatch_text(actual.samples@, recorded.samples@) == Some(
            difference@,
        )),
{
    lemma_trace_round_trips(recorded.samples@);
    lemma_no_difference_means_same(actual.samples@, recorded.samples@);
}

// ---- laws ------------------------------------------------------------------------------------

/// Traces that are alike up to a sample and differ in it differ there: in their values where both
/// sampled the same tick, and else in their schedule.
pub proof fn lemma_difference_is_told(
    common: Seq<(u64, u64)>,
    one: (u64, u64),
    other: (u64, u64),
    left: Seq<(u64, u64)>,
    right: Seq<(u64, u64)>,
)
    ensures
        one.0 == other.0 && one.1 != other.1 ==> mismatch_text(
            common + seq![one] + left,
            common + seq![other] + right,
        ) == Some(
            "tick "@ + decimal(one.0 as nat) + ": this trace has "@ + hex16(one.1 as nat)
                + ", the other has "@ + hex16(other.1 as nat),
        ),
        one.0 != other.0 ==> mismatch_text(
            common + seq![one] + left,
            common + seq![other] + right,
        ) == Some(
            "sample "@ + decimal(common.len()) + ": this trace sampled tick "@ + decimal(
                one.0 as nat,
            ) + ", the other sampled tick "@ + decimal(other.0 as nat)
                + "; the traces were not recorded on the same schedule"@,
        ),
        mismatch_text(common + seq![one] + left, common) == Some(
            "tick "@ + decimal(one.0 as nat) + ": this trace continues ("@ + decimal(
                common.len() + 1 + left.len(),
            ) + " samples) where the other ends ("@ + decimal(common.len()) + " samples)"@,
        ),
        mismatch_text(common, common + seq![other] + right) == Some(
            "tick "@ + decimal(other.0 as nat) + ": the other trace continues ("@ + decimal(
                common.len() + 1 + right.len(),
            ) + " samples) where this one ends ("@ + decimal(common.len()) + " samples)"@,
        ),
{
    let a = common + seq![one] + left;
    let b = common + seq![other] + right;
    let at = common.len() as int;
    assert(a[at] == one && b[at] == other);
    lemma_alike_up_to(a, common, 0, at);
    lemma_alike_up_to(common, b, 0, at);
    if one != other {
        lemma_alike_up_to(a, b, 0, at);
    }
}

proof fn lemma_alike_up_to(left: Seq<(u64, u64)>, right: Seq<(u64, u64)>, from: int, end: int)
    requires
        0 <= from <= end <= left.len(),
        end <= right.len(),
        forall|k: int| from <= k < end ==> #[trigger] left[k] == right[k],
        end == left.len() || end == right.len() || left[end] != right[end],
    ensures
        first_mismatch(left, right, from) == end,
    decreases end - from,
{
    if from < end {
        assert(left[from] == right[from]);
        lemma_alike_up_to(left, right, from + 1, end);
    }
}

/// Where two traces differ does not depend on which is asked: one differs from the other exactly
/// when the other differs from it, at the same place.
pub proof fn lemma_difference_is_mutual(left: Seq<(u64, u64)>, right: Seq<(u64, u64)>)
    ensures
        first_mismatch(left, right, 0) == first_mismatch(right, left, 0),
        mismatch_text(left, right) is Some <==> mismatch_text(right, left) is Some,
{
    lemma_first_mismatch(left, right, 0);
    lemma_alike_up_to(right, left, 0, first_mismatch(left, right, 0));
}

/// The lines of a recording are read one by one: where the first lines are good, what follows adds
/// its samples behind theirs, or its own complaint; where they are not, nothing behind them changes
/// that. A line of white space adds nothing.
pub proof fn lemma_lines_are_read_alone(one: Seq<Seq<char>>, last: Seq<char>)
    ensures
        ({
            let read = samples_in(one, 0);
            let more = samples_in(one.push(last), 0);
            match read {
                Err(error) => more == read,
                Ok(samples) => if trimmed(last).len() == 0 {
                    more == read
                } else {
                    match sample_in(trimmed(last), one.len() + 1) {
                        Ok(sample) => more == Ok::<Seq<(u64, u64)>, Seq<char>>(
                            samples.push(sample),
                        ),
                        Err(error) => more == Err::<Seq<(u64, u64)>, Seq<char>>(error),
                    }
                },
            }
        }),
{
    lemma_one_more_line(one, last, 0);
}

proof fn lemma_one_more_line(one: Seq<Seq<char>>, last: Seq<char>, from: nat)
    requires
        from <= one.len(),
    ensures
        ({
            let read = samples_in(one, from);
            let more = samples_in(one.push(last), from);
            match read {
                Err(error) => more == read,
                Ok(samples) => if trimmed(last).len() == 0 {
                    more == read
                } else {
                    match sample_in(trimmed(last), one.len() + 1) {
                        Ok(sample) => more == Ok::<Seq<(u64, u64)>, Seq<char>>(
                            samples.push(sample),
                        ),
                        Err(error) => more == Err::<Seq<(u64, u64)>, Seq<char>>(error),
                    }
                },
            }
        }),
    decreases one.len() - from,
{
    let longer = one.push(last);
    if from < one.len() {
        lemma_one_more_line(one, last, from + 1);
        assert(longer[from as int] == one[from as int]);
        if trimmed(one[from as int]).len() > 0 {
            if let Ok(first) = sample_in(trimmed(one[from as int]), from + 1) {
                if let Ok(rest) = samples_in(one, from + 1) {
                    if let Ok(sample) = sample_in(trimmed(last), one.len() + 1) {
                        assert(seq![first] + rest.push(sample) =~= (seq![first] + rest).push(
                            sample,
                        ));
                    }
                }
            }
        }
    } else {
        assert(longer[from as int] == last);
        assert(samples_in(longer, from + 1) == Ok::<Seq<(u64, u64)>, Seq<char>>(Seq::empty()));
        if let Ok(sample) = sample_in(trimmed(last), one.len() + 1) {
            assert(seq![sample] + Seq::<(u64, u64)>::empty() =~= Seq::<(u64, u64)>::empty().push(
                sample,
            ));
        }
    }
}

/// A hash may be written with `0x` in front or without: it reads the same.
pub proof fn lemma_prefix_of_a_hash_is_free(tick: Seq<char>, hash: Seq<char>, number: nat)
    requires
        !tick.contains(' '),
    ensures
        ({
            let plain = sample_in(tick + seq![' '] + hash, number);
            let prefixed = sample_in(tick + seq![' '] + (seq!['0', 'x'] + hash), number);
            &&& plain is Ok <==> prefixed is Ok
            &&& plain is Ok ==> plain == prefixed
        }),
{
    let plain = tick + seq![' '] + hash;
    let longer = seq!['0', 'x'] + hash;
    let prefixed = tick + seq![' '] + longer;
    lemma_space_behind(tick, hash);
    lemma_space_behind(tick, longer);
    assert(plain.take(tick.len() as int) =~= tick);
    assert(prefixed.take(tick.len() as int) =~= tick);
    assert(plain.skip(tick.len() as int + 1) =~= hash);
    assert(prefixed.skip(tick.len() as int + 1) =~= longer);
    assert(longer.skip(2) =~= hash);
}

proof fn lemma_space_behind(head: Seq<char>, tail: Seq<char>)
    requires
        !head.contains(' '),
    ensures
        first_index(head + seq![' '] + tail, ' ') == head.len(),
    decreases head.len(),
{
    let whole = head + seq![' '] + tail;
    if head.len() > 0 {
        let rest = head.skip(1);
        assert(!rest.contains(' ')) by {
            if rest.contains(' ') {
                let k = choose|k: int| 0 <= k < rest.len() && rest[k] == ' ';
                assert(head[k + 1] == ' ');
            }
        }
        assert(head[0] != ' ') by {
            if head[0] == ' ' {
                assert(head.contains(' '));
            }
        }
        lemma_space_behind(rest, tail);
        assert(whole.skip(1) =~= rest + seq![' '] + tail);
    }
}

/// Samples are written one by one, each on a line of its own, and bytes likewise, two digits each.
pub proof fn lemma_file_forms_add_up(
    one: Seq<(u64, u64)>,
    other: Seq<(u64, u64)>,
    bytes: Seq<u8>,
    more: Seq<u8>,
)
    ensures
        samples_text(one + other) == samples_text(one) + samples_text(other),
        bytes_text(bytes + more) == bytes_text(bytes) + bytes_text(more),
        bytes_text(bytes).len() == 2 * bytes.len(),
{
    lemma_samples_text_of_both(one, other);
    lemma_bytes_text_of_both(bytes, more);
    lemma_bytes_text(bytes);
}

proof fn lemma_samples_text_of_both(one: Seq<(u64, u64)>, other: Seq<(u64, u64)>)
    ensures
        samples_text(one + other) == samples_text(one) + samples_text(other),
    decreases one.len(),
{
    if one.len() == 0 {
        assert(one + other =~= other);
    } else {
        lemma_samples_text_of_both(one.skip(1), other);
        assert((one + other).skip(1) =~= one.skip(1) + other);
        assert((one + other)[0] == one[0]);
    }
    assert(samples_text(one + other) =~= samples_text(one) + samples_text(other));
}

proof fn lemma_bytes_text_of_both(bytes: Seq<u8>, more: Seq<u8>)
    ensures
        bytes_text(bytes + more) == bytes_text(bytes) + bytes_text(more),
    decreases bytes.len(),
{
    if bytes.len() == 0 {
        assert(bytes + more =~= more);
    } else {
        lemma_bytes_text_of_both(bytes.skip(1), more);
        assert((bytes + more).skip(1) =~= bytes.skip(1) + more);
        assert((bytes + more)[0] == bytes[0]);
    }
    assert(bytes_text(bytes + more) =~= bytes_text(bytes) + bytes_text(more));
}

/// A sample is labelled with the tick that its frame left; without ticks the labels are the sampled
/// frames, which lie `every` apart.
pub proof fn lemma_samples_are_labelled(
    tick: u64,
    value: u64,
    at: int,
    every: int,
)
    requires
        0 <= at,
        0 < every,
        (at + 2) * every <= u64::MAX,
    ensures
        sample_of((Some(tick), value), at, every) == (tick, value),
        sample_of((None, value), at, every).1 == value,
        sample_of((None, value), 0, every).0 == every,
        sample_of((None, value), at + 1, every).0 == sample_of((None, value), at, every).0 + every,
{
    assert((at + 2) * every == (at + 1) * every + every && 0 <= (at + 1) * every && every <= (at + 2)
        * every) by (nonlinear_arith)
        requires
            0 <= at,
            0 < every,
    ;
    assert((at + 1 + 1) * every == (at + 2) * every);
    assert((0 + 1) * every == every) by (nonlinear_arith);
}

/// A trace that is recorded anew is written so that, held against what was written, it matches; one
/// that was never recorded matches nothing, and says where it should have been.
pub proof fn lemma_what_is_recorded_matches(
    path: Seq<char>,
    actual: HashTrace,
    outcome: Result<GoldenOutcome, GoldenFailure>,
    later: Result<GoldenOutcome, GoldenFailure>,
    error: String,
    missing: Result<GoldenOutcome, GoldenFailure>,
)
    requires
        is_golden_verdict(path, Fixture::Rerecord, actual, outcome),
        is_golden_verdict(path, Fixture::Missing { error }, actual, missing),
        outcome matches Ok(GoldenOutcome::Write { text }) ==> is_golden_verdict(
            path,
            Fixture::Recorded { text },
            actual,
            later,
        ),
    ensures
        outcome matches Ok(GoldenOutcome::Write { .. }),
        later == Ok::<GoldenOutcome, GoldenFailure>(GoldenOutcome::Matches),
        missing matches Err(GoldenFailure::Missing { path: shown, error: why }) && shown@ == path
            && why@ == error@,
{
    if let Ok(GoldenOutcome::Write { text }) = outcome {
        lemma_golden_tells_traces_apart(path, actual, text, actual, later);
    }
}

/// A recording that cannot be read is no match, and the complaint is shown with its path.
pub proof fn lemma_unreadable_recording_is_no_match(
    path: Seq<char>,
    text: String,
    actual: HashTrace,
    outcome: Result<GoldenOutcome, GoldenFailure>,
)
    requires
        samples_in(lines_of(text@), 0) is Err,
        is_golden_verdict(path, Fixture::Recorded { text }, actual, outcome),
    ensures
        outcome matches Err(GoldenFailure::Unreadable { path: shown, error }) && shown@ == path
            && error@ == samples_in(lines_of(text@), 0)->Err_0,
{
}

/// A failure in words names its file, and what is wrong.
pub proof fn lemma_golden_failure_says_where_and_what(failure: GoldenFailure)
    ensures
        match failure {
            GoldenFailure::Missing { path, error } => contains(golden_failure_text(failure), path@)
                && contains(golden_failure_text(failure), error@),
            GoldenFailure::Unreadable { path, error } => contains(
                golden_failure_text(failure),
                path@,
            ) && contains(golden_failure_text(failure), error@),
            GoldenFailure::Different { path, difference } => contains(
                golden_failure_text(failure),
                path@,
            ) && contains(golden_failure_text(failure), difference@),
        },
{
    match failure {
        GoldenFailure::Missing { path, error } => {
            lemma_contains_its_parts(
                "no golden trace at `"@,
                path@,
                "` ("@,
                error@,
                ").\nRecord one with:\n    UPDATE_GOLDEN=1 cargo test\nand commit it, having read it."@,
            );
        },
        GoldenFailure::Unreadable { path, error } => {
            lemma_contains_its_parts(
                "the golden trace at `"@,
                path@,
                "` could not be read: "@,
                error@,
                "\nRe-record it with:\n    UPDATE_GOLDEN=1 cargo test"@,
            );
        },
        GoldenFailure::Different { path, difference } => {
            lemma_contains_its_parts(
                "the simulation no longer does what `"@,
                path@,
                "` recorded.\n\n  "@,
                difference@,
                "\n\nIf that change is intended, re-record with:\n    UPDATE_GOLDEN=1 cargo test\nand read the diff to the fixture before committing it."@,
            );
        },
    }
}

/// Bytes are read pair by pair: one more pair adds its byte behind the others, or its own complaint
/// with the number of the byte; where an earlier pair was bad, nothing behind it changes that.
pub proof fn lemma_pairs_are_read_alone(pairs: Seq<u8>, high: u8, low: u8)
    requires
        pairs.len() % 2 == 0,
    ensures
        ({
            let read = bytes_from(pairs, 0);
            let more = bytes_from(pairs.push(high).push(low), 0);
            match read {
                Err(error) => more == read,
                Ok(bytes) => match number_in(seq![byte_char(high), byte_char(low)], 16, 255) {
                    Ok(value) => more == Ok::<Seq<u8>, Seq<char>>(bytes.push(value as u8)),
                    Err(error) => more == Err::<Seq<u8>, Seq<char>>(
                        "bad hex at byte "@ + decimal((pairs.len() / 2) as nat) + ": "@
                            + error_text(error),
                    ),
                },
            }
        }),
{
    lemma_one_more_pair(pairs, high, low, 0);
}

proof fn lemma_one_more_pair(pairs: Seq<u8>, high: u8, low: u8, from: nat)
    requires
        pairs.len() % 2 == 0,
        from % 2 == 0,
        from <= pairs.len(),
    ensures
        ({
            let read = bytes_from(pairs, from);
            let more = bytes_from(pairs.push(high).push(low), from);
            match read {
                Err(error) => more == read,
                Ok(bytes) => match number_in(seq![byte_char(high), byte_char(low)], 16, 255) {
                    Ok(value) => more == Ok::<Seq<u8>, Seq<char>>(bytes.push(value as u8)),
                    Err(error) => more == Err::<Seq<u8>, Seq<char>>(
                        "bad hex at byte "@ + decimal((pairs.len() / 2) as nat) + ": "@
                            + error_text(error),
                    ),
                },
            }
        }),
    decreases pairs.len() - from,
{
    let longer = pairs.push(high).push(low);
    let last = seq![byte_char(high), byte_char(low)];
    if from < pairs.len() {
        assert(from + 1 < pairs.len());
        lemma_one_more_pair(pairs, high, low, from + 2);
        assert(longer[from as int] == pairs[from as int]);
        assert(longer[from as int + 1] == pairs[from as int + 1]);
        let pair = seq![byte_char(pairs[from as int]), byte_char(pairs[from as int + 1])];
        if let Ok(first) = number_in(pair, 16, 255) {
            if let Ok(rest) = bytes_from(pairs, from + 2) {
                if let Ok(value) = number_in(last, 16, 255) {
                    assert(seq![first as u8] + rest.push(value as u8) =~= (seq![first as u8]
                        + rest).push(value as u8));
                }
            }
        }
    } else {
        assert(longer[from as int] == high && longer[from as int + 1] == low);
        assert(bytes_from(longer, from + 2) == Ok::<Seq<u8>, Seq<char>>(Seq::empty()));
        if let Ok(value) = number_in(last, 16, 255) {
            assert(seq![value as u8] + Seq::<u8>::empty() =~= Seq::<u8>::empty().push(value as u8));
        }
    }
}

/// Capital letters are digits as small ones are.
pub proof fn lemma_capitals_count_alike(value: nat, radix: nat)
    requires
        10 <= value < radix,
        radix <= 36,
    ensures
        digit_value(('a' as u32 + value - 10) as char, radix) == Some(value),
        digit_value(('A' as u32 + value - 10) as char, radix) == Some(value),
{
}

/// A byte takes two digits: an odd number of them is refused whatever they are.
pub proof fn lemma_odd_digits_are_refused(text: Seq<char>)
    ensures
        encode_utf8(text).len() % 2 == 1 ==> bytes_in(text) is Err,
        encode_utf8(text).len() % 2 == 0 ==> bytes_in(text) == bytes_from(encode_utf8(text), 0),
{
}

} // verus!
