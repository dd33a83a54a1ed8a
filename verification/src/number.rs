//! Numbers written out in digits, and digits read back.

use vstd::prelude::*;

use crate::text::chars_of;

verus! {

// ---- writing ---------------------------------------------------------------------------------

/// The digit for `value`: `0` to `9`, then `a` to `z`.
pub open spec fn digit(value: nat) -> char {
    if value < 10 {
        ('0' as u32 + value) as char
    } else {
        ('a' as u32 + value - 10) as char
    }
}

/// `value` in `radix`, without leading zeros.
pub open spec fn digits(value: nat, radix: nat) -> Seq<char>
    decreases value,
{
    if radix < 2 || value < radix {
        seq![digit(value)]
    } else {
        proof {
            vstd::arithmetic::div_mod::lemma_div_decreases(value as int, radix as int);
        }
        digits(value / radix, radix).push(digit(value % radix))
    }
}

/// `value` in decimal.
pub open spec fn decimal(value: nat) -> Seq<char> {
    digits(value, 10)
}

/// `text` with zeros in front of it up to `width` characters.
pub open spec fn zero_padded(text: Seq<char>, width: nat) -> Seq<char>
    decreases width - text.len(),
{
    if text.len() >= width {
        text
    } else {
        zero_padded(seq!['0'] + text, width)
    }
}

/// `value` in hexadecimal behind `0x`.
pub open spec fn hex(value: nat) -> Seq<char> {
    seq!['0', 'x'] + digits(value, 16)
}

/// `value` as sixteen hexadecimal digits behind `0x`.
pub open spec fn hex16(value: nat) -> Seq<char> {
    seq!['0', 'x'] + zero_padded(digits(value, 16), 16)
}

/// The digit for `value`.
pub fn digit_char(value: u64) -> (c: char)
    requires
        value < 36,
    ensures
        c == digit(value as nat),
{
    let table: [char; 36] = [
        '0', '1', '2', '3', '4', '5', '6', '7', '8', '9', 'a', 'b', 'c', 'd', 'e', 'f', 'g', 'h',
        'i', 'j', 'k', 'l', 'm', 'n', 'o', 'p', 'q', 'r', 's', 't', 'u', 'v', 'w', 'x', 'y', 'z',
    ];
    table[value as usize]
}

/// `value` in `radix`, without leading zeros.
pub fn digits_of(value: u128, radix: u128) -> (text: String)
    requires
        2 <= radix <= 36,
    ensures
        text@ == digits(value as nat, radix as nat),
    decreases value,
{
    let mut text: String = String::new();
    if value < radix {
        text.push(digit_char(value as u64));
        assert(text@ =~= seq![digit(value as nat)]);
    } else {
        proof {
            vstd::arithmetic::div_mod::lemma_div_decreases(value as int, radix as int);
        }
        text = digits_of(value / radix, radix);
        text.push(digit_char((value % radix) as u64));
    }
    text
}

/// `value` in decimal.
pub fn decimal_of(value: u64) -> (text: String)
    ensures
        text@ == decimal(value as nat),
{
    digits_of(value as u128, 10)
}

/// `text` with zeros in front of it up to `width` characters.
pub fn pad_zeros(text: &str, width: usize) -> (padded: String)
    ensures
        padded@ == zero_padded(text@, width as nat),
{
    let chars = chars_of(text);
    let mut zeros: Vec<char> = Vec::new();
    let ghost mut shown = text@;
    let mut length: usize = chars.len();
    while length < width
        invariant
            length == shown.len(),
            shown == zeros@ + text@,
            forall|k: int| 0 <= k < zeros@.len() ==> zeros@[k] == '0',
            zero_padded(shown, width as nat) == zero_padded(text@, width as nat),
        decreases width - length,
    {
        zeros.push('0');
        length = length + 1;
        proof {
            let longer = seq!['0'] + shown;
            assert(longer =~= zeros@ + text@);
            shown = longer;
        }
    }
    let mut padded = crate::text::string_of(&zeros);
    vstd::string::StringExecFns::append(&mut padded, text);
    padded
}

/// `value` in hexadecimal behind `0x`.
pub fn hex_of(value: u128) -> (text: String)
    ensures
        text@ == hex(value as nat),
{
    let mut text: String = String::new();
    text.push('0');
    text.push('x');
    let body = digits_of(value, 16);
    vstd::string::StringExecFns::append(&mut text, body.as_str());
    assert(text@ =~= hex(value as nat));
    text
}

/// `value` as sixteen hexadecimal digits behind `0x`.
pub fn hex16_of(value: u64) -> (text: String)
    ensures
        text@ == hex16(value as nat),
{
    let mut text: String = String::new();
    text.push('0');
    text.push('x');
    let body = pad_zeros(digits_of(value as u128, 16).as_str(), 16);
    vstd::string::StringExecFns::append(&mut text, body.as_str());
    assert(text@ =~= hex16(value as nat));
    text
}

// ---- reading ---------------------------------------------------------------------------------

/// Why some text is not a number.
#[derive(Clone, Copy, Debug, PartialEq, Eq, Structural)]
pub enum NumberError {
    /// There is nothing in it.
    Empty,
    /// It holds a character that is no digit.
    InvalidDigit,
    /// It is larger than the largest number asked for.
    TooLarge,
}

/// What `error` says, in words.
pub open spec fn error_text(error: NumberError) -> Seq<char> {
    match error {
        NumberError::Empty => "cannot parse integer from empty string"@,
        NumberError::InvalidDigit => "invalid digit found in string"@,
        NumberError::TooLarge => "number too large to fit in target type"@,
    }
}

impl NumberError {
    /// What is wrong, in words.
    pub fn words(self) -> (text: &'static str)
        ensures
            text@ == error_text(self),
    {
        match self {
            NumberError::Empty => "cannot parse integer from empty string",
            NumberError::InvalidDigit => "invalid digit found in string",
            NumberError::TooLarge => "number too large to fit in target type",
        }
    }
}

/// The value of `c` as a digit in `radix`, in either case.
pub open spec fn digit_value(c: char, radix: nat) -> Option<nat> {
    let value = if '0' <= c <= '9' {
        c as u32 - '0' as u32
    } else if 'a' <= c <= 'z' {
        c as u32 - 'a' as u32 + 10
    } else if 'A' <= c <= 'Z' {
        c as u32 - 'A' as u32 + 10
    } else {
        36
    };
    if value < radix && value < 36 {
        Some(value as nat)
    } else {
        None
    }
}

/// The number that `text` continues `value` to, no larger than `most`. The first character that
/// is no digit or that makes it too large decides the error.
pub open spec fn continued(value: nat, text: Seq<char>, radix: nat, most: nat) -> Result<
    nat,
    NumberError,
>
    decreases text.len(),
{
    if text.len() == 0 {
        Ok(value)
    } else {
        match digit_value(text[0], radix) {
            None => Err(NumberError::InvalidDigit),
            Some(next) => if value * radix + next > most {
                Err(NumberError::TooLarge)
            } else {
                continued(value * radix + next, text.skip(1), radix, most)
            },
        }
    }
}

/// The number that `text` writes in `radix`, no larger than `most`: at least one digit, behind a
/// plus sign or not.
pub open spec fn number_in(text: Seq<char>, radix: nat, most: nat) -> Result<nat, NumberError> {
    if text.len() == 0 {
        Err(NumberError::Empty)
    } else if text[0] == '+' && text.len() > 1 {
        continued(0, text.skip(1), radix, most)
    } else {
        continued(0, text, radix, most)
    }
}

/// The value of `c` as a digit in `radix`.
pub fn value_of_digit(c: char, radix: u64) -> (value: Option<u64>)
    ensures
        value is Some == (digit_value(c, radix as nat) is Some),
        value matches Some(v) ==> digit_value(c, radix as nat) == Some(v as nat) && v < radix && v
            < 36,
{
    let code: u32 = c as u32;
    let value: u64 = if '0' <= c && c <= '9' {
        (code - '0' as u32) as u64
    } else if 'a' <= c && c <= 'z' {
        (code - 'a' as u32 + 10) as u64
    } else if 'A' <= c && c <= 'Z' {
        (code - 'A' as u32 + 10) as u64
    } else {
        36
    };
    if value < radix && value < 36 {
        Some(value)
    } else {
        None
    }
}

/// The number that `text` writes in `radix`, no larger than `most`.
pub fn parse_number(text: &str, radix: u64, most: u64) -> (number: Result<u64, NumberError>)
    requires
        2 <= radix <= 36,
    ensures
        number matches Ok(value) ==> value <= most,
        match number {
            Ok(value) => number_in(text@, radix as nat, most as nat) == Ok::<nat, NumberError>(
                value as nat,
            ),
            Err(error) => number_in(text@, radix as nat, most as nat) == Err::<nat, NumberError>(
                error,
            ),
        },
{
    let chars = chars_of(text);
    if chars.len() == 0 {
        return Err(NumberError::Empty);
    }
    let mut index: usize = 0;
    if chars[0] == '+' && chars.len() > 1 {
        index = 1;
    }
    let mut value: u64 = 0;
    assert(chars@.skip(0) =~= chars@);
    while index < chars.len()
        invariant
            chars@ == text@,
            index <= chars@.len(),
            2 <= radix <= 36,
            value <= most,
            number_in(text@, radix as nat, most as nat) == continued(
                value as nat,
                chars@.skip(index as int),
                radix as nat,
                most as nat,
            ),
        decreases chars@.len() - index,
    {
        let ghost rest = chars@.skip(index as int);
        assert(rest[0] == chars@[index as int]);
        match value_of_digit(chars[index], radix) {
            None => {
                return Err(NumberError::InvalidDigit);
            },
            Some(next) => {
                assert(value * radix <= 0xffff_ffff_ffff_ffff * 36) by (nonlinear_arith)
                    requires
                        value <= 0xffff_ffff_ffff_ffff,
                        radix <= 36,
                ;
                let wide: u128 = (value as u128) * (radix as u128) + (next as u128);
                if wide > most as u128 {
                    return Err(NumberError::TooLarge);
                }
                value = wide as u64;
            },
        }
        assert(rest.skip(1) =~= chars@.skip(index as int + 1));
        index = index + 1;
    }
    assert(chars@.skip(index as int).len() == 0);
    Ok(value)
}


// ---- laws ------------------------------------------------------------------------------------

proof fn lemma_digit_value(value: nat, radix: nat)
    requires
        value < radix <= 36,
    ensures
        digit_value(digit(value), radix) == Some(value),
        digit(value) != '+',
        digit(value) != ' ',
        digit(value) != '\n',
        !crate::text::is_space(digit(value)),
{
    if value < 10 {
        assert('0' as u32 + value == 48 + value);
    } else {
        assert('a' as u32 + value - 10 == 87 + value);
    }
}

proof fn lemma_continued_push(
    value: nat,
    text: Seq<char>,
    last: char,
    radix: nat,
    most: nat,
    reached: nat,
    next: nat,
)
    requires
        continued(value, text, radix, most) == Ok::<nat, NumberError>(reached),
        digit_value(last, radix) == Some(next),
        reached * radix + next <= most,
    ensures
        continued(value, text.push(last), radix, most) == Ok::<nat, NumberError>(
            reached * radix + next,
        ),
    decreases text.len(),
{
    let longer = text.push(last);
    if text.len() == 0 {
        assert(longer.skip(1).len() == 0);
        assert(continued(reached * radix + next, longer.skip(1), radix, most) == Ok::<
            nat,
            NumberError,
        >(reached * radix + next));
    } else {
        assert(longer[0] == text[0]);
        assert(longer.skip(1) =~= text.skip(1).push(last));
        let first = digit_value(text[0], radix)->0;
        lemma_continued_push(value * radix + first, text.skip(1), last, radix, most, reached, next);
    }
}

proof fn lemma_continued_digits(value: nat, radix: nat, most: nat)
    requires
        2 <= radix <= 36,
        value <= most,
    ensures
        continued(0, digits(value, radix), radix, most) == Ok::<nat, NumberError>(value),
        digits(value, radix).len() > 0,
        forall|k: int|
            0 <= k < digits(value, radix).len() ==> {
                &&& #[trigger] digits(value, radix)[k] != '+'
                &&& digits(value, radix)[k] != '\n'
                &&& !crate::text::is_space(digits(value, radix)[k])
            },
    decreases value,
{
    if value < radix {
        lemma_digit_value(value, radix);
        let text = digits(value, radix);
        assert(text.skip(1).len() == 0);
        assert(0 * radix == 0) by (nonlinear_arith);
        assert(continued(0 * radix + value, text.skip(1), radix, most) == Ok::<nat, NumberError>(
            value,
        ));
    } else {
        let high = value / radix;
        let low = value % radix;
        vstd::arithmetic::div_mod::lemma_div_decreases(value as int, radix as int);
        vstd::arithmetic::div_mod::lemma_fundamental_div_mod(value as int, radix as int);
        vstd::arithmetic::mul::lemma_mul_is_commutative(high as int, radix as int);
        assert(low < radix) by (nonlinear_arith)
            requires
                low == value % radix,
                radix >= 2,
        ;
        lemma_digit_value(low, radix);
        lemma_continued_digits(high, radix, most);
        lemma_continued_push(0, digits(high, radix), digit(low), radix, most, high, low);
    }
}

/// A number written in digits reads back as itself.
pub proof fn lemma_digits_read_back(value: nat, radix: nat, most: nat)
    requires
        2 <= radix <= 36,
        value <= most,
    ensures
        number_in(digits(value, radix), radix, most) == Ok::<nat, NumberError>(value),
{
    lemma_continued_digits(value, radix, most);
}

proof fn lemma_continued_padded(text: Seq<char>, width: nat, radix: nat, most: nat, value: nat)
    requires
        2 <= radix <= 36,
        continued(0, text, radix, most) == Ok::<nat, NumberError>(value),
        text.len() > 0,
    ensures
        continued(0, zero_padded(text, width), radix, most) == Ok::<nat, NumberError>(value),
    decreases width - text.len(),
{
    if text.len() < width {
        let longer = seq!['0'] + text;
        assert(longer.skip(1) =~= text);
        assert(0 * radix == 0) by (nonlinear_arith);
        assert(digit_value('0', radix) == Some(0nat));
        lemma_continued_padded(longer, width, radix, most, value);
    }
}

proof fn lemma_padded_chars(text: Seq<char>, width: nat)
    requires
        text.len() > 0,
        forall|k: int|
            0 <= k < text.len() ==> {
                &&& #[trigger] text[k] != '+'
                &&& text[k] != '\n'
                &&& !crate::text::is_space(text[k])
            },
    ensures
        zero_padded(text, width).len() > 0,
        forall|k: int|
            0 <= k < zero_padded(text, width).len() ==> {
                &&& #[trigger] zero_padded(text, width)[k] != '+'
                &&& zero_padded(text, width)[k] != '\n'
                &&& !crate::text::is_space(zero_padded(text, width)[k])
            },
    decreases width - text.len(),
{
    if text.len() < width {
        lemma_padded_chars(seq!['0'] + text, width);
    }
}

/// A number written as sixteen hexadecimal digits holds no space and no line end, and reads back
/// as itself.
pub proof fn lemma_hex16_reads_back(value: nat)
    requires
        value <= u64::MAX,
    ensures
        ({
            let text = zero_padded(digits(value, 16), 16);
            &&& number_in(text, 16, u64::MAX as nat) == Ok::<nat, NumberError>(value)
            &&& text.len() > 0
            &&& forall|k: int|
                0 <= k < text.len() ==> {
                    &&& #[trigger] text[k] != '+'
                    &&& text[k] != '\n'
                    &&& !crate::text::is_space(text[k])
                }
        }),
{
    lemma_continued_digits(value, 16, u64::MAX as nat);
    lemma_continued_padded(digits(value, 16), 16, 16, u64::MAX as nat, value);
    lemma_padded_chars(digits(value, 16), 16);
}

/// A decimal number holds no space and no line end, and reads back as itself.
pub proof fn lemma_decimal_reads_back(value: nat, most: nat)
    requires
        value <= most,
    ensures
        ({
            let text = decimal(value);
            &&& number_in(text, 10, most) == Ok::<nat, NumberError>(value)
            &&& text.len() > 0
            &&& forall|k: int|
                0 <= k < text.len() ==> {
                    &&& #[trigger] text[k] != '+'
                    &&& text[k] != '\n'
                    &&& !crate::text::is_space(text[k])
                }
        }),
{
    lemma_continued_digits(value, 10, most);
}

/// Text that reads as a number is made of digits.
pub proof fn lemma_read_text_is_digits(value: nat, text: Seq<char>, radix: nat, most: nat)
    requires
        continued(value, text, radix, most) is Ok,
    ensures
        forall|k: int| 0 <= k < text.len() ==> digit_value(#[trigger] text[k], radix) is Some,
    decreases text.len(),
{
    if text.len() > 0 {
        let first = digit_value(text[0], radix)->0;
        lemma_read_text_is_digits(value * radix + first, text.skip(1), radix, most);
        assert forall|k: int| 0 <= k < text.len() implies digit_value(#[trigger] text[k], radix) is Some by {
            if k > 0 {
                assert(text.skip(1)[k - 1] == text[k]);
            }
        }
    }
}

// ---- laws ------------------------------------------------------------------------------------

/// A number is written without leading zeros, in digits and small letters.
pub proof fn lemma_digits_are_plain(value: nat, radix: nat)
    requires
        2 <= radix <= 36,
    ensures
        ({
            let text = digits(value, radix);
            &&& text.len() > 0
            &&& value == 0 ==> text == seq!['0']
            &&& value > 0 ==> text[0] != '0'
            &&& forall|k: int|
                0 <= k < text.len() ==> '0' <= #[trigger] text[k] <= '9' || 'a' <= text[k] <= 'z'
        }),
    decreases value,
{
    if value >= radix {
        vstd::arithmetic::div_mod::lemma_div_decreases(value as int, radix as int);
        assert(value / radix > 0) by (nonlinear_arith)
            requires
                value >= radix,
                radix >= 2,
        ;
        assert(0 <= value % radix < radix) by (nonlinear_arith)
            requires
                radix >= 2,
        ;
        lemma_digits_are_plain(value / radix, radix);
        lemma_digit_is_plain(value % radix);
        let front = digits(value / radix, radix);
        let text = digits(value, radix);
        assert(text == front.push(digit(value % radix)));
        assert(text[0] == front[0]);
        assert forall|k: int| 0 <= k < text.len() implies '0' <= #[trigger] text[k] <= '9' || 'a'
            <= text[k] <= 'z' by {
            if k < front.len() {
                assert(text[k] == front[k]);
            }
        }
    } else {
        lemma_digit_is_plain(value);
    }
}

proof fn lemma_digit_is_plain(value: nat)
    requires
        value < 36,
    ensures
        '0' <= digit(value) <= '9' || 'a' <= digit(value) <= 'z',
        digit(value) == '0' <==> value == 0,
{
}

/// Padding puts zeros in front until the width is there, and nothing where it is there already.
pub proof fn lemma_padding_is_in_front(text: Seq<char>, width: nat)
    ensures
        ({
            let padded = zero_padded(text, width);
            &&& padded.len() == (if text.len() >= width {
                text.len()
            } else {
                width
            })
            &&& padded.skip(padded.len() - text.len()) == text
            &&& forall|k: int| 0 <= k < padded.len() - text.len() ==> #[trigger] padded[k] == '0'
        }),
    decreases width - text.len(),
{
    let padded = zero_padded(text, width);
    if text.len() < width {
        let longer = seq!['0'] + text;
        lemma_padding_is_in_front(longer, width);
        let shift = padded.len() - text.len();
        let tail = padded.skip(padded.len() - longer.len());
        assert(tail == longer);
        assert(padded.skip(shift) =~= text) by {
            assert forall|k: int| 0 <= k < text.len() implies padded[shift + k] == text[k] by {
                assert(tail[k + 1] == longer[k + 1]);
            }
        }
        assert(padded[shift - 1] == '0') by {
            assert(tail[0] == longer[0]);
        }
    } else {
        assert(text.skip(0) =~= text);
    }
}

proof fn lemma_continued_by_one(value: nat, text: Seq<char>, last: char, radix: nat, most: nat)
    requires
        continued(value, text, radix, most) is Ok,
    ensures
        ({
            let read = continued(value, text, radix, most)->Ok_0;
            continued(value, text.push(last), radix, most) == (match digit_value(last, radix) {
                None => Err::<nat, NumberError>(NumberError::InvalidDigit),
                Some(next) => if read * radix + next > most {
                    Err(NumberError::TooLarge)
                } else {
                    Ok(read * radix + next)
                },
            })
        }),
    decreases text.len(),
{
    let longer = text.push(last);
    if text.len() == 0 {
        assert(longer[0] == last);
        assert(longer.skip(1) =~= Seq::empty());
        if let Some(next) = digit_value(last, radix) {
            assert(continued(value * radix + next, longer.skip(1), radix, most) == Ok::<
                nat,
                NumberError,
            >(value * radix + next));
        }
    } else {
        let next = digit_value(text[0], radix)->0;
        assert(longer[0] == text[0]);
        assert(longer.skip(1) =~= text.skip(1).push(last));
        lemma_continued_by_one(value * radix + next, text.skip(1), last, radix, most);
    }
}

/// A number is read digit by digit: one more digit multiplies what was read by the radix and counts
/// on top of it, unless that is more than the most; anything else is no number any more. A plus
/// sign in front changes nothing.
pub proof fn lemma_one_more_digit(text: Seq<char>, last: char, radix: nat, most: nat)
    requires
        text.len() > 0,
        text[0] != '+',
        number_in(text, radix, most) is Ok,
    ensures
        ({
            let read = number_in(text, radix, most)->Ok_0;
            &&& digit_value(last, radix) is None ==> number_in(text.push(last), radix, most)
                == Err::<nat, NumberError>(NumberError::InvalidDigit)
            &&& digit_value(last, radix) is Some && read * radix + digit_value(last, radix)->0
                > most ==> number_in(text.push(last), radix, most) == Err::<nat, NumberError>(
                NumberError::TooLarge,
            )
            &&& digit_value(last, radix) is Some && read * radix + digit_value(last, radix)->0
                <= most ==> number_in(text.push(last), radix, most) == Ok::<nat, NumberError>(
                read * radix + digit_value(last, radix)->0,
            )
            &&& number_in(seq!['+'] + text, radix, most) == number_in(text, radix, most)
        }),
{
    lemma_continued_by_one(0, text, last, radix, most);
    assert(text.push(last)[0] == text[0]);
    assert((seq!['+'] + text).skip(1) =~= text);
}

/// A number in decimal is digits without a leading zero, in hex the same behind `0x` with small
/// letters, and in padded hex always sixteen of them; each reads back.
pub proof fn lemma_numbers_are_written_plainly(value: nat)
    requires
        value <= u64::MAX,
    ensures
        decimal(value).len() > 0,
        value > 0 ==> decimal(value)[0] != '0',
        value == 0 ==> decimal(value) == seq!['0'],
        number_in(decimal(value), 10, u64::MAX as nat) == Ok::<nat, NumberError>(value),
        hex(value).len() > 2 && hex(value)[0] == '0' && hex(value)[1] == 'x',
        value > 0 ==> hex(value)[2] != '0',
        number_in(hex(value).skip(2), 16, u64::MAX as nat) == Ok::<nat, NumberError>(value),
        hex16(value).len() == 18 && hex16(value)[0] == '0' && hex16(value)[1] == 'x',
        number_in(hex16(value).skip(2), 16, u64::MAX as nat) == Ok::<nat, NumberError>(value),
{
    lemma_digits_are_plain(value, 10);
    lemma_digits_are_plain(value, 16);
    lemma_digits_read_back(value, 10, u64::MAX as nat);
    lemma_digits_read_back(value, 16, u64::MAX as nat);
    lemma_hex16_reads_back(value);
    let plain = digits(value, 16);
    let padded = zero_padded(plain, 16);
    assert(hex(value).skip(2) =~= plain);
    assert(hex(value)[2] == plain[0]);
    assert(hex16(value).skip(2) =~= padded);
    lemma_padding_is_in_front(plain, 16);
    assert(vstd::arithmetic::power::pow(16, 16) == 0x1_0000_0000_0000_0000) by {
        reveal_with_fuel(vstd::arithmetic::power::pow, 17);
    }
    lemma_digits_fit(value, 16);
}

proof fn lemma_digits_fit(value: nat, count: nat)
    requires
        count >= 1,
        value < vstd::arithmetic::power::pow(16, count),
    ensures
        digits(value, 16).len() <= count,
    decreases count,
{
    if value >= 16 {
        if count == 1 {
            vstd::arithmetic::power::lemma_pow1(16);
        } else {
            vstd::arithmetic::power::lemma_pow_adds(16, 1, (count - 1) as nat);
            vstd::arithmetic::power::lemma_pow1(16);
            let most = vstd::arithmetic::power::pow(16, (count - 1) as nat);
            assert(value / 16 < most) by (nonlinear_arith)
                requires
                    value < 16 * most,
            ;
            lemma_digits_fit(value / 16, (count - 1) as nat);
        }
    }
}

} // verus!
