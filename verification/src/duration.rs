//! Waiting times: a range of them read from text, a draw from the range,
//! and compact text for any length of time.
//!
//! Lengths of time are whole nanoseconds.

use crate::digits::is_digit;
use crate::fixed::{
    align_right, precise_string, precise_text, right_aligned, short_string, short_text,
};
use rand::Rng;
use vstd::prelude::*;
use vstd::string::*;

verus! {

/// A text with at most this many digits in all is always read.
pub const MAX_DIGITS: usize = 11;

/// A text with more digits is read where no number in it has more digits
/// than this,
pub const MAX_NUMBER_DIGITS: usize = 10;

/// and where it holds no more numbers than this.
pub const MAX_NUMBERS: usize = 50;

/// Why a text is no length of time, or no range of them.
#[derive(Clone, Copy, Debug, PartialEq, Eq, Structural)]
pub enum ParseFault {
    /// A character that belongs to no number and no unit, at this byte offset.
    InvalidCharacter { offset: usize },
    /// Something other than a number where one must stand, at this byte offset.
    NumberExpected { offset: usize },
    /// A unit that is not known, between these byte offsets.
    UnknownUnit { start: usize, end: usize },
    /// A number that is too large or finer than a nanosecond, or a text
    /// with numbers too long or too many to be read (see `admitted`).
    NumberOverflow,
    /// Nothing but white space.
    Empty,
    /// A range whose upper bound is below its lower bound.
    Reversed,
}

/// A text that could not be read, with the reason.
#[derive(Debug)]
pub struct ParseError {
    /// The part of the input that is at fault.
    pub text: String,
    /// What is wrong with it.
    pub fault: ParseFault,
}

/// What `humantime::parse_duration` makes of a text: the nanoseconds of the
/// length of time it reads, or the fault it finds.
pub uninterp spec fn parsed_duration(text: Seq<char>) -> Result<u128, ParseFault>;

/// The number of digits among the characters of `s`.
pub open spec fn digit_chars(s: Seq<char>) -> nat
    decreases s.len(),
{
    if s.len() == 0 {
        0
    } else {
        digit_chars(s.drop_last()) + if is_digit(s.last()) {
            1nat
        } else {
            0nat
        }
    }
}

/// Whether `c` ends a number: a letter of a unit, or the point before a
/// fraction. White space does not: digits on both sides of it are one number.
pub open spec fn ends_number(c: char) -> bool {
    ('a' <= c && c <= 'z') || ('A' <= c && c <= 'Z') || c == '\u{b5}' || c == '.'
}

/// The number of digits of `s` behind the last character that ends a
/// number.
pub open spec fn trailing_digits(s: Seq<char>) -> nat
    decreases s.len(),
{
    if s.len() == 0 {
        0
    } else if ends_number(s.last()) {
        0
    } else {
        trailing_digits(s.drop_last()) + if is_digit(s.last()) {
            1nat
        } else {
            0nat
        }
    }
}

/// The most digits that one number of `s` has.
pub open spec fn longest_number(s: Seq<char>) -> nat
    decreases s.len(),
{
    if s.len() == 0 {
        0
    } else {
        let before = longest_number(s.drop_last());
        if trailing_digits(s) > before {
            trailing_digits(s)
        } else {
            before
        }
    }
}

/// The number of numbers in `s`: of its stretches between characters that
/// end a number, those that hold a digit.
pub open spec fn number_count(s: Seq<char>) -> nat
    decreases s.len(),
{
    if s.len() == 0 {
        0
    } else {
        number_count(s.drop_last()) + if is_digit(s.last()) && trailing_digits(s.drop_last())
            == 0 {
            1nat
        } else {
            0nat
        }
    }
}

/// Whether a text is handed on to be read.
///
/// The reader sums whole seconds in 64 bits and does not return where that
/// sum ends at the last value of the range with a full second of
/// nanoseconds to carry. A number of `d` digits is below `10^d`, and one
/// unit of the largest kind, the year, is 31,557,600 seconds. So the sum
/// stays far below the end of the range where the text has at most
/// `MAX_DIGITS` digits in all, and also where it has at most `MAX_NUMBERS`
/// numbers of at most `MAX_NUMBER_DIGITS` digits each. Every other text is
/// refused unread, though the reader would take most of them: such a text
/// has a number of eleven digits or more beside others, or more than fifty
/// numbers.
pub open spec fn admitted(s: Seq<char>) -> bool {
    digit_chars(s) <= MAX_DIGITS || (longest_number(s) <= MAX_NUMBER_DIGITS && number_count(s)
        <= MAX_NUMBERS)
}

/// What a text without `..` stands for: the length of time that the reader
/// makes of it, in nanoseconds, or the fault that it finds. A text that is
/// not `admitted` is taken as too large.
pub open spec fn expected_span(s: Seq<char>) -> Result<u128, ParseFault> {
    if !admitted(s) {
        Err(ParseFault::NumberOverflow)
    } else {
        parsed_duration(s)
    }
}

/// Whether two dots stand at `i` and `i + 1`.
pub open spec fn dots_at(s: Seq<char>, i: int) -> bool {
    0 <= i && i + 1 < s.len() && s[i] == '.' && s[i + 1] == '.'
}

/// The first place at or after `from` where two dots stand.
pub open spec fn first_dots(s: Seq<char>, from: int) -> Option<int>
    decreases s.len() - from,
{
    if from < 0 || from + 1 >= s.len() {
        None
    } else if dots_at(s, from) {
        Some(from)
    } else {
        first_dots(s, from + 1)
    }
}

/// What the readings of the parts of a text come to: the bounds of the
/// range, or the part at fault and the reason.
///
/// `low` is the reading of `left`, and `high` that of `right`, where there
/// is one. A fault of the left part comes first. Without a right part the
/// one length of time is both bounds; with one, the bounds must not be
/// reversed, or the whole `text` is at fault.
pub open spec fn spans_outcome(
    text: Seq<char>,
    left: Seq<char>,
    right: Option<Seq<char>>,
    low: Result<u128, ParseFault>,
    high: Result<u128, ParseFault>,
) -> Result<(u128, u128), (Seq<char>, ParseFault)> {
    match low {
        Err(fault) => Err((left, fault)),
        Ok(lower) => match right {
            None => Ok((lower, lower)),
            Some(part) => match high {
                Err(fault) => Err((part, fault)),
                Ok(upper) => if lower <= upper {
                    Ok((lower, upper))
                } else {
                    Err((text, ParseFault::Reversed))
                },
            },
        },
    }
}

/// What a text stands for as a range: its bounds, or the part at fault and
/// the reason.
///
/// Text with `..` is split at the first one and both sides are read; other
/// text is read as a whole.
pub open spec fn expected_range(s: Seq<char>) -> Result<(u128, u128), (Seq<char>, ParseFault)> {
    match first_dots(s, 0) {
        Some(i) => {
            let left = s.subrange(0, i);
            let right = s.subrange(i + 2, s.len() as int);
            spans_outcome(s, left, Some(right), expected_span(left), expected_span(right))
        },
        None => spans_outcome(s, s, None, expected_span(s), expected_span(s)),
    }
}

/// Calls `humantime::parse_duration` and hands back what it returned, the
/// length of time as nanoseconds and the error variant by variant. The
/// result is a function of the text alone. Only `admitted` texts are handed
/// in: on some others the sum of seconds reaches the end of its range and
/// the call does not return.
#[verifier::external_body]
fn read_span(text: &str) -> (outcome: Result<u128, ParseFault>)
    requires
        admitted(text@),
    ensures
        outcome == parsed_duration(text@),
{
    match humantime::parse_duration(text) {
        Ok(span) => Ok(span.as_nanos()),
        Err(humantime::DurationError::InvalidCharacter(offset)) => Err(
            ParseFault::InvalidCharacter { offset },
        ),
        Err(humantime::DurationError::NumberExpected(offset)) => Err(
            ParseFault::NumberExpected { offset },
        ),
        Err(humantime::DurationError::UnknownUnit { start, end, .. }) => Err(
            ParseFault::UnknownUnit { start, end },
        ),
        Err(humantime::DurationError::NumberOverflow) => Err(ParseFault::NumberOverflow),
        Err(humantime::DurationError::Empty) => Err(ParseFault::Empty),
    }
}

/// Calls `Rng::gen_range` of `rand` on the thread's generator, for the
/// half-open range from `low` to `high`. The draw lies in that range; which
/// value it is depends on chance.
#[verifier::external_body]
fn draw_between(low: u128, high: u128) -> (value: u128)
    requires
        low < high,
    ensures
        low <= value < high,
{
    rand::thread_rng().gen_range(low..high)
}

/// Whether `text` is handed on to be read.
pub fn is_admitted(text: &str) -> (yes: bool)
    ensures
        yes == admitted(text@),
{
    let len = text.unicode_len();
    let mut digits: usize = 0;
    let mut run: usize = 0;
    let mut longest: usize = 0;
    let mut numbers: usize = 0;
    let mut i: usize = 0;
    assert(text@.subrange(0, 0) =~= Seq::<char>::empty());
    while i < len
        invariant
            len == text@.len(),
            i <= len,
            digits <= i,
            run <= i,
            longest <= i,
            numbers <= i,
            digits == digit_chars(text@.subrange(0, i as int)),
            run == trailing_digits(text@.subrange(0, i as int)),
            longest == longest_number(text@.subrange(0, i as int)),
            numbers == number_count(text@.subrange(0, i as int)),
        decreases len - i,
    {
        let c = text.get_char(i);
        proof {
            let next = text@.subrange(0, i + 1);
            assert(next.drop_last() =~= text@.subrange(0, i as int));
        }
        let digit = c >= '0' && c <= '9';
        if digit {
            digits = digits + 1;
            if run == 0 {
                numbers = numbers + 1;
            }
        }
        if (c >= 'a' && c <= 'z') || (c >= 'A' && c <= 'Z') || c == '\u{b5}' || c == '.' {
            run = 0;
        } else if digit {
            run = run + 1;
        }
        if run > longest {
            longest = run;
        }
        i = i + 1;
    }
    assert(text@.subrange(0, len as int) =~= text@);
    digits <= MAX_DIGITS || (longest <= MAX_NUMBER_DIGITS && numbers <= MAX_NUMBERS)
}

/// Reads one length of time, such as `150ms` or `1h 30m`, as nanoseconds.
pub fn parse_span(text: &str) -> (outcome: Result<u128, ParseFault>)
    ensures
        outcome == expected_span(text@),
{
    if !is_admitted(text) {
        return Err(ParseFault::NumberOverflow);
    }
    read_span(text)
}

/// Finds the first `..` of `text`.
fn find_dots(text: &str) -> (at: Option<usize>)
    ensures
        match at {
            Some(i) => first_dots(text@, 0) == Some(i as int) && i + 2 <= text@.len(),
            None => first_dots(text@, 0) is None,
        },
{
    let len = text.unicode_len();
    if len < 2 {
        return None;
    }
    let last: usize = len - 1;
    let mut i: usize = 0;
    while i < last
        invariant
            len == text@.len(),
            last == len - 1,
            i <= last,
            first_dots(text@, 0) == first_dots(text@, i as int),
        decreases last - i,
    {
        if text.get_char(i) == '.' && text.get_char(i + 1) == '.' {
            return Some(i);
        }
        i = i + 1;
    }
    None
}

/// What an attempt to read a range came to, as plain values: the bounds,
/// or the part at fault and the reason.
pub open spec fn range_outcome(outcome: Result<DurationRange, ParseError>) -> Result<
    (u128, u128),
    (Seq<char>, ParseFault),
> {
    match outcome {
        Ok(range) => Ok((range.lower(), range.upper())),
        Err(e) => Err((e.text@, e.fault)),
    }
}

/// A range of waiting times, from `low` up to `high`, in nanoseconds.
#[derive(Clone, Copy, Debug)]
pub struct DurationRange(u128, u128);

impl DurationRange {
    #[verifier::type_invariant]
    spec fn ordered(self) -> bool {
        self.0 <= self.1
    }

    /// The lower bound.
    pub closed spec fn lower(self) -> u128 {
        self.0
    }

    /// The upper bound.
    pub closed spec fn upper(self) -> u128 {
        self.1
    }

    /// Whether the two bounds are one value.
    pub open spec fn flat(self) -> bool {
        self.lower() == self.upper()
    }

    /// The range from the readings of the parts of a text: see
    /// `spans_outcome`.
    pub fn range_from_spans(
        text: &str,
        left: &str,
        right: Option<&str>,
        low: Result<u128, ParseFault>,
        high: Result<u128, ParseFault>,
    ) -> (outcome: Result<DurationRange, ParseError>)
        ensures
            range_outcome(outcome) == spans_outcome(
                text@,
                left@,
                match right {
                    Some(part) => Some(part@),
                    None => None,
                },
                low,
                high,
            ),
            outcome is Ok ==> outcome->Ok_0.lower() <= outcome->Ok_0.upper(),
    {
        let lower = match low {
            Ok(lower) => lower,
            Err(fault) => {
                return Err(ParseError { text: String::from_str(left), fault });
            },
        };
        let part = match right {
            Some(part) => part,
            None => {
                return Ok(DurationRange(lower, lower));
            },
        };
        match high {
            Err(fault) => Err(ParseError { text: String::from_str(part), fault }),
            Ok(upper) => if lower <= upper {
                Ok(DurationRange(lower, upper))
            } else {
                Err(ParseError { text: String::from_str(text), fault: ParseFault::Reversed })
            },
        }
    }

    /// Reads a range: one length of time, or two with `..` between them.
    pub fn parse(text: &str) -> (outcome: Result<DurationRange, ParseError>)
        ensures
            range_outcome(outcome) == expected_range(text@),
            outcome is Ok ==> outcome->Ok_0.lower() <= outcome->Ok_0.upper(),
    {
        match find_dots(text) {
            Some(i) => {
                let len = text.unicode_len();
                let left = text.substring_char(0, i);
                let right = text.substring_char(i + 2, len);
                let low = parse_span(left);
                let high = parse_span(right);
                DurationRange::range_from_spans(text, left, Some(right), low, high)
            },
            None => {
                let span = parse_span(text);
                DurationRange::range_from_spans(text, text, None, span, span)
            },
        }
    }

    /// The lower bound, in nanoseconds.
    pub fn low(&self) -> (nanos: u128)
        ensures
            nanos == self.lower(),
            nanos <= self.upper(),
    {
        proof {
            use_type_invariant(self);
        }
        self.0
    }

    /// The upper bound, in nanoseconds.
    pub fn high(&self) -> (nanos: u128)
        ensures
            nanos == self.upper(),
            self.lower() <= nanos,
    {
        proof {
            use_type_invariant(self);
        }
        self.1
    }

    /// Whether the range holds one value only.
    pub fn is_flat(&self) -> (flat: bool)
        ensures
            flat == self.flat(),
    {
        self.0 == self.1
    }

    /// A waiting time from the range: the one value of a flat range, else a
    /// random one from `low` up to, but not including, `high`.
    pub fn get_random(&self) -> (nanos: u128)
        ensures
            self.lower() <= nanos <= self.upper(),
            self.flat() ==> nanos == self.lower(),
            !self.flat() ==> nanos < self.upper(),
    {
        proof {
            use_type_invariant(self);
        }
        if self.is_flat() {
            return self.0;
        }
        draw_between(self.0, self.1)
    }
}

impl core::str::FromStr for DurationRange {
    type Err = ParseError;

    /// Reads a range as `DurationRange::parse` does.
    fn from_str(s: &str) -> (outcome: Result<Self, Self::Err>)
        ensures
            range_outcome(outcome) == expected_range(s@),
            outcome is Ok ==> outcome->Ok_0.lower() <= outcome->Ok_0.upper(),
    {
        DurationRange::parse(s)
    }
}

/// The nanoseconds of the unit in which a length of time is shown: the
/// largest of ns, µs, ms, s, m and h that does not exceed it.
pub open spec fn unit_nanos(nanos: nat) -> nat {
    if nanos < 1_000 {
        1
    } else if nanos < 1_000_000 {
        1_000
    } else if nanos < 1_000_000_000 {
        1_000_000
    } else if nanos < 60_000_000_000 {
        1_000_000_000
    } else if nanos < 3_600_000_000_000 {
        60_000_000_000
    } else {
        3_600_000_000_000
    }
}

/// The name of that unit.
pub open spec fn unit_suffix(nanos: nat) -> Seq<char> {
    if nanos < 1_000 {
        "ns"@
    } else if nanos < 1_000_000 {
        "µs"@
    } else if nanos < 1_000_000_000 {
        "ms"@
    } else if nanos < 60_000_000_000 {
        "s"@
    } else if nanos < 3_600_000_000_000 {
        "m"@
    } else {
        "h"@
    }
}

/// The compact text of a length of time: its magnitude in its unit, with
/// spaces in front up to `width` characters, then the unit's name.
///
/// With a precision the magnitude has that many fraction digits; without,
/// as few as show it to nine places.
pub open spec fn duration_text(nanos: nat, width: nat, precision: Option<nat>) -> Seq<char> {
    let magnitude = match precision {
        Some(places) => precise_text(nanos, unit_nanos(nanos), places),
        None => short_text(nanos, unit_nanos(nanos)),
    };
    right_aligned(magnitude, width) + unit_suffix(nanos)
}

/// A length of time, in nanoseconds, to be shown in compact form.
#[derive(Clone, Copy, Debug)]
pub struct ShortDurationFormatter(pub u128);

impl ShortDurationFormatter {
    /// The unit in which the length of time is shown: its name and its
    /// nanoseconds.
    pub fn unitify(&self) -> (unit: (&'static str, u64))
        ensures
            unit.0@ == unit_suffix(self.0 as nat),
            unit.1 == unit_nanos(self.0 as nat),
    {
        let nanos = self.0;
        if nanos < 1_000 {
            ("ns", 1)
        } else if nanos < 1_000_000 {
            ("µs", 1_000)
        } else if nanos < 1_000_000_000 {
            ("ms", 1_000_000)
        } else if nanos < 60_000_000_000 {
            ("s", 1_000_000_000)
        } else if nanos < 3_600_000_000_000 {
            ("m", 60_000_000_000)
        } else {
            ("h", 3_600_000_000_000)
        }
    }

    /// The compact text, with spaces in front of the magnitude up to `width`
    /// characters and with `precision` fraction digits, if one is given.
    pub fn to_padded_string(&self, width: usize, precision: Option<usize>) -> (text: String)
        ensures
            text@ == duration_text(
                self.0 as nat,
                width as nat,
                match precision {
                    Some(places) => Some(places as nat),
                    None => None,
                },
            ),
    {
        let (suffix, unit) = self.unitify();
        let magnitude = match precision {
            Some(places) => precise_string(self.0, unit, places),
            None => short_string(self.0, unit),
        };
        let mut text = align_right(magnitude.as_str(), width);
        text.append(suffix);
        text
    }

    /// The compact text, as short as it can be.
    pub fn to_string(&self) -> (text: String)
        ensures
            text@ == duration_text(self.0 as nat, 0, None),
    {
        self.to_padded_string(0, None)
    }
}

impl From<u128> for ShortDurationFormatter {
    fn from(value: u128) -> (formatter: Self) {
        ShortDurationFormatter(value)
    }
}

impl vstd::std_specs::convert::FromSpecImpl<u128> for ShortDurationFormatter {
    open spec fn obeys_from_spec() -> bool {
        true
    }

    open spec fn from_spec(value: u128) -> Self {
        ShortDurationFormatter(value)
    }
}

/// The formatter for a length of time of `nanos` nanoseconds.
pub fn format_duration(nanos: u128) -> (formatter: ShortDurationFormatter)
    ensures
        formatter.0 == nanos,
{
    ShortDurationFormatter::from(nanos)
}

} // verus!
