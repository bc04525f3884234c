//! The configuration of a game: the two symbols, the pace, and the first
//! generation as rows of text.
//!
//! A configuration is written as a header line `alive:dead:interval`
//! followed by the rows of the grid, one per line. Parsing fails fast: a
//! header that is absent or malformed, or an interval that is no number, is
//! an error, and no default is ever put in its place. The header is read
//! field by field from the left, and the first fault found is the one
//! reported: an empty symbol field comes before a wrong number of fields.

use vstd::prelude::*;
use crate::text::{chars_of, split, split_chars, string_of, views};

verus! {

/// Why an interval field writes no number.
#[derive(Clone, Copy, Debug, PartialEq, Eq, Structural)]
pub enum IntervalError {
    /// The field is empty.
    Empty,
    /// The field holds a character that is no decimal digit, or a sign with
    /// nothing behind it.
    InvalidDigit,
    /// The digits write a number that does not fit in 64 bits.
    TooLarge,
}

/// Why a configuration text was turned down.
#[derive(Clone, Copy, Debug, PartialEq, Eq, Structural)]
pub enum ConfigError {
    /// The first line is empty, so there is no header.
    MissingHeader,
    /// The first field of the header, that of the alive symbol, is empty.
    EmptyAlive,
    /// The header has a second field, that of the dead symbol, and it is
    /// empty.
    EmptyDead,
    /// The header has its symbols but not exactly three fields between
    /// colons.
    HeaderFields,
    /// The interval is not a decimal number that fits in 64 bits.
    Interval(IntervalError),
}

impl ConfigError {
    /// Whether the header's shape is at fault, as opposed to its interval.
    pub open spec fn spec_is_format_error(self) -> bool {
        !(self is Interval)
    }

    /// Whether the header's shape is at fault, as opposed to its interval.
    #[verifier::when_used_as_spec(spec_is_format_error)]
    pub fn is_format_error(self) -> (b: bool)
        ensures
            b == self.spec_is_format_error(),
    {
        match self {
            ConfigError::Interval(_) => false,
            _ => true,
        }
    }
}

/// A parsed configuration.
#[derive(Debug)]
pub struct GameConf {
    /// The character that stands for a live cell.
    pub alive: char,
    /// The character that stands for a dead cell.
    pub dead: char,
    /// The time between two generations, in milliseconds.
    pub millis: u64,
    /// The rows of the first generation, top to bottom.
    pub starting_value: Vec<String>,
}

/// What a configuration holds, as plain mathematical values.
pub struct ConfView {
    pub alive: char,
    pub dead: char,
    pub millis: u64,
    pub rows: Seq<Seq<char>>,
}

impl View for GameConf {
    type V = ConfView;

    open spec fn view(&self) -> ConfView {
        ConfView {
            alive: self.alive,
            dead: self.dead,
            millis: self.millis,
            rows: views(self.starting_value@),
        }
    }
}

/// Whether `c` is one of the ten decimal digits.
pub open spec fn is_digit(c: char) -> bool {
    '0' <= c && c <= '9'
}

/// The number that the digit `c` stands for.
pub open spec fn digit_value(c: char) -> nat {
    (c as int - '0' as int) as nat
}

/// Whether every character of `s` is a decimal digit.
pub open spec fn all_digits(s: Seq<char>) -> bool {
    forall|i: int| 0 <= i < s.len() ==> is_digit(#[trigger] s[i])
}

/// The number that the digits of `s` write in base ten; 0 for no digits.
pub open spec fn decimal_value(s: Seq<char>) -> nat
    decreases s.len(),
{
    if s.len() == 0 {
        0
    } else {
        decimal_value(s.drop_last()) * 10 + digit_value(s.last())
    }
}

/// The digits of an interval field: the field without a leading `+`.
pub open spec fn unsigned_part(field: Seq<char>) -> Seq<char> {
    if field.len() > 0 && field[0] == '+' {
        field.skip(1)
    } else {
        field
    }
}

/// How many decimal digits `s` begins with.
pub open spec fn leading_digits(s: Seq<char>) -> nat
    decreases s.len(),
{
    if s.len() == 0 || !is_digit(s[0]) {
        0
    } else {
        1 + leading_digits(s.skip(1))
    }
}

/// The interval that `field` writes: one or more decimal digits, with an
/// optional `+` in front, whose value fits in 64 bits. Anything else,
/// spaces included, writes none.
///
/// The field is read from the left, and the first fault met is the one
/// reported: digits that grow past 64 bits before any other character is
/// met are too large, whatever follows them.
pub open spec fn interval_of(field: Seq<char>) -> Result<u64, IntervalError> {
    let digits = unsigned_part(field);
    let run = digits.take(leading_digits(digits) as int);
    if field.len() == 0 {
        Err(IntervalError::Empty)
    } else if decimal_value(run) > u64::MAX {
        Err(IntervalError::TooLarge)
    } else if digits.len() == 0 || run.len() < digits.len() {
        Err(IntervalError::InvalidDigit)
    } else {
        Ok(decimal_value(digits) as u64)
    }
}

/// What a configuration text means.
///
/// The text is cut into lines at every line feed. The first line is the
/// header; it has three fields between colons. The first character of the
/// first field is the alive symbol, that of the second the dead symbol, and
/// the third field is the interval. The lines after the header are the rows,
/// kept as they stand.
///
/// The faults of a header are looked for in this order, and the first one
/// found is the error: no header at all, an empty alive field, an empty dead
/// field, a number of fields other than three, a bad interval. So an empty
/// symbol field is reported as such however many fields the header has.
pub open spec fn parse_conf(text: Seq<char>) -> Result<ConfView, ConfigError> {
    let lines = split(text, '\n');
    let fields = split(lines[0], ':');
    if lines[0].len() == 0 {
        Err(ConfigError::MissingHeader)
    } else if fields[0].len() == 0 {
        Err(ConfigError::EmptyAlive)
    } else if fields.len() >= 2 && fields[1].len() == 0 {
        Err(ConfigError::EmptyDead)
    } else if fields.len() != 3 {
        Err(ConfigError::HeaderFields)
    } else {
        match interval_of(fields[2]) {
            Err(cause) => Err(ConfigError::Interval(cause)),
            Ok(millis) => Ok(
                ConfView { alive: fields[0][0], dead: fields[1][0], millis, rows: lines.skip(1) },
            ),
        }
    }
}

/// A longer run of digits writes a number at least as large.
pub proof fn lemma_decimal_value_grows(s: Seq<char>, n: int)
    requires
        0 <= n <= s.len(),
    ensures
        decimal_value(s.take(n)) <= decimal_value(s),
    decreases s.len(),
{
    if n == s.len() {
        assert(s.take(n) =~= s);
    } else {
        lemma_decimal_value_grows(s.drop_last(), n);
        assert(s.drop_last().take(n) =~= s.take(n));
    }
}

/// The digits that `s` begins with are digits, and what follows them, if
/// anything, is none.
pub proof fn lemma_leading_digits(s: Seq<char>)
    ensures
        leading_digits(s) <= s.len(),
        all_digits(s.take(leading_digits(s) as int)),
        leading_digits(s) < s.len() ==> !is_digit(s[leading_digits(s) as int]),
    decreases s.len(),
{
    if s.len() > 0 && is_digit(s[0]) {
        let rest = s.skip(1);
        lemma_leading_digits(rest);
        let n = leading_digits(s) as int;
        assert forall|i: int| 0 <= i < s.take(n).len() implies is_digit(#[trigger] s.take(n)[i]) by {
            if i > 0 {
                assert(s.take(n)[i] == rest.take(n - 1)[i - 1]);
            }
        }
        if n < s.len() {
            assert(s[n] == rest[n - 1]);
        }
    }
}

/// A run of digits at the front of `s` that ends at the end of `s`, or at a
/// character that is no digit, is all the digits that `s` begins with.
pub proof fn lemma_leading_digits_end(s: Seq<char>, k: int)
    requires
        0 <= k <= s.len(),
        all_digits(s.take(k)),
        k < s.len() ==> !is_digit(s[k]),
    ensures
        leading_digits(s) == k,
{
    lemma_leading_digits(s);
    let n = leading_digits(s) as int;
    if k < n {
        assert(s.take(n)[k] == s[k]);
    } else if n < k {
        assert(s.take(k)[n] == s[n]);
    }
}

/// Reads the interval that `field` writes.
pub fn parse_interval(field: &Vec<char>) -> (r: Result<u64, IntervalError>)
    ensures
        r == interval_of(field@),
{
    if field.len() == 0 {
        return Err(IntervalError::Empty);
    }
    let start: usize = if field[0] == '+' {
        1
    } else {
        0
    };
    let ghost digits = unsigned_part(field@);
    let mut value: u64 = 0;
    let mut i: usize = start;
    while i < field.len()
        invariant
            start <= i <= field.len(),
            field.len() > 0,
            digits == unsigned_part(field@),
            digits == field@.skip(start as int),
            all_digits(digits.take(i - start)),
            value == decimal_value(digits.take(i - start)),
        decreases field.len() - i,
    {
        let c = field[i];
        let ghost seen = digits.take(i - start);
        let ghost more = digits.take(i - start + 1);
        assert(more.drop_last() =~= seen);
        assert(more.last() == c);
        if !(c >= '0' && c <= '9') {
            proof {
                lemma_leading_digits_end(digits, i - start);
            }
            return Err(IntervalError::InvalidDigit);
        }
        let d: u64 = (c as u32 - '0' as u32) as u64;
        assert(d == digit_value(c));
        if value > (u64::MAX - d) / 10 {
            proof {
                assert(decimal_value(more) > u64::MAX);
                lemma_leading_digits(digits);
                let n = leading_digits(digits) as int;
                if n < i - start + 1 {
                    assert(more[n] == digits[n]);
                    assert(is_digit(more[n]));
                }
                let run = digits.take(n);
                assert(run.take(i - start + 1) =~= more);
                lemma_decimal_value_grows(run, i - start + 1);
            }
            return Err(IntervalError::TooLarge);
        }
        value = value * 10 + d;
        i += 1;
    }
    proof {
        lemma_leading_digits_end(digits, field.len() - start);
        assert(digits.take(field.len() - start) =~= digits);
    }
    if start == field.len() {
        return Err(IntervalError::InvalidDigit);
    }
    Ok(value)
}

impl GameConf {
    /// Parses a configuration text.
    pub fn new(contents: &String) -> (r: Result<GameConf, ConfigError>)
        ensures
            r is Ok ==> parse_conf(contents@) == Ok::<ConfView, ConfigError>(r->Ok_0@),
            r is Err ==> parse_conf(contents@) == Err::<ConfView, ConfigError>(r->Err_0),
    {
        let text = chars_of(contents.as_str());
        let lines = split_chars(&text, '\n');
        proof {
            crate::text::lemma_split_pieces(text@, '\n');
        }
        assert(views(lines@)[0] == lines@[0]@);
        if lines[0].len() == 0 {
            return Err(ConfigError::MissingHeader);
        }
        let fields = split_chars(&lines[0], ':');
        proof {
            crate::text::lemma_split_pieces(lines@[0]@, ':');
        }
        assert(views(fields@)[0] == fields@[0]@);
        if fields[0].len() == 0 {
            return Err(ConfigError::EmptyAlive);
        }
        if fields.len() >= 2 {
            assert(views(fields@)[1] == fields@[1]@);
            if fields[1].len() == 0 {
                return Err(ConfigError::EmptyDead);
            }
        }
        if fields.len() != 3 {
            return Err(ConfigError::HeaderFields);
        }
        assert(views(fields@)[2] == fields@[2]@);
        let millis = match parse_interval(&fields[2]) {
            Ok(millis) => millis,
            Err(cause) => {
                return Err(ConfigError::Interval(cause));
            },
        };
        let mut starting_value: Vec<String> = Vec::new();
        let mut i: usize = 1;
        while i < lines.len()
            invariant
                1 <= i <= lines.len(),
                starting_value@.len() == i - 1,
                forall|k: int| 0 <= k < i - 1 ==> (#[trigger] starting_value@[k])@ == lines@[k + 1]@,
            decreases lines.len() - i,
        {
            starting_value.push(string_of(&lines[i]));
            i += 1;
        }
        let conf = GameConf { alive: fields[0][0], dead: fields[1][0], millis, starting_value };
        assert(conf@.rows =~= views(lines@).skip(1));
        Ok(conf)
    }
}

} // verus!
