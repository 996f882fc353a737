//! Timestamps: a signed number of milliseconds, read from and written as
//! `mm:ss.xx`.
use std::cmp::Ordering;
use vstd::arithmetic::div_mod::lemma_fundamental_div_mod_converse;
use vstd::prelude::*;
use crate::error::LyricsError;
use crate::text::{holds, is_digit, to_chars, to_string};

verus! {

/// A point in time, in milliseconds. It may be negative.
#[derive(Debug, PartialEq, Ord, Eq, Hash, Clone, Copy, Structural)]
pub struct Timestamp(i64);

/// The rule that a text breaks when it is no timestamp.
#[derive(Debug, Clone, Copy, PartialEq, Eq, Structural)]
pub enum ParseFailure {
    /// The text is not of the form `mm:ss` or `mm:ss.xx`.
    Format,
    /// More than one of the three numbers is negative.
    TooManySigns,
    /// The seconds are negative behind nonzero minutes.
    NegativeSecond,
    /// The hundredths are negative behind nonzero minutes or seconds.
    NegativeHundredth,
    /// The seconds are 60 or more.
    SecondOutOfRange,
}

/// The three numbers of a timestamp as they are written, each with the sign
/// that stands before it.
pub struct Fields {
    pub minute_signed: bool,
    pub minute: nat,
    pub second_signed: bool,
    pub second: nat,
    pub hundredth_signed: bool,
    pub hundredth: nat,
}

/// The value of the digit `c`.
pub open spec fn digit_value(c: char) -> nat {
    (c as u32 - '0' as u32) as nat
}

/// The number that the decimal digits `s` write.
pub open spec fn number(s: Seq<char>) -> nat
    decreases s.len(),
{
    if s.len() == 0 {
        0
    } else {
        number(s.drop_last()) * 10 + digit_value(s.last())
    }
}

/// The position behind the digits that start at `from`.
pub open spec fn digits_end(s: Seq<char>, from: int) -> int
    decreases s.len() - from,
{
    if 0 <= from < s.len() && is_digit(s[from]) {
        digits_end(s, from + 1)
    } else {
        from
    }
}

/// The position behind the minus sign at `from`, if there is one.
pub open spec fn sign_end(s: Seq<char>, from: int) -> int {
    if 0 <= from < s.len() && s[from] == '-' {
        from + 1
    } else {
        from
    }
}

/// The numbers and signs of `s` where `s` is, from its first to its last
/// character, an optional `-`, one to ten digits, `:`, an optional `-`, one or
/// two digits and then either nothing or `.`, an optional `-` and one or two
/// digits.
#[verifier::opaque]
pub open spec fn scan(s: Seq<char>) -> Option<Fields> {
    let m0 = sign_end(s, 0);
    let m1 = digits_end(s, m0);
    let s0 = sign_end(s, m1 + 1);
    let s1 = digits_end(s, s0);
    let h0 = sign_end(s, s1 + 1);
    let h1 = digits_end(s, h0);
    if !(1 <= m1 - m0 <= 10 && holds(s, m1, ':') && 1 <= s1 - s0 <= 2) {
        None
    } else if s1 == s.len() {
        Some(
            Fields {
                minute_signed: m0 == 1,
                minute: number(s.subrange(m0, m1)),
                second_signed: s0 == m1 + 2,
                second: number(s.subrange(s0, s1)),
                hundredth_signed: false,
                hundredth: 0,
            },
        )
    } else if holds(s, s1, '.') && 1 <= h1 - h0 <= 2 && h1 == s.len() {
        Some(
            Fields {
                minute_signed: m0 == 1,
                minute: number(s.subrange(m0, m1)),
                second_signed: s0 == m1 + 2,
                second: number(s.subrange(s0, s1)),
                hundredth_signed: h0 == s1 + 2,
                hundredth: number(s.subrange(h0, h1)),
            },
        )
    } else {
        None
    }
}

impl Fields {
    /// The minutes are negative: a sign before zero does not count.
    pub open spec fn minute_negative(self) -> bool {
        self.minute_signed && self.minute != 0
    }

    /// The seconds are negative: a sign before zero does not count.
    pub open spec fn second_negative(self) -> bool {
        self.second_signed && self.second != 0
    }

    /// The hundredths are negative: a sign before zero does not count.
    pub open spec fn hundredth_negative(self) -> bool {
        self.hundredth_signed && self.hundredth != 0
    }

    /// The milliseconds that the three numbers add up to, without the sign.
    pub open spec fn magnitude(self) -> nat {
        self.minute * 60000 + self.second * 1000 + self.hundredth * 10
    }

    /// The timestamp in milliseconds, or the rule that the numbers break.
    ///
    /// At most one number may be negative, and only the first that is not
    /// zero; the seconds stay under 60. The sign then holds for the whole value.
    pub open spec fn value(self) -> Result<int, ParseFailure> {
        if (self.minute_negative() && (self.second_negative() || self.hundredth_negative())) || (
        self.second_negative() && self.hundredth_negative()) {
            Err(ParseFailure::TooManySigns)
        } else if self.minute > 0 && self.second_negative() {
            Err(ParseFailure::NegativeSecond)
        } else if self.minute > 0 && self.hundredth_negative() {
            Err(ParseFailure::NegativeHundredth)
        } else if self.second > 0 && self.hundredth_negative() {
            Err(ParseFailure::NegativeHundredth)
        } else if self.second >= 60 {
            Err(ParseFailure::SecondOutOfRange)
        } else if self.minute_negative() || self.second_negative() || self.hundredth_negative() {
            Ok(-(self.magnitude() as int))
        } else {
            Ok(self.magnitude() as int)
        }
    }
}

/// What the text `s` means as a timestamp: its value in milliseconds, or the
/// rule that it breaks.
pub open spec fn parsed(s: Seq<char>) -> Result<int, ParseFailure> {
    match scan(s) {
        None => Err(ParseFailure::Format),
        Some(fields) => fields.value(),
    }
}

impl ParseFailure {
    /// The message that names the broken rule.
    pub open spec fn message(&self) -> Seq<char> {
        match self {
            ParseFailure::Format => "The format of the string is not incorrect. Is it mm:ss.xx?"@,
            ParseFailure::TooManySigns => "The format of the string is not incorrect. Too many negative signs."@,
            ParseFailure::NegativeSecond => "The format of the string is not incorrect. The number of seconds cannot be negative."@,
            ParseFailure::NegativeHundredth => "The format of the string is not incorrect. The number of hundredths of a second cannot be negative."@,
            ParseFailure::SecondOutOfRange => "The format of the string is not incorrect. The number of seconds must be smaller than 60."@,
        }
    }

    /// The message that names the broken rule.
    pub fn to_string(&self) -> (r: String)
        ensures
            r@ == self.message(),
    {
        match self {
            ParseFailure::Format => String::from_str(
                "The format of the string is not incorrect. Is it mm:ss.xx?",
            ),
            ParseFailure::TooManySigns => String::from_str(
                "The format of the string is not incorrect. Too many negative signs.",
            ),
            ParseFailure::NegativeSecond => String::from_str(
                "The format of the string is not incorrect. The number of seconds cannot be negative.",
            ),
            ParseFailure::NegativeHundredth => String::from_str(
                "The format of the string is not incorrect. The number of hundredths of a second cannot be negative.",
            ),
            ParseFailure::SecondOutOfRange => String::from_str(
                "The format of the string is not incorrect. The number of seconds must be smaller than 60.",
            ),
        }
    }
}

/// Every character of `s` between `from` and `to` is a digit.
pub open spec fn digits_between(s: Seq<char>, from: int, to: int) -> bool {
    forall|i: int| from <= i < to ==> is_digit(#[trigger] s[i])
}

/// A sign may stand at `at`, and the number behind it starts at `start`.
pub open spec fn sign_before(s: Seq<char>, at: int, start: int) -> bool {
    start == at || (start == at + 1 && holds(s, at, '-'))
}

/// `s` is of the form `mm:ss`: minutes of one to ten digits between `m0` and
/// `m1`, a colon, seconds of one or two digits between `s0` and `s1`, each
/// with or without a sign before it, and nothing else.
pub open spec fn short_form(s: Seq<char>, m0: int, m1: int, s0: int, s1: int) -> bool {
    &&& sign_before(s, 0, m0)
    &&& 1 <= m1 - m0 <= 10
    &&& digits_between(s, m0, m1)
    &&& holds(s, m1, ':')
    &&& sign_before(s, m1 + 1, s0)
    &&& 1 <= s1 - s0 <= 2
    &&& digits_between(s, s0, s1)
    &&& s1 == s.len()
}

/// `s` is of the form `mm:ss.xx`: minutes of one to ten digits between `m0`
/// and `m1`, a colon, seconds of one or two digits between `s0` and `s1`, a
/// point, hundredths of one or two digits between `h0` and `h1`, each with
/// or without a sign before it, and nothing else.
pub open spec fn long_form(
    s: Seq<char>,
    m0: int,
    m1: int,
    s0: int,
    s1: int,
    h0: int,
    h1: int,
) -> bool {
    &&& sign_before(s, 0, m0)
    &&& 1 <= m1 - m0 <= 10
    &&& digits_between(s, m0, m1)
    &&& holds(s, m1, ':')
    &&& sign_before(s, m1 + 1, s0)
    &&& 1 <= s1 - s0 <= 2
    &&& digits_between(s, s0, s1)
    &&& holds(s, s1, '.')
    &&& sign_before(s, s1 + 1, h0)
    &&& 1 <= h1 - h0 <= 2
    &&& digits_between(s, h0, h1)
    &&& h1 == s.len()
}

/// The character that writes the digit `d`.
pub open spec fn digit_char(d: nat) -> char {
    ('0' as u32 + d) as char
}

/// The decimal digits of `n`, without leading zeros.
pub open spec fn decimal(n: nat) -> Seq<char>
    decreases n,
{
    if n < 10 {
        seq![digit_char(n)]
    } else {
        decimal(n / 10).push(digit_char(n % 10))
    }
}

/// The decimal digits of `n`, with a leading zero where `n` is under ten.
pub open spec fn two_digits(n: nat) -> Seq<char> {
    if n < 10 {
        seq!['0'] + decimal(n)
    } else {
        decimal(n)
    }
}

/// The text of a timestamp of `millisecond` milliseconds: a `-` where it is
/// negative, then minutes, seconds and hundredths of its magnitude as
/// `mm:ss.xx`, each with at least two digits. The hundredths are the
/// milliseconds left over, rounded to the nearest ten, halves upwards.
pub open spec fn rendered(millisecond: int) -> Seq<char> {
    let magnitude = (if millisecond < 0 {
        -millisecond
    } else {
        millisecond
    }) as nat;
    let sign = if millisecond < 0 {
        seq!['-']
    } else {
        Seq::empty()
    };
    sign + two_digits(magnitude / 60000) + seq![':'] + two_digits(magnitude % 60000 / 1000)
        + seq!['.'] + two_digits((magnitude % 1000 + 5) / 10)
}

impl View for Timestamp {
    type V = int;

    /// The timestamp in milliseconds.
    closed spec fn view(&self) -> int {
        self.0 as int
    }
}

impl PartialOrd for Timestamp {
    /// Timestamps are ordered as their milliseconds are.
    fn partial_cmp(&self, other: &Timestamp) -> (r: Option<Ordering>) {
        if self.0 < other.0 {
            Some(Ordering::Less)
        } else if self.0 > other.0 {
            Some(Ordering::Greater)
        } else {
            Some(Ordering::Equal)
        }
    }
}

impl vstd::std_specs::cmp::PartialOrdSpecImpl for Timestamp {
    open spec fn obeys_partial_cmp_spec() -> bool {
        true
    }

    open spec fn partial_cmp_spec(&self, other: &Timestamp) -> Option<Ordering> {
        if self@ < other@ {
            Some(Ordering::Less)
        } else if self@ > other@ {
            Some(Ordering::Greater)
        } else {
            Some(Ordering::Equal)
        }
    }
}

impl From<Timestamp> for i64 {
    /// The timestamp in milliseconds.
    fn from(t: Timestamp) -> (r: i64) {
        t.0
    }
}

impl vstd::std_specs::convert::FromSpecImpl<Timestamp> for i64 {
    open spec fn obeys_from_spec() -> bool {
        true
    }

    open spec fn from_spec(t: Timestamp) -> i64 {
        t@ as i64
    }
}

impl Timestamp {
    /// The timestamp of `timestamp` milliseconds.
    pub fn new(timestamp: i64) -> (r: Timestamp)
        ensures
            r@ == timestamp,
    {
        Timestamp(timestamp)
    }

    /// The timestamp that `timestamp` writes, as `mm:ss` or `mm:ss.xx`.
    pub fn from_str(timestamp: &str) -> (r: Result<Timestamp, LyricsError>)
        ensures
            match r {
                Ok(t) => parsed(timestamp@) == Ok::<int, ParseFailure>(t@),
                Err(LyricsError::ParseError(message)) => parsed(timestamp@) is Err && message@
                    == parsed(timestamp@)->Err_0.message(),
                Err(_) => false,
            },
    {
        let chars = to_chars(timestamp);
        match parse(chars.as_slice()) {
            Ok(t) => Ok(t),
            Err(e) => Err(LyricsError::ParseError(e.to_string())),
        }
    }

    /// Appends the text of the timestamp to `buffer`.
    pub fn write(&self, buffer: &mut Vec<char>)
        ensures
            final(buffer)@ == old(buffer)@ + rendered(self@),
    {
        let value = self.0;
        let magnitude: u64 = if value == i64::MIN {
            9223372036854775808u64
        } else if value < 0 {
            (-value) as u64
        } else {
            value as u64
        };
        if value < 0 {
            buffer.push('-');
        }
        push_two_digits(buffer, magnitude / 60000);
        buffer.push(':');
        push_two_digits(buffer, magnitude % 60000 / 1000);
        buffer.push('.');
        push_two_digits(buffer, (magnitude % 1000 + 5) / 10);
        assert(buffer@ == old(buffer)@ + rendered(self@));
    }

    /// The text of the timestamp, as `mm:ss.xx`.
    pub fn to_string(&self) -> (r: String)
        ensures
            r@ == rendered(self@),
    {
        let mut buffer: Vec<char> = Vec::new();
        self.write(&mut buffer);
        to_string(buffer.as_slice())
    }

    /// The timestamp in milliseconds.
    pub fn get_timestamp(self) -> (r: i64)
        ensures
            r == self@,
    {
        self.0
    }
}

/// The timestamp that the characters `s` write, or the rule that they break.
pub fn parse(s: &[char]) -> (r: Result<Timestamp, ParseFailure>)
    ensures
        match r {
            Ok(t) => parsed(s@) == Ok::<int, ParseFailure>(t@),
            Err(e) => parsed(s@) == Err::<int, ParseFailure>(e),
        },
{
    match read_fields(s) {
        Some(numbers) => evaluate(numbers),
        None => Err(ParseFailure::Format),
    }
}

/// The three numbers of a timestamp as they were read, each with the sign
/// that stands before it.
struct Numbers {
    minute_signed: bool,
    minute: u64,
    second_signed: bool,
    second: u64,
    hundredth_signed: bool,
    hundredth: u64,
}

impl Numbers {
    /// The numbers and signs.
    spec fn fields(self) -> Fields {
        Fields {
            minute_signed: self.minute_signed,
            minute: self.minute as nat,
            second_signed: self.second_signed,
            second: self.second as nat,
            hundredth_signed: self.hundredth_signed,
            hundredth: self.hundredth as nat,
        }
    }

    /// The minutes have at most ten digits, the seconds and the hundredths at
    /// most two.
    spec fn bounded(self) -> bool {
        self.minute < 10_000_000_000 && self.second < 100 && self.hundredth < 100
    }
}

/// The numbers and signs that the characters `s` write, if they are of the
/// form `mm:ss` or `mm:ss.xx`.
fn read_fields(s: &[char]) -> (r: Option<Numbers>)
    ensures
        match r {
            Some(numbers) => scan(s@) == Some(numbers.fields()) && numbers.bounded(),
            None => scan(s@) is None,
        },
{
    proof {
        reveal(scan);
        reveal_with_fuel(pow10, 11);
    }
    let len = s.len();
    let m0 = find_sign_end(s, 0);
    let m1 = find_digits_end(s, m0);
    proof {
        lemma_digits_end(s@, m0 as int);
    }
    if m1 - m0 < 1 || m1 - m0 > 10 || m1 >= len || s[m1] != ':' {
        return None;
    }
    let s0 = find_sign_end(s, m1 + 1);
    let s1 = find_digits_end(s, s0);
    proof {
        lemma_digits_end(s@, s0 as int);
    }
    if s1 - s0 < 1 || s1 - s0 > 2 {
        return None;
    }
    let minute = read_number(s, m0, m1);
    let second = read_number(s, s0, s1);
    proof {
        lemma_pow10_monotonic((m1 - m0) as nat, 10);
        lemma_pow10_monotonic((s1 - s0) as nat, 2);
    }
    if s1 == len {
        return Some(
            Numbers {
                minute_signed: m0 == 1,
                minute,
                second_signed: s0 == m1 + 2,
                second,
                hundredth_signed: false,
                hundredth: 0,
            },
        );
    }
    if s[s1] != '.' {
        return None;
    }
    let h0 = find_sign_end(s, s1 + 1);
    let h1 = find_digits_end(s, h0);
    proof {
        lemma_digits_end(s@, h0 as int);
    }
    if h1 - h0 < 1 || h1 - h0 > 2 || h1 != len {
        return None;
    }
    let hundredth = read_number(s, h0, h1);
    proof {
        lemma_pow10_monotonic((h1 - h0) as nat, 2);
    }
    Some(
        Numbers {
            minute_signed: m0 == 1,
            minute,
            second_signed: s0 == m1 + 2,
            second,
            hundredth_signed: h0 == s1 + 2,
            hundredth,
        },
    )
}

/// The timestamp that the numbers add up to, or the rule that they break.
fn evaluate(numbers: Numbers) -> (r: Result<Timestamp, ParseFailure>)
    requires
        numbers.bounded(),
    ensures
        match r {
            Ok(t) => numbers.fields().value() == Ok::<int, ParseFailure>(t@),
            Err(e) => numbers.fields().value() == Err::<int, ParseFailure>(e),
        },
{
    let minute_negative = numbers.minute_signed && numbers.minute != 0;
    let second_negative = numbers.second_signed && numbers.second != 0;
    let hundredth_negative = numbers.hundredth_signed && numbers.hundredth != 0;
    if (minute_negative && (second_negative || hundredth_negative)) || (second_negative
        && hundredth_negative) {
        return Err(ParseFailure::TooManySigns);
    }
    if numbers.minute > 0 {
        if second_negative {
            return Err(ParseFailure::NegativeSecond);
        } else if hundredth_negative {
            return Err(ParseFailure::NegativeHundredth);
        }
    }
    if numbers.second > 0 {
        if hundredth_negative {
            return Err(ParseFailure::NegativeHundredth);
        } else if numbers.second >= 60 {
            return Err(ParseFailure::SecondOutOfRange);
        }
    }
    let magnitude: u64 = numbers.minute * 60000 + numbers.second * 1000 + numbers.hundredth * 10;
    let millisecond: i64 = if minute_negative || second_negative || hundredth_negative {
        -(magnitude as i64)
    } else {
        magnitude as i64
    };
    Ok(Timestamp(millisecond))
}

/// The position behind the minus sign at `from`, if there is one.
fn find_sign_end(s: &[char], from: usize) -> (end: usize)
    requires
        from <= s.len(),
    ensures
        end == sign_end(s@, from as int),
{
    if from < s.len() && s[from] == '-' {
        from + 1
    } else {
        from
    }
}

/// The position behind the digits that start at `from`.
fn find_digits_end(s: &[char], from: usize) -> (end: usize)
    requires
        from <= s.len(),
    ensures
        end == digits_end(s@, from as int),
        from <= end <= s.len(),
{
    let mut end: usize = from;
    while end < s.len() && is_digit(s[end])
        invariant
            from <= end <= s.len(),
            digits_end(s@, end as int) == digits_end(s@, from as int),
        decreases s.len() - end,
    {
        end += 1;
    }
    end
}

/// The number that the digits of `s` between `from` and `to` write.
fn read_number(s: &[char], from: usize, to: usize) -> (n: u64)
    requires
        from <= to <= s.len(),
        to - from <= 10,
        forall|i: int| from <= i < to ==> is_digit(#[trigger] s[i]),
    ensures
        n == number(s@.subrange(from as int, to as int)),
        n < pow10((to - from) as nat),
{
    let mut n: u64 = 0;
    let mut at: usize = from;
    while at < to
        invariant
            from <= at <= to <= s.len(),
            to - from <= 10,
            forall|i: int| from <= i < to ==> is_digit(#[trigger] s[i]),
            n == number(s@.subrange(from as int, at as int)),
            n < pow10((at - from) as nat),
        decreases to - at,
    {
        let c = s[at];
        assert(is_digit(s[at as int]));
        proof {
            reveal_with_fuel(pow10, 11);
            let k = (at - from) as nat;
            assert(pow10(k) <= pow10(9)) by {
                lemma_pow10_monotonic(k, 9);
            }
            assert(s@.subrange(from as int, at as int + 1).drop_last() == s@.subrange(
                from as int,
                at as int,
            ));
        }
        n = n * 10 + (c as u32 - '0' as u32) as u64;
        at += 1;
    }
    n
}

/// Appends the decimal digits of `n` to `buffer`.
fn push_decimal(buffer: &mut Vec<char>, n: u64)
    ensures
        final(buffer)@ == old(buffer)@ + decimal(n as nat),
    decreases n,
{
    if n >= 10 {
        push_decimal(buffer, n / 10);
    }
    let d: u8 = (n % 10) as u8;
    buffer.push((48u8 + d) as char);
}

/// Appends the decimal digits of `n` to `buffer`, two at least.
fn push_two_digits(buffer: &mut Vec<char>, n: u64)
    ensures
        final(buffer)@ == old(buffer)@ + two_digits(n as nat),
{
    if n < 10 {
        buffer.push('0');
    }
    push_decimal(buffer, n);
}

/// Ten to the power of `n`.
pub open spec fn pow10(n: nat) -> nat
    decreases n,
{
    if n == 0 {
        1
    } else {
        10 * pow10((n - 1) as nat)
    }
}

/// Ten to a smaller power is no more than ten to a larger one.
pub proof fn lemma_pow10_monotonic(a: nat, b: nat)
    requires
        a <= b,
    ensures
        pow10(a) <= pow10(b),
        pow10(a) >= 1,
    decreases b,
{
    if a < b {
        lemma_pow10_monotonic(a, (b - 1) as nat);
    } else if a > 0 {
        lemma_pow10_monotonic((a - 1) as nat, (a - 1) as nat);
    }
}

/// The digits between `from` and `digits_end(s, from)` are digits, and what
/// follows them is none.
pub proof fn lemma_digits_end(s: Seq<char>, from: int)
    requires
        0 <= from <= s.len(),
    ensures
        from <= digits_end(s, from) <= s.len(),
        forall|i: int| from <= i < digits_end(s, from) ==> is_digit(#[trigger] s[i]),
        digits_end(s, from) < s.len() ==> !is_digit(s[digits_end(s, from)]),
    decreases s.len() - from,
{
    if from < s.len() && is_digit(s[from]) {
        lemma_digits_end(s, from + 1);
    }
}

/// A run of digits that ends at `to` ends the digits that start at `from`.
pub proof fn lemma_digits_end_is(s: Seq<char>, from: int, to: int)
    requires
        0 <= from <= to <= s.len(),
        forall|i: int| from <= i < to ==> is_digit(#[trigger] s[i]),
        to < s.len() ==> !is_digit(s[to]),
    ensures
        digits_end(s, from) == to,
    decreases to - from,
{
    if from < to {
        lemma_digits_end_is(s, from + 1, to);
    }
}

/// A number of `n` digits is less than ten to the power of `n`.
pub proof fn lemma_number_bound(s: Seq<char>)
    requires
        forall|i: int| 0 <= i < s.len() ==> is_digit(#[trigger] s[i]),
    ensures
        number(s) < pow10(s.len()),
    decreases s.len(),
{
    if s.len() > 0 {
        lemma_number_bound(s.drop_last());
        assert(is_digit(s[s.len() - 1]));
    }
}

/// The decimal digits of a number are digits, and they write that number.
pub proof fn lemma_decimal(n: nat)
    ensures
        decimal(n).len() >= 1,
        forall|i: int| 0 <= i < decimal(n).len() ==> is_digit(#[trigger] decimal(n)[i]),
        number(decimal(n)) == n,
    decreases n,
{
    let last = digit_char(n % 10);
    assert(is_digit(last) && digit_value(last) == n % 10);
    if n >= 10 {
        lemma_decimal(n / 10);
        assert(decimal(n).drop_last() == decimal(n / 10));
        assert(decimal(n).last() == last);
        assert(number(decimal(n)) == number(decimal(n / 10)) * 10 + digit_value(last));
    } else {
        assert(decimal(n).drop_last() == Seq::<char>::empty());
        assert(decimal(n).last() == last);
        assert(number(decimal(n)) == number(Seq::<char>::empty()) * 10 + digit_value(last));
    }
}

/// A number under ten to the power of `k` has at most `k` decimal digits.
pub proof fn lemma_decimal_len(n: nat, k: nat)
    requires
        k >= 1,
        n < pow10(k),
    ensures
        decimal(n).len() <= k,
    decreases n,
{
    if n >= 10 {
        assert(pow10(1) == 10) by {
            reveal_with_fuel(pow10, 2);
        }
        assert(pow10(k) == 10 * pow10((k - 1) as nat));
        if k >= 2 {
            lemma_decimal_len(n / 10, (k - 1) as nat);
        }
    }
}

/// The text of a number with at least two digits holds two digits at least,
/// and they write that number.
pub proof fn lemma_two_digits(n: nat)
    ensures
        two_digits(n).len() >= 2,
        n < 100 ==> two_digits(n).len() == 2,
        forall|i: int| 0 <= i < two_digits(n).len() ==> is_digit(#[trigger] two_digits(n)[i]),
        number(two_digits(n)) == n,
{
    lemma_decimal(n);
    if n < 10 {
        let d = two_digits(n);
        assert(d.drop_last() == seq!['0']);
        assert(seq!['0'].drop_last() == Seq::<char>::empty());
        reveal_with_fuel(number, 3);
    } else {
        lemma_decimal(n / 10);
        if n < 100 {
            assert(decimal(n / 10).len() == 1);
        }
    }
}

/// A text of the form `mm:ss` is read as the numbers and signs that it
/// writes.
pub proof fn lemma_scan_short(s: Seq<char>, m0: int, m1: int, s0: int, s1: int)
    requires
        short_form(s, m0, m1, s0, s1),
    ensures
        scan(s) == Some(
            Fields {
                minute_signed: m0 == 1,
                minute: number(s.subrange(m0, m1)),
                second_signed: s0 == m1 + 2,
                second: number(s.subrange(s0, s1)),
                hundredth_signed: false,
                hundredth: 0,
            },
        ),
{
    reveal(scan);
    assert(is_digit(s[m0]) && is_digit(s[s0]));
    lemma_digits_end_is(s, m0, m1);
    lemma_digits_end_is(s, s0, s1);
}

/// A text of the form `mm:ss.xx` is read as the numbers and signs that it
/// writes.
pub proof fn lemma_scan_long(s: Seq<char>, m0: int, m1: int, s0: int, s1: int, h0: int, h1: int)
    requires
        long_form(s, m0, m1, s0, s1, h0, h1),
    ensures
        scan(s) == Some(
            Fields {
                minute_signed: m0 == 1,
                minute: number(s.subrange(m0, m1)),
                second_signed: s0 == m1 + 2,
                second: number(s.subrange(s0, s1)),
                hundredth_signed: h0 == s1 + 2,
                hundredth: number(s.subrange(h0, h1)),
            },
        ),
{
    reveal(scan);
    assert(is_digit(s[m0]) && is_digit(s[s0]) && is_digit(s[h0]));
    lemma_digits_end_is(s, m0, m1);
    lemma_digits_end_is(s, s0, s1);
    lemma_digits_end_is(s, h0, h1);
}

/// The numbers that are read of a text are those of at most ten and of at
/// most two digits.
pub proof fn lemma_scan_bounds(s: Seq<char>)
    requires
        scan(s) is Some,
    ensures
        scan(s)->0.minute < 10_000_000_000,
        scan(s)->0.second < 100,
        scan(s)->0.hundredth < 100,
{
    reveal(scan);
    let m0 = sign_end(s, 0);
    let m1 = digits_end(s, m0);
    let s0 = sign_end(s, m1 + 1);
    let s1 = digits_end(s, s0);
    let h0 = sign_end(s, s1 + 1);
    let h1 = digits_end(s, h0);
    reveal_with_fuel(pow10, 11);
    assert(scan(s)->0.minute < 10_000_000_000) by {
        lemma_digits_end(s, m0);
        lemma_number_bound(s.subrange(m0, m1));
        lemma_pow10_monotonic((m1 - m0) as nat, 10);
    }
    assert(scan(s)->0.second < 100) by {
        lemma_digits_end(s, s0);
        lemma_number_bound(s.subrange(s0, s1));
        lemma_pow10_monotonic((s1 - s0) as nat, 2);
    }
    if s1 != s.len() {
        assert(scan(s)->0.hundredth < 100) by {
            lemma_digits_end(s, h0);
            lemma_number_bound(s.subrange(h0, h1));
            lemma_pow10_monotonic((h1 - h0) as nat, 2);
        }
    }
}

/// A timestamp starts with a digit, or with a sign and a digit.
pub proof fn lemma_scan_start(s: Seq<char>)
    requires
        scan(s) is Some,
    ensures
        s.len() > 0,
        is_digit(s[0]) || (s[0] == '-' && s.len() > 1 && is_digit(s[1])),
{
    reveal(scan);
    lemma_digits_end(s, sign_end(s, 0));
}

/// In a timestamp the first colon is followed by a digit, or by a sign.
pub proof fn lemma_scan_colon(s: Seq<char>, colon: int)
    requires
        scan(s) is Some,
        holds(s, colon, ':'),
        forall|i: int| 0 <= i < colon ==> s[i] != ':',
    ensures
        colon + 1 < s.len(),
        is_digit(s[colon + 1]) || s[colon + 1] == '-',
{
    reveal(scan);
    let m0 = sign_end(s, 0);
    let m1 = digits_end(s, m0);
    lemma_digits_end(s, m0);
    assert(m1 == colon) by {
        if m1 > colon {
            assert(is_digit(s[colon]));
        }
    }
    lemma_digits_end(s, sign_end(s, m1 + 1));
}

/// The shape of the text of a timestamp: a colon stands behind the sign and
/// the digits of the minutes, and digits and a point stand behind the colon,
/// a digit at the end.
pub proof fn lemma_rendered_shape(millisecond: int) -> (colon: int)
    ensures
        2 <= colon < rendered(millisecond).len() - 1,
        holds(rendered(millisecond), colon, ':'),
        forall|i: int|
            0 <= i < colon ==> is_digit(#[trigger] rendered(millisecond)[i]) || rendered(
                millisecond,
            )[i] == '-',
        forall|i: int|
            colon < i < rendered(millisecond).len() ==> is_digit(
                #[trigger] rendered(millisecond)[i],
            ) || rendered(millisecond)[i] == '.',
        is_digit(rendered(millisecond).last()),
{
    let magnitude = (if millisecond < 0 {
        -millisecond
    } else {
        millisecond
    }) as nat;
    let sign = sign_text(millisecond < 0);
    let a = two_digits(magnitude / 60000);
    let b = two_digits(magnitude % 60000 / 1000);
    let c = two_digits((magnitude % 1000 + 5) / 10);
    let s = rendered(millisecond);
    lemma_two_digits(magnitude / 60000);
    lemma_two_digits(magnitude % 60000 / 1000);
    lemma_two_digits((magnitude % 1000 + 5) / 10);
    let colon = (sign.len() + a.len()) as int;
    assert(s == sign + a + seq![':'] + b + seq!['.'] + c);
    assert forall|i: int| 0 <= i < colon implies is_digit(#[trigger] s[i]) || s[i] == '-' by {
        if i >= sign.len() {
            assert(s[i] == a[i - sign.len()]);
        }
    }
    assert forall|i: int| colon < i < s.len() implies is_digit(#[trigger] s[i]) || s[i] == '.' by {
        if i < colon + 3 {
            assert(s[i] == b[i - colon - 1]);
        } else if i > colon + 3 {
            assert(s[i] == c[i - colon - 4]);
        }
    }
    assert(s.last() == c.last());
    colon
}

/// A minus sign, or nothing.
spec fn sign_text(signed: bool) -> Seq<char> {
    if signed {
        seq!['-']
    } else {
        Seq::empty()
    }
}

/// A text made of a sign, minutes, a colon, seconds of two digits, a point
/// and hundredths of two digits is read as these numbers.
proof fn lemma_scan_rendered(s: Seq<char>, signed: bool, minute: nat, second: nat, hundredth: nat)
    requires
        s == sign_text(signed) + two_digits(minute) + seq![':'] + two_digits(second) + seq!['.']
            + two_digits(hundredth),
        minute < 10_000_000_000,
        second < 100,
        hundredth < 100,
    ensures
        scan(s) == Some(
            Fields {
                minute_signed: signed,
                minute,
                second_signed: false,
                second,
                hundredth_signed: false,
                hundredth,
            },
        ),
{
    let a = two_digits(minute);
    let b = two_digits(second);
    let c = two_digits(hundredth);
    lemma_two_digits(minute);
    lemma_two_digits(second);
    lemma_two_digits(hundredth);
    assert(a.len() <= 10) by {
        reveal_with_fuel(pow10, 11);
        lemma_decimal_len(minute, 10);
    }
    let m0 = sign_text(signed).len() as int;
    let m1 = m0 + a.len();
    assert(s.len() == m1 + 6);
    assert(sign_before(s, 0, m0));
    assert(holds(s, m1, ':'));
    assert(holds(s, m1 + 3, '.'));
    assert(s.subrange(m0, m1) =~= a);
    assert(s.subrange(m1 + 1, m1 + 3) =~= b);
    assert(s.subrange(m1 + 4, m1 + 6) =~= c);
    assert(digits_between(s, m0, m1)) by {
        assert forall|i: int| m0 <= i < m1 implies is_digit(#[trigger] s[i]) by {
            assert(s[i] == a[i - m0]);
        }
    }
    assert(digits_between(s, m1 + 1, m1 + 3)) by {
        assert forall|i: int| m1 + 1 <= i < m1 + 3 implies is_digit(#[trigger] s[i]) by {
            assert(s[i] == b[i - m1 - 1]);
        }
    }
    assert(digits_between(s, m1 + 4, m1 + 6)) by {
        assert forall|i: int| m1 + 4 <= i < m1 + 6 implies is_digit(#[trigger] s[i]) by {
            assert(s[i] == c[i - m1 - 4]);
        }
    }
    lemma_scan_long(s, m0, m1, m1 + 1, m1 + 3, m1 + 4, m1 + 6);
}

/// Whole hundredths of a second are made of their minutes, seconds and
/// hundredths.
proof fn lemma_magnitude_parts(magnitude: nat)
    requires
        magnitude % 10 == 0,
    ensures
        magnitude / 60000 * 60000 + magnitude % 60000 / 1000 * 1000 + (magnitude % 1000 + 5) / 10
            * 10 == magnitude,
        magnitude % 60000 / 1000 < 60,
        (magnitude % 1000 + 5) / 10 < 100,
{
    let whole = magnitude as int;
    let minute = whole / 60000;
    let below = whole % 60000;
    let second = below / 1000;
    let millisecond = below % 1000;
    let hundredth = millisecond / 10;
    let left = millisecond % 10;
    assert(whole == minute * 60000 + below);
    assert(below == second * 1000 + millisecond);
    assert(millisecond == hundredth * 10 + left);
    lemma_fundamental_div_mod_converse(whole, 1000, minute * 60 + second, millisecond);
    lemma_fundamental_div_mod_converse(
        whole,
        10,
        (minute * 60 + second) * 100 + hundredth,
        left,
    );
    lemma_fundamental_div_mod_converse(millisecond + 5, 10, hundredth, 5);
}

/// The texts that are read as numbers and signs are those of the forms
/// `mm:ss` and `mm:ss.xx`, and no others.
pub proof fn law_scan_reads_the_forms(s: Seq<char>)
    ensures
        scan(s) is Some <==> (exists|m0: int, m1: int, s0: int, s1: int|
            short_form(s, m0, m1, s0, s1)) || (exists|
            m0: int,
            m1: int,
            s0: int,
            s1: int,
            h0: int,
            h1: int,
        |
            long_form(s, m0, m1, s0, s1, h0, h1)),
{
    if exists|m0: int, m1: int, s0: int, s1: int| short_form(s, m0, m1, s0, s1) {
        let (m0, m1, s0, s1) = choose|m0: int, m1: int, s0: int, s1: int|
            short_form(s, m0, m1, s0, s1);
        lemma_scan_short(s, m0, m1, s0, s1);
    }
    if exists|m0: int, m1: int, s0: int, s1: int, h0: int, h1: int|
        long_form(s, m0, m1, s0, s1, h0, h1) {
        let (m0, m1, s0, s1, h0, h1) = choose|m0: int, m1: int, s0: int, s1: int, h0: int, h1: int|
            long_form(s, m0, m1, s0, s1, h0, h1);
        lemma_scan_long(s, m0, m1, s0, s1, h0, h1);
    }
    if scan(s) is Some {
        reveal(scan);
        let m0 = sign_end(s, 0);
        let m1 = digits_end(s, m0);
        let s0 = sign_end(s, m1 + 1);
        let s1 = digits_end(s, s0);
        let h0 = sign_end(s, s1 + 1);
        let h1 = digits_end(s, h0);
        lemma_digits_end(s, m0);
        lemma_digits_end(s, s0);
        if s1 == s.len() {
            assert(short_form(s, m0, m1, s0, s1));
        } else {
            lemma_digits_end(s, h0);
            assert(long_form(s, m0, m1, s0, s1, h0, h1));
        }
    }
}

/// The text of a negative timestamp of less than a minute reads back as the
/// same time after zero: the sign stands before minutes that are zero, where
/// it does not count.
pub proof fn law_sign_before_zero_is_lost(millisecond: int)
    requires
        millisecond % 10 == 0,
        -60000 < millisecond < 0,
    ensures
        parsed(rendered(millisecond)) == Ok::<int, ParseFailure>(-millisecond),
{
    let magnitude = (-millisecond) as nat;
    lemma_magnitude_parts(magnitude);
    lemma_scan_rendered(
        rendered(millisecond),
        true,
        0,
        magnitude % 60000 / 1000,
        (magnitude % 1000 + 5) / 10,
    );
}

/// A timestamp that a text writes is a whole number of hundredths of a
/// second, and its minutes have at most ten digits.
pub proof fn law_parsed_range(s: Seq<char>)
    requires
        parsed(s) is Ok,
    ensures
        parsed(s)->Ok_0 % 10 == 0,
        -600_000_000_000_000 < parsed(s)->Ok_0 < 600_000_000_000_000,
{
    lemma_scan_bounds(s);
}

/// The text of a timestamp reads back as that timestamp.
///
/// This holds of the timestamps that a text can write: whole hundredths of a
/// second, with minutes of at most ten digits. It does not hold of a negative
/// timestamp of less than a minute: its text has the sign before minutes that
/// are zero, where a sign does not count.
pub proof fn law_rendered_parses_back(millisecond: int)
    requires
        millisecond % 10 == 0,
        -600_000_000_000_000 < millisecond < 600_000_000_000_000,
        millisecond >= 0 || millisecond <= -60000,
    ensures
        parsed(rendered(millisecond)) == Ok::<int, ParseFailure>(millisecond),
{
    let magnitude = (if millisecond < 0 {
        -millisecond
    } else {
        millisecond
    }) as nat;
    let minute = magnitude / 60000;
    let second = magnitude % 60000 / 1000;
    let hundredth = (magnitude % 1000 + 5) / 10;
    lemma_magnitude_parts(magnitude);
    lemma_scan_rendered(rendered(millisecond), millisecond < 0, minute, second, hundredth);
}

/// Writing a timestamp that was read and reading it again gives the same
/// timestamp, and so the same text once more.
///
/// This does not hold of a text that writes a negative timestamp of less than
/// a minute, such as `00:-12.34`: it is written as `-00:12.34`, and there the
/// sign stands before minutes that are zero, where it does not count.
pub proof fn law_text_is_stable(s: Seq<char>)
    requires
        parsed(s) is Ok,
        parsed(s)->Ok_0 >= 0 || parsed(s)->Ok_0 <= -60000,
    ensures
        parsed(rendered(parsed(s)->Ok_0)) == parsed(s),
        rendered(parsed(rendered(parsed(s)->Ok_0))->Ok_0) == rendered(parsed(s)->Ok_0),
{
    law_parsed_range(s);
    law_rendered_parses_back(parsed(s)->Ok_0);
}

} // verus!
