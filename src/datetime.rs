use vstd::prelude::*;
use crate::error::ParseError;

verus! {

/// Date with no time or offset (RFC 3339 `full-date`).
#[derive(Clone, Copy, Debug, PartialEq, Eq, Structural)]
pub struct Date {
    year: u16,
    month: u8,
    day: u8,
}

/// Time with no date or offset (RFC 3339 `partial-time`).
#[derive(Clone, Copy, Debug, PartialEq, Eq, Structural)]
pub struct Time {
    hour: u8,
    minute: u8,
    second: u8,
    nanosecond: u32,
}

/// Fixed time offset (RFC 3339 `time-offset`).
#[derive(Clone, Copy, Debug, PartialEq, Eq, Structural)]
pub struct TimeOffset {
    kind: OffsetKind,
}

#[derive(Clone, Copy, Debug, PartialEq, Eq, Structural)]
pub enum OffsetKind {
    Z,
    Positive(u8, u8),
    Negative(u8, u8),
}

/// Date and time with offset (RFC 3339 `date-time`).
#[derive(Clone, Copy, Debug, PartialEq, Eq, Structural)]
pub struct DateTime {
    date: Date,
    time: Time,
    time_offset: TimeOffset,
}

/// Gregorian leap year rule
pub open spec fn leap_year(year: int) -> bool {
    year % 4 == 0 && (year % 100 != 0 || year % 400 == 0)
}

/// Number of days in a month, or 0 for a month outside 1..=12
pub open spec fn month_length(year: int, month: int) -> int {
    if month == 4 || month == 6 || month == 9 || month == 11 {
        30
    } else if month == 2 {
        if leap_year(year) { 29 } else { 28 }
    } else if 1 <= month <= 12 {
        31
    } else {
        0
    }
}

/// Determine the number of days in a month
fn days_in_month(year: u16, month: u8) -> (r: Option<u8>)
    ensures
        r is Some <==> 1 <= month <= 12,
        r is Some ==> r->0 as int == month_length(year as int, month as int),
{
    match month {
        4 | 6 | 9 | 11 => Some(30),
        1 | 3 | 5 | 7 | 8 | 10 | 12 => Some(31),
        2 => Some(if is_leap_year(year) { 29 } else { 28 }),
        _ => None,
    }
}

/// Check if a year is a leap year
fn is_leap_year(year: u16) -> (r: bool)
    ensures
        r == leap_year(year as int),
{
    year % 4 == 0 && (year % 100 != 0 || year % 400 == 0)
}


/// An ASCII decimal digit
pub open spec fn is_digit(b: u8) -> bool {
    48 <= b <= 57
}

/// Every byte is an ASCII decimal digit
pub open spec fn all_digits(s: Seq<u8>) -> bool {
    forall|i: int| 0 <= i < s.len() ==> is_digit(#[trigger] s[i])
}

/// Decimal value of a run of ASCII digits
pub open spec fn digits_value(s: Seq<u8>) -> int
    decreases s.len(),
{
    if s.len() == 0 {
        0
    } else {
        digits_value(s.drop_last()) * 10 + (s.last() - 48)
    }
}

/// `b` is `len` digits starting at `start`
pub open spec fn digits_at(b: Seq<u8>, start: int, len: int) -> bool {
    0 <= start && start + len <= b.len() && all_digits(b.subrange(start, start + len))
}

/// Value of the `len` digits starting at `start`
pub open spec fn value_at(b: Seq<u8>, start: int, len: int) -> int {
    digits_value(b.subrange(start, start + len))
}

/// Text of a valid `full-date`
pub open spec fn valid_date(b: Seq<u8>) -> bool {
    &&& b.len() == 10
    &&& b[4] == 45u8 && b[7] == 45u8
    &&& digits_at(b, 0, 4) && digits_at(b, 5, 2) && digits_at(b, 8, 2)
    &&& 1 <= value_at(b, 5, 2) <= 12
    &&& 1 <= value_at(b, 8, 2) <= month_length(value_at(b, 0, 4), value_at(b, 5, 2))
}

/// Text of a valid fractional second part: empty, or `.` and one or more digits
pub open spec fn valid_fraction(b: Seq<u8>) -> bool {
    b.len() == 0 || (b.len() >= 2 && b[0] == 46u8 && all_digits(b.drop_first()))
}

/// Nanoseconds of a fractional second part; digits past the ninth are dropped
pub open spec fn fraction_nanos(b: Seq<u8>) -> int {
    if b.len() == 0 {
        0
    } else {
        let d = b.drop_first();
        let k = if d.len() < 9 { d.len() as int } else { 9 };
        digits_value(d.subrange(0, k)) * pow10((9 - k) as nat)
    }
}

/// Ten to the power `n`
pub open spec fn pow10(n: nat) -> int
    decreases n,
{
    if n == 0 { 1 } else { 10 * pow10((n - 1) as nat) }
}

/// Text of a valid `partial-time` (no leap seconds)
pub open spec fn valid_time(b: Seq<u8>) -> bool {
    &&& b.len() >= 8
    &&& b[2] == 58u8 && b[5] == 58u8
    &&& digits_at(b, 0, 2) && digits_at(b, 3, 2) && digits_at(b, 6, 2)
    &&& value_at(b, 0, 2) < 24 && value_at(b, 3, 2) < 60 && value_at(b, 6, 2) <= 59
    &&& valid_fraction(b.subrange(8, b.len() as int))
}

/// Text of a valid `time-offset`
pub open spec fn valid_offset(b: Seq<u8>) -> bool {
    (b.len() == 1 && b[0] == 90u8) || (
        b.len() == 6 && (b[0] == 43u8 || b[0] == 45u8) && b[3] == 58u8
        && digits_at(b, 1, 2) && digits_at(b, 4, 2)
        && value_at(b, 1, 2) < 24 && value_at(b, 4, 2) < 60)
}

/// The form of a valid `time-offset`: `Z`, or its sign, hours and minutes
pub open spec fn offset_kind_of(b: Seq<u8>) -> OffsetKind {
    if b.len() == 1 {
        OffsetKind::Z
    } else if b[0] == 43u8 {
        OffsetKind::Positive(value_at(b, 1, 2) as u8, value_at(b, 4, 2) as u8)
    } else {
        OffsetKind::Negative(value_at(b, 1, 2) as u8, value_at(b, 4, 2) as u8)
    }
}

/// Signed seconds of a valid `time-offset`
pub open spec fn offset_seconds(b: Seq<u8>) -> int {
    if b.len() == 1 {
        0
    } else if b[0] == 43u8 {
        3600 * value_at(b, 1, 2) + 60 * value_at(b, 4, 2)
    } else {
        -(3600 * value_at(b, 1, 2) + 60 * value_at(b, 4, 2))
    }
}

/// Where the offset of a `date-time` starts: found by looking at its end
pub open spec fn offset_start(b: Seq<u8>) -> int {
    if b.len() >= 1 && b.last() == 90u8 {
        b.len() - 1
    } else if b.len() >= 6 {
        b.len() - 6
    } else {
        0
    }
}

/// The layout of a `date-time` holds: long enough, with `T` after the date
pub open spec fn datetime_frame(b: Seq<u8>) -> bool {
    b.len() >= 20 && offset_start(b) >= 11 && b[10] == 84u8
}

/// Text of a valid `date-time`
pub open spec fn valid_datetime(b: Seq<u8>) -> bool {
    &&& datetime_frame(b)
    &&& valid_date(b.subrange(0, 10))
    &&& valid_time(b.subrange(11, offset_start(b)))
    &&& valid_offset(b.subrange(offset_start(b), b.len() as int))
}

proof fn lemma_digits_value_bound(s: Seq<u8>)
    requires
        all_digits(s),
    ensures
        0 <= digits_value(s) < pow10(s.len()),
    decreases s.len(),
{
    if s.len() > 0 {
        let t = s.drop_last();
        assert(all_digits(t)) by {
            assert forall|i: int| 0 <= i < t.len() implies is_digit(#[trigger] t[i]) by {
                assert(t[i] == s[i]);
            }
        }
        assert(is_digit(s[s.len() - 1]));
        lemma_digits_value_bound(t);
    }
}

/// Convert ASCII digit to a number
fn digit(b: u8) -> (r: Option<u8>)
    ensures
        r is Some <==> is_digit(b),
        r is Some ==> r->0 == b - 48,
{
    if b >= 48 && b <= 57 {
        Some(b - 48)
    } else {
        None
    }
}

/// Parse a 4-digit ASCII decimal number
fn parse_4_digits(ascii: &[u8]) -> (r: Option<u16>)
    ensures
        r is Some <==> (ascii@.len() == 4 && all_digits(ascii@)),
        r is Some ==> r->0 as int == digits_value(ascii@),
{
    if ascii.len() == 4 {
        if let (Some(b0), Some(b1), Some(b2), Some(b3)) = (
            digit(ascii[0]),
            digit(ascii[1]),
            digit(ascii[2]),
            digit(ascii[3]),
        ) {
            let ghost s = ascii@;
            assert(all_digits(s));
            assert(s.drop_last().drop_last().drop_last().drop_last() =~= Seq::<u8>::empty());
            assert(s.drop_last().drop_last().drop_last() =~= seq![s[0]]);
            assert(s.drop_last().drop_last() =~= seq![s[0], s[1]]);
            assert(s.drop_last() =~= seq![s[0], s[1], s[2]]);
            reveal_with_fuel(digits_value, 5);
            return Some((b0 as u16) * 1000 + (b1 as u16) * 100 + (b2 as u16) * 10 + (b3 as u16));
        }
        assert(!all_digits(ascii@)) by {
            if all_digits(ascii@) {
                assert(is_digit(ascii@[0]) && is_digit(ascii@[1]) && is_digit(ascii@[2]) && is_digit(ascii@[3]));
            }
        }
    }
    None
}

/// Parse a 4-digit year
fn parse_year(year: &[u8]) -> (r: Option<u16>)
    ensures
        r is Some <==> (year@.len() == 4 && all_digits(year@)),
        r is Some ==> r->0 as int == digits_value(year@),
{
    parse_4_digits(year)
}

/// Parse a 2-digit ASCII decimal number
fn parse_2_digits(ascii: &[u8]) -> (r: Option<u8>)
    ensures
        r is Some <==> (ascii@.len() == 2 && all_digits(ascii@)),
        r is Some ==> r->0 as int == digits_value(ascii@),
{
    if ascii.len() == 2 {
        if let (Some(b0), Some(b1)) = (digit(ascii[0]), digit(ascii[1])) {
            let ghost s = ascii@;
            assert(all_digits(s));
            assert(s.drop_last().drop_last() =~= Seq::<u8>::empty());
            assert(s.drop_last() =~= seq![s[0]]);
            reveal_with_fuel(digits_value, 3);
            return Some(b0 * 10 + b1);
        }
        assert(!all_digits(ascii@)) by {
            if all_digits(ascii@) {
                assert(is_digit(ascii@[0]) && is_digit(ascii@[1]));
            }
        }
    }
    None
}

/// Parse a 2-digit number within `lo..=hi`
fn parse_2_digits_in(ascii: &[u8], lo: u8, hi: u8) -> (r: Option<u8>)
    ensures
        r is Some <==> (ascii@.len() == 2 && all_digits(ascii@) && lo <= digits_value(ascii@) <= hi),
        ascii@.len() == 2 && all_digits(ascii@) ==> 0 <= digits_value(ascii@) < 100,
        r is Some ==> r->0 as int == digits_value(ascii@),
{
    proof {
        if ascii@.len() == 2 && all_digits(ascii@) {
            lemma_digits_value_bound(ascii@);
            reveal_with_fuel(pow10, 3);
        }
    }
    match parse_2_digits(ascii) {
        Some(v) if v >= lo && v <= hi => Some(v),
        _ => None,
    }
}

/// Parse a 2-digit month
fn parse_month(month: &[u8]) -> (r: Option<u8>)
    ensures
        r is Some <==> (month@.len() == 2 && all_digits(month@) && 1 <= digits_value(month@) <= 12),
        r is Some ==> r->0 as int == digits_value(month@),
{
    parse_2_digits_in(month, 1, 12)
}

/// Parse a 2-digit day
fn parse_day(day: &[u8]) -> (r: Option<u8>)
    ensures
        r is Some <==> (day@.len() == 2 && all_digits(day@) && 1 <= digits_value(day@) <= 31),
        r is Some ==> r->0 as int == digits_value(day@),
{
    parse_2_digits_in(day, 1, 31)
}

/// Parse a 2-digit hour
fn parse_hour(hour: &[u8]) -> (r: Option<u8>)
    ensures
        r is Some <==> (hour@.len() == 2 && all_digits(hour@) && digits_value(hour@) < 24),
        r is Some ==> r->0 as int == digits_value(hour@),
{
    parse_2_digits_in(hour, 0, 23)
}

/// Parse a 2-digit minute
fn parse_minute(minute: &[u8]) -> (r: Option<u8>)
    ensures
        r is Some <==> (minute@.len() == 2 && all_digits(minute@) && digits_value(minute@) < 60),
        r is Some ==> r->0 as int == digits_value(minute@),
{
    parse_2_digits_in(minute, 0, 59)
}

/// Parse a 2-digit second (no leap seconds)
fn parse_second(second: &[u8]) -> (r: Option<u8>)
    ensures
        r is Some <==> (second@.len() == 2 && all_digits(second@) && digits_value(second@) <= 59),
        r is Some ==> r->0 as int == digits_value(second@),
{
    parse_2_digits_in(second, 0, 59)
}


proof fn lemma_digits_value_push(s: Seq<u8>, b: u8)
    ensures
        digits_value(s.push(b)) == digits_value(s) * 10 + (b - 48),
{
    assert(s.push(b).drop_last() =~= s);
}

proof fn lemma_pow10_bounds(n: nat)
    ensures
        pow10(n) >= 1,
        n <= 9 ==> pow10(n) <= 1_000_000_000,
{
    lemma_pow10_mono(0, n);
    if n <= 9 {
        lemma_pow10_mono(n, 9);
        reveal_with_fuel(pow10, 10);
    }
}

proof fn lemma_pow10_mono(n: nat, m: nat)
    requires
        n <= m,
    ensures
        1 <= pow10(n) <= pow10(m),
    decreases m - n,
{
    if n < m {
        lemma_pow10_mono(n, (m - 1) as nat);
    } else {
        lemma_pow10_pos(n);
    }
}

proof fn lemma_pow10_pos(n: nat)
    ensures
        pow10(n) >= 1,
    decreases n,
{
    if n > 0 {
        lemma_pow10_pos((n - 1) as nat);
    }
}

proof fn lemma_all_digits_sub(s: Seq<u8>, a: int, b: int)
    requires
        all_digits(s),
        0 <= a <= b <= s.len(),
    ensures
        all_digits(s.subrange(a, b)),
{
    assert forall|i: int| 0 <= i < b - a implies is_digit(#[trigger] s.subrange(a, b)[i]) by {
        assert(s.subrange(a, b)[i] == s[a + i]);
    }
}

/// Parse a fractional second part into nanoseconds
fn parse_nanosecond(nano: &[u8]) -> (r: Option<u32>)
    ensures
        r is Some <==> valid_fraction(nano@),
        r is Some ==> r->0 as int == fraction_nanos(nano@),
        r is Some ==> r->0 < 1_000_000_000,
{
    if nano.len() == 0 {
        return Some(0);
    }
    if nano.len() < 2 || nano[0] != 46 {
        return None;
    }
    let ghost d = nano@.drop_first();
    let mut acc: u32 = 0;
    let mut k: usize = 0;
    let mut i: usize = 1;
    while i < nano.len()
        invariant
            1 <= i <= nano@.len(),
            d == nano@.drop_first(),
            k == (if i - 1 < 9 { i - 1 } else { 9 }),
            all_digits(d.subrange(0, i - 1)),
            acc as int == digits_value(d.subrange(0, k as int)),
            acc < pow10(k as nat),
        decreases nano@.len() - i,
    {
        match digit(nano[i]) {
            Some(b) => {
                if k < 9 {
                    proof {
                        assert(d.subrange(0, k + 1) =~= d.subrange(0, k as int).push(nano[i as int]));
                        lemma_digits_value_push(d.subrange(0, k as int), nano[i as int]);
                        lemma_pow10_bounds(k as nat);
                        lemma_pow10_bounds((k + 1) as nat);
                        assert(acc * 10 + b < pow10(k as nat) * 10) by (nonlinear_arith)
                            requires acc < pow10(k as nat), b < 10;
                    }
                    acc = acc * 10 + b as u32;
                    k = k + 1;
                }
                proof {
                    assert(d.subrange(0, i as int) =~= d.subrange(0, i - 1).push(nano[i as int]));
                }
                i = i + 1;
            },
            None => {
                proof {
                    assert(d[i - 1] == nano@[i as int]);
                }
                return None;
            },
        }
    }
    proof {
        assert(d.subrange(0, i - 1) =~= d);
    }
    let ghost base = acc as int;
    assert(pow10(0) == 1);
    assert(acc as int == base * pow10(0));
    let mut m: usize = k;
    while m < 9
        invariant
            k <= m <= 9,
            acc as int == base * pow10((m - k) as nat),
            base < pow10(k as nat),
            acc < pow10(m as nat),
        decreases 9 - m,
    {
        proof {
            lemma_pow10_bounds(m as nat);
            lemma_pow10_bounds((m + 1) as nat);
            assert(pow10((m + 1 - k) as nat) == 10 * pow10((m - k) as nat));
            assert(base * pow10((m + 1 - k) as nat) == (base * pow10((m - k) as nat)) * 10) by (nonlinear_arith)
                requires pow10((m + 1 - k) as nat) == 10 * pow10((m - k) as nat);
        }
        acc = acc * 10;
        m = m + 1;
    }
    proof {
        lemma_pow10_bounds(9);
    }
    Some(acc)
}


impl Date {
    /// The `year` field
    pub closed spec fn spec_year(&self) -> u16 {
        self.year
    }

    /// The `month` field
    pub closed spec fn spec_month(&self) -> u8 {
        self.month
    }

    /// The `day` field
    pub closed spec fn spec_day(&self) -> u8 {
        self.day
    }

    /// Well-formed: month in 1..=12, day within the month
    pub open spec fn wf(&self) -> bool {
        &&& self.spec_year() <= 9999
        &&& 1 <= self.spec_month() <= 12
        &&& 1 <= self.spec_day() <= month_length(self.spec_year() as int, self.spec_month() as int)
    }

    /// The fields are those written in `b`
    pub open spec fn read_from(&self, b: Seq<u8>) -> bool {
        &&& self.spec_year() == value_at(b, 0, 4)
        &&& self.spec_month() == value_at(b, 5, 2)
        &&& self.spec_day() == value_at(b, 8, 2)
    }

    /// Parse a `full-date`, `YYYY-MM-DD`
    pub fn new(bytes: &[u8]) -> (r: Result<Date, ParseError>)
        ensures
            r is Ok <==> valid_date(bytes@),
            r is Err ==> r == Err::<Date, ParseError>(ParseError::ExpectedDate),
            r matches Ok(d) ==> d.wf() && d.read_from(bytes@),
    {
        if bytes.len() == 10 && bytes[4] == 45 && bytes[7] == 45 {
            if let Some(year) = parse_year(&bytes[0..4]) {
                if let Some(month) = parse_month(&bytes[5..7]) {
                    if let Some(mdays) = days_in_month(year, month) {
                        if let Some(day) = parse_day(&bytes[8..10]) {
                            if day <= mdays {
                                proof {
                                    lemma_digits_value_bound(bytes@.subrange(0, 4));
                                    reveal_with_fuel(pow10, 5);
                                }
                                return Ok(Date { year, month, day });
                            }
                        }
                    }
                }
            }
        }
        Err(ParseError::ExpectedDate)
    }

    /// Get the year
    pub fn year(&self) -> (r: u16)
        ensures
            r == self.spec_year(),
    {
        self.year
    }

    /// Get the month (1-12)
    pub fn month(&self) -> (r: u8)
        ensures
            r == self.spec_month(),
    {
        self.month
    }

    /// Get the day of month (1-31)
    pub fn day(&self) -> (r: u8)
        ensures
            r == self.spec_day(),
    {
        self.day
    }
}

impl Time {
    /// The `hour` field
    pub closed spec fn spec_hour(&self) -> u8 {
        self.hour
    }

    /// The `minute` field
    pub closed spec fn spec_minute(&self) -> u8 {
        self.minute
    }

    /// The `second` field
    pub closed spec fn spec_second(&self) -> u8 {
        self.second
    }

    /// The `nanosecond` field
    pub closed spec fn spec_nanosecond(&self) -> u32 {
        self.nanosecond
    }

    /// Well-formed: a clock time with no leap second
    pub open spec fn wf(&self) -> bool {
        &&& self.spec_hour() < 24 && self.spec_minute() < 60 && self.spec_second() <= 59
        &&& self.spec_nanosecond() < 1_000_000_000
    }

    /// The fields are those written in `b`
    pub open spec fn read_from(&self, b: Seq<u8>) -> bool {
        &&& self.spec_hour() == value_at(b, 0, 2) && self.spec_minute() == value_at(b, 3, 2)
        &&& self.spec_second() == value_at(b, 6, 2)
        &&& self.spec_nanosecond() == fraction_nanos(b.subrange(8, b.len() as int))
    }

    /// Parse a `partial-time`, `HH:MM:SS` with optional fraction
    pub fn new(bytes: &[u8]) -> (r: Result<Time, ParseError>)
        ensures
            r is Ok <==> valid_time(bytes@),
            r is Err ==> r == Err::<Time, ParseError>(ParseError::ExpectedTime),
            r matches Ok(t) ==> t.wf() && t.read_from(bytes@),
    {
        if bytes.len() >= 8 && bytes[2] == 58 && bytes[5] == 58 {
            if let Some(hour) = parse_hour(&bytes[0..2]) {
                if let Some(minute) = parse_minute(&bytes[3..5]) {
                    if let Some(second) = parse_second(&bytes[6..8]) {
                        if let Some(nanosecond) = parse_nanosecond(&bytes[8..bytes.len()]) {
                            return Ok(Time { hour, minute, second, nanosecond });
                        }
                    }
                }
            }
        }
        Err(ParseError::ExpectedTime)
    }

    /// Get the hour (0-23)
    pub fn hour(&self) -> (r: u8)
        ensures
            r == self.spec_hour(),
    {
        self.hour
    }

    /// Get the minute (0-59)
    pub fn minute(&self) -> (r: u8)
        ensures
            r == self.spec_minute(),
    {
        self.minute
    }

    /// Get the second (0-59)
    pub fn second(&self) -> (r: u8)
        ensures
            r == self.spec_second(),
    {
        self.second
    }

    /// Get the nanosecond (0-999_999_999)
    pub fn nanosecond(&self) -> (r: u32)
        ensures
            r == self.spec_nanosecond(),
    {
        self.nanosecond
    }
}

/// Seconds of an offset of `hour` hours and `minute` minutes
pub open spec fn hm_seconds(hour: int, minute: int) -> int {
    3600 * hour + 60 * minute
}

/// Calculate seconds from hour and minute
fn hour_minute_to_seconds(hour: u8, minute: u8) -> (r: i32)
    ensures
        r == hm_seconds(hour as int, minute as int),
{
    3600 * (hour as i32) + 60 * (minute as i32)
}

impl TimeOffset {
    /// Well-formed: hours below 24, minutes below 60
    pub open spec fn wf(&self) -> bool {
        match self.spec_kind() {
            OffsetKind::Z => true,
            OffsetKind::Positive(h, m) => h < 24 && m < 60,
            OffsetKind::Negative(h, m) => h < 24 && m < 60,
        }
    }

    /// Offset in seconds east of UTC
    pub open spec fn spec_seconds(&self) -> int {
        match self.spec_kind() {
            OffsetKind::Z => 0,
            OffsetKind::Positive(h, m) => hm_seconds(h as int, m as int),
            OffsetKind::Negative(h, m) => -hm_seconds(h as int, m as int),
        }
    }

    /// Parse a `time-offset`: `Z` or `+HH:MM` / `-HH:MM`
    pub fn new(bytes: &[u8]) -> (r: Result<TimeOffset, ParseError>)
        ensures
            r is Ok <==> valid_offset(bytes@),
            r is Err ==> r == Err::<TimeOffset, ParseError>(ParseError::ExpectedTimeOffset),
            r matches Ok(o) ==> o.wf() && o.spec_seconds() == offset_seconds(bytes@)
                && o.spec_kind() == offset_kind_of(bytes@),
    {
        if bytes.len() == 1 && bytes[0] == 90 {
            return Ok(TimeOffset { kind: OffsetKind::Z });
        } else if bytes.len() == 6 && bytes[3] == 58 && (bytes[0] == 43 || bytes[0] == 45) {
            if let Some(h) = parse_hour(&bytes[1..3]) {
                if let Some(m) = parse_minute(&bytes[4..6]) {
                    if bytes[0] == 43 {
                        return Ok(TimeOffset { kind: OffsetKind::Positive(h, m) });
                    } else {
                        return Ok(TimeOffset { kind: OffsetKind::Negative(h, m) });
                    }
                }
            }
        }
        Err(ParseError::ExpectedTimeOffset)
    }

    /// Find possible index of a TimeOffset at the end of a byte slice
    fn rindex(bytes: &[u8]) -> (r: usize)
        ensures
            r == offset_start(bytes@),
    {
        let len = bytes.len();
        if len >= 1 && bytes[len - 1] == 90 {
            len - 1
        } else if len >= 6 {
            len - 6
        } else {
            0
        }
    }

    /// Get the time offset in seconds
    pub fn seconds(&self) -> (r: i32)
        ensures
            r == self.spec_seconds(),
    {
        match self.kind {
            OffsetKind::Z => 0,
            OffsetKind::Positive(h, m) => hour_minute_to_seconds(h, m),
            OffsetKind::Negative(h, m) => -hour_minute_to_seconds(h, m),
        }
    }
}

impl DateTime {
    /// The `date` field
    pub closed spec fn spec_date(&self) -> Date {
        self.date
    }

    /// The `time` field
    pub closed spec fn spec_time(&self) -> Time {
        self.time
    }

    /// The `time_offset` field
    pub closed spec fn spec_time_offset(&self) -> TimeOffset {
        self.time_offset
    }

    /// Well-formed parts
    pub open spec fn wf(&self) -> bool {
        self.spec_date().wf() && self.spec_time().wf() && self.spec_time_offset().wf()
    }

    /// Parse a `date-time`: date, `T`, time, offset
    pub fn new(bytes: &[u8]) -> (r: Result<DateTime, ParseError>)
        ensures
            r is Ok <==> valid_datetime(bytes@),
            !datetime_frame(bytes@) ==> r == Err::<DateTime, ParseError>(ParseError::ExpectedDateTime),
            datetime_frame(bytes@) && !valid_date(bytes@.subrange(0, 10))
                ==> r == Err::<DateTime, ParseError>(ParseError::ExpectedDate),
            datetime_frame(bytes@) && valid_date(bytes@.subrange(0, 10))
                && !valid_time(bytes@.subrange(11, offset_start(bytes@)))
                ==> r == Err::<DateTime, ParseError>(ParseError::ExpectedTime),
            datetime_frame(bytes@) && valid_date(bytes@.subrange(0, 10))
                && valid_time(bytes@.subrange(11, offset_start(bytes@)))
                && !valid_offset(bytes@.subrange(offset_start(bytes@), bytes@.len() as int))
                ==> r == Err::<DateTime, ParseError>(ParseError::ExpectedTimeOffset),
            r matches Ok(dt) ==> dt.wf()
                && dt.spec_date().read_from(bytes@.subrange(0, 10))
                && dt.spec_time().read_from(bytes@.subrange(11, offset_start(bytes@)))
                && dt.spec_time_offset().spec_seconds() == offset_seconds(bytes@.subrange(offset_start(bytes@), bytes@.len() as int))
                && dt.spec_time_offset().spec_kind() == offset_kind_of(bytes@.subrange(offset_start(bytes@), bytes@.len() as int)),
    {
        let len = bytes.len();
        if len >= 20 {
            let offset = TimeOffset::rindex(bytes);
            if offset >= 11 && bytes[10] == 84 {
                let date = match Date::new(&bytes[0..10]) {
                    Ok(d) => d,
                    Err(e) => return Err(e),
                };
                let time = match Time::new(&bytes[11..offset]) {
                    Ok(t) => t,
                    Err(e) => return Err(e),
                };
                let time_offset = match TimeOffset::new(&bytes[offset..len]) {
                    Ok(o) => o,
                    Err(e) => return Err(e),
                };
                return Ok(DateTime { date, time, time_offset });
            }
        }
        Err(ParseError::ExpectedDateTime)
    }

    /// Get the date
    pub fn date(&self) -> (r: Date)
        ensures
            r == self.spec_date(),
    {
        self.date
    }

    /// Get the time
    pub fn time(&self) -> (r: Time)
        ensures
            r == self.spec_time(),
    {
        self.time
    }

    /// Get the time offset
    pub fn time_offset(&self) -> (r: TimeOffset)
        ensures
            r == self.spec_time_offset(),
    {
        self.time_offset
    }
}


impl core::str::FromStr for Date {
    type Err = ParseError;

    fn from_str(s: &str) -> Result<Date, ParseError> {
        Date::new(s.as_bytes())
    }
}

impl core::str::FromStr for Time {
    type Err = ParseError;

    fn from_str(s: &str) -> Result<Time, ParseError> {
        Time::new(s.as_bytes())
    }
}

impl core::str::FromStr for TimeOffset {
    type Err = ParseError;

    fn from_str(s: &str) -> Result<TimeOffset, ParseError> {
        TimeOffset::new(s.as_bytes())
    }
}

impl core::str::FromStr for DateTime {
    type Err = ParseError;

    fn from_str(s: &str) -> Result<DateTime, ParseError> {
        DateTime::new(s.as_bytes())
    }
}


/// The `w` low decimal digits of `n`, zero padded
pub open spec fn padded(n: nat, w: nat) -> Seq<char>
    decreases w,
{
    if w == 0 {
        Seq::empty()
    } else {
        padded(n / 10, (w - 1) as nat).push(((n % 10) + 48) as char)
    }
}

/// The chars with trailing zeros removed
pub open spec fn trim_zeros(s: Seq<char>) -> Seq<char>
    decreases s.len(),
{
    if s.len() > 0 && s.last() == '0' { trim_zeros(s.drop_last()) } else { s }
}

/// Text of a date: `YYYY-MM-DD`
pub open spec fn date_text(d: Date) -> Seq<char> {
    padded(d.spec_year() as nat, 4) + seq!['-'] + padded(d.spec_month() as nat, 2) + seq!['-']
        + padded(d.spec_day() as nat, 2)
}

/// Text of a time: `HH:MM:SS`, and the fraction without trailing zeros if any
pub open spec fn time_text(t: Time) -> Seq<char> {
    padded(t.spec_hour() as nat, 2) + seq![':'] + padded(t.spec_minute() as nat, 2) + seq![':']
        + padded(t.spec_second() as nat, 2) + if t.spec_nanosecond() > 0 {
        seq!['.'] + trim_zeros(padded(t.spec_nanosecond() as nat, 9))
    } else {
        Seq::empty()
    }
}

/// Append `w` zero-padded decimal digits of `n`
fn push_padded(out: &mut Vec<char>, n: u32, w: usize)
    ensures
        final(out)@ == old(out)@ + padded(n as nat, w as nat),
    decreases w,
{
    if w > 0 {
        push_padded(out, n / 10, w - 1);
        let d = (n % 10) as u8;
        out.push((d + 48) as char);
    } else {
        assert(old(out)@ + padded(n as nat, 0) =~= old(out)@);
    }
}

impl Date {
    /// Format as `YYYY-MM-DD`
    pub fn to_string(&self) -> (r: String)
        ensures
            r@ == date_text(*self),
    {
        let mut out: Vec<char> = Vec::new();
        push_padded(&mut out, self.year as u32, 4);
        out.push('-');
        push_padded(&mut out, self.month as u32, 2);
        out.push('-');
        push_padded(&mut out, self.day as u32, 2);
        assert(out@ =~= date_text(*self));
        crate::text::string_of(out.as_slice())
    }
}

impl Time {
    /// Append `HH:MM:SS` and the fraction, if any
    fn push_text(&self, out: &mut Vec<char>)
        ensures
            final(out)@ == old(out)@ + time_text(*self),
    {
        let ghost o = out@;
        push_padded(out, self.hour as u32, 2);
        out.push(':');
        push_padded(out, self.minute as u32, 2);
        out.push(':');
        push_padded(out, self.second as u32, 2);
        let ghost mid = out@;
        if self.nanosecond > 0 {
            let mut frac: Vec<char> = Vec::new();
            push_padded(&mut frac, self.nanosecond, 9);
            assert(frac@ =~= padded(self.nanosecond as nat, 9));
            let mut n = frac.len();
            assert(frac@.subrange(0, n as int) =~= frac@);
            while n > 0 && frac[n - 1] == '0'
                invariant
                    n <= frac@.len(),
                    trim_zeros(frac@.subrange(0, n as int)) == trim_zeros(padded(self.nanosecond as nat, 9)),
                decreases n,
            {
                assert(frac@.subrange(0, n as int).drop_last() =~= frac@.subrange(0, n - 1));
                n = n - 1;
            }
            out.push('.');
            let mut i: usize = 0;
            while i < n
                invariant
                    i <= n <= frac@.len(),
                    out@ == mid + seq!['.'] + frac@.subrange(0, i as int),
                decreases n - i,
            {
                out.push(frac[i]);
                assert(out@ =~= mid + seq!['.'] + frac@.subrange(0, i + 1));
                i = i + 1;
            }
            assert(trim_zeros(frac@.subrange(0, n as int)) == frac@.subrange(0, n as int));
            assert(out@ =~= o + time_text(*self));
        } else {
            assert(out@ =~= o + time_text(*self));
        }
    }

    /// Format as `HH:MM:SS` with the fraction, if any, without trailing zeros
    pub fn to_string(&self) -> (r: String)
        ensures
            r@ == time_text(*self),
    {
        let mut out: Vec<char> = Vec::new();
        self.push_text(&mut out);
        assert(out@ =~= time_text(*self));
        crate::text::string_of(out.as_slice())
    }
}

/// Text of a time offset: `Z`, `+HH:MM` or `-HH:MM`
pub open spec fn offset_text(o: TimeOffset) -> Seq<char> {
    match o.spec_kind() {
        OffsetKind::Z => seq!['Z'],
        OffsetKind::Positive(h, m) => seq!['+'] + padded(h as nat, 2) + seq![':'] + padded(m as nat, 2),
        OffsetKind::Negative(h, m) => seq!['-'] + padded(h as nat, 2) + seq![':'] + padded(m as nat, 2),
    }
}

impl TimeOffset {
    /// The offset's kind
    pub closed spec fn spec_kind(&self) -> OffsetKind {
        self.kind
    }

    /// Append the offset text
    fn push_text(&self, out: &mut Vec<char>)
        ensures
            final(out)@ == old(out)@ + offset_text(*self),
    {
        let ghost o = out@;
        match self.kind {
            OffsetKind::Z => {
                out.push('Z');
            },
            OffsetKind::Positive(h, m) => {
                out.push('+');
                push_padded(out, h as u32, 2);
                out.push(':');
                push_padded(out, m as u32, 2);
            },
            OffsetKind::Negative(h, m) => {
                out.push('-');
                push_padded(out, h as u32, 2);
                out.push(':');
                push_padded(out, m as u32, 2);
            },
        }
        assert(out@ =~= o + offset_text(*self));
    }

    /// Format as `Z`, `+HH:MM` or `-HH:MM`
    pub fn to_string(&self) -> (r: String)
        ensures
            r@ == offset_text(*self),
    {
        let mut out: Vec<char> = Vec::new();
        self.push_text(&mut out);
        assert(out@ =~= offset_text(*self));
        crate::text::string_of(out.as_slice())
    }
}

impl DateTime {
    /// Format as date, `T`, time and offset
    pub fn to_string(&self) -> (r: String)
        ensures
            r@ == datetime_text(*self),
    {
        let d = self.date.to_string();
        let mut out = crate::text::chars_of(d.as_str());
        out.push('T');
        self.time.push_text(&mut out);
        self.time_offset.push_text(&mut out);
        assert(out@ =~= date_text(self.spec_date()) + seq!['T'] + time_text(self.spec_time())
            + offset_text(self.spec_time_offset()));
        crate::text::string_of(out.as_slice())
    }
}


/// The bytes of ASCII text
pub open spec fn ascii_bytes(s: Seq<char>) -> Seq<u8> {
    s.map_values(|c: char| c as u8)
}

proof fn lemma_padded_digits(n: nat, w: nat)
    requires
        n < pow10(w),
    ensures
        ascii_bytes(padded(n, w)).len() == w,
        padded(n, w).len() == w,
        forall|i: int| 0 <= i < w ==> '0' <= #[trigger] padded(n, w)[i] <= '9',
        all_digits(ascii_bytes(padded(n, w))),
        digits_value(ascii_bytes(padded(n, w))) == n,
    decreases w,
{
    if w == 0 {
        assert(ascii_bytes(padded(n, w)) =~= Seq::<u8>::empty());
    } else {
        let p = padded(n / 10, (w - 1) as nat);
        let c = ((n % 10) + 48) as char;
        assert(pow10(w) == 10 * pow10((w - 1) as nat));
        assert(n / 10 < pow10((w - 1) as nat));
        lemma_padded_digits(n / 10, (w - 1) as nat);
        assert(c as int == (n % 10) + 48);
        let b = ascii_bytes(p.push(c));
        assert(b =~= ascii_bytes(p).push(c as u8));
        assert((c as u8) as int == (n % 10) + 48);
        assert(b.drop_last() =~= ascii_bytes(p));
        assert forall|i: int| 0 <= i < w implies '0' <= #[trigger] p.push(c)[i] <= '9' by {
            if i < w - 1 {
                assert(p.push(c)[i] == p[i]);
            }
        }
        assert forall|i: int| 0 <= i < b.len() implies is_digit(#[trigger] b[i]) by {
            if i < b.len() - 1 {
                assert(b[i] == ascii_bytes(p)[i]);
            }
        }
        assert(n == (n / 10) * 10 + n % 10);
    }
}

/// A date written as text reads back as the same date: its text is a valid
/// `full-date` whose fields are the date's
pub proof fn lemma_date_text_round_trip(d: Date)
    requires
        d.wf(),
    ensures
        valid_date(ascii_bytes(date_text(d))),
        d.read_from(ascii_bytes(date_text(d))),
        vstd::utf8::encode_utf8(date_text(d)) == ascii_bytes(date_text(d)),
{
    lemma_date_text_utf8(d);
    reveal_with_fuel(pow10, 5);
    let y = padded(d.year as nat, 4);
    let m = padded(d.month as nat, 2);
    let dd = padded(d.day as nat, 2);
    lemma_padded_digits(d.year as nat, 4);
    lemma_padded_digits(d.month as nat, 2);
    lemma_padded_digits(d.day as nat, 2);
    let b = ascii_bytes(date_text(d));
    assert(date_text(d) == y + seq!['-'] + m + seq!['-'] + dd);
    assert(b.len() == 10);
    assert(b.subrange(0, 4) =~= ascii_bytes(y));
    assert(b.subrange(5, 7) =~= ascii_bytes(m));
    assert(b.subrange(8, 10) =~= ascii_bytes(dd));
    assert(b[4] == ('-' as u8));
    assert(b[7] == ('-' as u8));
}

/// Date text is canonical: any date read from the text of `d` writes the
/// same text again
pub proof fn lemma_date_text_canonical(d: Date, e: Date)
    requires
        d.wf(),
        e.read_from(ascii_bytes(date_text(d))),
    ensures
        date_text(e) == date_text(d),
{
    lemma_date_text_round_trip(d);
    assert(e.spec_year() == d.spec_year() && e.spec_month() == d.spec_month() && e.spec_day() == d.spec_day());
}

/// An offset written as text reads back as the same offset: its text is a
/// valid `time-offset` of the same number of seconds
pub proof fn lemma_offset_text_round_trip(o: TimeOffset)
    requires
        o.wf(),
    ensures
        valid_offset(ascii_bytes(offset_text(o))),
        offset_seconds(ascii_bytes(offset_text(o))) == o.spec_seconds(),
        offset_kind_of(ascii_bytes(offset_text(o))) == o.spec_kind(),
{
    reveal_with_fuel(pow10, 3);
    let b = ascii_bytes(offset_text(o));
    match o.kind {
        OffsetKind::Z => {
            assert(b =~= seq!['Z' as u8]);
        },
        OffsetKind::Positive(h, m) => {
            lemma_padded_digits(h as nat, 2);
            lemma_padded_digits(m as nat, 2);
            assert(b.subrange(1, 3) =~= ascii_bytes(padded(h as nat, 2)));
            assert(b.subrange(4, 6) =~= ascii_bytes(padded(m as nat, 2)));
            assert(b[0] == ('+' as u8));
            assert(b[3] == (':' as u8));
        },
        OffsetKind::Negative(h, m) => {
            lemma_padded_digits(h as nat, 2);
            lemma_padded_digits(m as nat, 2);
            assert(b.subrange(1, 3) =~= ascii_bytes(padded(h as nat, 2)));
            assert(b.subrange(4, 6) =~= ascii_bytes(padded(m as nat, 2)));
            assert(b[0] == ('-' as u8));
            assert(b[3] == (':' as u8));
        },
    }
}

proof fn lemma_trim_digits(s: Seq<char>)
    requires
        all_digits(ascii_bytes(s)),
    ensures
        trim_zeros(s).len() <= s.len(),
        trim_zeros(s) == s.subrange(0, trim_zeros(s).len() as int),
        all_digits(ascii_bytes(trim_zeros(s))),
        digits_value(ascii_bytes(trim_zeros(s))) * pow10((s.len() - trim_zeros(s).len()) as nat)
            == digits_value(ascii_bytes(s)),
    decreases s.len(),
{
    let a = ascii_bytes(s);
    if s.len() > 0 && s.last() == '0' {
        let t = s.drop_last();
        assert(ascii_bytes(t) =~= a.drop_last());
        assert(all_digits(ascii_bytes(t))) by {
            assert forall|i: int| 0 <= i < ascii_bytes(t).len() implies is_digit(#[trigger] ascii_bytes(t)[i]) by {
                assert(ascii_bytes(t)[i] == a[i]);
            }
        }
        lemma_trim_digits(t);
        let tr = trim_zeros(t);
        assert(trim_zeros(s) == tr);
        assert(a.last() == 48u8);
        assert(digits_value(a) == digits_value(ascii_bytes(t)) * 10);
        let k = (t.len() - tr.len()) as nat;
        assert(pow10((k + 1) as nat) == 10 * pow10(k));
        let x = digits_value(ascii_bytes(tr));
        assert(x * pow10((k + 1) as nat) == (x * pow10(k)) * 10) by (nonlinear_arith)
            requires pow10((k + 1) as nat) == 10 * pow10(k);
        assert(s.len() - tr.len() == k + 1);
        assert(tr == t.subrange(0, tr.len() as int));
        assert(t.subrange(0, tr.len() as int) =~= s.subrange(0, tr.len() as int));
    } else {
        assert(trim_zeros(s) == s);
        assert(s.subrange(0, s.len() as int) =~= s);
        assert(pow10(0) == 1);
    }
}

/// A time written as text reads back as the same time: its text is a valid
/// `partial-time` whose fields are the time's
pub proof fn lemma_time_text_round_trip(t: Time)
    requires
        t.wf(),
    ensures
        valid_time(ascii_bytes(time_text(t))),
        t.read_from(ascii_bytes(time_text(t))),
        vstd::utf8::encode_utf8(time_text(t)) == ascii_bytes(time_text(t)),
{
    lemma_time_text_utf8(t);
    reveal_with_fuel(pow10, 10);
    let hh = padded(t.hour as nat, 2);
    let mm = padded(t.minute as nat, 2);
    let ss = padded(t.second as nat, 2);
    lemma_padded_digits(t.hour as nat, 2);
    lemma_padded_digits(t.minute as nat, 2);
    lemma_padded_digits(t.second as nat, 2);
    let head = hh + seq![':'] + mm + seq![':'] + ss;
    let frac = if t.nanosecond > 0 {
        seq!['.'] + trim_zeros(padded(t.nanosecond as nat, 9))
    } else {
        Seq::empty()
    };
    assert(time_text(t) == head + frac);
    let b = ascii_bytes(time_text(t));
    assert(b.subrange(0, 2) =~= ascii_bytes(hh));
    assert(b.subrange(3, 5) =~= ascii_bytes(mm));
    assert(b.subrange(6, 8) =~= ascii_bytes(ss));
    assert(b[2] == (':' as u8));
    assert(b[5] == (':' as u8));
    let f = b.subrange(8, b.len() as int);
    assert(f =~= ascii_bytes(frac));
    if t.nanosecond > 0 {
        let p = padded(t.nanosecond as nat, 9);
        lemma_padded_digits(t.nanosecond as nat, 9);
        lemma_trim_digits(p);
        let tr = trim_zeros(p);
        if tr.len() == 0 {
            assert(ascii_bytes(tr) =~= Seq::<u8>::empty());
            assert(digits_value(ascii_bytes(tr)) == 0);
            assert(0 * pow10((p.len() - tr.len()) as nat) == 0);
        }
        assert(tr.len() > 0);
        let d = f.drop_first();
        assert(d =~= ascii_bytes(tr));
        assert(d.subrange(0, d.len() as int) =~= d);
        assert(f[0] == ('.' as u8));
    } else {
        assert(f.len() == 0);
    }
}

/// Text of a date-time: date, `T`, time and offset
pub open spec fn datetime_text(dt: DateTime) -> Seq<char> {
    date_text(dt.spec_date()) + seq!['T'] + time_text(dt.spec_time()) + offset_text(dt.spec_time_offset())
}

/// A date-time written as text reads back as the same date-time: its text is
/// a valid `date-time` whose parts are those of `dt`
pub proof fn lemma_datetime_text_round_trip(dt: DateTime)
    requires
        dt.wf(),
    ensures
        valid_datetime(ascii_bytes(datetime_text(dt))),
        ({
            let b = ascii_bytes(datetime_text(dt));
            &&& dt.spec_date().read_from(b.subrange(0, 10))
            &&& dt.spec_time().read_from(b.subrange(11, offset_start(b)))
            &&& offset_seconds(b.subrange(offset_start(b), b.len() as int)) == dt.spec_time_offset().spec_seconds()
            &&& offset_kind_of(b.subrange(offset_start(b), b.len() as int)) == dt.spec_time_offset().spec_kind()
        }),
{
    let d = date_text(dt.date);
    let t = time_text(dt.time);
    let o = offset_text(dt.time_offset);
    lemma_date_text_round_trip(dt.date);
    lemma_time_text_round_trip(dt.time);
    lemma_offset_text_round_trip(dt.time_offset);
    lemma_date_text_len(dt.date);
    lemma_time_text_len(dt.time);
    let b = ascii_bytes(datetime_text(dt));
    let n = b.len() as int;
    assert(b.subrange(0, 10) =~= ascii_bytes(d));
    assert(b[10] == ('T' as u8));
    assert(b.subrange(n - o.len(), n) =~= ascii_bytes(o));
    assert(b.subrange(11, n - o.len()) =~= ascii_bytes(t));
    if dt.time_offset.kind is Z {
        assert(o =~= seq!['Z']);
        assert(b.last() == ('Z' as u8));
    } else {
        assert(o.len() == 6);
        assert(b.last() == ascii_bytes(o).last());
        assert(ascii_bytes(o).last() != ('Z' as u8));
    }
}

proof fn lemma_padded_len(n: nat, w: nat)
    ensures
        padded(n, w).len() == w,
    decreases w,
{
    if w > 0 {
        lemma_padded_len(n / 10, (w - 1) as nat);
    }
}

proof fn lemma_date_text_len(d: Date)
    ensures
        date_text(d).len() == 10,
{
    lemma_padded_len(d.year as nat, 4);
    lemma_padded_len(d.month as nat, 2);
    lemma_padded_len(d.day as nat, 2);
}

proof fn lemma_time_text_len(t: Time)
    ensures
        time_text(t).len() >= 8,
{
    lemma_padded_len(t.hour as nat, 2);
    lemma_padded_len(t.minute as nat, 2);
    lemma_padded_len(t.second as nat, 2);
}

/// Time text is canonical: any time read from the text of `t` writes the
/// same text again
pub proof fn lemma_time_text_canonical(t: Time, e: Time)
    requires
        t.wf(),
        e.read_from(ascii_bytes(time_text(t))),
    ensures
        time_text(e) == time_text(t),
{
    lemma_time_text_round_trip(t);
    assert(e.spec_hour() == t.spec_hour() && e.spec_minute() == t.spec_minute());
    assert(e.spec_second() == t.spec_second() && e.spec_nanosecond() == t.spec_nanosecond());
}

/// Every char is ASCII
proof fn lemma_ascii_utf8(s: Seq<char>)
    requires
        vstd::utf8::is_ascii_chars(s),
    ensures
        vstd::utf8::encode_utf8(s) == ascii_bytes(s),
{
    vstd::utf8::is_ascii_chars_encode_utf8(s);
    assert(vstd::utf8::encode_utf8(s) =~= ascii_bytes(s));
}

/// Dates with the same fields are the same date
pub proof fn lemma_date_eq(a: Date, b: Date)
    requires
        a.spec_year() == b.spec_year(),
        a.spec_month() == b.spec_month(),
        a.spec_day() == b.spec_day(),
    ensures
        a == b,
{
}

/// Times with the same fields are the same time
pub proof fn lemma_time_eq(a: Time, b: Time)
    requires
        a.spec_hour() == b.spec_hour(),
        a.spec_minute() == b.spec_minute(),
        a.spec_second() == b.spec_second(),
        a.spec_nanosecond() == b.spec_nanosecond(),
    ensures
        a == b,
{
}

/// The UTF-8 bytes of date text are its ASCII bytes
pub proof fn lemma_date_text_utf8(d: Date)
    ensures
        vstd::utf8::encode_utf8(date_text(d)) == ascii_bytes(date_text(d)),
{
    let t = date_text(d);
    lemma_padded_len(d.year as nat, 4);
    lemma_padded_len(d.month as nat, 2);
    lemma_padded_len(d.day as nat, 2);
    lemma_padded_ascii(d.year as nat, 4);
    lemma_padded_ascii(d.month as nat, 2);
    lemma_padded_ascii(d.day as nat, 2);
    assert(vstd::utf8::is_ascii_chars(t));
    lemma_ascii_utf8(t);
}

/// The UTF-8 bytes of time text are its ASCII bytes
pub proof fn lemma_time_text_utf8(t: Time)
    ensures
        vstd::utf8::encode_utf8(time_text(t)) == ascii_bytes(time_text(t)),
{
    let x = time_text(t);
    lemma_padded_len(t.hour as nat, 2);
    lemma_padded_len(t.minute as nat, 2);
    lemma_padded_len(t.second as nat, 2);
    lemma_padded_ascii(t.hour as nat, 2);
    lemma_padded_ascii(t.minute as nat, 2);
    lemma_padded_ascii(t.second as nat, 2);
    lemma_padded_len(t.nanosecond as nat, 9);
    lemma_padded_ascii(t.nanosecond as nat, 9);
    lemma_trim_prefix(padded(t.nanosecond as nat, 9));
    assert(vstd::utf8::is_ascii_chars(x));
    lemma_ascii_utf8(x);
}

proof fn lemma_padded_ascii(n: nat, w: nat)
    ensures
        forall|i: int| 0 <= i < padded(n, w).len() ==> '0' <= #[trigger] padded(n, w)[i] <= '9',
    decreases w,
{
    if w > 0 {
        lemma_padded_ascii(n / 10, (w - 1) as nat);
        let p = padded(n / 10, (w - 1) as nat);
        let c = ((n % 10) + 48) as char;
        assert(c as int == (n % 10) + 48);
        assert forall|i: int| 0 <= i < p.push(c).len() implies '0' <= #[trigger] p.push(c)[i] <= '9' by {
            if i < p.len() {
                assert(p.push(c)[i] == p[i]);
            }
        }
    }
}

proof fn lemma_trim_prefix(s: Seq<char>)
    ensures
        trim_zeros(s).len() <= s.len(),
        forall|i: int| 0 <= i < trim_zeros(s).len() ==> #[trigger] trim_zeros(s)[i] == s[i],
    decreases s.len(),
{
    if s.len() > 0 && s.last() == '0' {
        lemma_trim_prefix(s.drop_last());
    }
}

/// Offsets of the same form are the same offset
pub proof fn lemma_offset_eq(a: TimeOffset, b: TimeOffset)
    requires
        a.spec_kind() == b.spec_kind(),
    ensures
        a == b,
{
}

/// Date-times with the same parts are the same date-time
pub proof fn lemma_datetime_eq(a: DateTime, b: DateTime)
    requires
        a.spec_date() == b.spec_date(),
        a.spec_time() == b.spec_time(),
        a.spec_time_offset() == b.spec_time_offset(),
    ensures
        a == b,
{
}

} // verus!
