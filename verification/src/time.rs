//! Instants with a time zone offset, intervals between them, and the reading
//! of times typed by a person.

use vstd::prelude::*;
use vstd::string::StringExecFns;

verus! {

/// The largest distance from the Unix epoch, in milliseconds, that an instant
/// may have in either direction (2^53).
pub const MAX_INSTANT: i64 = 9_007_199_254_740_992;

/// The bound that an offset from UTC stays strictly below, in seconds (a day).
pub const OFFSET_BOUND: i32 = 86_400;

/// The milliseconds in a second.
pub const MILLIS_PER_SECOND: i64 = 1_000;

/// The seconds in a day.
pub const SECONDS_PER_DAY: i64 = 86_400;

/// An instant, in milliseconds since the Unix epoch, as seen at a given offset
/// from UTC.
#[derive(Debug, Clone, Copy, PartialEq, Eq)]
pub struct Timestamp {
    millis: i64,
    offset: i32,
}

impl Timestamp {
    /// Milliseconds since the Unix epoch.
    pub closed spec fn instant(self) -> int {
        self.millis as int
    }

    /// Seconds east of UTC.
    pub closed spec fn offset(self) -> int {
        self.offset as int
    }

    /// The range in which every timestamp lies.
    pub open spec fn valid(self) -> bool {
        &&& -MAX_INSTANT <= self.instant() <= MAX_INSTANT
        &&& -OFFSET_BOUND < self.offset() < OFFSET_BOUND
    }

    /// Every timestamp lies in range.
    #[verifier::type_invariant]
    closed spec fn in_range(self) -> bool {
        self.valid()
    }

    /// The timestamp with the given instant and offset.
    pub closed spec fn at(millis: i64, offset: i32) -> Timestamp {
        Timestamp { millis, offset }
    }

    /// The timestamp made of an instant and an offset has that instant and
    /// that offset.
    pub proof fn lemma_at(millis: i64, offset: i32)
        ensures
            Timestamp::at(millis, offset).instant() == millis,
            Timestamp::at(millis, offset).offset() == offset,
    {
    }

    /// The timestamp with the given instant and offset, if both are in range.
    pub fn new(millis: i64, offset: i32) -> (r: Option<Timestamp>)
        ensures
            r is Some <==> (-MAX_INSTANT <= millis <= MAX_INSTANT && -OFFSET_BOUND < offset
                < OFFSET_BOUND),
            r matches Some(t) ==> t == Timestamp::at(millis, offset) && t.instant() == millis
                && t.offset() == offset && t.valid(),
    {
        if -MAX_INSTANT <= millis && millis <= MAX_INSTANT && -OFFSET_BOUND < offset && offset
            < OFFSET_BOUND {
            Some(Timestamp { millis, offset })
        } else {
            None
        }
    }

    /// Milliseconds since the Unix epoch.
    pub fn timestamp_millis(&self) -> (r: i64)
        ensures
            r == self.instant(),
            self.valid(),
    {
        proof {
            use_type_invariant(self);
        }
        self.millis
    }

    /// Seconds east of UTC.
    pub fn offset_seconds(&self) -> (r: i32)
        ensures
            r == self.offset(),
            self.valid(),
    {
        proof {
            use_type_invariant(self);
        }
        self.offset
    }

    /// Whether both timestamps name the same instant at the same offset.
    pub fn same(&self, other: &Timestamp) -> (r: bool)
        ensures
            r == (*self == *other),
    {
        self.millis == other.millis && self.offset == other.offset
    }

    /// The milliseconds from `earlier` to this instant; negative if this one
    /// comes first.
    pub fn millis_since(&self, earlier: &Timestamp) -> (r: i64)
        ensures
            r == self.instant() - earlier.instant(),
            self.valid(),
            earlier.valid(),
    {
        proof {
            use_type_invariant(self);
            use_type_invariant(earlier);
        }
        self.millis - earlier.millis
    }
}

/// A stretch of time that has begun and may have ended.
#[derive(Debug, Clone, Copy, PartialEq, Eq)]
pub struct DateTimeInterval {
    pub start_time: Timestamp,
    pub stop_time: Option<Timestamp>,
}

impl DateTimeInterval {
    /// The instant at which the interval ends, or `now` while it is open.
    pub open spec fn end(self, now: Timestamp) -> Timestamp {
        match self.stop_time {
            Some(t) => t,
            None => now,
        }
    }

    /// The milliseconds from the start to the end, or to `now` while the
    /// interval is open.
    pub open spec fn span(self, now: Timestamp) -> int {
        self.end(now).instant() - self.start_time.instant()
    }

    /// The interval does not end before it starts.
    pub open spec fn ordered(self) -> bool {
        self.stop_time matches Some(t) ==> self.start_time.instant() <= t.instant()
    }

    /// The milliseconds from the start to the end, or to `now` while the
    /// interval is open.
    pub fn duration_at(&self, now: &Timestamp) -> (r: i64)
        ensures
            r == self.span(*now),
    {
        match &self.stop_time {
            Some(t) => t.millis_since(&self.start_time),
            None => now.millis_since(&self.start_time),
        }
    }

    /// Whether both intervals have the same start and the same end.
    pub fn same(&self, other: &DateTimeInterval) -> (r: bool)
        ensures
            r == (*self == *other),
    {
        self.start_time.same(&other.start_time) && match (&self.stop_time, &other.stop_time) {
            (Some(a), Some(b)) => a.same(b),
            (None, None) => true,
            _ => false,
        }
    }
}

/// The error of chrono's parser, `chrono::ParseError`: carried from the
/// parser to `failure_kind`, and never looked into.
#[verifier::external_type_specification]
#[verifier::external_body]
pub struct ExParseError(chrono::ParseError);

/// Why a typed time could not be read.
#[derive(Debug, Clone, Copy, PartialEq, Eq)]
pub enum ParseFailure {
    /// A field is outside its permitted range.
    OutOfRange,
    /// No date and time has the given fields.
    Impossible,
    /// The fields do not determine a date and time.
    NotEnough,
    /// The input holds characters that do not belong there.
    Invalid,
    /// The input ends too early.
    TooShort,
    /// Input is left over after the last field.
    TooLong,
    /// The pattern itself cannot be used.
    BadFormat,
}

/// Reads the clock with `chrono::Local::now` and keeps the instant, to the
/// millisecond, and the local offset. Trusted: that the instant and the offset
/// chrono reports lie in the range of `Timestamp`; chrono's dates end before
/// the year 262143, which is less than 2^53 milliseconds from the epoch, and
/// its offsets stay within a day.
#[verifier::external_body]
pub(crate) fn current_time() -> (r: Timestamp)
    ensures
        r.valid(),
{
    let now = chrono::Local::now();
    Timestamp { millis: now.timestamp_millis(), offset: now.offset().local_minus_utc() }
}

/// The seconds since local midnight, from `chrono::Timelike::num_seconds_from_midnight`
/// on the local clock. Trusted: that the count stays below a day, as chrono
/// documents.
#[verifier::external_body]
pub(crate) fn local_seconds_from_midnight() -> (r: u32)
    ensures
        r < SECONDS_PER_DAY,
{
    chrono::Timelike::num_seconds_from_midnight(&chrono::Local::now().time())
}

/// The days since Monday of the local date, from `chrono::Datelike::weekday`
/// and `chrono::Weekday::num_days_from_monday`. Trusted: that the count is
/// below seven.
#[verifier::external_body]
pub(crate) fn local_days_from_monday() -> (r: u32)
    ensures
        r < 7,
{
    chrono::Datelike::weekday(&chrono::Local::now()).num_days_from_monday()
}

/// The local date as chrono formats it under the pattern `%Y-%m-%d`. Nothing
/// is claimed of the text.
#[verifier::external_body]
pub(crate) fn local_date_text() -> (r: String) {
    chrono::Local::now().format("%Y-%m-%d").to_string()
}

/// Hands `input` to `chrono::TimeZone::datetime_from_str` in the local time
/// zone under the pattern `%Y-%m-%d %H:%M`. Which instant comes back depends
/// on the machine's time zone, so nothing is claimed but that it lies in the
/// range of `Timestamp`.
#[verifier::external_body]
#[allow(deprecated)]
pub(crate) fn parse_local_minutes(input: &str) -> (r: Result<Timestamp, chrono::ParseError>)
    ensures
        r matches Ok(t) ==> t.valid(),
{
    match chrono::TimeZone::datetime_from_str(&chrono::Local, input, "%Y-%m-%d %H:%M") {
        Ok(t) => Ok(Timestamp { millis: t.timestamp_millis(), offset: t.offset().local_minus_utc() }),
        Err(e) => Err(e),
    }
}

/// Tells the kinds of `chrono::ParseError` apart, through `ParseError::kind`.
/// Nothing is claimed of the result.
#[verifier::external_body]
pub(crate) fn failure_kind(e: &chrono::ParseError) -> (r: ParseFailure) {
    match e.kind() {
        chrono::format::ParseErrorKind::OutOfRange => ParseFailure::OutOfRange,
        chrono::format::ParseErrorKind::Impossible => ParseFailure::Impossible,
        chrono::format::ParseErrorKind::NotEnough => ParseFailure::NotEnough,
        chrono::format::ParseErrorKind::Invalid => ParseFailure::Invalid,
        chrono::format::ParseErrorKind::TooShort => ParseFailure::TooShort,
        chrono::format::ParseErrorKind::TooLong => ParseFailure::TooLong,
        _ => ParseFailure::BadFormat,
    }
}

/// Whether a space occurs in the text.
pub fn has_space(s: &str) -> (r: bool)
    ensures
        r == s@.contains(' '),
{
    let n = s.unicode_len();
    let mut i: usize = 0;
    while i < n
        invariant
            n == s@.len(),
            0 <= i <= n,
            forall|j: int| 0 <= j < i ==> s@[j] != ' ',
        decreases n - i,
    {
        if s.get_char(i) == ' ' {
            return true;
        }
        i += 1;
    }
    false
}

/// What is handed to the parser for a typed time: the input itself where it
/// holds a space, and otherwise the input with `today` and a space before it.
pub open spec fn completed_input(input: Seq<char>, today: Seq<char>) -> Seq<char> {
    if input.contains(' ') {
        input
    } else {
        today + seq![' '] + input
    }
}

/// Completes a typed time that gives no date with the date `today`.
pub fn complete_datetime_input(input: &str, today: &str) -> (r: String)
    ensures
        r@ == completed_input(input@, today@),
{
    if has_space(input) {
        String::from_str(input)
    } else {
        let mut text = String::from_str(today);
        text.append(" ");
        text.append(input);
        proof {
            reveal_strlit(" ");
            assert(" "@ =~= seq![' ']);
        }
        text
    }
}

/// Reads a time typed as `HH:MM`, meaning today, or as `YYYY-mm-dd HH:MM`, in
/// the local time zone: see `typed_time` for what comes back.
pub fn parse_datetime(datetime: &str) -> (r: Result<Timestamp, ParseFailure>)
    ensures
        exists|today: Seq<char>, placed: Result<Timestamp, ParseFailure>|
            r == #[trigger] typed_time(
                typed_minutes(completed_input(datetime@, today)),
                placed,
            ),
        r matches Ok(t) ==> t.valid() && exists|today: Seq<char>|
            typed_minutes(#[trigger] completed_input(datetime@, today)) matches Some(m) && m
                == t.local_reading(),
        datetime@.contains(' ') && typed_minutes(datetime@) is None ==> r is Err,
{
    let today = local_date_text();
    let input = complete_datetime_input(datetime, today.as_str());
    let typed = read_typed_minutes(input.as_str());
    let placed = match parse_local_minutes(input.as_str()) {
        Ok(t) => Ok(t),
        Err(e) => Err(failure_kind(&e)),
    };
    let r = settle_typed_time(typed, placed);
    proof {
        assert(r == typed_time(typed_minutes(completed_input(datetime@, today@)), placed));
    }
    r
}

impl Timestamp {
    /// What a clock at the timestamp's offset shows at its instant: the
    /// milliseconds since the Unix epoch, read as if that clock stood in UTC.
    pub open spec fn local_reading(self) -> int {
        self.instant() + self.offset() * MILLIS_PER_SECOND
    }

    /// What a clock at the timestamp's offset shows: see `local_reading`.
    pub fn local_millis(&self) -> (r: i64)
        ensures
            r == self.local_reading(),
    {
        proof {
            use_type_invariant(self);
        }
        self.millis + (self.offset as i64) * MILLIS_PER_SECOND
    }
}

/// The date and time that chrono reads from a text under the pattern
/// `%Y-%m-%d %H:%M`, without regard to any time zone: as the milliseconds
/// since the Unix epoch that a clock in UTC would show then. None where
/// chrono reads no date and time from the text.
pub uninterp spec fn typed_minutes(text: Seq<char>) -> Option<i64>;

/// Reads a text as a date and a time without a time zone, with
/// `chrono::NaiveDateTime::parse_from_str` under the pattern `%Y-%m-%d %H:%M`.
/// Trusted: that what is read depends on the text alone.
#[verifier::external_body]
pub(crate) fn read_typed_minutes(input: &str) -> (r: Option<i64>)
    ensures
        r == typed_minutes(input@),
{
    match chrono::NaiveDateTime::parse_from_str(input, "%Y-%m-%d %H:%M") {
        Ok(t) => Some(t.and_utc().timestamp_millis()),
        Err(_) => None,
    }
}

/// What comes of a typed time, given what chrono reads from the text without
/// regard to a time zone (`typed`) and what it makes of the text in the local
/// time zone (`placed`): the time in the local zone, provided that a clock at
/// its offset shows the date and time that were typed. Where the local zone
/// has no such time, or several, that failure stands. A time whose clock
/// shows anything else is refused as impossible, and one for a text from
/// which no date and time is read as invalid.
pub open spec fn typed_time(typed: Option<i64>, placed: Result<Timestamp, ParseFailure>) -> Result<
    Timestamp,
    ParseFailure,
> {
    match placed {
        Err(kind) => Err(kind),
        Ok(t) => match typed {
            Some(m) => if t.local_reading() == m {
                Ok(t)
            } else {
                Err(ParseFailure::Impossible)
            },
            None => Err(ParseFailure::Invalid),
        },
    }
}

/// Decides what comes of a typed time: see `typed_time`.
pub fn settle_typed_time(typed: Option<i64>, placed: Result<Timestamp, ParseFailure>) -> (r: Result<
    Timestamp,
    ParseFailure,
>)
    ensures
        r == typed_time(typed, placed),
{
    match placed {
        Err(kind) => Err(kind),
        Ok(t) => match typed {
            Some(m) => {
                if t.local_millis() == m {
                    Ok(t)
                } else {
                    Err(ParseFailure::Impossible)
                }
            },
            None => Err(ParseFailure::Invalid),
        },
    }
}

impl DateTimeInterval {
    /// The milliseconds from the start to the end, or to the present moment
    /// while the interval is open.
    pub fn duration(&self) -> (r: i64)
        ensures
            exists|now: Timestamp| r == #[trigger] self.span(now),
            self.stop_time is Some ==> r == self.stop_time->0.instant() - self.start_time.instant(),
    {
        let now = current_time();
        self.duration_at(&now)
    }
}

/// The stretch of time from one instant to another.
#[derive(Debug, Clone, Copy, PartialEq, Eq)]
pub struct Period {
    pub from: Timestamp,
    pub to: Timestamp,
}

impl Period {
    /// Whether the instant lies in the period, both ends included.
    pub open spec fn covers(self, t: Timestamp) -> bool {
        self.from.instant() <= t.instant() <= self.to.instant()
    }

    /// Whether the instant lies in the period, both ends included.
    pub fn contains(&self, t: &Timestamp) -> (r: bool)
        ensures
            r == self.covers(*t),
    {
        self.from.timestamp_millis() <= t.timestamp_millis() && t.timestamp_millis()
            <= self.to.timestamp_millis()
    }

    /// The period from `from` to the present moment.
    pub fn new_to_now(from: Timestamp) -> (r: Period)
        ensures
            r.from == from,
            r.to.valid(),
    {
        Period { from, to: current_time() }
    }
}

/// How many seconds a listing reaches back from `now`: to the last midnight
/// for today's listing; else the given number of days before that; else to the
/// midnight that began the week.
pub open spec fn period_seconds(
    days: Option<i64>,
    today: bool,
    seconds_from_midnight: u32,
    days_from_monday: u32,
) -> int {
    if today {
        seconds_from_midnight as int
    } else {
        match days {
            Some(n) => n * SECONDS_PER_DAY + seconds_from_midnight,
            None => days_from_monday * SECONDS_PER_DAY + seconds_from_midnight,
        }
    }
}

/// The period of a listing that ends at `now`, given how far the local clock
/// is from midnight and from Monday: it begins `period_seconds` before `now`,
/// at the same offset. There is none where its start would lie outside the
/// range of `Timestamp`.
pub open spec fn period_at(
    days: Option<i64>,
    today: bool,
    now: Timestamp,
    seconds_from_midnight: u32,
    days_from_monday: u32,
) -> Option<Period> {
    let from = now.instant() - period_seconds(days, today, seconds_from_midnight, days_from_monday)
        * MILLIS_PER_SECOND;
    if -MAX_INSTANT <= from <= MAX_INSTANT {
        Some(Period { from: Timestamp::at(from as i64, now.offset() as i32), to: now })
    } else {
        None
    }
}

/// The period of a listing that ends at `now`: see `period_at`.
pub fn get_period_at(
    days: Option<i64>,
    today: bool,
    now: Timestamp,
    seconds_from_midnight: u32,
    days_from_monday: u32,
) -> (r: Option<Period>)
    ensures
        r == period_at(days, today, now, seconds_from_midnight, days_from_monday),
{
    let seconds: i128 = if today {
        seconds_from_midnight as i128
    } else {
        match days {
            Some(n) => (n as i128) * (SECONDS_PER_DAY as i128) + (seconds_from_midnight as i128),
            None => (days_from_monday as i128) * (SECONDS_PER_DAY as i128) + (
            seconds_from_midnight as i128),
        }
    };
    let from: i128 = (now.timestamp_millis() as i128) - seconds * (MILLIS_PER_SECOND as i128);
    if -(MAX_INSTANT as i128) <= from && from <= (MAX_INSTANT as i128) {
        match Timestamp::new(from as i64, now.offset_seconds()) {
            Some(start) => Some(Period { from: start, to: now }),
            None => None,
        }
    } else {
        None
    }
}

/// The period of a listing that ends now: today's, that of the last `days`
/// days, or this week's. It is what `period_at` says for some reading of the
/// clock.
pub fn get_period(days: Option<i64>, today: bool) -> (r: Option<Period>)
    ensures
        exists|now: Timestamp, seconds_from_midnight: u32, days_from_monday: u32|
            seconds_from_midnight < SECONDS_PER_DAY && days_from_monday < 7 && r == #[trigger] period_at(
                days,
                today,
                now,
                seconds_from_midnight,
                days_from_monday,
            ),
{
    let now = current_time();
    get_period_at(days, today, now, local_seconds_from_midnight(), local_days_from_monday())
}

/// The largest distance from the Unix epoch, in milliseconds, at which a
/// timestamp is written as text.
pub const MAX_PRINTED: i64 = 8_000_000_000_000_000;

/// The text that chrono writes for the instant, in milliseconds since the
/// Unix epoch, seen at the offset, in seconds east of UTC: the date and time
/// of RFC 3339, to the millisecond, with the offset as hours and minutes.
pub uninterp spec fn rfc3339_text(millis: i64, offset: i32) -> Option<Seq<char>>;

/// The instant, in milliseconds since the Unix epoch, and the offset, in
/// seconds east of UTC, that chrono reads from a text as a date and time of
/// RFC 3339; none where it reads none.
pub uninterp spec fn rfc3339_value(text: Seq<char>) -> Option<(i64, i32)>;

/// Writes an instant at an offset as text, with `chrono::DateTime::to_rfc3339_opts`,
/// to the millisecond and with a numeric offset. Trusted: that the text
/// depends on the instant and the offset alone. Instants within a day of the
/// ends of chrono's range, where chrono panics, are kept out.
#[verifier::external_body]
pub(crate) fn print_rfc3339(millis: i64, offset: i32) -> (r: Option<String>)
    requires
        -MAX_PRINTED <= millis <= MAX_PRINTED,
        -OFFSET_BOUND < offset < OFFSET_BOUND,
    ensures
        match r {
            Some(text) => rfc3339_text(millis, offset) == Some(text@),
            None => rfc3339_text(millis, offset) is None,
        },
{
    let zone = chrono::FixedOffset::east_opt(offset)?;
    let utc = chrono::DateTime::from_timestamp_millis(millis)?;
    Some(utc.with_timezone(&zone).to_rfc3339_opts(chrono::SecondsFormat::Millis, false))
}

/// Reads a text as an instant at an offset, with
/// `chrono::DateTime::parse_from_rfc3339`. Trusted: that what is read depends
/// on the text alone.
#[verifier::external_body]
pub(crate) fn read_rfc3339(text: &str) -> (r: Option<(i64, i32)>)
    ensures
        r == rfc3339_value(text@),
{
    match chrono::DateTime::parse_from_rfc3339(text) {
        Ok(t) => Some((t.timestamp_millis(), t.offset().local_minus_utc())),
        Err(_) => None,
    }
}

impl Timestamp {
    /// The text of the timestamp; none where it lies too far from the epoch
    /// to be written.
    pub open spec fn text(self) -> Option<Seq<char>> {
        if self.valid() && -MAX_PRINTED <= self.instant() <= MAX_PRINTED {
            rfc3339_text(self.instant() as i64, self.offset() as i32)
        } else {
            None
        }
    }

    /// The timestamp that a text stands for; none where it stands for none,
    /// or for one out of range.
    pub open spec fn of_text(text: Seq<char>) -> Option<Timestamp> {
        match rfc3339_value(text) {
            Some((millis, offset)) => if -MAX_INSTANT <= millis <= MAX_INSTANT && -OFFSET_BOUND
                < offset < OFFSET_BOUND {
                Some(Timestamp::at(millis, offset))
            } else {
                None
            },
            None => None,
        }
    }

    /// Whether the timestamp can be written and is read back as it was. A
    /// timestamp whose offset is not a whole number of minutes, for one,
    /// cannot.
    pub open spec fn printable(self) -> bool {
        self.text() matches Some(text) && 0 < text.len() <= u64::MAX && Timestamp::of_text(text)
            == Some(self)
    }

    /// The timestamp as text: see `text`.
    pub fn to_text(&self) -> (r: Option<String>)
        ensures
            match r {
                Some(text) => self.text() == Some(text@),
                None => self.text() is None,
            },
    {
        proof {
            use_type_invariant(self);
        }
        if -MAX_PRINTED <= self.millis && self.millis <= MAX_PRINTED {
            print_rfc3339(self.millis, self.offset)
        } else {
            None
        }
    }

    /// The timestamp that the text stands for: see `of_text`.
    pub fn parse_text(text: &str) -> (r: Option<Timestamp>)
        ensures
            r == Timestamp::of_text(text@),
    {
        match read_rfc3339(text) {
            Some((millis, offset)) => Timestamp::new(millis, offset),
            None => None,
        }
    }

    /// The text of the timestamp, provided that it is read back as the
    /// timestamp: see `printable`.
    pub fn printed(&self) -> (r: Option<String>)
        ensures
            match r {
                Some(text) => self.printable() && self.text() == Some(text@),
                None => !self.printable(),
            },
    {
        match self.to_text() {
            None => None,
            Some(text) => {
                if text.as_str().unicode_len() == 0 {
                    return None;
                }
                match Timestamp::parse_text(text.as_str()) {
                    Some(back) => {
                        if back.same(self) {
                            Some(text)
                        } else {
                            None
                        }
                    },
                    None => None,
                }
            },
        }
    }
}

} // verus!
