//! Calendar weeks, the time window they span, and the conversion between
//! times and snowflake ids (ids whose upper bits count milliseconds since
//! the service's epoch).

use vstd::prelude::*;

verus! {

/// The service's epoch, 2015-01-01T00:00:00Z, in milliseconds since the
/// Unix epoch.
pub const DISCORD_EPOCH: u64 = 1_420_070_400_000;

/// The low bits of a snowflake that do not count time.
pub const SNOWFLAKE_LOW: u64 = 4_194_304;

/// Day 1 is 0001-01-01; this is the day number of 1970-01-01.
pub const UNIX_EPOCH_DAY: i64 = 719_163;

pub const MILLIS_PER_DAY: i64 = 86_400_000;

pub const MILLIS_PER_WEEK: i64 = 604_800_000;

/// The day number (day 1 is 0001-01-01) of the Monday of ISO week `week` of
/// ISO year `year`, when that week exists.
pub uninterp spec fn iso_monday_day(year: int, week: int) -> Option<int>;

/// The ISO year and week of the day with day number `day`, when that day can
/// be represented.
pub uninterp spec fn iso_week_of_day(day: int) -> Option<(int, int)>;

/// Relies on chrono's `NaiveDate::from_isoywd_opt` (with Monday) and
/// `Datelike::num_days_from_ce`: the day number of the Monday of the week.
/// For week 1, chrono computes `year - 1` before it checks the year, so the
/// lowest `i32` is left out.
#[verifier::external_body]
fn monday_of_iso_week(year: i32, week: u32) -> (r: Option<i32>)
    requires
        year > i32::MIN,
    ensures
        r matches Some(d) ==> iso_monday_day(year as int, week as int) == Some(d as int),
        r is None ==> iso_monday_day(year as int, week as int) is None,
{
    match chrono::NaiveDate::from_isoywd_opt(year, week, chrono::Weekday::Mon) {
        Some(d) => Some(chrono::Datelike::num_days_from_ce(&d)),
        None => None,
    }
}

/// Relies on chrono's `NaiveDate::from_num_days_from_ce_opt` and
/// `Datelike::iso_week`: the ISO week that holds the day.
#[verifier::external_body]
fn iso_week_of(day: i32) -> (r: Option<(i32, u32)>)
    ensures
        r matches Some(p) ==> iso_week_of_day(day as int) == Some((p.0 as int, p.1 as int)),
        r is None ==> iso_week_of_day(day as int) is None,
{
    match chrono::NaiveDate::from_num_days_from_ce_opt(day) {
        Some(d) => {
            let w = chrono::Datelike::iso_week(&d);
            Some((w.year(), w.week()))
        },
        None => None,
    }
}

/// Week `week` of ISO year `year` exists (years from the lowest `i32` on
/// are not handled).
pub open spec fn week_exists(year: int, week: int) -> bool {
    year > i32::MIN && iso_monday_day(year, week) is Some
}

/// A week of the ISO calendar that exists.
pub struct IsoWeek {
    year: i32,
    week: u32,
    monday: i32,
}

impl IsoWeek {
    pub closed spec fn spec_year(&self) -> int {
        self.year as int
    }

    pub closed spec fn spec_week(&self) -> int {
        self.week as int
    }

    /// The day number of the week's Monday.
    pub closed spec fn spec_monday(&self) -> int {
        self.monday as int
    }

    #[verifier::type_invariant]
    closed spec fn in_calendar(&self) -> bool {
        iso_monday_day(self.year as int, self.week as int) == Some(self.monday as int)
    }

    /// Week `week` of ISO year `year`, or `None` when that week does not
    /// exist or the year is the lowest `i32`.
    pub fn new(year: i32, week: u32) -> (r: Option<IsoWeek>)
        ensures
            r is None <==> !week_exists(year as int, week as int),
            r matches Some(w) ==> w.spec_year() == year && w.spec_week() == week && iso_monday_day(
                year as int,
                week as int,
            ) == Some(w.spec_monday()),
    {
        if year == i32::MIN {
            return None;
        }
        match monday_of_iso_week(year, week) {
            Some(monday) => Some(IsoWeek { year, week, monday }),
            None => None,
        }
    }

    pub fn year(&self) -> (r: i32)
        ensures
            r == self.spec_year(),
    {
        self.year
    }

    pub fn week(&self) -> (r: u32)
        ensures
            r == self.spec_week(),
    {
        self.week
    }

    pub fn monday_day(&self) -> (r: i32)
        ensures
            r == self.spec_monday(),
            iso_monday_day(self.spec_year(), self.spec_week()) == Some(self.spec_monday()),
    {
        proof {
            use_type_invariant(self);
        }
        self.monday
    }
}

/// The start of the week, Monday 00:00 UTC, in milliseconds since the Unix
/// epoch.
pub fn iso_week_to_datetime(week: &IsoWeek) -> (r: i64)
    ensures
        r == (week.spec_monday() - UNIX_EPOCH_DAY) * MILLIS_PER_DAY,
{
    let d = week.monday_day() as i64;
    (d - UNIX_EPOCH_DAY) * MILLIS_PER_DAY
}

/// The smallest snowflake of the millisecond `timestamp_millis` (with `high`,
/// the largest).
pub fn time_snowflake(timestamp_millis: i64, high: bool) -> (r: u64)
    requires
        DISCORD_EPOCH <= timestamp_millis,
        timestamp_millis - DISCORD_EPOCH < 4_398_046_511_104,
    ensures
        r == (timestamp_millis - DISCORD_EPOCH) * SNOWFLAKE_LOW + if high {
            SNOWFLAKE_LOW - 1
        } else {
            0
        },
{
    let since = (timestamp_millis as u64) - DISCORD_EPOCH;
    assert(since * SNOWFLAKE_LOW < 4_398_046_511_104 * 4_194_304) by (nonlinear_arith)
        requires
            since < 4_398_046_511_104,
    ;
    since * SNOWFLAKE_LOW + if high {
        SNOWFLAKE_LOW - 1
    } else {
        0
    }
}

/// The millisecond, since the Unix epoch, at which snowflake `id` was made.
pub fn snowflake_time(id: u64) -> (r: i64)
    ensures
        r == (id / SNOWFLAKE_LOW) as int + DISCORD_EPOCH as int,
{
    (id / SNOWFLAKE_LOW + DISCORD_EPOCH) as i64
}

/// What went wrong reading a week.
#[derive(PartialEq, Eq, Structural, Debug, Clone, Copy)]
pub enum WeekError {
    /// The text is empty.
    Empty,
    /// An offset (`+n`, `-n`) that is not a number of weeks.
    BadOffset,
    /// An offset that leads off the calendar.
    OffsetOutOfRange,
    /// Neither an offset nor `year-week`.
    BadFormat,
    /// A year that is not a number.
    BadYear,
    /// A week that is not a number.
    BadWeek,
    /// A year and week that do not name an existing week.
    InvalidWeek,
}

pub open spec fn is_digit(c: char) -> bool {
    '0' <= c && c <= '9'
}

pub open spec fn all_digits(s: Seq<char>) -> bool {
    s.len() > 0 && forall|i: int| 0 <= i < s.len() ==> is_digit(#[trigger] s[i])
}

/// The value of a string of decimal digits.
pub open spec fn digits_value(s: Seq<char>) -> int
    decreases s.len(),
{
    if s.len() == 0 {
        0
    } else {
        digits_value(s.drop_last()) * 10 + (s.last() as int - '0' as int)
    }
}

/// The integer `s` writes: an optional sign (a minus only when `signed`),
/// then one or more decimal digits.
pub open spec fn decimal_value(s: Seq<char>, signed: bool) -> Option<int> {
    if s.len() > 0 && s[0] == '+' && all_digits(s.drop_first()) {
        Some(digits_value(s.drop_first()))
    } else if signed && s.len() > 0 && s[0] == '-' && all_digits(s.drop_first()) {
        Some(-digits_value(s.drop_first()))
    } else if all_digits(s) {
        Some(digits_value(s))
    } else {
        None
    }
}

/// The integer `s` writes, when it lies in `lo..=hi`.
pub open spec fn decimal_in(s: Seq<char>, signed: bool, lo: int, hi: int) -> Option<int> {
    match decimal_value(s, signed) {
        Some(v) => if lo <= v <= hi {
            Some(v)
        } else {
            None
        },
        None => None,
    }
}

proof fn lemma_digits_value_nonneg(s: Seq<char>)
    requires
        forall|i: int| 0 <= i < s.len() ==> is_digit(#[trigger] s[i]),
    ensures
        digits_value(s) >= 0,
    decreases s.len(),
{
    if s.len() > 0 {
        lemma_digits_value_nonneg(s.drop_last());
    }
}

const SATURATED: u128 = 0x1_0000_0000_0000_0000;

/// Reads the digits `s[from..]`: their value, held at `SATURATED`, or `None`
/// when there is no digit or a character that is not one.
fn read_digits(s: &str, from: usize) -> (r: Option<u128>)
    requires
        from <= s@.len(),
    ensures
        r is Some <==> all_digits(s@.skip(from as int)),
        r matches Some(v) ==> v == if digits_value(s@.skip(from as int)) >= SATURATED {
            SATURATED as int
        } else {
            digits_value(s@.skip(from as int))
        },
{
    let n = s.unicode_len();
    if from >= n {
        return None;
    }
    let ghost t = s@.skip(from as int);
    let mut acc: u128 = 0;
    let mut i: usize = from;
    while i < n
        invariant
            n == s@.len(),
            t == s@.skip(from as int),
            from <= i <= n,
            forall|k: int| 0 <= k < i - from ==> is_digit(#[trigger] t[k]),
            acc == if digits_value(t.take(i - from)) >= SATURATED {
                SATURATED as int
            } else {
                digits_value(t.take(i - from))
            },
        decreases n - i,
    {
        let c = s.get_char(i);
        if !('0' <= c && c <= '9') {
            assert(t[i - from] == c);
            return None;
        }
        let d = (c as u32 - '0' as u32) as u128;
        proof {
            assert(t.take(i - from + 1).drop_last() =~= t.take(i - from));
            assert(t.take(i - from + 1).last() == c);
            lemma_digits_value_nonneg(t.take(i - from));
        }
        if acc >= SATURATED {
            acc = SATURATED;
        } else {
            acc = acc * 10 + d;
            if acc > SATURATED {
                acc = SATURATED;
            }
        }
        i = i + 1;
    }
    assert(t.take(n - from) =~= t);
    Some(acc)
}

/// Reads the integer `s` writes (see [`decimal_value`]), when it lies in
/// `lo..=hi`.
fn parse_decimal(s: &str, signed: bool, lo: i128, hi: i128) -> (r: Option<i128>)
    requires
        -SATURATED < lo <= hi < SATURATED,
    ensures
        r matches Some(v) ==> decimal_in(s@, signed, lo as int, hi as int) == Some(v as int),
        r is None ==> decimal_in(s@, signed, lo as int, hi as int) is None,
{
    let n = s.unicode_len();
    if n == 0 {
        return None;
    }
    let first = s.get_char(0);
    let (neg, from) = if first == '+' {
        (false, 1usize)
    } else if signed && first == '-' {
        (true, 1usize)
    } else {
        (false, 0usize)
    };
    proof {
        assert(s@.skip(0) =~= s@);
        assert(s@.skip(1) =~= s@.drop_first());
        if from == 0 && all_digits(s@) {
            assert(is_digit(s@[0]));
        }
    }
    match read_digits(s, from) {
        None => None,
        Some(mag) => {
            proof {
                lemma_digits_value_nonneg(s@.skip(from as int));
            }
            if mag >= SATURATED {
                return None;
            }
            let v: i128 = if neg {
                -(mag as i128)
            } else {
                mag as i128
            };
            if lo <= v && v <= hi {
                Some(v)
            } else {
                None
            }
        },
    }
}

/// The text a missing week parameter stands for: this week.
pub open spec fn param_text(p: Option<Seq<char>>) -> Seq<char> {
    match p {
        Some(s) => s,
        None => seq!['+', '0'],
    }
}

/// The first position of `c` in `s`, if any.
pub open spec fn first_index(s: Seq<char>, c: char) -> Option<int> {
    if exists|i: int| 0 <= i < s.len() && s[i] == c {
        Some(choose|i: int| 0 <= i < s.len() && s[i] == c && forall|j: int| 0 <= j < i ==> s[j] != c)
    } else {
        None
    }
}

/// The week `s` names, read on the day numbered `today`: `+n` or `-n` for
/// the week `n` weeks from today, or `year-week`; as a year and week, or the
/// error.
pub open spec fn week_named(s: Seq<char>, today: int) -> Result<(int, int), WeekError> {
    if s.len() == 0 {
        Err(WeekError::Empty)
    } else if s[0] == '+' || s[0] == '-' {
        match decimal_in(s, true, i64::MIN as int, i64::MAX as int) {
            None => Err(WeekError::BadOffset),
            Some(n) => {
                let day = today + 7 * n;
                if day < i32::MIN || day > i32::MAX {
                    Err(WeekError::OffsetOutOfRange)
                } else {
                    match iso_week_of_day(day) {
                        None => Err(WeekError::OffsetOutOfRange),
                        Some(yw) => if week_exists(yw.0, yw.1) {
                            Ok(yw)
                        } else {
                            Err(WeekError::InvalidWeek)
                        },
                    }
                }
            },
        }
    } else {
        match first_index(s, '-') {
            None => Err(WeekError::BadFormat),
            Some(p) => match decimal_in(s.take(p), true, i32::MIN as int, i32::MAX as int) {
                None => Err(WeekError::BadYear),
                Some(y) => match decimal_in(s.skip(p + 1), false, 0, u32::MAX as int) {
                    None => Err(WeekError::BadWeek),
                    Some(w) => if week_exists(y, w) {
                        Ok((y, w))
                    } else {
                        Err(WeekError::InvalidWeek)
                    },
                },
            },
        }
    }
}

fn find_char(s: &str, c: char) -> (r: Option<usize>)
    ensures
        r matches Some(i) ==> first_index(s@, c) == Some(i as int) && i < s@.len(),
        r is None ==> first_index(s@, c) is None,
{
    let n = s.unicode_len();
    let mut i: usize = 0;
    while i < n
        invariant
            n == s@.len(),
            i <= n,
            forall|j: int| 0 <= j < i ==> s@[j] != c,
        decreases n - i,
    {
        if s.get_char(i) == c {
            proof {
                let ii = i as int;
                assert(0 <= ii < s@.len() && s@[ii] == c && forall|j: int| 0 <= j < ii ==> s@[j] != c);
                let w = choose|w: int| 0 <= w < s@.len() && s@[w] == c && forall|j: int| 0 <= j < w ==> s@[j] != c;
                if w < ii {
                } else if w > ii {
                    assert(s@[ii] != c);
                }
            }
            return Some(i);
        }
        i = i + 1;
    }
    None
}

/// Reads the week parameter: `None` stands for `+0`, this week; `today` is
/// the day number of today's date.
pub fn parse_iso_week(week_param_opt: Option<&str>, today: i32) -> (r: Result<IsoWeek, WeekError>)
    ensures
        ({
            let s = param_text(
                match week_param_opt {
                    Some(p) => Some(p@),
                    None => None,
                },
            );
            match r {
                Ok(w) => week_named(s, today as int) == Ok::<(int, int), WeekError>(
                    (w.spec_year(), w.spec_week()),
                ),
                Err(e) => week_named(s, today as int) == Err::<(int, int), WeekError>(e),
            }
        }),
{
    let week_param = match week_param_opt {
        Some(p) => p,
        None => "+0",
    };
    proof {
        reveal_strlit("+0");
        assert("+0"@ =~= seq!['+', '0']);
    }
    let n = week_param.unicode_len();
    if n == 0 {
        return Err(WeekError::Empty);
    }
    let first = week_param.get_char(0);
    if first == '+' || first == '-' {
        let offset = match parse_decimal(week_param, true, i64::MIN as i128, i64::MAX as i128) {
            Some(v) => v,
            None => {
                return Err(WeekError::BadOffset);
            },
        };
        let day = today as i128 + 7 * offset;
        if day < i32::MIN as i128 || day > i32::MAX as i128 {
            return Err(WeekError::OffsetOutOfRange);
        }
        match iso_week_of(day as i32) {
            None => Err(WeekError::OffsetOutOfRange),
            Some((y, w)) => match IsoWeek::new(y, w) {
                Some(week) => Ok(week),
                None => Err(WeekError::InvalidWeek),
            },
        }
    } else {
        let p = match find_char(week_param, '-') {
            Some(p) => p,
            None => {
                return Err(WeekError::BadFormat);
            },
        };
        let year_str = week_param.substring_char(0, p);
        let week_str = week_param.substring_char(p + 1, n);
        proof {
            assert(week_param@.subrange(0, p as int) =~= week_param@.take(p as int));
            assert(week_param@.subrange(p + 1, n as int) =~= week_param@.skip(p + 1));
        }
        let year = match parse_decimal(year_str, true, i32::MIN as i128, i32::MAX as i128) {
            Some(v) => v as i32,
            None => {
                return Err(WeekError::BadYear);
            },
        };
        let week = match parse_decimal(week_str, false, 0, u32::MAX as i128) {
            Some(v) => v as u32,
            None => {
                return Err(WeekError::BadWeek);
            },
        };
        match IsoWeek::new(year, week) {
            Some(w) => Ok(w),
            None => Err(WeekError::InvalidWeek),
        }
    }
}

} // verus!
