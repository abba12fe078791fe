//! Wall-clock arithmetic on the values read from the real-time clock and the
//! time-stamp counter.
use vstd::prelude::*;

verus! {

/// Value of a two-digit binary-coded decimal byte.
pub open spec fn bcd(b: u8) -> int {
    (b % 16) as int + (b / 16) as int * 10
}

/// Gregorian leap year.
pub open spec fn is_leap(y: int) -> bool {
    (y % 4 == 0 && y % 100 != 0) || y % 400 == 0
}

/// Days in year `y`.
pub open spec fn year_days(y: int) -> int {
    if is_leap(y) {
        366
    } else {
        365
    }
}

/// Days from 1970-01-01 to the first day of year `y` (0 for years before 1970).
pub open spec fn days_before_year(y: int) -> int
    decreases y - 1970,
{
    if y <= 1970 {
        0
    } else {
        days_before_year(y - 1) + year_days(y - 1)
    }
}

/// Days in month `m` (1 to 12).
pub open spec fn month_days(m: int, leap: bool) -> int {
    if m == 2 {
        if leap {
            29
        } else {
            28
        }
    } else if m == 4 || m == 6 || m == 9 || m == 11 {
        30
    } else {
        31
    }
}

/// Days from the first of the year to the first of month `m`.
pub open spec fn days_before_month(m: int, leap: bool) -> int
    decreases m,
{
    if m <= 1 {
        0
    } else {
        days_before_month(m - 1, leap) + month_days(m - 1, leap)
    }
}

/// Seconds from 1970-01-01 00:00:00 to the given date and time.
pub open spec fn unix_seconds(year: int, month: int, day: int, hour: int, minute: int, second: int) -> int {
    let days = days_before_year(year) + days_before_month(month, is_leap(year)) + day - 1;
    ((days * 24 + hour) * 60 + minute) * 60 + second
}

proof fn lemma_days_before_year_bound(y: int)
    ensures
        0 <= days_before_year(y) <= 366 * (if y > 1970 { y - 1970 } else { 0 }),
    decreases y - 1970,
{
    if y > 1970 {
        lemma_days_before_year_bound(y - 1);
    }
}

proof fn lemma_days_before_month_bound(m: int, leap: bool)
    ensures
        0 <= days_before_month(m, leap) <= 31 * (if m > 1 { m - 1 } else { 0 }),
    decreases m,
{
    if m > 1 {
        lemma_days_before_month_bound(m - 1, leap);
    }
}

/// A date and time read from the clock, with the timestamp and counter
/// value taken with it.
#[derive(Clone, Copy)]
pub struct Time {
    year: u16,
    month: u8,
    day: u8,
    hour: u8,
    minute: u8,
    second: u8,
    timestamp: u64,
    ticks: u64,
}

impl Time {
    pub closed spec fn spec_year(&self) -> int { self.year as int }
    pub closed spec fn spec_month(&self) -> int { self.month as int }
    pub closed spec fn spec_day(&self) -> int { self.day as int }
    pub closed spec fn spec_hour(&self) -> int { self.hour as int }
    pub closed spec fn spec_minute(&self) -> int { self.minute as int }
    pub closed spec fn spec_second(&self) -> int { self.second as int }
    pub closed spec fn spec_timestamp(&self) -> int { self.timestamp as int }
    pub closed spec fn spec_ticks(&self) -> int { self.ticks as int }

    /// Builds the time from the clock registers `rtc` (second, minute, hour,
    /// day, month and two-digit year, each in BCD, in the order they are
    /// read) and the counter value `ticks`. The year is taken in the 2000s.
    pub fn init(rtc: (u8, u8, u8, u8, u8, u8), ticks: u64) -> (r: Time)
        requires
            bcd(rtc.3) >= 1,
            bcd(rtc.4) <= 13,
        ensures
            r.spec_year() == 2000 + bcd(rtc.5),
            r.spec_month() == bcd(rtc.4),
            r.spec_day() == bcd(rtc.3),
            r.spec_hour() == bcd(rtc.2),
            r.spec_minute() == bcd(rtc.1),
            r.spec_second() == bcd(rtc.0),
            r.spec_timestamp() == unix_seconds(
                2000 + bcd(rtc.5),
                bcd(rtc.4),
                bcd(rtc.3),
                bcd(rtc.2),
                bcd(rtc.1),
                bcd(rtc.0),
            ),
            r.spec_ticks() == ticks,
    {
        let dt = Self::get_current_datetime(rtc);
        let timestamp = Self::get_unix_timestamp(dt);
        Time {
            year: dt.0,
            month: dt.1,
            day: dt.2,
            hour: dt.3,
            minute: dt.4,
            second: dt.5,
            timestamp,
            ticks,
        }
    }

    pub fn get_year(&self) -> (r: u16)
        ensures
            r == self.spec_year(),
    {
        self.year
    }

    pub fn get_month(&self) -> (r: u8)
        ensures
            r == self.spec_month(),
    {
        self.month
    }

    pub fn get_day(&self) -> (r: u8)
        ensures
            r == self.spec_day(),
    {
        self.day
    }

    pub fn get_hour(&self) -> (r: u8)
        ensures
            r == self.spec_hour(),
    {
        self.hour
    }

    pub fn get_minute(&self) -> (r: u8)
        ensures
            r == self.spec_minute(),
    {
        self.minute
    }

    pub fn get_second(&self) -> (r: u8)
        ensures
            r == self.spec_second(),
    {
        self.second
    }

    /// Seconds since 1970-01-01 00:00:00.
    pub fn get_timestamp(&self) -> (r: u64)
        ensures
            r == self.spec_timestamp(),
    {
        self.timestamp
    }

    pub fn get_ticks(&self) -> (r: u64)
        ensures
            r == self.spec_ticks(),
    {
        self.ticks
    }

    /// Decodes the clock registers (second, minute, hour, day, month, year,
    /// in BCD) into (year, month, day, hour, minute, second).
    pub fn get_current_datetime(rtc: (u8, u8, u8, u8, u8, u8)) -> (r: (u16, u8, u8, u8, u8, u8))
        ensures
            r.0 == 2000 + bcd(rtc.5),
            r.1 == bcd(rtc.4),
            r.2 == bcd(rtc.3),
            r.3 == bcd(rtc.2),
            r.4 == bcd(rtc.1),
            r.5 == bcd(rtc.0),
    {
        let second = Self::bcd_to_binary(rtc.0);
        let minute = Self::bcd_to_binary(rtc.1);
        let hour = Self::bcd_to_binary(rtc.2);
        let day = Self::bcd_to_binary(rtc.3);
        let month = Self::bcd_to_binary(rtc.4);
        let year = Self::bcd_to_binary(rtc.5);
        (2000 + year as u16, month, day, hour, minute, second)
    }

    /// Seconds since 1970-01-01 00:00:00 of (year, month, day, hour, minute,
    /// second).
    pub fn get_unix_timestamp(datetime: (u16, u8, u8, u8, u8, u8)) -> (r: u64)
        requires
            datetime.2 >= 1,
            datetime.1 <= 13,
        ensures
            r == unix_seconds(
                datetime.0 as int,
                datetime.1 as int,
                datetime.2 as int,
                datetime.3 as int,
                datetime.4 as int,
                datetime.5 as int,
            ),
    {
        let (year, month, day, hour, minute, second) = datetime;
        let mut days: u64 = 0;
        let mut y: u16 = 1970;
        while y < year
            invariant
                1970 <= y,
                y <= year || (year < 1970 && y == 1970),
                days == days_before_year(y as int),
            decreases year - y,
        {
            proof {
                lemma_days_before_year_bound(y as int);
            }
            days = days + if Self::is_leap_year(y) {
                366
            } else {
                365
            };
            y = y + 1;
        }
        proof {
            if year < 1970 {
                assert(days_before_year(year as int) == 0);
            } else {
                assert(y == year);
            }
        }
        let leap = Self::is_leap_year(year);
        let mut m: u8 = 1;
        let ghost base = days as int;
        proof {
            lemma_days_before_year_bound(year as int);
        }
        while m < month
            invariant
                1 <= m,
                m <= month || (month < 1 && m == 1),
                month <= 13,
                leap == is_leap(year as int),
                base == days_before_year(year as int),
                base <= 366 * 65535,
                days == base + days_before_month(m as int, leap),
            decreases month - m,
        {
            proof {
                lemma_days_before_month_bound(m as int, leap);
            }
            let len: u64 = if m == 2 {
                if leap {
                    29
                } else {
                    28
                }
            } else if m == 4 || m == 6 || m == 9 || m == 11 {
                30
            } else {
                31
            };
            days = days + len;
            m = m + 1;
        }
        proof {
            if month < 1 {
                assert(days_before_month(month as int, leap) == 0);
                assert(days_before_month(m as int, leap) == 0);
            } else {
                assert(m == month);
            }
            lemma_days_before_month_bound(month as int, leap);
        }
        days = days + day as u64 - 1;
        assert(days <= 366 * 65535 + 31 * 12 + 255);
        let hours = days * 24 + hour as u64;
        let minutes = hours * 60 + minute as u64;
        minutes * 60 + second as u64
    }

    /// The time-stamp counter from its two halves.
    pub fn get_cpu_ticks(low: u32, high: u32) -> (r: u64)
        ensures
            r == high * 0x1_0000_0000 + low,
    {
        let h = high as u64;
        let l = low as u64;
        assert((h << 32) | l == h * 0x1_0000_0000 + l) by (bit_vector)
            requires
                h < 0x1_0000_0000,
                l < 0x1_0000_0000,
        ;
        (h << 32) | l
    }

    /// Value of a binary-coded decimal byte.
    pub fn bcd_to_binary(b: u8) -> (r: u8)
        ensures
            r == bcd(b),
    {
        assert(b & 0x0F == b % 16) by (bit_vector);
        assert(b >> 4 == b / 16) by (bit_vector);
        (b & 0x0F) + ((b >> 4) * 10)
    }

    /// Gregorian leap year.
    pub fn is_leap_year(year: u16) -> (r: bool)
        ensures
            r == is_leap(year as int),
    {
        (year % 4 == 0 && year % 100 != 0) || (year % 400 == 0)
    }
}

} // verus!
