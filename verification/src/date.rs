use vstd::prelude::*;

verus! {

/// A calendar date in the proleptic Gregorian calendar.
#[derive(Clone, Copy, PartialEq, Eq, Structural, Debug)]
pub struct Date {
    pub year: u16,
    pub month: u8,
    pub day: u8,
}

pub open spec fn spec_is_leap_year(y: int) -> bool {
    y % 4 == 0 && (y % 100 != 0 || y % 400 == 0)
}

pub open spec fn spec_days_in_month(y: int, m: int) -> int
    recommends
        1 <= m <= 12,
{
    if m == 2 {
        if spec_is_leap_year(y) {
            29
        } else {
            28
        }
    } else if m == 4 || m == 6 || m == 9 || m == 11 {
        30
    } else {
        31
    }
}

impl Date {
    /// A real date of the calendar, within four-digit years.
    pub open spec fn valid(self) -> bool {
        &&& self.year <= 9999
        &&& 1 <= self.month <= 12
        &&& 1 <= self.day <= spec_days_in_month(self.year as int, self.month as int)
    }

    /// A single integer that orders dates chronologically.
    pub open spec fn key(self) -> int {
        self.year * 10000 + self.month * 100 + self.day
    }

    /// Builds a date, rejecting anything that is not a day of the calendar.
    pub fn new(year: u16, month: u8, day: u8) -> (r: Option<Date>)
        ensures
            match r {
                Some(d) => d.valid() && d.year == year && d.month == month && d.day == day,
                None => !(Date { year, month, day }).valid(),
            },
    {
        if year > 9999 || month < 1 || month > 12 {
            return None;
        }
        let leap = year % 4 == 0 && (year % 100 != 0 || year % 400 == 0);
        let dim: u8 = if month == 2 {
            if leap {
                29
            } else {
                28
            }
        } else if month == 4 || month == 6 || month == 9 || month == 11 {
            30
        } else {
            31
        };
        if day < 1 || day > dim {
            return None;
        }
        Some(Date { year, month, day })
    }

    /// Whether `self` falls strictly earlier than `other`.
    pub fn before(&self, other: &Date) -> (r: bool)
        requires
            self.valid(),
            other.valid(),
        ensures
            r == (self.key() < other.key()),
    {
        self.year < other.year || (self.year == other.year && (self.month < other.month || (
        self.month == other.month && self.day < other.day)))
    }
}

/// Distinct valid dates have distinct keys.
pub proof fn lemma_key_injective(a: Date, b: Date)
    requires
        a.valid(),
        b.valid(),
        a.key() == b.key(),
    ensures
        a == b,
{
    assert(1 <= a.month <= 12 && 1 <= a.day <= 31);
    assert(1 <= b.month <= 12 && 1 <= b.day <= 31);
    assert(a.year == b.year) by {
        assert(101 <= a.month * 100 + a.day <= 1231);
        assert(101 <= b.month * 100 + b.day <= 1231);
    }
    assert(a.month == b.month) by {
        assert(1 <= a.day <= 31 && 1 <= b.day <= 31);
    }
}

/// The text chrono renders for a date with `%a %Y-%m-%d`: an abbreviated
/// weekday name, then the zero-padded year, month and day.
pub uninterp spec fn date_display_of(y: int, m: int, d: int) -> Seq<char>;

/// Relies on chrono's `NaiveDate::from_ymd_opt` and `format("%a %Y-%m-%d")`:
/// every valid calendar date within four-digit years is in chrono's range,
/// and the rendered text depends on the date alone.
#[verifier::external_body]
pub(crate) fn format_date(date: &Date) -> (r: String)
    requires
        date.valid(),
    ensures
        r@ == date_display_of(date.year as int, date.month as int, date.day as int),
{
    let nd = chrono::NaiveDate::from_ymd_opt(date.year as i32, date.month as u32, date.day as u32)
        .unwrap();
    nd.format("%a %Y-%m-%d").to_string()
}

} // verus!
