//! Calendar dates with a leap-year aware day count.
use crate::number_parsers;
use crate::number_parsers::{count_char, dec_val, first_ix, fixed_ok, unfixed_ok};
use vstd::prelude::*;

verus! {

/// A calendar date.  The day is checked against 31, not against the length
/// of its specific month.
#[derive(Debug, Clone, Copy, PartialEq, Eq, Structural, PartialOrd, Ord, Hash)]
pub struct Date {
    year: u16,
    month: u8,
    day: u8,
}

/// Mathematical value of a `Date`.
pub struct DateV {
    pub year: int,
    pub month: int,
    pub day: int,
}

impl View for Date {
    type V = DateV;

    closed spec fn view(&self) -> DateV {
        DateV { year: self.year as int, month: self.month as int, day: self.day as int }
    }
}

/// Why a date string was rejected.
#[derive(Debug)]
pub enum DateError {
    InvalidSeparator { full_string: String },
    InvalidYear { year_portion: String },
    InvalidMonth { month_portion: String },
    InvalidDay { day_portion: String },
}

/// The divisible-by-400 / by-100 / by-4 leap rule.
pub open spec fn spec_is_leap_year(y: int) -> bool {
    y % 400 == 0 || (y % 100 != 0 && y % 4 == 0)
}

/// Days of month `m` in year `y`.
pub open spec fn spec_days_in_month(y: int, m: int) -> int
    recommends
        1 <= m <= 12,
{
    if m == 2 {
        if spec_is_leap_year(y) {
            29
        } else {
            28
        }
    } else if m == 4 || m == 6 || m == 9 || m == 11 {
        30
    } else {
        31
    }
}

/// The three-letter name of month `m`.
pub open spec fn spec_month_short(m: int) -> Seq<char> {
    if m == 1 {
        "Jan"@
    } else if m == 2 {
        "Feb"@
    } else if m == 3 {
        "Mar"@
    } else if m == 4 {
        "Apr"@
    } else if m == 5 {
        "May"@
    } else if m == 6 {
        "Jun"@
    } else if m == 7 {
        "Jul"@
    } else if m == 8 {
        "Aug"@
    } else if m == 9 {
        "Sep"@
    } else if m == 10 {
        "Oct"@
    } else if m == 11 {
        "Nov"@
    } else {
        "Dec"@
    }
}

/// The persisted canonical form: unpadded year, two-digit month and day.
pub open spec fn date_canonical(v: DateV) -> Seq<char> {
    crate::text::dec_str(v.year) + "-"@ + crate::text::two_dec(v.month) + "-"@
        + crate::text::two_dec(v.day)
}

/// The human form: unpadded day, short month name, unpadded year.
pub open spec fn date_display(v: DateV) -> Seq<char> {
    crate::text::dec_str(v.day) + " "@ + spec_month_short(v.month) + " "@ + crate::text::dec_str(
        v.year,
    )
}

/// The ranges a well-formed date obeys.
pub open spec fn date_fields_valid(v: DateV) -> bool {
    0 <= v.year <= u16::MAX && 1 <= v.month <= 12 && 1 <= v.day <= 31
}

/// The shape `Date::parse` accepts and what it yields: three dash-separated
/// portions, a variable-width year without a leading zero, a two-digit month
/// in 1..=12 and a two-digit day in 1..=31, each failure named after the
/// portion that broke.
pub open spec fn date_parse_matches(s: Seq<char>, r: Result<Date, DateError>) -> bool {
    let i = first_ix(s, '-');
    let j = i + 1 + first_ix(s.skip(i + 1), '-');
    let y = s.take(i);
    let mo = s.subrange(i + 1, j);
    let da = s.skip(j + 1);
    if count_char(s, '-') != 2 {
        r matches Err(DateError::InvalidSeparator { full_string }) && full_string@ == s
    } else if !unfixed_ok(y, u16::MAX as int) {
        r matches Err(DateError::InvalidYear { year_portion }) && year_portion@ == y
    } else if !(fixed_ok(mo, 2, u8::MAX as int) && 1 <= dec_val(mo) <= 12) {
        r matches Err(DateError::InvalidMonth { month_portion }) && month_portion@ == mo
    } else if !(fixed_ok(da, 2, u8::MAX as int) && 1 <= dec_val(da) <= 31) {
        r matches Err(DateError::InvalidDay { day_portion }) && day_portion@ == da
    } else {
        r matches Ok(d) && d@.year == dec_val(y) && d@.month == dec_val(mo) && d@.day == dec_val(
            da,
        )
    }
}

impl Date {
    /// The date's ranges hold; established by every constructor.
    pub open spec fn valid(self) -> bool {
        date_fields_valid(self@)
    }

    /// Construct a date from its fields; `None` when a range is broken.
    /// The day is not checked against the length of the specific month.
    pub fn new(year: u16, month: u8, day: u8) -> (r: Option<Date>)
        ensures
            (1 <= month <= 12 && 1 <= day <= 31) <==> (r matches Some(d) && d@ == (DateV {
                year: year as int,
                month: month as int,
                day: day as int,
            }) && d.valid()),
            !(1 <= month <= 12 && 1 <= day <= 31) ==> r is None,
    {
        if 1 <= month && month <= 12 && 1 <= day && day <= 31 {
            Some(Date { year, month, day })
        } else {
            None
        }
    }

    /// Parse `YYYY-MM-DD`.
    pub fn parse(s: &str) -> (r: Result<Date, DateError>)
        ensures
            date_parse_matches(s@, r),
            r matches Ok(d) ==> d.valid(),
    {
        let n = s.unicode_len();
        let (cnt, first, second) = number_parsers::scan_for(s, '-');
        if cnt != 2 {
            return Err(DateError::InvalidSeparator { full_string: s.to_owned() });
        }
        proof {
            number_parsers::lemma_first_ix_is(s@, '-', first as int);
            assert forall|k: int| 0 <= k < second - first - 1 implies #[trigger] s@.skip(
                first + 1,
            )[k] != '-' by {
                assert(s@.skip(first + 1)[k] == s@[k + first + 1]);
            }
            assert(s@.skip(first + 1)[second - first - 1] == s@[second as int]);
            number_parsers::lemma_first_ix_is(s@.skip(first + 1), '-', second - first - 1);
        }
        let year_portion = s.substring_char(0, first);
        let month_portion = s.substring_char(first + 1, second);
        let day_portion = s.substring_char(second + 1, n);
        proof {
            assert(year_portion@ =~= s@.take(first as int));
            assert(month_portion@ =~= s@.subrange(first + 1, second as int));
            assert(day_portion@ =~= s@.skip(second + 1));
        }
        let year: u16 = match number_parsers::unfixed_width(year_portion) {
            Some(v) => v,
            None => {
                return Err(DateError::InvalidYear { year_portion: year_portion.to_owned() });
            },
        };
        let month: u8 = match number_parsers::fixed_width(month_portion, 2) {
            Some(v) => v,
            None => {
                return Err(DateError::InvalidMonth { month_portion: month_portion.to_owned() });
            },
        };
        if month < 1 || month > 12 {
            return Err(DateError::InvalidMonth { month_portion: month_portion.to_owned() });
        }
        let day: u8 = match number_parsers::fixed_width(day_portion, 2) {
            Some(v) => v,
            None => {
                return Err(DateError::InvalidDay { day_portion: day_portion.to_owned() });
            },
        };
        if day < 1 || day > 31 {
            return Err(DateError::InvalidDay { day_portion: day_portion.to_owned() });
        }
        Ok(Date { year, month, day })
    }

    pub fn year(&self) -> (y: u16)
        ensures
            y as int == self@.year,
    {
        self.year
    }

    pub fn month(&self) -> (m: u8)
        ensures
            m as int == self@.month,
    {
        self.month
    }

    pub fn day(&self) -> (d: u8)
        ensures
            d as int == self@.day,
    {
        self.day
    }

    /// The divisible-by-400 / by-100 / by-4 leap rule.
    fn is_leap_year(&self) -> (r: bool)
        ensures
            r == spec_is_leap_year(self@.year),
    {
        if self.year % 400 == 0 {
            return true;
        }
        if self.year % 100 == 0 {
            return false;
        }
        return self.year % 4 == 0;
    }

    /// Three-letter month name.
    pub fn short_month_name(&self) -> (r: String)
        requires
            1 <= self@.month <= 12,
        ensures
            r@ == spec_month_short(self@.month),
    {
        let s = if self.month == 1 {
            "Jan"
        } else if self.month == 2 {
            "Feb"
        } else if self.month == 3 {
            "Mar"
        } else if self.month == 4 {
            "Apr"
        } else if self.month == 5 {
            "May"
        } else if self.month == 6 {
            "Jun"
        } else if self.month == 7 {
            "Jul"
        } else if self.month == 8 {
            "Aug"
        } else if self.month == 9 {
            "Sep"
        } else if self.month == 10 {
            "Oct"
        } else if self.month == 11 {
            "Nov"
        } else {
            "Dec"
        };
        s.to_owned()
    }

    /// The persisted canonical form, `YYYY-MM-DD`.
    pub fn serialize(&self) -> (s: String)
        requires
            self.valid(),
        ensures
            s@ == date_canonical(self@),
    {
        let mut out = String::new();
        crate::text::push_u64_dec(&mut out, self.year as u64);
        out.append("-");
        crate::text::push_two_dec(&mut out, self.month as u64);
        out.append("-");
        crate::text::push_two_dec(&mut out, self.day as u64);
        proof {
            assert(out@ =~= date_canonical(self@));
        }
        out
    }

    /// The human form, day, short month name and year.
    pub fn to_display_string(&self) -> (s: String)
        requires
            self.valid(),
        ensures
            s@ == date_display(self@),
    {
        let mut out = String::new();
        crate::text::push_u64_dec(&mut out, self.day as u64);
        out.append(" ");
        let mon = self.short_month_name();
        out.append(mon.as_str());
        out.append(" ");
        crate::text::push_u64_dec(&mut out, self.year as u64);
        proof {
            assert(out@ =~= date_display(self@));
        }
        out
    }

    /// How many days this date's month has in this date's year.
    pub fn days_in_month(&self) -> (r: u8)
        requires
            1 <= self@.month <= 12,
        ensures
            r as int == spec_days_in_month(self@.year, self@.month),
            28 <= r <= 31,
    {
        if self.month == 2 {
            if self.is_leap_year() {
                29
            } else {
                28
            }
        } else if self.month == 4 || self.month == 6 || self.month == 9 || self.month == 11 {
            30
        } else {
            31
        }
    }
}

} // verus!
