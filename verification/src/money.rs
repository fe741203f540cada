//! Fixed-point currency values: a signed count of minor units (cents).
use crate::date::{spec_days_in_month, Date};
use crate::number_parsers;
use crate::number_parsers::{
    all_digits, count_char, dec_val, digit_val, first_ix, fixed_ok, is_digit_char, unfixed_ok,
};
use crate::text::{dec_str, two_dec};
use vstd::prelude::*;

verus! {

/// A currency amount stored exactly as a signed count of cents.
#[derive(Debug, Clone, Copy, PartialEq, Eq, Structural, PartialOrd, Ord)]
pub struct Money {
    cents: i64,
}

impl View for Money {
    type V = int;

    closed spec fn view(&self) -> int {
        self.cents as int
    }
}

/// Truncating (round toward zero) integer division, as the machine performs it.
pub open spec fn div_trunc(x: int, d: int) -> int
    recommends
        d != 0,
{
    if x >= 0 && d > 0 {
        x / d
    } else if x < 0 && d < 0 {
        (x * -1) / (d * -1)
    } else if x < 0 {
        ((x * -1) / d) * -1
    } else {
        (x / (d * -1)) * -1
    }
}

/// What `i64::checked_div` yields: `None` on a zero divisor or when the
/// quotient (only `i64::MIN / -1`) leaves the representable range.
pub open spec fn spec_checked_div(x: int, d: int) -> Option<i64> {
    if d == 0 {
        None
    } else if i64::MIN <= div_trunc(x, d) <= i64::MAX {
        Some(div_trunc(x, d) as i64)
    } else {
        None
    }
}

/// Why a money string was rejected.
#[derive(Debug, Clone, Copy, PartialEq, Eq, Structural)]
pub enum MoneyError {
    InvalidDecimalPoint,
    InvalidDollars,
    InvalidCents,
    Overflow,
}

/// What `Money::parse` yields on `s`: the count of cents, or the first
/// failure.  The string must be `<dollars>.<cents>` with exactly one dot;
/// the dollars are unsigned digits without a leading zero (unless exactly
/// `0`), the cents exactly two digits; the total must fit in an `i64` count
/// of cents.
pub open spec fn money_parse_spec(s: Seq<char>) -> Result<int, MoneyError> {
    if count_char(s, '.') != 1 {
        Err(MoneyError::InvalidDecimalPoint)
    } else {
        let dollars = s.take(first_ix(s, '.'));
        let cents = s.skip(first_ix(s, '.') + 1);
        if !unfixed_ok(dollars, i64::MAX as int) {
            Err(MoneyError::InvalidDollars)
        } else if !fixed_ok(cents, 2, i64::MAX as int) {
            Err(MoneyError::InvalidCents)
        } else if 100 * dec_val(dollars) + dec_val(cents) > i64::MAX as int {
            Err(MoneyError::Overflow)
        } else {
            Ok(100 * dec_val(dollars) + dec_val(cents))
        }
    }
}

/// A signed amount is never accepted: a string with any character that is
/// neither a digit nor the decimal point — a `+` or `-` sign among them —
/// always parses to an error.
pub proof fn lemma_parse_rejects_sign(s: Seq<char>, i: int)
    requires
        0 <= i < s.len(),
        !is_digit_char(s[i]),
        s[i] != '.',
    ensures
        money_parse_spec(s) is Err,
{
    if count_char(s, '.') == 1 {
        number_parsers::lemma_first_ix_bounds(s, '.');
        let f = first_ix(s, '.');
        if i < f {
            assert(s.take(f)[i] == s[i]);
            assert(!all_digits(s.take(f)));
        } else {
            assert(i > f);
            assert(s.skip(f + 1)[i - f - 1] == s[i]);
            assert(!all_digits(s.skip(f + 1)));
        }
    }
}

impl Money {
    /// Exact construction from a count of minor units.
    pub fn from_cents(cents: i64) -> (m: Money)
        ensures
            m@ == cents as int,
    {
        Money { cents }
    }

    /// The stored count of minor units.
    pub fn cents(&self) -> (c: i64)
        ensures
            c as int == self@,
    {
        self.cents
    }

    /// Parse `<dollars>.<cents>`.  Negative amounts cannot be written; only
    /// arithmetic can produce them.
    pub fn parse(s: &str) -> (r: Result<Money, MoneyError>)
        ensures
            ({
                let sp = money_parse_spec(s@);
                match r {
                    Ok(m) => sp == Ok::<int, MoneyError>(m@),
                    Err(e) => sp == Err::<int, MoneyError>(e),
                }
            }),
    {
        let n = s.unicode_len();
        let (cnt, first, _) = number_parsers::scan_for(s, '.');
        if cnt != 1 {
            return Err(MoneyError::InvalidDecimalPoint);
        }
        proof {
            number_parsers::lemma_first_ix_is(s@, '.', first as int);
        }
        let dollars_portion = s.substring_char(0, first);
        let cents_portion = s.substring_char(first + 1, n);
        proof {
            assert(dollars_portion@ =~= s@.take(first as int));
            assert(cents_portion@ =~= s@.skip(first + 1));
        }
        let dollars: i64 = match number_parsers::unfixed_width(dollars_portion) {
            Some(v) => v,
            None => {
                return Err(MoneyError::InvalidDollars);
            },
        };
        let cents: i64 = match number_parsers::fixed_width(cents_portion, 2) {
            Some(v) => v,
            None => {
                return Err(MoneyError::InvalidCents);
            },
        };
        proof {
            number_parsers::lemma_dec_val_nonneg(dollars_portion@);
            // a two-digit string is worth at most 99
            let cs = cents_portion@;
            assert(cs.drop_last().drop_last() =~= Seq::<char>::empty());
            assert(dec_val(Seq::<char>::empty()) == 0);
            assert(cs.drop_last().len() == 1);
            assert(cs.drop_last().last() == cs[0]);
            assert(is_digit_char(cs[0]) && is_digit_char(cs[1]));
            assert(dec_val(cs.drop_last()) == digit_val(cs[0]));
            assert(0 <= dec_val(cs) <= 99);
        }
        let dollars_times_100 = match dollars.checked_mul(100) {
            Some(v) => v,
            None => {
                return Err(MoneyError::Overflow);
            },
        };
        let total_cents = match cents.checked_add(dollars_times_100) {
            Some(v) => v,
            None => {
                return Err(MoneyError::Overflow);
            },
        };
        Ok(Money { cents: total_cents })
    }

    /// Truncating division of minor units; `None` on a zero divisor or when
    /// the quotient would not fit.
    pub fn checked_div(&self, other: Money) -> (r: Option<i64>)
        ensures
            r == spec_checked_div(self@, other@),
    {
        self.cents.checked_div(other.cents)
    }

    /// Accumulate `other` into `self`; the caller shows the sum fits.
    pub fn accumulate(&mut self, other: Money)
        requires
            i64::MIN <= old(self)@ + other@ <= i64::MAX,
        ensures
            final (self)@ == old(self)@ + other@,
    {
        self.cents = self.cents + other.cents;
    }

    /// Budget left at `date`: a day-prorated share of the month's limit,
    /// minus what was spent.  `None` when a step overflows.
    pub fn left_to_date_in_month(date: Date, limit: Money, spent: Money) -> (r: Option<Money>)
        requires
            1 <= date@.month <= 12,
        ensures
            match r {
                Some(m) => spec_left_to_date(date@, limit@, spent@) == Some(m@),
                None => spec_left_to_date(date@, limit@, spent@) is None,
            },
    {
        let dim: i64 = date.days_in_month() as i64;
        let cents_per_day = match limit.cents.checked_div(dim) {
            Some(v) => v,
            None => {
                return None;
            },
        };
        let cents_accumulated = match cents_per_day.checked_mul(date.day() as i64) {
            Some(v) => v,
            None => {
                return None;
            },
        };
        let net_available = match cents_accumulated.checked_sub(spent.cents) {
            Some(v) => v,
            None => {
                return None;
            },
        };
        proof {
            lemma_div_trunc_bounded(limit@, dim as int);
        }
        Some(Money { cents: net_available })
    }
}

/// The prorated-remaining formula: `trunc(limit / days_in_month) * day -
/// spent`, or `None` as soon as a step leaves the 64-bit range.
pub open spec fn spec_left_to_date(date: crate::date::DateV, limit: int, spent: int) -> Option<
    int,
> {
    let per_day = div_trunc(limit, spec_days_in_month(date.year, date.month));
    let accumulated = per_day * date.day;
    if accumulated < i64::MIN || accumulated > i64::MAX {
        None
    } else if accumulated - spent < i64::MIN || accumulated - spent > i64::MAX {
        None
    } else {
        Some(accumulated - spent)
    }
}

/// The terminal form of an amount: green, a dollar sign, dollars and two
/// cent digits for a non-negative value; red with a minus glyph for a
/// negative one.
pub open spec fn money_display(c: int) -> Seq<char> {
    if c >= 0 {
        "\u{1b}[32m$"@ + dec_str(c / 100) + "."@ + two_dec(c % 100) + "\u{1b}[0m"@
    } else {
        "\u{1b}[31m\u{2212}$"@ + dec_str((-c) / 100) + "."@ + two_dec((-c) % 100) + "\u{1b}[0m"@
    }
}

impl Money {
    /// The colored terminal form of this amount.
    pub fn to_display_string(&self) -> (s: String)
        ensures
            s@ == money_display(self@),
    {
        let mut out = String::new();
        if self.cents >= 0 {
            let m = self.cents as u64;
            out.append("\u{1b}[32m$");
            crate::text::push_u64_dec(&mut out, m / 100);
            out.append(".");
            crate::text::push_two_dec(&mut out, m % 100);
            out.append("\u{1b}[0m");
            proof {
                assert(out@ =~= money_display(self@));
            }
        } else {
            let m: u64 = if self.cents == i64::MIN {
                9223372036854775808
            } else {
                (-self.cents) as u64
            };
            out.append("\u{1b}[31m\u{2212}$");
            crate::text::push_u64_dec(&mut out, m / 100);
            out.append(".");
            crate::text::push_two_dec(&mut out, m % 100);
            out.append("\u{1b}[0m");
            proof {
                assert(out@ =~= money_display(self@));
            }
        }
        out
    }
}

/// Truncating division never grows the magnitude, so its result always fits.
pub proof fn lemma_div_trunc_bounded(x: int, d: int)
    requires
        d >= 1,
    ensures
        x >= 0 ==> 0 <= div_trunc(x, d) <= x,
        x < 0 ==> x <= div_trunc(x, d) <= 0,
{
    if x >= 0 {
        vstd::arithmetic::div_mod::lemma_div_nonincreasing(x, d);
        vstd::arithmetic::div_mod::lemma_div_pos_is_pos(x, d);
    } else {
        vstd::arithmetic::div_mod::lemma_div_nonincreasing(x * -1, d);
        vstd::arithmetic::div_mod::lemma_div_pos_is_pos(x * -1, d);
    }
}

} // verus!
