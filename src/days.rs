//! A calendar that walks day by day from Monday 1 January 1900, keeping
//! track of the day of the week.
//!
//! A year is a leap year when it is divisible by 4, or by both 100 and 400;
//! the second rule adds no year to the first, so 1900 is a leap year here.
use vstd::prelude::*;

verus! {

/// A day of the week, Monday first.
#[derive(Clone, Copy, Debug, PartialEq, Eq, Structural)]
pub enum DayOfWeek {
    Monday,
    Tuesday,
    Wednesday,
    Thursday,
    Friday,
    Saturday,
    Sunday,
}

impl DayOfWeek {
    /// Position in the week: 0 for Monday up to 6 for Sunday.
    pub open spec fn position(self) -> nat {
        match self {
            DayOfWeek::Monday => 0,
            DayOfWeek::Tuesday => 1,
            DayOfWeek::Wednesday => 2,
            DayOfWeek::Thursday => 3,
            DayOfWeek::Friday => 4,
            DayOfWeek::Saturday => 5,
            DayOfWeek::Sunday => 6,
        }
    }

    /// Position in the week: 0 for Monday up to 6 for Sunday.
    pub fn index(&self) -> (r: usize)
        ensures
            r == self.position(),
    {
        match self {
            DayOfWeek::Monday => 0,
            DayOfWeek::Tuesday => 1,
            DayOfWeek::Wednesday => 2,
            DayOfWeek::Thursday => 3,
            DayOfWeek::Friday => 4,
            DayOfWeek::Saturday => 5,
            DayOfWeek::Sunday => 6,
        }
    }

    /// The day at a position in the week; nothing from 7 on.
    pub fn from_index(i: usize) -> (r: Option<DayOfWeek>)
        ensures
            i < 7 ==> (r matches Some(d) && d.position() == i),
            i >= 7 ==> r is None,
    {
        match i {
            0 => Some(DayOfWeek::Monday),
            1 => Some(DayOfWeek::Tuesday),
            2 => Some(DayOfWeek::Wednesday),
            3 => Some(DayOfWeek::Thursday),
            4 => Some(DayOfWeek::Friday),
            5 => Some(DayOfWeek::Saturday),
            6 => Some(DayOfWeek::Sunday),
            _ => None,
        }
    }

    /// The first day of the week, Monday.
    pub fn first() -> (r: DayOfWeek)
        ensures
            r.position() == 0,
    {
        DayOfWeek::Monday
    }

    /// The day after, Monday after Sunday.
    pub fn next(&self) -> (r: DayOfWeek)
        ensures
            r.position() == (self.position() + 1) % 7,
    {
        match DayOfWeek::from_index(self.index() + 1) {
            Some(d) => d,
            None => DayOfWeek::first(),
        }
    }
}

/// `x` is a multiple of `y`.
fn divides(x: u32, y: u32) -> (r: bool)
    requires
        y != 0,
    ensures
        r == (x % y == 0),
{
    x % y == 0
}

/// A leap year: divisible by 4, or by both 100 and 400.
pub open spec fn leap(year: nat) -> bool {
    year % 4 == 0 || (year % 100 == 0 && year % 400 == 0)
}

fn is_leap_year(year: u32) -> (r: bool)
    ensures
        r == leap(year as nat),
{
    divides(year, 4) || (divides(year, 100) && divides(year, 400))
}

/// Number of days in a month of a year.
pub open spec fn month_len(month: nat, year: nat) -> nat {
    if month == 2 {
        if leap(year) {
            29
        } else {
            28
        }
    } else if month == 4 || month == 6 || month == 9 || month == 11 {
        30
    } else {
        31
    }
}

fn days_in_month(month: u8, year: u32) -> (r: u8)
    requires
        1 <= month <= 12,
    ensures
        r == month_len(month as nat, year as nat),
{
    match month {
        1 => 31,
        2 => if is_leap_year(year) {
            29
        } else {
            28
        },
        3 => 31,
        4 => 30,
        5 => 31,
        6 => 30,
        7 => 31,
        8 => 31,
        9 => 30,
        10 => 31,
        11 => 30,
        _ => 31,
    }
}

/// Days in the months of `year` before `month`.
pub open spec fn days_before_month(month: nat, year: nat) -> nat
    decreases month,
{
    if month <= 1 {
        0
    } else {
        days_before_month((month - 1) as nat, year) + month_len((month - 1) as nat, year)
    }
}

/// Days in the years from 1900 up to but excluding `year`.
pub open spec fn days_before_year(year: nat) -> nat
    decreases year,
{
    if year <= 1900 {
        0
    } else {
        days_before_year((year - 1) as nat) + days_before_month(13, (year - 1) as nat)
    }
}

/// Days from 1 January 1900 to the given date.
pub open spec fn day_number(day: nat, month: nat, year: nat) -> nat {
    (days_before_year(year) + days_before_month(month, year) + day - 1) as nat
}

/// The date exists in this calendar.
pub open spec fn valid_date(day: nat, month: nat, year: nat) -> bool {
    1 <= month <= 12 && 1 <= day <= month_len(month, year)
}

/// The date after: the next day of the month, else the first of the next
/// month, else the first of January of the next year.
pub open spec fn next_date(day: nat, month: nat, year: nat) -> (nat, nat, nat) {
    if day + 1 > month_len(month, year) {
        if month == 12 {
            (1, 1, year + 1)
        } else {
            (1, month + 1, year)
        }
    } else {
        (day + 1, month, year)
    }
}

/// `(year, month, day)` comes strictly before `(year2, month2, day2)`.
pub open spec fn earlier(day: nat, month: nat, year: nat, day2: nat, month2: nat, year2: nat) -> bool {
    year < year2 || (year == year2 && month < month2) || (year == year2 && month == month2 && day
        < day2)
}

proof fn lemma_days_before_month_mono(m1: nat, m2: nat, year: nat)
    requires
        m1 <= m2,
    ensures
        days_before_month(m1, year) + (if 1 <= m1 < m2 {
            month_len(m1, year)
        } else {
            0
        }) <= days_before_month(m2, year),
    decreases m2,
{
    if m1 < m2 {
        lemma_days_before_month_mono(m1, (m2 - 1) as nat, year);
    }
}

proof fn lemma_days_before_year_mono(y1: nat, y2: nat)
    requires
        1900 <= y1 <= y2,
    ensures
        days_before_year(y1) + (if y1 < y2 {
            days_before_month(13, y1)
        } else {
            0
        }) <= days_before_year(y2),
    decreases y2,
{
    if y1 < y2 {
        lemma_days_before_year_mono(y1, (y2 - 1) as nat);
    }
}

/// A date lies before the first of January of the next year.
proof fn lemma_within_year(day: nat, month: nat, year: nat)
    requires
        valid_date(day, month, year),
        year >= 1900,
    ensures
        day_number(day, month, year) < days_before_year(year + 1),
{
    lemma_days_before_month_mono(month, 13, year);
    assert(days_before_year(year + 1) == days_before_year(year) + days_before_month(13, year));
}

/// Later dates have larger day numbers.
proof fn lemma_day_number_order(d1: nat, m1: nat, y1: nat, d2: nat, m2: nat, y2: nat)
    requires
        valid_date(d1, m1, y1),
        valid_date(d2, m2, y2),
        y1 >= 1900,
        earlier(d1, m1, y1, d2, m2, y2),
    ensures
        day_number(d1, m1, y1) < day_number(d2, m2, y2),
{
    if y1 < y2 {
        lemma_within_year(d1, m1, y1);
        lemma_days_before_year_mono(y1 + 1, y2);
    } else if m1 < m2 {
        lemma_days_before_month_mono(m1, m2, y1);
    }
}

/// The next date has the next day number.
proof fn lemma_next_day_number(day: nat, month: nat, year: nat)
    requires
        valid_date(day, month, year),
        year >= 1900,
    ensures
        valid_date(next_date(day, month, year).0, next_date(day, month, year).1, next_date(day, month, year).2),
        day_number(next_date(day, month, year).0, next_date(day, month, year).1, next_date(day, month, year).2)
            == day_number(day, month, year) + 1,
{
    if day + 1 > month_len(month, year) {
        if month == 12 {
            assert(days_before_year(year + 1) == days_before_year(year) + days_before_month(13, year));
            assert(days_before_month(13, year) == days_before_month(12, year) + month_len(12, year));
        } else {
            assert(days_before_month(month + 1, year) == days_before_month(month, year) + month_len(
                month,
                year,
            ));
        }
    }
}

/// A calendar date with its day of the week.
#[derive(Clone, Copy, Debug, PartialEq, Eq, Structural)]
pub struct Date {
    /// 1 to 31
    pub day: u8,
    /// 1 to 12
    pub month: u8,
    pub year: u16,
    pub day_of_week: DayOfWeek,
}

/// The order of two dates by year, then month, then day.
pub open spec fn date_order(a: Date, b: Date) -> core::cmp::Ordering {
    if earlier(a.day as nat, a.month as nat, a.year as nat, b.day as nat, b.month as nat, b.year as nat) {
        core::cmp::Ordering::Less
    } else if a.day == b.day && a.month == b.month && a.year == b.year {
        core::cmp::Ordering::Equal
    } else {
        core::cmp::Ordering::Greater
    }
}

impl PartialOrd for Date {
    /// By year, then month, then day; the day of the week plays no part.
    fn partial_cmp(&self, other: &Date) -> (r: Option<core::cmp::Ordering>) {
        let ord = if self.year != other.year {
            if self.year < other.year {
                core::cmp::Ordering::Less
            } else {
                core::cmp::Ordering::Greater
            }
        } else {
            if self.month != other.month {
                if self.month < other.month {
                    core::cmp::Ordering::Less
                } else {
                    core::cmp::Ordering::Greater
                }
            } else {
                if self.day < other.day {
                    core::cmp::Ordering::Less
                } else if self.day == other.day {
                    core::cmp::Ordering::Equal
                } else {
                    core::cmp::Ordering::Greater
                }
            }
        };
        Some(ord)
    }
}

impl vstd::std_specs::cmp::PartialOrdSpecImpl for Date {
    open spec fn obeys_partial_cmp_spec() -> bool {
        true
    }

    open spec fn partial_cmp_spec(&self, other: &Date) -> Option<core::cmp::Ordering> {
        Some(date_order(*self, *other))
    }
}

impl Date {
    /// The date is one this calendar has.
    pub open spec fn valid(self) -> bool {
        valid_date(self.day as nat, self.month as nat, self.year as nat)
    }

    /// The date can be followed by another with a `u16` year.
    pub open spec fn has_next(self) -> bool {
        self.valid() && !(self.month == 12 && self.day == 31 && self.year == u16::MAX)
    }

    pub fn from(day: u8, month: u8, year: u16, day_of_week: DayOfWeek) -> (r: Date)
        ensures
            r == (Date { day, month, year, day_of_week }),
    {
        Date { day, month, year, day_of_week }
    }

    /// The date with this day, month and year on the walk from Monday
    /// 1 January 1900, with the day of the week the walk gives it; nothing
    /// when the calendar has no such date.
    pub fn from_without_weekday(day: u8, month: u8, year: u16) -> (r: Option<Date>)
        requires
            year >= 1900,
        ensures
            r is Some <==> valid_date(day as nat, month as nat, year as nat),
            r matches Some(d) ==> d.day == day && d.month == month && d.year == year
                && d.day_of_week.position() == day_number(day as nat, month as nat, year as nat)
                % 7,
    {
        let mut cur = Date::from(1, 1, 1900, DayOfWeek::Monday);
        loop
            invariant
                year >= 1900,
                cur.valid(),
                cur.year >= 1900,
                cur.year <= year + 1,
                cur.day_of_week.position() == day_number(
                    cur.day as nat,
                    cur.month as nat,
                    cur.year as nat,
                ) % 7,
                forall|d: nat, m: nat, y: nat|
                    #![trigger valid_date(d, m, y), day_number(d, m, y)]
                    valid_date(d, m, y) && y >= 1900 && day_number(d, m, y) < day_number(
                        cur.day as nat,
                        cur.month as nat,
                        cur.year as nat,
                    ) ==> !(d == day && m == month && y == year),
            decreases days_before_year(year as nat + 1) - day_number(
                cur.day as nat,
                cur.month as nat,
                cur.year as nat,
            ),
        {
            if cur.day == day && cur.month == month && cur.year == year {
                return Some(cur);
            }
            if cur.year > year || (cur.year == u16::MAX && cur.month == 12 && cur.day == 31) {
                proof {
                    if valid_date(day as nat, month as nat, year as nat) {
                        lemma_within_year(day as nat, month as nat, year as nat);
                        if cur.year > year {
                            lemma_days_before_year_mono(year as nat + 1, cur.year as nat);
                        } else {
                            // the last day of the last year: the target is earlier
                            assert(earlier(
                                day as nat,
                                month as nat,
                                year as nat,
                                cur.day as nat,
                                cur.month as nat,
                                cur.year as nat,
                            ));
                            lemma_day_number_order(
                                day as nat,
                                month as nat,
                                year as nat,
                                cur.day as nat,
                                cur.month as nat,
                                cur.year as nat,
                            );
                        }
                    }
                }
                return None;
            }
            let ghost before = cur;
            proof {
                lemma_next_day_number(cur.day as nat, cur.month as nat, cur.year as nat);
                lemma_within_year(cur.day as nat, cur.month as nat, cur.year as nat);
                lemma_days_before_year_mono(cur.year as nat + 1, year as nat + 1);
                assert forall|d: nat, m: nat, y: nat|
                    #![trigger valid_date(d, m, y), day_number(d, m, y)]
                    valid_date(d, m, y) && y >= 1900 && day_number(d, m, y) < day_number(
                        before.day as nat,
                        before.month as nat,
                        before.year as nat,
                    ) + 1 implies !(d == day && m == month && y == year) by {
                    if day_number(d, m, y) == day_number(
                        before.day as nat,
                        before.month as nat,
                        before.year as nat,
                    ) {
                        if earlier(d, m, y, before.day as nat, before.month as nat, before.year as nat) {
                            lemma_day_number_order(d, m, y, before.day as nat, before.month as nat, before.year as nat);
                        } else if earlier(before.day as nat, before.month as nat, before.year as nat, d, m, y) {
                            lemma_day_number_order(before.day as nat, before.month as nat, before.year as nat, d, m, y);
                        }
                    }
                }
            }
            cur = cur.next();
        }
    }

    /// The date after, with the next day of the week.
    pub fn next(&self) -> (r: Date)
        requires
            self.has_next(),
        ensures
            (r.day as nat, r.month as nat, r.year as nat) == next_date(
                self.day as nat,
                self.month as nat,
                self.year as nat,
            ),
            r.day_of_week.position() == (self.day_of_week.position() + 1) % 7,
    {
        if (self.day + 1) > days_in_month(self.month, self.year as u32) {
            if self.month == 12 {
                Date { day: 1, month: 1, year: self.year + 1, day_of_week: self.day_of_week.next() }
            } else {
                Date {
                    day: 1,
                    month: self.month + 1,
                    year: self.year,
                    day_of_week: self.day_of_week.next(),
                }
            }
        } else {
            Date {
                day: self.day + 1,
                month: self.month,
                year: self.year,
                day_of_week: self.day_of_week.next(),
            }
        }
    }

    /// The walk through the dates from this one on.
    pub fn into_iter(self) -> (r: DateIter)
        ensures
            r.current() == self,
    {
        DateIter(self)
    }
}

/// Walks through the dates, one day at a time.
pub struct DateIter(Date);

impl DateIter {
    /// The date the walk gives next.
    pub closed spec fn current(&self) -> Date {
        self.0
    }

    /// The current date, moving on to the next one; nothing, and no move,
    /// when the current date has no next one.
    pub fn next(&mut self) -> (r: Option<Date>)
        ensures
            ({
                let c = old(self).current();
                let n = final(self).current();
                &&& c.has_next() ==> r == Some(c) && (n.day as nat, n.month as nat, n.year as nat)
                    == next_date(c.day as nat, c.month as nat, c.year as nat)
                    && n.day_of_week.position() == (c.day_of_week.position() + 1) % 7
                &&& !c.has_next() ==> r is None && n == c
            }),
    {
        let c = self.0;
        let valid = 1 <= c.month && c.month <= 12 && 1 <= c.day && c.day <= days_in_month(
            c.month,
            c.year as u32,
        );
        if !valid || (c.month == 12 && c.day == 31 && c.year == u16::MAX) {
            return None;
        }
        let n = c.next();
        self.0 = n;
        Some(c)
    }
}

/// The first of the month falls on a Sunday, for the `k`-th month counted
/// from January 1901.
pub open spec fn sunday_first(k: nat) -> bool {
    day_number(1, k % 12 + 1, 1901 + k / 12) % 7 == 6
}

/// How many of the first `k` months from January 1901 begin on a Sunday.
pub open spec fn sunday_firsts(k: nat) -> nat
    decreases k,
{
    if k == 0 {
        0
    } else {
        sunday_firsts((k - 1) as nat) + if sunday_first((k - 1) as nat) {
            1nat
        } else {
            0
        }
    }
}

/// Months begun on a date: those from January 1901 up to the given date's
/// month, that month included once its first day is past.
pub open spec fn months_begun(day: nat, month: nat, year: nat) -> nat {
    ((year - 1901) * 12 + month - 1 + if day > 1 {
        1nat
    } else {
        0
    }) as nat
}

/// The number of months from January 1901 to December 2000 that begin on a
/// Sunday, found by walking the days.
pub fn count() -> (r: usize)
    ensures
        r == sunday_firsts(1200),
{
    let mut cur = match Date::from_without_weekday(1, 1, 1901) {
        Some(d) => d,
        None => {
            return 0;
        },
    };
    let mut total: usize = 0;
    while cur.year < 2001
        invariant
            cur.valid(),
            1901 <= cur.year <= 2001,
            cur.year == 2001 ==> cur.day == 1 && cur.month == 1,
            cur.day_of_week.position() == day_number(cur.day as nat, cur.month as nat, cur.year as nat)
                % 7,
            total == sunday_firsts(months_begun(cur.day as nat, cur.month as nat, cur.year as nat)),
            total <= months_begun(cur.day as nat, cur.month as nat, cur.year as nat),
        decreases days_before_year(2001) - day_number(cur.day as nat, cur.month as nat, cur.year as nat),
    {
        let ghost k = months_begun(cur.day as nat, cur.month as nat, cur.year as nat);
        proof {
            lemma_next_day_number(cur.day as nat, cur.month as nat, cur.year as nat);
            lemma_within_year(cur.day as nat, cur.month as nat, cur.year as nat);
            lemma_days_before_year_mono(cur.year as nat + 1, 2001);
        }
        if cur.day == 1 && cur.day_of_week == DayOfWeek::Sunday {
            total += 1;
        }
        proof {
            if cur.day == 1 {
                assert(k % 12 + 1 == cur.month && 1901 + k / 12 == cur.year);
                assert(sunday_firsts(k + 1) == sunday_firsts(k) + if sunday_first(k) {
                    1nat
                } else {
                    0
                });
            }
        }
        cur = cur.next();
    }
    proof {
        assert(months_begun(1, 1, 2001) == 1200);
    }
    total
}

} // verus!
