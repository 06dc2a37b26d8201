use vstd::prelude::*;

verus! {

/// Earliest year a `Date` may hold.
pub const MIN_YEAR: i32 = -262142;

/// Latest year a `Date` may hold.
pub const MAX_YEAR: i32 = 262141;

pub open spec fn is_leap_year(y: int) -> bool {
    (y % 4 == 0 && y % 100 != 0) || y % 400 == 0
}

pub open spec fn days_in_year(y: int) -> int {
    if is_leap_year(y) { 366 } else { 365 }
}

pub open spec fn days_in_month(y: int, m: int) -> int {
    if m == 2 {
        if is_leap_year(y) { 29 } else { 28 }
    } else if m == 4 || m == 6 || m == 9 || m == 11 {
        30
    } else {
        31
    }
}

/// Days of year `y` that precede the first of month `m`.
pub open spec fn days_before_month(y: int, m: int) -> int {
    let common: int = if m == 1 { 0 }
        else if m == 2 { 31 }
        else if m == 3 { 59 }
        else if m == 4 { 90 }
        else if m == 5 { 120 }
        else if m == 6 { 151 }
        else if m == 7 { 181 }
        else if m == 8 { 212 }
        else if m == 9 { 243 }
        else if m == 10 { 273 }
        else if m == 11 { 304 }
        else { 334 };
    if is_leap_year(y) && m > 2 { common + 1 } else { common }
}

/// Days from 0001-01-01 to the first of January of year `y` (proleptic Gregorian).
pub open spec fn days_before_year(y: int) -> int {
    let p = y - 1;
    365 * p + p / 4 - p / 100 + p / 400
}

/// A calendar date given by year, month and day is real.
pub open spec fn valid_ymd(y: int, m: int, d: int) -> bool {
    1 <= m <= 12 && 1 <= d <= days_in_month(y, m)
}

/// Day number of a date: 0001-01-01 is day 0, a Monday.
pub open spec fn day_number(y: int, m: int, d: int) -> int {
    days_before_year(y) + days_before_month(y, m) + d - 1
}

/// Chronological order on year, month, day triples.
pub open spec fn ymd_before(y1: int, m1: int, d1: int, y2: int, m2: int, d2: int) -> bool {
    y1 < y2 || (y1 == y2 && (m1 < m2 || (m1 == m2 && d1 < d2)))
}

proof fn lemma_year_step(y: int)
    ensures
        days_before_year(y + 1) == days_before_year(y) + days_in_year(y),
{
    let p = y - 1;
    assert(y / 4 == p / 4 + (if y % 4 == 0 { 1int } else { 0 }));
    assert(y / 100 == p / 100 + (if y % 100 == 0 { 1int } else { 0 }));
    assert(y / 400 == p / 400 + (if y % 400 == 0 { 1int } else { 0 }));
    assert(y % 400 == 0 ==> y % 100 == 0 && y % 4 == 0);
    assert(y % 100 == 0 ==> y % 4 == 0);
}

proof fn lemma_years_apart(y1: int, y2: int)
    requires
        y1 < y2,
    ensures
        days_before_year(y1) + days_in_year(y1) <= days_before_year(y2),
    decreases y2 - y1,
{
    lemma_year_step(y1);
    if y1 + 1 < y2 {
        lemma_years_apart(y1 + 1, y2);
    }
}

proof fn lemma_months_apart(y: int, m1: int, m2: int)
    requires
        1 <= m1 < m2 <= 12,
    ensures
        days_before_month(y, m1) + days_in_month(y, m1) <= days_before_month(y, m2),
{
}

proof fn lemma_day_of_year(y: int, m: int, d: int)
    requires
        valid_ymd(y, m, d),
    ensures
        0 <= days_before_month(y, m) + d - 1 < days_in_year(y),
{
}

/// On real dates the day number follows the chronological order: it is
/// strictly increasing, hence one date has one number.
pub proof fn lemma_day_number_order(y1: int, m1: int, d1: int, y2: int, m2: int, d2: int)
    requires
        valid_ymd(y1, m1, d1),
        valid_ymd(y2, m2, d2),
    ensures
        ymd_before(y1, m1, d1, y2, m2, d2) <==> day_number(y1, m1, d1) < day_number(y2, m2, d2),
        (y1 == y2 && m1 == m2 && d1 == d2) <==> day_number(y1, m1, d1) == day_number(y2, m2, d2),
{
    assert forall|a: int, b: int, c: int, e: int, f: int, g: int|
        valid_ymd(a, b, c) && valid_ymd(e, f, g) && ymd_before(a, b, c, e, f, g)
        implies day_number(a, b, c) < day_number(e, f, g) by {
        lemma_day_of_year(a, b, c);
        lemma_day_of_year(e, f, g);
        if a < e {
            lemma_years_apart(a, e);
        } else if b < f {
            lemma_months_apart(a, b, f);
        }
    }
}

/// A calendar day in the proleptic Gregorian calendar, without time of day.
#[derive(Clone, Copy, Debug, PartialEq, Eq, Structural, Hash)]
pub struct Date {
    pub year: i32,
    pub month: u32,
    pub day: u32,
}

impl Date {
    /// A real date within the years `MIN_YEAR ..= MAX_YEAR`.
    pub open spec fn wf(self) -> bool {
        &&& MIN_YEAR <= self.year <= MAX_YEAR
        &&& valid_ymd(self.year as int, self.month as int, self.day as int)
    }

    pub open spec fn number(self) -> int {
        day_number(self.year as int, self.month as int, self.day as int)
    }

    /// `self` comes strictly before `other`.
    pub open spec fn before(self, other: Date) -> bool {
        ymd_before(
            self.year as int, self.month as int, self.day as int,
            other.year as int, other.month as int, other.day as int,
        )
    }

    /// `self` comes on or before `other`.
    pub open spec fn on_or_before(self, other: Date) -> bool {
        self.before(other) || self == other
    }

    /// The date with the given year, month and day, if it is real and its year
    /// lies in `MIN_YEAR ..= MAX_YEAR`.
    pub fn from_ymd(year: i32, month: u32, day: u32) -> (r: Option<Date>)
        ensures
            r matches Some(d) ==> d.year == year && d.month == month && d.day == day,
            r is Some <==> (Date { year, month, day }).wf(),
    {
        if year < MIN_YEAR || year > MAX_YEAR || month < 1 || month > 12 || day < 1 {
            return None;
        }
        let leap = (year % 4 == 0 && year % 100 != 0) || year % 400 == 0;
        let last: u32 = if month == 2 {
            if leap { 29 } else { 28 }
        } else if month == 4 || month == 6 || month == 9 || month == 11 {
            30
        } else {
            31
        };
        if day > last {
            None
        } else {
            Some(Date { year, month, day })
        }
    }

    pub fn year(&self) -> (r: i32)
        ensures
            r == self.year,
    {
        self.year
    }

    pub fn month(&self) -> (r: u32)
        ensures
            r == self.month,
    {
        self.month
    }

    pub fn day(&self) -> (r: u32)
        ensures
            r == self.day,
    {
        self.day
    }

    /// Whether `self` comes strictly before `other`.
    pub fn is_before(&self, other: &Date) -> (r: bool)
        ensures
            r == self.before(*other),
    {
        self.year < other.year || (self.year == other.year && (self.month < other.month || (
        self.month == other.month && self.day < other.day)))
    }
}

/// The date with the given parts, where its year lies in `MIN_YEAR ..= MAX_YEAR`.
pub open spec fn date_in_range(y: int, m: int, d: int) -> Option<Date> {
    if MIN_YEAR <= y <= MAX_YEAR {
        Some(Date { year: y as i32, month: m as u32, day: d as u32 })
    } else {
        None
    }
}

/// The date whose day number is `n`, where its year lies in `MIN_YEAR ..= MAX_YEAR`.
pub open spec fn date_numbered(n: int) -> Option<Date> {
    if exists|e: Date| e.wf() && e.number() == n {
        Some(choose|e: Date| e.wf() && e.number() == n)
    } else {
        None
    }
}

/// Turns a real calendar date into a `Date`, unless its year is out of range.
pub fn date_from_parts(parts: (i32, u32, u32)) -> (r: Option<Date>)
    requires
        valid_ymd(parts.0 as int, parts.1 as int, parts.2 as int),
    ensures
        r == date_in_range(parts.0 as int, parts.1 as int, parts.2 as int),
        r == date_numbered(day_number(parts.0 as int, parts.1 as int, parts.2 as int)),
{
    let (y, m, d) = parts;
    let n = Ghost(day_number(y as int, m as int, d as int));
    if MIN_YEAR <= y && y <= MAX_YEAR {
        let e = Date { year: y, month: m, day: d };
        proof {
            assert(e.wf() && e.number() == n@);
            let c = choose|c: Date| c.wf() && c.number() == n@;
            lemma_day_number_order(
                c.year as int, c.month as int, c.day as int, y as int, m as int, d as int,
            );
        }
        Some(e)
    } else {
        proof {
            if exists|e: Date| e.wf() && e.number() == n@ {
                let c = choose|c: Date| c.wf() && c.number() == n@;
                lemma_day_number_order(
                    c.year as int, c.month as int, c.day as int, y as int, m as int, d as int,
                );
            }
        }
        None
    }
}

/// A date in range is the date with its own day number.
pub proof fn lemma_date_numbered(e: Date)
    requires
        e.wf(),
    ensures
        date_numbered(e.number()) == Some(e),
{
    let c = choose|c: Date| c.wf() && c.number() == e.number();
    lemma_day_number_order(
        c.year as int, c.month as int, c.day as int, e.year as int, e.month as int, e.day as int,
    );
}

} // verus!
