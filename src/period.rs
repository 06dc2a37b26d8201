use chrono::Datelike;
use vstd::prelude::*;

use crate::date::{
    date_from_parts, date_in_range, date_numbered, day_number, lemma_date_numbered,
    lemma_day_number_order, valid_ymd,
    Date,
};

verus! {

// Each wrapper below hands the date to date_calculations as a chrono
// `NaiveDate` (every valid `Date` is one, with a year to spare on each side)
// and hands the result back as year, month and day.

/// Day number of the Sunday on or before day `n` (day 0 is a Monday).
pub open spec fn week_start(n: int) -> int {
    n - (n + 1) % 7
}

/// First month of the quarter that holds month `m`.
pub open spec fn quarter_month(m: int) -> int {
    1 + 3 * ((m - 1) / 3)
}

/// Relies on date_calculations::beginning_of_week: the Sunday on or before the date.
#[verifier::external_body]
fn sunday_on_or_before(d: &Date) -> (r: Option<(i32, u32, u32)>)
    requires
        d.wf(),
    ensures
        r is Some,
        valid_ymd(r.unwrap().0 as int, r.unwrap().1 as int, r.unwrap().2 as int),
        day_number(r.unwrap().0 as int, r.unwrap().1 as int, r.unwrap().2 as int) == week_start(
            d.number(),
        ),
{
    let n = chrono::NaiveDate::from_ymd_opt(d.year, d.month, d.day)?;
    date_calculations::beginning_of_week(&n).map(|b| (b.year(), b.month(), b.day()))
}

/// Relies on date_calculations::next_week: the Sunday after the date's week.
#[verifier::external_body]
fn sunday_after(d: &Date) -> (r: Option<(i32, u32, u32)>)
    requires
        d.wf(),
    ensures
        r is Some,
        valid_ymd(r.unwrap().0 as int, r.unwrap().1 as int, r.unwrap().2 as int),
        day_number(r.unwrap().0 as int, r.unwrap().1 as int, r.unwrap().2 as int) == week_start(
            d.number(),
        ) + 7,
{
    let n = chrono::NaiveDate::from_ymd_opt(d.year, d.month, d.day)?;
    date_calculations::next_week(&n).map(|b| (b.year(), b.month(), b.day()))
}

/// Relies on date_calculations::beginning_of_month: the first of the date's month.
#[verifier::external_body]
fn first_of_month(d: &Date) -> (r: Option<(i32, u32, u32)>)
    requires
        d.wf(),
    ensures
        r == Some((d.year, d.month, 1u32)),
{
    let n = chrono::NaiveDate::from_ymd_opt(d.year, d.month, d.day)?;
    date_calculations::beginning_of_month(&n).map(|b| (b.year(), b.month(), b.day()))
}

/// Relies on date_calculations::next_month: the first of the following month.
#[verifier::external_body]
fn first_of_next_month(d: &Date) -> (r: Option<(i32, u32, u32)>)
    requires
        d.wf(),
    ensures
        r == Some(
            if d.month == 12 {
                ((d.year + 1) as i32, 1u32, 1u32)
            } else {
                (d.year, (d.month + 1) as u32, 1u32)
            },
        ),
{
    let n = chrono::NaiveDate::from_ymd_opt(d.year, d.month, d.day)?;
    date_calculations::next_month(&n).map(|b| (b.year(), b.month(), b.day()))
}

/// Relies on date_calculations::beginning_of_quarter: the first of January,
/// April, July or October that opens the date's quarter.
#[verifier::external_body]
fn first_of_quarter(d: &Date) -> (r: Option<(i32, u32, u32)>)
    requires
        d.wf(),
    ensures
        r == Some((d.year, quarter_month(d.month as int) as u32, 1u32)),
{
    let n = chrono::NaiveDate::from_ymd_opt(d.year, d.month, d.day)?;
    date_calculations::beginning_of_quarter(&n).map(|b| (b.year(), b.month(), b.day()))
}

/// Relies on date_calculations::next_quarter: the first day of the following quarter.
#[verifier::external_body]
fn first_of_next_quarter(d: &Date) -> (r: Option<(i32, u32, u32)>)
    requires
        d.wf(),
    ensures
        r == Some(
            if d.month >= 10 {
                ((d.year + 1) as i32, 1u32, 1u32)
            } else {
                (d.year, (quarter_month(d.month as int) + 3) as u32, 1u32)
            },
        ),
{
    let n = chrono::NaiveDate::from_ymd_opt(d.year, d.month, d.day)?;
    date_calculations::next_quarter(&n).map(|b| (b.year(), b.month(), b.day()))
}

/// Relies on date_calculations::beginning_of_year: January 1 of the date's year.
#[verifier::external_body]
fn first_of_year(d: &Date) -> (r: Option<(i32, u32, u32)>)
    requires
        d.wf(),
    ensures
        r == Some((d.year, 1u32, 1u32)),
{
    let n = chrono::NaiveDate::from_ymd_opt(d.year, d.month, d.day)?;
    date_calculations::beginning_of_year(&n).map(|b| (b.year(), b.month(), b.day()))
}

/// Relies on date_calculations::next_year: January 1 of the following year.
#[verifier::external_body]
fn first_of_next_year(d: &Date) -> (r: Option<(i32, u32, u32)>)
    requires
        d.wf(),
    ensures
        r == Some(((d.year + 1) as i32, 1u32, 1u32)),
{
    let n = chrono::NaiveDate::from_ymd_opt(d.year, d.month, d.day)?;
    date_calculations::next_year(&n).map(|b| (b.year(), b.month(), b.day()))
}

/// Weeks, starting on Sunday.
#[derive(Debug, PartialEq)]
pub struct Week;

/// Calendar months.
#[derive(Debug, PartialEq)]
pub struct Month;

/// Quarters, starting on the first of January, April, July and October.
#[derive(Debug, PartialEq)]
pub struct Quarter;

/// Calendar years.
#[derive(Debug, PartialEq)]
pub struct Year;

/// A kind of calendar period: where the period holding a date begins, and
/// where the next one begins.
pub trait Period {
    /// Start of the period that holds `date`; `None` where it falls out of range.
    spec fn spec_beginning(date: Date) -> Option<Date>;

    /// Start of the period after the one that holds `date`; `None` where it
    /// falls out of range.
    spec fn spec_advance(date: Date) -> Option<Date>;

    fn beginning(date: &Date) -> (r: Option<Date>)
        requires
            date.wf(),
        ensures
            r == Self::spec_beginning(*date),
    ;

    fn advance(date: &Date) -> (r: Option<Date>)
        requires
            date.wf(),
        ensures
            r == Self::spec_advance(*date),
    ;

    /// A period starts on or before each date within it, and the start of a
    /// period is its own start: projecting twice is projecting once.
    proof fn lemma_beginning(date: Date)
        requires
            date.wf(),
        ensures
            match Self::spec_beginning(date) {
                Some(b) => b.wf() && b.on_or_before(date) && Self::spec_beginning(b) == Some(b),
                None => true,
            },
    ;

    /// The next period starts strictly later, and its start is its own start.
    proof fn lemma_advance(date: Date)
        requires
            date.wf(),
        ensures
            match Self::spec_advance(date) {
                Some(n) => n.wf() && date.before(n) && Self::spec_beginning(n) == Some(n),
                None => true,
            },
    ;

    /// Each date from the start of a period up to the start of the next one
    /// lies in that period.
    proof fn lemma_within(start: Date, date: Date)
        requires
            start.wf(),
            date.wf(),
            Self::spec_beginning(start) == Some(start),
            Self::spec_advance(start) is Some,
            start.on_or_before(date),
            date.before(Self::spec_advance(start).unwrap()),
        ensures
            Self::spec_beginning(date) == Some(start),
    ;
}

proof fn lemma_same_week(k: int, n: int)
    requires
        week_start(k) == k,
        k <= n < k + 7,
    ensures
        week_start(n) == k,
{
}

proof fn lemma_week_start(n: int)
    ensures
        n - 7 < week_start(n) <= n,
        week_start(week_start(n)) == week_start(n),
        week_start(week_start(n) + 7) == week_start(n) + 7,
{
}

impl Period for Week {
    open spec fn spec_beginning(date: Date) -> Option<Date> {
        date_numbered(week_start(date.number()))
    }

    open spec fn spec_advance(date: Date) -> Option<Date> {
        date_numbered(week_start(date.number()) + 7)
    }

    fn beginning(date: &Date) -> (r: Option<Date>) {
        match sunday_on_or_before(date) {
            Some(t) => date_from_parts(t),
            None => None,
        }
    }

    fn advance(date: &Date) -> (r: Option<Date>) {
        match sunday_after(date) {
            Some(t) => date_from_parts(t),
            None => None,
        }
    }

    proof fn lemma_beginning(date: Date) {
        let n = date.number();
        lemma_week_start(n);
        if let Some(b) = Self::spec_beginning(date) {
            lemma_day_number_order(
                b.year as int, b.month as int, b.day as int,
                date.year as int, date.month as int, date.day as int,
            );
            assert(b.number() == week_start(n));
        }
    }

    proof fn lemma_advance(date: Date) {
        let n = date.number();
        lemma_week_start(n);
        if let Some(a) = Self::spec_advance(date) {
            lemma_day_number_order(
                date.year as int, date.month as int, date.day as int,
                a.year as int, a.month as int, a.day as int,
            );
            assert(a.number() == week_start(n) + 7);
        }
    }

    proof fn lemma_within(start: Date, date: Date) {
        let k = start.number();
        let n = date.number();
        let a = Self::spec_advance(start).unwrap();
        assert(start.number() == week_start(k));
        assert(a.wf() && a.number() == week_start(k) + 7);
        lemma_day_number_order(
            start.year as int, start.month as int, start.day as int,
            date.year as int, date.month as int, date.day as int,
        );
        lemma_day_number_order(
            date.year as int, date.month as int, date.day as int,
            a.year as int, a.month as int, a.day as int,
        );
        lemma_same_week(k, n);
        lemma_date_numbered(start);
    }
}

impl Period for Month {
    open spec fn spec_beginning(date: Date) -> Option<Date> {
        Some(Date { year: date.year, month: date.month, day: 1 })
    }

    open spec fn spec_advance(date: Date) -> Option<Date> {
        if date.month == 12 {
            date_in_range(date.year + 1, 1, 1)
        } else {
            Some(Date { year: date.year, month: (date.month + 1) as u32, day: 1 })
        }
    }

    fn beginning(date: &Date) -> (r: Option<Date>) {
        match first_of_month(date) {
            Some(t) => date_from_parts(t),
            None => None,
        }
    }

    fn advance(date: &Date) -> (r: Option<Date>) {
        match first_of_next_month(date) {
            Some(t) => date_from_parts(t),
            None => None,
        }
    }

    proof fn lemma_beginning(date: Date) {
    }

    proof fn lemma_advance(date: Date) {
    }

    proof fn lemma_within(start: Date, date: Date) {
    }
}

impl Period for Quarter {
    open spec fn spec_beginning(date: Date) -> Option<Date> {
        Some(Date { year: date.year, month: quarter_month(date.month as int) as u32, day: 1 })
    }

    open spec fn spec_advance(date: Date) -> Option<Date> {
        if date.month >= 10 {
            date_in_range(date.year + 1, 1, 1)
        } else {
            Some(
                Date { year: date.year, month: (quarter_month(date.month as int) + 3) as u32, day: 1 },
            )
        }
    }

    fn beginning(date: &Date) -> (r: Option<Date>) {
        match first_of_quarter(date) {
            Some(t) => date_from_parts(t),
            None => None,
        }
    }

    fn advance(date: &Date) -> (r: Option<Date>) {
        match first_of_next_quarter(date) {
            Some(t) => date_from_parts(t),
            None => None,
        }
    }

    proof fn lemma_beginning(date: Date) {
    }

    proof fn lemma_advance(date: Date) {
    }

    proof fn lemma_within(start: Date, date: Date) {
    }
}

impl Period for Year {
    open spec fn spec_beginning(date: Date) -> Option<Date> {
        Some(Date { year: date.year, month: 1, day: 1 })
    }

    open spec fn spec_advance(date: Date) -> Option<Date> {
        date_in_range(date.year + 1, 1, 1)
    }

    fn beginning(date: &Date) -> (r: Option<Date>) {
        match first_of_year(date) {
            Some(t) => date_from_parts(t),
            None => None,
        }
    }

    fn advance(date: &Date) -> (r: Option<Date>) {
        match first_of_next_year(date) {
            Some(t) => date_from_parts(t),
            None => None,
        }
    }

    proof fn lemma_beginning(date: Date) {
    }

    proof fn lemma_advance(date: Date) {
    }

    proof fn lemma_within(start: Date, date: Date) {
    }
}

} // verus!
