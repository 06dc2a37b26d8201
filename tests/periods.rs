use grouped_by_period::{Date, Month, Period, Quarter, Week, Year};

fn date(year: i32, month: u32, day: u32) -> Date {
    Date::from_ymd(year, month, day).unwrap()
}

#[test]
fn week_starts_on_sunday() {
    assert_eq!(Week::beginning(&date(2023, 1, 13)), Some(date(2023, 1, 8)));
    assert_eq!(Week::beginning(&date(2023, 1, 8)), Some(date(2023, 1, 8)));
    assert_eq!(Week::beginning(&date(2023, 1, 14)), Some(date(2023, 1, 8)));
    assert_eq!(Week::beginning(&date(2023, 1, 1)), Some(date(2023, 1, 1)));
    assert_eq!(Week::beginning(&date(2021, 1, 2)), Some(date(2020, 12, 27)));
}

#[test]
fn week_advances_to_next_sunday() {
    assert_eq!(Week::advance(&date(2023, 1, 8)), Some(date(2023, 1, 15)));
    assert_eq!(Week::advance(&date(2023, 1, 13)), Some(date(2023, 1, 15)));
    assert_eq!(Week::advance(&date(2023, 12, 31)), Some(date(2024, 1, 7)));
    assert_eq!(Week::advance(&date(2024, 2, 25)), Some(date(2024, 3, 3)));
}

#[test]
fn month_beginning_and_advance() {
    assert_eq!(Month::beginning(&date(2023, 2, 19)), Some(date(2023, 2, 1)));
    assert_eq!(Month::advance(&date(2023, 1, 1)), Some(date(2023, 2, 1)));
    assert_eq!(Month::advance(&date(2023, 12, 1)), Some(date(2024, 1, 1)));
    assert_eq!(Month::advance(&date(2024, 1, 31)), Some(date(2024, 2, 1)));
}

#[test]
fn quarter_beginning_and_advance() {
    assert_eq!(Quarter::beginning(&date(2023, 2, 13)), Some(date(2023, 1, 1)));
    assert_eq!(Quarter::beginning(&date(2023, 5, 19)), Some(date(2023, 4, 1)));
    assert_eq!(Quarter::beginning(&date(2023, 9, 30)), Some(date(2023, 7, 1)));
    assert_eq!(Quarter::beginning(&date(2023, 12, 31)), Some(date(2023, 10, 1)));
    assert_eq!(Quarter::advance(&date(2023, 4, 1)), Some(date(2023, 7, 1)));
    assert_eq!(Quarter::advance(&date(2023, 10, 1)), Some(date(2024, 1, 1)));
}

#[test]
fn year_beginning_and_advance() {
    assert_eq!(Year::beginning(&date(2023, 7, 4)), Some(date(2023, 1, 1)));
    assert_eq!(Year::advance(&date(2023, 1, 1)), Some(date(2024, 1, 1)));
    assert_eq!(Year::advance(&date(262141, 1, 1)), None);
    assert_eq!(Quarter::advance(&date(262141, 10, 1)), None);
    assert_eq!(Month::advance(&date(262141, 12, 1)), None);
}

#[test]
fn projection_is_idempotent() {
    for d in [date(2023, 1, 13), date(2020, 2, 29), date(1999, 12, 31), date(-5, 3, 3)] {
        let w = Week::beginning(&d).unwrap();
        assert_eq!(Week::beginning(&w), Some(w));
        let m = Month::beginning(&d).unwrap();
        assert_eq!(Month::beginning(&m), Some(m));
        let q = Quarter::beginning(&d).unwrap();
        assert_eq!(Quarter::beginning(&q), Some(q));
        let y = Year::beginning(&d).unwrap();
        assert_eq!(Year::beginning(&y), Some(y));
        assert!(!d.is_before(&w) && !d.is_before(&m) && !d.is_before(&q) && !d.is_before(&y));
    }
}

#[test]
fn stepping_moves_forward_to_an_aligned_date() {
    for d in [date(2022, 12, 25), date(2023, 10, 1), date(2024, 1, 1)] {
        let w = Week::advance(&d).unwrap();
        assert!(d.is_before(&w));
        assert_eq!(Week::beginning(&w), Some(w));
        let m = Month::advance(&d).unwrap();
        assert!(d.is_before(&m));
        assert_eq!(Month::beginning(&m), Some(m));
        let q = Quarter::advance(&d).unwrap();
        assert!(d.is_before(&q));
        assert_eq!(Quarter::beginning(&q), Some(q));
        let y = Year::advance(&d).unwrap();
        assert!(d.is_before(&y));
        assert_eq!(Year::beginning(&y), Some(y));
    }
}

#[test]
fn dates_are_checked() {
    assert!(Date::from_ymd(2023, 2, 29).is_none());
    assert!(Date::from_ymd(2024, 2, 29).is_some());
    assert!(Date::from_ymd(1900, 2, 29).is_none());
    assert!(Date::from_ymd(2000, 2, 29).is_some());
    assert!(Date::from_ymd(2023, 4, 31).is_none());
    assert!(Date::from_ymd(2023, 13, 1).is_none());
    assert!(Date::from_ymd(2023, 0, 1).is_none());
    assert!(Date::from_ymd(2023, 1, 0).is_none());
    assert!(Date::from_ymd(262142, 1, 1).is_none());
    assert!(Date::from_ymd(-262143, 12, 31).is_none());
    let d = date(2023, 1, 13);
    assert_eq!((d.year(), d.month(), d.day()), (2023, 1, 13));
    assert!(date(2022, 12, 31).is_before(&d));
    assert!(!d.is_before(&d));
}
