use todoer::date::Date;

#[test]
fn date_key_pads_month_and_day() {
    assert_eq!(Date::new(2024, 3, 5).unwrap().date_key(), "2024-03-05");
    assert_eq!(Date::new(1999, 12, 31).unwrap().date_key(), "1999-12-31");
    assert_eq!(Date::new(-44, 3, 15).unwrap().date_key(), "-44-03-15");
}

#[test]
fn invalid_days_are_refused() {
    assert!(Date::new(2023, 2, 29).is_none());
    assert!(Date::new(2024, 2, 29).is_some());
    assert!(Date::new(1900, 2, 29).is_none());
    assert!(Date::new(2000, 2, 29).is_some());
    assert!(Date::new(2024, 13, 1).is_none());
    assert!(Date::new(2024, 4, 31).is_none());
    assert!(Date::new(2024, 1, 0).is_none());
}

#[test]
fn previous_day_crosses_months_and_years() {
    let d = Date::new(2024, 3, 1).unwrap().previous().unwrap();
    assert_eq!(d, Date { year: 2024, month: 2, day: 29 });
    let d = Date::new(2023, 1, 1).unwrap().previous().unwrap();
    assert_eq!(d, Date { year: 2022, month: 12, day: 31 });
    let d = Date::new(2023, 5, 17).unwrap().previous().unwrap();
    assert_eq!(d, Date { year: 2023, month: 5, day: 16 });
    let d = Date::new(2023, 3, 1).unwrap().previous().unwrap();
    assert_eq!(d, Date { year: 2023, month: 2, day: 28 });
}

#[test]
fn first_day_has_no_previous() {
    let first = Date::new(todoer::date::MIN_YEAR, 1, 1).unwrap();
    assert!(first.previous().is_none());
}
