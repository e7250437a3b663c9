use tzclock::time::Time;

#[test]
fn epoch_zero_renders_start_of_1970() {
    let t = Time::new(Vec::new());
    assert_eq!(t.now(0), "01.01.1970 00:00:00");
}

#[test]
fn two_years_and_half_a_day_lands_in_1972() {
    // 730 non-leap days from the start of 1970 reach the start of 1972,
    // and half a day more is noon of its first day.
    let t = Time::new(Vec::new());
    assert_eq!(t.now(86400 * 365 * 2 + 86400 / 2), "01.01.1972 12:00:00");
}

#[test]
fn leap_day_of_1972_is_rendered() {
    // 1970 and 1971 have 365 days each; January 1972 has 31 and a leap
    // February reaches the 29th.
    let t = Time::new(Vec::new());
    let days = 365 + 365 + 31 + 28;
    assert_eq!(t.now(days * 86400), "29.02.1972 00:00:00");
    assert_eq!(t.now((days + 1) * 86400), "01.03.1972 00:00:00");
}

#[test]
fn last_second_before_minute_rollover() {
    let t = Time::new(Vec::new());
    assert_eq!(t.now(59), "01.01.1970 00:00:59");
    assert_eq!(t.now(60), "01.01.1970 00:01:00");
}

#[test]
fn leap_year_predicate() {
    assert!(Time::is_leap_year(2000));
    assert!(!Time::is_leap_year(1900));
    assert!(Time::is_leap_year(2024));
    assert!(!Time::is_leap_year(2023));
    assert!(Time::is_leap_year(1972));
}

#[test]
fn year_and_month_lengths() {
    assert_eq!(Time::days_in_year(1970), 365);
    assert_eq!(Time::days_in_year(1972), 366);
    assert_eq!(Time::days_in_month(2, 2024), 29);
    assert_eq!(Time::days_in_month(2, 1900), 28);
    assert_eq!(Time::days_in_month(4, 2024), 30);
    assert_eq!(Time::days_in_month(12, 2024), 31);
}
