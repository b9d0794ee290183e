use progress_engine::date::{civil_from_days, date_of};

#[test]
fn the_epoch_is_the_first_of_january_1970() {
    assert_eq!(civil_from_days(0), (1970, 1, 1));
    assert_eq!(date_of(0), "1970-01-01");
}

#[test]
fn leap_days_and_year_ends_land_where_the_calendar_says() {
    assert_eq!(date_of(19723), "2024-01-01");
    assert_eq!(date_of(19782), "2024-02-29");
    assert_eq!(date_of(19783), "2024-03-01");
    assert_eq!(date_of(11016), "2000-02-29");
    assert_eq!(date_of(10956), "1999-12-31");
    assert_eq!(date_of(59), "1970-03-01");
}

#[test]
fn a_date_is_computed_from_whole_days_since_the_epoch() {
    // 2026-05-09 is 20582 days after the epoch.
    assert_eq!(date_of(20582), "2026-05-09");
    assert_eq!(civil_from_days(20582), (2026, 5, 9));
}

#[test]
fn whole_four_hundred_year_cycles_land_on_the_same_day() {
    // 146097 days after 1970-01-01 is 2370-01-01.
    assert_eq!(civil_from_days(146097), (2370, 1, 1));
    assert_eq!(civil_from_days(146096), (2369, 12, 31));
    assert_eq!(date_of(11016 + 146097), "2400-02-29");
}
