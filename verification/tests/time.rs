use hrdf_routing_engine::utils::{
    add_1_day, add_minutes_to_date_time, count_days_between_two_dates, create_date,
    create_date_time, create_time, sub_1_day, try_create_date, Date, DateTime, Time,
};

#[test]
fn day_numbers_count_from_the_first_of_january_of_year_one() {
    assert_eq!(create_date(1, 1, 1).days(), 1);
    assert_eq!(create_date(2, 1, 1).days(), 366);
    assert_eq!(create_date(1970, 1, 1).days(), 719_163);
    assert_eq!(create_date(0, 1, 1).days(), -365);
}

#[test]
fn a_date_is_not_its_own_year() {
    // The day number comes from the calendar, not from one of the arguments.
    assert_ne!(create_date(2024, 6, 1).days(), 2024);
    assert_eq!(create_date(2024, 6, 1).days() - create_date(2024, 1, 1).days(), 152);
}

#[test]
fn the_day_after_the_last_of_a_month_is_the_first_of_the_next() {
    assert_eq!(add_1_day(create_date(2024, 1, 31)), create_date(2024, 2, 1));
    assert_eq!(add_1_day(create_date(2024, 2, 28)), create_date(2024, 2, 29));
    assert_eq!(add_1_day(create_date(2023, 2, 28)), create_date(2023, 3, 1));
    assert_eq!(add_1_day(create_date(2024, 12, 31)), create_date(2025, 1, 1));
    assert_eq!(sub_1_day(create_date(2024, 3, 1)), create_date(2024, 2, 29));
}

#[test]
fn days_between_two_dates_count_both_ends() {
    let first = create_date(2024, 1, 1);
    assert_eq!(count_days_between_two_dates(first, first), 1);
    assert_eq!(count_days_between_two_dates(first, create_date(2024, 1, 10)), 10);
    assert_eq!(count_days_between_two_dates(first, create_date(2024, 12, 31)), 366);
    assert_eq!(
        count_days_between_two_dates(create_date(2024, 2, 27), create_date(2024, 3, 1)),
        4
    );
}

#[test]
fn days_that_the_calendar_does_not_have_are_not_created() {
    assert!(try_create_date(2024, 2, 29).is_some());
    assert!(try_create_date(2023, 2, 29).is_none());
    assert!(try_create_date(2024, 4, 31).is_none());
    assert!(try_create_date(2024, 0, 1).is_none());
    assert!(try_create_date(2024, 13, 1).is_none());
    assert!(try_create_date(2024, 1, 0).is_none());
    assert!(try_create_date(1900, 2, 29).is_none());
    assert!(try_create_date(2000, 2, 29).is_some());
    assert!(try_create_date(262_142, 12, 31).is_some());
    assert!(try_create_date(262_143, 1, 1).is_none());
    assert!(try_create_date(-262_143, 1, 1).is_some());
    assert!(try_create_date(-262_144, 12, 31).is_none());
    assert_eq!(try_create_date(2024, 6, 1), Some(create_date(2024, 6, 1)));
}

#[test]
fn a_time_is_counted_in_seconds_from_midnight() {
    assert_eq!(create_time(0, 0).seconds(), 0);
    assert_eq!(create_time(8, 30).seconds(), 30_600);
    assert_eq!(create_time(23, 59).seconds(), 86_340);
    assert_eq!(Time::from_seconds(86_399), Some(Time { secs: 86_399 }));
    assert_eq!(Time::from_seconds(86_400), None);
    assert!(create_time(7, 59).is_before(create_time(8, 0)));
    assert!(!create_time(8, 0).is_before(create_time(8, 0)));
}

#[test]
fn minutes_are_added_across_midnight() {
    let late = create_date_time(2024, 6, 1, 23, 50);
    assert_eq!(add_minutes_to_date_time(late, 20), create_date_time(2024, 6, 2, 0, 10));
    assert_eq!(add_minutes_to_date_time(late, 0), late);
    assert_eq!(add_minutes_to_date_time(late, 10), create_date_time(2024, 6, 2, 0, 0));
    assert_eq!(
        add_minutes_to_date_time(create_date_time(2024, 12, 31, 23, 0), 24 * 60 + 61),
        create_date_time(2025, 1, 2, 0, 1)
    );
}

#[test]
fn minutes_are_taken_away_across_midnight() {
    let early = create_date_time(2024, 6, 2, 0, 10);
    assert_eq!(add_minutes_to_date_time(early, -20), create_date_time(2024, 6, 1, 23, 50));
    assert_eq!(add_minutes_to_date_time(early, -10), create_date_time(2024, 6, 2, 0, 0));
    assert_eq!(add_minutes_to_date_time(early, -240), create_date_time(2024, 6, 1, 20, 10));
    assert_eq!(
        add_minutes_to_date_time(create_date_time(2024, 3, 1, 0, 0), -1),
        create_date_time(2024, 2, 29, 23, 59)
    );
}

#[test]
fn seconds_are_added_to_instants_before_day_zero() {
    let before = DateTime::new(Date::from_days(-5), create_time(0, 0));
    assert_eq!(before.add_seconds(-1), DateTime::new(Date::from_days(-6), Time { secs: 86_399 }));
    assert_eq!(before.add_seconds(86_400 * 5), DateTime::new(Date::from_days(0), create_time(0, 0)));
    assert_eq!(before.add_seconds(-86_400), DateTime::new(Date::from_days(-6), create_time(0, 0)));
}

#[test]
fn instants_are_ordered_by_day_and_then_by_time() {
    let morning = create_date_time(2024, 6, 1, 8, 0);
    let evening = create_date_time(2024, 6, 1, 20, 0);
    let next_morning = create_date_time(2024, 6, 2, 7, 0);
    assert!(morning.is_before(evening));
    assert!(evening.is_before(next_morning));
    assert!(!next_morning.is_before(evening));
    assert!(!morning.is_before(morning));
    assert!(morning.is_at_or_before(morning));
    assert!(morning < evening && evening < next_morning);
    assert_eq!(next_morning.seconds_since(evening), 11 * 3_600);
    assert_eq!(evening.seconds_since(next_morning), -11 * 3_600);
    assert_eq!(morning.date(), create_date(2024, 6, 1));
    assert_eq!(morning.time(), create_time(8, 0));
}

fn days_before(year: i64, month: i64) -> i64 {
    let before = year - 1;
    let leap = year % 4 == 0 && (year % 100 != 0 || year % 400 == 0);
    let months = [31, if leap { 29 } else { 28 }, 31, 30, 31, 30, 31, 31, 30, 31, 30, 31];
    let in_year: i64 = months.iter().take((month - 1) as usize).sum();
    365 * before + before.div_euclid(4) - before.div_euclid(100) + before.div_euclid(400) + in_year
}

#[test]
fn day_numbers_follow_the_calendar() {
    for year in [-400, -101, -100, -4, -1, 0, 1, 4, 100, 400, 1582, 1900, 1970, 2000, 2023, 2024, 2100] {
        for month in 1..=12u32 {
            for day in 1..=31u32 {
                if let Some(date) = try_create_date(year, month, day) {
                    let expected = days_before(year as i64, month as i64) + day as i64;
                    assert_eq!(date.days() as i64, expected, "{year}-{month}-{day}");
                }
            }
        }
    }
    assert_eq!(create_date(0, 12, 31).days(), 0);
    assert_eq!(create_date(2024, 6, 1).days(), 739_038);
}

#[test]
fn neighbouring_days_have_neighbouring_numbers() {
    for year in [-1, 0, 1, 1899, 1900, 1999, 2000, 2023, 2024] {
        let mut last: Option<i32> = None;
        for month in 1..=12u32 {
            for day in 1..=31u32 {
                if let Some(date) = try_create_date(year, month, day) {
                    if let Some(before) = last {
                        assert_eq!(date.days(), before + 1);
                    }
                    last = Some(date.days());
                }
            }
        }
        assert_eq!(create_date(year + 1, 1, 1).days(), last.unwrap() + 1);
    }
}
