use cooee::calendar::{chrono_stamp, civil_from_days, export_file_name};

#[test]
fn converts_days_since_the_epoch_to_a_date() {
    // Anchors chosen for the cases the algorithm gets wrong when it is
    // misremembered: the epoch itself, a leap day, a century boundary
    // that *is* a leap year, and one that is not.
    assert_eq!(civil_from_days(0), (1970, 1, 1));
    assert_eq!(civil_from_days(789), (1972, 2, 29));
    assert_eq!(civil_from_days(10_957), (2000, 1, 1));
    assert_eq!(civil_from_days(19_782), (2024, 2, 29));
    assert_eq!(civil_from_days(20_710), (2026, 9, 14));
    // 2100 is not a leap year, so day 47541 is 1 March and not 29 Feb.
    assert_eq!(civil_from_days(47_541), (2100, 3, 1));
}

#[test]
fn every_day_of_a_year_round_trips_in_order() {
    // Walks 1999 into 2001 across the 2000 leap day, checking the parts
    // stay in range and the sequence never repeats or skips.
    let mut previous = civil_from_days(10_500);
    for day in 10_501..11_500 {
        let (y, m, d) = civil_from_days(day);
        assert!((1..=12).contains(&m), "month {m} out of range on day {day}");
        assert!((1..=31).contains(&d), "day {d} out of range on day {day}");
        assert!(
            (y, m, d) > previous,
            "day {day} gave {:?} after {:?}",
            (y, m, d),
            previous
        );
        previous = (y, m, d);
    }
}

#[test]
fn days_before_the_epoch_have_dates_too() {
    assert_eq!(civil_from_days(-1), (1969, 12, 31));
    assert_eq!(civil_from_days(-719_468), (0, 3, 1));
    assert_eq!(civil_from_days(-719_469), (0, 2, 29));
}

#[test]
fn stamps_are_padded() {
    assert_eq!(chrono_stamp(0), "1970-01-01");
    assert_eq!(chrono_stamp(20_710 * 86_400 + 86_399), "2026-09-14");
    assert_eq!(export_file_name(0), "cooee-history-1970-01-01.json");
}
