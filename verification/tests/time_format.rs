use vi::timefmt::{days_to_date, iso_utc, time_of_day};

#[test]
fn civil_dates() {
    assert_eq!(days_to_date(0), (1970, 1, 1));
    assert_eq!(days_to_date(59), (1970, 3, 1));
    assert_eq!(days_to_date(365), (1971, 1, 1));
    assert_eq!(days_to_date(789), (1972, 2, 29));
    assert_eq!(days_to_date(19723), (2024, 1, 1));
}

#[test]
fn iso_and_clock_texts() {
    assert_eq!(iso_utc(0), "1970-01-01T00:00:00Z");
    assert_eq!(iso_utc(1_700_000_000), "2023-11-14T22:13:20Z");
    assert_eq!(time_of_day(3661, 5), "01:01:01.005");
    assert_eq!(time_of_day(86399, 999), "23:59:59.999");
}
