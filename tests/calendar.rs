use mfdarchiver::archive::{archive_month, archive_title};
use mfdarchiver::calendar::{date_header, days_in_month};

#[test]
fn test_days_in_month() {
    // January
    assert_eq!(31, days_in_month(2021, 1));
    // February
    assert_eq!(28, days_in_month(2021, 2));
    // February (leap year)
    assert_eq!(29, days_in_month(2020, 2));
    // April
    assert_eq!(30, days_in_month(2021, 4));
}

#[test]
fn days_in_month_century_years() {
    assert_eq!(28, days_in_month(1900, 2));
    assert_eq!(29, days_in_month(2000, 2));
    assert_eq!(28, days_in_month(2100, 2));
    assert_eq!(29, days_in_month(2024, 2));
}

#[test]
fn days_in_month_whole_year() {
    let expected = [31, 28, 31, 30, 31, 30, 31, 31, 30, 31, 30, 31];
    for (i, days) in expected.iter().enumerate() {
        assert_eq!(*days, days_in_month(2021, (i + 1) as u32));
    }
}

#[test]
fn archive_month_of_timestamp() {
    assert_eq!(archive_month(1621501200), Some((2021, 5)));
    assert_eq!(archive_month(0), Some((1970, 1)));
    // 23:59:59 on 1 June 2021 (UTC)
    assert_eq!(archive_month(1622591999), Some((2021, 6)));
    assert_eq!(archive_month(i64::MAX), None);
}

#[test]
fn date_header_of_timestamp() {
    assert_eq!(date_header(1621501200), Some("May 20, 2021".to_string()));
    assert_eq!(date_header(0), Some("January 1, 1970".to_string()));
    // 00:00 on 29 February 2020 (UTC)
    assert_eq!(date_header(1582934400), Some("February 29, 2020".to_string()));
    assert_eq!(date_header(i64::MAX), None);
}

#[test]
fn archive_title_of_timestamp() {
    assert_eq!(
        archive_title(1622541600),
        Some("Wikipedia:Miscellany for deletion/Archived debates/June 2021".to_string())
    );
    assert_eq!(archive_title(i64::MIN), None);
}
