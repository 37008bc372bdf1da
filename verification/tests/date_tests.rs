use pixel_ingest::date::{date_components_to_timestamp, read_date};
use pixel_ingest::error::IngestError;

#[test]
fn reads_the_seven_components() {
    assert_eq!(read_date("2022-04-04 00:53:51.577 UTC"), Ok([2022, 4, 4, 0, 53, 51, 577]));
}

#[test]
fn any_character_that_is_no_digit_ends_a_component() {
    assert_eq!(read_date("2022/04/04T00h53m51,577xy"), Ok([2022, 4, 4, 0, 53, 51, 577]));
    assert_eq!(read_date("1x2x3x4x5x6x7xx"), Ok([1, 2, 3, 4, 5, 6, 7]));
}

#[test]
fn half_past_noon_in_april() {
    let components = read_date("2022-04-01 12:00:00.500 UTC").unwrap();
    assert_eq!(components, [2022, 4, 1, 12, 0, 0, 500]);
    assert_eq!(date_components_to_timestamp(components), Ok(1_648_814_400_000 + 500));
}

#[test]
fn a_token_without_milliseconds_has_none() {
    assert_eq!(read_date("2022-04-04 00:53:51 UTC"), Ok([2022, 4, 4, 0, 53, 51, 0]));
}

#[test]
fn a_short_fraction_is_taken_as_written() {
    assert_eq!(read_date("2022-04-04 00:53:51.5 UTC"), Ok([2022, 4, 4, 0, 53, 51, 5]));
    assert_eq!(read_date("2022-04-04 00:53:51.57 UTC"), Ok([2022, 4, 4, 0, 53, 51, 57]));
}

#[test]
fn empty_runs_are_zero() {
    assert_eq!(read_date("--------"), Ok([0, 0, 0, 0, 0, 0, 0]));
}

#[test]
fn what_follows_the_eighth_delimiter_is_not_read() {
    assert_eq!(read_date("2022-04-04 00:53:51.577  99999999"), Ok([2022, 4, 4, 0, 53, 51, 577]));
}

#[test]
fn a_token_that_ends_early_is_rejected() {
    assert_eq!(read_date(""), Err(IngestError::Format));
    assert_eq!(read_date("2022"), Err(IngestError::Format));
    assert_eq!(read_date("2022-04-04"), Err(IngestError::Format));
    assert_eq!(read_date("2022-04-04 00:53:51.577"), Err(IngestError::Format));
    assert_eq!(read_date("2022-04-04 00:53:51.577 "), Err(IngestError::Format));
}

#[test]
fn an_eighth_component_is_rejected() {
    assert_eq!(read_date("2022-04-04 00:53:51.577 1 "), Err(IngestError::Format));
    assert_eq!(read_date("2022-04-04 00:53:51.577 2022-04-04"), Err(IngestError::Format));
}

#[test]
fn a_component_with_too_many_digits_is_rejected() {
    assert_eq!(read_date("20222-04-04 00:53:51.577 UTC"), Err(IngestError::Format));
    assert_eq!(read_date("2022-0004-04 00:53:51.577 UTC"), Err(IngestError::Format));
    assert_eq!(read_date("2022-04-04 00:53:51.5777 UTC"), Err(IngestError::Format));
    assert_eq!(read_date("2022-04-04 00:53:51.577777777777 UTC"), Err(IngestError::Format));
    assert_eq!(read_date("9999-999-999 999:999:999.999 UTC"), Ok([9999, 999, 999, 999, 999, 999, 999]));
}

#[test]
fn the_epoch_is_zero() {
    assert_eq!(date_components_to_timestamp([1970, 1, 1, 0, 0, 0, 0]), Ok(0));
    assert_eq!(date_components_to_timestamp([1970, 1, 1, 0, 0, 1, 444]), Ok(1_444));
    assert_eq!(date_components_to_timestamp([2001, 9, 9, 1, 46, 40, 555]), Ok(1_000_000_000_555));
}

#[test]
fn the_millisecond_component_is_added_as_it_is() {
    assert_eq!(date_components_to_timestamp([1970, 1, 1, 0, 0, 0, 5000]), Ok(5000));
    assert_eq!(
        date_components_to_timestamp([1970, 1, 1, 0, 0, 0, u32::MAX]),
        Ok(u32::MAX as i64)
    );
}

#[test]
fn fields_that_name_no_instant_are_rejected() {
    let bad = Err(IngestError::InvalidCalendarDate);
    assert_eq!(date_components_to_timestamp([2022, 13, 1, 0, 0, 0, 0]), bad);
    assert_eq!(date_components_to_timestamp([2022, 0, 1, 0, 0, 0, 0]), bad);
    assert_eq!(date_components_to_timestamp([2022, 1, 32, 0, 0, 0, 0]), bad);
    assert_eq!(date_components_to_timestamp([2022, 1, 0, 0, 0, 0, 0]), bad);
    assert_eq!(date_components_to_timestamp([2022, 4, 31, 0, 0, 0, 0]), bad);
    assert_eq!(date_components_to_timestamp([2021, 2, 29, 0, 0, 0, 0]), bad);
    assert_eq!(date_components_to_timestamp([2022, 1, 1, 24, 0, 0, 0]), bad);
    assert_eq!(date_components_to_timestamp([2022, 1, 1, 0, 60, 0, 0]), bad);
    assert_eq!(date_components_to_timestamp([2022, 1, 1, 0, 0, 60, 0]), bad);
    assert_eq!(date_components_to_timestamp([u32::MAX, 1, 1, 0, 0, 0, 0]), bad);
    assert_eq!(date_components_to_timestamp([0x8000_0000, 1, 1, 0, 0, 0, 0]), bad);
    assert_eq!(date_components_to_timestamp([1_000_000, 1, 1, 0, 0, 0, 0]), bad);
}

#[test]
fn a_leap_day_is_an_instant() {
    assert_eq!(date_components_to_timestamp([2020, 2, 29, 23, 59, 59, 999]), Ok(1_583_020_799_999));
}

#[test]
fn year_zero_is_an_instant() {
    assert_eq!(date_components_to_timestamp([0, 1, 1, 0, 0, 0, 0]), Ok(-62_167_219_200_000));
}

#[test]
fn every_month_has_its_days() {
    let days = [31, 28, 31, 30, 31, 30, 31, 31, 30, 31, 30, 31];
    for year in [1900u32, 2021, 2022, 2100] {
        for (month, last) in (1u32..).zip(days) {
            assert!(date_components_to_timestamp([year, month, last, 0, 0, 0, 0]).is_ok());
            assert!(date_components_to_timestamp([year, month, last + 1, 0, 0, 0, 0]).is_err());
        }
    }
    for year in [0u32, 4, 1600, 2000, 2020, 2024, 2400] {
        assert!(date_components_to_timestamp([year, 2, 29, 0, 0, 0, 0]).is_ok());
        assert!(date_components_to_timestamp([year, 2, 30, 0, 0, 0, 0]).is_err());
    }
}

#[test]
fn the_last_year_is_262142() {
    assert_eq!(
        date_components_to_timestamp([262_142, 12, 31, 23, 59, 59, 999]),
        Ok(8_210_266_876_799_999)
    );
    assert_eq!(
        date_components_to_timestamp([262_142, 12, 31, 23, 59, 59, u32::MAX]),
        Ok(8_210_266_876_799_000 + u32::MAX as i64)
    );
    assert_eq!(
        date_components_to_timestamp([262_143, 1, 1, 0, 0, 0, 0]),
        Err(IngestError::InvalidCalendarDate)
    );
}

#[test]
fn the_last_moment_of_a_day() {
    assert_eq!(date_components_to_timestamp([1970, 1, 1, 23, 59, 59, 999]), Ok(86_399_999));
    assert_eq!(date_components_to_timestamp([1970, 1, 2, 0, 0, 0, 0]), Ok(86_400_000));
}

fn leap(year: i64) -> bool {
    year % 4 == 0 && (year % 100 != 0 || year % 400 == 0)
}

fn month_length(year: i64, month: i64) -> i64 {
    match month {
        2 if leap(year) => 29,
        2 => 28,
        4 | 6 | 9 | 11 => 30,
        _ => 31,
    }
}

/// The count by the calendar: days before the year, days before the
/// month, time of day.
fn by_the_calendar(c: [u32; 7]) -> Option<i64> {
    let [year, month, day, hour, minute, second, millis] = c.map(|v| v as i64);
    let valid = year <= 262_142
        && (1..=12).contains(&month)
        && 1 <= day
        && day <= month_length(year, month)
        && hour < 24
        && minute < 60
        && second < 60;
    if !valid {
        return None;
    }
    let leaps = |y: i64| y.div_euclid(4) - y.div_euclid(100) + y.div_euclid(400);
    let before_year = 365 * (year - 1970) + leaps(year - 1) - leaps(1969);
    let before_month: i64 = (1..month).map(|m| month_length(year, m)).sum();
    let days = before_year + before_month + day - 1;
    Some((days * 86_400 + hour * 3_600 + minute * 60 + second) * 1_000 + millis)
}

#[test]
fn the_count_follows_the_calendar() {
    let years = [
        0u32, 1, 3, 4, 99, 100, 400, 1582, 1600, 1899, 1900, 1969, 1970, 1971, 1972, 1999, 2000,
        2001, 2020, 2021, 2022, 2023, 2024, 2038, 2100, 2400, 9999, 10_000, 99_999, 262_141,
        262_142, 262_143, 300_000,
    ];
    for year in years {
        for month in 0..=13 {
            for day in [0, 1, 2, 15, 27, 28, 29, 30, 31, 32] {
                for (hour, minute, second, millis) in
                    [(0, 0, 0, 0), (12, 0, 0, 500), (23, 59, 59, 999), (24, 0, 0, 0), (7, 60, 1, 1), (7, 8, 60, 2)]
                {
                    let c = [year, month, day, hour, minute, second, millis];
                    assert_eq!(date_components_to_timestamp(c).ok(), by_the_calendar(c), "on {:?}", c);
                }
            }
        }
    }
}

#[test]
fn every_day_of_four_years() {
    for year in 2020u32..2024 {
        for month in 1u32..=12 {
            for day in 1u32..=31 {
                let c = [year, month, day, 6, 30, 15, 250];
                assert_eq!(date_components_to_timestamp(c).ok(), by_the_calendar(c), "on {:?}", c);
            }
        }
    }
}
