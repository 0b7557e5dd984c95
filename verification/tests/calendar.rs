use session_wrapper::calendar::{civil_from_days, log_timestamp, rfc3339_utc};

#[test]
fn exact_utc_shape_covers_calendar_boundaries() {
    assert_eq!(rfc3339_utc(0), "1970-01-01T00:00:00Z");
    assert_eq!(rfc3339_utc(264_384 * 3600), "2000-02-29T00:00:00Z");
}

#[test]
fn a_day_count_names_its_civil_date() {
    assert_eq!(civil_from_days(0), (1970, 1, 1));
    assert_eq!(civil_from_days(-1), (1969, 12, 31));
    assert_eq!(civil_from_days(11_016), (2000, 2, 29));
    assert_eq!(civil_from_days(-719_468), (0, 3, 1));
}

#[test]
fn seconds_past_the_signed_range_wrap_before_they_are_formatted() {
    assert_eq!(rfc3339_utc(1_786_451_696), "2026-08-11T12:34:56Z");
    assert_eq!(rfc3339_utc(u64::MAX), "1969-12-31T23:59:59Z");
}

#[test]
fn a_log_timestamp_carries_milliseconds() {
    assert_eq!(log_timestamp(0, 7), "1970-01-01T00:00:00.007Z");
    assert_eq!(log_timestamp(86_399, 999), "1970-01-01T23:59:59.999Z");
    assert_eq!(
        log_timestamp(u64::MAX, 0),
        "292277026596-12-04T15:30:07.000Z"
    );
}

#[test]
fn formatted_instants_read_back_as_recorded_timestamps() {
    for seconds in [0u64, 951_782_400, 1_786_451_696, 4_107_542_400, 253_402_300_799] {
        let text = rfc3339_utc(seconds);
        let read = session_wrapper::account::RecordedAt::parse(text.clone()).expect("reads back");
        assert_eq!(read.as_str(), text);
    }
    assert_eq!(rfc3339_utc(253_402_300_799), "9999-12-31T23:59:59Z");
}
