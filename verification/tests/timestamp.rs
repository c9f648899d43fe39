use rfr::timestamp::{AbsTimestamp, AbsTimestampSecs, ChunkInterval, ChunkTimestamp};

#[test]
fn chunk_timestamp_round_trip() {
    let base = AbsTimestampSecs { secs: 1_700_000_000 };
    let ts = AbsTimestamp {
        secs: 1_700_000_123,
        subsec_micros: 456_789,
    };

    let chunk_ts = ChunkTimestamp::from_base_and_timestamp(base, &ts);
    assert_eq!(chunk_ts.micros, 123 * 1_000_000 + 456_789);

    let back = chunk_ts.to_abs_timestamp(base);
    assert_eq!(back, ts);
}

#[test]
fn one_second_period_starts_at_zero() {
    let ts = AbsTimestamp {
        secs: 1_700_000_123,
        subsec_micros: 456_789,
    };
    let interval = ChunkInterval::from_timestamp_and_period(ts, 1_000_000);

    assert_eq!(interval.base_time.secs, 1_700_000_123);
    assert_eq!(interval.start_time.micros, 0);
    assert_eq!(interval.end_time.micros, 1_000_000);
}

#[test]
fn sub_second_period_aligns_within_the_second() {
    let ts = AbsTimestamp {
        secs: 1_700_000_123,
        subsec_micros: 456_789,
    };
    let interval = ChunkInterval::from_timestamp_and_period(ts, 250_000);

    assert_eq!(interval.base_time.secs, 1_700_000_123);
    assert_eq!(interval.start_time.micros, 250_000);
    assert_eq!(interval.end_time.micros, 500_000);
}

#[test]
fn multi_second_period_aligns_the_base() {
    let ts = AbsTimestamp {
        secs: 1_700_000_123,
        subsec_micros: 456_789,
    };
    let interval = ChunkInterval::from_timestamp_and_period(ts, 10_000_000);

    assert_eq!(interval.base_time.secs, 1_700_000_120);
    assert_eq!(interval.start_time.micros, 0);
    assert_eq!(interval.end_time.micros, 10_000_000);
}

#[test]
fn interval_contains_its_timestamp() {
    let ts = AbsTimestamp {
        secs: 1_700_000_123,
        subsec_micros: 999_999,
    };
    let interval = ChunkInterval::from_timestamp_and_period(ts, 1_000_000);
    let start = interval.abs_start_time();
    let end = interval.abs_end_time();

    assert!(start.le(&ts));
    assert!(!end.le(&ts));
}

#[test]
fn chunk_paths_follow_the_calendar() {
    let epoch = rfr::chunked::write::chunk_rel_path(AbsTimestampSecs { secs: 0 });
    assert_eq!(epoch, "1970-01/01-00/chunk-00-00.rfr");

    let last_second_of_the_day =
        rfr::chunked::write::chunk_rel_path(AbsTimestampSecs { secs: 86_399 });
    assert_eq!(last_second_of_the_day, "1970-01/01-23/chunk-59-59.rfr");

    let later = rfr::chunked::write::chunk_rel_path(AbsTimestampSecs { secs: 1_700_000_120 });
    assert_eq!(later, "2023-11/14-22/chunk-15-20.rfr");
}
