use timetracker::aggregate::{accumulate, add_to_buckets, bucket_row, record_row, Bucket, SourcedRecord};
use timetracker::duration::{format_duration, TimeDuration};
use timetracker::scanner::parse_time_entries;

fn record(tag: &str, hours: u32, minutes: u32, source: &str) -> SourcedRecord {
    SourcedRecord {
        tag: tag.to_string(),
        duration: TimeDuration { hours, minutes, seconds: 0 },
        source: source.to_string(),
    }
}

fn records_of(content: &str, source: &str) -> Vec<SourcedRecord> {
    parse_time_entries(content, true)
        .into_iter()
        .map(|(tag, duration)| SourcedRecord { tag, duration, source: source.to_string() })
        .collect()
}

#[test]
fn accumulate_two_documents() {
    let mut records = records_of("#pbi-1 [timeTracked: 4h]", "2025-01-01.md");
    records.extend(records_of("#pbi-1 [timeTracked: 3h]", "2025-01-02.md"));
    let buckets = accumulate(&records);
    assert_eq!(1, buckets.len());
    assert_eq!("#pbi-1", buckets[0].tag);
    assert_eq!("7h", format_duration(&buckets[0].duration));
    assert_eq!(vec!["2025-01-01.md".to_string(), "2025-01-02.md".to_string()], buckets[0].sources);
    assert_eq!(
        ("#pbi-1".to_string(), "7h".to_string(), "2025-01-01.md,2025-01-02.md".to_string()),
        bucket_row(&buckets[0])
    );
}

#[test]
fn accumulate_keeps_first_seen_order() {
    let records = vec![
        record("#b", 1, 0, "one.md"),
        record("#a", 0, 50, "one.md"),
        record("#b", 2, 0, "one.md"),
        record("", 0, 5, "two.md"),
        record("#a", 0, 40, "two.md"),
    ];
    let buckets = accumulate(&records);
    let rows: Vec<(String, String, String)> = buckets.iter().map(|b| bucket_row(b)).collect();
    assert_eq!(
        vec![
            ("#b".to_string(), "3h".to_string(), "one.md,one.md".to_string()),
            ("#a".to_string(), "90m".to_string(), "one.md,two.md".to_string()),
            ("".to_string(), "5m".to_string(), "two.md".to_string()),
        ],
        rows
    );
}

#[test]
fn accumulate_same_tag_twice_in_one_document() {
    let content = "- #pbi-123456 Task A [timeTracked: 4h]\n- #pbi-123456 Task B [timeTracked: 30m]";
    let buckets = accumulate(&records_of(content, "day.md"));
    assert_eq!(1, buckets.len());
    assert_eq!(TimeDuration { hours: 4, minutes: 30, seconds: 0 }, buckets[0].duration);
    assert_eq!(vec!["day.md".to_string(), "day.md".to_string()], buckets[0].sources);
}

#[test]
fn accumulate_nothing() {
    assert_eq!(0, accumulate(&Vec::new()).len());
}

#[test]
fn accumulate_caps_each_counter() {
    let records = vec![record("#t", u32::MAX - 1, 1, "a"), record("#t", 5, 2, "b")];
    let buckets = accumulate(&records);
    assert_eq!(TimeDuration { hours: u32::MAX, minutes: 3, seconds: 0 }, buckets[0].duration);
}

#[test]
fn add_to_buckets_changes_one_bucket() {
    let mut buckets: Vec<Bucket> = Vec::new();
    add_to_buckets(&mut buckets, record("#x", 1, 0, "a"));
    add_to_buckets(&mut buckets, record("#y", 2, 0, "b"));
    add_to_buckets(&mut buckets, record("#x", 0, 30, "c"));
    assert_eq!(2, buckets.len());
    assert_eq!("#x", buckets[0].tag);
    assert_eq!(TimeDuration { hours: 1, minutes: 30, seconds: 0 }, buckets[0].duration);
    assert_eq!(vec!["a".to_string(), "c".to_string()], buckets[0].sources);
    assert_eq!("#y", buckets[1].tag);
    assert_eq!(TimeDuration { hours: 2, minutes: 0, seconds: 0 }, buckets[1].duration);
    assert_eq!(vec!["b".to_string()], buckets[1].sources);
}

#[test]
fn record_row_hands_raw_strings_on() {
    let row = record_row(&record("#pbi-123,#pbi-47", 1, 30, "dir/2024-01-01.md"));
    assert_eq!(
        ("#pbi-123,#pbi-47".to_string(), "1h30m".to_string(), "dir/2024-01-01.md".to_string()),
        row
    );
}
