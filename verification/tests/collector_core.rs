use office_audit_collector::collector::{
    global_timeout_expired, select_new_blobs, Collector, ContentBlob, LogRecord, OutputCache,
};
use office_audit_collector::fileout::{fill_log, get_all_columns};
use office_audit_collector::config::{Config, FileOutputSubConfig, OutputSubConfig};
use office_audit_collector::fileout;
use office_audit_collector::known_blobs::KnownBlobsCache;
use office_audit_collector::timefmt::parse_expiration;

fn record(fields: &[(&str, &str)]) -> LogRecord {
    let mut r = LogRecord::new();
    for (k, v) in fields {
        r.push_field(k.to_string(), v.to_string());
    }
    r
}

fn blob(id: &str) -> ContentBlob {
    ContentBlob {
        content_id: id.to_string(),
        content_type: "Audit.Exchange".to_string(),
        url: format!("https://x/{id}"),
        expiration: "2031-01-01T00:00:00Z".to_string(),
    }
}

#[test]
fn test_duplicate_suppression() {
    // a pre-seeded id is skipped at discovery: nine of ten blobs pass
    let now = parse_expiration("2030-01-01T00:00:00Z").unwrap();
    let mut cache = KnownBlobsCache::new();
    cache.insert_at("id-5".to_string(), "2030-01-01T01:00:00Z", now);

    let page: Vec<ContentBlob> = (1..=10).map(|i| blob(&format!("id-{i}"))).collect();
    let fresh = select_new_blobs(&mut cache, &page, now);
    assert_eq!(fresh.len(), 9);
    assert!(fresh.iter().all(|b| b.content_id != "id-5"));
}

#[test]
fn test_filter_keeps_matching_records() {
    let filters = vec![(
        "Audit.Exchange".to_string(),
        vec![("Operation".to_string(), "\"Send\"".to_string())],
    )];
    let mut c = Collector::new(filters, 100, KnownBlobsCache::new());

    let sent = record(&[("Operation", "\"Send\""), ("a", "1")]);
    let read = record(&[("Operation", "\"Read\""), ("a", "2")]);
    assert!(c.handle_log(sent, "Audit.Exchange").is_none());
    assert!(c.handle_log(read, "Audit.Exchange").is_none());
    assert_eq!(c.saved, 1);

    let drained = c.cache.drain_by_type();
    assert_eq!(drained.len(), 1);
    assert_eq!(drained[0].0, "Audit.Exchange".to_string());
    assert_eq!(drained[0].1.len(), 1);
    let kept = &drained[0].1[0];
    assert_eq!(
        kept.get("Operation").map(String::as_str),
        Some("\"Send\"")
    );
    assert_eq!(
        kept.get("OriginFeed").map(String::as_str),
        Some("\"Audit.Exchange\"")
    );
}

#[test]
fn test_unfiltered_feed_passes_everything() {
    let mut c = Collector::new(Vec::new(), 100, KnownBlobsCache::new());
    let r = record(&[("Op", "\"Read\"")]);
    assert!(c.handle_log(r, "Audit.General").is_none());
    assert_eq!(c.saved, 1);
}

#[test]
fn test_full_cache_is_flushed_whole() {
    let mut c = Collector::new(Vec::new(), 2, KnownBlobsCache::new());
    assert!(c.handle_log(record(&[("n", "1")]), "Audit.General").is_none());
    let flushed = c.handle_log(record(&[("n", "2")]), "Audit.General");
    let batch = flushed.expect("the second record fills the cache");
    assert_eq!(batch.total, 2);
    assert_eq!(c.cache.total, 0);
    assert_eq!(c.saved, 2);
}

#[test]
fn test_handle_content_parses_and_remembers() {
    let now = parse_expiration("2030-01-01T00:00:00Z").unwrap();
    let mut c = Collector::new(Vec::new(), 100, KnownBlobsCache::new());
    let b = blob("id-1");

    let (count, flushes) = c
        .handle_content_at("[{\"Op\":\"Read\"},{\"Op\":\"Send\"}]", &b, now)
        .expect("the counters admit two records");
    assert_eq!(count, 2);
    assert_eq!(flushes.len(), 0);
    assert_eq!(c.saved, 2);
    assert!(c.known_blobs.contains_at("id-1", now));

    // an unreadable body still marks the blob as known
    let b2 = blob("id-2");
    let (count2, _) = c.handle_content_at("not json", &b2, now).unwrap();
    assert_eq!(count2, 0);
    assert!(c.known_blobs.contains_at("id-2", now));
    assert_eq!(c.saved, 2);
}

#[test]
fn test_output_cache_buckets() {
    let mut cache = OutputCache::new(10);
    cache.insert(record(&[("a", "1")]), "Audit.Exchange");
    cache.insert(record(&[("b", "2")]), "Audit.General");
    cache.insert(record(&[("c", "3")]), "Audit.Exchange");
    assert_eq!(cache.size(), 3);
    assert!(!cache.full());
    let drained = cache.drain_by_type();
    assert_eq!(drained.len(), 2);
    assert_eq!(drained[0].0, "Audit.Exchange".to_string());
    assert_eq!(drained[0].1.len(), 2);
    assert_eq!(drained[1].0, "Audit.General".to_string());
    assert_eq!(cache.size(), 0);
}

#[test]
fn test_global_timeout_verdict() {
    assert!(!global_timeout_expired(59, 1));
    assert!(global_timeout_expired(60, 1));
    // a zero setting never fires
    assert!(!global_timeout_expired(u64::MAX, 0));
}

#[test]
fn test_end_of_run_report() {
    let c = Collector::new(Vec::new(), 10, KnownBlobsCache::new());
    assert_eq!(
        c.get_output_string(10, 9, 1, 2, 42),
        "Done!||\nBlobs found: 10||\nBlobs successful: 9||\nBlobs failed: 1||\nBlobs retried: 2||\nLogs saved: 42"
            .to_string()
    );
}

#[test]
fn test_columns_and_fill() {
    let logs = vec![
        record(&[("a", "1"), ("b", "2")]),
        record(&[("b", "3"), ("c", "4")]),
    ];
    let columns = get_all_columns(&logs);
    assert_eq!(
        columns,
        vec!["a".to_string(), "b".to_string(), "c".to_string()]
    );
    let row = fill_log(&logs[1], &columns);
    assert_eq!(row, vec!["".to_string(), "3".to_string(), "4".to_string()]);
}

#[test]
fn test_feed_paths() {
    let config = Config {
        enabled: None,
        interval: None,
        curl_max_size: None,
        only_future_events: None,
        working_dir: None,
        log: None,
        tenants: Vec::new(),
        subscriptions: vec!["Audit.Exchange".to_string(), "DLP.All".to_string()],
        collect: None,
        output: OutputSubConfig {
            file: Some(FileOutputSubConfig {
                path: "logs/out.json".to_string(),
                separate_by_content_type: Some(true),
                separator: None,
            }),
            graylog: None,
            fluentd: None,
            oms: None,
        },
    };
    let sink = fileout::FileInterface::new(config);
    assert_eq!(sink.paths.len(), 2);
    assert_eq!(sink.paths[0].0, "Audit.Exchange".to_string());
    assert_eq!(sink.paths[0].1, "logs/AuditExchange.json".to_string());
    assert_eq!(sink.paths[1].1, "logs/DLPAll.json".to_string());
}
