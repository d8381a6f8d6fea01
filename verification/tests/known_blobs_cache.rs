use chrono::Utc;
use office_audit_collector::known_blobs::KnownBlobsCache;
use office_audit_collector::timefmt::{
    format_timestamp_millis, parse_expiration, MAX_TS_MILLIS,
};

#[test]
fn test_cache_insert_and_contains() {
    let mut cache = KnownBlobsCache::new();

    // Insert with future expiration
    let future = (Utc::now() + chrono::Duration::hours(1))
        .format("%Y-%m-%dT%H:%M:%S%.3fZ")
        .to_string();

    cache.insert("test-blob-1".to_string(), &future);
    assert!(cache.contains("test-blob-1"));
    assert!(!cache.contains("nonexistent"));
}

#[test]
fn test_cache_expired_not_inserted() {
    let mut cache = KnownBlobsCache::new();

    // Insert with past expiration
    let past = (Utc::now() - chrono::Duration::hours(1))
        .format("%Y-%m-%dT%H:%M:%S%.3fZ")
        .to_string();

    cache.insert("expired-blob".to_string(), &past);
    assert!(!cache.contains("expired-blob"));
}

#[test]
fn test_cache_lru_eviction() {
    let mut cache = KnownBlobsCache::with_capacity(3);

    let future = (Utc::now() + chrono::Duration::hours(1))
        .format("%Y-%m-%dT%H:%M:%S%.3fZ")
        .to_string();

    cache.insert("blob-1".to_string(), &future);
    cache.insert("blob-2".to_string(), &future);
    cache.insert("blob-3".to_string(), &future);
    cache.insert("blob-4".to_string(), &future); // Should evict blob-1

    assert!(!cache.contains("blob-1")); // Evicted
    assert!(cache.contains("blob-2"));
    assert!(cache.contains("blob-3"));
    assert!(cache.contains("blob-4"));
}

#[test]
fn test_parse_expiration() {
    assert!(parse_expiration("2030-01-01T00:00:00.000Z").is_some());
    assert!(parse_expiration("2030-01-01T00:00:00Z").is_some());
    assert!(parse_expiration("invalid").is_none());
}

#[test]
fn test_parse_expiration_variants() {
    // bare date-time, trimmed input, and a numeric offset
    let base = parse_expiration("2030-01-01T01:00:00Z").unwrap();
    assert_eq!(parse_expiration("2030-01-01T01:00:00"), Some(base));
    assert_eq!(parse_expiration("  2030-01-01T01:00:00Z  "), Some(base));
    assert_eq!(
        parse_expiration("2030-01-01T02:00:00+01:00"),
        Some(base),
        "an offset of one hour east denotes the same instant"
    );
    assert_eq!(parse_expiration("2030-01-01T01:00:00.25Z"), Some(base + 250));
    // a fraction needs a zone
    assert!(parse_expiration("2030-01-01T01:00:00.25").is_none());
}

#[test]
fn test_format_parse_round_trip() {
    assert_eq!(
        format_timestamp_millis(0),
        "1970-01-01T00:00:00.000Z".to_string()
    );
    assert_eq!(parse_expiration("1970-01-01T00:00:00.000Z"), Some(0));
    for t in [1i64, 86_399_999, 951_827_696_789, MAX_TS_MILLIS] {
        let text = format_timestamp_millis(t);
        assert_eq!(parse_expiration(&text), Some(t), "{text}");
    }
    assert_eq!(
        format_timestamp_millis(MAX_TS_MILLIS),
        "9999-12-31T23:59:59.999Z".to_string()
    );
}

#[test]
fn test_save_then_load_keeps_live_entries() {
    let now = 1_000_000i64;
    let mut cache = KnownBlobsCache::new();
    cache.insert_at("blob-a".to_string(), "2030-01-01T00:00:00.000Z", now);
    cache.insert_at("blob-b".to_string(), "2031-06-15T12:30:45.500Z", now);
    // refused: already expired at `now`
    cache.insert_at("blob-old".to_string(), "1970-01-01T00:00:01.000Z", now);
    assert_eq!(cache.len(), 2);

    let text = cache.save_lines_at(now);
    let mut loaded = KnownBlobsCache::load_lines_at(&text, now);
    assert_eq!(loaded.len(), 2);
    assert!(loaded.contains_at("blob-a", now));
    assert!(loaded.contains_at("blob-b", now));
    assert!(!loaded.contains_at("blob-old", now));
}

#[test]
fn test_load_skips_expired_and_malformed_lines() {
    let now = parse_expiration("2030-01-01T00:00:00Z").unwrap();
    let text = "fresh,2031-01-01T00:00:00.000Z\n\
                stale,2029-01-01T00:00:00.000Z\n\
                no-comma-line\n\
                \n\
                bad-date,yesterday\n";
    let mut loaded = KnownBlobsCache::load_lines_at(text, now);
    assert_eq!(loaded.len(), 1);
    assert!(loaded.contains_at("fresh", now));
    assert!(!loaded.contains_at("stale", now));
}
