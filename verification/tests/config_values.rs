use office_audit_collector::config::{
    Config, ConfigError, ContentTypesSubConfig, FilterSubConfig, OutputSubConfig, TenantConfig,
};
use office_audit_collector::timefmt::parse_expiration;

fn base_config() -> Config {
    Config {
        enabled: None,
        interval: None,
        curl_max_size: None,
        only_future_events: None,
        working_dir: None,
        log: None,
        tenants: Vec::new(),
        subscriptions: vec!["Audit.Exchange".to_string()],
        collect: None,
        output: OutputSubConfig { file: None, graylog: None, fluentd: None, oms: None },
    }
}

fn with_hours(hours: i64) -> Config {
    let mut config = base_config();
    config.collect = Some(office_audit_collector::config::CollectSubConfig {
        working_dir: None,
        cache_size: None,
        content_types: ContentTypesSubConfig {
            general: None,
            azure_active_directory: None,
            exchange: None,
            share_point: None,
            dlp: None,
        },
        max_threads: None,
        global_timeout: None,
        retries: None,
        hours_to_collect: Some(hours),
        skip_known_logs: None,
        filter: None,
        duplicate: None,
    });
    config
}

#[test]
fn test_duration_parser() {
    assert_eq!(Config::parse_interval("30s"), 30);
    assert_eq!(Config::parse_interval("5m"), 300);
    assert_eq!(Config::parse_interval("1h"), 3600);
    assert_eq!(Config::parse_interval("1d"), 86400);
    assert_eq!(Config::parse_interval("42"), 42);
    // unreadable counts fall back
    assert_eq!(Config::parse_interval("xs"), 300);
    assert_eq!(Config::parse_interval(""), 300);
}

#[test]
fn test_size_parser() {
    assert_eq!(Config::parse_size("1K"), 1024);
    assert_eq!(Config::parse_size("1M"), 1048576);
    assert_eq!(Config::parse_size("1G"), 1073741824);
    // lower case and surrounding blanks are accepted
    assert_eq!(Config::parse_size(" 2k "), 2048);
    assert_eq!(Config::parse_size("512"), 512);
}

#[test]
fn test_window_splitter_three_days() {
    let now = parse_expiration("2030-01-10T00:00:00Z").unwrap();
    let config = with_hours(72);
    let runs = config.get_needed_runs_from_at(None, now).unwrap();
    assert_eq!(runs.len(), 1);
    assert_eq!(runs[0].0, "Audit.Exchange".to_string());
    let windows = &runs[0].1;
    assert_eq!(windows.len(), 3);
    // consecutive windows meet at their boundaries
    assert_eq!(windows[0].1, windows[1].0);
    assert_eq!(windows[1].1, windows[2].0);
    // each window spans 24 hours
    for w in windows.iter() {
        let s = parse_expiration(&w.0).unwrap();
        let e = parse_expiration(&w.1).unwrap();
        assert_eq!(e - s, 24 * 3600 * 1000);
    }
    assert_eq!(windows[0].0, "2030-01-07T00:00:00Z".to_string());
    assert_eq!(windows[2].1, "2030-01-10T00:00:00Z".to_string());
}

#[test]
fn test_window_splitter_twenty_five_hours() {
    let now = parse_expiration("2030-01-10T00:00:00Z").unwrap();
    let config = with_hours(25);
    let runs = config.get_needed_runs_from_at(None, now).unwrap();
    let windows = &runs[0].1;
    assert_eq!(windows.len(), 2);
    let s0 = parse_expiration(&windows[0].0).unwrap();
    let e0 = parse_expiration(&windows[0].1).unwrap();
    let s1 = parse_expiration(&windows[1].0).unwrap();
    let e1 = parse_expiration(&windows[1].1).unwrap();
    assert_eq!(e0 - s0, 24 * 3600 * 1000);
    assert_eq!(e1 - s1, 1 * 3600 * 1000);
    assert_eq!(windows[0].1, windows[1].0);
}

#[test]
fn test_hours_over_provider_limit_is_fatal() {
    let now = parse_expiration("2030-01-10T00:00:00Z").unwrap();
    let config = with_hours(169);
    let r = config.get_needed_runs_from_at(None, now);
    assert_eq!(r, Err(ConfigError::HoursToCollectTooLarge));
}

#[test]
fn test_endpoints_per_api_type() {
    let mut tenant = TenantConfig {
        tenant_id: "t".to_string(),
        client_id: "c".to_string(),
        client_secret: None,
        client_secret_path: None,
        api_type: None,
    };
    let (login, manage) = tenant.get_endpoints().unwrap();
    assert_eq!(login, "https://login.microsoftonline.com".to_string());
    assert_eq!(manage, "https://manage.office.com".to_string());

    tenant.api_type = Some("gcc-high".to_string());
    let (login, manage) = tenant.get_endpoints().unwrap();
    assert_eq!(login, "https://login.microsoftonline.us".to_string());
    assert_eq!(manage, "https://manage.office365.us".to_string());

    tenant.api_type = Some("dod".to_string());
    assert_eq!(tenant.get_endpoints(), Err(ConfigError::InvalidApiType));
}

#[test]
fn test_simple_getters() {
    let mut config = base_config();
    assert!(config.is_enabled());
    config.enabled = Some(false);
    assert!(!config.is_enabled());

    assert_eq!(config.get_working_dir(), "./".to_string());
    config.working_dir = Some("/var/lib/audit".to_string());
    assert_eq!(config.get_working_dir(), "/var/lib/audit".to_string());

    config.curl_max_size = Some("500K".to_string());
    assert_eq!(config.get_max_size_bytes(), Some(512_000));

    config.interval = Some("2m".to_string());
    assert_eq!(config.get_interval_seconds(), 120);

    assert_eq!(config.get_subscriptions(), vec!["Audit.Exchange".to_string()]);
}

#[test]
fn test_legacy_content_types_table() {
    let table = ContentTypesSubConfig {
        general: Some(true),
        azure_active_directory: Some(false),
        exchange: Some(true),
        share_point: None,
        dlp: Some(true),
    };
    assert_eq!(
        table.get_content_type_strings(),
        vec![
            "Audit.General".to_string(),
            "Audit.Exchange".to_string(),
            "DLP.All".to_string(),
        ]
    );
}

#[test]
fn test_filter_table_order() {
    let filters = FilterSubConfig {
        general: None,
        azure_active_directory: None,
        exchange: Some(vec![("Operation".to_string(), "\"Send\"".to_string())]),
        share_point: Some(Vec::new()),
        dlp: None,
    };
    let got = filters.get_filters();
    assert_eq!(got.len(), 2);
    assert_eq!(got[0].0, "Audit.SharePoint".to_string());
    assert_eq!(got[1].0, "Audit.Exchange".to_string());
    assert_eq!(got[1].1[0].0, "Operation".to_string());
}

#[test]
fn test_legacy_known_blobs_text() {
    let now = parse_expiration("2030-01-01T00:00:00Z").unwrap();
    let text = "a,2031-01-01T00:00:00.000Z\nb,2029-01-01T00:00:00.000Z\n";
    let pairs = Config::load_known_blobs_at(text, now);
    assert_eq!(pairs.len(), 1);
    assert_eq!(pairs[0].0, "a".to_string());
    assert_eq!(pairs[0].1, "2031-01-01T00:00:00.000Z".to_string());

    let rendered = Config::save_known_blobs(&pairs);
    assert_eq!(rendered, "a,2031-01-01T00:00:00.000Z\n".to_string());
}
