use office_audit_collector::recordtype::RecordTypeFilter;

#[test]
fn test_dlp_all_filtering() {
    // DLP.All should ONLY accept RecordType 28
    assert!(RecordTypeFilter::should_include_log("DLP.All", 28));
    assert!(!RecordTypeFilter::should_include_log("DLP.All", 6));
    assert!(!RecordTypeFilter::should_include_log("DLP.All", 4));
}

#[test]
fn test_sharepoint_filtering() {
    // SharePoint should accept file operations
    assert!(RecordTypeFilter::should_include_log("Audit.SharePoint", 4));
    assert!(RecordTypeFilter::should_include_log("Audit.SharePoint", 6));
    assert!(RecordTypeFilter::should_include_log("Audit.SharePoint", 14));

    // But NOT Teams logs
    assert!(!RecordTypeFilter::should_include_log("Audit.SharePoint", 25));
}

#[test]
fn test_exchange_filtering() {
    // Exchange should accept mail operations
    assert!(RecordTypeFilter::should_include_log("Audit.Exchange", 1));
    assert!(RecordTypeFilter::should_include_log("Audit.Exchange", 2));
    assert!(RecordTypeFilter::should_include_log("Audit.Exchange", 50));

    // But NOT SharePoint logs
    assert!(!RecordTypeFilter::should_include_log("Audit.Exchange", 6));
}

#[test]
fn test_unknown_subscription_allows_all() {
    assert!(RecordTypeFilter::should_include_log("Audit.Unknown", 999));
}

#[test]
fn test_recordtype_descriptions() {
    assert_eq!(RecordTypeFilter::get_recordtype_description(1), "ExchangeAdmin");
    assert_eq!(RecordTypeFilter::get_recordtype_description(28), "DLPRuleMatch");
    assert_eq!(RecordTypeFilter::get_recordtype_description(999), "Unknown");
}
