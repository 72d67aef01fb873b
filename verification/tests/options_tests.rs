use cvedb::cve::{ConfigurationNode, Description, Reference, Severity, Timestamp, CPE, CVE};
use cvedb::options::{build_query, filter_matches, match_all, parse_sorts, SearchOptions};
use cvedb::search::{DateField, SearchQuery, Sort};

fn empty_options() -> SearchOptions {
    SearchOptions {
        terms: vec![],
        after: None,
        before: None,
        modified_after: None,
        modified_before: None,
        vendor: None,
        software_version: None,
    }
}

fn option_record(id: &str, text: &str, published: i64) -> CVE {
    CVE {
        cve_id: id.to_string(),
        feed: 1,
        published: Timestamp { secs: published, nanos: 0 },
        last_modified: Timestamp { secs: published, nanos: 0 },
        impact_vector: None,
        severity: Severity::Medium,
        descriptions: vec![Description { lang: "en".to_string(), value: text.to_string() }],
        references: Vec::<Reference>::new(),
        configurations: vec![],
        assigner: None,
    }
}

#[test]
fn no_options_no_query() {
    assert!(build_query(empty_options()).is_none());
}

#[test]
fn one_option_is_the_query_itself() {
    let mut o = empty_options();
    o.terms = vec!["Log4J".to_string()];
    match build_query(o) {
        Some(SearchQuery::Term { query, case_sensitive }) => {
            assert_eq!(query, "Log4J");
            assert!(!case_sensitive);
        }
        other => panic!("unexpected query {:?}", other),
    }
}

#[test]
fn several_options_are_combined() {
    let mut o = empty_options();
    o.terms = vec!["a".to_string(), "b".to_string()];
    o.after = Some(Timestamp { secs: 1, nanos: 0 });
    o.modified_before = Some(Timestamp { secs: 2, nanos: 0 });
    o.software_version = Some("2.4.0".to_string());
    match build_query(o) {
        Some(SearchQuery::And(parts)) => {
            assert_eq!(parts.len(), 5);
            assert!(matches!(&parts[0], SearchQuery::Term { query, .. } if query == "a"));
            assert!(matches!(&parts[1], SearchQuery::Term { query, .. } if query == "b"));
            assert!(matches!(&parts[2], SearchQuery::AfterDate { field: DateField::Published, date } if date.secs == 1));
            assert!(matches!(&parts[3], SearchQuery::BeforeDate { field: DateField::LastModified, date } if date.secs == 2));
            match &parts[4] {
                SearchQuery::CPE { cpe } => {
                    assert_eq!(cpe.vendor, None);
                    assert_eq!(cpe.version.as_deref(), Some("2.4.0"));
                    assert_eq!(cpe.part, None);
                }
                other => panic!("unexpected part {:?}", other),
            }
        }
        other => panic!("unexpected query {:?}", other),
    }
}

#[test]
fn combined_options_match_when_all_do() {
    let mut o = empty_options();
    o.terms = vec!["jndi".to_string()];
    o.before = Some(Timestamp { secs: 86400 * 10, nanos: 0 });
    let q = build_query(o).unwrap();
    assert!(q.matches(&option_record("CVE-1", "JNDI lookup", 86400 * 10 + 5)));
    assert!(!q.matches(&option_record("CVE-2", "JNDI lookup", 86400 * 11)));
    assert!(!q.matches(&option_record("CVE-3", "other", 5)));
}

#[test]
fn sort_names_are_filtered() {
    let names: Vec<String> = ["published", "bogus", "cve", "severity"].iter().map(|s| s.to_string()).collect();
    assert_eq!(parse_sorts(&names), vec![Sort::PublishedDate, Sort::CVEId, Sort::Severity]);
    assert!(parse_sorts(&[]).is_empty());
}

#[test]
fn filtering_keeps_matching_records_in_order() {
    let records = vec![
        (option_record("CVE-1", "apache", 0), Some(9.8)),
        (option_record("CVE-2", "nginx", 0), None),
        (option_record("CVE-3", "Apache httpd", 0), Some(5.0)),
    ];
    let q = Some(SearchQuery::Term { query: "apache".to_string(), case_sensitive: false });
    let kept = filter_matches(&q, records);
    let ids: Vec<(&str, Option<f64>)> = kept.iter().map(|(c, s)| (c.cve_id.as_str(), *s)).collect();
    assert_eq!(ids, vec![("CVE-1", Some(9.8)), ("CVE-3", Some(5.0))]);
    let all = filter_matches(&None, vec![(option_record("CVE-4", "x", 0), 1u8)]);
    assert_eq!(all.len(), 1);
}

#[test]
fn the_empty_query_matches_everything() {
    let q = match_all();
    assert!(q.matches(&option_record("CVE-5", "", 0)));
    assert!(q.matches(&option_record("CVE-6", "anything", 0)));
}

#[test]
fn vendor_and_version_options_filter_by_cpe() {
    let mut o = empty_options();
    o.vendor = Some("apache".to_string());
    o.software_version = Some("2.4.0".to_string());
    let q = build_query(o).unwrap();
    let platform = |vendor: &str, version: &str| CPE {
        part: Some("a".to_string()),
        vendor: Some(vendor.to_string()),
        product: Some("http_server".to_string()),
        version: Some(version.to_string()),
        update: Some("*".to_string()),
        edition: Some("*".to_string()),
        lang: Some("*".to_string()),
        sw_edition: Some("*".to_string()),
        target_sw: Some("*".to_string()),
        target_hw: Some("*".to_string()),
        other: Some("*".to_string()),
    };
    let mut c = option_record("CVE-7", "x", 0);
    c.configurations = vec![ConfigurationNode::Cpe(platform("apache", "2.4.0"))];
    assert!(q.matches(&c));
    c.configurations = vec![ConfigurationNode::Cpe(platform("apache", "2.4.1"))];
    assert!(!q.matches(&c));
    c.configurations = vec![ConfigurationNode::Cpe(platform("nginx", "2.4.0"))];
    assert!(!q.matches(&c));
    c.configurations = vec![ConfigurationNode::Cpe(platform("apache", "*"))];
    assert!(q.matches(&c));
}
