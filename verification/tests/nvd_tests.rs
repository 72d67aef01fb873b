use cvedb::cve::{ConfigurationNode, Description, Severity, Timestamp};
use cvedb::nvd::{
    fetch_url, is_cvss3_metric, metric_keys, preferred_metric, parse_nvd_configs, parse_nvd_cve, url_with_bounds, NvdConfiguration, NvdCpeMatch,
    NvdCveItem, NvdNode, NvdReference,
};

fn cpe_match(criteria: &str, vulnerable: Option<bool>, start_incl: Option<&str>, end_excl: Option<&str>) -> NvdCpeMatch {
    NvdCpeMatch {
        vulnerable,
        criteria: criteria.to_string(),
        version_start_including: start_incl.map(|s| s.to_string()),
        version_start_excluding: None,
        version_end_including: None,
        version_end_excluding: end_excl.map(|s| s.to_string()),
    }
}

const LOG4J: &str = "cpe:2.3:a:apache:log4j:*:*:*:*:*:*:*:*";
const JAVA: &str = "cpe:2.3:a:oracle:jre:-:*:*:*:*:*:*:*";

#[test]
fn nvd_configurations_become_trees() {
    let configs = Some(vec![
        NvdConfiguration {
            nodes: vec![NvdNode {
                operator: Some("OR".to_string()),
                negate: None,
                cpe_match: Some(vec![
                    cpe_match(LOG4J, Some(true), Some("2.0"), Some("2.15.0")),
                    cpe_match("not a cpe", Some(true), None, None),
                ]),
            }],
        },
        NvdConfiguration {
            nodes: vec![
                NvdNode {
                    operator: Some("AND".to_string()),
                    negate: Some(true),
                    cpe_match: Some(vec![cpe_match(LOG4J, None, None, None), cpe_match(JAVA, Some(false), None, None)]),
                },
                NvdNode { operator: None, negate: None, cpe_match: Some(vec![cpe_match(JAVA, None, None, None)]) },
                NvdNode { operator: None, negate: None, cpe_match: None },
                NvdNode { operator: None, negate: None, cpe_match: Some(vec![cpe_match("bad", None, None, None)]) },
            ],
        },
        NvdConfiguration { nodes: vec![] },
    ]);
    let trees = parse_nvd_configs(&configs);
    assert_eq!(trees.len(), 2);
    match &trees[0] {
        ConfigurationNode::Or { children, negate } => {
            assert!(!*negate);
            assert_eq!(children.len(), 1);
            match &children[0] {
                ConfigurationNode::VersionRange { wrapped, start, end, include_start, include_end } => {
                    assert_eq!(wrapped.product.as_deref(), Some("log4j"));
                    assert_eq!(start.as_deref(), Some("2.0"));
                    assert_eq!(end.as_deref(), Some("2.15.0"));
                    assert!(*include_start);
                    assert!(!*include_end);
                }
                other => panic!("unexpected node {:?}", other),
            }
        }
        other => panic!("unexpected node {:?}", other),
    }
    match &trees[1] {
        ConfigurationNode::Or { children, negate } => {
            assert!(!*negate);
            assert_eq!(children.len(), 2);
            match &children[0] {
                ConfigurationNode::And { children, negate } => {
                    assert!(*negate);
                    assert_eq!(children.len(), 2);
                    assert!(matches!(children[0], ConfigurationNode::Cpe(_)));
                    assert!(matches!(children[1], ConfigurationNode::Negate(_)));
                }
                other => panic!("unexpected node {:?}", other),
            }
            assert!(matches!(children[1], ConfigurationNode::Or { .. }));
        }
        other => panic!("unexpected node {:?}", other),
    }
    assert!(parse_nvd_configs(&None).is_empty());
}

fn item(published: &str) -> NvdCveItem {
    NvdCveItem {
        id: "CVE-2024-0001".to_string(),
        source_identifier: Some("cna@example.org".to_string()),
        published: published.to_string(),
        last_modified: "2024-01-16T00:00:00.500".to_string(),
        descriptions: Some(vec![Description { lang: "en".to_string(), value: "text".to_string() }]),
        references: Some(vec![NvdReference { url: Some("https://x".to_string()), source: Some("src".to_string()) }]),
        configurations: None,
    }
}

#[test]
fn nvd_items_become_records() {
    let c = parse_nvd_cve(item("2024-01-15T06:23:19.000"), Some("CVSS:3.1/AV:N".to_string()), Severity::High).unwrap();
    assert_eq!(c.cve_id, "CVE-2024-0001");
    assert_eq!(c.feed, 0);
    assert_eq!(c.published, Timestamp { secs: 1705299799, nanos: 0 });
    assert_eq!(c.last_modified, Timestamp { secs: 1705363200, nanos: 500_000_000 });
    assert_eq!(c.severity, Severity::High);
    assert_eq!(c.impact_vector.as_deref(), Some("CVSS:3.1/AV:N"));
    assert_eq!(c.references.len(), 1);
    assert_eq!(c.references[0].name.as_deref(), Some("src"));
    assert_eq!(c.references[0].url.as_deref(), Some("https://x"));
    assert_eq!(c.descriptions[0].value, "text");
    assert_eq!(c.assigner.as_deref(), Some("cna@example.org"));
    assert!(parse_nvd_cve(item("2024-01-15"), None, Severity::Unknown).is_none());
    assert!(parse_nvd_cve(item("yesterday"), None, Severity::Unknown).is_none());
}

#[test]
fn request_urls() {
    assert_eq!(
        url_with_bounds(0, 50, None, None),
        "https://services.nvd.nist.gov/rest/json/cves/2.0?startIndex=0&resultsPerPage=50"
    );
    assert_eq!(
        url_with_bounds(-3, 2000, Some("a"), Some("b")),
        "https://services.nvd.nist.gov/rest/json/cves/2.0?startIndex=-3&resultsPerPage=2000&lastModStartDate=aZ&lastModEndDate=bZ"
    );
    let start = Timestamp { secs: 1609459200, nanos: 0 };
    let end = Timestamp { secs: 1609459200 + 86400 + 1, nanos: 250_000_000 };
    let now = Timestamp { secs: 1700000000, nanos: 0 };
    assert_eq!(
        fetch_url(Some(start), Some(end), now, 2000, 2000).unwrap(),
        "https://services.nvd.nist.gov/rest/json/cves/2.0?startIndex=2000&resultsPerPage=2000&lastModStartDate=2021-01-01T00:00:00.000Z&lastModEndDate=2021-01-02T00:00:01.250Z"
    );
    assert_eq!(
        fetch_url(Some(start), None, now, 0, 50).unwrap(),
        "https://services.nvd.nist.gov/rest/json/cves/2.0?startIndex=0&resultsPerPage=50&lastModStartDate=2021-01-01T00:00:00.000Z&lastModEndDate=2023-11-14T22:13:20.000Z"
    );
    assert_eq!(
        fetch_url(None, None, now, 0, 50).unwrap(),
        "https://services.nvd.nist.gov/rest/json/cves/2.0?startIndex=0&resultsPerPage=50"
    );
    assert!(fetch_url(Some(Timestamp { secs: i64::MAX, nanos: 0 }), None, now, 0, 50).is_none());
}

#[test]
fn metrics_are_preferred_in_order() {
    assert_eq!(metric_keys(), ["cvssMetricV31", "cvssMetricV30", "cvssMetricV2"]);
    assert_eq!(preferred_metric(&[true, true, true]), Some(0));
    assert_eq!(preferred_metric(&[false, true, true]), Some(1));
    assert_eq!(preferred_metric(&[false, false, true]), Some(2));
    assert_eq!(preferred_metric(&[false, false, false]), None);
    assert!(is_cvss3_metric(0) && is_cvss3_metric(1) && !is_cvss3_metric(2));
}
