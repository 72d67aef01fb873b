use cvedb::cve::{ConfigurationNode, Description, Reference, Severity, Timestamp, CPE, CVE};
use cvedb::search::{DateField, SearchQuery, Sort};

fn vendor_cpe(vendor: Option<&str>) -> CPE {
    CPE {
        part: None,
        vendor: vendor.map(|s| s.to_string()),
        product: None,
        version: None,
        update: None,
        edition: None,
        lang: None,
        sw_edition: None,
        target_sw: None,
        target_hw: None,
        other: None,
    }
}

fn log4shell() -> CVE {
    CVE {
        cve_id: "CVE-2021-44228".to_string(),
        feed: 1,
        published: Timestamp { secs: 1639094400 + 3600, nanos: 0 },
        last_modified: Timestamp { secs: 1700000000, nanos: 5 },
        impact_vector: None,
        severity: Severity::Critical,
        descriptions: vec![Description {
            lang: "en".to_string(),
            value: "Apache Log4j2 JNDI features do not protect".to_string(),
        }],
        references: vec![Reference {
            url: Some("https://logging.apache.org/log4j/2.x/security.html".to_string()),
            name: Some("MISC".to_string()),
        }],
        configurations: vec![ConfigurationNode::Cpe(vendor_cpe(Some("apache")))],
        assigner: Some("security@Apache.org".to_string()),
    }
}

fn term(q: &str, case_sensitive: bool) -> SearchQuery {
    SearchQuery::Term { query: q.to_string(), case_sensitive }
}

#[test]
fn sort_names() {
    assert_eq!(Sort::from_name("cve"), Some(Sort::CVEId));
    assert_eq!(Sort::from_name("modified"), Some(Sort::LastModifiedDate));
    assert_eq!(Sort::from_name("published"), Some(Sort::PublishedDate));
    assert_eq!(Sort::from_name("impact"), Some(Sort::Impact));
    assert_eq!(Sort::from_name("severity"), Some(Sort::Severity));
    assert_eq!(Sort::from_name("CVE"), None);
    assert_eq!(Sort::from_name(""), None);
}

#[test]
fn term_searches_descriptions_ids_and_references() {
    let c = log4shell();
    assert!(term("log4j2", false).matches(&c));
    assert!(term("LOG4J2", false).matches(&c));
    assert!(!term("log4j2", true).matches(&c));
    assert!(term("Log4j2", true).matches(&c));
    assert!(term("cve-2021", false).matches(&c));
    assert!(term("misc", false).matches(&c));
    assert!(term("security.html", false).matches(&c));
    assert!(!term("heartbleed", false).matches(&c));
    assert!(term("", false).matches(&c));
}

#[test]
fn term_compares_assigner_without_lowercasing() {
    let mut c = log4shell();
    c.descriptions.clear();
    c.references.clear();
    assert!(term("@Apache", true).matches(&c));
    assert!(!term("@APACHE", false).matches(&c));
    assert!(!term("@apache", false).matches(&c));
    c.assigner = Some("security@apache.org".to_string());
    assert!(term("@APACHE", false).matches(&c));
}

#[test]
fn date_filters() {
    let c = log4shell();
    let day_start = Timestamp { secs: 1639094400, nanos: 0 };
    let before = |date: Timestamp| SearchQuery::BeforeDate { field: DateField::Published, date };
    let after = |date: Timestamp| SearchQuery::AfterDate { field: DateField::Published, date };
    assert!(before(day_start).matches(&c));
    assert!(!before(Timestamp { secs: 1639094400 - 1, nanos: 0 }).matches(&c));
    assert!(after(day_start).matches(&c));
    assert!(after(c.published).matches(&c));
    assert!(!after(Timestamp { secs: 1639094400 + 3600, nanos: 1 }).matches(&c));
    let modified_after =
        SearchQuery::AfterDate { field: DateField::LastModified, date: Timestamp { secs: 1700000000, nanos: 6 } };
    assert!(!modified_after.matches(&c));
    let modified_before =
        SearchQuery::BeforeDate { field: DateField::LastModified, date: Timestamp { secs: 1700000000 - 10, nanos: 0 } };
    assert!(modified_before.matches(&c));
}

#[test]
fn cpe_and_conjunction_filters() {
    let c = log4shell();
    let apache = SearchQuery::CPE { cpe: vendor_cpe(Some("apache")) };
    let nginx = SearchQuery::CPE { cpe: vendor_cpe(Some("nginx")) };
    assert!(apache.matches(&c));
    assert!(!nginx.matches(&c));
    assert!(SearchQuery::And(vec![]).matches(&c));
    assert!(SearchQuery::And(vec![term("jndi", false), apache]).matches(&c));
    assert!(!SearchQuery::And(vec![term("jndi", false), nginx]).matches(&c));
}

#[test]
fn empty_terms_match_every_record() {
    let mut c = log4shell();
    c.descriptions.clear();
    c.references.clear();
    c.assigner = None;
    assert!(term("", false).matches(&c));
    assert!(term("", true).matches(&c));
}
