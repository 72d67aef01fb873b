use cvedb::cve::{serialize_configurations, ConfigurationNode, Description, Reference, Severity, Timestamp, CPE};
use cvedb::db::{
    assemble_cves, count_statement, description_rows_statement, reference_rows_statement, schema_needs_upgrade, search_statement, upgrade_step, CveRow,
    SchemaStep, SqlValue,
};
use cvedb::search::{DateField, SearchQuery, Sort};

const SELECT: &str = "SELECT DISTINCT c.id, c.feed, c.published, c.last_modified, c.impact_vector, c.base_score, c.severity, c.configurations FROM descriptions d INNER JOIN cves c ON d.cve = c.id ";

#[test]
fn search_statement_with_all_parts() {
    let query = SearchQuery::And(vec![
        SearchQuery::Term { query: "log4j".to_string(), case_sensitive: false },
        SearchQuery::AfterDate { field: DateField::Published, date: Timestamp { secs: 100, nanos: 7 } },
        SearchQuery::Term { query: "ignored".to_string(), case_sensitive: true },
        SearchQuery::And(vec![SearchQuery::BeforeDate {
            field: DateField::LastModified,
            date: Timestamp { secs: 200, nanos: 0 },
        }]),
    ]);
    let st = search_statement(&query, &[Sort::PublishedDate, Sort::Impact], false, &[1, 2], 10000);
    let expected = format!(
        "{}WHERE c.feed IN (?,?) AND (d.description LIKE ? OR c.id LIKE ?) AND c.published >= ? AND c.last_modified <= ? ORDER BY c.published DESC, c.base_score DESC LIMIT ?",
        SELECT
    );
    assert_eq!(st.sql, expected);
    assert_eq!(
        st.params,
        vec![
            SqlValue::Int(1),
            SqlValue::Int(2),
            SqlValue::Text("%log4j%".to_string()),
            SqlValue::Text("%log4j%".to_string()),
            SqlValue::Int(100),
            SqlValue::Int(200),
            SqlValue::Int(10000),
        ]
    );
    assert_eq!(st.sql.matches('?').count(), st.params.len());
}

#[test]
fn search_statement_without_conditions() {
    let query = SearchQuery::CPE {
        cpe: CPE {
            part: None,
            vendor: Some("apache".to_string()),
            product: None,
            version: None,
            update: None,
            edition: None,
            lang: None,
            sw_edition: None,
            target_sw: None,
            target_hw: None,
            other: None,
        },
    };
    let st = search_statement(&query, &[], true, &[], 5);
    assert_eq!(st.sql, format!("{} ORDER BY c.id ASC LIMIT ?", SELECT));
    assert_eq!(st.params, vec![SqlValue::Int(5)]);
    let st = search_statement(&query, &[Sort::CVEId, Sort::Severity, Sort::LastModifiedDate], true, &[], 5);
    assert_eq!(
        st.sql,
        format!("{} ORDER BY c.id ASC, c.severity ASC, c.last_modified ASC LIMIT ?", SELECT)
    );
}

#[test]
fn count_statement_lists_feeds() {
    let st = count_statement(&[3, 4, 5]);
    assert_eq!(st.sql, "SELECT COUNT(*) FROM cves WHERE feed IN (?,?,?)");
    assert_eq!(st.params, vec![SqlValue::Int(3), SqlValue::Int(4), SqlValue::Int(5)]);
    assert_eq!(st.sql.matches('?').count(), st.params.len());
    assert_eq!(count_statement(&[]).sql, "SELECT COUNT(*) FROM cves WHERE feed IN ()");
}

#[test]
fn schema_versions() {
    assert_eq!(schema_needs_upgrade(3).unwrap_err(), "unsupported database schema version: 3");
    assert_eq!(schema_needs_upgrade(42).unwrap_err(), "unsupported database schema version: 42");
    assert_eq!(schema_needs_upgrade(2), Ok(false));
    assert_eq!(schema_needs_upgrade(1), Ok(true));
    assert_eq!(schema_needs_upgrade(0), Ok(true));
    assert_eq!(schema_needs_upgrade(-7), Ok(true));
}

#[test]
fn upgrade_steps() {
    assert_eq!(upgrade_step(false, None), SchemaStep::CreateTables);
    assert_eq!(upgrade_step(false, Some("x REFERENCES y")), SchemaStep::CreateTables);
    assert_eq!(
        upgrade_step(true, Some("CREATE TABLE cves (feed INTEGER REFERENCES feeds(rowid))")),
        SchemaStep::RebuildCves
    );
    assert_eq!(upgrade_step(true, Some("CREATE TABLE cves (id TEXT)")), SchemaStep::AddIndexes);
    assert_eq!(upgrade_step(true, None), SchemaStep::AddIndexes);
    assert!(SchemaStep::CreateTables.sql().starts_with("CREATE TABLE IF NOT EXISTS cves"));
    assert!(SchemaStep::RebuildCves.sql().contains("ALTER TABLE cves_v2 RENAME TO cves;"));
    assert!(SchemaStep::AddIndexes.sql().starts_with("CREATE UNIQUE INDEX"));
}

fn row(id: &str, severity: i64, configurations: Option<String>) -> CveRow {
    CveRow {
        cve_id: id.to_string(),
        feed: 1,
        published: 1609459200,
        last_modified: i64::MAX,
        impact_vector: Some("AV:N".to_string()),
        severity,
        configurations,
    }
}

fn desc(id: &str, value: &str) -> (String, Description) {
    (id.to_string(), Description { lang: "en".to_string(), value: value.to_string() })
}

#[test]
fn assembled_records_take_their_rows() {
    let tree = vec![ConfigurationNode::Cpe(CPE {
        part: Some("a".to_string()),
        vendor: Some("x".to_string()),
        product: Some("y".to_string()),
        version: Some("1".to_string()),
        update: Some("*".to_string()),
        edition: Some("*".to_string()),
        lang: Some("*".to_string()),
        sw_edition: Some("*".to_string()),
        target_sw: Some("*".to_string()),
        target_hw: Some("*".to_string()),
        other: Some("*".to_string()),
    })];
    let rows = vec![
        row("CVE-1", 5, Some(serialize_configurations(&tree))),
        row("CVE-2", 9, Some("garbage".to_string())),
        row("CVE-1", 2, None),
    ];
    let descriptions = vec![desc("CVE-2", "second"), desc("CVE-1", "first a"), desc("CVE-9", "lost"), desc("CVE-1", "first b")];
    let references = vec![("CVE-2".to_string(), Reference { url: Some("u".to_string()), name: None })];
    let cves = assemble_cves(rows, descriptions, references);
    assert_eq!(cves.len(), 3);
    assert_eq!(cves[0].cve_id, "CVE-1");
    assert_eq!(cves[0].severity, Severity::Critical);
    assert_eq!(cves[0].published, Timestamp { secs: 1609459200, nanos: 0 });
    assert_eq!(cves[0].last_modified, Timestamp { secs: 0, nanos: 0 });
    assert_eq!(cves[0].impact_vector.as_deref(), Some("AV:N"));
    assert_eq!(cves[0].configurations.len(), 1);
    let values: Vec<&str> = cves[0].descriptions.iter().map(|d| d.value.as_str()).collect();
    assert_eq!(values, vec!["first a", "first b"]);
    assert!(cves[0].references.is_empty());
    assert_eq!(cves[1].severity, Severity::Unknown);
    assert!(cves[1].configurations.is_empty());
    assert_eq!(cves[1].descriptions.len(), 1);
    assert_eq!(cves[1].references.len(), 1);
    assert!(cves[2].descriptions.is_empty());
    assert_eq!(cves[2].severity, Severity::Low);
    assert!(cves.iter().all(|c| c.assigner.is_none()));
}

#[test]
fn row_statements_for_ids() {
    assert_eq!(
        description_rows_statement(2),
        "SELECT cve, lang, description FROM descriptions WHERE cve IN (?,?)"
    );
    assert_eq!(reference_rows_statement(1), "SELECT cve, url, name FROM refs WHERE cve IN (?)");
}
