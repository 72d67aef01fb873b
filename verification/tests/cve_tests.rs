use cvedb::cve::{
    parse_cpe_fs, time_or_epoch, MAX_UTC_SECS, MIN_UTC_SECS, ConfigurationNode, Description, Logical, Part, Reference,
    Severity, Timestamp, CPE, CVE,
};

fn make_cpe(vendor: Option<&str>, product: Option<&str>, version: Option<&str>) -> CPE {
    CPE {
        part: None,
        vendor: vendor.map(|s| s.to_string()),
        product: product.map(|s| s.to_string()),
        version: version.map(|s| s.to_string()),
        update: None,
        edition: None,
        lang: None,
        sw_edition: None,
        target_sw: None,
        target_hw: None,
        other: None,
    }
}

fn make_record(descriptions: Vec<(&str, &str)>) -> CVE {
    CVE {
        cve_id: "CVE-2021-44228".to_string(),
        feed: 1,
        published: Timestamp { secs: 0, nanos: 0 },
        last_modified: Timestamp { secs: 0, nanos: 0 },
        impact_vector: None,
        severity: Severity::Critical,
        descriptions: descriptions
            .into_iter()
            .map(|(l, v)| Description { lang: l.to_string(), value: v.to_string() })
            .collect(),
        references: Vec::<Reference>::new(),
        configurations: Vec::new(),
        assigner: None,
    }
}

#[test]
fn severity_from_int_maps_codes() {
    assert_eq!(Severity::from_int(0), Severity::Zero);
    assert_eq!(Severity::from_int(1), Severity::Unknown);
    assert_eq!(Severity::from_int(2), Severity::Low);
    assert_eq!(Severity::from_int(3), Severity::Medium);
    assert_eq!(Severity::from_int(4), Severity::High);
    assert_eq!(Severity::from_int(5), Severity::Critical);
    assert_eq!(Severity::from_int(6), Severity::Unknown);
    assert_eq!(Severity::from_int(-1), Severity::Unknown);
}

#[test]
fn severity_code_reads_back() {
    for s in [
        Severity::Zero,
        Severity::Unknown,
        Severity::Low,
        Severity::Medium,
        Severity::High,
        Severity::Critical,
    ] {
        assert_eq!(Severity::from_int(s.to_int()), s);
    }
    assert_eq!(Severity::Critical.to_int(), 5);
    assert!(Severity::Zero < Severity::Unknown && Severity::High < Severity::Critical);
}

#[test]
fn logical_and_part_symbols() {
    assert_eq!(Logical::Any.to_string(), "*");
    assert_eq!(Logical::NA.to_string(), "-");
    assert_eq!(Part::App.to_string(), "a");
    assert_eq!(Part::OS.to_string(), "o");
    assert_eq!(Part::Hardware.to_string(), "h");
}

#[test]
fn cpe_formatted_string_uses_star_for_absent() {
    let c = make_cpe(Some("apache"), Some("http_server"), Some("2.4.0"));
    assert_eq!(c.to_string(), "cpe:2.3:*:apache:http_server:2.4.0:*:*:*:*:*:*:*");
}

#[test]
fn cpe_matching_rules() {
    let any = make_cpe(None, None, None);
    let apache = make_cpe(Some("apache"), Some("log4j"), Some("2.14"));
    let other = make_cpe(Some("nginx"), None, None);
    let star = make_cpe(Some("*"), None, None);
    let dash = make_cpe(Some("-"), None, None);
    assert!(any.matches(&apache));
    assert!(apache.matches(&any));
    assert!(!apache.matches(&other));
    assert!(star.matches(&apache));
    assert!(!dash.matches(&apache));
    assert!(!dash.matches(&dash));
    assert!(star.matches(&dash));
    assert!(apache.matches(&apache));
}

#[test]
fn cpe_matching_is_symmetric() {
    let a = make_cpe(Some("apache"), None, Some("1.0"));
    let b = make_cpe(Some("apache"), Some("tomcat"), None);
    let c = make_cpe(Some("-"), None, None);
    for (x, y) in [(&a, &b), (&a, &c), (&b, &c)] {
        assert_eq!(x.matches(y), y.matches(x));
    }
}

#[test]
fn wildcard_cpe_matches_everything() {
    let any = make_cpe(None, None, None);
    for c in [make_cpe(Some("-"), Some("x"), None), make_cpe(Some("a"), Some("b"), Some("c"))] {
        assert!(any.matches(&c));
    }
}

#[test]
fn parse_cpe_fs_reads_attributes() {
    let c = parse_cpe_fs("cpe:2.3:a:apache:log4j:2.14.1:*:*:*:*:*:*:-").unwrap();
    assert_eq!(c.part.as_deref(), Some("a"));
    assert_eq!(c.vendor.as_deref(), Some("apache"));
    assert_eq!(c.product.as_deref(), Some("log4j"));
    assert_eq!(c.version.as_deref(), Some("2.14.1"));
    assert_eq!(c.update.as_deref(), Some("*"));
    assert_eq!(c.other.as_deref(), Some("-"));
    let longer = parse_cpe_fs("cpe:2.3:a:b:c:d:e:f:g:h:i:j:k:extra").unwrap();
    assert_eq!(longer.other.as_deref(), Some("k"));
}

#[test]
fn parse_cpe_fs_rejects_bad_strings() {
    assert_eq!(
        parse_cpe_fs("cpe:2.2:a:b:c:d:e:f:g:h:i:j:k").unwrap_err(),
        "invalid CPE formatted string: cpe:2.2:a:b:c:d:e:f:g:h:i:j:k"
    );
    assert_eq!(
        parse_cpe_fs("cpe:2.3:a:b").unwrap_err(),
        "invalid CPE formatted string: cpe:2.3:a:b"
    );
    assert_eq!(parse_cpe_fs("").unwrap_err(), "invalid CPE formatted string: ");
    assert!(parse_cpe_fs("xpe:2.3:a:b:c:d:e:f:g:h:i:j:k").is_err());
}

#[test]
fn configuration_tree_matching() {
    let target = make_cpe(Some("apache"), Some("log4j"), Some("2.14"));
    let leaf = ConfigurationNode::Cpe(make_cpe(Some("apache"), None, None));
    let miss = ConfigurationNode::Cpe(make_cpe(Some("nginx"), None, None));
    assert!(leaf.matches(&target));
    let and = ConfigurationNode::And {
        children: vec![ConfigurationNode::Cpe(make_cpe(Some("apache"), None, None)), ConfigurationNode::Cpe(make_cpe(Some("nginx"), None, None))],
        negate: false,
    };
    assert!(!and.matches(&target));
    let nand = ConfigurationNode::And {
        children: vec![ConfigurationNode::Cpe(make_cpe(Some("apache"), None, None)), ConfigurationNode::Cpe(make_cpe(Some("nginx"), None, None))],
        negate: true,
    };
    assert!(nand.matches(&target));
    let or = ConfigurationNode::Or { children: vec![miss, leaf], negate: false };
    assert!(or.matches(&target));
    let empty_or = ConfigurationNode::Or { children: vec![], negate: false };
    assert!(!empty_or.matches(&target));
    let not = ConfigurationNode::Negate(Box::new(ConfigurationNode::Cpe(make_cpe(Some("nginx"), None, None))));
    assert!(not.matches(&target));
}

#[test]
fn version_range_bounds() {
    let range = |start: Option<&str>, end: Option<&str>, is: bool, ie: bool| ConfigurationNode::VersionRange {
        wrapped: make_cpe(Some("apache"), None, None),
        start: start.map(|s| s.to_string()),
        end: end.map(|s| s.to_string()),
        include_start: is,
        include_end: ie,
    };
    let v = |ver: &str| make_cpe(Some("apache"), None, Some(ver));
    assert!(range(Some("2.0"), Some("2.15"), true, false).matches(&v("2.14")));
    assert!(range(Some("2.0"), Some("2.15"), true, false).matches(&v("2.0")));
    assert!(!range(Some("2.0"), Some("2.15"), false, false).matches(&v("2.0")));
    assert!(!range(Some("2.0"), Some("2.15"), true, false).matches(&v("2.15")));
    assert!(range(Some("2.0"), Some("2.15"), true, true).matches(&v("2.15")));
    assert!(!range(Some("2.0"), None, true, false).matches(&v("1.9")));
    assert!(range(Some("2.0"), Some("2.15"), true, false).matches(&make_cpe(Some("apache"), None, None)));
    assert!(!range(None, None, true, true).matches(&make_cpe(Some("nginx"), None, Some("1"))));
}

#[test]
fn description_en_prefers_english() {
    let c = make_record(vec![("es", "hola"), ("en", "hello\nworld"), ("en", "second")]);
    assert_eq!(c.description_en(), Some("hello\nworld"));
    let d = make_record(vec![("fr", "bonjour"), ("de", "hallo")]);
    assert_eq!(d.description_en(), Some("bonjour"));
    let e = make_record(vec![]);
    assert_eq!(e.description_en(), None);
}

#[test]
fn timestamps_order_and_days() {
    let a = Timestamp { secs: 86399, nanos: 999 };
    let b = Timestamp { secs: 86400, nanos: 0 };
    assert!(a.is_at_or_before(&b));
    assert!(!b.is_at_or_before(&a));
    assert!(a.is_at_or_before(&a));
    assert_eq!(a.day(), 0);
    assert_eq!(b.day(), 1);
    assert_eq!(Timestamp { secs: -1, nanos: 0 }.day(), -1);
    assert_eq!(Timestamp { secs: -86400, nanos: 0 }.day(), -1);
    assert_eq!(Timestamp { secs: -86401, nanos: 0 }.day(), -2);
}

#[test]
fn stored_times_in_and_out_of_range() {
    assert_eq!(time_or_epoch(1609459200), Timestamp { secs: 1609459200, nanos: 0 });
    assert_eq!(time_or_epoch(i64::MAX), Timestamp { secs: 0, nanos: 0 });
    assert_eq!(time_or_epoch(-86400), Timestamp { secs: -86400, nanos: 0 });
}

#[test]
fn cpe_formatted_string_reads_back() {
    let c = make_cpe(Some("apache"), None, Some("2.4.0"));
    let back = parse_cpe_fs(&c.to_string()).unwrap();
    assert_eq!(back.part.as_deref(), Some("*"));
    assert_eq!(back.vendor.as_deref(), Some("apache"));
    assert_eq!(back.product.as_deref(), Some("*"));
    assert_eq!(back.version.as_deref(), Some("2.4.0"));
    assert_eq!(back.other.as_deref(), Some("*"));
    assert_eq!(back.to_string(), c.to_string());
}

#[test]
fn thirteen_piece_strings_are_written_back_unchanged() {
    for s in [
        "cpe:2.3:a:apache:log4j:2.14.1:*:*:*:*:*:*:-",
        "cpe:2.3:o:linux:linux_kernel:5.10:rc1:-:en:x:y:z:w",
        "cpe:2.3:::::::::::",
    ] {
        assert_eq!(parse_cpe_fs(s).unwrap().to_string(), s);
    }
}

#[test]
fn stored_times_near_the_range_ends() {
    assert_eq!(time_or_epoch(-8_000_000_000_000), Timestamp { secs: -8_000_000_000_000, nanos: 0 });
    assert_eq!(time_or_epoch(8_000_000_000_000), Timestamp { secs: 8_000_000_000_000, nanos: 0 });
}

#[test]
fn chrono_range_ends_exactly() {
    assert_eq!(time_or_epoch(MIN_UTC_SECS), Timestamp { secs: MIN_UTC_SECS, nanos: 0 });
    assert_eq!(time_or_epoch(MIN_UTC_SECS - 1), Timestamp { secs: 0, nanos: 0 });
    assert_eq!(time_or_epoch(MAX_UTC_SECS), Timestamp { secs: MAX_UTC_SECS, nanos: 0 });
    assert_eq!(time_or_epoch(MAX_UTC_SECS + 1), Timestamp { secs: 0, nanos: 0 });
}

#[test]
fn colon_free_names_read_back_from_their_text() {
    let mut c = make_cpe(Some("ven dor\n"), None, Some("1.0 "));
    c.other = Some("tail \n ".to_string());
    let back = parse_cpe_fs(&c.to_string()).unwrap();
    assert_eq!(back.vendor.as_deref(), Some("ven dor\n"));
    assert_eq!(back.version.as_deref(), Some("1.0 "));
    assert_eq!(back.other.as_deref(), Some("tail \n "));
    assert_eq!(back.part.as_deref(), Some("*"));
}
