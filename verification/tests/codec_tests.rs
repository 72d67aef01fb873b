use cvedb::cve::{parse_configurations, serialize_configurations, ConfigurationNode, CPE};

fn codec_cpe(vendor: Option<&str>, version: Option<&str>) -> CPE {
    CPE {
        part: Some("a".to_string()),
        vendor: vendor.map(|s| s.to_string()),
        product: None,
        version: version.map(|s| s.to_string()),
        update: None,
        edition: None,
        lang: None,
        sw_edition: None,
        target_sw: None,
        target_hw: None,
        other: None,
    }
}

fn sample() -> Vec<ConfigurationNode> {
    vec![
        ConfigurationNode::Or {
            children: vec![
                ConfigurationNode::Cpe(codec_cpe(Some("apache"), None)),
                ConfigurationNode::Negate(Box::new(ConfigurationNode::Cpe(codec_cpe(Some("nginx"), Some("1.0"))))),
            ],
            negate: true,
        },
        ConfigurationNode::And { children: vec![], negate: false },
        ConfigurationNode::VersionRange {
            wrapped: codec_cpe(Some("apache"), None),
            start: Some("2.0".to_string()),
            end: None,
            include_start: true,
            include_end: false,
        },
    ]
}

#[test]
fn serialize_writes_compact_format() {
    let text = serialize_configurations(&sample());
    let expected = "3\n\
oI2\n\
ccpe:2.3:a:apache:*:*:*:*:*:*:*:*:*\n\
!ccpe:2.3:a:nginx:*:1.0:*:*:*:*:*:*:*\n\
aO0\n\
vI2.0\nO\nccpe:2.3:a:apache:*:*:*:*:*:*:*:*:*\n";
    assert_eq!(text, expected);
    assert_eq!(serialize_configurations(&[]), "0\n");
}

#[test]
fn configurations_read_back_as_written() {
    let nodes = sample();
    let text = serialize_configurations(&nodes);
    let back = parse_configurations(&text).unwrap();
    assert_eq!(back.len(), 3);
    assert_eq!(serialize_configurations(&back), text);
    match &back[0] {
        ConfigurationNode::Or { children, negate } => {
            assert!(*negate);
            assert_eq!(children.len(), 2);
            match &children[0] {
                ConfigurationNode::Cpe(c) => {
                    assert_eq!(c.vendor.as_deref(), Some("apache"));
                    assert_eq!(c.product.as_deref(), Some("*"));
                }
                other => panic!("unexpected node {:?}", other),
            }
        }
        other => panic!("unexpected node {:?}", other),
    }
    match &back[2] {
        ConfigurationNode::VersionRange { start, end, include_start, include_end, .. } => {
            assert_eq!(start.as_deref(), Some("2.0"));
            assert_eq!(end.as_deref(), None);
            assert!(*include_start);
            assert!(!*include_end);
        }
        other => panic!("unexpected node {:?}", other),
    }
}

#[test]
fn stored_trees_match_the_same_cpes() {
    let nodes = sample();
    let back = parse_configurations(&serialize_configurations(&nodes)).unwrap();
    let probes = [
        codec_cpe(Some("apache"), Some("2.1")),
        codec_cpe(Some("apache"), Some("1.9")),
        codec_cpe(Some("nginx"), Some("1.0")),
        codec_cpe(None, None),
    ];
    for p in probes.iter() {
        for (a, b) in nodes.iter().zip(back.iter()) {
            assert_eq!(a.matches(p), b.matches(p));
        }
    }
}

#[test]
fn parse_reports_errors() {
    assert_eq!(parse_configurations("").unwrap_err(), "expected integer");
    assert_eq!(parse_configurations("x").unwrap_err(), "expected integer");
    assert_eq!(parse_configurations("1\n").unwrap_err(), "unexpected end of config data");
    assert_eq!(parse_configurations("1\nx").unwrap_err(), "unknown configuration node UID: 'x'");
    assert_eq!(parse_configurations("1\n'").unwrap_err(), "unknown configuration node UID: '\\''");
    assert_eq!(parse_configurations("1\n\n").unwrap_err(), "unknown configuration node UID: '\\n'");
    assert_eq!(parse_configurations("1\na").unwrap_err(), "unexpected end");
    assert_eq!(
        parse_configurations("99999999999999999999999\n").unwrap_err(),
        "parse error: number too large to fit in target type"
    );
    assert_eq!(
        parse_configurations("1\nc  not a cpe \n").unwrap_err(),
        "invalid CPE formatted string: not a cpe"
    );
    assert_eq!(
        parse_configurations("1\nvI\nO\naO0\n").unwrap_err(),
        "VersionRange wraps non-CPE node: And { children: [], negate: false }"
    );
}

#[test]
fn non_cpe_range_message_shows_the_node() {
    let text = "1\nvO\nI\n!ccpe:2.3:a:b\"q:c:d:e:f:g:h:i:j:k\n";
    let expected = ConfigurationNode::Negate(Box::new(ConfigurationNode::Cpe(
        cvedb::cve::parse_cpe_fs("cpe:2.3:a:b\"q:c:d:e:f:g:h:i:j:k").unwrap(),
    )));
    assert_eq!(
        parse_configurations(text).unwrap_err(),
        format!("VersionRange wraps non-CPE node: {:?}", expected)
    );
    let nested = ConfigurationNode::Or {
        children: vec![
            ConfigurationNode::And { children: vec![], negate: true },
            ConfigurationNode::VersionRange {
                wrapped: codec_cpe(Some("x"), None),
                start: Some("1".to_string()),
                end: None,
                include_start: false,
                include_end: true,
            },
        ],
        negate: false,
    };
    let stored = serialize_configurations(&[nested]);
    let wrapped_text = format!("1\nvI\nO\n{}", &stored[2..]);
    let inner = parse_configurations(&stored).unwrap().pop().unwrap();
    assert_eq!(
        parse_configurations(&wrapped_text).unwrap_err(),
        format!("VersionRange wraps non-CPE node: {:?}", inner)
    );
}

#[test]
fn parse_handles_wrappers_and_spacing() {
    let one = parse_configurations("1\nC1\nc  cpe:2.3:a:b:c:d:e:f:g:h:i:j:k  \n").unwrap();
    assert_eq!(one.len(), 1);
    match &one[0] {
        ConfigurationNode::Cpe(c) => {
            assert_eq!(c.part.as_deref(), Some("a"));
            assert_eq!(c.other.as_deref(), Some("k"));
        }
        other => panic!("unexpected node {:?}", other),
    }
    let two = parse_configurations(
        "1\nC2\nccpe:2.3:a:b:c:d:e:f:g:h:i:j:k\nccpe:2.3:o:b:c:d:e:f:g:h:i:j:k\n",
    )
    .unwrap();
    match &two[0] {
        ConfigurationNode::Or { children, negate } => {
            assert_eq!(children.len(), 2);
            assert!(!*negate);
        }
        other => panic!("unexpected node {:?}", other),
    }
    let no_newline = parse_configurations("0").unwrap();
    assert!(no_newline.is_empty());
    let flag = parse_configurations("1\naX0\n").unwrap();
    match &flag[0] {
        ConfigurationNode::And { negate, .. } => assert!(!*negate),
        other => panic!("unexpected node {:?}", other),
    }
}

#[test]
fn complete_trees_read_back_exactly() {
    let full = parse_cpe_fs_full("cpe:2.3:a:apache:log4j:2.14.1:*:*:*:*:*:*:-");
    let nodes = vec![
        ConfigurationNode::And {
            children: vec![
                ConfigurationNode::Cpe(full.clone()),
                ConfigurationNode::Negate(Box::new(ConfigurationNode::Cpe(full.clone()))),
            ],
            negate: true,
        },
        ConfigurationNode::VersionRange {
            wrapped: full,
            start: None,
            end: Some("2.15.0".to_string()),
            include_start: false,
            include_end: false,
        },
    ];
    let back = parse_configurations(&serialize_configurations(&nodes)).unwrap();
    assert_eq!(format!("{:?}", back), format!("{:?}", nodes));
}

fn parse_cpe_fs_full(s: &str) -> CPE {
    cvedb::cve::parse_cpe_fs(s).unwrap()
}
