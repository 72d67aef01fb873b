use cvedb::cve::Severity;
use cvedb::display::{first_line, severity_badge, BadgeColor};

#[test]
fn badges_of_severities() {
    assert_eq!(severity_badge(Severity::Critical), (BadgeColor::Red, "CRITICAL"));
    assert_eq!(severity_badge(Severity::High), (BadgeColor::Red, "HIGH"));
    assert_eq!(severity_badge(Severity::Medium), (BadgeColor::Yellow, "MEDIUM"));
    assert_eq!(severity_badge(Severity::Low), (BadgeColor::Green, "LOW"));
    assert_eq!(severity_badge(Severity::Zero), (BadgeColor::Cyan, "NONE"));
    assert_eq!(severity_badge(Severity::Unknown), (BadgeColor::Cyan, "UNKNOWN"));
}

#[test]
fn first_lines_as_lines_yields_them() {
    for s in ["", "one", "one\ntwo", "one\r\ntwo", "\nrest", "a\r", "\r\n", "x\n"] {
        assert_eq!(first_line(s), s.lines().next().map(|l| l.to_string()), "text {:?}", s);
    }
    assert_eq!(first_line("one\r\ntwo").as_deref(), Some("one"));
    assert_eq!(first_line("").as_deref(), None);
}
