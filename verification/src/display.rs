//! What a listed CVE shows: the first line of its description and a severity badge.
use vstd::prelude::*;
use crate::cve::Severity;
use crate::text::{chars_of, string_of};

verus! {

/// The color of a severity badge.
#[derive(Debug, Clone, Copy, PartialEq, Eq, Structural)]
pub enum BadgeColor {
    Red,
    Yellow,
    Green,
    Cyan,
}

/// The color of the badge of a severity.
pub open spec fn badge_color(s: Severity) -> BadgeColor {
    match s {
        Severity::Critical => BadgeColor::Red,
        Severity::High => BadgeColor::Red,
        Severity::Medium => BadgeColor::Yellow,
        Severity::Low => BadgeColor::Green,
        Severity::Zero => BadgeColor::Cyan,
        Severity::Unknown => BadgeColor::Cyan,
    }
}

/// The label of the badge of a severity.
pub open spec fn badge_label(s: Severity) -> Seq<char> {
    match s {
        Severity::Critical => "CRITICAL"@,
        Severity::High => "HIGH"@,
        Severity::Medium => "MEDIUM"@,
        Severity::Low => "LOW"@,
        Severity::Zero => "NONE"@,
        Severity::Unknown => "UNKNOWN"@,
    }
}

/// The color and label of the badge of a severity.
pub fn severity_badge(s: Severity) -> (r: (BadgeColor, &'static str))
    ensures
        r.0 == badge_color(s),
        r.1@ == badge_label(s),
{
    match s {
        Severity::Critical => (BadgeColor::Red, "CRITICAL"),
        Severity::High => (BadgeColor::Red, "HIGH"),
        Severity::Medium => (BadgeColor::Yellow, "MEDIUM"),
        Severity::Low => (BadgeColor::Green, "LOW"),
        Severity::Zero => (BadgeColor::Cyan, "NONE"),
        Severity::Unknown => (BadgeColor::Cyan, "UNKNOWN"),
    }
}

/// The position of the first newline of a text, or its length.
pub open spec fn newline_at(s: Seq<char>) -> int {
    if exists|i: int| 0 <= i < s.len() && s[i] == '\n' {
        choose|i: int| 0 <= i < s.len() && s[i] == '\n' && forall|j: int| 0 <= j < i ==> s[j] != '\n'
    } else {
        s.len() as int
    }
}

/// The first line of a text, as `str::lines` yields it: none for an empty text; otherwise
/// the text up to its first newline, without a carriage return that ends it, or the whole
/// text when it has no newline.
pub open spec fn first_line_of(s: Seq<char>) -> Option<Seq<char>> {
    if s.len() == 0 {
        None
    } else {
        let e = newline_at(s);
        let line = s.subrange(0, e);
        if e < s.len() && line.len() > 0 && line.last() == '\r' {
            Some(line.drop_last())
        } else {
            Some(line)
        }
    }
}

/// The first line of a text, as `str::lines` yields it.
pub fn first_line(s: &str) -> (r: Option<String>)
    ensures
        match first_line_of(s@) {
            Some(l) => r matches Some(x) && x@ == l,
            None => r is None,
        },
{
    let cs = chars_of(s);
    if cs.len() == 0 {
        return None;
    }
    let mut e: usize = 0;
    while e < cs.len() && cs[e] != '\n'
        invariant
            cs@ == s@,
            e <= cs@.len(),
            forall|j: int| 0 <= j < e ==> cs@[j] != '\n',
        decreases cs.len() - e,
    {
        e += 1;
    }
    proof {
        if e < cs@.len() {
            assert(cs@[e as int] == '\n');
            let w = choose|i: int| 0 <= i < s@.len() && s@[i] == '\n' && forall|j: int| 0 <= j < i ==> s@[j] != '\n';
            assert(w == e) by {
                if w < e {
                    assert(cs@[w] != '\n');
                } else if w > e {
                    assert(s@[e as int] != '\n');
                }
            }
            assert(newline_at(s@) == e);
        } else {
            assert(newline_at(s@) == e);
        }
    }
    let mut end = e;
    if e < cs.len() && e > 0 && cs[e - 1] == '\r' {
        end = e - 1;
        assert(s@.subrange(0, e as int).drop_last() =~= s@.subrange(0, end as int));
    }
    Some(string_of(&cs, 0, end))
}

} // verus!
