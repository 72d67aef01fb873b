//! Search queries over CVE records and the orders in which results can be sorted.
use vstd::prelude::*;
use crate::cve::{node_matches, node_view, time_le, utc_day, CpeView, Timestamp, CPE, CVE};
use crate::text::{contains_str, has_substring, str_eq};

verus! {

/// A key by which search results can be sorted.
#[derive(Debug, Clone, Copy, PartialEq, Eq, Structural)]
pub enum Sort {
    CVEId,
    PublishedDate,
    LastModifiedDate,
    Impact,
    Severity,
}

/// The sort key that a name on the command line selects.
pub open spec fn sort_of_name(s: Seq<char>) -> Option<Sort> {
    if s == seq!['c', 'v', 'e'] {
        Some(Sort::CVEId)
    } else if s == seq!['m', 'o', 'd', 'i', 'f', 'i', 'e', 'd'] {
        Some(Sort::LastModifiedDate)
    } else if s == seq!['p', 'u', 'b', 'l', 'i', 's', 'h', 'e', 'd'] {
        Some(Sort::PublishedDate)
    } else if s == seq!['i', 'm', 'p', 'a', 'c', 't'] {
        Some(Sort::Impact)
    } else if s == seq!['s', 'e', 'v', 'e', 'r', 'i', 't', 'y'] {
        Some(Sort::Severity)
    } else {
        None
    }
}

impl Sort {
    /// The sort key named `s`: `cve`, `modified`, `published`, `impact` or `severity`.
    pub fn from_name(s: &str) -> (r: Option<Self>)
        ensures
            r == sort_of_name(s@),
    {
        proof {
            reveal_strlit("cve");
            reveal_strlit("modified");
            reveal_strlit("published");
            reveal_strlit("impact");
            reveal_strlit("severity");
            assert("cve"@ =~= seq!['c', 'v', 'e']);
            assert("modified"@ =~= seq!['m', 'o', 'd', 'i', 'f', 'i', 'e', 'd']);
            assert("published"@ =~= seq!['p', 'u', 'b', 'l', 'i', 's', 'h', 'e', 'd']);
            assert("impact"@ =~= seq!['i', 'm', 'p', 'a', 'c', 't']);
            assert("severity"@ =~= seq!['s', 'e', 'v', 'e', 'r', 'i', 't', 'y']);
        }
        if str_eq(s, "cve") {
            Some(Sort::CVEId)
        } else if str_eq(s, "modified") {
            Some(Sort::LastModifiedDate)
        } else if str_eq(s, "published") {
            Some(Sort::PublishedDate)
        } else if str_eq(s, "impact") {
            Some(Sort::Impact)
        } else if str_eq(s, "severity") {
            Some(Sort::Severity)
        } else {
            None
        }
    }
}

/// Which date of a CVE a date filter reads.
#[derive(Debug, Clone, Copy, PartialEq, Eq, Structural)]
pub enum DateField {
    Published,
    LastModified,
}

/// A search query over CVE records.
#[derive(Debug)]
pub enum SearchQuery {
    Term { query: String, case_sensitive: bool },
    BeforeDate { field: DateField, date: Timestamp },
    AfterDate { field: DateField, date: Timestamp },
    CPE { cpe: CPE },
    And(Vec<SearchQuery>),
}

/// A search query, with characters in place of strings.
pub enum QueryView {
    Term { query: Seq<char>, case_sensitive: bool },
    BeforeDate { field: DateField, date: Timestamp },
    AfterDate { field: DateField, date: Timestamp },
    CPE { cpe: CpeView },
    And(Seq<QueryView>),
}

/// The view of a search query.
pub open spec fn query_view(q: SearchQuery) -> QueryView
    decreases q,
{
    match q {
        SearchQuery::Term { query, case_sensitive } => QueryView::Term { query: query@, case_sensitive },
        SearchQuery::BeforeDate { field, date } => QueryView::BeforeDate { field, date },
        SearchQuery::AfterDate { field, date } => QueryView::AfterDate { field, date },
        SearchQuery::CPE { cpe } => QueryView::CPE { cpe: cpe@ },
        SearchQuery::And(qs) => QueryView::And(
            Seq::new(
                qs@.len(),
                |i: int|
                    if 0 <= i < qs@.len() {
                        query_view(qs@[i])
                    } else {
                        QueryView::And(Seq::empty())
                    },
            ),
        ),
    }
}

/// Lowercase text, as `str::to_lowercase` gives it.
pub uninterp spec fn lowercase(s: Seq<char>) -> Seq<char>;

/// Lowercases a string.
///
/// Calls `str::to_lowercase`, which maps each character to its Unicode lowercase form; the
/// contract ties the result to the argument through the name `lowercase`, and says that the
/// empty string lowercases to the empty string.
#[verifier::external_body]
fn to_lower(s: &str) -> (r: String)
    ensures
        r@ == lowercase(s@),
        s@.len() == 0 ==> r@.len() == 0,
{
    s.to_lowercase()
}

/// A text as a term compares it: unchanged when the search is case sensitive, else lowercased.
pub open spec fn folded(s: Seq<char>, case_sensitive: bool) -> Seq<char> {
    if case_sensitive {
        s
    } else {
        lowercase(s)
    }
}

/// Whether an optional text holds the term `q` once folded.
pub open spec fn opt_has(o: Option<String>, case_sensitive: bool, q: Seq<char>) -> bool {
    match o {
        Some(s) => has_substring(folded(s@, case_sensitive), q),
        None => false,
    }
}

/// Whether a search term occurs in a description, the id, a reference name or URL, or the
/// assigner of a CVE. The assigner is compared as it stands, without lowercasing.
pub open spec fn term_matches(query: Seq<char>, case_sensitive: bool, c: CVE) -> bool {
    let q = folded(query, case_sensitive);
    ||| exists|i: int|
        0 <= i < c.descriptions@.len() && has_substring(
            folded(#[trigger] c.descriptions@[i].value@, case_sensitive),
            q,
        )
    ||| has_substring(folded(c.cve_id@, case_sensitive), q)
    ||| exists|i: int|
        0 <= i < c.references@.len() && (opt_has(#[trigger] c.references@[i].name, case_sensitive, q)
            || opt_has(c.references@[i].url, case_sensitive, q))
    ||| match c.assigner {
        Some(a) => has_substring(a@, q),
        None => false,
    }
}

/// The date of a CVE that a date filter reads.
pub open spec fn date_of(field: DateField, c: CVE) -> Timestamp {
    match field {
        DateField::Published => c.published,
        DateField::LastModified => c.last_modified,
    }
}

/// Whether a query matches a CVE. `BeforeDate` compares UTC calendar days and includes the
/// whole day of its date; `AfterDate` compares instants and includes the instant itself.
pub open spec fn query_matches(q: QueryView, c: CVE) -> bool
    decreases q,
{
    match q {
        QueryView::Term { query, case_sensitive } => term_matches(query, case_sensitive, c),
        QueryView::BeforeDate { field, date } => utc_day(date_of(field, c)) <= utc_day(date),
        QueryView::AfterDate { field, date } => time_le(date, date_of(field, c)),
        QueryView::CPE { cpe } => exists|i: int|
            0 <= i < c.configurations@.len() && node_matches(
                node_view(#[trigger] c.configurations@[i]),
                cpe,
            ),
        QueryView::And(qs) => forall|i: int| 0 <= i < qs.len() ==> query_matches(#[trigger] qs[i], c),
    }
}

fn fold_text(s: &str, case_sensitive: bool) -> (r: String)
    ensures
        r@ == folded(s@, case_sensitive),
        s@.len() == 0 ==> r@.len() == 0,
{
    if case_sensitive {
        s.to_owned()
    } else {
        to_lower(s)
    }
}

fn opt_contains(o: &Option<String>, case_sensitive: bool, q: &str) -> (r: bool)
    ensures
        r == opt_has(*o, case_sensitive, q@),
{
    match o {
        Some(s) => {
            let t = fold_text(s.as_str(), case_sensitive);
            contains_str(t.as_str(), q)
        },
        None => false,
    }
}

fn term_hit(query: &str, case_sensitive: bool, cve: &CVE) -> (r: bool)
    ensures
        r == term_matches(query@, case_sensitive, *cve),
        query@.len() == 0 ==> r,
{
    let q = fold_text(query, case_sensitive);
    let mut i: usize = 0;
    while i < cve.descriptions.len()
        invariant
            q@ == folded(query@, case_sensitive),
            query@.len() == 0 ==> q@.len() == 0,
            i <= cve.descriptions@.len(),
            forall|j: int|
                0 <= j < i ==> !has_substring(
                    folded(#[trigger] cve.descriptions@[j].value@, case_sensitive),
                    q@,
                ),
        decreases cve.descriptions.len() - i,
    {
        let v = fold_text(cve.descriptions[i].value.as_str(), case_sensitive);
        if contains_str(v.as_str(), q.as_str()) {
            return true;
        }
        i += 1;
    }
    let id = fold_text(cve.cve_id.as_str(), case_sensitive);
    if contains_str(id.as_str(), q.as_str()) {
        return true;
    }
    proof {
        if query@.len() == 0 {
            let w: int = 0;
            assert(id@.subrange(w, w + q@.len()) =~= q@);
            assert(has_substring(id@, q@));
        }
    }
    let mut k: usize = 0;
    while k < cve.references.len()
        invariant
            q@ == folded(query@, case_sensitive),
            k <= cve.references@.len(),
            forall|j: int|
                0 <= j < k ==> !(opt_has(#[trigger] cve.references@[j].name, case_sensitive, q@)
                    || opt_has(cve.references@[j].url, case_sensitive, q@)),
        decreases cve.references.len() - k,
    {
        if opt_contains(&cve.references[k].name, case_sensitive, q.as_str()) {
            return true;
        }
        if opt_contains(&cve.references[k].url, case_sensitive, q.as_str()) {
            return true;
        }
        k += 1;
    }
    match &cve.assigner {
        Some(a) => contains_str(a.as_str(), q.as_str()),
        None => false,
    }
}

impl SearchQuery {
    /// Whether this query matches `cve`.
    pub fn matches(&self, cve: &CVE) -> (r: bool)
        ensures
            r == query_matches(query_view(*self), *cve),
            (query_view(*self) matches QueryView::Term { query, .. } && query.len() == 0) ==> r,
        decreases self,
    {
        match self {
            SearchQuery::Term { query, case_sensitive } => term_hit(query.as_str(), *case_sensitive, cve),
            SearchQuery::BeforeDate { field, date } => {
                let dt = match field {
                    DateField::Published => &cve.published,
                    DateField::LastModified => &cve.last_modified,
                };
                dt.day() <= date.day()
            },
            SearchQuery::AfterDate { field, date } => {
                let dt = match field {
                    DateField::Published => &cve.published,
                    DateField::LastModified => &cve.last_modified,
                };
                date.is_at_or_before(dt)
            },
            SearchQuery::CPE { cpe } => {
                let mut i: usize = 0;
                while i < cve.configurations.len()
                    invariant
                        i <= cve.configurations@.len(),
                        *self == (SearchQuery::CPE { cpe: *cpe }),
                        forall|j: int|
                            0 <= j < i ==> !node_matches(
                                node_view(#[trigger] cve.configurations@[j]),
                                cpe@,
                            ),
                    decreases cve.configurations.len() - i,
                {
                    if cve.configurations[i].matches(cpe) {
                        assert(node_matches(node_view(cve.configurations@[i as int]), cpe@));
                        assert(query_view(*self) == (QueryView::CPE { cpe: cpe@ }));
                        return true;
                    }
                    i += 1;
                }
                false
            },
            SearchQuery::And(queries) => {
                let mut i: usize = 0;
                while i < queries.len()
                    invariant
                        i <= queries@.len(),
                        *self == SearchQuery::And(*queries),
                        forall|j: int| 0 <= j < i ==> query_matches(#[trigger] query_view(queries@[j]), *cve),
                    decreases queries.len() - i,
                {
                    proof {
                        let ghost qs: Vec<SearchQuery> = *queries;
                        assert(decreases_to!(qs@ => qs@[i as int]));
                        assert(decreases_to!(qs => qs@));
                        assert(self->0 == qs);
                        assert(decreases_to!(*self => self->0));
                    }
                    if !queries[i].matches(cve) {
                        proof {
                            let ch = query_view(*self)->0;
                            assert(ch[i as int] == query_view(queries@[i as int]));
                        }
                        return false;
                    }
                    i += 1;
                }
                proof {
                    let ch = query_view(*self)->0;
                    assert forall|j: int| 0 <= j < ch.len() implies query_matches(#[trigger] ch[j], *cve) by {
                        assert(ch[j] == query_view(queries@[j]));
                    }
                }
                true
            },
        }
    }
}

/// Date filters include their bound: a record dated exactly `date` passes both the filter
/// before and the filter after that date, and `BeforeDate` passes the whole UTC day of it.
pub proof fn law_date_bounds_inclusive(field: DateField, date: Timestamp, c: CVE)
    requires
        utc_day(date_of(field, c)) == utc_day(date),
    ensures
        query_matches(QueryView::BeforeDate { field, date }, c),
        date_of(field, c) == date ==> query_matches(QueryView::AfterDate { field, date }, c),
{
}

/// A CPE query matches a record exactly when one of the record's configuration trees,
/// whichever it is, applies to the queried CPE name.
pub proof fn law_cpe_query_any_configuration(cpe: CpeView, c: CVE)
    ensures
        forall|i: int|
            0 <= i < c.configurations@.len() && node_matches(node_view(#[trigger] c.configurations@[i]), cpe)
                ==> query_matches(QueryView::CPE { cpe }, c),
        query_matches(QueryView::CPE { cpe }, c) ==> exists|i: int|
            0 <= i < c.configurations@.len() && node_matches(node_view(#[trigger] c.configurations@[i]), cpe),
{
}

/// Adding configuration trees to a record never makes a CPE query that matched it stop
/// matching.
pub proof fn law_cpe_query_monotone(cpe: CpeView, c1: CVE, c2: CVE)
    requires
        c1.configurations@.len() <= c2.configurations@.len(),
        forall|i: int| 0 <= i < c1.configurations@.len() ==> #[trigger] c1.configurations@[i]
            == c2.configurations@[i],
        query_matches(QueryView::CPE { cpe }, c1),
    ensures
        query_matches(QueryView::CPE { cpe }, c2),
{
    let i = choose|i: int|
        0 <= i < c1.configurations@.len() && node_matches(node_view(#[trigger] c1.configurations@[i]), cpe);
    assert(c1.configurations@[i] == c2.configurations@[i]);
}

/// A search term matches a record exactly when, after lowercasing both sides unless the
/// search is case sensitive, it occurs in some description, in the id, or in some reference
/// name or URL, or (as written, without lowercasing the assigner) in the assigner; a term that
/// occurs in none of them does not match.
pub proof fn law_term_occurrences(query: Seq<char>, case_sensitive: bool, c: CVE)
    ensures
        forall|i: int|
            0 <= i < c.descriptions@.len() && has_substring(
                if case_sensitive {
                    (#[trigger] c.descriptions@[i]).value@
                } else {
                    lowercase(c.descriptions@[i].value@)
                },
                if case_sensitive {
                    query
                } else {
                    lowercase(query)
                },
            ) ==> query_matches(QueryView::Term { query, case_sensitive }, c),
        has_substring(
            if case_sensitive {
                c.cve_id@
            } else {
                lowercase(c.cve_id@)
            },
            if case_sensitive {
                query
            } else {
                lowercase(query)
            },
        ) ==> query_matches(QueryView::Term { query, case_sensitive }, c),
        forall|i: int|
            0 <= i < c.references@.len() && ((#[trigger] c.references@[i]).name matches Some(n)
                && has_substring(
                if case_sensitive {
                    n@
                } else {
                    lowercase(n@)
                },
                if case_sensitive {
                    query
                } else {
                    lowercase(query)
                },
            )) ==> query_matches(QueryView::Term { query, case_sensitive }, c),
        forall|i: int|
            0 <= i < c.references@.len() && ((#[trigger] c.references@[i]).url matches Some(u)
                && has_substring(
                if case_sensitive {
                    u@
                } else {
                    lowercase(u@)
                },
                if case_sensitive {
                    query
                } else {
                    lowercase(query)
                },
            )) ==> query_matches(QueryView::Term { query, case_sensitive }, c),
        (c.assigner matches Some(a) && has_substring(
            a@,
            if case_sensitive {
                query
            } else {
                lowercase(query)
            },
        )) ==> query_matches(QueryView::Term { query, case_sensitive }, c),
        query_matches(QueryView::Term { query, case_sensitive }, c) ==> {
            let q = if case_sensitive {
                query
            } else {
                lowercase(query)
            };
            ||| exists|i: int|
                0 <= i < c.descriptions@.len() && has_substring(
                    if case_sensitive {
                        (#[trigger] c.descriptions@[i]).value@
                    } else {
                        lowercase(c.descriptions@[i].value@)
                    },
                    q,
                )
            ||| has_substring(
                if case_sensitive {
                    c.cve_id@
                } else {
                    lowercase(c.cve_id@)
                },
                q,
            )
            ||| exists|i: int|
                0 <= i < c.references@.len() && ((#[trigger] c.references@[i]).name matches Some(n)
                    && has_substring(
                    if case_sensitive {
                        n@
                    } else {
                        lowercase(n@)
                    },
                    q,
                ))
            ||| exists|i: int|
                0 <= i < c.references@.len() && ((#[trigger] c.references@[i]).url matches Some(u)
                    && has_substring(
                    if case_sensitive {
                        u@
                    } else {
                        lowercase(u@)
                    },
                    q,
                ))
            ||| (c.assigner matches Some(a) && has_substring(a@, q))
        },
{
    let q = folded(query, case_sensitive);
    assert forall|i: int|
        0 <= i < c.descriptions@.len() && has_substring(
            if case_sensitive {
                (#[trigger] c.descriptions@[i]).value@
            } else {
                lowercase(c.descriptions@[i].value@)
            },
            if case_sensitive {
                query
            } else {
                lowercase(query)
            },
        ) implies query_matches(QueryView::Term { query, case_sensitive }, c) by {
        assert(has_substring(folded(c.descriptions@[i].value@, case_sensitive), q));
    }
    assert forall|i: int|
        0 <= i < c.references@.len() && ((#[trigger] c.references@[i]).name matches Some(n)
            && has_substring(
            if case_sensitive {
                n@
            } else {
                lowercase(n@)
            },
            if case_sensitive {
                query
            } else {
                lowercase(query)
            },
        )) implies query_matches(QueryView::Term { query, case_sensitive }, c) by {
        assert(opt_has(c.references@[i].name, case_sensitive, q));
    }
    assert forall|i: int|
        0 <= i < c.references@.len() && ((#[trigger] c.references@[i]).url matches Some(u)
            && has_substring(
            if case_sensitive {
                u@
            } else {
                lowercase(u@)
            },
            if case_sensitive {
                query
            } else {
                lowercase(query)
            },
        )) implies query_matches(QueryView::Term { query, case_sensitive }, c) by {
        assert(opt_has(c.references@[i].url, case_sensitive, q));
    }
}

} // verus!
