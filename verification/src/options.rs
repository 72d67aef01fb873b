//! The search that the command-line options ask for, and the results that it keeps.
use vstd::prelude::*;
use crate::cve::{
    cpe_fields, cpe_matches, field_matches, node_matches, node_view, opt_view, time_le, utc_day, CpeView, Timestamp,
    CPE, CVE,
};
use crate::nvd::somes;
use crate::search::{query_matches, query_view, sort_of_name, term_matches, DateField, QueryView, SearchQuery, Sort};

verus! {

broadcast use vstd::seq::group_seq_axioms;

/// The search options of the command line, with their dates already read.
#[derive(Debug)]
pub struct SearchOptions {
    pub terms: Vec<String>,
    pub after: Option<Timestamp>,
    pub before: Option<Timestamp>,
    pub modified_after: Option<Timestamp>,
    pub modified_before: Option<Timestamp>,
    pub vendor: Option<String>,
    pub software_version: Option<String>,
}

/// A date filter, when its date is given.
pub open spec fn date_part(d: Option<Timestamp>, field: DateField, before: bool) -> Seq<QueryView> {
    match d {
        Some(date) => seq![
            if before {
                QueryView::BeforeDate { field, date }
            } else {
                QueryView::AfterDate { field, date }
            },
        ],
        None => Seq::empty(),
    }
}

/// The CPE name that the vendor and version options describe; every other attribute is a
/// wildcard.
pub open spec fn option_cpe(vendor: Option<String>, version: Option<String>) -> CpeView {
    CpeView {
        part: None,
        vendor: opt_view(vendor),
        product: None,
        version: opt_view(version),
        update: None,
        edition: None,
        lang: None,
        sw_edition: None,
        target_sw: None,
        target_hw: None,
        other: None,
    }
}

/// The parts of the search that the options ask for, in order: a case-insensitive term for
/// each search term, the four date filters, then a CPE filter when a vendor or a version is
/// given.
pub open spec fn option_parts(o: SearchOptions) -> Seq<QueryView> {
    o.terms@.map_values(|t: String| QueryView::Term { query: t@, case_sensitive: false })
        + date_part(o.after, DateField::Published, false) + date_part(
        o.before,
        DateField::Published,
        true,
    ) + date_part(o.modified_after, DateField::LastModified, false) + date_part(
        o.modified_before,
        DateField::LastModified,
        true,
    ) + if o.vendor is Some || o.software_version is Some {
        seq![QueryView::CPE { cpe: option_cpe(o.vendor, o.software_version) }]
    } else {
        Seq::empty()
    }
}

/// The query of some parts: none for no part, the part itself for one, their conjunction
/// for more.
pub open spec fn combined(parts: Seq<QueryView>) -> Option<QueryView> {
    if parts.len() == 0 {
        None
    } else if parts.len() == 1 {
        Some(parts[0])
    } else {
        Some(QueryView::And(parts))
    }
}

fn push_date(parts: &mut Vec<SearchQuery>, d: Option<Timestamp>, field: DateField, before: bool)
    ensures
        Seq::new(final(parts)@.len(), |i: int| query_view(final(parts)@[i])) == Seq::new(
            old(parts)@.len(),
            |i: int| query_view(old(parts)@[i]),
        ) + date_part(d, field, before),
{
    let ghost before_parts = parts@;
    match d {
        Some(date) => {
            if before {
                parts.push(SearchQuery::BeforeDate { field, date });
            } else {
                parts.push(SearchQuery::AfterDate { field, date });
            }
            assert(Seq::new(parts@.len(), |i: int| query_view(parts@[i])) =~= Seq::new(
                before_parts.len(),
                |i: int| query_view(before_parts[i]),
            ) + date_part(d, field, before));
        },
        None => {
            assert(Seq::new(parts@.len(), |i: int| query_view(parts@[i])) =~= Seq::new(
                before_parts.len(),
                |i: int| query_view(before_parts[i]),
            ) + date_part(d, field, before));
        },
    }
}

/// The search that the options ask for; none when they ask for nothing.
pub fn build_query(options: SearchOptions) -> (r: Option<SearchQuery>)
    ensures
        match combined(option_parts(options)) {
            None => r is None,
            Some(v) => r matches Some(q) && query_view(q) == v,
        },
{
    let ghost want = option_parts(options);
    let ghost terms_v = options.terms@.map_values(|t: String| QueryView::Term { query: t@, case_sensitive: false });
    let mut parts: Vec<SearchQuery> = Vec::new();
    let ghost ts = options.terms@;
    assert(options.terms.len() == ts.len());
    for term in it: options.terms.into_iter()
        invariant
            ts == it.seq(),
            terms_v == ts.map_values(|t: String| QueryView::Term { query: t@, case_sensitive: false }),
            Seq::new(parts@.len(), |i: int| query_view(parts@[i])) == terms_v.take(it.index() as int),
    {
        let ghost k = it.index() as int;
        let ghost before = parts@;
        proof {
            assert(ts[k] == term);
        }
        parts.push(SearchQuery::Term { query: term, case_sensitive: false });
        proof {
            assert(terms_v.take(k + 1) =~= terms_v.take(k).push(terms_v[k]));
            assert(Seq::new(parts@.len(), |i: int| query_view(parts@[i])) =~= Seq::new(
                before.len(),
                |i: int| query_view(before[i]),
            ).push(terms_v[k]));
        }
    }
    assert(terms_v.take(ts.len() as int) =~= terms_v);
    push_date(&mut parts, options.after, DateField::Published, false);
    push_date(&mut parts, options.before, DateField::Published, true);
    push_date(&mut parts, options.modified_after, DateField::LastModified, false);
    push_date(&mut parts, options.modified_before, DateField::LastModified, true);
    let has_cpe = options.vendor.is_some() || options.software_version.is_some();
    if has_cpe {
        let cpe = CPE {
            part: None,
            vendor: options.vendor,
            product: None,
            version: options.software_version,
            update: None,
            edition: None,
            lang: None,
            sw_edition: None,
            target_sw: None,
            target_hw: None,
            other: None,
        };
        parts.push(SearchQuery::CPE { cpe });
    }
    let ghost pv = Seq::new(parts@.len(), |i: int| query_view(parts@[i]));
    proof {
        assert(pv =~= want);
    }
    if parts.len() == 0 {
        None
    } else if parts.len() == 1 {
        parts.pop()
    } else {
        let q = SearchQuery::And(parts);
        assert(query_view(q)->0 =~= pv);
        Some(q)
    }
}

/// The query that a search without options runs: an empty case-insensitive term.
pub fn match_all() -> (q: SearchQuery)
    ensures
        query_view(q) == (QueryView::Term { query: Seq::empty(), case_sensitive: false }),
{
    SearchQuery::Term { query: String::new(), case_sensitive: false }
}

/// The sort keys that the names select, in order; names of no key are skipped.
pub fn parse_sorts(names: &[String]) -> (r: Vec<Sort>)
    ensures
        r@ == somes(names@.map_values(|n: String| sort_of_name(n@))),
{
    let ghost opts = names@.map_values(|n: String| sort_of_name(n@));
    let mut sorts: Vec<Sort> = Vec::new();
    let mut i: usize = 0;
    assert(opts.take(0) =~= Seq::<Option<Sort>>::empty());
    while i < names.len()
        invariant
            i <= names@.len(),
            opts == names@.map_values(|n: String| sort_of_name(n@)),
            sorts@ == somes(opts.take(i as int)),
        decreases names.len() - i,
    {
        assert(opts.take(i + 1).drop_last() =~= opts.take(i as int));
        match Sort::from_name(names[i].as_str()) {
            Some(s) => sorts.push(s),
            None => {},
        }
        i += 1;
    }
    assert(opts.take(i as int) =~= opts);
    sorts
}

/// The records that a query keeps, in order, each with what it carries.
pub open spec fn kept<T>(q: QueryView, records: Seq<(CVE, T)>) -> Seq<(CVE, T)>
    decreases records.len(),
{
    if records.len() == 0 {
        Seq::empty()
    } else {
        let r = kept(q, records.drop_last());
        if query_matches(q, records.last().0) {
            r.push(records.last())
        } else {
            r
        }
    }
}

/// The records that match the query, in order, each with what it carries; all of them when
/// there is no query.
pub fn filter_matches<T>(query: &Option<SearchQuery>, records: Vec<(CVE, T)>) -> (r: Vec<(CVE, T)>)
    ensures
        r@ == match query {
            Some(q) => kept(query_view(*q), records@),
            None => records@,
        },
{
    match query {
        None => records,
        Some(q) => {
            let ghost cs = records@;
            let ghost qv = query_view(*q);
            let mut out: Vec<(CVE, T)> = Vec::new();
            assert(records.len() == cs.len());
            for record in it: records.into_iter()
                invariant
                    cs == it.seq(),
                    qv == query_view(*q),
                    out@ == kept(qv, cs.take(it.index() as int)),
            {
                let ghost k = it.index() as int;
                proof {
                    assert(cs[k] == record);
                    assert(cs.take(k + 1).drop_last() =~= cs.take(k));
                }
                if q.matches(&record.0) {
                    out.push(record);
                }
            }
            assert(cs.take(cs.len() as int) =~= cs);
            out
        },
    }
}

/// The options of a search combine by conjunction: their query matches a record exactly
/// when every part does.
pub proof fn law_options_conjunction(parts: Seq<QueryView>, c: CVE)
    requires
        parts.len() > 0,
    ensures
        combined(parts) is Some,
        query_matches(combined(parts)->0, c) <==> forall|i: int|
            0 <= i < parts.len() ==> #[trigger] query_matches(parts[i], c),
{
    if parts.len() == 1 {
        assert(combined(parts)->0 == parts[0]);
        if query_matches(parts[0], c) {
            assert forall|i: int| 0 <= i < parts.len() implies #[trigger] query_matches(parts[i], c) by {
                assert(i == 0);
            }
        }
        if forall|i: int| 0 <= i < parts.len() ==> #[trigger] query_matches(parts[i], c) {
            assert(query_matches(parts[0], c));
        }
    } else {
        let q = QueryView::And(parts);
        assert(combined(parts)->0 == q);
        assert(q->0 == parts);
        if query_matches(q, c) {
            assert forall|i: int| 0 <= i < parts.len() implies #[trigger] query_matches(parts[i], c) by {
                assert(q->0[i] == parts[i]);
            }
        }
        if forall|i: int| 0 <= i < parts.len() ==> #[trigger] query_matches(parts[i], c) {
            assert forall|i: int| 0 <= i < q->0.len() implies query_matches(#[trigger] q->0[i], c) by {
                assert(q->0[i] == parts[i]);
                assert(query_matches(parts[i], c));
            }
            assert(query_matches(q, c));
        }
    }
}

/// Whether every query of some parts matches a record.
pub open spec fn all_match(parts: Seq<QueryView>, c: CVE) -> bool {
    forall|i: int| 0 <= i < parts.len() ==> #[trigger] query_matches(parts[i], c)
}

proof fn lemma_all_match_concat(a: Seq<QueryView>, b: Seq<QueryView>, c: CVE)
    ensures
        all_match(a + b, c) == (all_match(a, c) && all_match(b, c)),
{
    if all_match(a + b, c) {
        assert forall|i: int| 0 <= i < a.len() implies #[trigger] query_matches(a[i], c) by {
            assert((a + b)[i] == a[i]);
        }
        assert forall|i: int| 0 <= i < b.len() implies #[trigger] query_matches(b[i], c) by {
            assert((a + b)[a.len() + i] == b[i]);
        }
    }
    if all_match(a, c) && all_match(b, c) {
        assert forall|i: int| 0 <= i < (a + b).len() implies #[trigger] query_matches((a + b)[i], c) by {
            if i < a.len() {
                assert((a + b)[i] == a[i]);
            } else {
                assert((a + b)[i] == b[i - a.len()]);
            }
        }
    }
}

proof fn lemma_all_match_date(d: Option<Timestamp>, field: DateField, before: bool, c: CVE)
    ensures
        all_match(date_part(d, field, before), c) == match d {
            Some(date) => query_matches(date_part(d, field, before)[0], c),
            None => true,
        },
{
    if d is Some {
        if query_matches(date_part(d, field, before)[0], c) {
            assert forall|i: int| 0 <= i < date_part(d, field, before).len() implies #[trigger] query_matches(
                date_part(d, field, before)[i],
                c,
            ) by {
                assert(i == 0);
            }
        }
    }
}

/// The search that the options ask for keeps a record exactly when every search term occurs
/// in it (case-insensitively), it was published at or after `after` and on or before the day
/// of `before`, it was last modified at or after `modified_after` and on or before the day of
/// `modified_before`, and, when a vendor or a version is given, one of its configuration
/// trees applies to the CPE name that they describe. Options that ask for nothing give no
/// search.
pub proof fn law_options_filter(o: SearchOptions, c: CVE)
    ensures
        combined(option_parts(o)) is None <==> (o.terms@.len() == 0 && o.after is None && o.before is None
            && o.modified_after is None && o.modified_before is None && o.vendor is None
            && o.software_version is None),
        match combined(option_parts(o)) {
            None => true,
            Some(q) => query_matches(q, c) <==> {
                &&& forall|i: int|
                    0 <= i < o.terms@.len() ==> term_matches(#[trigger] o.terms@[i]@, false, c)
                &&& match o.after {
                    Some(d) => time_le(d, c.published),
                    None => true,
                }
                &&& match o.before {
                    Some(d) => utc_day(c.published) <= utc_day(d),
                    None => true,
                }
                &&& match o.modified_after {
                    Some(d) => time_le(d, c.last_modified),
                    None => true,
                }
                &&& match o.modified_before {
                    Some(d) => utc_day(c.last_modified) <= utc_day(d),
                    None => true,
                }
                &&& (o.vendor is Some || o.software_version is Some) ==> exists|i: int|
                    0 <= i < c.configurations@.len() && node_matches(
                        node_view(#[trigger] c.configurations@[i]),
                        option_cpe(o.vendor, o.software_version),
                    )
            },
        },
{
    let t = o.terms@.map_values(|t: String| QueryView::Term { query: t@, case_sensitive: false });
    let a = date_part(o.after, DateField::Published, false);
    let b = date_part(o.before, DateField::Published, true);
    let ma = date_part(o.modified_after, DateField::LastModified, false);
    let mb = date_part(o.modified_before, DateField::LastModified, true);
    let e = if o.vendor is Some || o.software_version is Some {
        seq![QueryView::CPE { cpe: option_cpe(o.vendor, o.software_version) }]
    } else {
        Seq::<QueryView>::empty()
    };
    let parts = option_parts(o);
    assert(parts == t + a + b + ma + mb + e);
    if parts.len() > 0 {
        law_options_conjunction(parts, c);
        assert(query_matches(combined(parts)->0, c) == all_match(parts, c));
        lemma_all_match_concat(t + a + b + ma + mb, e, c);
        lemma_all_match_concat(t + a + b + ma, mb, c);
        lemma_all_match_concat(t + a + b, ma, c);
        lemma_all_match_concat(t + a, b, c);
        lemma_all_match_concat(t, a, c);
        lemma_all_match_date(o.after, DateField::Published, false, c);
        lemma_all_match_date(o.before, DateField::Published, true, c);
        lemma_all_match_date(o.modified_after, DateField::LastModified, false, c);
        lemma_all_match_date(o.modified_before, DateField::LastModified, true, c);
        if all_match(t, c) {
            assert forall|i: int| 0 <= i < o.terms@.len() implies term_matches(#[trigger] o.terms@[i]@, false, c) by {
                assert(query_matches(t[i], c));
            }
        }
        if forall|i: int| 0 <= i < o.terms@.len() ==> term_matches(#[trigger] o.terms@[i]@, false, c) {
            assert forall|i: int| 0 <= i < t.len() implies #[trigger] query_matches(t[i], c) by {
                assert(term_matches(o.terms@[i]@, false, c));
            }
        }
        if e.len() > 0 {
            if query_matches(e[0], c) {
                assert forall|i: int| 0 <= i < e.len() implies #[trigger] query_matches(e[i], c) by {
                    assert(i == 0);
                }
            }
        }
    }
}

/// Filtering keeps exactly the records that match, in their order.
pub proof fn law_filter_keeps_matches<T>(q: QueryView, cves: Seq<(CVE, T)>)
    ensures
        forall|i: int| 0 <= i < kept(q, cves).len() ==> query_matches(q, #[trigger] kept(q, cves)[i].0),
        forall|i: int| 0 <= i < cves.len() && query_matches(q, (#[trigger] cves[i]).0) ==> kept(q, cves).contains(
            cves[i],
        ),
        kept(q, cves).len() <= cves.len(),
        (forall|i: int| 0 <= i < cves.len() ==> query_matches(q, #[trigger] cves[i].0)) ==> kept(q, cves) == cves,
    decreases cves.len(),
{
    if cves.len() > 0 {
        law_filter_keeps_matches(q, cves.drop_last());
        let r = kept(q, cves.drop_last());
        if query_matches(q, cves.last().0) {
            assert(kept(q, cves) == r.push(cves.last()));
            assert forall|i: int| 0 <= i < kept(q, cves).len() implies query_matches(q, #[trigger] kept(q, cves)[i].0) by {
                if i < r.len() {
                    assert(kept(q, cves)[i] == r[i]);
                }
            }
        }
        assert forall|i: int| 0 <= i < cves.len() && query_matches(q, (#[trigger] cves[i]).0) implies kept(
            q,
            cves,
        ).contains(cves[i]) by {
            if i < cves.len() - 1 {
                assert(cves.drop_last()[i] == cves[i]);
                let k = choose|k: int| 0 <= k < r.len() && r[k] == cves[i];
                if query_matches(q, cves.last().0) {
                    assert(kept(q, cves)[k] == r[k]);
                }
            } else {
                assert(kept(q, cves)[kept(q, cves).len() - 1] == cves[i]);
            }
        }
        if forall|i: int| 0 <= i < cves.len() ==> query_matches(q, #[trigger] cves[i].0) {
            assert forall|i: int| 0 <= i < cves.drop_last().len() implies query_matches(q, #[trigger] cves.drop_last()[i].0) by {
                assert(cves.drop_last()[i] == cves[i]);
            }
            assert(query_matches(q, cves[cves.len() - 1].0));
            assert(cves.drop_last().push(cves.last()) =~= cves);
        }
    }
}

/// The CPE filter of the vendor and version options matches a CPE name exactly when the
/// vendor and the version agree with it; its other attributes are wildcards.
pub proof fn law_option_cpe_matches(
    vendor: Option<String>,
    version: Option<String>,
    c: CpeView,
)
    ensures
        cpe_matches(option_cpe(vendor, version), c) <==> (field_matches(
            opt_view(vendor),
            c.vendor,
        ) && field_matches(opt_view(version), c.version)),
{
    let a = option_cpe(vendor, version);
    let fa = cpe_fields(a);
    let fc = cpe_fields(c);
    if field_matches(opt_view(vendor), c.vendor) && field_matches(
        opt_view(version),
        c.version,
    ) {
        assert forall|i: int| 0 <= i < 11 implies #[trigger] field_matches(fa[i], fc[i]) by {
            if i != 1 && i != 3 {
                assert(fa[i] is None);
            }
        }
    }
    if cpe_matches(a, c) {
        assert(field_matches(fa[1], fc[1]));
        assert(field_matches(fa[3], fc[3]));
    }
}

} // verus!
