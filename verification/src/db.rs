//! The database side of searching: the SQL statements a search runs, the schema upgrade
//! steps, and the assembly of CVE records from the rows that come back.
use vstd::prelude::*;
use crate::codec::{parse_configurations, spec_parse_configurations};
use crate::cve::{
    nodes_view, severity_of_code, stored_time, time_or_epoch, Description, NodeView,
    Reference, Severity, CVE,
};
use crate::search::{query_view, DateField, QueryView, SearchQuery, Sort};
use crate::text::{contains_str, has_substring, push_signed, signed_decimal, str_eq};

verus! {

broadcast use vstd::seq::group_seq_axioms;

/// A value bound to a `?` placeholder of an SQL statement.
#[derive(Debug, Clone, PartialEq, Eq)]
pub enum SqlValue {
    Int(i64),
    Text(String),
}

/// A bound value, with characters in place of a string.
pub enum SqlArg {
    Int(i64),
    Text(Seq<char>),
}

/// The view of a bound value.
pub open spec fn sql_arg(v: SqlValue) -> SqlArg {
    match v {
        SqlValue::Int(n) => SqlArg::Int(n),
        SqlValue::Text(s) => SqlArg::Text(s@),
    }
}

/// The views of bound values.
pub open spec fn sql_args(vs: Seq<SqlValue>) -> Seq<SqlArg> {
    Seq::new(vs.len(), |i: int| sql_arg(vs[i]))
}

/// An SQL statement and the values bound to its placeholders, in order.
#[derive(Debug)]
pub struct SqlStatement {
    pub sql: String,
    pub params: Vec<SqlValue>,
}

/// Texts joined by a separator.
pub open spec fn join_with(parts: Seq<Seq<char>>, sep: Seq<char>) -> Seq<char>
    decreases parts.len(),
{
    if parts.len() == 0 {
        Seq::empty()
    } else if parts.len() == 1 {
        parts[0]
    } else {
        join_with(parts.drop_last(), sep) + sep + parts.last()
    }
}

/// `n` placeholders separated by commas.
pub open spec fn placeholders(n: nat) -> Seq<char> {
    join_with(Seq::new(n, |i: int| "?"@), ","@)
}

/// The first search term of a query, looking into conjunctions depth first.
pub open spec fn first_term(q: QueryView) -> Option<(Seq<char>, bool)>
    decreases q, 0int,
{
    match q {
        QueryView::Term { query, case_sensitive } => Some((query, case_sensitive)),
        QueryView::And(qs) => first_term_from(qs, 0),
        _ => None,
    }
}

/// The first search term among the queries `qs[i..]`.
pub open spec fn first_term_from(qs: Seq<QueryView>, i: int) -> Option<(Seq<char>, bool)>
    decreases qs, qs.len() - i,
{
    if 0 <= i < qs.len() {
        match first_term(qs[i]) {
            Some(t) => Some(t),
            None => first_term_from(qs, i + 1),
        }
    } else {
        None
    }
}

/// The date bounds of a query, depth first: the field, whether it is an upper bound, and
/// the date.
pub open spec fn date_bounds(q: QueryView) -> Seq<(DateField, bool, i64)>
    decreases q, 0int,
{
    match q {
        QueryView::BeforeDate { field, date } => seq![(field, true, date.secs)],
        QueryView::AfterDate { field, date } => seq![(field, false, date.secs)],
        QueryView::And(qs) => date_bounds_from(qs, 0),
        _ => Seq::empty(),
    }
}

/// The date bounds of the queries `qs[i..]`, in order.
pub open spec fn date_bounds_from(qs: Seq<QueryView>, i: int) -> Seq<(DateField, bool, i64)>
    decreases qs, qs.len() - i,
{
    if 0 <= i < qs.len() {
        date_bounds(qs[i]) + date_bounds_from(qs, i + 1)
    } else {
        Seq::empty()
    }
}

/// The column that holds a date field.
pub open spec fn date_column(f: DateField) -> Seq<char> {
    match f {
        DateField::Published => "c.published"@,
        DateField::LastModified => "c.last_modified"@,
    }
}

/// The SQL condition of a date bound.
pub open spec fn bound_condition(b: (DateField, bool, i64)) -> Seq<char> {
    date_column(b.0) + if b.1 {
        " <= ?"@
    } else {
        " >= ?"@
    }
}

/// The SQL condition that restricts a search to some feeds.
pub open spec fn feed_condition(n: nat) -> Seq<char> {
    "c.feed IN ("@ + placeholders(n) + ")"@
}

/// The SQL condition that looks for a term in the descriptions and the id.
pub open spec fn term_condition() -> Seq<char> {
    "(d.description LIKE ? OR c.id LIKE ?)"@
}

/// The `LIKE` pattern that finds a term anywhere.
pub open spec fn like_pattern(t: Seq<char>) -> Seq<char> {
    "%"@ + t + "%"@
}

/// The conditions of a search, in order: feeds, the first term, then the date bounds.
pub open spec fn search_conditions(q: QueryView, n_feeds: nat) -> Seq<Seq<char>> {
    (if n_feeds > 0 {
        seq![feed_condition(n_feeds)]
    } else {
        Seq::empty()
    }) + (if first_term(q) is Some {
        seq![term_condition()]
    } else {
        Seq::empty()
    }) + date_bounds(q).map_values(|b: (DateField, bool, i64)| bound_condition(b))
}

/// The values bound by a search, in the order of its placeholders; the limit comes last.
pub open spec fn search_args(q: QueryView, feed_ids: Seq<i64>, limit: usize) -> Seq<SqlArg> {
    feed_ids.map_values(|f: i64| SqlArg::Int(f)) + (match first_term(q) {
        Some((t, _)) => seq![SqlArg::Text(like_pattern(t)), SqlArg::Text(like_pattern(t))],
        None => Seq::empty(),
    }) + date_bounds(q).map_values(|b: (DateField, bool, i64)| SqlArg::Int(b.2)) + seq![
        SqlArg::Int(limit as i64),
    ]
}

/// The column that a sort key orders by.
pub open spec fn sort_column(s: Sort) -> Seq<char> {
    match s {
        Sort::CVEId => "c.id"@,
        Sort::PublishedDate => "c.published"@,
        Sort::LastModifiedDate => "c.last_modified"@,
        Sort::Impact => "c.base_score"@,
        Sort::Severity => "c.severity"@,
    }
}

/// The direction of an ordering.
pub open spec fn direction(ascending: bool) -> Seq<char> {
    if ascending {
        "ASC"@
    } else {
        "DESC"@
    }
}

/// The `WHERE` clause of conditions, empty when there are none.
pub open spec fn where_clause(conds: Seq<Seq<char>>) -> Seq<char> {
    if conds.len() == 0 {
        Seq::empty()
    } else {
        "WHERE "@ + join_with(conds, " AND "@)
    }
}

/// The `ORDER BY` clause of sort keys; by id ascending when there are none.
pub open spec fn order_clause(sort: Seq<Sort>, ascending: bool) -> Seq<char> {
    if sort.len() == 0 {
        "ORDER BY c.id ASC"@
    } else {
        "ORDER BY "@ + join_with(
            sort.map_values(|s: Sort| sort_column(s) + " "@ + direction(ascending)),
            ", "@,
        )
    }
}

/// The statement that selects the CVE rows of a search.
pub open spec fn search_sql(q: QueryView, n_feeds: nat, sort: Seq<Sort>, ascending: bool) -> Seq<char> {
    "SELECT DISTINCT c.id, c.feed, c.published, c.last_modified, c.impact_vector, c.base_score, c.severity, c.configurations FROM descriptions d INNER JOIN cves c ON d.cve = c.id "@
        + where_clause(search_conditions(q, n_feeds)) + " "@ + order_clause(sort, ascending)
        + " LIMIT ?"@
}

/// The statement that counts the CVEs of some feeds.
pub open spec fn count_sql(n_feeds: nat) -> Seq<char> {
    "SELECT COUNT(*) FROM cves WHERE feed IN ("@ + placeholders(n_feeds) + ")"@
}

proof fn lemma_join_push(parts: Seq<Seq<char>>, sep: Seq<char>, x: Seq<char>)
    requires
        parts.len() > 0,
    ensures
        join_with(parts.push(x), sep) == join_with(parts, sep) + sep + x,
{
    assert(parts.push(x).drop_last() =~= parts);
}

/// Joins texts with a separator.
fn join_texts(parts: &Vec<String>, sep: &str) -> (r: String)
    ensures
        r@ == join_with(parts@.map_values(|s: String| s@), sep@),
{
    let ghost views = parts@.map_values(|s: String| s@);
    let mut out = String::new();
    let mut i: usize = 0;
    assert(views.take(0) =~= Seq::<Seq<char>>::empty());
    while i < parts.len()
        invariant
            i <= parts@.len(),
            views == parts@.map_values(|s: String| s@),
            out@ == join_with(views.take(i as int), sep@),
        decreases parts.len() - i,
    {
        if i > 0 {
            out.append(sep);
        }
        out.append(parts[i].as_str());
        proof {
            assert(views.take(i + 1) =~= views.take(i as int).push(views[i as int]));
            if i > 0 {
                lemma_join_push(views.take(i as int), sep@, views[i as int]);
            } else {
                assert(views.take(1) =~= seq![views[0]]);
            }
            assert(out@ =~= join_with(views.take(i + 1), sep@));
        }
        i += 1;
    }
    assert(views.take(i as int) =~= views);
    out
}

/// Appends `n` placeholders separated by commas.
fn push_placeholders(out: &mut String, n: usize)
    ensures
        final(out)@ == old(out)@ + placeholders(n as nat),
{
    let ghost start = out@;
    let ghost qs = Seq::new(n as nat, |i: int| "?"@);
    let mut i: usize = 0;
    assert(qs.take(0) =~= Seq::<Seq<char>>::empty());
    while i < n
        invariant
            i <= n,
            qs == Seq::new(n as nat, |i: int| "?"@),
            out@ == start + join_with(qs.take(i as int), ","@),
        decreases n - i,
    {
        if i > 0 {
            out.append(",");
        }
        out.append("?");
        proof {
            assert(qs.take(i + 1) =~= qs.take(i as int).push(qs[i as int]));
            if i > 0 {
                lemma_join_push(qs.take(i as int), ","@, "?"@);
            } else {
                assert(qs.take(1) =~= seq!["?"@]);
            }
            assert(out@ =~= start + join_with(qs.take(i + 1), ","@));
        }
        i += 1;
    }
    assert(qs.take(n as int) =~= qs);
}

fn extract_term(q: &SearchQuery) -> (r: Option<(&str, bool)>)
    ensures
        match first_term(query_view(*q)) {
            Some((t, cs)) => r matches Some((s, b)) && s@ == t && b == cs,
            None => r is None,
        },
    decreases q,
{
    match q {
        SearchQuery::Term { query, case_sensitive } => Some((query.as_str(), *case_sensitive)),
        SearchQuery::And(queries) => {
            let ghost qs = query_view(*q)->0;
            let mut i: usize = 0;
            while i < queries.len()
                invariant
                    i <= queries@.len(),
                    *q == SearchQuery::And(*queries),
                    qs == query_view(*q)->0,
                    first_term_from(qs, 0) == first_term_from(qs, i as int),
                decreases queries.len() - i,
            {
                proof {
                    let ghost v: Vec<SearchQuery> = *queries;
                    assert(decreases_to!(v@ => v@[i as int]));
                    assert(decreases_to!(v => v@));
                    assert(q->0 == v);
                    assert(decreases_to!(*q => q->0));
                    assert(qs[i as int] == query_view(queries@[i as int]));
                }
                let found = extract_term(&queries[i]);
                if found.is_some() {
                    return found;
                }
                i += 1;
            }
            None
        },
        _ => None,
    }
}

fn date_column_of(f: DateField) -> (s: &'static str)
    ensures
        s@ == date_column(f),
{
    match f {
        DateField::Published => "c.published",
        DateField::LastModified => "c.last_modified",
    }
}

fn push_bound(conds: &mut Vec<String>, params: &mut Vec<SqlValue>, field: DateField, upper: bool, secs: i64)
    ensures
        final(conds)@.map_values(|s: String| s@) == old(conds)@.map_values(|s: String| s@).push(
            bound_condition((field, upper, secs)),
        ),
        sql_args(final(params)@) == sql_args(old(params)@).push(SqlArg::Int(secs)),
{
    let ghost c0 = conds@;
    let ghost p0 = params@;
    let mut c = String::new();
    c.append(date_column_of(field));
    if upper {
        c.append(" <= ?");
    } else {
        c.append(" >= ?");
    }
    assert(c@ =~= bound_condition((field, upper, secs)));
    conds.push(c);
    params.push(SqlValue::Int(secs));
    assert(conds@.map_values(|s: String| s@) =~= c0.map_values(|s: String| s@).push(c@));
    assert(sql_args(params@) =~= sql_args(p0).push(SqlArg::Int(secs)));
}

fn add_date_conditions(q: &SearchQuery, conds: &mut Vec<String>, params: &mut Vec<SqlValue>)
    ensures
        final(conds)@.map_values(|s: String| s@) == old(conds)@.map_values(|s: String| s@)
            + date_bounds(query_view(*q)).map_values(|b: (DateField, bool, i64)| bound_condition(b)),
        sql_args(final(params)@) == sql_args(old(params)@) + date_bounds(query_view(*q)).map_values(
            |b: (DateField, bool, i64)| SqlArg::Int(b.2),
        ),
    decreases q,
{
    let ghost c0 = conds@.map_values(|s: String| s@);
    let ghost p0 = sql_args(params@);
    match q {
        SearchQuery::BeforeDate { field, date } => {
            push_bound(conds, params, *field, true, date.secs);
            proof {
                let b = date_bounds(query_view(*q));
                assert(b =~= seq![(*field, true, date.secs)]);
                assert(b.map_values(|b: (DateField, bool, i64)| bound_condition(b)) =~= seq![bound_condition(b[0])]);
                assert(b.map_values(|b: (DateField, bool, i64)| SqlArg::Int(b.2)) =~= seq![SqlArg::Int(b[0].2)]);
            }
        },
        SearchQuery::AfterDate { field, date } => {
            push_bound(conds, params, *field, false, date.secs);
            proof {
                let b = date_bounds(query_view(*q));
                assert(b =~= seq![(*field, false, date.secs)]);
                assert(b.map_values(|b: (DateField, bool, i64)| bound_condition(b)) =~= seq![bound_condition(b[0])]);
                assert(b.map_values(|b: (DateField, bool, i64)| SqlArg::Int(b.2)) =~= seq![SqlArg::Int(b[0].2)]);
            }
        },
        SearchQuery::And(queries) => {
            let ghost qs = query_view(*q)->0;
            let mut i: usize = 0;
            proof {
                assert(c0 + Seq::<(DateField, bool, i64)>::empty().map_values(
                    |b: (DateField, bool, i64)| bound_condition(b),
                ) =~= c0);
            }
            while i < queries.len()
                invariant
                    i <= queries@.len(),
                    *q == SearchQuery::And(*queries),
                    qs == query_view(*q)->0,
                    conds@.map_values(|s: String| s@) + date_bounds_from(qs, i as int).map_values(
                        |b: (DateField, bool, i64)| bound_condition(b),
                    ) == c0 + date_bounds_from(qs, 0).map_values(
                        |b: (DateField, bool, i64)| bound_condition(b),
                    ),
                    sql_args(params@) + date_bounds_from(qs, i as int).map_values(
                        |b: (DateField, bool, i64)| SqlArg::Int(b.2),
                    ) == p0 + date_bounds_from(qs, 0).map_values(
                        |b: (DateField, bool, i64)| SqlArg::Int(b.2),
                    ),
                decreases queries.len() - i,
            {
                proof {
                    let ghost v: Vec<SearchQuery> = *queries;
                    assert(decreases_to!(v@ => v@[i as int]));
                    assert(decreases_to!(v => v@));
                    assert(q->0 == v);
                    assert(decreases_to!(*q => q->0));
                    assert(qs[i as int] == query_view(queries@[i as int]));
                }
                let ghost cb = conds@.map_values(|s: String| s@);
                let ghost pb = sql_args(params@);
                add_date_conditions(&queries[i], conds, params);
                proof {
                    let here = date_bounds(qs[i as int]);
                    let rest = date_bounds_from(qs, i + 1);
                    assert(date_bounds_from(qs, i as int) == here + rest);
                    assert((here + rest).map_values(|b: (DateField, bool, i64)| bound_condition(b))
                        =~= here.map_values(|b: (DateField, bool, i64)| bound_condition(b))
                        + rest.map_values(|b: (DateField, bool, i64)| bound_condition(b)));
                    assert((here + rest).map_values(|b: (DateField, bool, i64)| SqlArg::Int(b.2))
                        =~= here.map_values(|b: (DateField, bool, i64)| SqlArg::Int(b.2))
                        + rest.map_values(|b: (DateField, bool, i64)| SqlArg::Int(b.2)));
                    assert(cb + (here.map_values(|b: (DateField, bool, i64)| bound_condition(b))
                        + rest.map_values(|b: (DateField, bool, i64)| bound_condition(b))) =~= (cb
                        + here.map_values(|b: (DateField, bool, i64)| bound_condition(b)))
                        + rest.map_values(|b: (DateField, bool, i64)| bound_condition(b)));
                    assert(pb + (here.map_values(|b: (DateField, bool, i64)| SqlArg::Int(b.2))
                        + rest.map_values(|b: (DateField, bool, i64)| SqlArg::Int(b.2))) =~= (pb
                        + here.map_values(|b: (DateField, bool, i64)| SqlArg::Int(b.2)))
                        + rest.map_values(|b: (DateField, bool, i64)| SqlArg::Int(b.2)));
                }
                i += 1;
            }
            proof {
                assert(date_bounds_from(qs, i as int) == Seq::<(DateField, bool, i64)>::empty());
                assert(conds@.map_values(|s: String| s@) + Seq::<(DateField, bool, i64)>::empty().map_values(
                    |b: (DateField, bool, i64)| bound_condition(b),
                ) =~= conds@.map_values(|s: String| s@));
                assert(sql_args(params@) + Seq::<(DateField, bool, i64)>::empty().map_values(
                    |b: (DateField, bool, i64)| SqlArg::Int(b.2),
                ) =~= sql_args(params@));
            }
        },
        _ => {
            assert(conds@.map_values(|s: String| s@) =~= c0 + Seq::<(DateField, bool, i64)>::empty().map_values(
                |b: (DateField, bool, i64)| bound_condition(b),
            ));
            assert(sql_args(params@) =~= p0 + Seq::<(DateField, bool, i64)>::empty().map_values(
                |b: (DateField, bool, i64)| SqlArg::Int(b.2),
            ));
        },
    }
}

fn sort_column_of(s: Sort) -> (r: &'static str)
    ensures
        r@ == sort_column(s),
{
    match s {
        Sort::CVEId => "c.id",
        Sort::PublishedDate => "c.published",
        Sort::LastModifiedDate => "c.last_modified",
        Sort::Impact => "c.base_score",
        Sort::Severity => "c.severity",
    }
}

fn order_by(sort: &[Sort], ascending: bool) -> (r: String)
    ensures
        r@ == order_clause(sort@, ascending),
{
    if sort.len() == 0 {
        return "ORDER BY c.id ASC".to_owned();
    }
    let dir = if ascending {
        "ASC"
    } else {
        "DESC"
    };
    let ghost want = sort@.map_values(|s: Sort| sort_column(s) + " "@ + direction(ascending));
    let mut parts: Vec<String> = Vec::new();
    let mut i: usize = 0;
    while i < sort.len()
        invariant
            i <= sort@.len(),
            dir@ == direction(ascending),
            want == sort@.map_values(|s: Sort| sort_column(s) + " "@ + direction(ascending)),
            parts@.map_values(|s: String| s@) == want.take(i as int),
        decreases sort.len() - i,
    {
        let ghost before = parts@;
        let mut p = String::new();
        p.append(sort_column_of(sort[i]));
        p.append(" ");
        p.append(dir);
        parts.push(p);
        proof {
            assert(p@ =~= want[i as int]);
            assert(parts@.map_values(|s: String| s@) =~= before.map_values(|s: String| s@).push(p@));
            assert(want.take(i + 1) =~= want.take(i as int).push(want[i as int]));
        }
        i += 1;
    }
    assert(want.take(i as int) =~= want);
    let mut out = String::new();
    out.append("ORDER BY ");
    let joined = join_texts(&parts, ", ");
    out.append(joined.as_str());
    out
}

/// The statement that selects the CVE rows of a search, with the values bound to it.
///
/// Feeds restrict the rows when `feed_ids` is not empty; the first term of the query is
/// looked for in descriptions and ids; each date bound of the query becomes a condition;
/// `sort` orders the rows in the given direction, by id when it is empty; at most `limit`
/// rows come back.
pub fn search_statement(
    query: &SearchQuery,
    sort: &[Sort],
    ascending: bool,
    feed_ids: &[i64],
    limit: usize,
) -> (st: SqlStatement)
    ensures
        st.sql@ == search_sql(query_view(*query), feed_ids@.len(), sort@, ascending),
        sql_args(st.params@) == search_args(query_view(*query), feed_ids@, limit),
{
    let ghost q = query_view(*query);
    let mut conds: Vec<String> = Vec::new();
    let mut params: Vec<SqlValue> = Vec::new();
    if feed_ids.len() > 0 {
        let mut c = String::new();
        c.append("c.feed IN (");
        push_placeholders(&mut c, feed_ids.len());
        c.append(")");
        conds.push(c);
        let mut i: usize = 0;
        while i < feed_ids.len()
            invariant
                i <= feed_ids@.len(),
                sql_args(params@) == feed_ids@.take(i as int).map_values(|f: i64| SqlArg::Int(f)),
            decreases feed_ids.len() - i,
        {
            let ghost before = params@;
            params.push(SqlValue::Int(feed_ids[i]));
            assert(sql_args(params@) =~= sql_args(before).push(SqlArg::Int(feed_ids@[i as int])));
            assert(feed_ids@.take(i + 1) =~= feed_ids@.take(i as int).push(feed_ids@[i as int]));
            i += 1;
        }
        assert(feed_ids@.take(i as int) =~= feed_ids@);
        assert(conds@.map_values(|s: String| s@) =~= seq![feed_condition(feed_ids@.len())]);
    } else {
        assert(conds@.map_values(|s: String| s@) =~= Seq::<Seq<char>>::empty());
        assert(sql_args(params@) =~= feed_ids@.map_values(|f: i64| SqlArg::Int(f)));
    }
    let ghost c1 = conds@.map_values(|s: String| s@);
    let ghost p1 = sql_args(params@);
    match extract_term(query) {
        Some((t, _)) => {
            conds.push("(d.description LIKE ? OR c.id LIKE ?)".to_owned());
            let mut first = String::new();
            first.append("%");
            first.append(t);
            first.append("%");
            let mut second = String::new();
            second.append("%");
            second.append(t);
            second.append("%");
            params.push(SqlValue::Text(first));
            params.push(SqlValue::Text(second));
            proof {
                assert(conds@.map_values(|s: String| s@) =~= c1.push(term_condition()));
                assert(sql_args(params@) =~= p1 + seq![
                    SqlArg::Text(like_pattern(t@)),
                    SqlArg::Text(like_pattern(t@)),
                ]);
            }
        },
        None => {},
    }
    add_date_conditions(query, &mut conds, &mut params);
    let mut sql = String::new();
    sql.append(
        "SELECT DISTINCT c.id, c.feed, c.published, c.last_modified, c.impact_vector, c.base_score, c.severity, c.configurations FROM descriptions d INNER JOIN cves c ON d.cve = c.id ",
    );
    if conds.len() > 0 {
        sql.append("WHERE ");
        let joined = join_texts(&conds, " AND ");
        sql.append(joined.as_str());
    }
    sql.append(" ");
    let order = order_by(sort, ascending);
    sql.append(order.as_str());
    sql.append(" LIMIT ?");
    let ghost p3 = params@;
    params.push(SqlValue::Int(limit as i64));
    proof {
        let conds_v = search_conditions(q, feed_ids@.len());
        assert(conds@.map_values(|s: String| s@) =~= conds_v);
        if conds_v.len() == 0 {
            assert(where_clause(conds_v) =~= Seq::<char>::empty());
        }
        assert(sql_args(params@) =~= sql_args(p3).push(SqlArg::Int(limit as i64)));
        assert(sql_args(params@) =~= search_args(q, feed_ids@, limit));
        assert(sql@ =~= search_sql(q, feed_ids@.len(), sort@, ascending));
    }
    SqlStatement { sql, params }
}

/// The statement that counts the CVEs of the given feeds, with the values bound to it.
pub fn count_statement(feed_ids: &[i64]) -> (st: SqlStatement)
    ensures
        st.sql@ == count_sql(feed_ids@.len()),
        sql_args(st.params@) == feed_ids@.map_values(|f: i64| SqlArg::Int(f)),
{
    let mut sql = String::new();
    sql.append("SELECT COUNT(*) FROM cves WHERE feed IN (");
    push_placeholders(&mut sql, feed_ids.len());
    sql.append(")");
    let mut params: Vec<SqlValue> = Vec::new();
    let mut i: usize = 0;
    while i < feed_ids.len()
        invariant
            i <= feed_ids@.len(),
            sql_args(params@) == feed_ids@.take(i as int).map_values(|f: i64| SqlArg::Int(f)),
        decreases feed_ids.len() - i,
    {
        let ghost before = params@;
        params.push(SqlValue::Int(feed_ids[i]));
        assert(sql_args(params@) =~= sql_args(before).push(SqlArg::Int(feed_ids@[i as int])));
        assert(feed_ids@.take(i + 1) =~= feed_ids@.take(i as int).push(feed_ids@[i as int]));
        i += 1;
    }
    assert(feed_ids@.take(i as int) =~= feed_ids@);
    assert(sql@ =~= count_sql(feed_ids@.len()));
    SqlStatement { sql, params }
}

/// The statement that fetches the descriptions of `n` CVEs, keyed by CVE id.
pub open spec fn description_rows_sql(n: nat) -> Seq<char> {
    "SELECT cve, lang, description FROM descriptions WHERE cve IN ("@ + placeholders(n) + ")"@
}

/// The statement that fetches the references of `n` CVEs, keyed by CVE id.
pub open spec fn reference_rows_sql(n: nat) -> Seq<char> {
    "SELECT cve, url, name FROM refs WHERE cve IN ("@ + placeholders(n) + ")"@
}

/// The statement that fetches the descriptions of `n` CVEs; their ids bind its placeholders.
pub fn description_rows_statement(n: usize) -> (sql: String)
    ensures
        sql@ == description_rows_sql(n as nat),
{
    let mut sql = String::new();
    sql.append("SELECT cve, lang, description FROM descriptions WHERE cve IN (");
    push_placeholders(&mut sql, n);
    sql.append(")");
    assert(sql@ =~= description_rows_sql(n as nat));
    sql
}

/// The statement that fetches the references of `n` CVEs; their ids bind its placeholders.
pub fn reference_rows_statement(n: usize) -> (sql: String)
    ensures
        sql@ == reference_rows_sql(n as nat),
{
    let mut sql = String::new();
    sql.append("SELECT cve, url, name FROM refs WHERE cve IN (");
    push_placeholders(&mut sql, n);
    sql.append(")");
    assert(sql@ =~= reference_rows_sql(n as nat));
    sql
}

/// What upgrading an older database does to its table of CVEs.
#[derive(Debug, Clone, Copy, PartialEq, Eq, Structural)]
pub enum SchemaStep {
    /// There is no table of CVEs: create all tables and indexes.
    CreateTables,
    /// The table of CVEs has no foreign keys: add the missing indexes.
    AddIndexes,
    /// The table of CVEs has foreign keys: copy it into a table without them.
    RebuildCves,
}

/// Whether a database of schema `version` must be upgraded; a schema newer than this
/// library knows is refused.
pub fn schema_needs_upgrade(version: i64) -> (r: Result<bool, String>)
    ensures
        version > 2 ==> r is Err && r->Err_0@ == "unsupported database schema version: "@
            + signed_decimal(version as int),
        version <= 2 ==> r == Ok::<bool, String>(version < 2),
{
    if version > 2 {
        let mut msg = String::new();
        msg.append("unsupported database schema version: ");
        push_signed(&mut msg, version);
        return Err(msg);
    }
    Ok(version < 2)
}

/// The step that upgrades a database, given whether it has a table of CVEs and the SQL that
/// created that table, if it could be read.
pub fn upgrade_step(has_cves: bool, cves_sql: Option<&str>) -> (s: SchemaStep)
    ensures
        s == (if !has_cves {
            SchemaStep::CreateTables
        } else if cves_sql matches Some(t) && has_substring(t@, "REFERENCES"@) {
            SchemaStep::RebuildCves
        } else {
            SchemaStep::AddIndexes
        }),
{
    if !has_cves {
        return SchemaStep::CreateTables;
    }
    match cves_sql {
        Some(t) => if contains_str(t, "REFERENCES") {
            SchemaStep::RebuildCves
        } else {
            SchemaStep::AddIndexes
        },
        None => SchemaStep::AddIndexes,
    }
}

/// The SQL batch that performs an upgrade step.
pub open spec fn upgrade_batch(s: SchemaStep) -> Seq<char> {
    match s {
        SchemaStep::CreateTables => "CREATE TABLE IF NOT EXISTS cves (id TEXT NOT NULL, feed INTEGER NOT NULL, published INTEGER NOT NULL, last_modified INTEGER NOT NULL, impact_vector TEXT, base_score REAL, severity INTEGER NOT NULL, configurations TEXT); CREATE TABLE IF NOT EXISTS descriptions (cve TEXT NOT NULL, lang TEXT NOT NULL, description TEXT NOT NULL); CREATE TABLE IF NOT EXISTS refs (cve TEXT NOT NULL, url TEXT, name TEXT); CREATE UNIQUE INDEX IF NOT EXISTS idx_cves_id ON cves(id); CREATE INDEX IF NOT EXISTS idx_descriptions_cve ON descriptions(cve); CREATE INDEX IF NOT EXISTS idx_refs_cve ON refs(cve);"@,
        SchemaStep::AddIndexes => "CREATE UNIQUE INDEX IF NOT EXISTS idx_cves_id ON cves(id); CREATE INDEX IF NOT EXISTS idx_descriptions_cve ON descriptions(cve); CREATE INDEX IF NOT EXISTS idx_refs_cve ON refs(cve);"@,
        SchemaStep::RebuildCves => "DROP TABLE IF EXISTS cves_v2; CREATE TABLE cves_v2 (id TEXT NOT NULL, feed INTEGER NOT NULL, published INTEGER NOT NULL, last_modified INTEGER NOT NULL, impact_vector TEXT, base_score REAL, severity INTEGER NOT NULL, configurations TEXT); INSERT INTO cves_v2 SELECT id, feed, published, last_modified, impact_vector, base_score, severity, configurations FROM cves; DROP TABLE cves; ALTER TABLE cves_v2 RENAME TO cves; CREATE UNIQUE INDEX IF NOT EXISTS idx_cves_id ON cves(id); CREATE INDEX IF NOT EXISTS idx_descriptions_cve ON descriptions(cve); CREATE INDEX IF NOT EXISTS idx_refs_cve ON refs(cve);"@,
    }
}

impl SchemaStep {
    /// The SQL batch that performs this step.
    pub fn sql(self) -> (r: &'static str)
        ensures
            r@ == upgrade_batch(self),
    {
        match self {
            SchemaStep::CreateTables => "CREATE TABLE IF NOT EXISTS cves (id TEXT NOT NULL, feed INTEGER NOT NULL, published INTEGER NOT NULL, last_modified INTEGER NOT NULL, impact_vector TEXT, base_score REAL, severity INTEGER NOT NULL, configurations TEXT); CREATE TABLE IF NOT EXISTS descriptions (cve TEXT NOT NULL, lang TEXT NOT NULL, description TEXT NOT NULL); CREATE TABLE IF NOT EXISTS refs (cve TEXT NOT NULL, url TEXT, name TEXT); CREATE UNIQUE INDEX IF NOT EXISTS idx_cves_id ON cves(id); CREATE INDEX IF NOT EXISTS idx_descriptions_cve ON descriptions(cve); CREATE INDEX IF NOT EXISTS idx_refs_cve ON refs(cve);",
            SchemaStep::AddIndexes => "CREATE UNIQUE INDEX IF NOT EXISTS idx_cves_id ON cves(id); CREATE INDEX IF NOT EXISTS idx_descriptions_cve ON descriptions(cve); CREATE INDEX IF NOT EXISTS idx_refs_cve ON refs(cve);",
            SchemaStep::RebuildCves => "DROP TABLE IF EXISTS cves_v2; CREATE TABLE cves_v2 (id TEXT NOT NULL, feed INTEGER NOT NULL, published INTEGER NOT NULL, last_modified INTEGER NOT NULL, impact_vector TEXT, base_score REAL, severity INTEGER NOT NULL, configurations TEXT); INSERT INTO cves_v2 SELECT id, feed, published, last_modified, impact_vector, base_score, severity, configurations FROM cves; DROP TABLE cves; ALTER TABLE cves_v2 RENAME TO cves; CREATE UNIQUE INDEX IF NOT EXISTS idx_cves_id ON cves(id); CREATE INDEX IF NOT EXISTS idx_descriptions_cve ON descriptions(cve); CREATE INDEX IF NOT EXISTS idx_refs_cve ON refs(cve);",
        }
    }
}

/// A row of the table of CVEs, as a search selects it; the base score is read apart.
#[derive(Debug)]
pub struct CveRow {
    pub cve_id: String,
    pub feed: i64,
    pub published: i64,
    pub last_modified: i64,
    pub impact_vector: Option<String>,
    pub severity: i64,
    pub configurations: Option<String>,
}

/// The configuration trees stored as `o`; missing or unreadable text gives none.
pub open spec fn stored_configurations(o: Option<String>) -> Seq<NodeView> {
    match o {
        Some(s) => match spec_parse_configurations(s@) {
            Ok(v) => v,
            Err(_) => Seq::empty(),
        },
        None => Seq::empty(),
    }
}

/// Whether row `i` is the first with its CVE id.
pub open spec fn is_first_row(rows: Seq<CveRow>, i: int) -> bool {
    forall|j: int| 0 <= j < i ==> rows[j].cve_id@ != rows[i].cve_id@
}

/// The values of the entries keyed by `id`, in order.
pub open spec fn entries_for<T>(entries: Seq<(String, T)>, id: Seq<char>) -> Seq<T>
    decreases entries.len(),
{
    if entries.len() == 0 {
        Seq::empty()
    } else {
        let r = entries_for(entries.drop_last(), id);
        if entries.last().0@ == id {
            r.push(entries.last().1)
        } else {
            r
        }
    }
}

/// The entries that a row receives: all those of its id for the first row with that id,
/// none for a later one.
pub open spec fn row_entries<T>(rows: Seq<CveRow>, i: int, entries: Seq<(String, T)>) -> Seq<T> {
    if is_first_row(rows, i) {
        entries_for(entries, rows[i].cve_id@)
    } else {
        Seq::empty()
    }
}

/// Whether `c` is the CVE record assembled from row `i` and the description and reference
/// rows keyed by CVE id.
pub open spec fn assembled_from(
    c: CVE,
    rows: Seq<CveRow>,
    i: int,
    descriptions: Seq<(String, Description)>,
    references: Seq<(String, Reference)>,
) -> bool {
    &&& c.cve_id == rows[i].cve_id
    &&& c.feed == rows[i].feed
    &&& c.published == stored_time(rows[i].published)
    &&& c.last_modified == stored_time(rows[i].last_modified)
    &&& c.impact_vector == rows[i].impact_vector
    &&& c.severity == severity_of_code(rows[i].severity)
    &&& nodes_view(c.configurations@) == stored_configurations(rows[i].configurations)
    &&& c.descriptions@ == row_entries(rows, i, descriptions)
    &&& c.references@ == row_entries(rows, i, references)
    &&& c.assigner is None
}

fn first_row_with(rows: &Vec<CveRow>, id: &str) -> (r: Option<usize>)
    ensures
        match r {
            Some(k) => k < rows@.len() && rows@[k as int].cve_id@ == id@ && is_first_row(rows@, k as int),
            None => forall|k: int| 0 <= k < rows@.len() ==> #[trigger] rows@[k].cve_id@ != id@,
        },
{
    let mut k: usize = 0;
    while k < rows.len()
        invariant
            k <= rows@.len(),
            forall|j: int| 0 <= j < k ==> #[trigger] rows@[j].cve_id@ != id@,
        decreases rows.len() - k,
    {
        if str_eq(rows[k].cve_id.as_str(), id) {
            return Some(k);
        }
        k += 1;
    }
    None
}

proof fn lemma_entries_step<T>(entries: Seq<(String, T)>, t: int, id: Seq<char>)
    requires
        0 <= t < entries.len(),
    ensures
        entries_for(entries.take(t + 1), id) == (if entries[t].0@ == id {
            entries_for(entries.take(t), id).push(entries[t].1)
        } else {
            entries_for(entries.take(t), id)
        }),
{
    assert(entries.take(t + 1).drop_last() =~= entries.take(t));
}

/// Sorts keyed entries into one list per row: each entry goes to the first row with its
/// key, in the order the entries come; entries of no row are dropped.
fn group_by_row<T>(rows: &Vec<CveRow>, entries: Vec<(String, T)>) -> (groups: Vec<Vec<T>>)
    ensures
        groups@.len() == rows@.len(),
        forall|k: int| 0 <= k < rows@.len() ==> #[trigger] groups@[k]@ == row_entries(rows@, k, entries@),
{
    let ghost es = entries@;
    let mut groups: Vec<Vec<T>> = Vec::new();
    let mut k: usize = 0;
    while k < rows.len()
        invariant
            k <= rows@.len(),
            groups@.len() == k,
            forall|j: int| 0 <= j < k ==> #[trigger] groups@[j]@ == Seq::<T>::empty(),
        decreases rows.len() - k,
    {
        groups.push(Vec::new());
        k += 1;
    }
    proof {
        assert forall|j: int| 0 <= j < rows@.len() implies #[trigger] groups@[j]@ == (if is_first_row(rows@, j) {
            entries_for(es.take(0), rows@[j].cve_id@)
        } else {
            Seq::<T>::empty()
        }) by {
            assert(es.take(0).len() == 0);
        }
    }
    let mut t: usize = 0;
    assert(entries.len() == es.len());
    for entry in it: entries.into_iter()
        invariant
            es == it.seq(),
            t == it.index(),
            t <= es.len(),
            es.len() <= usize::MAX,
            groups@.len() == rows@.len(),
            forall|j: int| 0 <= j < rows@.len() ==> #[trigger] groups@[j]@ == (if is_first_row(rows@, j) {
                entries_for(es.take(t as int), rows@[j].cve_id@)
            } else {
                Seq::<T>::empty()
            }),
    {
        let (id, value) = entry;
        proof {
            assert(es[t as int] == (id, value));
        }
        match first_row_with(rows, id.as_str()) {
            Some(k0) => {
                groups[k0].push(value);
                proof {
                    assert forall|j: int| 0 <= j < rows@.len() implies #[trigger] groups@[j]@ == (if is_first_row(rows@, j) {
                        entries_for(es.take(t + 1), rows@[j].cve_id@)
                    } else {
                        Seq::<T>::empty()
                    }) by {
                        lemma_entries_step(es, t as int, rows@[j].cve_id@);
                        if j != k0 && is_first_row(rows@, j) {
                            if rows@[j].cve_id@ == id@ {
                                if j < k0 {
                                    assert(rows@[j].cve_id@ != rows@[k0 as int].cve_id@);
                                } else {
                                    assert(rows@[k0 as int].cve_id@ != rows@[j].cve_id@);
                                }
                            }
                        }
                    }
                }
            },
            None => {
                proof {
                    assert forall|j: int| 0 <= j < rows@.len() implies #[trigger] groups@[j]@ == (if is_first_row(rows@, j) {
                        entries_for(es.take(t + 1), rows@[j].cve_id@)
                    } else {
                        Seq::<T>::empty()
                    }) by {
                        lemma_entries_step(es, t as int, rows@[j].cve_id@);
                        assert(rows@[j].cve_id@ != id@);
                    }
                }
            },
        }
        t += 1;
    }
    proof {
        assert(es.take(t as int) =~= es);
    }
    groups
}

/// The CVE records of the rows a search selected, in the same order, with the descriptions
/// and references fetched for them. Each row keyed by an id takes the descriptions and
/// references of that id; a later row with the same id takes none. Stored times outside
/// chrono's range read as the epoch, and unreadable configurations as none.
pub fn assemble_cves(
    rows: Vec<CveRow>,
    descriptions: Vec<(String, Description)>,
    references: Vec<(String, Reference)>,
) -> (cves: Vec<CVE>)
    ensures
        cves@.len() == rows@.len(),
        forall|i: int|
            0 <= i < rows@.len() ==> #[trigger] assembled_from(cves@[i], rows@, i, descriptions@, references@),
{
    let ghost rs = rows@;
    let mut dgroups = group_by_row(&rows, descriptions);
    let mut rgroups = group_by_row(&rows, references);
    let mut cves: Vec<CVE> = Vec::new();
    let mut i: usize = 0;
    assert(rows.len() == rs.len());
    for row in it: rows.into_iter()
        invariant
            rs == it.seq(),
            i == it.index(),
            i <= rs.len(),
            rs.len() <= usize::MAX,
            cves@.len() == i,
            dgroups@.len() == rs.len(),
            rgroups@.len() == rs.len(),
            forall|k: int| i <= k < rs.len() ==> #[trigger] dgroups@[k]@ == row_entries(rs, k, descriptions@),
            forall|k: int| i <= k < rs.len() ==> #[trigger] rgroups@[k]@ == row_entries(rs, k, references@),
            forall|k: int| 0 <= k < i ==> #[trigger] assembled_from(cves@[k], rs, k, descriptions@, references@),
    {
        proof {
            assert(rs[i as int] == row);
        }
        let mut ds: Vec<Description> = Vec::new();
        std::mem::swap(&mut ds, &mut dgroups[i]);
        let mut refs: Vec<Reference> = Vec::new();
        std::mem::swap(&mut refs, &mut rgroups[i]);
        let configurations = match &row.configurations {
            Some(s) => match parse_configurations(s.as_str()) {
                Ok(v) => v,
                Err(_) => Vec::new(),
            },
            None => Vec::new(),
        };
        proof {
            if configurations@.len() == 0 {
                assert(nodes_view(configurations@) =~= Seq::<NodeView>::empty());
            }
        }
        let published = time_or_epoch(row.published);
        let last_modified = time_or_epoch(row.last_modified);
        let severity = Severity::from_int(row.severity);
        let ghost before = cves@;
        cves.push(
            CVE {
                cve_id: row.cve_id,
                feed: row.feed,
                published,
                last_modified,
                impact_vector: row.impact_vector,
                severity,
                descriptions: ds,
                references: refs,
                configurations,
                assigner: None,
            },
        );
        proof {
            assert forall|k: int| 0 <= k < i + 1 implies #[trigger] assembled_from(cves@[k], rs, k, descriptions@, references@) by {
                if k < i {
                    assert(cves@[k] == before[k]);
                }
            }
        }
        i += 1;
    }
    cves
}

/// The number of `?` placeholders in an SQL text.
pub open spec fn placeholder_count(s: Seq<char>) -> nat
    decreases s.len(),
{
    if s.len() == 0 {
        0
    } else {
        placeholder_count(s.drop_last()) + if s.last() == '?' {
            1nat
        } else {
            0nat
        }
    }
}

/// The placeholders of texts, added up.
pub open spec fn placeholder_total(parts: Seq<Seq<char>>) -> nat
    decreases parts.len(),
{
    if parts.len() == 0 {
        0
    } else {
        placeholder_total(parts.drop_last()) + placeholder_count(parts.last())
    }
}

proof fn lemma_count_concat(a: Seq<char>, b: Seq<char>)
    ensures
        placeholder_count(a + b) == placeholder_count(a) + placeholder_count(b),
    decreases b.len(),
{
    if b.len() == 0 {
        assert(a + b =~= a);
    } else {
        lemma_count_concat(a, b.drop_last());
        assert((a + b).drop_last() =~= a + b.drop_last());
        assert((a + b).last() == b.last());
    }
}

proof fn lemma_count_none(s: Seq<char>)
    requires
        forall|i: int| 0 <= i < s.len() ==> s[i] != '?',
    ensures
        placeholder_count(s) == 0,
    decreases s.len(),
{
    if s.len() > 0 {
        lemma_count_none(s.drop_last());
    }
}

proof fn lemma_count_join(parts: Seq<Seq<char>>, sep: Seq<char>)
    requires
        placeholder_count(sep) == 0,
    ensures
        placeholder_count(join_with(parts, sep)) == placeholder_total(parts),
    decreases parts.len(),
{
    if parts.len() == 1 {
        assert(parts.drop_last().len() == 0);
        assert(parts.last() == parts[0]);
        assert(placeholder_total(parts) == placeholder_total(parts.drop_last()) + placeholder_count(parts.last()));
    } else if parts.len() > 1 {
        assert(placeholder_total(parts) == placeholder_total(parts.drop_last()) + placeholder_count(parts.last()));
        lemma_count_join(parts.drop_last(), sep);
        lemma_count_concat(join_with(parts.drop_last(), sep), sep);
        lemma_count_concat(join_with(parts.drop_last(), sep) + sep, parts.last());
    }
}

proof fn lemma_total_concat(a: Seq<Seq<char>>, b: Seq<Seq<char>>)
    ensures
        placeholder_total(a + b) == placeholder_total(a) + placeholder_total(b),
    decreases b.len(),
{
    if b.len() == 0 {
        assert(a + b =~= a);
    } else {
        lemma_total_concat(a, b.drop_last());
        assert((a + b).drop_last() =~= a + b.drop_last());
        assert((a + b).last() == b.last());
    }
}

proof fn lemma_total_uniform(parts: Seq<Seq<char>>, k: nat)
    requires
        k <= 1,
        forall|i: int| 0 <= i < parts.len() ==> placeholder_count(#[trigger] parts[i]) == k,
    ensures
        placeholder_total(parts) == if k == 0 {
            0
        } else {
            parts.len()
        },
    decreases parts.len(),
{
    if parts.len() > 0 {
        assert forall|i: int| 0 <= i < parts.drop_last().len() implies placeholder_count(
            #[trigger] parts.drop_last()[i],
        ) == k by {
            assert(parts.drop_last()[i] == parts[i]);
        }
        lemma_total_uniform(parts.drop_last(), k);
        assert(placeholder_count(parts[parts.len() - 1]) == k);
    }
}

proof fn lemma_literal_counts()
    ensures
        placeholder_count(
            "SELECT DISTINCT c.id, c.feed, c.published, c.last_modified, c.impact_vector, c.base_score, c.severity, c.configurations FROM descriptions d INNER JOIN cves c ON d.cve = c.id "@,
        ) == 0,
        placeholder_count(" "@) == 0,
        placeholder_count(" LIMIT ?"@) == 1,
        placeholder_count("WHERE "@) == 0,
        placeholder_count(" AND "@) == 0,
        placeholder_count("c.feed IN ("@) == 0,
        placeholder_count(")"@) == 0,
        placeholder_count("?"@) == 1,
        placeholder_count(","@) == 0,
        placeholder_count("(d.description LIKE ? OR c.id LIKE ?)"@) == 2,
        placeholder_count("c.published"@) == 0,
        placeholder_count("c.last_modified"@) == 0,
        placeholder_count(" <= ?"@) == 1,
        placeholder_count(" >= ?"@) == 1,
        placeholder_count("ORDER BY c.id ASC"@) == 0,
        placeholder_count("ORDER BY "@) == 0,
        placeholder_count(", "@) == 0,
        placeholder_count("c.id"@) == 0,
        placeholder_count("c.base_score"@) == 0,
        placeholder_count("c.severity"@) == 0,
        placeholder_count("ASC"@) == 0,
        placeholder_count("DESC"@) == 0,
{
    reveal_strlit(
        "SELECT DISTINCT c.id, c.feed, c.published, c.last_modified, c.impact_vector, c.base_score, c.severity, c.configurations FROM descriptions d INNER JOIN cves c ON d.cve = c.id ",
    );
    lemma_count_none(
        "SELECT DISTINCT c.id, c.feed, c.published, c.last_modified, c.impact_vector, c.base_score, c.severity, c.configurations FROM descriptions d INNER JOIN cves c ON d.cve = c.id "@,
    );
    reveal_strlit(" ");
    lemma_count_none(" "@);
    reveal_strlit("WHERE ");
    lemma_count_none("WHERE "@);
    reveal_strlit(" AND ");
    lemma_count_none(" AND "@);
    reveal_strlit("c.feed IN (");
    lemma_count_none("c.feed IN ("@);
    reveal_strlit(")");
    lemma_count_none(")"@);
    reveal_strlit(",");
    lemma_count_none(","@);
    reveal_strlit("c.published");
    lemma_count_none("c.published"@);
    reveal_strlit("c.last_modified");
    lemma_count_none("c.last_modified"@);
    reveal_strlit("ORDER BY c.id ASC");
    lemma_count_none("ORDER BY c.id ASC"@);
    reveal_strlit("ORDER BY ");
    lemma_count_none("ORDER BY "@);
    reveal_strlit(", ");
    lemma_count_none(", "@);
    reveal_strlit("c.id");
    lemma_count_none("c.id"@);
    reveal_strlit("c.base_score");
    lemma_count_none("c.base_score"@);
    reveal_strlit("c.severity");
    lemma_count_none("c.severity"@);
    reveal_strlit("ASC");
    lemma_count_none("ASC"@);
    reveal_strlit("DESC");
    lemma_count_none("DESC"@);
    reveal_strlit("?");
    reveal_strlit(" LIMIT ?");
    reveal_strlit(" <= ?");
    reveal_strlit(" >= ?");
    reveal_with_fuel(placeholder_count, 9);
    assert(placeholder_count("?"@) == 1);
    assert(placeholder_count(" LIMIT ?"@) == 1);
    assert(placeholder_count(" <= ?"@) == 1);
    assert(placeholder_count(" >= ?"@) == 1);
    let t = "(d.description LIKE ? OR c.id LIKE ?)"@;
    reveal_strlit("(d.description LIKE ? OR c.id LIKE ?)");
    let a = t.subrange(0, 20);
    let q1 = t.subrange(20, 21);
    let b = t.subrange(21, 35);
    let q2 = t.subrange(35, 36);
    let c = t.subrange(36, 37);
    assert(t =~= a + q1 + b + q2 + c);
    lemma_count_none(a);
    lemma_count_none(b);
    lemma_count_none(c);
    assert(placeholder_count(q1) == 1);
    assert(placeholder_count(q2) == 1);
    lemma_count_concat(a, q1);
    lemma_count_concat(a + q1, b);
    lemma_count_concat(a + q1 + b, q2);
    lemma_count_concat(a + q1 + b + q2, c);
}

proof fn lemma_total_single(x: Seq<char>)
    ensures
        placeholder_total(seq![x]) == placeholder_count(x),
{
    let one = seq![x];
    assert(one.drop_last() =~= Seq::<Seq<char>>::empty());
    assert(one.last() == x);
    assert(placeholder_total(one.drop_last()) == 0);
    assert(placeholder_total(one) == placeholder_total(one.drop_last()) + placeholder_count(one.last()));
}

proof fn lemma_placeholders_count(n: nat)
    ensures
        placeholder_count(placeholders(n)) == n,
{
    lemma_literal_counts();
    let qs = Seq::new(n, |i: int| "?"@);
    lemma_count_join(qs, ","@);
    lemma_total_uniform(qs, 1);
}

proof fn lemma_conditions_count(q: QueryView, n: nat)
    ensures
        placeholder_total(search_conditions(q, n)) == (if n > 0 {
            n
        } else {
            0
        }) + (if first_term(q) is Some {
            2nat
        } else {
            0nat
        }) + date_bounds(q).len(),
{
    lemma_literal_counts();
    let a: Seq<Seq<char>> = if n > 0 {
        seq![feed_condition(n)]
    } else {
        Seq::empty()
    };
    let b: Seq<Seq<char>> = if first_term(q) is Some {
        seq![term_condition()]
    } else {
        Seq::empty()
    };
    let c = date_bounds(q).map_values(|x: (DateField, bool, i64)| bound_condition(x));
    lemma_total_concat(a, b);
    lemma_total_concat(a + b, c);
    if n > 0 {
        lemma_total_single(feed_condition(n));
        lemma_placeholders_count(n);
        lemma_count_concat("c.feed IN ("@, placeholders(n));
        lemma_count_concat("c.feed IN ("@ + placeholders(n), ")"@);
    }
    if first_term(q) is Some {
        lemma_total_single(term_condition());
    }
    assert forall|i: int| 0 <= i < c.len() implies placeholder_count(#[trigger] c[i]) == 1 by {
        let x = date_bounds(q)[i];
        lemma_count_concat(date_column(x.0), if x.1 {
            " <= ?"@
        } else {
            " >= ?"@
        });
    }
    lemma_total_uniform(c, 1);
}

/// Every placeholder of a search statement has a value: the statement holds exactly as many
/// `?` as values are bound to it.
pub proof fn law_search_placeholders(
    q: QueryView,
    feed_ids: Seq<i64>,
    sort: Seq<Sort>,
    ascending: bool,
    limit: usize,
)
    ensures
        placeholder_count(search_sql(q, feed_ids.len(), sort, ascending)) == search_args(
            q,
            feed_ids,
            limit,
        ).len(),
{
    lemma_literal_counts();
    let conds = search_conditions(q, feed_ids.len());
    lemma_conditions_count(q, feed_ids.len());
    let w = where_clause(conds);
    if conds.len() > 0 {
        lemma_count_join(conds, " AND "@);
        lemma_count_concat("WHERE "@, join_with(conds, " AND "@));
    }
    let o = order_clause(sort, ascending);
    if sort.len() > 0 {
        let cols = sort.map_values(|s: Sort| sort_column(s) + " "@ + direction(ascending));
        assert forall|i: int| 0 <= i < cols.len() implies placeholder_count(#[trigger] cols[i]) == 0 by {
            lemma_count_concat(sort_column(sort[i]), " "@);
            lemma_count_concat(sort_column(sort[i]) + " "@, direction(ascending));
        }
        lemma_count_join(cols, ", "@);
        lemma_total_uniform(cols, 0);
        lemma_count_concat("ORDER BY "@, join_with(cols, ", "@));
    }
    let p = "SELECT DISTINCT c.id, c.feed, c.published, c.last_modified, c.impact_vector, c.base_score, c.severity, c.configurations FROM descriptions d INNER JOIN cves c ON d.cve = c.id "@;
    lemma_count_concat(p, w);
    lemma_count_concat(p + w, " "@);
    lemma_count_concat(p + w + " "@, o);
    lemma_count_concat(p + w + " "@ + o, " LIMIT ?"@);
}

/// The statement that counts CVEs holds one placeholder per feed.
pub proof fn law_count_placeholders(n: nat)
    ensures
        placeholder_count(count_sql(n)) == n,
{
    lemma_literal_counts();
    reveal_strlit("SELECT COUNT(*) FROM cves WHERE feed IN (");
    lemma_count_none("SELECT COUNT(*) FROM cves WHERE feed IN ("@);
    lemma_placeholders_count(n);
    lemma_count_concat("SELECT COUNT(*) FROM cves WHERE feed IN ("@, placeholders(n));
    lemma_count_concat("SELECT COUNT(*) FROM cves WHERE feed IN ("@ + placeholders(n), ")"@);
}

} // verus!
