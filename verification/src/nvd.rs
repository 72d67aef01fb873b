//! CVE records from the NVD REST API 2.0: the request URL, and the conversion of the items
//! of a response into CVE records with their configuration trees.
use vstd::prelude::*;
use crate::codec::{cpe_of_fs, parse_cpe_fs};
use crate::cve::{
    cpe_matches, law_node_combinators, law_version_range_bounds, node_matches, node_view, nodes_view, opt_view,
    ConfigurationNode, CpeView, Description, NodeView, Reference, Severity, Timestamp, CVE,
};
use crate::text::{push_signed, signed_decimal, str_eq, str_le, str_lt};

verus! {

broadcast use vstd::seq::group_seq_axioms;

/// A reference of an NVD item: its URL and its source.
#[derive(Debug)]
pub struct NvdReference {
    pub url: Option<String>,
    pub source: Option<String>,
}

/// A CPE match of an NVD configuration node.
#[derive(Debug)]
pub struct NvdCpeMatch {
    pub vulnerable: Option<bool>,
    pub criteria: String,
    pub version_start_including: Option<String>,
    pub version_start_excluding: Option<String>,
    pub version_end_including: Option<String>,
    pub version_end_excluding: Option<String>,
}

/// A node of an NVD configuration: CPE matches joined by an operator.
#[derive(Debug)]
pub struct NvdNode {
    pub operator: Option<String>,
    pub negate: Option<bool>,
    pub cpe_match: Option<Vec<NvdCpeMatch>>,
}

/// An NVD configuration: a list of nodes.
#[derive(Debug)]
pub struct NvdConfiguration {
    pub nodes: Vec<NvdNode>,
}

/// A CVE item of an NVD response, without its metrics.
#[derive(Debug)]
pub struct NvdCveItem {
    pub id: String,
    pub source_identifier: Option<String>,
    pub published: String,
    pub last_modified: String,
    pub descriptions: Option<Vec<Description>>,
    pub references: Option<Vec<NvdReference>>,
    pub configurations: Option<Vec<NvdConfiguration>>,
}

/// The present values of a sequence of options, in order.
pub open spec fn somes<A>(s: Seq<Option<A>>) -> Seq<A>
    decreases s.len(),
{
    if s.len() == 0 {
        Seq::empty()
    } else {
        let r = somes(s.drop_last());
        match s.last() {
            Some(x) => r.push(x),
            None => r,
        }
    }
}

proof fn lemma_somes_step<A>(s: Seq<Option<A>>, i: int)
    requires
        0 <= i < s.len(),
    ensures
        somes(s.take(i + 1)) == (match s[i] {
            Some(x) => somes(s.take(i)).push(x),
            None => somes(s.take(i)),
        }),
{
    assert(s.take(i + 1).drop_last() =~= s.take(i));
}

/// The first present bound of two.
pub open spec fn either(a: Option<String>, b: Option<String>) -> Option<Seq<char>> {
    match a {
        Some(x) => Some(x@),
        None => opt_view(b),
    }
}

/// The tree of a CPE match whose criteria name `c`: a version range when the match has a
/// bound, the bare name otherwise.
pub open spec fn bounded_node(m: NvdCpeMatch, c: CpeView) -> NodeView {
    if m.version_start_including is Some || m.version_start_excluding is Some
        || m.version_end_including is Some || m.version_end_excluding is Some {
        NodeView::VersionRange {
            wrapped: c,
            start: either(m.version_start_including, m.version_start_excluding),
            end: either(m.version_end_including, m.version_end_excluding),
            include_start: m.version_start_including is Some,
            include_end: m.version_end_including is Some,
        }
    } else {
        NodeView::Cpe(c)
    }
}

/// The tree of a CPE match: none when its criteria are not a CPE formatted string, negated
/// when the match is not vulnerable (a missing flag counts as vulnerable).
pub open spec fn match_node(m: NvdCpeMatch) -> Option<NodeView> {
    match cpe_of_fs(m.criteria@) {
        None => None,
        Some(c) => Some(
            if m.vulnerable != Some(false) {
                bounded_node(m, c)
            } else {
                NodeView::Negate(Box::new(bounded_node(m, c)))
            },
        ),
    }
}

/// The tree of an NVD node: its matches joined by `And` when the operator is `AND` and by
/// `Or` otherwise; none when it has no usable match.
pub open spec fn node_tree(n: NvdNode) -> Option<NodeView> {
    match n.cpe_match {
        None => None,
        Some(ms) => {
            let children = somes(ms@.map_values(|m: NvdCpeMatch| match_node(m)));
            let negate = n.negate == Some(true);
            if children.len() == 0 {
                None
            } else if opt_view(n.operator) == Some("AND"@) {
                Some(NodeView::And { children, negate })
            } else {
                Some(NodeView::Or { children, negate })
            }
        },
    }
}

/// The tree of an NVD configuration: its only node tree, or an `Or` of several; none when
/// no node gives a tree.
pub open spec fn configuration_tree(c: NvdConfiguration) -> Option<NodeView> {
    let children = somes(c.nodes@.map_values(|n: NvdNode| node_tree(n)));
    if children.len() == 0 {
        None
    } else if children.len() == 1 {
        Some(children[0])
    } else {
        Some(NodeView::Or { children, negate: false })
    }
}

/// The configuration trees of the configurations of an NVD item.
pub open spec fn configuration_trees(configs: Option<Vec<NvdConfiguration>>) -> Seq<NodeView> {
    match configs {
        Some(cs) => somes(cs@.map_values(|c: NvdConfiguration| configuration_tree(c))),
        None => Seq::empty(),
    }
}

/// An NVD CPE match applies to a CPE name exactly when the name matches the match's criteria
/// and its version lies within the match's bounds: at or above `versionStartIncluding`, else
/// above `versionStartExcluding`; at or below `versionEndIncluding`, else below
/// `versionEndExcluding`; a name without a version lies within any bounds. A match that is
/// not vulnerable applies exactly where this fails. Criteria that are not a CPE formatted
/// string give no tree.
pub proof fn law_nvd_match_bounds(m: NvdCpeMatch, c: CpeView)
    ensures
        match cpe_of_fs(m.criteria@) {
            None => match_node(m) is None,
            Some(w) => match match_node(m) {
                None => false,
                Some(t) => node_matches(t, c) <==> ((m.vulnerable != Some(false)) == (cpe_matches(w, c)
                    && match c.version {
                    None => true,
                    Some(v) => {
                        &&& match m.version_start_including {
                            Some(s) => str_le(s@, v),
                            None => match m.version_start_excluding {
                                Some(s) => str_lt(s@, v),
                                None => true,
                            },
                        }
                        &&& match m.version_end_including {
                            Some(e) => str_le(v, e@),
                            None => match m.version_end_excluding {
                                Some(e) => str_lt(v, e@),
                                None => true,
                            },
                        }
                    },
                })),
            },
        },
{
    if let Some(w) = cpe_of_fs(m.criteria@) {
        let b = bounded_node(m, w);
        if let NodeView::VersionRange { wrapped, start, end, include_start, include_end } = b {
            law_version_range_bounds(wrapped, start, end, include_start, include_end, c);
            assert(node_matches(b, c) == (cpe_matches(w, c) && match c.version {
                    None => true,
                    Some(v) => {
                        &&& match m.version_start_including {
                            Some(s) => str_le(s@, v),
                            None => match m.version_start_excluding {
                                Some(s) => str_lt(s@, v),
                                None => true,
                            },
                        }
                        &&& match m.version_end_including {
                            Some(e) => str_le(v, e@),
                            None => match m.version_end_excluding {
                                Some(e) => str_lt(v, e@),
                                None => true,
                            },
                        }
                    },
                }));
        } else {
            assert(node_matches(b, c) == cpe_matches(w, c));
        }
    }
}

/// Whether an optional tree is present and applies to a CPE name.
pub open spec fn tree_applies(o: Option<NodeView>, cpe: CpeView) -> bool {
    match o {
        Some(t) => node_matches(t, cpe),
        None => false,
    }
}

/// Whether an optional tree is absent or applies to a CPE name.
pub open spec fn tree_admits(o: Option<NodeView>, cpe: CpeView) -> bool {
    match o {
        Some(t) => node_matches(t, cpe),
        None => true,
    }
}

proof fn lemma_somes_quantifiers(s: Seq<Option<NodeView>>, cpe: CpeView)
    ensures
        (somes(s).len() == 0) == (forall|i: int| 0 <= i < s.len() ==> (#[trigger] s[i]) is None),
        (forall|j: int| 0 <= j < somes(s).len() ==> node_matches(#[trigger] somes(s)[j], cpe)) == (forall|i: int|
            0 <= i < s.len() ==> tree_admits(#[trigger] s[i], cpe)),
        (exists|j: int| 0 <= j < somes(s).len() && node_matches(#[trigger] somes(s)[j], cpe)) == (exists|i: int|
            0 <= i < s.len() && tree_applies(#[trigger] s[i], cpe)),
    decreases s.len(),
{
    if s.len() > 0 {
        let p = s.drop_last();
        lemma_somes_quantifiers(p, cpe);
        let r = somes(p);
        let l = s.last();
        assert(forall|i: int| 0 <= i < p.len() ==> #[trigger] p[i] == s[i]);
        if l is Some {
            assert(somes(s) == r.push(l->0));
            assert(forall|j: int| 0 <= j < r.len() ==> #[trigger] somes(s)[j] == r[j]);
        } else {
            assert(somes(s) == r);
        }
        if exists|j: int| 0 <= j < somes(s).len() && node_matches(#[trigger] somes(s)[j], cpe) {
            let j = choose|j: int| 0 <= j < somes(s).len() && node_matches(#[trigger] somes(s)[j], cpe);
            if j < r.len() {
                assert(node_matches(r[j], cpe));
                let i = choose|i: int| 0 <= i < p.len() && tree_applies(#[trigger] p[i], cpe);
                assert(tree_applies(s[i], cpe));
            } else {
                assert(tree_applies(s[s.len() - 1], cpe));
            }
        }
        if exists|i: int| 0 <= i < s.len() && tree_applies(#[trigger] s[i], cpe) {
            let i = choose|i: int| 0 <= i < s.len() && tree_applies(#[trigger] s[i], cpe);
            if i < p.len() {
                assert(tree_applies(p[i], cpe));
                let j = choose|j: int| 0 <= j < r.len() && node_matches(#[trigger] r[j], cpe);
                assert(node_matches(somes(s)[j], cpe));
            } else {
                assert(node_matches(somes(s)[r.len() as int], cpe));
            }
        }
        if forall|i: int| 0 <= i < s.len() ==> tree_admits(#[trigger] s[i], cpe) {
            assert(forall|i: int| 0 <= i < p.len() ==> tree_admits(#[trigger] p[i], cpe));
            assert forall|j: int| 0 <= j < somes(s).len() implies node_matches(#[trigger] somes(s)[j], cpe) by {
                if j < r.len() {
                    assert(node_matches(r[j], cpe));
                } else {
                    assert(tree_admits(s[s.len() - 1], cpe));
                }
            }
        }
        if forall|j: int| 0 <= j < somes(s).len() ==> node_matches(#[trigger] somes(s)[j], cpe) {
            assert forall|j: int| 0 <= j < r.len() implies node_matches(#[trigger] r[j], cpe) by {
                assert(node_matches(somes(s)[j], cpe));
            }
            assert forall|i: int| 0 <= i < s.len() implies tree_admits(#[trigger] s[i], cpe) by {
                if i < p.len() {
                    assert(tree_admits(p[i], cpe));
                } else if l is Some {
                    assert(node_matches(somes(s)[r.len() as int], cpe));
                }
            }
        }
        if forall|i: int| 0 <= i < s.len() ==> (#[trigger] s[i]) is None {
            assert(p[p.len() - 1] is None || p.len() == 0);
            assert(forall|i: int| 0 <= i < p.len() ==> (#[trigger] p[i]) is None);
        }
        if somes(s).len() == 0 {
            assert forall|i: int| 0 <= i < s.len() implies (#[trigger] s[i]) is None by {
                if i < p.len() {
                    assert(p[i] is None);
                }
            }
        }
    }
}

/// An NVD node with the operator `AND` applies to a CPE name exactly when each of its usable
/// CPE matches applies, and with any other operator exactly when one of them applies; the
/// node's `negate` flag inverts this. A node without usable matches gives no tree.
pub proof fn law_nvd_node_operator(n: NvdNode, cpe: CpeView)
    ensures
        match n.cpe_match {
            None => node_tree(n) is None,
            Some(ms) => match node_tree(n) {
                None => forall|i: int| 0 <= i < ms@.len() ==> (#[trigger] match_node(ms@[i])) is None,
                Some(t) => node_matches(t, cpe) <==> ((n.negate == Some(true)) != if opt_view(n.operator)
                    == Some("AND"@) {
                    forall|i: int| 0 <= i < ms@.len() ==> tree_admits(#[trigger] match_node(ms@[i]), cpe)
                } else {
                    exists|i: int| 0 <= i < ms@.len() && tree_applies(#[trigger] match_node(ms@[i]), cpe)
                }),
            },
        },
{
    if let Some(ms) = n.cpe_match {
        let opts = ms@.map_values(|m: NvdCpeMatch| match_node(m));
        lemma_somes_quantifiers(opts, cpe);
        assert(forall|i: int| 0 <= i < ms@.len() ==> opts[i] == #[trigger] match_node(ms@[i]));
        if forall|i: int| 0 <= i < ms@.len() ==> tree_admits(#[trigger] match_node(ms@[i]), cpe) {
            assert(forall|i: int| 0 <= i < opts.len() ==> tree_admits(#[trigger] opts[i], cpe));
        }
        if forall|i: int| 0 <= i < opts.len() ==> tree_admits(#[trigger] opts[i], cpe) {
            assert(forall|i: int| 0 <= i < ms@.len() ==> tree_admits(#[trigger] match_node(ms@[i]), cpe));
        }
        if exists|i: int| 0 <= i < opts.len() && tree_applies(#[trigger] opts[i], cpe) {
            let i = choose|i: int| 0 <= i < opts.len() && tree_applies(#[trigger] opts[i], cpe);
            assert(tree_applies(match_node(ms@[i]), cpe));
        }
        if exists|i: int| 0 <= i < ms@.len() && tree_applies(#[trigger] match_node(ms@[i]), cpe) {
            let i = choose|i: int| 0 <= i < ms@.len() && tree_applies(#[trigger] match_node(ms@[i]), cpe);
            assert(tree_applies(opts[i], cpe));
        }
        if forall|i: int| 0 <= i < opts.len() ==> (#[trigger] opts[i]) is None {
            assert(forall|i: int| 0 <= i < ms@.len() ==> (#[trigger] match_node(ms@[i])) is None);
        }
        let children = somes(opts);
        let negate = n.negate == Some(true);
        if children.len() == 0 {
            assert(node_tree(n) is None);
            assert(forall|i: int| 0 <= i < ms@.len() ==> (#[trigger] match_node(ms@[i])) is None);
        } else if opt_view(n.operator) == Some("AND"@) {
            assert(node_tree(n) == Some(NodeView::And { children, negate }));
            law_node_combinators(children, negate, children[0], cpe);
            assert(node_matches(node_tree(n)->0, cpe) == ((forall|i: int|
                0 <= i < ms@.len() ==> tree_admits(#[trigger] match_node(ms@[i]), cpe)) != negate));
        } else {
            assert(node_tree(n) == Some(NodeView::Or { children, negate }));
            law_node_combinators(children, negate, children[0], cpe);
            assert(node_matches(node_tree(n)->0, cpe) == ((exists|i: int|
                0 <= i < ms@.len() && tree_applies(#[trigger] match_node(ms@[i]), cpe)) != negate));
        }
    }
}

/// An NVD configuration applies to a CPE name exactly when one of its nodes gives a tree that
/// applies; a configuration whose nodes give no tree gives none.
pub proof fn law_nvd_configuration_any(cfg: NvdConfiguration, cpe: CpeView)
    ensures
        match configuration_tree(cfg) {
            None => forall|i: int| 0 <= i < cfg.nodes@.len() ==> (#[trigger] node_tree(cfg.nodes@[i])) is None,
            Some(t) => node_matches(t, cpe) <==> exists|i: int|
                0 <= i < cfg.nodes@.len() && tree_applies(#[trigger] node_tree(cfg.nodes@[i]), cpe),
        },
{
    let opts = cfg.nodes@.map_values(|n: NvdNode| node_tree(n));
    let children = somes(opts);
    lemma_somes_quantifiers(opts, cpe);
    assert(forall|i: int| 0 <= i < cfg.nodes@.len() ==> opts[i] == #[trigger] node_tree(cfg.nodes@[i]));
    if exists|i: int| 0 <= i < opts.len() && tree_applies(#[trigger] opts[i], cpe) {
        let i = choose|i: int| 0 <= i < opts.len() && tree_applies(#[trigger] opts[i], cpe);
        assert(tree_applies(node_tree(cfg.nodes@[i]), cpe));
    }
    if exists|i: int| 0 <= i < cfg.nodes@.len() && tree_applies(#[trigger] node_tree(cfg.nodes@[i]), cpe) {
        let i = choose|i: int| 0 <= i < cfg.nodes@.len() && tree_applies(#[trigger] node_tree(cfg.nodes@[i]), cpe);
        assert(tree_applies(opts[i], cpe));
    }
    if forall|i: int| 0 <= i < opts.len() ==> (#[trigger] opts[i]) is None {
        assert(forall|i: int| 0 <= i < cfg.nodes@.len() ==> (#[trigger] node_tree(cfg.nodes@[i])) is None);
    }
    if children.len() == 0 {
        assert(configuration_tree(cfg) is None);
    } else if children.len() == 1 {
        assert(configuration_tree(cfg) == Some(children[0]));
        if node_matches(children[0], cpe) {
            assert(exists|j: int| 0 <= j < children.len() && node_matches(#[trigger] children[j], cpe));
        }
        if exists|j: int| 0 <= j < children.len() && node_matches(#[trigger] children[j], cpe) {
            let j = choose|j: int| 0 <= j < children.len() && node_matches(#[trigger] children[j], cpe);
            assert(j == 0);
        }
    } else {
        assert(configuration_tree(cfg) == Some(NodeView::Or { children, negate: false }));
        law_node_combinators(children, false, children[0], cpe);
    }
}

/// The configuration trees of an NVD item include one that applies to a CPE name exactly when
/// one of the item's configurations gives a tree that applies.
pub proof fn law_nvd_configs_any(configs: Option<Vec<NvdConfiguration>>, cpe: CpeView)
    ensures
        (exists|i: int|
            0 <= i < configuration_trees(configs).len() && node_matches(
                #[trigger] configuration_trees(configs)[i],
                cpe,
            )) <==> match configs {
            None => false,
            Some(cs) => exists|i: int|
                0 <= i < cs@.len() && tree_applies(#[trigger] configuration_tree(cs@[i]), cpe),
        },
{
    if let Some(cs) = configs {
        let opts = cs@.map_values(|c: NvdConfiguration| configuration_tree(c));
        lemma_somes_quantifiers(opts, cpe);
        assert(configuration_trees(configs) == somes(opts));
        assert(forall|i: int| 0 <= i < cs@.len() ==> opts[i] == #[trigger] configuration_tree(cs@[i]));
        if exists|i: int| 0 <= i < opts.len() && tree_applies(#[trigger] opts[i], cpe) {
            let i = choose|i: int| 0 <= i < opts.len() && tree_applies(#[trigger] opts[i], cpe);
            assert(tree_applies(configuration_tree(cs@[i]), cpe));
        }
        if exists|i: int| 0 <= i < cs@.len() && tree_applies(#[trigger] configuration_tree(cs@[i]), cpe) {
            let i = choose|i: int| 0 <= i < cs@.len() && tree_applies(#[trigger] configuration_tree(cs@[i]), cpe);
            assert(tree_applies(opts[i], cpe));
        }
    }
}

fn clone_opt(o: &Option<String>) -> (r: Option<String>)
    ensures
        r == *o,
{
    match o {
        Some(s) => Some(s.clone()),
        None => None,
    }
}

fn first_of(a: &Option<String>, b: &Option<String>) -> (r: Option<String>)
    ensures
        opt_view(r) == either(*a, *b),
{
    match a {
        Some(x) => Some(x.clone()),
        None => clone_opt(b),
    }
}

fn match_tree(m: &NvdCpeMatch) -> (r: Option<ConfigurationNode>)
    ensures
        match match_node(*m) {
            Some(v) => r matches Some(n) && node_view(n) == v,
            None => r is None,
        },
{
    match parse_cpe_fs(m.criteria.as_str()) {
        Err(_) => None,
        Ok(cpe) => {
            let vulnerable = match m.vulnerable {
                Some(v) => v,
                None => true,
            };
            let child = if m.version_start_including.is_some() || m.version_start_excluding.is_some()
                || m.version_end_including.is_some() || m.version_end_excluding.is_some() {
                ConfigurationNode::VersionRange {
                    wrapped: cpe,
                    start: first_of(&m.version_start_including, &m.version_start_excluding),
                    end: first_of(&m.version_end_including, &m.version_end_excluding),
                    include_start: m.version_start_including.is_some(),
                    include_end: m.version_end_including.is_some(),
                }
            } else {
                ConfigurationNode::Cpe(cpe)
            };
            assert(cpe_of_fs(m.criteria@) == Some(cpe@));
            assert(node_view(child) == bounded_node(*m, cpe@));
            assert(vulnerable == (m.vulnerable != Some(false)));
            if vulnerable {
                Some(child)
            } else {
                Some(ConfigurationNode::Negate(Box::new(child)))
            }
        },
    }
}

fn node_of(n: &NvdNode) -> (r: Option<ConfigurationNode>)
    ensures
        match node_tree(*n) {
            Some(v) => r matches Some(x) && node_view(x) == v,
            None => r is None,
        },
{
    match &n.cpe_match {
        None => None,
        Some(matches) => {
            let ghost opts = matches@.map_values(|m: NvdCpeMatch| match_node(m));
            let mut children: Vec<ConfigurationNode> = Vec::new();
            let mut i: usize = 0;
            assert(opts.take(0) =~= Seq::<Option<NodeView>>::empty());
            while i < matches.len()
                invariant
                    i <= matches@.len(),
                    opts == matches@.map_values(|m: NvdCpeMatch| match_node(m)),
                    nodes_view(children@) == somes(opts.take(i as int)),
                decreases matches.len() - i,
            {
                let ghost before = children@;
                proof {
                    lemma_somes_step(opts, i as int);
                }
                match match_tree(&matches[i]) {
                    Some(x) => {
                        children.push(x);
                        assert(nodes_view(children@) =~= nodes_view(before).push(node_view(x)));
                    },
                    None => {},
                }
                i += 1;
            }
            assert(opts.take(i as int) =~= opts);
            let negate = match n.negate {
                Some(b) => b,
                None => false,
            };
            if children.len() == 0 {
                return None;
            }
            let is_and = match &n.operator {
                Some(op) => str_eq(op.as_str(), "AND"),
                None => false,
            };
            if is_and {
                let node = ConfigurationNode::And { children, negate };
                assert(node_view(node)->And_children =~= nodes_view(children@));
                Some(node)
            } else {
                proof {
                    if n.operator is None {
                        assert(opt_view(n.operator) != Some("AND"@));
                    }
                }
                let node = ConfigurationNode::Or { children, negate };
                assert(node_view(node)->Or_children =~= nodes_view(children@));
                Some(node)
            }
        },
    }
}

fn configuration_of(c: &NvdConfiguration) -> (r: Option<ConfigurationNode>)
    ensures
        match configuration_tree(*c) {
            Some(v) => r matches Some(x) && node_view(x) == v,
            None => r is None,
        },
{
    let ghost opts = c.nodes@.map_values(|n: NvdNode| node_tree(n));
    let mut children: Vec<ConfigurationNode> = Vec::new();
    let mut i: usize = 0;
    assert(opts.take(0) =~= Seq::<Option<NodeView>>::empty());
    while i < c.nodes.len()
        invariant
            i <= c.nodes@.len(),
            opts == c.nodes@.map_values(|n: NvdNode| node_tree(n)),
            nodes_view(children@) == somes(opts.take(i as int)),
        decreases c.nodes.len() - i,
    {
        let ghost before = children@;
        proof {
            lemma_somes_step(opts, i as int);
        }
        match node_of(&c.nodes[i]) {
            Some(x) => {
                children.push(x);
                assert(nodes_view(children@) =~= nodes_view(before).push(node_view(x)));
            },
            None => {},
        }
        i += 1;
    }
    assert(opts.take(i as int) =~= opts);
    if children.len() == 0 {
        None
    } else if children.len() == 1 {
        let ghost ch = children@;
        match children.pop() {
            Some(only) => {
                assert(nodes_view(ch)[0] == node_view(only));
                Some(only)
            },
            None => None,
        }
    } else {
        let node = ConfigurationNode::Or { children, negate: false };
        assert(node_view(node)->Or_children =~= nodes_view(children@));
        Some(node)
    }
}

/// The configuration trees of the configurations of an NVD item.
pub fn parse_nvd_configs(configs: &Option<Vec<NvdConfiguration>>) -> (r: Vec<ConfigurationNode>)
    ensures
        nodes_view(r@) == configuration_trees(*configs),
{
    let mut result: Vec<ConfigurationNode> = Vec::new();
    match configs {
        None => {
            assert(nodes_view(result@) =~= Seq::<NodeView>::empty());
        },
        Some(list) => {
            let ghost opts = list@.map_values(|c: NvdConfiguration| configuration_tree(c));
            let mut i: usize = 0;
            assert(opts.take(0) =~= Seq::<Option<NodeView>>::empty());
            while i < list.len()
                invariant
                    i <= list@.len(),
                    opts == list@.map_values(|c: NvdConfiguration| configuration_tree(c)),
                    nodes_view(result@) == somes(opts.take(i as int)),
                decreases list.len() - i,
            {
                let ghost before = result@;
                proof {
                    lemma_somes_step(opts, i as int);
                }
                match configuration_of(&list[i]) {
                    Some(x) => {
                        result.push(x);
                        assert(nodes_view(result@) =~= nodes_view(before).push(node_view(x)));
                    },
                    None => {},
                }
                i += 1;
            }
            assert(opts.take(i as int) =~= opts);
        },
    }
    result
}

/// The references of a CVE record taken from NVD references: the source becomes the name.
pub open spec fn nvd_references(rs: Seq<NvdReference>) -> Seq<Reference> {
    rs.map_values(|r: NvdReference| Reference { url: r.url, name: r.source })
}

/// Whether `c` is the CVE record of an NVD item, with the given times and metrics.
pub open spec fn record_of_item(
    c: CVE,
    item: NvdCveItem,
    published: Timestamp,
    last_modified: Timestamp,
    impact_vector: Option<String>,
    severity: Severity,
) -> bool {
    &&& c.cve_id == item.id
    &&& c.feed == 0
    &&& c.published == published
    &&& c.last_modified == last_modified
    &&& c.impact_vector == impact_vector
    &&& c.severity == severity
    &&& c.descriptions@ == match item.descriptions {
        Some(v) => v@,
        None => Seq::empty(),
    }
    &&& c.references@ == match item.references {
        Some(v) => nvd_references(v@),
        None => Seq::empty(),
    }
    &&& nodes_view(c.configurations@) == configuration_trees(item.configurations)
    &&& c.assigner == item.source_identifier
}

/// The CVE record of an NVD item whose times have been read, with the metrics chosen for it.
pub fn cve_from_item(
    item: NvdCveItem,
    published: Timestamp,
    last_modified: Timestamp,
    impact_vector: Option<String>,
    severity: Severity,
) -> (c: CVE)
    ensures
        record_of_item(c, item, published, last_modified, impact_vector, severity),
{
    let configurations = parse_nvd_configs(&item.configurations);
    let descriptions = match item.descriptions {
        Some(v) => v,
        None => Vec::new(),
    };
    let mut references: Vec<Reference> = Vec::new();
    match item.references {
        Some(v) => {
            let ghost rs = v@;
            assert(v.len() == rs.len());
            for r in it: v.into_iter()
                invariant
                    rs == it.seq(),
                    references@ == nvd_references(rs.take(it.index() as int)),
            {
                let ghost k = it.index() as int;
                proof {
                    assert(rs[k] == r);
                }
                references.push(Reference { url: r.url, name: r.source });
                proof {
                    assert(rs.take(k + 1) =~= rs.take(k).push(rs[k]));
                    assert(references@ =~= nvd_references(rs.take(k + 1)));
                }
            }
            proof {
                assert(rs.take(rs.len() as int) =~= rs);
            }
        },
        None => {
            assert(references@ =~= Seq::<Reference>::empty());
        },
    }
    CVE {
        cve_id: item.id,
        feed: 0,
        published,
        last_modified,
        impact_vector,
        severity,
        descriptions,
        references,
        configurations,
        assigner: item.source_identifier,
    }
}

/// The time that an NVD date reads as: `chrono::NaiveDateTime::parse_from_str` with the
/// format `%Y-%m-%dT%H:%M:%S%.f`, taken as UTC.
pub uninterp spec fn nvd_time(s: Seq<char>) -> Option<Timestamp>;

/// Reads a date of the NVD API, such as `2024-01-15T06:23:19.000`, which is always UTC.
///
/// Calls `chrono::NaiveDateTime::parse_from_str` with the format `%Y-%m-%dT%H:%M:%S%.f` and
/// takes the result as UTC; the contract only ties the result to the text through the name
/// `nvd_time`.
#[verifier::external_body]
fn parse_nvd_date(s: &str) -> (r: Option<Timestamp>)
    ensures
        r == nvd_time(s@),
{
    match chrono::NaiveDateTime::parse_from_str(s, "%Y-%m-%dT%H:%M:%S%.f") {
        Ok(naive) => {
            let dt = chrono::DateTime::<chrono::Utc>::from_naive_utc_and_offset(naive, chrono::Utc);
            Some(Timestamp { secs: dt.timestamp(), nanos: dt.timestamp_subsec_nanos() })
        },
        Err(_) => None,
    }
}

/// The CVE record of an NVD item, with the metrics chosen for it; none when its publication
/// or modification date cannot be read.
pub fn parse_nvd_cve(item: NvdCveItem, impact_vector: Option<String>, severity: Severity) -> (r: Option<CVE>)
    ensures
        match (nvd_time(item.published@), nvd_time(item.last_modified@)) {
            (Some(p), Some(l)) => r matches Some(c) && record_of_item(c, item, p, l, impact_vector, severity),
            _ => r is None,
        },
{
    let published = match parse_nvd_date(item.published.as_str()) {
        Some(t) => t,
        None => return None,
    };
    let last_modified = match parse_nvd_date(item.last_modified.as_str()) {
        Some(t) => t,
        None => return None,
    };
    Some(cve_from_item(item, published, last_modified, impact_vector, severity))
}

/// The text of a time in NVD requests: `chrono` formatting with `%Y-%m-%dT%H:%M:%S%.3f`.
pub uninterp spec fn nvd_time_text(secs: i64, nanos: u32) -> Option<Seq<char>>;

/// Writes a time as the NVD API expects it in requests, without the zone.
///
/// Calls `chrono::DateTime::from_timestamp` and then `format` with `%Y-%m-%dT%H:%M:%S%.3f`;
/// the result is none when the time is out of chrono's range. The contract only ties the
/// text to the time through the name `nvd_time_text`.
#[verifier::external_body]
fn format_nvd_time(t: Timestamp) -> (r: Option<String>)
    ensures
        opt_view(r) == nvd_time_text(t.secs, t.nanos),
{
    match chrono::DateTime::from_timestamp(t.secs, t.nanos) {
        Some(dt) => Some(dt.format("%Y-%m-%dT%H:%M:%S%.3f").to_string()),
        None => None,
    }
}

/// The URL of a request for a page of CVEs, with optional bounds on their modification
/// times written as NVD expects them.
pub open spec fn request_url(
    start_index: i32,
    per_page: i32,
    start: Option<Seq<char>>,
    end: Option<Seq<char>>,
) -> Seq<char> {
    "https://services.nvd.nist.gov/rest/json/cves/2.0"@ + "?startIndex="@ + signed_decimal(
        start_index as int,
    ) + "&resultsPerPage="@ + signed_decimal(per_page as int) + (match start {
        Some(t) => "&lastModStartDate="@ + t + "Z"@,
        None => Seq::empty(),
    }) + (match end {
        Some(t) => "&lastModEndDate="@ + t + "Z"@,
        None => Seq::empty(),
    })
}

/// The URL of a request for a page of CVEs, given the texts of its bounds.
pub fn url_with_bounds(start_index: i32, per_page: i32, start: Option<&str>, end: Option<&str>) -> (r: String)
    ensures
        r@ == request_url(
            start_index,
            per_page,
            match start {
                Some(t) => Some(t@),
                None => None,
            },
            match end {
                Some(t) => Some(t@),
                None => None,
            },
        ),
{
    let mut url = String::new();
    url.append("https://services.nvd.nist.gov/rest/json/cves/2.0");
    url.append("?startIndex=");
    push_signed(&mut url, start_index as i64);
    url.append("&resultsPerPage=");
    push_signed(&mut url, per_page as i64);
    match start {
        Some(t) => {
            url.append("&lastModStartDate=");
            url.append(t);
            url.append("Z");
        },
        None => {},
    }
    match end {
        Some(t) => {
            url.append("&lastModEndDate=");
            url.append(t);
            url.append("Z");
        },
        None => {},
    }
    proof {
        let sv = match start {
            Some(t) => Some(t@),
            None => None::<Seq<char>>,
        };
        let ev = match end {
            Some(t) => Some(t@),
            None => None::<Seq<char>>,
        };
        assert(url@ =~= request_url(start_index, per_page, sv, ev));
    }
    url
}

/// The end bound of a request: the given one, or the current time when only a start is given.
pub open spec fn request_end(start: Option<Timestamp>, end: Option<Timestamp>, now: Timestamp) -> Option<Timestamp> {
    match end {
        Some(e) => Some(e),
        None => match start {
            Some(_) => Some(now),
            None => None,
        },
    }
}

/// The text of an optional bound, if its time can be written.
pub open spec fn bound_text_of(t: Option<Timestamp>) -> Option<Option<Seq<char>>> {
    match t {
        None => Some(None),
        Some(x) => match nvd_time_text(x.secs, x.nanos) {
            Some(s) => Some(Some(s)),
            None => None,
        },
    }
}

/// The URL of a request for a page of CVEs modified between `start` and `end`; with a start
/// and no end, `now` ends the range. None when a bound is out of chrono's range of times.
pub fn fetch_url(
    start: Option<Timestamp>,
    end: Option<Timestamp>,
    now: Timestamp,
    start_index: i32,
    per_page: i32,
) -> (r: Option<String>)
    ensures
        match (bound_text_of(start), bound_text_of(request_end(start, end, now))) {
            (Some(s), Some(e)) => r matches Some(u) && u@ == request_url(start_index, per_page, s, e),
            _ => r is None,
        },
{
    let end_time = match end {
        Some(e) => Some(e),
        None => match start {
            Some(_) => Some(now),
            None => None,
        },
    };
    let start_text = match start {
        Some(t) => match format_nvd_time(t) {
            Some(s) => Some(s),
            None => return None,
        },
        None => None,
    };
    let end_text = match end_time {
        Some(t) => match format_nvd_time(t) {
            Some(s) => Some(s),
            None => return None,
        },
        None => None,
    };
    let s_ref: Option<&str> = match &start_text {
        Some(s) => Some(s.as_str()),
        None => None,
    };
    let e_ref: Option<&str> = match &end_text {
        Some(s) => Some(s.as_str()),
        None => None,
    };
    Some(url_with_bounds(start_index, per_page, s_ref, e_ref))
}

/// The metric keys of an NVD item, most preferred first: CVSS 3.1, then 3.0, then 2.0.
pub open spec fn metric_key(i: int) -> Seq<char> {
    if i == 0 {
        "cvssMetricV31"@
    } else if i == 1 {
        "cvssMetricV30"@
    } else {
        "cvssMetricV2"@
    }
}

/// The metric keys of an NVD item, most preferred first.
pub fn metric_keys() -> (r: [&'static str; 3])
    ensures
        forall|i: int| 0 <= i < 3 ==> (#[trigger] r@[i])@ == metric_key(i),
{
    ["cvssMetricV31", "cvssMetricV30", "cvssMetricV2"]
}

/// Whether the metric of a key is a CVSS 3 one, whose scores map to severities on the
/// CVSS 3 scale.
pub fn is_cvss3_metric(i: usize) -> (r: bool)
    ensures
        r == (i < 2),
{
    i < 2
}

/// The metric to read: the first key, in order of preference, whose first metric has CVSS
/// data; none when no key has one.
pub fn preferred_metric(has_data: &[bool; 3]) -> (r: Option<usize>)
    ensures
        match r {
            Some(k) => k < 3 && has_data@[k as int] && forall|j: int| 0 <= j < k ==> !has_data@[j],
            None => forall|j: int| 0 <= j < 3 ==> !has_data@[j],
        },
{
    let mut i: usize = 0;
    while i < 3
        invariant
            i <= 3,
            forall|j: int| 0 <= j < i ==> !has_data@[j],
        decreases 3 - i,
    {
        if has_data[i] {
            return Some(i);
        }
        i += 1;
    }
    None
}

} // verus!
